//! Values of different types in one runtime.
use vstd::prelude::*;

verus! {

/// A type whose values can be kept in a runtime that stores values of type `V`.
///
/// A runtime stores values of one type. Cowns that protect values of different
/// types share a runtime by packing them into a common one, such as an
/// enumeration of all of them.
pub trait Resource<V>: Sized {
    /// The value in its common form.
    spec fn packed(self) -> V;

    /// `v` is the common form of a value of this type.
    spec fn packs(v: V) -> bool;

    /// Packs a value.
    fn pack(self) -> (v: V)
        ensures
            v == self.packed(),
            Self::packs(v),
    ;

    /// Unpacks a value.
    fn unpack(v: V) -> (value: Self)
        requires
            Self::packs(v),
        ensures
            value.packed() == v,
    ;
}

/// Where all values have the same type there is nothing to pack.
impl<V> Resource<V> for V {
    open spec fn packed(self) -> V {
        self
    }

    open spec fn packs(v: V) -> bool {
        true
    }

    fn pack(self) -> (v: V) {
        self
    }

    fn unpack(v: V) -> (value: V) {
        v
    }
}

} // verus!
