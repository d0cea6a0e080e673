//! Cowns, and the handles by which they are named.
use crate::locked::coupling::{lemma_add_cown_step, lemma_reclaim_step, lemma_value_step};
use crate::locked::memory::{Cown, Location, Memory, Request};
use crate::locked::runtime::Runtime;
use crate::moves::Move;
use crate::protocol::ReqId;
use crate::resource::Resource;
use std::marker::PhantomData;
use vstd::prelude::*;

verus! {

/// A handle on a cown. Copies of a handle name the same cown.
pub struct ArcCown<T> {
    inner: usize,
    marker: PhantomData<T>,
}

impl<T> ArcCown<T> {
    /// The name of the cown.
    pub closed spec fn addr(self) -> usize {
        self.inner
    }

    /// Creates a cown that holds `value`.
    pub fn new<V, F>(rt: &mut Runtime<V, F>, value: T) -> (ptr: ArcCown<T>) where T: Resource<V>
        requires
            old(rt).wf(),
        ensures
            final(rt).wf(),
            ptr.addr() == old(rt)@.cowns.len(),
            final(rt)@ == old(rt)@.add_cown(value.packed()),
            T::packs(value.packed()),
    {
        let packed = value.pack();
        proof {
            lemma_add_cown_step(rt@, packed);
        }
        let inner: usize = rt.push_cown(
            Cown { last_request: None, borrow_at: None, resource: Some(packed) },
        );
        let ghost model = rt@.model.apply(Move::AddCown);
        rt.note(Ghost(model));
        ArcCown { inner, marker: PhantomData }
    }

    /// The name of the cown, without the type of its value.
    pub fn into_dyn(self) -> (addr: usize)
        ensures
            addr == self.addr(),
    {
        self.inner
    }

    /// Where the value is borrowed, if it is.
    pub fn borrowed_at<V, F>(&self, rt: &Runtime<V, F>) -> (at: Option<Location>)
        requires
            self.addr() < rt@.cowns.len(),
        ensures
            at == rt@.cowns[self.addr() as int].borrow_at,
    {
        rt.cown(self.inner).borrow_at
    }

    /// Borrows the value at the place `at` of the program, for the behaviour `b`,
    /// which runs and holds the cown. A value that is borrowed cannot be borrowed
    /// again.
    pub fn get_mut<V, F>(&self, rt: &mut Runtime<V, F>, b: u64, at: Location) -> (value: RefMut<T>) where
        T: Resource<V>,

        requires
            old(rt).wf(),
            old(rt)@.running_with(b, self.addr()),
            self.addr() < old(rt)@.cowns.len(),
            old(rt)@.cowns[self.addr() as int].borrow_at is None,
            old(rt)@.cowns[self.addr() as int].resource is Some,
            T::packs(old(rt)@.cowns[self.addr() as int].resource->Some_0),
        ensures
            final(rt).wf(),
            final(rt)@ == old(rt)@.with_borrow(self.addr() as int, at),
            Some(value.value().packed()) == old(rt)@.cowns[self.addr() as int].resource,
            value.holder() == *self,
    {
        proof {
            lemma_borrow(rt@, b, self.addr(), at);
        }
        let value = T::unpack(rt.borrow_value(self.inner, at));
        RefMut { value, holder: self.clone() }
    }

    /// Moves the value out of the cown, unless somebody asks for the cown. `rest`
    /// takes the place of the value.
    ///
    /// This is for the last handle: a cown stays as long as its runtime, but its
    /// value need not.
    pub fn reclaim<V, F>(self, rt: &mut Runtime<V, F>, rest: V) -> (value: Option<V>)
        requires
            old(rt).wf(),
            self.addr() < old(rt)@.cowns.len(),
        ensures
            final(rt).wf(),
            value is Some <==> old(rt)@.cowns[self.addr() as int].last_request is None,
            value is Some ==> value == old(rt)@.cowns[self.addr() as int].resource,
            final(rt)@ == (if value is Some {
                old(rt)@.with_value(self.addr() as int, rest)
            } else {
                old(rt)@
            }),
    {
        if rt.cown(self.inner).last_request.is_none() {
            proof {
                lemma_reclaim_step(rt@, self.addr() as int, rest);
            }
            Some(rt.replace_value(self.inner, rest))
        } else {
            None
        }
    }
}

impl<T> Clone for ArcCown<T> {
    fn clone(&self) -> (ptr: ArcCown<T>)
        ensures
            ptr == *self,
    {
        ArcCown { inner: self.inner, marker: PhantomData }
    }
}

/// A borrowed value, and the cown that it belongs to.
pub struct RefMut<T> {
    value: T,
    holder: ArcCown<T>,
}

impl<T> RefMut<T> {
    /// The value.
    pub closed spec fn value(self) -> T {
        self.value
    }

    /// The cown that the value belongs to.
    pub closed spec fn holder(self) -> ArcCown<T> {
        self.holder
    }

    /// Looks at the value.
    pub fn deref(&self) -> (value: &T)
        ensures
            *value == self.value(),
    {
        &self.value
    }

    /// Gives access to the value.
    pub fn deref_mut(&mut self) -> (value: &mut T)
        ensures
            *value == old(self).value(),
            final(self).value() == *final(value),
            final(self).holder() == old(self).holder(),
    {
        &mut self.value
    }

    /// Puts the value back into its cown.
    pub fn drop<V, F>(self, rt: &mut Runtime<V, F>, b: u64) where T: Resource<V>
        requires
            old(rt).wf(),
            old(rt)@.running_with(b, self.holder().addr()),
            self.holder().addr() < old(rt)@.cowns.len(),
            old(rt)@.cowns[self.holder().addr() as int].resource is None,
        ensures
            final(rt).wf(),
            final(rt)@ == old(rt)@.with_value(self.holder().addr() as int, self.value().packed()),
            T::packs(self.value().packed()),
    {
        let packed = self.value.pack();
        proof {
            lemma_return(rt@, b, self.holder.addr(), packed);
        }
        rt.return_value(self.holder.inner, packed);
    }
}

impl<T, F> Memory<T, F> {
    /// `b` runs and holds the cown `c`.
    pub open spec fn running_with(self, b: u64, c: usize) -> bool {
        &&& self.live(b)
        &&& self.phase(b) is Running
        &&& exists|r: ReqId| r.behavior == b && #[trigger] self.is_request(r) && self.target(r) == c
    }

    /// `b` runs, holds the cowns `addrs`, and has not borrowed their values.
    pub open spec fn lendable(self, b: u64, addrs: Seq<usize>) -> bool {
        &&& forall|i: int| 0 <= i < addrs.len() ==> {
            &&& self.running_with(b, #[trigger] addrs[i])
            &&& addrs[i] < self.cowns.len()
            &&& self.cowns[addrs[i] as int].resource is Some
            &&& self.cowns[addrs[i] as int].borrow_at is None
        }
        &&& addrs.no_duplicates()
    }

    /// The values of the cowns `addrs`.
    pub open spec fn values(self, addrs: Seq<usize>) -> Seq<T> {
        Seq::new(addrs.len(), |i: int| self.cowns[addrs[i] as int].resource->Some_0)
    }

    /// The values of the cowns `addrs` have been borrowed at `at`.
    pub open spec fn lend(self, addrs: Seq<usize>, at: Location) -> Memory<T, F>
        decreases addrs.len(),
    {
        if addrs.len() == 0 {
            self
        } else {
            self.with_borrow(addrs[0] as int, at).lend(addrs.drop_first(), at)
        }
    }

    /// `b` runs, holds the cowns `addrs`, and has borrowed their values.
    pub open spec fn returnable(self, b: u64, addrs: Seq<usize>) -> bool {
        &&& forall|i: int| 0 <= i < addrs.len() ==> {
            &&& self.running_with(b, #[trigger] addrs[i])
            &&& addrs[i] < self.cowns.len()
            &&& self.cowns[addrs[i] as int].resource is None
        }
        &&& addrs.no_duplicates()
    }

    /// The values have been put into the cowns `addrs`.
    pub open spec fn give_back(self, addrs: Seq<usize>, values: Seq<T>) -> Memory<T, F>
        decreases addrs.len(),
    {
        if addrs.len() == 0 {
            self
        } else {
            self.with_value(addrs[0] as int, values[0]).give_back(addrs.drop_first(), values.drop_first())
        }
    }
}

/// Borrowing one value.
proof fn lemma_borrow<T, F>(s: Memory<T, F>, b: u64, a: usize, at: Location)
    requires
        s.inv(),
        s.running_with(b, a),
        a < s.cowns.len(),
    ensures
        s.with_borrow(a as int, at).inv(),
{
    let r = choose|r: ReqId| r.behavior == b && #[trigger] s.is_request(r) && s.target(r) == a;
    lemma_value_step(s, r, s.with_borrow(a as int, at).cowns[a as int]);
}

/// Returning one value.
proof fn lemma_return<T, F>(s: Memory<T, F>, b: u64, a: usize, value: T)
    requires
        s.inv(),
        s.running_with(b, a),
        a < s.cowns.len(),
    ensures
        s.with_value(a as int, value).inv(),
{
    let r = choose|r: ReqId| r.behavior == b && #[trigger] s.is_request(r) && s.target(r) == a;
    lemma_value_step(s, r, s.with_value(a as int, value).cowns[a as int]);
}

/// A change of one cown leaves the others as they are, and whoever runs with
/// them.
proof fn lemma_others<T, F>(s: Memory<T, F>, t: Memory<T, F>, b: u64, addrs: Seq<usize>)
    requires
        addrs.len() > 0,
        addrs.no_duplicates(),
        forall|i: int| 0 <= i < addrs.len() ==> s.running_with(b, #[trigger] addrs[i]) && addrs[i] < s.cowns.len(),
        t == s.with_cown(addrs[0] as int, t.cowns[addrs[0] as int]),
    ensures
        addrs.drop_first().no_duplicates(),
        forall|i: int| 0 <= i < addrs.len() - 1 ==> {
            &&& t.running_with(b, #[trigger] addrs.drop_first()[i])
            &&& addrs.drop_first()[i] == addrs[i + 1]
            &&& addrs[i + 1] < t.cowns.len()
            &&& t.cowns[addrs[i + 1] as int] == s.cowns[addrs[i + 1] as int]
        },
{
    let rest = addrs.drop_first();
    assert forall|i: int| 0 <= i < rest.len() implies {
        &&& t.running_with(b, #[trigger] rest[i])
        &&& rest[i] == addrs[i + 1]
        &&& addrs[i + 1] < t.cowns.len()
        &&& t.cowns[addrs[i + 1] as int] == s.cowns[addrs[i + 1] as int]
    } by {
        assert(addrs[0] != addrs[i + 1]);
        assert(s.running_with(b, addrs[i + 1]));
        let x = choose|x: ReqId| x.behavior == b && #[trigger] s.is_request(x) && s.target(x) == rest[i];
        assert(t.is_request(x) && t.target(x) == rest[i]);
    }
    assert forall|i: int, j: int| 0 <= i < rest.len() && 0 <= j < rest.len() && i != j implies rest[i] != rest[j] by {
        assert(addrs[i + 1] != addrs[j + 1]);
    }
}

/// Borrowing the first of several values.
pub proof fn lemma_lend_one<T, F>(s: Memory<T, F>, b: u64, addrs: Seq<usize>, at: Location)
    requires
        s.inv(),
        s.lendable(b, addrs),
        addrs.len() > 0,
    ensures
        s.with_borrow(addrs[0] as int, at).inv(),
        s.with_borrow(addrs[0] as int, at).lendable(b, addrs.drop_first()),
        s.with_borrow(addrs[0] as int, at).values(addrs.drop_first()) == s.values(addrs).drop_first(),
{
    let t = s.with_borrow(addrs[0] as int, at);
    lemma_borrow(s, b, addrs[0], at);
    lemma_others(s, t, b, addrs);
    assert(t.values(addrs.drop_first()) =~= s.values(addrs).drop_first());
}

/// Returning the first of several values.
pub proof fn lemma_return_one<T, F>(s: Memory<T, F>, b: u64, addrs: Seq<usize>, value: T)
    requires
        s.inv(),
        s.returnable(b, addrs),
        addrs.len() > 0,
    ensures
        s.with_value(addrs[0] as int, value).inv(),
        s.with_value(addrs[0] as int, value).returnable(b, addrs.drop_first()),
{
    let t = s.with_value(addrs[0] as int, value);
    lemma_return(s, b, addrs[0], value);
    lemma_others(s, t, b, addrs);
}

/// A list of handles, which says what a behaviour asks for.
///
/// The values come out of the cowns in the same shape.
pub trait CownList<V>: Sized {
    /// The borrowed values.
    type CownRefs;

    /// The cowns, in the order in which their values are handed out.
    spec fn addrs(&self) -> Seq<usize>;

    /// The cowns, in the order in which the requests are made.
    spec fn request_addrs(&self) -> Seq<usize>;

    /// `values` are, one by one, of the types that the handles promise.
    spec fn fits(&self, values: Seq<V>) -> bool;

    /// `ok` says of a cown and a value what the handles promise: that the value has
    /// the type of the handle.
    spec fn typed(&self, ok: spec_fn(int, V) -> bool) -> bool;

    /// The values in their common form, one after the other.
    spec fn flat(refs: Self::CownRefs) -> Seq<V>;

    /// The cowns that the values belong to, one after the other.
    spec fn owners(refs: Self::CownRefs) -> Seq<usize>;

    /// The values come from the cowns that are asked for.
    proof fn law_same_cowns(&self)
        ensures
            self.request_addrs().to_multiset() == self.addrs().to_multiset(),
    ;

    /// Values fit if and only if each has the type that its handle promises.
    proof fn law_typed_fits(&self, ok: spec_fn(int, V) -> bool, values: Seq<V>)
        requires
            self.typed(ok),
            values.len() == self.addrs().len(),
        ensures
            self.fits(values) <==> forall|i: int| 0 <= i < values.len() ==> ok(self.addrs()[i] as int, #[trigger] values[i]),
    ;

    /// One request for each cown.
    fn requests(&self) -> (requests: Vec<Request>)
        ensures
            requests@ == Seq::new(self.request_addrs().len(), |i: int| Request::fresh(self.request_addrs()[i])),
    ;

    /// Borrows the values of the cowns at the place `at` of the program, for the
    /// behaviour `b`, which runs and holds them.
    fn get_mut<F>(&self, rt: &mut Runtime<V, F>, b: u64, at: Location) -> (refs: Self::CownRefs)
        requires
            old(rt).wf(),
            old(rt)@.lendable(b, self.addrs()),
            self.fits(old(rt)@.values(self.addrs())),
        ensures
            final(rt).wf(),
            final(rt)@ == old(rt)@.lend(self.addrs(), at),
            Self::flat(refs) == old(rt)@.values(self.addrs()),
            Self::owners(refs) == self.addrs(),
    ;

    /// Puts the values back into their cowns.
    fn drop_refs<F>(refs: Self::CownRefs, rt: &mut Runtime<V, F>, b: u64)
        requires
            old(rt).wf(),
            old(rt)@.returnable(b, Self::owners(refs)),
        ensures
            final(rt).wf(),
            final(rt)@ == old(rt)@.give_back(Self::owners(refs), Self::flat(refs)),
            forall|list: Self| #[trigger] list.fits(Self::flat(refs)),
    ;
}

/// No cowns at all.
impl<V> CownList<V> for () {
    type CownRefs = ();

    open spec fn addrs(&self) -> Seq<usize> {
        Seq::empty()
    }

    open spec fn request_addrs(&self) -> Seq<usize> {
        Seq::empty()
    }

    open spec fn fits(&self, values: Seq<V>) -> bool {
        true
    }

    open spec fn typed(&self, ok: spec_fn(int, V) -> bool) -> bool {
        true
    }

    open spec fn flat(refs: ()) -> Seq<V> {
        Seq::empty()
    }

    open spec fn owners(refs: ()) -> Seq<usize> {
        Seq::empty()
    }

    proof fn law_same_cowns(&self) {
    }

    proof fn law_typed_fits(&self, ok: spec_fn(int, V) -> bool, values: Seq<V>) {
    }

    fn requests(&self) -> (requests: Vec<Request>) {
        let requests: Vec<Request> = Vec::new();
        assert(requests@ =~= Seq::new(0, |i: int| Request::fresh(Seq::<usize>::empty()[i])));
        requests
    }

    fn get_mut<F>(&self, rt: &mut Runtime<V, F>, b: u64, at: Location) -> (refs: ()) {
        assert(rt@.values(Seq::empty()) =~= Seq::<V>::empty());
    }

    fn drop_refs<F>(refs: (), rt: &mut Runtime<V, F>, b: u64) {
    }
}

/// One cown, and the rest of the list.
impl<V, T: Resource<V>, Others: CownList<V>> CownList<V> for (ArcCown<T>, Others) {
    type CownRefs = (RefMut<T>, Others::CownRefs);

    open spec fn addrs(&self) -> Seq<usize> {
        seq![self.0.addr()] + self.1.addrs()
    }

    open spec fn request_addrs(&self) -> Seq<usize> {
        self.1.request_addrs().push(self.0.addr())
    }

    open spec fn fits(&self, values: Seq<V>) -> bool {
        T::packs(values[0]) && self.1.fits(values.drop_first())
    }

    open spec fn typed(&self, ok: spec_fn(int, V) -> bool) -> bool {
        (forall|v: V| #[trigger] ok(self.0.addr() as int, v) <==> T::packs(v)) && self.1.typed(ok)
    }

    open spec fn flat(refs: (RefMut<T>, Others::CownRefs)) -> Seq<V> {
        seq![refs.0.value().packed()] + Others::flat(refs.1)
    }

    open spec fn owners(refs: (RefMut<T>, Others::CownRefs)) -> Seq<usize> {
        seq![refs.0.holder().addr()] + Others::owners(refs.1)
    }

    proof fn law_same_cowns(&self) {
        self.1.law_same_cowns();
        vstd::seq_lib::to_multiset_build(self.1.request_addrs(), self.0.addr());
        assert(self.addrs() =~= self.1.addrs().insert(0, self.0.addr()));
        vstd::seq_lib::to_multiset_insert(self.1.addrs(), 0, self.0.addr());
    }

    proof fn law_typed_fits(&self, ok: spec_fn(int, V) -> bool, values: Seq<V>) {
        let rest = values.drop_first();
        self.1.law_typed_fits(ok, rest);
        assert(self.addrs()[0] == self.0.addr());
        assert forall|i: int| 0 <= i < rest.len() implies #[trigger] rest[i] == values[i + 1] && self.1.addrs()[i]
            == self.addrs()[i + 1] by {}
        if self.fits(values) {
            assert forall|i: int| 0 <= i < values.len() implies ok(self.addrs()[i] as int, #[trigger] values[i]) by {
                if i > 0 {
                    assert(ok(self.1.addrs()[i - 1] as int, rest[i - 1]));
                }
            }
        }
        if forall|i: int| 0 <= i < values.len() ==> ok(self.addrs()[i] as int, #[trigger] values[i]) {
            assert(ok(self.addrs()[0] as int, values[0]));
            assert forall|i: int| 0 <= i < rest.len() implies ok(self.1.addrs()[i] as int, #[trigger] rest[i]) by {
                assert(ok(self.addrs()[i + 1] as int, values[i + 1]));
            }
        }
    }

    fn requests(&self) -> (requests: Vec<Request>)
        ensures
            requests@.len() > 0,
            requests@.last().resource.cown == self.0.addr(),
    {
        let mut requests = self.1.requests();
        requests.push(Request::new(self.0.clone()));
        assert(requests@ =~= Seq::new(
            self.request_addrs().len(),
            |i: int| Request::fresh(self.request_addrs()[i]),
        ));
        requests
    }

    fn get_mut<F>(&self, rt: &mut Runtime<V, F>, b: u64, at: Location) -> (refs: (RefMut<T>, Others::CownRefs))
        ensures
            refs.0.holder() == self.0,
            Some(refs.0.value().packed()) == old(rt)@.cowns[self.0.addr() as int].resource,
    {
        let ghost addrs = self.addrs();
        let ghost before = rt@;
        proof {
            lemma_lend_one(before, b, addrs, at);
            assert(addrs.drop_first() =~= self.1.addrs());
            assert(addrs[0] == self.0.addr());
            assert(before.values(addrs)[0] == before.cowns[addrs[0] as int].resource->Some_0);
        }
        let first = self.0.get_mut(rt, b, at);
        let rest = self.1.get_mut(rt, b, at);
        assert(Self::flat((first, rest)) =~= before.values(addrs));
        assert(Self::owners((first, rest)) =~= addrs);
        (first, rest)
    }

    fn drop_refs<F>(refs: (RefMut<T>, Others::CownRefs), rt: &mut Runtime<V, F>, b: u64) {
        let ghost addrs = Self::owners(refs);
        let (first, rest) = refs;
        proof {
            lemma_return_one(rt@, b, addrs, first.value().packed());
            assert(addrs.drop_first() =~= Others::owners(rest));
            assert(Self::flat(refs).drop_first() =~= Others::flat(rest));
            assert(addrs[0] == first.holder().addr());
        }
        first.drop(rt, b);
        Others::drop_refs(rest, rt, b);
    }
}

/// Any number of cowns whose values have the same type.
impl<V, T: Resource<V>> CownList<V> for Vec<ArcCown<T>> {
    type CownRefs = Vec<RefMut<T>>;

    open spec fn addrs(&self) -> Seq<usize> {
        Seq::new(self@.len(), |i: int| self@[i].addr())
    }

    open spec fn request_addrs(&self) -> Seq<usize> {
        self.addrs()
    }

    open spec fn fits(&self, values: Seq<V>) -> bool {
        forall|i: int| 0 <= i < values.len() ==> T::packs(#[trigger] values[i])
    }

    open spec fn typed(&self, ok: spec_fn(int, V) -> bool) -> bool {
        forall|i: int, v: V| 0 <= i < self@.len() ==> (#[trigger] ok(self@[i].addr() as int, v) <==> T::packs(v))
    }

    open spec fn flat(refs: Vec<RefMut<T>>) -> Seq<V> {
        Seq::new(refs@.len(), |i: int| refs@[i].value().packed())
    }

    open spec fn owners(refs: Vec<RefMut<T>>) -> Seq<usize> {
        Seq::new(refs@.len(), |i: int| refs@[i].holder().addr())
    }

    proof fn law_same_cowns(&self) {
    }

    proof fn law_typed_fits(&self, ok: spec_fn(int, V) -> bool, values: Seq<V>) {
        assert forall|i: int| 0 <= i < values.len() implies (ok(self.addrs()[i] as int, #[trigger] values[i]) <==> T::packs(
            values[i],
        )) by {
            assert(ok(self@[i].addr() as int, values[i]) <==> T::packs(values[i]));
        }
    }

    fn requests(&self) -> (requests: Vec<Request>)
        ensures
            requests@.len() == self@.len(),
            forall|i: int| 0 <= i < self@.len() ==> (#[trigger] requests@[i]).resource.cown == self@[i].addr(),
    {
        let mut requests: Vec<Request> = Vec::new();
        let mut i: usize = 0;
        while i < self.len()
            invariant
                i <= self.len(),
                requests@ == Seq::new(i as nat, |k: int| Request::fresh(self.addrs()[k])),
            decreases self.len() - i,
        {
            requests.push(Request::new(self[i].clone()));
            i = i + 1;
            assert(requests@ =~= Seq::new(i as nat, |k: int| Request::fresh(self.addrs()[k])));
        }
        requests
    }

    fn get_mut<F>(&self, rt: &mut Runtime<V, F>, b: u64, at: Location) -> (refs: Vec<RefMut<T>>)
        ensures
            refs@.len() == self@.len(),
            forall|i: int| 0 <= i < self@.len() ==> (#[trigger] refs@[i]).holder() == self@[i] && Some(
                refs@[i].value().packed(),
            ) == old(rt)@.cowns[self@[i].addr() as int].resource,
    {
        let ghost addrs = self.addrs();
        let ghost before = rt@;
        let ghost values = before.values(addrs);
        let mut refs: Vec<RefMut<T>> = Vec::new();
        let mut i: usize = 0;
        assert(addrs.skip(0) =~= addrs);
        assert(values.skip(0) =~= values);
        while i < self.len()
            invariant
                i <= self.len(),
                addrs == self.addrs(),
                values.len() == addrs.len(),
                self.fits(values),
                rt.wf(),
                rt@.lendable(b, addrs.skip(i as int)),
                rt@.lend(addrs.skip(i as int), at) == before.lend(addrs, at),
                rt@.values(addrs.skip(i as int)) == values.skip(i as int),
                refs@.len() == i,
                forall|k: int| 0 <= k < i ==> (#[trigger] refs@[k]).value().packed() == values[k] && refs@[k].holder()
                    == self@[k],
            decreases self.len() - i,
        {
            let ghost left = addrs.skip(i as int);
            let ghost now = rt@;
            proof {
                assert(left[0] == addrs[i as int]);
                assert(left.drop_first() =~= addrs.skip(i + 1));
                lemma_lend_one(rt@, b, left, at);
                assert(now.values(left)[0] == values[i as int]);
                assert(values.skip(i as int).drop_first() =~= values.skip(i + 1));
                assert(now.running_with(b, left[0]));
            }
            let value = self[i].get_mut(rt, b, at);
            refs.push(value);
            i = i + 1;
        }
        assert(Self::flat(refs) =~= values);
        assert(Self::owners(refs) =~= addrs);
        refs
    }

    fn drop_refs<F>(refs: Vec<RefMut<T>>, rt: &mut Runtime<V, F>, b: u64) {
        let ghost addrs = Self::owners(refs);
        let ghost before = rt@;
        let ghost given = refs@;
        let ghost values = Self::flat(refs);
        assert(addrs.skip(0) =~= addrs);
        assert(values.skip(0) =~= values);
        for value in it: refs
            invariant
                it.seq() == given,
                values.len() == given.len(),
                addrs == Seq::new(given.len(), |k: int| given[k].holder().addr()),
                values == Seq::new(given.len(), |k: int| given[k].value().packed()),
                rt.wf(),
                rt@.returnable(b, addrs.skip(it.index() as int)),
                rt@.give_back(addrs.skip(it.index() as int), values.skip(it.index() as int)) == before.give_back(
                    addrs,
                    values,
                ),
                forall|k: int| 0 <= k < it.index() ==> T::packs(#[trigger] values[k]),
        {
            let ghost i = it.index() as int;
            let ghost left = addrs.skip(i);
            proof {
                assert(left[0] == addrs[i]);
                assert(left.drop_first() =~= addrs.skip(i + 1));
                assert(values.skip(i).drop_first() =~= values.skip(i + 1));
                lemma_return_one(rt@, b, left, values[i]);
                assert(rt@.running_with(b, left[0]));
            }
            value.drop(rt, b);
        }
    }
}

} // verus!
