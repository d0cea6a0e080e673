//! Cowns, and the handles by which they are named.
use crate::mcs::coupling::{lemma_add_cown_step, lemma_reclaim_step, lemma_resource_step};
use crate::mcs::memory::Memory;
use crate::mcs::request::Request;
use crate::mcs::runtime::Runtime;
use crate::moves::Move;
use crate::protocol::ReqId;
use crate::resource::Resource;
use std::marker::PhantomData;
use vstd::prelude::*;

verus! {

/// A concurrent owner: the only way to the value that it protects.
pub struct Cown<T> {
    /// The tail of the queue of requests. `None` while nobody asks for the cown.
    pub last: Option<ReqId>,
    /// The value. It is away while the behaviour that holds the cown borrows it.
    pub resource: Option<T>,
}

impl<T> Cown<T> {
    /// A cown that nobody asks for.
    pub fn new(value: T) -> (cown: Cown<T>)
        ensures
            cown == (Cown { last: None, resource: Some(value) }),
    {
        Cown { last: None, resource: Some(value) }
    }
}

/// A cown without the type of its value: all that a request needs to know.
#[derive(Clone, Copy, Debug, PartialEq, Eq, Structural)]
pub struct CownHolder {
    pub inner: usize,
}

impl CownHolder {
    /// Forgets the type of the value.
    pub fn new<T>(cown: CownPtr<T>) -> (holder: CownHolder)
        ensures
            holder.inner == cown.addr(),
    {
        CownHolder { inner: cown.inner }
    }

    /// The tail of the queue.
    pub fn last<T, F>(&self, rt: &Runtime<T, F>) -> (last: Option<ReqId>)
        requires
            self.inner < rt@.cowns.len(),
        ensures
            last == rt@.cowns[self.inner as int].last,
    {
        rt.cown(self.inner).last
    }

    /// Replaces the tail of the queue, and returns what it was.
    pub(crate) fn last_swap<T, F>(&self, rt: &mut Runtime<T, F>, new: Option<ReqId>) -> (previous: Option<ReqId>)
        requires
            self.inner < old(rt)@.cowns.len(),
        ensures
            previous == old(rt)@.cowns[self.inner as int].last,
            final(rt)@ == old(rt)@.with_last(self.inner as int, new),
    {
        rt.last_swap(self.inner, new)
    }

    /// Replaces the tail of the queue if it is `current`. Returns what it was,
    /// as a success or as a failure.
    pub(crate) fn last_compare_exchange<T, F>(
        &self,
        rt: &mut Runtime<T, F>,
        current: Option<ReqId>,
        new: Option<ReqId>,
    ) -> (previous: Result<Option<ReqId>, Option<ReqId>>)
        requires
            self.inner < old(rt)@.cowns.len(),
        ensures
            ({
                let last = old(rt)@.cowns[self.inner as int].last;
                if last == current {
                    previous == Ok::<Option<ReqId>, Option<ReqId>>(last) && final(rt)@ == old(rt)@.with_last(
                        self.inner as int,
                        new,
                    )
                } else {
                    previous == Err::<Option<ReqId>, Option<ReqId>>(last) && final(rt)@ == old(rt)@
                }
            }),
    {
        let last = self.last(rt);
        let same = match (last, current) {
            (Some(r), Some(x)) => r == x,
            (None, None) => true,
            _ => false,
        };
        if same {
            Ok(rt.last_swap(self.inner, new))
        } else {
            Err(last)
        }
    }
}

/// A handle on a cown. Copies of a handle name the same cown.
pub struct CownPtr<T> {
    inner: usize,
    marker: PhantomData<T>,
}

impl<T> CownPtr<T> {
    /// The name of the cown.
    pub closed spec fn addr(self) -> usize {
        self.inner
    }

    /// Creates a cown that holds `value`.
    pub fn new<V, F>(rt: &mut Runtime<V, F>, value: T) -> (ptr: CownPtr<T>) where T: Resource<V>
        requires
            old(rt).wf(),
        ensures
            final(rt).wf(),
            ptr.addr() == old(rt)@.cowns.len(),
            final(rt)@ == old(rt)@.add_cown(value.packed()),
            T::packs(value.packed()),
    {
        let packed = value.pack();
        proof {
            lemma_add_cown_step(rt@, packed);
        }
        let inner: usize = rt.push_cown(Cown::new(packed));
        let ghost model = rt@.model.apply(Move::AddCown);
        rt.note(Ghost(model));
        CownPtr { inner, marker: PhantomData }
    }

    /// Moves the value out of the cown, unless somebody asks for the cown. `rest`
    /// takes the place of the value.
    ///
    /// This is for the last handle: a cown stays as long as its runtime, but its
    /// value need not.
    pub fn reclaim<V, F>(self, rt: &mut Runtime<V, F>, rest: V) -> (value: Option<V>)
        requires
            old(rt).wf(),
            self.addr() < old(rt)@.cowns.len(),
        ensures
            final(rt).wf(),
            value is Some <==> old(rt)@.cowns[self.addr() as int].last is None,
            value is Some ==> value == old(rt)@.cowns[self.addr() as int].resource,
            final(rt)@ == (if value is Some {
                old(rt)@.with_resource(self.addr() as int, Some(rest))
            } else {
                old(rt)@
            }),
    {
        if rt.cown(self.inner).last.is_none() {
            proof {
                lemma_reclaim_step(rt@, self.addr() as int, rest);
            }
            Some(rt.replace_resource(self.inner, rest))
        } else {
            None
        }
    }
}

impl<T> Clone for CownPtr<T> {
    fn clone(&self) -> (ptr: CownPtr<T>)
        ensures
            ptr == *self,
    {
        CownPtr { inner: self.inner, marker: PhantomData }
    }
}

impl<T, F> Memory<T, F> {
    /// `b` runs and holds the cown `c`.
    pub open spec fn running_with(self, b: u64, c: usize) -> bool {
        &&& self.live(b)
        &&& self.phase(b) is Running
        &&& exists|r: ReqId| r.behavior == b && #[trigger] self.is_request(r) && self.target(r) == c
    }

    /// `b` runs, holds the cowns `addrs`, and has not borrowed their values.
    pub open spec fn lendable(self, b: u64, addrs: Seq<usize>) -> bool {
        &&& forall|i: int| 0 <= i < addrs.len() ==> {
            &&& self.running_with(b, #[trigger] addrs[i])
            &&& addrs[i] < self.cowns.len()
            &&& self.cowns[addrs[i] as int].resource is Some
        }
        &&& addrs.no_duplicates()
    }

    /// The values of the cowns `addrs`.
    pub open spec fn values(self, addrs: Seq<usize>) -> Seq<T> {
        Seq::new(addrs.len(), |i: int| self.cowns[addrs[i] as int].resource->Some_0)
    }

    /// The values of the cowns `addrs` have been taken out.
    pub open spec fn lend(self, addrs: Seq<usize>) -> Memory<T, F>
        decreases addrs.len(),
    {
        if addrs.len() == 0 {
            self
        } else {
            self.with_resource(addrs[0] as int, None).lend(addrs.drop_first())
        }
    }

    /// `b` runs, holds the cowns `addrs`, and has borrowed their values.
    pub open spec fn returnable(self, b: u64, addrs: Seq<usize>) -> bool {
        &&& forall|i: int| 0 <= i < addrs.len() ==> {
            &&& self.running_with(b, #[trigger] addrs[i])
            &&& addrs[i] < self.cowns.len()
            &&& self.cowns[addrs[i] as int].resource is None
        }
        &&& addrs.no_duplicates()
    }

    /// The values have been put into the cowns `addrs`.
    pub open spec fn give_back(self, addrs: Seq<usize>, values: Seq<T>) -> Memory<T, F>
        decreases addrs.len(),
    {
        if addrs.len() == 0 {
            self
        } else {
            self.with_resource(addrs[0] as int, Some(values[0])).give_back(addrs.drop_first(), values.drop_first())
        }
    }
}

/// A list of handles, which says what a behaviour asks for.
///
/// The values come out of the cowns in the same shape.
pub trait CownPtrs<V>: Sized {
    /// The values of the cowns.
    type CownRefs;

    /// The cowns, in the order in which their values are handed out.
    spec fn addrs(&self) -> Seq<usize>;

    /// The cowns, in the order in which the requests are made.
    spec fn request_addrs(&self) -> Seq<usize>;

    /// `values` are, one by one, of the types that the handles promise.
    spec fn fits(&self, values: Seq<V>) -> bool;

    /// `ok` says of a cown and a value what the handles promise: that the value has
    /// the type of the handle.
    spec fn typed(&self, ok: spec_fn(int, V) -> bool) -> bool;

    /// The values in their common form, one after the other.
    spec fn flat(refs: Self::CownRefs) -> Seq<V>;

    /// The values come from the cowns that are asked for.
    proof fn law_same_cowns(&self)
        ensures
            self.request_addrs().to_multiset() == self.addrs().to_multiset(),
    ;

    /// Values fit if and only if each has the type that its handle promises.
    proof fn law_typed_fits(&self, ok: spec_fn(int, V) -> bool, values: Seq<V>)
        requires
            self.typed(ok),
            values.len() == self.addrs().len(),
        ensures
            self.fits(values) <==> forall|i: int| 0 <= i < values.len() ==> ok(self.addrs()[i] as int, #[trigger] values[i]),
    ;

    /// One request for each cown.
    fn requests(&self) -> (requests: Vec<Request>)
        ensures
            requests@ == Seq::new(self.request_addrs().len(), |i: int| Request::fresh(self.request_addrs()[i])),
    ;

    /// Borrows the values of the cowns for the behaviour `b`, which runs and
    /// holds them.
    fn get_mut<F>(&self, rt: &mut Runtime<V, F>, b: u64) -> (refs: Self::CownRefs)
        requires
            old(rt).wf(),
            old(rt)@.lendable(b, self.addrs()),
            self.fits(old(rt)@.values(self.addrs())),
        ensures
            final(rt).wf(),
            final(rt)@ == old(rt)@.lend(self.addrs()),
            Self::flat(refs) == old(rt)@.values(self.addrs()),
    ;

    /// Gives the values back.
    fn put_back<F>(&self, rt: &mut Runtime<V, F>, b: u64, refs: Self::CownRefs)
        requires
            old(rt).wf(),
            old(rt)@.returnable(b, self.addrs()),
            Self::flat(refs).len() == self.addrs().len(),
        ensures
            final(rt).wf(),
            final(rt)@ == old(rt)@.give_back(self.addrs(), Self::flat(refs)),
            self.fits(Self::flat(refs)),
    ;
}

/// Taking out the value of one cown.
pub proof fn lemma_lend_one<T, F>(s: Memory<T, F>, b: u64, addrs: Seq<usize>)
    requires
        s.inv(),
        s.lendable(b, addrs),
        addrs.len() > 0,
    ensures
        s.with_resource(addrs[0] as int, None).inv(),
        s.with_resource(addrs[0] as int, None).lendable(b, addrs.drop_first()),
        s.with_resource(addrs[0] as int, None).values(addrs.drop_first()) == s.values(addrs).drop_first(),
{
    let t = s.with_resource(addrs[0] as int, None);
    let rest = addrs.drop_first();
    let a = addrs[0];
    assert(s.running_with(b, a));
    let r = choose|r: ReqId| r.behavior == b && #[trigger] s.is_request(r) && s.target(r) == a;
    lemma_resource_step(s, r, None);
    assert forall|i: int| 0 <= i < rest.len() implies {
        &&& t.running_with(b, #[trigger] rest[i])
        &&& rest[i] < t.cowns.len()
        &&& t.cowns[rest[i] as int] == s.cowns[rest[i] as int]
        &&& s.cowns[rest[i] as int].resource is Some
    } by {
        assert(rest[i] == addrs[i + 1]);
        assert(addrs[0] != addrs[i + 1]);
        assert(s.running_with(b, addrs[i + 1]));
        let x = choose|x: ReqId| x.behavior == b && #[trigger] s.is_request(x) && s.target(x) == rest[i];
        assert(t.is_request(x) && t.target(x) == rest[i]);
    }
    assert(rest.no_duplicates()) by {
        assert forall|i: int, j: int| 0 <= i < rest.len() && 0 <= j < rest.len() && i != j implies rest[i] != rest[j] by {
            assert(addrs[i + 1] != addrs[j + 1]);
        }
    }
    assert(t.values(rest) =~= s.values(addrs).drop_first());
}

/// Putting in the value of one cown.
pub proof fn lemma_return_one<T, F>(s: Memory<T, F>, b: u64, addrs: Seq<usize>, value: T)
    requires
        s.inv(),
        s.returnable(b, addrs),
        addrs.len() > 0,
    ensures
        s.with_resource(addrs[0] as int, Some(value)).inv(),
        s.with_resource(addrs[0] as int, Some(value)).returnable(b, addrs.drop_first()),
{
    let t = s.with_resource(addrs[0] as int, Some(value));
    let rest = addrs.drop_first();
    let a = addrs[0];
    assert(s.running_with(b, a));
    let r = choose|r: ReqId| r.behavior == b && #[trigger] s.is_request(r) && s.target(r) == a;
    lemma_resource_step(s, r, Some(value));
    assert forall|i: int| 0 <= i < rest.len() implies {
        &&& t.running_with(b, #[trigger] rest[i])
        &&& rest[i] < t.cowns.len()
        &&& t.cowns[rest[i] as int].resource is None
    } by {
        assert(rest[i] == addrs[i + 1]);
        assert(addrs[0] != addrs[i + 1]);
        assert(s.running_with(b, addrs[i + 1]));
        let x = choose|x: ReqId| x.behavior == b && #[trigger] s.is_request(x) && s.target(x) == rest[i];
        assert(t.is_request(x) && t.target(x) == rest[i]);
    }
    assert(rest.no_duplicates()) by {
        assert forall|i: int, j: int| 0 <= i < rest.len() && 0 <= j < rest.len() && i != j implies rest[i] != rest[j] by {
            assert(addrs[i + 1] != addrs[j + 1]);
        }
    }
}

/// No cowns at all.
impl<V> CownPtrs<V> for () {
    type CownRefs = ();

    open spec fn addrs(&self) -> Seq<usize> {
        Seq::empty()
    }

    open spec fn request_addrs(&self) -> Seq<usize> {
        Seq::empty()
    }

    open spec fn fits(&self, values: Seq<V>) -> bool {
        true
    }

    open spec fn typed(&self, ok: spec_fn(int, V) -> bool) -> bool {
        true
    }

    open spec fn flat(refs: ()) -> Seq<V> {
        Seq::empty()
    }

    proof fn law_same_cowns(&self) {
    }

    proof fn law_typed_fits(&self, ok: spec_fn(int, V) -> bool, values: Seq<V>) {
    }

    fn requests(&self) -> (requests: Vec<Request>) {
        let requests: Vec<Request> = Vec::new();
        assert(requests@ =~= Seq::new(0, |i: int| Request::fresh(Seq::<usize>::empty()[i])));
        requests
    }

    fn get_mut<F>(&self, rt: &mut Runtime<V, F>, b: u64) -> (refs: ()) {
        assert(rt@.values(Seq::empty()) =~= Seq::<V>::empty());
    }

    fn put_back<F>(&self, rt: &mut Runtime<V, F>, b: u64, refs: ()) {
    }
}

/// One cown, and the rest of the list.
impl<V, T: Resource<V>, Ts: CownPtrs<V>> CownPtrs<V> for (CownPtr<T>, Ts) {
    type CownRefs = (T, Ts::CownRefs);

    open spec fn addrs(&self) -> Seq<usize> {
        seq![self.0.addr()] + self.1.addrs()
    }

    open spec fn request_addrs(&self) -> Seq<usize> {
        self.1.request_addrs().push(self.0.addr())
    }

    open spec fn fits(&self, values: Seq<V>) -> bool {
        T::packs(values[0]) && self.1.fits(values.drop_first())
    }

    open spec fn typed(&self, ok: spec_fn(int, V) -> bool) -> bool {
        (forall|v: V| #[trigger] ok(self.0.addr() as int, v) <==> T::packs(v)) && self.1.typed(ok)
    }

    open spec fn flat(refs: (T, Ts::CownRefs)) -> Seq<V> {
        seq![refs.0.packed()] + Ts::flat(refs.1)
    }

    proof fn law_same_cowns(&self) {
        self.1.law_same_cowns();
        vstd::seq_lib::to_multiset_build(self.1.request_addrs(), self.0.addr());
        assert(self.addrs() =~= self.1.addrs().insert(0, self.0.addr()));
        vstd::seq_lib::to_multiset_insert(self.1.addrs(), 0, self.0.addr());
    }

    proof fn law_typed_fits(&self, ok: spec_fn(int, V) -> bool, values: Seq<V>) {
        let rest = values.drop_first();
        self.1.law_typed_fits(ok, rest);
        assert(self.addrs()[0] == self.0.addr());
        assert forall|i: int| 0 <= i < rest.len() implies #[trigger] rest[i] == values[i + 1] && self.1.addrs()[i]
            == self.addrs()[i + 1] by {}
        if self.fits(values) {
            assert forall|i: int| 0 <= i < values.len() implies ok(self.addrs()[i] as int, #[trigger] values[i]) by {
                if i > 0 {
                    assert(ok(self.1.addrs()[i - 1] as int, rest[i - 1]));
                }
            }
        }
        if forall|i: int| 0 <= i < values.len() ==> ok(self.addrs()[i] as int, #[trigger] values[i]) {
            assert(ok(self.addrs()[0] as int, values[0]));
            assert forall|i: int| 0 <= i < rest.len() implies ok(self.1.addrs()[i] as int, #[trigger] rest[i]) by {
                assert(ok(self.addrs()[i + 1] as int, values[i + 1]));
            }
        }
    }

    fn requests(&self) -> (requests: Vec<Request>)
        ensures
            requests@.len() > 0,
            requests@.last().target.inner == self.0.addr(),
    {
        let mut requests = self.1.requests();
        requests.push(Request::new(self.0.clone()));
        assert(requests@ =~= Seq::new(
            self.request_addrs().len(),
            |i: int| Request::fresh(self.request_addrs()[i]),
        ));
        requests
    }

    fn get_mut<F>(&self, rt: &mut Runtime<V, F>, b: u64) -> (refs: (T, Ts::CownRefs))
        ensures
            Some(refs.0.packed()) == old(rt)@.cowns[self.0.addr() as int].resource,
    {
        let ghost addrs = self.addrs();
        let ghost before = rt@;
        proof {
            lemma_lend_one(before, b, addrs);
            assert(addrs.drop_first() =~= self.1.addrs());
        }
        let first = T::unpack(rt.take_resource(self.0.inner));
        let rest = self.1.get_mut(rt, b);
        assert(Self::flat((first, rest)) =~= before.values(addrs));
        (first, rest)
    }

    fn put_back<F>(&self, rt: &mut Runtime<V, F>, b: u64, refs: (T, Ts::CownRefs)) {
        let ghost addrs = self.addrs();
        let (first, rest) = refs;
        let packed = first.pack();
        proof {
            lemma_return_one(rt@, b, addrs, packed);
            assert(addrs.drop_first() =~= self.1.addrs());
            assert(Self::flat(refs).drop_first() =~= Ts::flat(rest));
        }
        rt.put_resource(self.0.inner, packed);
        self.1.put_back(rt, b, rest);
    }
}

/// Any number of cowns whose values have the same type.
impl<V, T: Resource<V>> CownPtrs<V> for Vec<CownPtr<T>> {
    type CownRefs = Vec<T>;

    open spec fn addrs(&self) -> Seq<usize> {
        Seq::new(self@.len(), |i: int| self@[i].addr())
    }

    open spec fn request_addrs(&self) -> Seq<usize> {
        self.addrs()
    }

    open spec fn fits(&self, values: Seq<V>) -> bool {
        forall|i: int| 0 <= i < values.len() ==> T::packs(#[trigger] values[i])
    }

    open spec fn typed(&self, ok: spec_fn(int, V) -> bool) -> bool {
        forall|i: int, v: V| 0 <= i < self@.len() ==> (#[trigger] ok(self@[i].addr() as int, v) <==> T::packs(v))
    }

    open spec fn flat(refs: Vec<T>) -> Seq<V> {
        Seq::new(refs@.len(), |i: int| refs@[i].packed())
    }

    proof fn law_same_cowns(&self) {
    }

    proof fn law_typed_fits(&self, ok: spec_fn(int, V) -> bool, values: Seq<V>) {
        assert forall|i: int| 0 <= i < values.len() implies (ok(self.addrs()[i] as int, #[trigger] values[i]) <==> T::packs(
            values[i],
        )) by {
            assert(ok(self@[i].addr() as int, values[i]) <==> T::packs(values[i]));
        }
    }

    fn requests(&self) -> (requests: Vec<Request>)
        ensures
            requests@.len() == self@.len(),
            forall|i: int| 0 <= i < self@.len() ==> (#[trigger] requests@[i]).target.inner == self@[i].addr(),
    {
        let mut requests: Vec<Request> = Vec::new();
        let mut i: usize = 0;
        while i < self.len()
            invariant
                i <= self.len(),
                requests@ == Seq::new(i as nat, |k: int| Request::fresh(self.addrs()[k])),
            decreases self.len() - i,
        {
            requests.push(Request::new(self[i].clone()));
            i = i + 1;
            assert(requests@ =~= Seq::new(i as nat, |k: int| Request::fresh(self.addrs()[k])));
        }
        requests
    }

    fn get_mut<F>(&self, rt: &mut Runtime<V, F>, b: u64) -> (refs: Vec<T>)
        ensures
            refs@.len() == self@.len(),
            forall|i: int| 0 <= i < self@.len() ==> Some((#[trigger] refs@[i]).packed()) == old(rt)@.cowns[self@[i].addr() as int].resource,
    {
        let ghost addrs = self.addrs();
        let ghost before = rt@;
        let ghost values = before.values(addrs);
        let mut refs: Vec<T> = Vec::new();
        let mut i: usize = 0;
        assert(addrs.skip(0) =~= addrs);
        assert(values.skip(0) =~= values);
        while i < self.len()
            invariant
                i <= self.len(),
                addrs == self.addrs(),
                values.len() == addrs.len(),
                self.fits(values),
                rt.wf(),
                rt@.lendable(b, addrs.skip(i as int)),
                rt@.lend(addrs.skip(i as int)) == before.lend(addrs),
                rt@.values(addrs.skip(i as int)) == values.skip(i as int),
                refs@.len() == i,
                forall|k: int| 0 <= k < i ==> (#[trigger] refs@[k]).packed() == values[k],
            decreases self.len() - i,
        {
            let ghost left = addrs.skip(i as int);
            let ghost now = rt@;
            proof {
                assert(left[0] == addrs[i as int]);
                assert(left.drop_first() =~= addrs.skip(i + 1));
                lemma_lend_one(rt@, b, left);
                assert(now.values(left)[0] == values[i as int]);
                assert(values.skip(i as int).drop_first() =~= values.skip(i + 1));
            }
            let value = T::unpack(rt.take_resource(self[i].inner));
            refs.push(value);
            i = i + 1;
        }
        assert(Self::flat(refs) =~= values);
        refs
    }

    fn put_back<F>(&self, rt: &mut Runtime<V, F>, b: u64, refs: Vec<T>) {
        let ghost addrs = self.addrs();
        let ghost before = rt@;
        let ghost given = refs@;
        let ghost values = Self::flat(refs);
        let mut i: usize = 0;
        assert(addrs.skip(0) =~= addrs);
        assert(values.skip(0) =~= values);
        for value in it: refs
            invariant
                i == it.index(),
                it.seq() == given,
                addrs == self.addrs(),
                values.len() == addrs.len(),
                values == Seq::new(given.len(), |k: int| given[k].packed()),
                rt.wf(),
                rt@.returnable(b, addrs.skip(i as int)),
                rt@.give_back(addrs.skip(i as int), values.skip(i as int)) == before.give_back(addrs, values),
                forall|k: int| 0 <= k < i ==> T::packs(#[trigger] values[k]),
        {
            let ghost left = addrs.skip(i as int);
            let packed = value.pack();
            proof {
                assert(left[0] == addrs[i as int]);
                assert(packed == values[i as int]);
                assert(left.drop_first() =~= addrs.skip(i + 1));
                assert(values.skip(i as int).drop_first() =~= values.skip(i + 1));
                lemma_return_one(rt@, b, left, packed);
            }
            assert(i < self.len());
            rt.put_resource(self[i].inner, packed);
            i = i + 1;
        }
    }
}

} // verus!
