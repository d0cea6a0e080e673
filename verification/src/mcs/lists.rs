//! What a list of handles stands for.
use crate::laws::among;
use crate::mcs::cown::{CownPtr, CownPtrs};
use crate::mcs::laws::{lemma_lend_all, lemma_return_all};
use crate::mcs::memory::{BehaviorView, Memory, Phase};
use crate::mcs::request::Request;
use crate::protocol::ascending;
use crate::resource::Resource;
use crate::sorting::{in_order, law_in_order, Located};
use vstd::prelude::*;

verus! {

/// The names of the cowns of some handles, in their order.
pub open spec fn names<T>(handles: Seq<CownPtr<T>>) -> Seq<usize> {
    Seq::new(handles.len(), |i: int| handles[i].addr())
}

/// An empty list stands for no cown.
pub proof fn law_unit_list<V>()
    ensures
        <() as CownPtrs<V>>::addrs(&()).len() == 0,
        <() as CownPtrs<V>>::request_addrs(&()).len() == 0,
        <() as CownPtrs<V>>::flat(()).len() == 0,
{
}

/// A pair stands for its first cown, and behind it for those of the rest. It asks
/// for all of them, and its values are the value of the first cown, and behind it
/// those of the rest.
pub proof fn law_pair_list<V, T: Resource<V>, Ts: CownPtrs<V>>(list: (CownPtr<T>, Ts), refs: (T, Ts::CownRefs))
    ensures
        <(CownPtr<T>, Ts) as CownPtrs<V>>::addrs(&list) == seq![list.0.addr()] + list.1.addrs(),
        <(CownPtr<T>, Ts) as CownPtrs<V>>::request_addrs(&list).len() == 1 + list.1.request_addrs().len(),
        <(CownPtr<T>, Ts) as CownPtrs<V>>::request_addrs(&list).to_multiset() == list.1.request_addrs().to_multiset().insert(
            list.0.addr(),
        ),
        <(CownPtr<T>, Ts) as CownPtrs<V>>::flat(refs) == seq![refs.0.packed()] + Ts::flat(refs.1),
{
    vstd::seq_lib::to_multiset_build(list.1.request_addrs(), list.0.addr());
}

/// A vector stands for the cowns of its handles, in their order. It asks for all of
/// them, and there is one value for each, in the order of the vector.
pub proof fn law_vector_list<V, T: Resource<V>>(list: Vec<CownPtr<T>>, refs: Vec<T>)
    ensures
        <Vec<CownPtr<T>> as CownPtrs<V>>::addrs(&list).len() == list@.len(),
        forall|i: int| 0 <= i < list@.len() ==> #[trigger] <Vec<CownPtr<T>> as CownPtrs<V>>::addrs(&list)[i] == list@[i].addr(),
        <Vec<CownPtr<T>> as CownPtrs<V>>::request_addrs(&list).len() == list@.len(),
        <Vec<CownPtr<T>> as CownPtrs<V>>::request_addrs(&list).to_multiset() == names(list@).to_multiset(),
        <Vec<CownPtr<T>> as CownPtrs<V>>::flat(refs).len() == refs@.len(),
        forall|i: int| 0 <= i < refs@.len() ==> #[trigger] <Vec<CownPtr<T>> as CownPtrs<V>>::flat(refs)[i]
            == refs@[i].packed(),
{
    assert(<Vec<CownPtr<T>> as CownPtrs<V>>::request_addrs(&list) =~= names(list@));
}

/// A behaviour that is created for the cowns `addrs` asks for each of them, once for
/// each time that it is named, in ascending order. Each request is unused. One
/// resolution is outstanding for each request, and one for the scheduler.
pub proof fn law_asks_for_all<F>(f: F, addrs: Seq<usize>)
    ensures
        ({
            let v = BehaviorView::asking(f, addrs);
            &&& v.requests.len() == addrs.len()
            &&& v.targets().to_multiset() == addrs.to_multiset()
            &&& ascending(v.targets())
            &&& forall|i: int| 0 <= i < addrs.len() ==> (#[trigger] v.requests[i]).next is None && !v.requests[i].scheduled
                && v.targets()[i] == v.requests[i].target.inner
            &&& v.routine == Some(f)
            &&& v.count == addrs.len() + 1
            &&& v.phase == Phase::Enqueue(0)
        }),
{
    law_in_order(addrs);
    assert(BehaviorView::asking(f, addrs).targets() =~= in_order(addrs));
}

/// A behaviour that is created for a vector of handles asks for the cown of every
/// one of them, and for no other.
pub proof fn law_vector_asks_for_all<V, T: Resource<V>, F>(f: F, list: Vec<CownPtr<T>>)
    ensures
        ({
            let v = BehaviorView::asking(f, <Vec<CownPtr<T>> as CownPtrs<V>>::request_addrs(&list));
            &&& v.requests.len() == list@.len()
            &&& v.count == list@.len() + 1
            &&& v.targets().to_multiset() == names(list@).to_multiset()
            &&& forall|i: int| 0 <= i < list@.len() ==> v.targets().contains((#[trigger] list@[i]).addr())
        }),
{
    let addrs = <Vec<CownPtr<T>> as CownPtrs<V>>::request_addrs(&list);
    law_asks_for_all(f, addrs);
    assert(addrs =~= names(list@));
    let v = BehaviorView::asking(f, addrs);
    assert forall|i: int| 0 <= i < list@.len() implies v.targets().contains((#[trigger] list@[i]).addr()) by {
        let a = list@[i].addr();
        assert(names(list@)[i] == a);
        vstd::seq_lib::to_multiset_contains(names(list@), a);
        vstd::seq_lib::to_multiset_contains(v.targets(), a);
    }
}

/// The values of a list of cowns are the values of the cowns, one by one, in the
/// order of the list.
pub proof fn law_values_in_order<T, F>(s: Memory<T, F>, addrs: Seq<usize>)
    ensures
        s.values(addrs).len() == addrs.len(),
        forall|i: int| 0 <= i < addrs.len() && s.cowns[addrs[i] as int].resource is Some ==> Some(
            #[trigger] s.values(addrs)[i],
        ) == s.cowns[addrs[i] as int].resource,
{
}

/// Lending the values of the cowns `addrs` takes the value out of each of them, and
/// changes nothing else.
pub proof fn law_lend_effect<T, F>(s: Memory<T, F>, b: u64, addrs: Seq<usize>)
    requires
        s.inv(),
        s.lendable(b, addrs),
    ensures
        ({
            let t = s.lend(addrs);
            &&& t.cowns.len() == s.cowns.len()
            &&& forall|i: int| 0 <= i < addrs.len() ==> t.cowns[(#[trigger] addrs[i]) as int].resource is None
            &&& forall|c: int| 0 <= c < s.cowns.len() && !among(addrs, c) ==> (#[trigger] t.cowns[c]).resource
                == s.cowns[c].resource
            &&& forall|c: int| 0 <= c < s.cowns.len() ==> (#[trigger] t.cowns[c]).last == s.cowns[c].last
            &&& t.behaviors == s.behaviors
            &&& t.next_id == s.next_id
            &&& t.model == s.model
        }),
{
    lemma_lend_all(s, b, addrs);
    assert forall|i: int| 0 <= i < addrs.len() implies s.lend(addrs).cowns[(#[trigger] addrs[i]) as int].resource is None by {
        assert(addrs.contains(addrs[i]));
        assert(s.running_with(b, addrs[i]));
        assert(among(addrs, addrs[i] as int));
    }
}

/// Returning values to the cowns `addrs` puts the values into them, one by one, in
/// the order of the list, and changes nothing else.
pub proof fn law_return_effect<T, F>(s: Memory<T, F>, b: u64, addrs: Seq<usize>, values: Seq<T>)
    requires
        s.inv(),
        s.returnable(b, addrs),
        values.len() == addrs.len(),
    ensures
        ({
            let t = s.give_back(addrs, values);
            &&& t.cowns.len() == s.cowns.len()
            &&& forall|i: int| 0 <= i < addrs.len() ==> t.cowns[(#[trigger] addrs[i]) as int].resource == Some(values[i])
            &&& forall|c: int| 0 <= c < s.cowns.len() && !among(addrs, c) ==> (#[trigger] t.cowns[c]).resource
                == s.cowns[c].resource
            &&& forall|c: int| 0 <= c < s.cowns.len() ==> (#[trigger] t.cowns[c]).last == s.cowns[c].last
            &&& t.behaviors == s.behaviors
            &&& t.next_id == s.next_id
            &&& t.model == s.model
        }),
{
    lemma_return_all(s, b, addrs, values);
    let t = s.give_back(addrs, values);
    assert forall|i: int| 0 <= i < addrs.len() implies t.cowns[(#[trigger] addrs[i]) as int].resource == Some(values[i]) by {
        assert(t.cowns[addrs[i] as int].resource == Some(values[i]));
    }
    assert forall|c: int| 0 <= c < s.cowns.len() implies (#[trigger] t.cowns[c]).last == s.cowns[c].last by {
        if among(addrs, c) {
            let i = choose|i: int| 0 <= i < addrs.len() && addrs[i] == c as usize;
            assert(t.cowns[addrs[i] as int].last == s.cowns[addrs[i] as int].last);
        } else {
            assert(t.cowns[c] == s.cowns[c]);
        }
    }
}

/// Borrowing through a vector: the value of the `i`-th handle is the one that was
/// in the cown of that handle, and it is out of the cown.
pub proof fn law_vector_lends<V, T: Resource<V>, F>(s: Memory<V, F>, b: u64, list: Vec<CownPtr<T>>)
    requires
        s.inv(),
        s.lendable(b, <Vec<CownPtr<T>> as CownPtrs<V>>::addrs(&list)),
    ensures
        ({
            let addrs = <Vec<CownPtr<T>> as CownPtrs<V>>::addrs(&list);
            &&& s.values(addrs).len() == list@.len()
            &&& forall|i: int| 0 <= i < list@.len() ==> Some(s.values(addrs)[i]) == s.cowns[(#[trigger] list@[i]).addr() as int].resource
                && s.lend(addrs).cowns[list@[i].addr() as int].resource is None
        }),
{
    let addrs = <Vec<CownPtr<T>> as CownPtrs<V>>::addrs(&list);
    law_lend_effect(s, b, addrs);
    assert forall|i: int| 0 <= i < list@.len() implies Some(s.values(addrs)[i]) == s.cowns[(#[trigger] list@[i]).addr() as int].resource
        && s.lend(addrs).cowns[list@[i].addr() as int].resource is None by {
        assert(addrs[i] == list@[i].addr());
        assert(s.running_with(b, addrs[i]));
    }
}

/// Returning through a vector: the `i`-th value goes into the cown of the `i`-th
/// handle.
pub proof fn law_vector_returns<V, T: Resource<V>, F>(s: Memory<V, F>, b: u64, list: Vec<CownPtr<T>>, refs: Vec<T>)
    requires
        s.inv(),
        s.returnable(b, <Vec<CownPtr<T>> as CownPtrs<V>>::addrs(&list)),
        refs@.len() == list@.len(),
    ensures
        ({
            let t = s.give_back(
                <Vec<CownPtr<T>> as CownPtrs<V>>::addrs(&list),
                <Vec<CownPtr<T>> as CownPtrs<V>>::flat(refs),
            );
            forall|i: int| 0 <= i < list@.len() ==> t.cowns[(#[trigger] list@[i]).addr() as int].resource == Some(
                refs@[i].packed(),
            )
        }),
{
    let addrs = <Vec<CownPtr<T>> as CownPtrs<V>>::addrs(&list);
    let values = <Vec<CownPtr<T>> as CownPtrs<V>>::flat(refs);
    law_return_effect(s, b, addrs, values);
    let t = s.give_back(addrs, values);
    assert forall|i: int| 0 <= i < list@.len() implies t.cowns[(#[trigger] list@[i]).addr() as int].resource == Some(
        refs@[i].packed(),
    ) by {
        assert(addrs[i] == list@[i].addr());
        assert(t.cowns[addrs[i] as int].resource == Some(values[i]));
    }
}

/// A request for a cown is for that cown, points to nobody, and is not scheduled.
pub proof fn law_fresh_request(addr: usize)
    ensures
        Request::fresh(addr).target.inner == addr,
        Request::fresh(addr).location() == addr,
        Request::fresh(addr).next is None,
        !Request::fresh(addr).scheduled,
{
}

} // verus!
