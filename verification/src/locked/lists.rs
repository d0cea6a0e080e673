//! What a list of handles stands for.
use crate::laws::among;
use crate::locked::cown::{ArcCown, CownList, RefMut};
use crate::locked::laws::{lemma_lend_all, lemma_return_all};
use crate::locked::memory::{BehaviourView, Location, Memory, Phase, Request, ResourceState};
use crate::protocol::ascending;
use crate::resource::Resource;
use crate::sorting::{in_order, law_in_order, Located};
use vstd::prelude::*;

verus! {

/// The names of the cowns of some handles, in their order.
pub open spec fn names<T>(handles: Seq<ArcCown<T>>) -> Seq<usize> {
    Seq::new(handles.len(), |i: int| handles[i].addr())
}

/// An empty list stands for no cown.
pub proof fn law_unit_list<V>()
    ensures
        <() as CownList<V>>::addrs(&()).len() == 0,
        <() as CownList<V>>::request_addrs(&()).len() == 0,
        <() as CownList<V>>::flat(()).len() == 0,
        <() as CownList<V>>::owners(()).len() == 0,
{
}

/// A pair stands for its first cown, and behind it for those of the rest. It asks
/// for all of them, and its values are the value of the first cown, and behind it
/// those of the rest.
pub proof fn law_pair_list<V, T: Resource<V>, Others: CownList<V>>(list: (ArcCown<T>, Others), refs: (RefMut<T>, Others::CownRefs))
    ensures
        <(ArcCown<T>, Others) as CownList<V>>::addrs(&list) == seq![list.0.addr()] + list.1.addrs(),
        <(ArcCown<T>, Others) as CownList<V>>::request_addrs(&list).len() == 1 + list.1.request_addrs().len(),
        <(ArcCown<T>, Others) as CownList<V>>::request_addrs(&list).to_multiset() == list.1.request_addrs().to_multiset().insert(
            list.0.addr(),
        ),
        <(ArcCown<T>, Others) as CownList<V>>::flat(refs) == seq![refs.0.value().packed()] + Others::flat(refs.1),
        <(ArcCown<T>, Others) as CownList<V>>::owners(refs) == seq![refs.0.holder().addr()] + Others::owners(refs.1),
{
    vstd::seq_lib::to_multiset_build(list.1.request_addrs(), list.0.addr());
}

/// A vector stands for the cowns of its handles, in their order. It asks for all of
/// them, and there is one value for each, in the order of the vector.
pub proof fn law_vector_list<V, T: Resource<V>>(list: Vec<ArcCown<T>>, refs: Vec<RefMut<T>>)
    ensures
        <Vec<ArcCown<T>> as CownList<V>>::addrs(&list).len() == list@.len(),
        forall|i: int| 0 <= i < list@.len() ==> #[trigger] <Vec<ArcCown<T>> as CownList<V>>::addrs(&list)[i] == list@[i].addr(),
        <Vec<ArcCown<T>> as CownList<V>>::request_addrs(&list).len() == list@.len(),
        <Vec<ArcCown<T>> as CownList<V>>::request_addrs(&list).to_multiset() == names(list@).to_multiset(),
        <Vec<ArcCown<T>> as CownList<V>>::flat(refs).len() == refs@.len(),
        forall|i: int| 0 <= i < refs@.len() ==> #[trigger] <Vec<ArcCown<T>> as CownList<V>>::flat(refs)[i]
            == refs@[i].value().packed(),
        <Vec<ArcCown<T>> as CownList<V>>::owners(refs).len() == refs@.len(),
        forall|i: int| 0 <= i < refs@.len() ==> #[trigger] <Vec<ArcCown<T>> as CownList<V>>::owners(refs)[i]
            == refs@[i].holder().addr(),
{
    assert(<Vec<ArcCown<T>> as CownList<V>>::request_addrs(&list) =~= names(list@));
}

/// A behaviour that is created for the cowns `addrs` asks for each of them, once for
/// each time that it is named, in ascending order. Each request is unused. One
/// resolution is outstanding for each request, and one for the scheduler.
pub proof fn law_asks_for_all<F>(f: F, addrs: Seq<usize>)
    ensures
        ({
            let v = BehaviourView::asking(f, addrs);
            &&& v.requests.len() == addrs.len()
            &&& v.targets().to_multiset() == addrs.to_multiset()
            &&& ascending(v.targets())
            &&& forall|i: int| 0 <= i < addrs.len() ==> (#[trigger] v.requests[i]).callback is None && !v.requests[i].scheduled
                && v.requests[i].state == ResourceState::Initial
                && v.targets()[i] == v.requests[i].resource.cown
            &&& v.routine == Some(f)
            &&& v.count == addrs.len() + 1
            &&& v.phase == Phase::Enqueue(0)
        }),
{
    law_in_order(addrs);
    assert(BehaviourView::asking(f, addrs).targets() =~= in_order(addrs));
}

/// A behaviour that is created for a vector of handles asks for the cown of every
/// one of them, and for no other.
pub proof fn law_vector_asks_for_all<V, T: Resource<V>, F>(f: F, list: Vec<ArcCown<T>>)
    ensures
        ({
            let v = BehaviourView::asking(f, <Vec<ArcCown<T>> as CownList<V>>::request_addrs(&list));
            &&& v.requests.len() == list@.len()
            &&& v.count == list@.len() + 1
            &&& v.targets().to_multiset() == names(list@).to_multiset()
            &&& forall|i: int| 0 <= i < list@.len() ==> v.targets().contains((#[trigger] list@[i]).addr())
        }),
{
    let addrs = <Vec<ArcCown<T>> as CownList<V>>::request_addrs(&list);
    law_asks_for_all(f, addrs);
    assert(addrs =~= names(list@));
    let v = BehaviourView::asking(f, addrs);
    assert forall|i: int| 0 <= i < list@.len() implies v.targets().contains((#[trigger] list@[i]).addr()) by {
        let a = list@[i].addr();
        assert(names(list@)[i] == a);
        vstd::seq_lib::to_multiset_contains(names(list@), a);
        vstd::seq_lib::to_multiset_contains(v.targets(), a);
    }
}

/// The values of a list of cowns are the values of the cowns, one by one, in the
/// order of the list.
pub proof fn law_values_in_order<T, F>(s: Memory<T, F>, addrs: Seq<usize>)
    ensures
        s.values(addrs).len() == addrs.len(),
        forall|i: int| 0 <= i < addrs.len() && s.cowns[addrs[i] as int].resource is Some ==> Some(
            #[trigger] s.values(addrs)[i],
        ) == s.cowns[addrs[i] as int].resource,
{
}

/// Lending the values of the cowns `addrs` takes the value out of each of them,
/// notes where that was, and changes nothing else.
pub proof fn law_lend_effect<T, F>(s: Memory<T, F>, b: u64, addrs: Seq<usize>, at: Location)
    requires
        s.inv(),
        s.lendable(b, addrs),
    ensures
        ({
            let t = s.lend(addrs, at);
            &&& t.cowns.len() == s.cowns.len()
            &&& forall|i: int| 0 <= i < addrs.len() ==> t.cowns[(#[trigger] addrs[i]) as int].resource is None
                && t.cowns[addrs[i] as int].borrow_at == Some(at)
            &&& forall|c: int| 0 <= c < s.cowns.len() && !among(addrs, c) ==> (#[trigger] t.cowns[c]).resource
                == s.cowns[c].resource && t.cowns[c].borrow_at == s.cowns[c].borrow_at
            &&& forall|c: int| 0 <= c < s.cowns.len() ==> (#[trigger] t.cowns[c]).last_request == s.cowns[c].last_request
            &&& t.behaviours == s.behaviours
            &&& t.next_id == s.next_id
            &&& t.model == s.model
        }),
{
    lemma_lend_all(s, b, addrs, at);
    assert forall|i: int| 0 <= i < addrs.len() implies s.lend(addrs, at).cowns[(#[trigger] addrs[i]) as int].resource is None
        && s.lend(addrs, at).cowns[addrs[i] as int].borrow_at == Some(at) by {
        assert(addrs.contains(addrs[i]));
        assert(s.running_with(b, addrs[i]));
        assert(among(addrs, addrs[i] as int));
    }
}

/// Returning values to the cowns `addrs` puts the values into them, one by one, in
/// the order of the list, and changes nothing else.
pub proof fn law_return_effect<T, F>(s: Memory<T, F>, b: u64, addrs: Seq<usize>, values: Seq<T>)
    requires
        s.inv(),
        s.returnable(b, addrs),
        values.len() == addrs.len(),
    ensures
        ({
            let t = s.give_back(addrs, values);
            &&& t.cowns.len() == s.cowns.len()
            &&& forall|i: int| 0 <= i < addrs.len() ==> t.cowns[(#[trigger] addrs[i]) as int].resource == Some(values[i])
                && t.cowns[addrs[i] as int].borrow_at is None
            &&& forall|c: int| 0 <= c < s.cowns.len() && !among(addrs, c) ==> (#[trigger] t.cowns[c]).resource
                == s.cowns[c].resource && t.cowns[c].borrow_at == s.cowns[c].borrow_at
            &&& forall|c: int| 0 <= c < s.cowns.len() ==> (#[trigger] t.cowns[c]).last_request == s.cowns[c].last_request
            &&& t.behaviours == s.behaviours
            &&& t.next_id == s.next_id
            &&& t.model == s.model
        }),
{
    lemma_return_all(s, b, addrs, values);
    let t = s.give_back(addrs, values);
    assert forall|i: int| 0 <= i < addrs.len() implies t.cowns[(#[trigger] addrs[i]) as int].resource == Some(values[i])
        && t.cowns[addrs[i] as int].borrow_at is None by {
        assert(t.cowns[addrs[i] as int].resource == Some(values[i]));
    }
    assert forall|c: int| 0 <= c < s.cowns.len() implies (#[trigger] t.cowns[c]).last_request == s.cowns[c].last_request by {
        if among(addrs, c) {
            let i = choose|i: int| 0 <= i < addrs.len() && addrs[i] == c as usize;
            assert(t.cowns[addrs[i] as int].last_request == s.cowns[addrs[i] as int].last_request);
        } else {
            assert(t.cowns[c] == s.cowns[c]);
        }
    }
}

/// Borrowing through a vector: the value of the `i`-th handle is the one that was
/// in the cown of that handle, and it is out of the cown.
pub proof fn law_vector_lends<V, T: Resource<V>, F>(s: Memory<V, F>, b: u64, list: Vec<ArcCown<T>>, at: Location)
    requires
        s.inv(),
        s.lendable(b, <Vec<ArcCown<T>> as CownList<V>>::addrs(&list)),
    ensures
        ({
            let addrs = <Vec<ArcCown<T>> as CownList<V>>::addrs(&list);
            &&& s.values(addrs).len() == list@.len()
            &&& forall|i: int| 0 <= i < list@.len() ==> Some(s.values(addrs)[i]) == s.cowns[(#[trigger] list@[i]).addr() as int].resource
                && s.lend(addrs, at).cowns[list@[i].addr() as int].resource is None
        }),
{
    let addrs = <Vec<ArcCown<T>> as CownList<V>>::addrs(&list);
    law_lend_effect(s, b, addrs, at);
    assert forall|i: int| 0 <= i < list@.len() implies Some(s.values(addrs)[i]) == s.cowns[(#[trigger] list@[i]).addr() as int].resource
        && s.lend(addrs, at).cowns[list@[i].addr() as int].resource is None by {
        assert(addrs[i] == list@[i].addr());
        assert(s.running_with(b, addrs[i]));
    }
}

/// Returning a vector of borrowed values: each value goes into the cown from which
/// it was borrowed.
pub proof fn law_vector_returns<V, T: Resource<V>, F>(s: Memory<V, F>, b: u64, refs: Vec<RefMut<T>>)
    requires
        s.inv(),
        s.returnable(b, <Vec<ArcCown<T>> as CownList<V>>::owners(refs)),
    ensures
        ({
            let t = s.give_back(
                <Vec<ArcCown<T>> as CownList<V>>::owners(refs),
                <Vec<ArcCown<T>> as CownList<V>>::flat(refs),
            );
            forall|i: int| 0 <= i < refs@.len() ==> t.cowns[(#[trigger] refs@[i]).holder().addr() as int].resource == Some(
                refs@[i].value().packed(),
            )
        }),
{
    let addrs = <Vec<ArcCown<T>> as CownList<V>>::owners(refs);
    let values = <Vec<ArcCown<T>> as CownList<V>>::flat(refs);
    law_return_effect(s, b, addrs, values);
    let t = s.give_back(addrs, values);
    assert forall|i: int| 0 <= i < refs@.len() implies t.cowns[(#[trigger] refs@[i]).holder().addr() as int].resource
        == Some(refs@[i].value().packed()) by {
        assert(addrs[i] == refs@[i].holder().addr());
        assert(t.cowns[addrs[i] as int].resource == Some(values[i]));
    }
}

/// Borrowing from one cown, and returning to it, change that cown alone.
pub proof fn law_single_effect<T, F>(s: Memory<T, F>, a: int, at: Location, value: T)
    requires
        0 <= a < s.cowns.len(),
    ensures
        ({
            let t = s.with_borrow(a, at);
            let u = s.with_value(a, value);
            &&& t.cowns.len() == s.cowns.len() && u.cowns.len() == s.cowns.len()
            &&& t.cowns[a].resource is None && t.cowns[a].borrow_at == Some(at)
            &&& u.cowns[a].resource == Some(value) && u.cowns[a].borrow_at is None
            &&& t.cowns[a].last_request == s.cowns[a].last_request && u.cowns[a].last_request == s.cowns[a].last_request
            &&& forall|c: int| 0 <= c < s.cowns.len() && c != a ==> (#[trigger] s.cowns[c]) == t.cowns[c] && s.cowns[c]
                == u.cowns[c]
            &&& t.behaviours == s.behaviours && u.behaviours == s.behaviours
            &&& t.next_id == s.next_id && u.next_id == s.next_id
            &&& t.model == s.model && u.model == s.model
        }),
{
}

/// A request for a cown is for that cown, has nobody registered, is initial, and
/// is not scheduled.
pub proof fn law_fresh_request(addr: usize)
    ensures
        Request::fresh(addr).resource.cown == addr,
        Request::fresh(addr).location() == addr,
        Request::fresh(addr).callback is None,
        Request::fresh(addr).state == ResourceState::Initial,
        !Request::fresh(addr).scheduled,
{
}

} // verus!
