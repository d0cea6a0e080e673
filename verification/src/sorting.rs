//! Ordering by location: the global order in which cowns are asked for.
use crate::protocol::ascending;
use vstd::prelude::*;

verus! {

/// Something that has a place in the global order of cowns.
pub trait Located: Sized {
    spec fn location(&self) -> usize;

    fn locate(&self) -> (a: usize)
        ensures
            a == self.location(),
    ;
}

/// `items` is in ascending order of location.
pub open spec fn located_ascending<R: Located>(items: Seq<R>) -> bool {
    forall|i: int, j: int| 0 <= i <= j < items.len() ==> (#[trigger] items[i]).location() <= (#[trigger] items[j]).location()
}

/// The locations of `items`.
pub open spec fn locations<R: Located>(items: Seq<R>) -> Seq<usize> {
    Seq::new(items.len(), |i: int| items[i].location())
}

/// The order of locations.
pub open spec fn not_after() -> spec_fn(usize, usize) -> bool {
    |a: usize, b: usize| a <= b
}

/// The numbers `s` in ascending order.
pub open spec fn in_order(s: Seq<usize>) -> Seq<usize> {
    s.sort_by(not_after())
}

/// Ascending order is unique: `in_order(s)` is a permutation of `s` in ascending
/// order, and the only one.
pub proof fn law_in_order(s: Seq<usize>)
    ensures
        ascending(in_order(s)),
        in_order(s).to_multiset() == s.to_multiset(),
        in_order(s).len() == s.len(),
        forall|t: Seq<usize>| ascending(t) && #[trigger] t.to_multiset() == s.to_multiset() ==> t == in_order(s),
{
    s.lemma_sort_by_ensures(not_after());
    vstd::seq_lib::to_multiset_len(s);
    vstd::seq_lib::to_multiset_len(in_order(s));
    let o = in_order(s);
    assert forall|i: int, j: int| 0 <= i <= j < o.len() implies o[i] <= o[j] by {
        if i < j {
            assert(not_after()(o[i], o[j]));
        }
    }
    assert forall|t: Seq<usize>| ascending(t) && #[trigger] t.to_multiset() == s.to_multiset() implies t == in_order(s) by {
        vstd::seq_lib::lemma_sorted_unique(t, o, not_after());
    }
}

/// Being at the location `a`.
pub open spec fn being_at<R: Located>(a: usize) -> spec_fn(R) -> bool {
    |x: R| x.location() == a
}

/// The items at the location `a`, in their order.
pub open spec fn located_at<R: Located>(items: Seq<R>, a: usize) -> Seq<R> {
    items.filter(being_at(a))
}

/// Inserting an item behind all those that are not farther than it.
proof fn lemma_insert_at<R: Located>(items: Seq<R>, place: int, item: R, a: usize)
    requires
        0 <= place <= items.len(),
        forall|j: int| place <= j < items.len() ==> item.location() < (#[trigger] items[j]).location(),
    ensures
        located_at(items.insert(place, item), a) == located_at(items.push(item), a),
{
    let at = being_at::<R>(a);
    let near = items.take(place);
    let far = items.skip(place);
    assert(items.insert(place, item) =~= near.push(item) + far);
    assert(items =~= near + far);
    Seq::filter_distributes_over_add(near.push(item), far, at);
    Seq::filter_distributes_over_add(near, far, at);
    near.lemma_filter_push(item, at);
    items.lemma_filter_push(item, at);
    if item.location() == a {
        assert(far.filter(at) =~= Seq::empty()) by {
            if far.filter(at).len() > 0 {
                far.lemma_filter_pred(at, 0);
                lemma_filter_member(far, at, 0);
            }
        }
        assert(near.filter(at).push(item) + far.filter(at) =~= (near.filter(at) + far.filter(at)).push(item));
    }
}

/// What a filter lets through was there.
proof fn lemma_filter_member<A>(s: Seq<A>, pred: spec_fn(A) -> bool, i: int)
    requires
        0 <= i < s.filter(pred).len(),
    ensures
        s.contains(s.filter(pred)[i]),
    decreases s.len(),
{
    reveal(Seq::filter);
    let front = s.drop_last();
    if i < front.filter(pred).len() {
        lemma_filter_member(front, pred, i);
        let j = choose|j: int| 0 <= j < front.len() && front[j] == front.filter(pred)[i];
        assert(s[j] == s.filter(pred)[i]);
    } else {
        assert(s[s.len() - 1] == s.filter(pred)[i]);
    }
}

/// Puts `items` into ascending order of location. Items at the same location
/// keep their order.
pub fn sort_by_location<R: Located>(items: Vec<R>) -> (sorted: Vec<R>)
    ensures
        located_ascending(sorted@),
        locations(sorted@) == in_order(locations(items@)),
        sorted@.to_multiset() == items@.to_multiset(),
        forall|a: usize| #[trigger] located_at(sorted@, a) == located_at(items@, a),
{
    let ghost all = items@;
    let mut sorted: Vec<R> = Vec::new();
    assert(all.take(0) =~= sorted@);
    assert(locations(all.take(0)) =~= locations(sorted@));
    for item in it: items
        invariant
            it.seq() == all,
            located_ascending(sorted@),
            sorted@.to_multiset() == all.take(it.index() as int).to_multiset(),
            locations(sorted@).to_multiset() == locations(all.take(it.index() as int)).to_multiset(),
            forall|x: usize| #[trigger] located_at(sorted@, x) == located_at(all.take(it.index() as int), x),
    {
        let a: usize = item.locate();
        let mut place: usize = sorted.len();
        while place > 0 && sorted[place - 1].locate() > a
            invariant
                place <= sorted.len(),
                forall|j: int| place <= j < sorted.len() ==> a < (#[trigger] sorted@[j]).location(),
            decreases place,
        {
            place = place - 1;
        }
        let ghost before = sorted@;
        let ghost index = it.index() as int;
        sorted.insert(place, item);
        proof {
            assert(sorted@ == before.insert(place as int, item));
            vstd::seq_lib::to_multiset_insert(before, place as int, item);
            assert(all.take(index + 1) =~= all.take(index).push(item));
            vstd::seq_lib::to_multiset_build(all.take(index), item);
            assert(locations(sorted@) =~= locations(before).insert(place as int, a));
            vstd::seq_lib::to_multiset_insert(locations(before), place as int, a);
            assert(locations(all.take(index + 1)) =~= locations(all.take(index)).push(a));
            vstd::seq_lib::to_multiset_build(locations(all.take(index)), a);
            assert forall|x: usize| #[trigger] located_at(sorted@, x) == located_at(all.take(index + 1), x) by {
                assert(located_at(before, x) == located_at(all.take(index), x));
                lemma_insert_at(before, place as int, item, x);
                before.lemma_filter_push(item, being_at(x));
                all.take(index).lemma_filter_push(item, being_at(x));
            }
            assert forall|i: int, j: int| 0 <= i <= j < sorted@.len() implies (#[trigger] sorted@[i]).location()
                <= (#[trigger] sorted@[j]).location() by {
                let x = if i < place { i } else { i - 1 };
                let y = if j < place { j } else { j - 1 };
                if i != place && j != place {
                    assert(before[x].location() <= before[y].location());
                } else if i != place {
                    assert(before[x].location() <= before[place - 1].location());
                } else if j != place {
                    assert(a < before[y].location());
                }
            }
        }
    }
    assert(all.take(all.len() as int) =~= all);
    proof {
        law_in_order(locations(all));
        assert(ascending(locations(sorted@))) by {
            assert forall|i: int, j: int| 0 <= i <= j < sorted@.len() implies locations(sorted@)[i] <= locations(
                sorted@,
            )[j] by {
                assert(sorted@[i].location() <= sorted@[j].location());
            }
        }
    }
    sorted
}

} // verus!
