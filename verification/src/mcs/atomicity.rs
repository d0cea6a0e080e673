//! Scheduling while nobody else schedules: the enqueueing as a whole.
use crate::laws::distinct;
use crate::mcs::coupling::{
    lemma_enlist_step, lemma_live, lemma_model, lemma_schedule_step, newborn,
};
use crate::mcs::driving::lemma_schedule_advances;
use crate::mcs::memory::{BehaviorView, Memory, Phase};
use crate::mcs::request::Request;
use crate::progress::Progress;
use crate::protocol::ReqId;
use vstd::prelude::*;

verus! {

impl<T, F> Memory<T, F> {
    /// Nobody is in the middle of being scheduled.
    pub open spec fn quiet(self) -> bool {
        forall|b: u64| #[trigger] self.live(b) ==> !self.scheduling(b)
    }

    /// The number of cowns among the first `k` of `targets` that nobody asks for.
    pub open spec fn free_among(self, targets: Seq<usize>, k: int) -> int
        decreases k,
    {
        if k <= 0 {
            0
        } else {
            self.free_among(targets, k - 1) + if self.cowns[targets[k - 1] as int].last is None { 1int } else { 0int }
        }
    }

    /// `self` is what `s` has become after the first `k` requests of `b`, for
    /// `targets`, have been put into their queues, and linked to the requests
    /// in front of them.
    pub open spec fn after_enqueueing(self, s: Memory<T, F>, b: u64, targets: Seq<usize>, k: int) -> bool {
        &&& self.cowns.len() == s.cowns.len()
        &&& forall|i: int| 0 <= i < k ==> (#[trigger] self.cowns[targets[i] as int]).last == Some(
            ReqId { behavior: b, index: i as usize },
        )
        &&& forall|c: int| 0 <= c < s.cowns.len() && (forall|i: int| 0 <= i < k ==> targets[i] != c)
            ==> #[trigger] self.cowns[c] == s.cowns[c]
        &&& forall|c: int| 0 <= c < s.cowns.len() ==> (#[trigger] self.cowns[c]).resource == s.cowns[c].resource
        &&& forall|x: u64| s.live(x) ==> {
            &&& #[trigger] self.live(x)
            &&& self.behaviors[x] == (BehaviorView { requests: self.behaviors[x].requests, ..s.behaviors[x] })
            &&& self.size(x) == s.size(x)
        }
        &&& forall|r: ReqId| #[trigger] s.is_request(r) ==> self.request(r) == s.linked_request(r, b, targets, k)
        &&& forall|x: u64| #[trigger] self.live(x) ==> s.live(x) || x == b
    }

    /// The request `r`, made to point to `b` if it stood last at one of the first
    /// `k` of `targets`.
    pub open spec fn linked_request(self, r: ReqId, b: u64, targets: Seq<usize>, k: int) -> Request {
        if exists|i: int| 0 <= i < k && (#[trigger] self.cowns[targets[i] as int]).last == Some(r) {
            Request { next: Some(b), ..self.request(r) }
        } else {
            self.request(r)
        }
    }

    /// Where the scheduling of `b` stands when it began at `s`, a quiet state.
    spec fn midway(self, s: Memory<T, F>, b: u64, targets: Seq<usize>) -> bool {
        let n = targets.len() as int;
        &&& self.scheduling(b)
        &&& self.size(b) == n
        &&& self.behaviors[b].targets() == targets
        &&& forall|i: int| 0 <= i < n ==> (#[trigger] self.behaviors[b].requests[i]).next is None
        &&& match self.phase(b) {
            Phase::Enqueue(k) => {
                &&& k <= n
                &&& self.after_enqueueing(s, b, targets, k as int)
                &&& self.behaviors[b].count == n + 1 - s.free_among(targets, k as int)
            },
            Phase::Resolve(k) => {
                &&& k < n
                &&& self.after_enqueueing(s, b, targets, k + 1)
                &&& s.cowns[targets[k as int] as int].last is None
                &&& self.behaviors[b].count == n + 1 - s.free_among(targets, k as int)
            },
            Phase::Wait(k, prev) => {
                &&& k < n
                &&& self.with_next(prev, Some(b)).after_enqueueing(s, b, targets, k + 1)
                &&& s.cowns[targets[k as int] as int].last == Some(prev)
                &&& self.request(prev) == s.request(prev)
                &&& self.behaviors[b].count == n + 1 - s.free_among(targets, k as int)
            },
            Phase::Link(k, prev) => {
                &&& k < n
                &&& self.with_next(prev, Some(b)).after_enqueueing(s, b, targets, k + 1)
                &&& s.cowns[targets[k as int] as int].last == Some(prev)
                &&& self.request(prev) == s.request(prev)
                &&& self.behaviors[b].count == n + 1 - s.free_among(targets, k as int)
            },
            Phase::Finish(k) => {
                &&& k <= n
                &&& self.after_enqueueing(s, b, targets, n)
                &&& self.behaviors[b].count == n + 1 - s.free_among(targets, n)
            },
            _ => false,
        }
    }
}

/// The tail of a cown is a request for it.
pub proof fn lemma_tail<T, F>(s: Memory<T, F>, c: int)
    requires
        s.inv(),
        0 <= c < s.cowns.len(),
    ensures
        s.cowns[c].last matches Some(r) ==> {
            &&& s.is_request(r)
            &&& s.target(r) == c
            &&& s.model.queued(r)
            &&& s.request(r).next is None
        },
{
    lemma_model(s);
    if s.cowns[c].last is Some {
        let q = s.model.queues[c];
        let r = s.cowns[c].last->Some_0;
        assert(q.len() > 0 && q.last() == r && s.request(r).next is None) by {
            reveal(Memory::inv);
            assert(s.cowns[c].last is Some);
            assert(s.request(s.model.queues[c][q.len() - 1]).next == s.link(c, q.len() - 1));
        }
        assert(s.model.queued(s.model.queues[c][q.len() - 1]));
        assert(s.live(r.behavior));
        lemma_live(s, r.behavior);
        assert(s.is_request(r));
    }
}

/// In a quiet state every request is scheduled.
proof fn lemma_quiet_scheduled<T, F>(s: Memory<T, F>, r: ReqId)
    requires
        s.inv(),
        s.quiet(),
        s.is_request(r),
    ensures
        s.request(r).scheduled,
{
    assert(s.live(r.behavior));
    lemma_live(s, r.behavior);
    assert(s.behaviors[r.behavior].requests[r.index as int].scheduled == s.model.actors[r.behavior].stage.scheduled(
        r.index as int,
    ));
}

proof fn lemma_free_bounds<T, F>(s: Memory<T, F>, targets: Seq<usize>, k: int)
    requires
        0 <= k <= targets.len(),
    ensures
        0 <= s.free_among(targets, k) <= k,
        s.free_among(targets, k) == k <==> (forall|i: int| 0 <= i < k ==> (#[trigger] s.cowns[targets[i] as int]).last
            is None),
    decreases k,
{
    if k > 0 {
        lemma_free_bounds(s, targets, k - 1);
        if s.free_among(targets, k) == k {
            assert forall|i: int| 0 <= i < k implies (#[trigger] s.cowns[targets[i] as int]).last is None by {
                if i < k - 1 {
                    assert(s.free_among(targets, k - 1) == k - 1);
                }
            }
        }
    }
}

/// The swap of the `k`-th request.
proof fn lemma_midway_swap<T, F>(s: Memory<T, F>, u: Memory<T, F>, b: u64, targets: Seq<usize>)
    requires
        s.inv(),
        !s.live(b),
        distinct(targets),
        targets.len() < usize::MAX,
        forall|i: int| 0 <= i < targets.len() ==> #[trigger] targets[i] < s.cowns.len(),
        u.midway(s, b, targets),
        u.phase(b) is Enqueue,
        u.phase(b)->Enqueue_0 < targets.len(),
    ensures
        u.schedule(b).midway(s, b, targets),
{
    let k = u.phase(b)->Enqueue_0;
    let r = ReqId { behavior: b, index: k };
    let c = targets[k as int] as int;
    let t = u.schedule(b);
    assert(targets[k as int] < s.cowns.len());
    assert(u.behaviors[b].targets()[k as int] == targets[k as int]);
    assert(u.target(r) == c);
    assert(u.cowns[c] == s.cowns[c]);
    lemma_tail(s, c);
    assert(t.behaviors =~= u.behaviors.insert(b, t.behaviors[b]));
    assert(t.behaviors[b].targets() =~= targets);
    let last = s.cowns[c].last;
    let w = match last {
        None => t,
        Some(prev) => t.with_next(prev, Some(b)),
    };
    assert(w.after_enqueueing(s, b, targets, k + 1)) by {
        assert forall|i: int| 0 <= i < k + 1 implies (#[trigger] w.cowns[targets[i] as int]).last == Some(
            ReqId { behavior: b, index: i as usize },
        ) by {
            if i < k {
                assert(targets[i] != targets[k as int]);
                assert(u.cowns[targets[i] as int].last == Some(ReqId { behavior: b, index: i as usize }));
            }
        }
        assert forall|d: int| 0 <= d < s.cowns.len() && (forall|i: int| 0 <= i < k + 1 ==> targets[i] != d)
            implies #[trigger] w.cowns[d] == s.cowns[d] by {
            assert(targets[k as int] != d);
            assert(u.cowns[d] == s.cowns[d]);
        }
        assert forall|d: int| 0 <= d < s.cowns.len() implies (#[trigger] w.cowns[d]).resource == s.cowns[d].resource by {
            assert(u.cowns[d].resource == s.cowns[d].resource);
        }
        assert forall|x: u64| s.live(x) implies {
            &&& #[trigger] w.live(x)
            &&& w.behaviors[x] == (BehaviorView { requests: w.behaviors[x].requests, ..s.behaviors[x] })
            &&& w.size(x) == s.size(x)
        } by {
            assert(u.live(x));
        }
        assert forall|x: ReqId| #[trigger] s.is_request(x) implies w.request(x) == s.linked_request(x, b, targets, k + 1) by {
            assert(u.request(x) == s.linked_request(x, b, targets, k as int));
            assert(s.live(x.behavior));
            assert(u.live(x.behavior));
            if last == Some(x) {
                assert(s.cowns[targets[k as int] as int].last == Some(x));
                assert forall|i: int| 0 <= i < k implies (#[trigger] s.cowns[targets[i] as int]).last != Some(x) by {
                    assert(targets[i] < s.cowns.len());
                    assert(targets[i] != targets[k as int]);
                    lemma_tail(s, targets[i] as int);
                }
            } else {
                assert(s.linked_request(x, b, targets, k + 1) == s.linked_request(x, b, targets, k as int)) by {
                    if exists|i: int| 0 <= i < k + 1 && (#[trigger] s.cowns[targets[i] as int]).last == Some(x) {
                        let i = choose|i: int| 0 <= i < k + 1 && (#[trigger] s.cowns[targets[i] as int]).last == Some(x);
                        assert(i < k);
                    }
                }
            }
        }
        assert forall|x: u64| #[trigger] w.live(x) implies s.live(x) || x == b by {
            assert(u.live(x) || x == b || (last is Some && s.live(last->Some_0.behavior) && x == last->Some_0.behavior));
        }
    }
    if last is Some {
        let prev = last->Some_0;
        assert(s.is_request(prev));
        assert(prev.behavior != b);
        assert(u.request(prev) == s.linked_request(prev, b, targets, k as int));
        assert forall|i: int| 0 <= i < k implies (#[trigger] s.cowns[targets[i] as int]).last != Some(prev) by {
            assert(targets[i] < s.cowns.len());
            assert(targets[i] != targets[k as int]);
            lemma_tail(s, targets[i] as int);
        }
        assert(u.live(prev.behavior));
        assert(t.request(prev) == s.request(prev));
    }
}

/// Every step of scheduling from a quiet state is made, until the behaviour is
/// scheduled.
proof fn lemma_midway_step<T, F>(s: Memory<T, F>, u: Memory<T, F>, b: u64, targets: Seq<usize>)
    requires
        s.inv(),
        s.quiet(),
        !s.live(b),
        distinct(targets),
        targets.len() < usize::MAX,
        forall|i: int| 0 <= i < targets.len() ==> #[trigger] targets[i] < s.cowns.len(),
        u.inv(),
        u.midway(s, b, targets),
    ensures
        u.schedule_progress(b) is Advanced ==> u.schedule(b).midway(s, b, targets),
        u.schedule(b).behaviors[b].routine == u.behaviors[b].routine,
        u.schedule(b).next_id == u.next_id,
        !(u.schedule_progress(b) is Advanced) ==> {
            let t = u.schedule(b);
            let n = targets.len() as int;
            &&& u.schedule_progress(b) == (if s.free_among(targets, n) == n {
                Progress::Ready(b)
            } else {
                Progress::Pending
            })
            &&& t.phase(b) == (if s.free_among(targets, n) == n {
                Phase::Ready
            } else {
                Phase::Pending
            })
            &&& t.after_enqueueing(s, b, targets, n)
            &&& t.behaviors[b].count == n - s.free_among(targets, n)
            &&& t.behaviors[b].targets() == targets
            &&& forall|i: int| 0 <= i < n ==> (#[trigger] t.behaviors[b].requests[i]).next is None
        },
{
    lemma_live(u, b);
    lemma_schedule_step(u, b);
    let t = u.schedule(b);
    let n = targets.len() as int;
    lemma_free_bounds(s, targets, n);
    match u.phase(b) {
        Phase::Enqueue(k) => {
            if k < n {
                lemma_midway_swap(s, u, b, targets);
            } else {
                assert(t.behaviors =~= u.behaviors.insert(b, t.behaviors[b]));
                assert(t.behaviors[b].targets() =~= targets);
                lemma_own_step_keeps(s, u, t, b, targets, n);
            }
        },
        Phase::Resolve(k) => {
            assert(t.behaviors =~= u.behaviors.insert(b, t.behaviors[b]));
            assert(t.behaviors[b].targets() =~= targets);
            lemma_own_step_keeps(s, u, t, b, targets, k + 1);
        },
        Phase::Wait(k, prev) => {
            assert(targets[k as int] < s.cowns.len());
            lemma_tail(s, targets[k as int] as int);
            lemma_quiet_scheduled(s, prev);
            assert(u.request(prev).scheduled);
            assert(t.behaviors[b].targets() =~= targets);
            assert(prev.behavior != b);
            let u2 = u.with_next(prev, Some(b));
            let t2 = t.with_next(prev, Some(b));
            assert(t2.behaviors =~= u2.behaviors.insert(b, t2.behaviors[b]));
            lemma_own_step_keeps(s, u2, t2, b, targets, k + 1);
        },
        Phase::Link(k, prev) => {
            assert(targets[k as int] < s.cowns.len());
            lemma_tail(s, targets[k as int] as int);
            assert(prev.behavior != b);
            assert(t.behaviors[b].targets() =~= targets);
            let u2 = u.with_next(prev, Some(b));
            assert(t.behaviors =~= u2.behaviors.insert(b, t.behaviors[b]));
            lemma_own_step_keeps(s, u2, t, b, targets, k + 1);
        },
        Phase::Finish(k) => {
            assert(t.behaviors =~= u.behaviors.insert(b, t.behaviors[b]));
            assert(t.behaviors[b].targets() =~= targets);
            lemma_own_step_keeps(s, u, t, b, targets, n);
        },
        _ => {},
    }
}

/// A step that touches `b` alone changes nothing that `b` has done to others.
proof fn lemma_own_step_keeps<T, F>(
    s: Memory<T, F>,
    u: Memory<T, F>,
    t: Memory<T, F>,
    b: u64,
    targets: Seq<usize>,
    k: int,
)
    requires
        !s.live(b),
        u.after_enqueueing(s, b, targets, k),
        t.cowns == u.cowns,
        t.behaviors == u.behaviors.insert(b, t.behaviors[b]),
    ensures
        t.after_enqueueing(s, b, targets, k),
{
    assert forall|x: u64| s.live(x) implies {
        &&& #[trigger] t.live(x)
        &&& t.behaviors[x] == (BehaviorView { requests: t.behaviors[x].requests, ..s.behaviors[x] })
        &&& t.size(x) == s.size(x)
    } by {
        assert(u.live(x));
    }
    assert forall|r: ReqId| #[trigger] s.is_request(r) implies t.request(r) == s.linked_request(r, b, targets, k) by {
        assert(u.request(r) == s.linked_request(r, b, targets, k));
    }
    assert forall|x: u64| #[trigger] t.live(x) implies s.live(x) || x == b by {
        assert(u.live(x) || x == b);
    }
}

proof fn lemma_midway_drive<T, F>(s: Memory<T, F>, u: Memory<T, F>, b: u64, targets: Seq<usize>)
    requires
        s.inv(),
        s.quiet(),
        !s.live(b),
        distinct(targets),
        targets.len() < usize::MAX,
        forall|i: int| 0 <= i < targets.len() ==> #[trigger] targets[i] < s.cowns.len(),
        u.inv(),
        u.midway(s, b, targets),
    ensures
        ({
            let (t, progress) = u.drive(b);
            let n = targets.len() as int;
            &&& progress == (if s.free_among(targets, n) == n {
                Progress::Ready(b)
            } else {
                Progress::Pending
            })
            &&& t.phase(b) == (if s.free_among(targets, n) == n {
                Phase::Ready
            } else {
                Phase::Pending
            })
            &&& t.inv()
            &&& t.live(b)
            &&& t.behaviors[b].routine == u.behaviors[b].routine
            &&& t.next_id == u.next_id
            &&& t.after_enqueueing(s, b, targets, n)
            &&& t.behaviors[b].count == n - s.free_among(targets, n)
            &&& t.behaviors[b].targets() == targets
            &&& forall|i: int| 0 <= i < n ==> (#[trigger] t.behaviors[b].requests[i]).next is None
        }),
    decreases u.schedule_rank(b),
{
    lemma_schedule_advances(u, b);
    lemma_midway_step(s, u, b, targets);
    if u.schedule_progress(b) is Advanced {
        lemma_midway_drive(s, u.schedule(b), b, targets);
    }
}

/// The enqueueing as a whole: a behaviour without repeated cowns that is
/// scheduled while nobody else is being scheduled is scheduled at once. It
/// becomes the tail of each of its cowns, the former tails point to it, and
/// nothing else changes. It is ready if and only if nobody asked for any of its
/// cowns; otherwise it waits for as many resolutions as there are cowns that
/// somebody asked for.
pub proof fn law_schedule_whole<T, F>(s: Memory<T, F>, v: BehaviorView<F>)
    requires
        s.inv(),
        s.quiet(),
        s.next_id < u64::MAX,
        newborn(v),
        distinct(v.targets()),
        forall|i: int| 0 <= i < v.targets().len() ==> #[trigger] v.targets()[i] < s.cowns.len(),
    ensures
        ({
            let b = s.next_id as u64;
            let n = v.targets().len() as int;
            let (t, progress) = s.enlist(v).drive(b);
            let free = forall|i: int| 0 <= i < n ==> (#[trigger] s.cowns[v.targets()[i] as int]).last is None;
            &&& progress == (if free {
                Progress::Ready(b)
            } else {
                Progress::Pending
            })
            &&& t.phase(b) == (if free {
                Phase::Ready
            } else {
                Phase::Pending
            })
            &&& t.inv()
            &&& t.quiet()
            &&& t.live(b)
            &&& t.behaviors[b].routine == v.routine
            &&& t.next_id == s.next_id + 1
            &&& t.after_enqueueing(s, b, v.targets(), n)
            &&& t.behaviors[b].count == n - s.free_among(v.targets(), n)
            &&& t.behaviors[b].targets() == v.targets()
            &&& forall|i: int| 0 <= i < n ==> (#[trigger] t.behaviors[b].requests[i]).next is None
                && t.behaviors[b].requests[i].scheduled
        }),
{
    let b = s.next_id as u64;
    let targets = v.targets();
    let n = targets.len() as int;
    let u = s.enlist(v);
    assert forall|i: int| 0 <= i < v.requests.len() implies (#[trigger] v.requests[i]).target.inner < s.cowns.len() by {
        assert(targets[i] < s.cowns.len());
    }
    lemma_enlist_step(s, v);
    assert(u.midway(s, b, targets)) by {
        assert forall|i: int| 0 <= i < n implies (#[trigger] u.behaviors[b].requests[i]).next is None by {
            assert(v.requests[i] == Request::fresh(v.requests[i].target.inner));
        }
        assert(u.after_enqueueing(s, b, targets, 0)) by {
            assert forall|x: u64| s.live(x) implies {
                &&& #[trigger] u.live(x)
                &&& u.behaviors[x] == (BehaviorView { requests: u.behaviors[x].requests, ..s.behaviors[x] })
                &&& u.size(x) == s.size(x)
            } by {}
            assert forall|r: ReqId| #[trigger] s.is_request(r) implies u.request(r) == s.linked_request(r, b, targets, 0) by {
                assert(s.live(r.behavior));
            }
        }
    }
    lemma_midway_drive(s, u, b, targets);
    lemma_free_bounds(s, targets, n);
    let (t, progress) = u.drive(b);
    lemma_live(t, b);
    assert forall|i: int| 0 <= i < n implies (#[trigger] t.behaviors[b].requests[i]).scheduled by {
        assert(t.model.actors[b].stage.scheduled(i));
    }
    assert forall|x: u64| #[trigger] t.live(x) implies !t.scheduling(x) by {
        if x != b {
            assert(s.live(x));
            assert(t.live(x));
            assert(!s.scheduling(x));
        }
    }
}

} // verus!
