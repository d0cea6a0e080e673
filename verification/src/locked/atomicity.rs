//! Scheduling while nobody else schedules: the enqueueing as a whole.
use crate::laws::distinct;
use crate::locked::coupling::{
    lemma_enlist_step, lemma_live, lemma_schedule_step, lemma_tail, newborn,
};
use crate::locked::driving::lemma_schedule_advances;
use crate::locked::memory::{BehaviourView, Cown, Memory, Phase, Request, ResourceState};
use crate::progress::Progress;
use crate::protocol::ReqId;
use vstd::prelude::*;

verus! {

impl<T, F> Memory<T, F> {
    /// Nobody is in the middle of being scheduled.
    pub open spec fn quiet(self) -> bool {
        forall|b: u64| #[trigger] self.live(b) ==> !self.scheduling(b)
    }

    /// The number of cowns among the first `k` of `targets` that nobody asks for.
    pub open spec fn free_among(self, targets: Seq<usize>, k: int) -> int
        decreases k,
    {
        if k <= 0 {
            0
        } else {
            self.free_among(targets, k - 1) + if self.cowns[targets[k - 1] as int].last_request is None { 1int } else { 0int }
        }
    }

    /// `self` is what `s` has become after the first `k` requests of `b`, for
    /// `targets`, have been put into their queues, and registered at the requests
    /// in front of them.
    pub open spec fn after_enqueueing(self, s: Memory<T, F>, b: u64, targets: Seq<usize>, k: int) -> bool {
        &&& self.cowns.len() == s.cowns.len()
        &&& forall|i: int| 0 <= i < k ==> #[trigger] self.cowns[targets[i] as int] == (Cown {
            last_request: Some(ReqId { behavior: b, index: i as usize }),
            ..s.cowns[targets[i] as int]
        })
        &&& forall|c: int| 0 <= c < s.cowns.len() && (forall|i: int| 0 <= i < k ==> targets[i] != c)
            ==> #[trigger] self.cowns[c] == s.cowns[c]
        &&& forall|x: u64| s.live(x) ==> {
            &&& #[trigger] self.live(x)
            &&& self.behaviours[x] == (BehaviourView { requests: self.behaviours[x].requests, ..s.behaviours[x] })
            &&& self.size(x) == s.size(x)
        }
        &&& forall|i: int| 0 <= i < k ==> ((#[trigger] s.cowns[targets[i] as int]).last_request matches Some(r)
            ==> self.request(r) == (Request {
            callback: Some(ReqId { behavior: b, index: i as usize }),
            ..s.request(r)
        }))
        &&& forall|r: ReqId| #[trigger] s.is_request(r) && !s.last_among(targets, k, r) ==> self.request(r) == s.request(r)
        &&& forall|x: u64| #[trigger] self.live(x) ==> s.live(x) || x == b
    }

    /// `r` is the end of the queue of one of the first `k` of `targets`.
    pub open spec fn last_among(self, targets: Seq<usize>, k: int, r: ReqId) -> bool {
        exists|i: int| 0 <= i < k && (#[trigger] self.cowns[targets[i] as int]).last_request == Some(r)
    }

    /// Of the requests of `b`, for `targets`, the first `k` have taken note of what
    /// they found in `s`.
    pub open spec fn noted(self, s: Memory<T, F>, b: u64, targets: Seq<usize>, k: int) -> bool {
        forall|i: int| 0 <= i < targets.len() ==> (#[trigger] self.behaviours[b].requests[i]).callback is None
            && self.behaviours[b].requests[i].state == (if i >= k {
            ResourceState::Initial
        } else if s.cowns[targets[i] as int].last_request is None {
            ResourceState::Owned
        } else {
            ResourceState::Certificate
        })
    }

    /// Where the scheduling of `b` stands when it began at `s`, a quiet state.
    spec fn midway(self, s: Memory<T, F>, b: u64, targets: Seq<usize>) -> bool {
        let n = targets.len() as int;
        &&& self.scheduling(b)
        &&& self.size(b) == n
        &&& self.behaviours[b].targets() == targets
        &&& match self.phase(b) {
            Phase::Enqueue(k) => {
                &&& k <= n
                &&& self.after_enqueueing(s, b, targets, k as int)
                &&& self.noted(s, b, targets, k as int)
                &&& self.behaviours[b].count == n + 1 - s.free_among(targets, k as int)
            },
            Phase::Resolve(k) => {
                &&& k < n
                &&& self.after_enqueueing(s, b, targets, k + 1)
                &&& self.noted(s, b, targets, k as int)
                &&& s.cowns[targets[k as int] as int].last_request is None
                &&& self.behaviours[b].count == n + 1 - s.free_among(targets, k as int)
            },
            Phase::Wait(k, prev) => {
                &&& k < n
                &&& self.after_enqueueing(s, b, targets, k + 1)
                &&& self.noted(s, b, targets, k + 1)
                &&& s.cowns[targets[k as int] as int].last_request == Some(prev)
                &&& self.behaviours[b].count == n + 1 - s.free_among(targets, k as int)
            },
            Phase::Finish(k) => {
                &&& k <= n
                &&& self.after_enqueueing(s, b, targets, n)
                &&& self.noted(s, b, targets, n)
                &&& self.behaviours[b].count == n + 1 - s.free_among(targets, n)
            },
            _ => false,
        }
    }
}

/// In a quiet state every request is scheduled.
proof fn lemma_quiet_scheduled<T, F>(s: Memory<T, F>, r: ReqId)
    requires
        s.inv(),
        s.quiet(),
        s.is_request(r),
    ensures
        s.request(r).scheduled,
{
    assert(s.live(r.behavior));
    lemma_live(s, r.behavior);
    assert(s.behaviours[r.behavior].requests[r.index as int].scheduled == s.model.actors[r.behavior].stage.scheduled(
        r.index as int,
    ));
}

proof fn lemma_free_bounds<T, F>(s: Memory<T, F>, targets: Seq<usize>, k: int)
    requires
        0 <= k <= targets.len(),
    ensures
        0 <= s.free_among(targets, k) <= k,
        s.free_among(targets, k) == k <==> (forall|i: int| 0 <= i < k ==> (#[trigger] s.cowns[targets[i] as int]).last_request
            is None),
    decreases k,
{
    if k > 0 {
        lemma_free_bounds(s, targets, k - 1);
        if s.free_among(targets, k) == k {
            assert forall|i: int| 0 <= i < k implies (#[trigger] s.cowns[targets[i] as int]).last_request is None by {
                if i < k - 1 {
                    assert(s.free_among(targets, k - 1) == k - 1);
                }
            }
        }
    }
}

/// The request at the end of a queue is at the end of one queue only.
proof fn lemma_last_once<T, F>(s: Memory<T, F>, targets: Seq<usize>, k: int, i: int, r: ReqId)
    requires
        s.inv(),
        distinct(targets),
        0 <= k <= i < targets.len(),
        forall|x: int| 0 <= x < targets.len() ==> #[trigger] targets[x] < s.cowns.len(),
        s.cowns[targets[i] as int].last_request == Some(r),
    ensures
        !s.last_among(targets, k, r),
{
    assert(targets[i] < s.cowns.len());
    lemma_tail(s, targets[i] as int);
    assert forall|x: int| 0 <= x < k implies (#[trigger] s.cowns[targets[x] as int]).last_request != Some(r) by {
        assert(targets[x] < s.cowns.len());
        assert(targets[x] != targets[i]);
        lemma_tail(s, targets[x] as int);
    }
}

/// The `k`-th request is put into its queue.
proof fn lemma_midway_acquire<T, F>(s: Memory<T, F>, u: Memory<T, F>, b: u64, targets: Seq<usize>)
    requires
        s.inv(),
        !s.live(b),
        distinct(targets),
        targets.len() < usize::MAX,
        forall|i: int| 0 <= i < targets.len() ==> #[trigger] targets[i] < s.cowns.len(),
        u.midway(s, b, targets),
        u.phase(b) is Enqueue,
        u.phase(b)->Enqueue_0 < targets.len(),
    ensures
        u.schedule(b).midway(s, b, targets),
{
    let k = u.phase(b)->Enqueue_0;
    let r = ReqId { behavior: b, index: k };
    let c = targets[k as int] as int;
    let t = u.schedule(b);
    assert(targets[k as int] < s.cowns.len());
    assert(u.behaviours[b].targets()[k as int] == targets[k as int]);
    assert(u.target(r) == c);
    assert(u.cowns[c] == s.cowns[c]) by {
        assert forall|i: int| 0 <= i < k implies targets[i] != c by {
            assert(targets[i] != targets[k as int]);
        }
    }
    lemma_tail(s, c);
    let last = s.cowns[c].last_request;
    if last is Some {
        let prev = last->Some_0;
        assert(s.is_request(prev));
        assert(prev.behavior != b);
        assert(u.live(prev.behavior));
        lemma_last_once(s, targets, k as int, k as int, prev);
        assert(u.request(prev) == s.request(prev));
    }
    assert(t.behaviours[b].targets() =~= targets);
    assert(t.size(b) == targets.len());
    assert(t.after_enqueueing(s, b, targets, k + 1)) by {
        assert forall|i: int| 0 <= i < k + 1 implies #[trigger] t.cowns[targets[i] as int] == (Cown {
            last_request: Some(ReqId { behavior: b, index: i as usize }),
            ..s.cowns[targets[i] as int]
        }) by {
            if i < k {
                assert(targets[i] != targets[k as int]);
                assert(u.cowns[targets[i] as int].last_request == Some(ReqId { behavior: b, index: i as usize }));
            }
        }
        assert forall|d: int| 0 <= d < s.cowns.len() && (forall|i: int| 0 <= i < k + 1 ==> targets[i] != d)
            implies #[trigger] t.cowns[d] == s.cowns[d] by {
            assert(targets[k as int] != d);
            assert(u.cowns[d] == s.cowns[d]);
        }
        assert forall|x: u64| s.live(x) implies {
            &&& #[trigger] t.live(x)
            &&& t.behaviours[x] == (BehaviourView { requests: t.behaviours[x].requests, ..s.behaviours[x] })
            &&& t.size(x) == s.size(x)
        } by {
            assert(u.live(x));
        }
        assert forall|i: int| 0 <= i < k + 1 implies ((#[trigger] s.cowns[targets[i] as int]).last_request matches Some(x)
            ==> t.request(x) == (Request {
            callback: Some(ReqId { behavior: b, index: i as usize }),
            ..s.request(x)
        })) by {
            if s.cowns[targets[i] as int].last_request is Some {
                let x = s.cowns[targets[i] as int].last_request->Some_0;
                assert(targets[i] < s.cowns.len());
                lemma_tail(s, targets[i] as int);
                assert(x.behavior != b);
                if i < k {
                    assert(last != Some(x)) by {
                        assert(targets[i] != targets[k as int]);
                    }
                    assert(t.request(x) == u.request(x));
                }
            }
        }
        assert forall|x: ReqId| #[trigger] s.is_request(x) && !s.last_among(targets, k + 1, x) implies t.request(x)
            == s.request(x) by {
            assert(s.live(x.behavior));
            assert(s.cowns[targets[k as int] as int].last_request != Some(x));
            assert(!s.last_among(targets, k as int, x));
            assert(u.request(x) == s.request(x));
        }
        assert forall|x: u64| #[trigger] t.live(x) implies s.live(x) || x == b by {
            assert(u.live(x) || x == b || (last is Some && s.live(last->Some_0.behavior) && x == last->Some_0.behavior));
        }
    }
    assert(t.noted(s, b, targets, if last is None { k as int } else { k + 1 })) by {
        assert forall|i: int| 0 <= i < targets.len() implies (#[trigger] t.behaviours[b].requests[i]).callback is None
            && t.behaviours[b].requests[i].state == (if i >= (if last is None { k as int } else { k + 1 }) {
            ResourceState::Initial
        } else if s.cowns[targets[i] as int].last_request is None {
            ResourceState::Owned
        } else {
            ResourceState::Certificate
        }) by {
            assert(u.behaviours[b].requests[i].callback is None);
        }
    }
}

/// Every step of scheduling from a quiet state is made, until the behaviour is
/// scheduled.
proof fn lemma_midway_step<T, F>(s: Memory<T, F>, u: Memory<T, F>, b: u64, targets: Seq<usize>)
    requires
        s.inv(),
        s.quiet(),
        !s.live(b),
        distinct(targets),
        targets.len() < usize::MAX,
        forall|i: int| 0 <= i < targets.len() ==> #[trigger] targets[i] < s.cowns.len(),
        u.inv(),
        u.midway(s, b, targets),
    ensures
        u.schedule_progress(b) is Advanced ==> u.schedule(b).midway(s, b, targets),
        u.schedule(b).behaviours[b].routine == u.behaviours[b].routine,
        u.schedule(b).next_id == u.next_id,
        !(u.schedule_progress(b) is Advanced) ==> {
            let t = u.schedule(b);
            let n = targets.len() as int;
            &&& u.schedule_progress(b) == (if s.free_among(targets, n) == n {
                Progress::Ready(b)
            } else {
                Progress::Pending
            })
            &&& t.phase(b) == (if s.free_among(targets, n) == n {
                Phase::Ready
            } else {
                Phase::Pending
            })
            &&& t.after_enqueueing(s, b, targets, n)
            &&& t.behaviours[b].count == n - s.free_among(targets, n)
            &&& t.behaviours[b].targets() == targets
            &&& t.noted(s, b, targets, n)
        },
{
    lemma_live(u, b);
    lemma_schedule_step(u, b);
    let t = u.schedule(b);
    let n = targets.len() as int;
    lemma_free_bounds(s, targets, n);
    match u.phase(b) {
        Phase::Enqueue(k) => {
            if k < n {
                lemma_midway_acquire(s, u, b, targets);
            } else {
                assert(t.behaviours =~= u.behaviours.insert(b, t.behaviours[b]));
                assert(t.behaviours[b].targets() =~= targets);
                lemma_own_step_keeps(s, u, t, b, targets, n);
                lemma_noted_kept(s, u, t, b, targets, n, n);
            }
        },
        Phase::Resolve(k) => {
            assert(t.behaviours =~= u.behaviours.insert(b, t.behaviours[b]));
            assert(t.behaviours[b].targets() =~= targets);
            lemma_own_step_keeps(s, u, t, b, targets, k + 1);
            lemma_noted_kept(s, u, t, b, targets, k as int, k + 1);
        },
        Phase::Wait(k, prev) => {
            assert(targets[k as int] < s.cowns.len());
            lemma_tail(s, targets[k as int] as int);
            lemma_quiet_scheduled(s, prev);
            assert(s.cowns[targets[k as int] as int].last_request == Some(prev));
            assert(u.request(prev).scheduled);
            assert(t.behaviours[b].targets() =~= targets);
            assert(t.behaviours =~= u.behaviours.insert(b, t.behaviours[b]));
            lemma_own_step_keeps(s, u, t, b, targets, k + 1);
            lemma_noted_kept(s, u, t, b, targets, k + 1, k + 1);
        },
        Phase::Finish(k) => {
            assert(t.behaviours =~= u.behaviours.insert(b, t.behaviours[b]));
            assert(t.behaviours[b].targets() =~= targets);
            lemma_own_step_keeps(s, u, t, b, targets, n);
            lemma_noted_kept(s, u, t, b, targets, n, n);
        },
        _ => {},
    }
}

/// A step that changes the state of at most the `k`-th request, and as it should.
proof fn lemma_noted_kept<T, F>(
    s: Memory<T, F>,
    u: Memory<T, F>,
    t: Memory<T, F>,
    b: u64,
    targets: Seq<usize>,
    k: int,
    m: int,
)
    requires
        u.noted(s, b, targets, k),
        k <= m <= k + 1,
        u.size(b) == targets.len(),
        t.size(b) == targets.len(),
        forall|i: int| 0 <= i < targets.len() && !(k <= i < m) ==> (#[trigger] t.behaviours[b].requests[i]).state
            == u.behaviours[b].requests[i].state,
        forall|i: int| 0 <= i < targets.len() ==> (#[trigger] t.behaviours[b].requests[i]).callback
            == u.behaviours[b].requests[i].callback,
        k < m && 0 <= k < targets.len() ==> t.behaviours[b].requests[k].state == ResourceState::Owned
            && s.cowns[targets[k] as int].last_request is None,
    ensures
        t.noted(s, b, targets, m),
{
    assert forall|i: int| 0 <= i < targets.len() implies (#[trigger] t.behaviours[b].requests[i]).callback is None
        && t.behaviours[b].requests[i].state == (if i >= m {
        ResourceState::Initial
    } else if s.cowns[targets[i] as int].last_request is None {
        ResourceState::Owned
    } else {
        ResourceState::Certificate
    }) by {
        assert(u.behaviours[b].requests[i].callback is None);
    }
}

/// A step that touches `b` alone changes nothing that `b` has done to others.
proof fn lemma_own_step_keeps<T, F>(
    s: Memory<T, F>,
    u: Memory<T, F>,
    t: Memory<T, F>,
    b: u64,
    targets: Seq<usize>,
    k: int,
)
    requires
        s.inv(),
        !s.live(b),
        k <= targets.len(),
        forall|i: int| 0 <= i < targets.len() ==> #[trigger] targets[i] < s.cowns.len(),
        u.after_enqueueing(s, b, targets, k),
        t.cowns == u.cowns,
        t.behaviours == u.behaviours.insert(b, t.behaviours[b]),
    ensures
        t.after_enqueueing(s, b, targets, k),
{
    assert forall|x: u64| s.live(x) implies {
        &&& #[trigger] t.live(x)
        &&& t.behaviours[x] == (BehaviourView { requests: t.behaviours[x].requests, ..s.behaviours[x] })
        &&& t.size(x) == s.size(x)
    } by {
        assert(u.live(x));
    }
    assert forall|i: int| 0 <= i < k implies ((#[trigger] s.cowns[targets[i] as int]).last_request matches Some(r)
        ==> t.request(r) == (Request {
        callback: Some(ReqId { behavior: b, index: i as usize }),
        ..s.request(r)
    })) by {
        if s.cowns[targets[i] as int].last_request is Some {
            assert(targets[i] < s.cowns.len());
            lemma_tail(s, targets[i] as int);
        }
    }
    assert forall|r: ReqId| #[trigger] s.is_request(r) && !s.last_among(targets, k, r) implies t.request(r)
        == s.request(r) by {
        assert(u.request(r) == s.request(r));
    }
    assert forall|x: u64| #[trigger] t.live(x) implies s.live(x) || x == b by {
        assert(u.live(x) || x == b);
    }
}

proof fn lemma_midway_drive<T, F>(s: Memory<T, F>, u: Memory<T, F>, b: u64, targets: Seq<usize>)
    requires
        s.inv(),
        s.quiet(),
        !s.live(b),
        distinct(targets),
        targets.len() < usize::MAX,
        forall|i: int| 0 <= i < targets.len() ==> #[trigger] targets[i] < s.cowns.len(),
        u.inv(),
        u.midway(s, b, targets),
    ensures
        ({
            let (t, progress) = u.drive(b);
            let n = targets.len() as int;
            &&& progress == (if s.free_among(targets, n) == n {
                Progress::Ready(b)
            } else {
                Progress::Pending
            })
            &&& t.phase(b) == (if s.free_among(targets, n) == n {
                Phase::Ready
            } else {
                Phase::Pending
            })
            &&& t.inv()
            &&& t.live(b)
            &&& t.behaviours[b].routine == u.behaviours[b].routine
            &&& t.next_id == u.next_id
            &&& t.after_enqueueing(s, b, targets, n)
            &&& t.behaviours[b].count == n - s.free_among(targets, n)
            &&& t.behaviours[b].targets() == targets
            &&& t.noted(s, b, targets, n)
        }),
    decreases u.schedule_rank(b),
{
    lemma_schedule_advances(u, b);
    lemma_midway_step(s, u, b, targets);
    if u.schedule_progress(b) is Advanced {
        lemma_midway_drive(s, u.schedule(b), b, targets);
    }
}

/// The enqueueing as a whole: a behaviour without repeated cowns that is
/// scheduled while nobody else is being scheduled is scheduled at once. It
/// becomes the end of the queue of each of its cowns, it is registered at the requests that
/// were there before, and nothing else changes. It is ready if and only if nobody asked for any of its
/// cowns; otherwise it waits for as many resolutions as there are cowns that
/// somebody asked for.
pub proof fn law_schedule_whole<T, F>(s: Memory<T, F>, v: BehaviourView<F>)
    requires
        s.inv(),
        s.quiet(),
        s.next_id < u64::MAX,
        newborn(v),
        distinct(v.targets()),
        forall|i: int| 0 <= i < v.targets().len() ==> #[trigger] v.targets()[i] < s.cowns.len(),
    ensures
        ({
            let b = s.next_id as u64;
            let n = v.targets().len() as int;
            let (t, progress) = s.enlist(v).drive(b);
            let free = forall|i: int| 0 <= i < n ==> (#[trigger] s.cowns[v.targets()[i] as int]).last_request is None;
            &&& progress == (if free {
                Progress::Ready(b)
            } else {
                Progress::Pending
            })
            &&& t.phase(b) == (if free {
                Phase::Ready
            } else {
                Phase::Pending
            })
            &&& t.inv()
            &&& t.quiet()
            &&& t.live(b)
            &&& t.behaviours[b].routine == v.routine
            &&& t.next_id == s.next_id + 1
            &&& t.after_enqueueing(s, b, v.targets(), n)
            &&& t.behaviours[b].count == n - s.free_among(v.targets(), n)
            &&& t.behaviours[b].targets() == v.targets()
            &&& t.noted(s, b, v.targets(), n)
            &&& forall|i: int| 0 <= i < n ==> (#[trigger] t.behaviours[b].requests[i]).scheduled
        }),
{
    let b = s.next_id as u64;
    let targets = v.targets();
    let n = targets.len() as int;
    let u = s.enlist(v);
    assert forall|i: int| 0 <= i < v.requests.len() implies (#[trigger] v.requests[i]).resource.cown < s.cowns.len() by {
        assert(targets[i] < s.cowns.len());
    }
    lemma_enlist_step(s, v);
    assert(u.midway(s, b, targets)) by {
        assert forall|i: int| 0 <= i < n implies (#[trigger] u.behaviours[b].requests[i]).callback is None
            && u.behaviours[b].requests[i].state == ResourceState::Initial by {
            assert(v.requests[i] == Request::fresh(v.requests[i].resource.cown));
        }
        assert(u.after_enqueueing(s, b, targets, 0)) by {
            assert forall|x: u64| s.live(x) implies {
                &&& #[trigger] u.live(x)
                &&& u.behaviours[x] == (BehaviourView { requests: u.behaviours[x].requests, ..s.behaviours[x] })
                &&& u.size(x) == s.size(x)
            } by {}
            assert forall|r: ReqId| #[trigger] s.is_request(r) implies u.request(r) == s.request(r) by {
                assert(s.live(r.behavior));
            }
        }
    }
    lemma_midway_drive(s, u, b, targets);
    lemma_free_bounds(s, targets, n);
    let (t, progress) = u.drive(b);
    lemma_live(t, b);
    assert forall|i: int| 0 <= i < n implies (#[trigger] t.behaviours[b].requests[i]).scheduled by {
        assert(t.model.actors[b].stage.scheduled(i));
    }
    assert forall|x: u64| #[trigger] t.live(x) implies !t.scheduling(x) by {
        if x != b {
            assert(s.live(x));
            assert(t.live(x));
            assert(!s.scheduling(x));
        }
    }
}

} // verus!
