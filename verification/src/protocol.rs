//! The coordination protocol that every queue discipline of this crate follows.
//!
//! A behaviour asks for a list of cowns, one request per cown. Each cown has a
//! first-in first-out queue of requests. A behaviour is scheduled in two
//! phases: it first puts all its requests into their queues, and only then
//! marks them as scheduled, one by one. A request may not be passed by a
//! scheduler that is still in its first phase, so that the whole enqueueing of
//! a behaviour takes effect at one point in time.
//!
//! Nothing in this file runs. It is the mathematical picture in which
//! exclusion, ordering and freedom from deadlock are stated; the executable
//! disciplines are shown to move only along the moves given here.
use vstd::prelude::*;

verus! {

/// Names one request: the `index`-th request of the behaviour `behavior`.
#[derive(Clone, Copy, Debug, PartialEq, Eq, Structural)]
pub struct ReqId {
    pub behavior: u64,
    pub index: usize,
}

/// How far a behaviour has come.
pub enum Stage {
    /// The requests before this one are in their queues.
    Enqueue(int),
    /// This request has found its cown free; the behaviour has yet to count it.
    Resolve(int),
    /// This request stands behind another one, which must be scheduled first.
    Wait(int),
    /// All requests are in their queues; those before this one are scheduled.
    Finish(int),
    /// Scheduled, but some cown is still held by somebody else.
    Pending,
    /// Every cown is held; the body has not been started.
    Ready,
    /// The body is running.
    Running,
    /// The body is over; the cowns before this one have been given back.
    Release(int),
    /// The cown of this request has been given back, and its next holder has
    /// yet to be told.
    Notify(int, ReqId),
}

impl Stage {
    /// Request `i` has been put into its queue.
    pub open spec fn entered(self, i: int) -> bool {
        match self {
            Stage::Enqueue(k) => i < k,
            Stage::Resolve(k) => i <= k,
            Stage::Wait(k) => i <= k,
            _ => true,
        }
    }

    /// All requests are in their queues: the second phase has begun.
    pub open spec fn locked(self) -> bool {
        match self {
            Stage::Enqueue(_) => false,
            Stage::Resolve(_) => false,
            Stage::Wait(_) => false,
            _ => true,
        }
    }

    /// Request `i` carries the scheduled mark.
    pub open spec fn scheduled(self, i: int) -> bool {
        match self {
            Stage::Finish(k) => i < k,
            _ => self.locked(),
        }
    }

    /// The scheduler has made its own, last resolution.
    pub open spec fn settled(self) -> bool {
        match self {
            Stage::Finish(_) => false,
            _ => self.locked(),
        }
    }

    /// All cowns have been acquired.
    pub open spec fn acquired(self) -> bool {
        match self {
            Stage::Pending => false,
            _ => self.settled(),
        }
    }

    /// Request `i` has left its queue.
    pub open spec fn released(self, i: int) -> bool {
        match self {
            Stage::Release(k) => i < k,
            Stage::Notify(k, _) => i <= k,
            _ => false,
        }
    }

    /// The position inside the stage lies within a list of `n` requests.
    pub open spec fn within(self, n: int) -> bool {
        match self {
            Stage::Enqueue(k) => 0 <= k <= n,
            Stage::Resolve(k) => 0 <= k < n,
            Stage::Wait(k) => 0 <= k < n,
            Stage::Finish(k) => 0 <= k <= n,
            Stage::Release(k) => 0 <= k <= n,
            Stage::Notify(k, _) => 0 <= k < n,
            _ => true,
        }
    }
}

/// One behaviour.
pub struct Actor {
    /// The cowns asked for, in the order in which they are enqueued.
    pub targets: Seq<usize>,
    pub stage: Stage,
    /// Resolutions still outstanding: one per request, and one for the scheduler.
    pub count: int,
    /// The requests that have been resolved.
    pub owned: Set<usize>,
    /// The time at which the second phase began.
    pub stamp: nat,
}

/// The whole system: a queue for each cown, and the behaviours alive.
#[verifier::ext_equal]
pub struct Protocol {
    pub queues: Seq<Seq<ReqId>>,
    pub actors: Map<u64, Actor>,
    pub clock: nat,
}

/// `targets` is in ascending order.
pub open spec fn ascending(targets: Seq<usize>) -> bool {
    forall|i: int, j: int| 0 <= i <= j < targets.len() ==> targets[i] <= targets[j]
}

impl Actor {
    /// What is known of one behaviour on its own.
    pub open spec fn wf(self) -> bool {
        let n = self.targets.len() as int;
        &&& n < usize::MAX
        &&& self.stage.within(n)
        &&& ascending(self.targets)
        &&& self.owned.finite()
        &&& forall|i: usize| #[trigger] self.owned.contains(i) ==> i < n && self.stage.entered(i as int)
        &&& self.count == n - self.owned.len() + (if self.stage.settled() { 0int } else { 1int })
        &&& self.stage is Pending ==> self.count > 0
        &&& self.stage.acquired() ==> self.count == 0
        &&& match self.stage {
            Stage::Resolve(k) => !self.owned.contains(k as usize),
            _ => true,
        }
    }
}

impl Protocol {
    pub open spec fn live(self, b: u64) -> bool {
        self.actors.contains_key(b)
    }

    pub open spec fn stage(self, b: u64) -> Stage {
        self.actors[b].stage
    }

    /// `r` is a request of a behaviour that is alive.
    pub open spec fn is_request(self, r: ReqId) -> bool {
        self.live(r.behavior) && r.index < self.actors[r.behavior].targets.len()
    }

    /// The cown that `r` asks for.
    pub open spec fn target(self, r: ReqId) -> int {
        self.actors[r.behavior].targets[r.index as int] as int
    }

    /// `r` stands in the queue of its cown.
    pub open spec fn queued(self, r: ReqId) -> bool {
        &&& self.is_request(r)
        &&& self.stage(r.behavior).entered(r.index as int)
        &&& !self.stage(r.behavior).released(r.index as int)
    }

    pub open spec fn owned(self, r: ReqId) -> bool {
        self.actors[r.behavior].owned.contains(r.index)
    }

    pub open spec fn scheduled(self, r: ReqId) -> bool {
        self.stage(r.behavior).scheduled(r.index as int)
    }

    /// `r` stands first in the queue of cown `c`.
    pub open spec fn heads(self, c: int, r: ReqId) -> bool {
        self.queues[c].len() > 0 && self.queues[c][0] == r
    }

    /// `r` has found its cown free and has yet to be counted.
    pub open spec fn resolving(self, r: ReqId) -> bool {
        self.stage(r.behavior) == Stage::Resolve(r.index as int)
    }

    /// `r` waits behind another request.
    pub open spec fn waiting(self, r: ReqId) -> bool {
        self.stage(r.behavior) == Stage::Wait(r.index as int)
    }

    /// `p` has given a cown back and is about to tell `r`.
    pub open spec fn notifying(self, p: u64, r: ReqId) -> bool {
        self.live(p) && match self.stage(p) {
            Stage::Notify(_, s) => s == r,
            _ => false,
        }
    }

    // --- The invariant, clause by clause. ---

    pub open spec fn actors_wf(self) -> bool {
        forall|b: u64| #[trigger] self.live(b) ==> self.actors[b].wf()
    }

    /// Every cown that is asked for exists.
    pub open spec fn targets_exist(self) -> bool {
        forall|r: ReqId| #[trigger] self.is_request(r) ==> self.target(r) < self.queues.len()
    }

    /// The queue of a cown holds only requests for that cown that have entered
    /// and not left.
    pub open spec fn members_queued(self) -> bool {
        forall|c: int, k: int| 0 <= c < self.queues.len() && 0 <= k < self.queues[c].len() ==>
            self.queued(#[trigger] self.queues[c][k]) && self.target(self.queues[c][k]) == c
    }

    /// Every request that has entered and not left is in the queue of its cown.
    pub open spec fn queued_members(self) -> bool {
        forall|r: ReqId| #[trigger] self.queued(r) ==> self.queues[self.target(r)].contains(r)
    }

    pub open spec fn no_repeats(self) -> bool {
        forall|c: int, j: int, k: int| 0 <= c < self.queues.len() && 0 <= j < k < self.queues[c].len()
            ==> #[trigger] self.queues[c][j] != #[trigger] self.queues[c][k]
    }

    /// A resolved request that has not been released stands first.
    pub open spec fn owners_head(self) -> bool {
        forall|r: ReqId| #[trigger] self.queued(r) && self.owned(r) ==> self.heads(self.target(r), r)
    }

    /// A request that stands first is resolved, or somebody is about to do so.
    pub open spec fn heads_served(self) -> bool {
        forall|c: int| 0 <= c < self.queues.len() && (#[trigger] self.queues[c]).len() > 0 ==> {
            let r = self.queues[c][0];
            self.owned(r) || self.resolving(r) || exists|p: u64| self.notifying(p, r)
        }
    }

    /// A request that found its cown free stands first.
    pub open spec fn resolving_heads(self) -> bool {
        forall|r: ReqId| #[trigger] self.queued(r) && self.resolving(r) ==> self.heads(self.target(r), r)
    }

    /// A request that is about to be told stands first and is not resolved.
    pub open spec fn notified_heads(self) -> bool {
        forall|p: u64, r: ReqId| #[trigger] self.notifying(p, r) ==> {
            &&& self.queued(r)
            &&& self.heads(self.target(r), r)
            &&& !self.owned(r)
            &&& !self.resolving(r)
        }
    }

    /// No request is about to be told twice.
    pub open spec fn notified_once(self) -> bool {
        forall|p: u64, q: u64, r: ReqId| #[trigger] self.notifying(p, r) && #[trigger] self.notifying(q, r)
            ==> p == q
    }

    /// A request is passed only once it is scheduled.
    pub open spec fn passed_scheduled(self) -> bool {
        forall|c: int, j: int, k: int| 0 <= c < self.queues.len() && 0 <= j && j + 1 == k && k < self.queues[c].len()
            ==> self.waiting(#[trigger] self.queues[c][k]) || self.scheduled(#[trigger] self.queues[c][j])
    }

    /// In each queue the second phases began in the order of the queue.
    pub open spec fn stamps_ordered(self) -> bool {
        forall|c: int, j: int, k: int| 0 <= c < self.queues.len() && 0 <= j && j + 1 == k && k < self.queues[c].len()
            && self.stage((#[trigger] self.queues[c][k]).behavior).locked() ==> self.actors[(#[trigger] self.queues[c][j]).behavior].stamp
            < self.actors[self.queues[c][k].behavior].stamp
    }

    pub open spec fn stamps_past(self) -> bool {
        forall|b: u64| #[trigger] self.live(b) && self.stage(b).locked() ==> self.actors[b].stamp < self.clock
    }

    /// The invariant of the protocol.
    pub open spec fn inv(self) -> bool {
        &&& self.actors.dom().finite()
        &&& self.actors_wf()
        &&& self.targets_exist()
        &&& self.members_queued()
        &&& self.queued_members()
        &&& self.no_repeats()
        &&& self.owners_head()
        &&& self.heads_served()
        &&& self.resolving_heads()
        &&& self.notified_heads()
        &&& self.notified_once()
        &&& self.passed_scheduled()
        &&& self.stamps_ordered()
        &&& self.stamps_past()
    }
}

} // verus!
