//! The moves of the protocol.
use crate::protocol::{ascending, Actor, Protocol, ReqId, Stage};
use vstd::prelude::*;

verus! {

/// One move of the protocol. All but the first two are moves of the behaviour
/// that they name.
pub enum Move {
    /// A new cown, with an empty queue.
    AddCown,
    /// A new behaviour that asks for the given cowns.
    Admit(u64, Seq<usize>),
    /// Put the next request into its queue.
    Enqueue(u64),
    /// Count the request that found its cown free.
    Resolve(u64),
    /// Go on once the request in front is scheduled.
    Pass(u64),
    /// Begin the second phase.
    Turn(u64),
    /// Mark the next request as scheduled.
    Finish(u64),
    /// The last resolution of the scheduler.
    Settle(u64),
    /// Start the body.
    Begin(u64),
    /// End the body.
    Complete(u64),
    /// Take the next request out of its queue.
    Release(u64),
    /// Resolve the request that now stands first.
    Notify(u64),
    /// Forget a behaviour that has given back all its cowns.
    Retire(u64),
}

impl Actor {
    /// A behaviour before its first move.
    pub open spec fn fresh(targets: Seq<usize>) -> Actor {
        Actor {
            targets,
            stage: Stage::Enqueue(0),
            count: targets.len() as int + 1,
            owned: Set::empty(),
            stamp: 0,
        }
    }

    pub open spec fn at(self, stage: Stage) -> Actor {
        Actor { stage, ..self }
    }

    /// The behaviour after the resolution of request `i`. The last resolution
    /// makes it ready.
    pub open spec fn resolved(self, i: usize) -> Actor {
        Actor {
            count: self.count - 1,
            owned: self.owned.insert(i),
            stage: if self.count == 1 { Stage::Ready } else { self.stage },
            ..self
        }
    }
}

impl Protocol {
    /// Nothing at all.
    pub open spec fn empty() -> Protocol {
        Protocol { queues: Seq::empty(), actors: Map::empty(), clock: 0 }
    }

    pub open spec fn put(self, b: u64, actor: Actor) -> Protocol {
        Protocol { actors: self.actors.insert(b, actor), ..self }
    }

    pub open spec fn at(self, b: u64, stage: Stage) -> Protocol {
        self.put(b, self.actors[b].at(stage))
    }

    pub open spec fn with_queue(self, c: int, q: Seq<ReqId>) -> Protocol {
        Protocol { queues: self.queues.update(c, q), ..self }
    }

    /// The request in front of `r`, if there is one, is scheduled.
    pub open spec fn may_pass(self, r: ReqId) -> bool {
        let q = self.queues[self.target(r)];
        forall|k: int| 0 < k < q.len() && #[trigger] q[k] == r ==> self.scheduled(q[k - 1])
    }

    /// `m` can be made.
    pub open spec fn enabled(self, m: Move) -> bool {
        match m {
            Move::AddCown => true,
            Move::Admit(b, targets) => {
                &&& !self.live(b)
                &&& targets.len() < usize::MAX
                &&& ascending(targets)
                &&& forall|i: int| 0 <= i < targets.len() ==> #[trigger] targets[i] < self.queues.len()
            },
            Move::Enqueue(b) => self.live(b) && match self.stage(b) {
                Stage::Enqueue(i) => i < self.actors[b].targets.len(),
                _ => false,
            },
            Move::Resolve(b) => self.live(b) && self.stage(b) is Resolve,
            Move::Pass(b) => self.live(b) && match self.stage(b) {
                Stage::Wait(i) => self.may_pass(ReqId { behavior: b, index: i as usize }),
                _ => false,
            },
            Move::Turn(b) => self.live(b) && self.stage(b) == Stage::Enqueue(self.actors[b].targets.len() as int),
            Move::Finish(b) => self.live(b) && match self.stage(b) {
                Stage::Finish(i) => i < self.actors[b].targets.len(),
                _ => false,
            },
            Move::Settle(b) => self.live(b) && self.stage(b) == Stage::Finish(self.actors[b].targets.len() as int),
            Move::Begin(b) => self.live(b) && self.stage(b) is Ready,
            Move::Complete(b) => self.live(b) && self.stage(b) is Running,
            Move::Release(b) => self.live(b) && match self.stage(b) {
                Stage::Release(i) => i < self.actors[b].targets.len(),
                _ => false,
            },
            Move::Notify(b) => self.live(b) && self.stage(b) is Notify,
            Move::Retire(b) => self.live(b) && self.stage(b) == Stage::Release(self.actors[b].targets.len() as int),
        }
    }

    pub open spec fn enqueue(self, b: u64, i: int) -> Protocol {
        let r = ReqId { behavior: b, index: i as usize };
        let c = self.target(r);
        let q = self.queues[c];
        self.with_queue(c, q.push(r)).at(b, if q.len() == 0 { Stage::Resolve(i) } else { Stage::Wait(i) })
    }

    pub open spec fn turn(self, b: u64) -> Protocol {
        Protocol {
            clock: self.clock + 1,
            ..self.put(b, Actor { stage: Stage::Finish(0), stamp: self.clock, ..self.actors[b] })
        }
    }

    pub open spec fn settle(self, b: u64) -> Protocol {
        let a = self.actors[b];
        self.put(b, Actor { count: a.count - 1, stage: if a.count == 1 { Stage::Ready } else { Stage::Pending }, ..a })
    }

    pub open spec fn release(self, b: u64, i: int) -> Protocol {
        let c = self.target(ReqId { behavior: b, index: i as usize });
        let q = self.queues[c];
        self.with_queue(c, q.drop_first()).at(b, if q.len() == 1 { Stage::Release(i + 1) } else { Stage::Notify(i, q[1]) })
    }

    pub open spec fn notify(self, b: u64, i: int, r: ReqId) -> Protocol {
        self.put(r.behavior, self.actors[r.behavior].resolved(r.index)).at(b, Stage::Release(i + 1))
    }

    /// What `m` makes of the system.
    pub open spec fn apply(self, m: Move) -> Protocol {
        match m {
            Move::AddCown => Protocol { queues: self.queues.push(Seq::empty()), ..self },
            Move::Admit(b, targets) => self.put(b, Actor::fresh(targets)),
            Move::Enqueue(b) => self.enqueue(b, self.stage(b)->Enqueue_0),
            Move::Resolve(b) => {
                let i = self.stage(b)->Resolve_0;
                self.put(b, self.actors[b].resolved(i as usize).at(Stage::Enqueue(i + 1)))
            },
            Move::Pass(b) => self.at(b, Stage::Enqueue(self.stage(b)->Wait_0 + 1)),
            Move::Turn(b) => self.turn(b),
            Move::Finish(b) => self.at(b, Stage::Finish(self.stage(b)->Finish_0 + 1)),
            Move::Settle(b) => self.settle(b),
            Move::Begin(b) => self.at(b, Stage::Running),
            Move::Complete(b) => self.at(b, Stage::Release(0)),
            Move::Release(b) => self.release(b, self.stage(b)->Release_0),
            Move::Notify(b) => self.notify(b, self.stage(b)->Notify_0, self.stage(b)->Notify_1),
            Move::Retire(b) => Protocol { actors: self.actors.remove(b), ..self },
        }
    }

    /// `after` is reached from `self` by one move.
    pub open spec fn next(self, after: Protocol) -> bool {
        exists|m: Move| #[trigger] self.enabled(m) && after == self.apply(m)
    }
}

// --- Cardinality. ---

/// A set of numbers below `n` has at most `n` elements.
pub proof fn lemma_below_len(s: Set<usize>, n: nat)
    requires
        s.finite(),
        forall|i: usize| #[trigger] s.contains(i) ==> i < n,
    ensures
        s.len() <= n,
    decreases n,
{
    if n == 0 {
        if s.len() > 0 {
            assert(s.contains(s.choose()));
        }
    } else if n - 1 <= usize::MAX {
        let last = (n - 1) as usize;
        let rest = s.remove(last);
        assert forall|i: usize| #[trigger] rest.contains(i) implies i < n - 1 by {
            assert(s.contains(i));
        }
        lemma_below_len(rest, (n - 1) as nat);
    } else {
        lemma_below_len(s, (n - 1) as nat);
    }
}

/// A behaviour that has yet to resolve some request has fewer resolved requests
/// than requests; one with as many has resolved them all.
pub proof fn lemma_owned_len(a: Actor, i: usize)
    requires
        a.wf(),
        i < a.targets.len(),
    ensures
        a.owned.len() <= a.targets.len(),
        !a.owned.contains(i) ==> a.owned.len() < a.targets.len(),
        a.count == 0 ==> a.owned.contains(i),
{
    lemma_below_len(a.owned, a.targets.len());
    if !a.owned.contains(i) {
        lemma_below_len(a.owned.insert(i), a.targets.len());
    }
}

// --- Places. ---

/// The place of a request in its queue.
pub proof fn lemma_place(s: Protocol, r: ReqId) -> (k: int)
    requires
        s.inv(),
        s.queued(r),
    ensures
        0 <= s.target(r) < s.queues.len(),
        0 <= k < s.queues[s.target(r)].len(),
        s.queues[s.target(r)][k] == r,
        forall|j: int| 0 <= j < s.queues[s.target(r)].len() && #[trigger] s.queues[s.target(r)][j] == r ==> j == k,
{
    assert(s.is_request(r));
    let q = s.queues[s.target(r)];
    assert(q.contains(r));
    choose|k: int| 0 <= k < q.len() && q[k] == r
}

/// A request stands in one place only.
pub proof fn lemma_same_place(s: Protocol, c: int, k: int, d: int, j: int)
    requires
        s.inv(),
        0 <= c < s.queues.len(),
        0 <= k < s.queues[c].len(),
        0 <= d < s.queues.len(),
        0 <= j < s.queues[d].len(),
        s.queues[c][k] == s.queues[d][j],
    ensures
        c == d,
        k == j,
{
    assert(s.target(s.queues[c][k]) == c);
    assert(s.target(s.queues[d][j]) == d);
    if k < j {
        assert(s.queues[c][k] != s.queues[c][j]);
    } else if j < k {
        assert(s.queues[c][j] != s.queues[c][k]);
    }
}

// --- Every move keeps the invariant. ---

proof fn lemma_add_cown_inv(s: Protocol)
    requires
        s.inv(),
    ensures
        s.apply(Move::AddCown).inv(),
{
    let t = s.apply(Move::AddCown);
    assert forall|c: int| 0 <= c < t.queues.len() implies (#[trigger] t.queues[c]).len() == 0 || c < s.queues.len()
        && t.queues[c] == s.queues[c] by {}
    assert forall|r: ReqId| #[trigger] t.is_request(r) implies s.is_request(r) && t.target(r) == s.target(r) by {}
    assert forall|r: ReqId| #[trigger] t.queued(r) implies s.queued(r) && s.is_request(r) by {}
    assert forall|r: ReqId| #[trigger] s.queued(r) implies t.queued(r) by {}
    assert forall|p: u64, r: ReqId| #[trigger] t.notifying(p, r) implies s.notifying(p, r) && t.queued(r) by {
        assert(s.notifying(p, r));
        assert(s.queued(r));
    }
    assert forall|p: u64, r: ReqId| #[trigger] s.notifying(p, r) implies t.notifying(p, r) by {}
    assert(t.actors_wf()) by {
        assert forall|b: u64| #[trigger] t.live(b) implies t.actors[b].wf() by {
            assert(s.live(b));
        }
    }
    assert forall|c: int| 0 <= c < t.queues.len() && (#[trigger] t.queues[c]).len() > 0 implies {
        let r = t.queues[c][0];
        t.owned(r) || t.resolving(r) || exists|p: u64| t.notifying(p, r)
    } by {
        let r = s.queues[c][0];
        if !s.owned(r) && !s.resolving(r) {
            let p = choose|p: u64| s.notifying(p, r);
            assert(t.notifying(p, r));
        }
    }
    assert(t.passed_scheduled()) by {
        assert forall|c: int, j: int, k: int| 0 <= c < t.queues.len() && 0 <= j && j + 1 == k && k < t.queues[c].len()
            implies t.waiting(#[trigger] t.queues[c][k]) || t.scheduled(#[trigger] t.queues[c][j]) by {
            assert(s.waiting(s.queues[c][k]) || s.scheduled(s.queues[c][j]));
        }
    }
    assert(t.stamps_past()) by {
        assert forall|b2: u64| #[trigger] t.live(b2) && t.stage(b2).locked() implies t.actors[b2].stamp < t.clock by {
            assert(s.live(b2));
        }
    }
}

/// A move that leaves the queues alone and changes one behaviour only.
proof fn lemma_put_inv(s: Protocol, b: u64, after: Actor, clock: nat)
    requires
        s.inv(),
        s.live(b),
        after.wf(),
        after.targets == s.actors[b].targets,
        forall|i: int| 0 <= i < after.targets.len() ==> {
            &&& #[trigger] after.stage.entered(i) == s.stage(b).entered(i)
            &&& after.stage.released(i) == s.stage(b).released(i)
            &&& s.stage(b).scheduled(i) ==> after.stage.scheduled(i)
        },
        s.actors[b].owned.subset_of(after.owned),
        forall|i: usize| #[trigger] after.owned.contains(i) ==> s.actors[b].owned.contains(i)
            || s.stage(b) == Stage::Resolve(i as int),
        s.stage(b) is Resolve ==> after.owned.contains(s.stage(b)->Resolve_0 as usize),
        !(after.stage is Resolve),
        !(after.stage is Notify),
        !(s.stage(b) is Notify),
        s.stage(b) is Wait ==> s.may_pass(ReqId { behavior: b, index: s.stage(b)->Wait_0 as usize }),
        clock >= s.clock,
        after.stage.locked() ==> after.stamp < clock,
        s.stage(b).locked() ==> after.stage.locked() && after.stamp == s.actors[b].stamp,
        !s.stage(b).locked() && after.stage.locked() ==> after.stamp >= s.clock,
    ensures
        (Protocol { clock, ..s.put(b, after) }).inv(),
{
    let t = Protocol { clock, ..s.put(b, after) };
    assert(t.actors.dom() =~= s.actors.dom());
    assert forall|r: ReqId| #[trigger] t.is_request(r) implies s.is_request(r) && t.target(r) == s.target(r) by {}
    assert forall|r: ReqId| #[trigger] t.queued(r) implies s.queued(r) && t.target(r) == s.target(r) by {
        if r.behavior == b {
            assert(after.stage.entered(r.index as int));
        }
    }
    assert forall|r: ReqId| #[trigger] s.queued(r) implies t.queued(r) && t.target(r) == s.target(r) by {
        if r.behavior == b {
            assert(after.stage.entered(r.index as int) == s.stage(b).entered(r.index as int));
        }
    }
    assert forall|p: u64, r: ReqId| #[trigger] t.notifying(p, r) implies s.notifying(p, r) by {}
    assert forall|p: u64, r: ReqId| #[trigger] s.notifying(p, r) implies t.notifying(p, r) by {}
    assert forall|b2: u64| #[trigger] t.live(b2) implies t.actors[b2].wf() by {
        assert(s.live(b2));
    }
    assert(t.targets_exist());
    assert(t.members_queued());
    assert(t.queued_members());
    assert(t.no_repeats());
    assert(t.owners_head());
    assert(t.heads_served()) by {
        assert forall|c: int| 0 <= c < t.queues.len() && (#[trigger] t.queues[c]).len() > 0 implies {
            let r = t.queues[c][0];
            t.owned(r) || t.resolving(r) || exists|p: u64| t.notifying(p, r)
        } by {
            let r = s.queues[c][0];
            assert(s.queued(r));
            if !s.owned(r) && !s.resolving(r) {
                let p = choose|p: u64| s.notifying(p, r);
                assert(t.notifying(p, r));
            }
        }
    }
    assert(t.resolving_heads());
    assert(t.notified_heads()) by {
        assert forall|p: u64, r: ReqId| #[trigger] t.notifying(p, r) implies {
            &&& t.queued(r)
            &&& t.heads(t.target(r), r)
            &&& !t.owned(r)
            &&& !t.resolving(r)
        } by {
            assert(s.notifying(p, r));
        }
    }
    assert(t.notified_once());
    assert(t.passed_scheduled()) by {
        assert forall|c: int, j: int, k: int| 0 <= c < t.queues.len() && 0 <= j && j + 1 == k && k < t.queues[c].len()
            implies t.waiting(#[trigger] t.queues[c][k]) || t.scheduled(#[trigger] t.queues[c][j]) by {
            let r = s.queues[c][k];
            let q = s.queues[c][j];
            assert(s.queued(r) && s.queued(q));
            assert(s.waiting(r) || s.scheduled(q));
            assert(s.scheduled(q) ==> t.scheduled(q));
            if s.waiting(r) && r.behavior == b {
                assert(s.may_pass(r));
                assert(s.queues[s.target(r)][k] == r);
                assert(s.scheduled(q));
            }
        }
    }
    assert(t.stamps_ordered()) by {
        assert forall|c: int, j: int, k: int| 0 <= c < t.queues.len() && 0 <= j && j + 1 == k && k < t.queues[c].len()
            && t.stage((#[trigger] t.queues[c][k]).behavior).locked() implies t.actors[(#[trigger] t.queues[c][j]).behavior].stamp
            < t.actors[t.queues[c][k].behavior].stamp by {
            let r = s.queues[c][k];
            let q = s.queues[c][j];
            assert(s.queued(r) && s.queued(q));
            assert(s.live(r.behavior) && s.live(q.behavior));
            assert(t.scheduled(q));
            assert(s.waiting(r) || s.scheduled(q));
            if r.behavior == b {
                if s.stage(b).locked() {
                    assert(s.scheduled(q));
                } else {
                    if s.waiting(r) {
                        assert(s.may_pass(r));
                        assert(s.queues[s.target(r)][k] == r);
                    }
                    assert(s.scheduled(q));
                    assert(s.stage(q.behavior).locked());
                }
            } else {
                assert(s.scheduled(q));
            }
        }
    }
    assert(t.stamps_past()) by {
        assert forall|b2: u64| #[trigger] t.live(b2) && t.stage(b2).locked() implies t.actors[b2].stamp < t.clock by {
            assert(s.live(b2));
        }
    }
}

proof fn lemma_admit_inv(s: Protocol, b: u64, targets: Seq<usize>)
    requires
        s.inv(),
        s.enabled(Move::Admit(b, targets)),
    ensures
        s.apply(Move::Admit(b, targets)).inv(),
{
    let t = s.apply(Move::Admit(b, targets));
    assert(t.actors.dom() =~= s.actors.dom().insert(b));
    assert forall|r: ReqId| #[trigger] t.queued(r) implies s.queued(r) && t.target(r) == s.target(r) && r.behavior != b by {}
    assert forall|r: ReqId| #[trigger] s.queued(r) implies t.queued(r) && t.target(r) == s.target(r) && r.behavior != b by {}
    assert forall|p: u64, r: ReqId| #[trigger] t.notifying(p, r) implies s.notifying(p, r) by {}
    assert forall|p: u64, r: ReqId| #[trigger] s.notifying(p, r) implies t.notifying(p, r) by {}
    assert forall|b2: u64| #[trigger] t.live(b2) implies t.actors[b2].wf() by {
        if b2 != b {
            assert(s.live(b2));
        }
    }
    assert forall|r: ReqId| #[trigger] t.is_request(r) implies t.target(r) < t.queues.len() by {
        if r.behavior != b {
            assert(s.is_request(r));
        }
    }
    assert forall|c: int| 0 <= c < t.queues.len() && (#[trigger] t.queues[c]).len() > 0 implies {
        let r = t.queues[c][0];
        t.owned(r) || t.resolving(r) || exists|p: u64| t.notifying(p, r)
    } by {
        let r = s.queues[c][0];
        assert(s.queued(r));
        if !s.owned(r) && !s.resolving(r) {
            let p = choose|p: u64| s.notifying(p, r);
            assert(t.notifying(p, r));
        }
    }
    assert(t.passed_scheduled()) by {
        assert forall|c: int, j: int, k: int| 0 <= c < t.queues.len() && 0 <= j && j + 1 == k && k < t.queues[c].len()
            implies t.waiting(#[trigger] t.queues[c][k]) || t.scheduled(#[trigger] t.queues[c][j]) by {
            assert(s.queued(s.queues[c][k]) && s.queued(s.queues[c][j]));
        }
    }
    assert(t.stamps_ordered()) by {
        assert forall|c: int, j: int, k: int| 0 <= c < t.queues.len() && 0 <= j && j + 1 == k && k < t.queues[c].len()
            && t.stage((#[trigger] t.queues[c][k]).behavior).locked() implies t.actors[(#[trigger] t.queues[c][j]).behavior].stamp
            < t.actors[t.queues[c][k].behavior].stamp by {
            assert(s.queued(s.queues[c][k]) && s.queued(s.queues[c][j]));
        }
    }
    assert(t.stamps_past()) by {
        assert forall|b2: u64| #[trigger] t.live(b2) && t.stage(b2).locked() implies t.actors[b2].stamp < t.clock by {
            assert(s.live(b2));
        }
    }
}

proof fn lemma_enqueue_inv(s: Protocol, b: u64)
    requires
        s.inv(),
        s.enabled(Move::Enqueue(b)),
    ensures
        s.apply(Move::Enqueue(b)).inv(),
{
    let t = s.apply(Move::Enqueue(b));
    let i = s.stage(b)->Enqueue_0;
    let n = ReqId { behavior: b, index: i as usize };
    assert(s.live(b));
    assert(s.is_request(n));
    let c0 = s.target(n);
    let q0 = s.queues[c0];
    assert(t.actors.dom() =~= s.actors.dom());
    assert(t.queues[c0] == q0.push(n));
    assert forall|c: int| 0 <= c < s.queues.len() && c != c0 implies #[trigger] t.queues[c] == s.queues[c] by {}
    assert forall|r: ReqId| #[trigger] t.is_request(r) implies s.is_request(r) && t.target(r) == s.target(r) by {}
    assert forall|r: ReqId| #[trigger] t.queued(r) implies r == n || s.queued(r) && s.is_request(r) by {}
    assert forall|r: ReqId| #[trigger] s.queued(r) implies t.queued(r) && r != n && t.is_request(r) by {}
    assert(t.queued(n));
    assert(!s.owned(n)) by {
        if s.actors[b].owned.contains(n.index) {
            assert(s.stage(b).entered(n.index as int));
        }
    }
    assert forall|p: u64, r: ReqId| #[trigger] t.notifying(p, r) implies s.notifying(p, r) && s.queued(r) by {
        assert(s.notifying(p, r));
    }
    assert forall|p: u64, r: ReqId| #[trigger] s.notifying(p, r) implies t.notifying(p, r) by {}
    assert(t.actors_wf()) by {
        assert forall|b2: u64| #[trigger] t.live(b2) implies t.actors[b2].wf() by {
            assert(s.live(b2));
            if b2 == b {
                let a = s.actors[b];
                assert(a.wf());
                assert forall|x: usize| #[trigger] a.owned.contains(x) implies t.stage(b).entered(x as int) by {
                    assert(a.stage.entered(x as int));
                }
            }
        }
    }
    assert(t.members_queued()) by {
        assert forall|c: int, k: int| 0 <= c < t.queues.len() && 0 <= k < t.queues[c].len() implies
            t.queued(#[trigger] t.queues[c][k]) && t.target(t.queues[c][k]) == c by {
            if c == c0 && k == q0.len() {
            } else {
                assert(t.queues[c][k] == s.queues[c][k]);
                assert(s.queued(s.queues[c][k]));
            }
        }
    }
    assert(t.queued_members()) by {
        assert forall|r: ReqId| #[trigger] t.queued(r) implies t.queues[t.target(r)].contains(r) by {
            if r == n {
                assert(t.queues[c0][q0.len() as int] == n);
            } else {
                let c = s.target(r);
                assert(s.queues[c].contains(r));
                let k = choose|k: int| 0 <= k < s.queues[c].len() && s.queues[c][k] == r;
                assert(t.queues[c][k] == r);
            }
        }
    }
    assert(t.no_repeats()) by {
        assert forall|c: int, j: int, k: int| 0 <= c < t.queues.len() && 0 <= j < k < t.queues[c].len()
            implies #[trigger] t.queues[c][j] != #[trigger] t.queues[c][k] by {
            assert(t.queues[c][j] == s.queues[c][j]);
            assert(s.queued(s.queues[c][j]));
            if c == c0 && k == q0.len() {
            } else {
                assert(t.queues[c][k] == s.queues[c][k]);
            }
        }
    }
    assert(t.owners_head()) by {
        assert forall|r: ReqId| #[trigger] t.queued(r) && t.owned(r) implies t.heads(t.target(r), r) by {
            assert(r != n);
            assert(s.queued(r) && s.owned(r));
        }
    }
    assert(t.heads_served()) by {
        assert forall|c: int| 0 <= c < t.queues.len() && (#[trigger] t.queues[c]).len() > 0 implies {
            let r = t.queues[c][0];
            t.owned(r) || t.resolving(r) || exists|p: u64| t.notifying(p, r)
        } by {
            if s.queues[c].len() > 0 {
                let r = s.queues[c][0];
                assert(t.queues[c][0] == r);
                assert(s.queued(r));
                if !s.owned(r) && !s.resolving(r) {
                    let p = choose|p: u64| s.notifying(p, r);
                    assert(t.notifying(p, r));
                }
            } else {
                assert(c == c0);
                assert(t.resolving(n));
            }
        }
    }
    assert(t.resolving_heads()) by {
        assert forall|r: ReqId| #[trigger] t.queued(r) && t.resolving(r) implies t.heads(t.target(r), r) by {
            if r != n {
                assert(s.queued(r) && s.resolving(r));
            }
        }
    }
    assert(t.notified_heads()) by {
        assert forall|p: u64, r: ReqId| #[trigger] t.notifying(p, r) implies {
            &&& t.queued(r)
            &&& t.heads(t.target(r), r)
            &&& !t.owned(r)
            &&& !t.resolving(r)
        } by {
            assert(s.notifying(p, r));
        }
    }
    assert(t.notified_once());
    assert(t.passed_scheduled()) by {
        assert forall|c: int, j: int, k: int| 0 <= c < t.queues.len() && 0 <= j && j + 1 == k && k < t.queues[c].len()
            implies t.waiting(#[trigger] t.queues[c][k]) || t.scheduled(#[trigger] t.queues[c][j]) by {
            assert(t.queues[c][j] == s.queues[c][j]);
            assert(s.queued(s.queues[c][j]));
            if c == c0 && k == q0.len() {
            } else {
                assert(t.queues[c][k] == s.queues[c][k]);
                assert(s.queued(s.queues[c][k]));
                assert(s.waiting(s.queues[c][k]) || s.scheduled(s.queues[c][j]));
            }
        }
    }
    assert(t.stamps_ordered()) by {
        assert forall|c: int, j: int, k: int| 0 <= c < t.queues.len() && 0 <= j && j + 1 == k && k < t.queues[c].len()
            && t.stage((#[trigger] t.queues[c][k]).behavior).locked() implies t.actors[(#[trigger] t.queues[c][j]).behavior].stamp
            < t.actors[t.queues[c][k].behavior].stamp by {
            assert(t.queues[c][j] == s.queues[c][j]);
            assert(s.queued(s.queues[c][j]));
            if c == c0 && k == q0.len() {
            } else {
                assert(t.queues[c][k] == s.queues[c][k]);
                assert(s.queued(s.queues[c][k]));
            }
        }
    }
    assert(t.stamps_past()) by {
        assert forall|b2: u64| #[trigger] t.live(b2) && t.stage(b2).locked() implies t.actors[b2].stamp < t.clock by {
            assert(s.live(b2));
        }
    }
}

proof fn lemma_release_inv(s: Protocol, b: u64)
    requires
        s.inv(),
        s.enabled(Move::Release(b)),
    ensures
        s.apply(Move::Release(b)).inv(),
{
    let t = s.apply(Move::Release(b));
    let i = s.stage(b)->Release_0;
    let n = ReqId { behavior: b, index: i as usize };
    assert(s.live(b));
    assert(s.is_request(n));
    assert(s.queued(n));
    let c0 = s.target(n);
    let q0 = s.queues[c0];
    assert(s.owned(n)) by {
        lemma_owned_len(s.actors[b], n.index);
    }
    assert(q0.len() > 0 && q0[0] == n);
    assert(t.actors.dom() =~= s.actors.dom());
    assert(t.queues[c0] == q0.drop_first());
    assert forall|c: int| 0 <= c < s.queues.len() && c != c0 implies #[trigger] t.queues[c] == s.queues[c] by {}
    assert forall|r: ReqId| #[trigger] t.is_request(r) implies s.is_request(r) && t.target(r) == s.target(r) by {}
    assert forall|r: ReqId| #[trigger] t.queued(r) implies r != n && s.queued(r) && s.is_request(r) by {}
    assert forall|r: ReqId| #[trigger] s.queued(r) && r != n implies t.queued(r) && t.is_request(r) by {}
    assert forall|p: u64, r: ReqId| #[trigger] s.notifying(p, r) implies t.notifying(p, r) && s.target(r) != c0 && p != b by {
        assert(s.queued(r));
    }
    assert forall|c: int, k: int| 0 <= c < t.queues.len() && 0 <= k < t.queues[c].len() implies
        #[trigger] t.queues[c][k] == s.queues[c][if c == c0 { k + 1 } else { k }] by {}
    assert(t.actors_wf()) by {
        assert forall|b2: u64| #[trigger] t.live(b2) implies t.actors[b2].wf() by {
            assert(s.live(b2));
            if b2 == b {
                assert(s.actors[b].wf());
            }
        }
    }
    assert(t.members_queued()) by {
        assert forall|c: int, k: int| 0 <= c < t.queues.len() && 0 <= k < t.queues[c].len() implies
            t.queued(#[trigger] t.queues[c][k]) && t.target(t.queues[c][k]) == c by {
            let k0 = if c == c0 { k + 1 } else { k };
            assert(s.queued(s.queues[c][k0]));
            assert(s.queues[c][k0] != n);
        }
    }
    assert(t.queued_members()) by {
        assert forall|r: ReqId| #[trigger] t.queued(r) implies t.queues[t.target(r)].contains(r) by {
            let c = s.target(r);
            assert(s.queues[c].contains(r));
            let k = choose|k: int| 0 <= k < s.queues[c].len() && s.queues[c][k] == r;
            let k1 = if c == c0 { k - 1 } else { k };
            assert(t.queues[c][k1] == r);
        }
    }
    assert(t.no_repeats()) by {
        assert forall|c: int, j: int, k: int| 0 <= c < t.queues.len() && 0 <= j < k < t.queues[c].len()
            implies #[trigger] t.queues[c][j] != #[trigger] t.queues[c][k] by {
            let j0 = if c == c0 { j + 1 } else { j };
            let k0 = if c == c0 { k + 1 } else { k };
            assert(s.queues[c][j0] != s.queues[c][k0]);
        }
    }
    assert forall|r: ReqId| #[trigger] s.queued(r) && r != n && (s.owned(r) || s.resolving(r)) implies s.target(r) != c0 by {
        assert(s.heads(s.target(r), r));
    }
    assert(t.owners_head()) by {
        assert forall|r: ReqId| #[trigger] t.queued(r) && t.owned(r) implies t.heads(t.target(r), r) by {
            assert(s.queued(r) && s.owned(r));
        }
    }
    assert(t.heads_served()) by {
        assert forall|c: int| 0 <= c < t.queues.len() && (#[trigger] t.queues[c]).len() > 0 implies {
            let r = t.queues[c][0];
            t.owned(r) || t.resolving(r) || exists|p: u64| t.notifying(p, r)
        } by {
            if c == c0 {
                assert(t.queues[c][0] == q0[1]);
                assert(t.notifying(b, q0[1]));
            } else {
                let r = s.queues[c][0];
                assert(t.queues[c][0] == r);
                assert(s.queued(r));
                if !s.owned(r) && !s.resolving(r) {
                    let p = choose|p: u64| s.notifying(p, r);
                    assert(t.notifying(p, r));
                }
            }
        }
    }
    assert(t.resolving_heads()) by {
        assert forall|r: ReqId| #[trigger] t.queued(r) && t.resolving(r) implies t.heads(t.target(r), r) by {
            assert(s.queued(r) && s.resolving(r));
        }
    }
    assert(t.notified_heads()) by {
        assert forall|p: u64, r: ReqId| #[trigger] t.notifying(p, r) implies {
            &&& t.queued(r)
            &&& t.heads(t.target(r), r)
            &&& !t.owned(r)
            &&& !t.resolving(r)
        } by {
            if p == b {
                assert(r == q0[1]);
                assert(s.queued(q0[1]));
                assert(q0[0] != q0[1]);
            } else {
                assert(s.notifying(p, r));
            }
        }
    }
    assert(t.notified_once()) by {
        assert forall|p: u64, q: u64, r: ReqId| #[trigger] t.notifying(p, r) && #[trigger] t.notifying(q, r)
            implies p == q by {
            if p != b {
                assert(s.notifying(p, r));
            }
            if q != b {
                assert(s.notifying(q, r));
            }
        }
    }
    assert(t.passed_scheduled()) by {
        assert forall|c: int, j: int, k: int| 0 <= c < t.queues.len() && 0 <= j && j + 1 == k && k < t.queues[c].len()
            implies t.waiting(#[trigger] t.queues[c][k]) || t.scheduled(#[trigger] t.queues[c][j]) by {
            let j0 = if c == c0 { j + 1 } else { j };
            let k0 = if c == c0 { k + 1 } else { k };
            assert(s.queued(s.queues[c][j0]) && s.queued(s.queues[c][k0]));
            assert(s.waiting(s.queues[c][k0]) || s.scheduled(s.queues[c][j0]));
        }
    }
    assert(t.stamps_ordered()) by {
        assert forall|c: int, j: int, k: int| 0 <= c < t.queues.len() && 0 <= j && j + 1 == k && k < t.queues[c].len()
            && t.stage((#[trigger] t.queues[c][k]).behavior).locked() implies t.actors[(#[trigger] t.queues[c][j]).behavior].stamp
            < t.actors[t.queues[c][k].behavior].stamp by {
            let j0 = if c == c0 { j + 1 } else { j };
            let k0 = if c == c0 { k + 1 } else { k };
            assert(s.queued(s.queues[c][j0]) && s.queued(s.queues[c][k0]));
        }
    }
    assert(t.stamps_past()) by {
        assert forall|b2: u64| #[trigger] t.live(b2) && t.stage(b2).locked() implies t.actors[b2].stamp < t.clock by {
            assert(s.live(b2));
        }
    }
}

proof fn lemma_notify_inv(s: Protocol, b: u64)
    requires
        s.inv(),
        s.enabled(Move::Notify(b)),
    ensures
        s.apply(Move::Notify(b)).inv(),
{
    let t = s.apply(Move::Notify(b));
    let i = s.stage(b)->Notify_0;
    let n = s.stage(b)->Notify_1;
    assert(s.live(b));
    assert(s.notifying(b, n));
    assert(s.queued(n) && !s.owned(n));
    assert(s.is_request(n));
    assert(s.live(n.behavior));
    lemma_owned_len(s.actors[n.behavior], n.index);
    assert(n.behavior != b);
    assert(t.actors.dom() =~= s.actors.dom());
    assert(t.actors[n.behavior] == s.actors[n.behavior].resolved(n.index));
    assert(t.actors[b] == s.actors[b].at(Stage::Release(i + 1)));
    assert(!s.stage(n.behavior).acquired());
    assert(s.actors[n.behavior].count == 1 ==> s.stage(n.behavior) is Pending);
    assert forall|r: ReqId| #[trigger] t.is_request(r) implies s.is_request(r) && t.target(r) == s.target(r) by {}
    assert forall|r: ReqId| #[trigger] t.queued(r) implies s.queued(r) && s.is_request(r) by {}
    assert forall|r: ReqId| #[trigger] s.queued(r) implies t.queued(r) && t.is_request(r) by {}
    assert forall|r: ReqId| #[trigger] s.queued(r) implies t.owned(r) == (s.owned(r) || r == n) by {}
    assert forall|p: u64, r: ReqId| #[trigger] s.notifying(p, r) && p != b implies t.notifying(p, r) by {}
    assert forall|p: u64, r: ReqId| #[trigger] t.notifying(p, r) implies s.notifying(p, r) && p != b by {}
    assert(t.actors_wf()) by {
        assert forall|b2: u64| #[trigger] t.live(b2) implies t.actors[b2].wf() by {
            assert(s.live(b2));
            assert(s.actors[b2].wf());
        }
    }
    assert(t.owners_head()) by {
        assert forall|r: ReqId| #[trigger] t.queued(r) && t.owned(r) implies t.heads(t.target(r), r) by {
            assert(s.queued(r));
        }
    }
    assert(t.heads_served()) by {
        assert forall|c: int| 0 <= c < t.queues.len() && (#[trigger] t.queues[c]).len() > 0 implies {
            let r = t.queues[c][0];
            t.owned(r) || t.resolving(r) || exists|p: u64| t.notifying(p, r)
        } by {
            let r = s.queues[c][0];
            assert(s.queued(r));
            if r != n && !s.owned(r) && !s.resolving(r) {
                let p = choose|p: u64| s.notifying(p, r);
                assert(t.notifying(p, r));
            }
        }
    }
    assert(t.resolving_heads()) by {
        assert forall|r: ReqId| #[trigger] t.queued(r) && t.resolving(r) implies t.heads(t.target(r), r) by {
            assert(s.queued(r) && s.resolving(r));
        }
    }
    assert(t.notified_heads()) by {
        assert forall|p: u64, r: ReqId| #[trigger] t.notifying(p, r) implies {
            &&& t.queued(r)
            &&& t.heads(t.target(r), r)
            &&& !t.owned(r)
            &&& !t.resolving(r)
        } by {
            assert(s.notifying(p, r));
            assert(r != n);
        }
    }
    assert(t.notified_once());
    assert(t.passed_scheduled()) by {
        assert forall|c: int, j: int, k: int| 0 <= c < t.queues.len() && 0 <= j && j + 1 == k && k < t.queues[c].len()
            implies t.waiting(#[trigger] t.queues[c][k]) || t.scheduled(#[trigger] t.queues[c][j]) by {
            assert(s.queued(s.queues[c][j]) && s.queued(s.queues[c][k]));
            assert(s.waiting(s.queues[c][k]) || s.scheduled(s.queues[c][j]));
        }
    }
    assert(t.stamps_ordered()) by {
        assert forall|c: int, j: int, k: int| 0 <= c < t.queues.len() && 0 <= j && j + 1 == k && k < t.queues[c].len()
            && t.stage((#[trigger] t.queues[c][k]).behavior).locked() implies t.actors[(#[trigger] t.queues[c][j]).behavior].stamp
            < t.actors[t.queues[c][k].behavior].stamp by {
            assert(s.queued(s.queues[c][j]) && s.queued(s.queues[c][k]));
        }
    }
    assert(t.stamps_past()) by {
        assert forall|b2: u64| #[trigger] t.live(b2) && t.stage(b2).locked() implies t.actors[b2].stamp < t.clock by {
            assert(s.live(b2));
        }
    }
}

proof fn lemma_retire_inv(s: Protocol, b: u64)
    requires
        s.inv(),
        s.enabled(Move::Retire(b)),
    ensures
        s.apply(Move::Retire(b)).inv(),
{
    let t = s.apply(Move::Retire(b));
    assert forall|r: ReqId| #[trigger] t.is_request(r) implies s.is_request(r) && t.target(r) == s.target(r) by {}
    assert forall|r: ReqId| #[trigger] t.queued(r) implies s.queued(r) && s.is_request(r) by {}
    assert forall|r: ReqId| #[trigger] s.queued(r) implies t.queued(r) && r.behavior != b by {}
    assert forall|p: u64, r: ReqId| #[trigger] s.notifying(p, r) implies t.notifying(p, r) by {}
    assert forall|p: u64, r: ReqId| #[trigger] t.notifying(p, r) implies s.notifying(p, r) && t.queued(r) by {
        assert(s.notifying(p, r));
        assert(s.queued(r));
    }
    assert(t.actors_wf()) by {
        assert forall|b2: u64| #[trigger] t.live(b2) implies t.actors[b2].wf() by {
            assert(s.live(b2));
        }
    }
    assert(t.heads_served()) by {
        assert forall|c: int| 0 <= c < t.queues.len() && (#[trigger] t.queues[c]).len() > 0 implies {
            let r = t.queues[c][0];
            t.owned(r) || t.resolving(r) || exists|p: u64| t.notifying(p, r)
        } by {
            let r = s.queues[c][0];
            assert(s.queued(r));
            if !s.owned(r) && !s.resolving(r) {
                let p = choose|p: u64| s.notifying(p, r);
                assert(t.notifying(p, r));
            }
        }
    }
    assert(t.passed_scheduled()) by {
        assert forall|c: int, j: int, k: int| 0 <= c < t.queues.len() && 0 <= j && j + 1 == k && k < t.queues[c].len()
            implies t.waiting(#[trigger] t.queues[c][k]) || t.scheduled(#[trigger] t.queues[c][j]) by {
            assert(s.queued(s.queues[c][j]) && s.queued(s.queues[c][k]));
            assert(s.waiting(s.queues[c][k]) || s.scheduled(s.queues[c][j]));
        }
    }
    assert(t.stamps_ordered()) by {
        assert forall|c: int, j: int, k: int| 0 <= c < t.queues.len() && 0 <= j && j + 1 == k && k < t.queues[c].len()
            && t.stage((#[trigger] t.queues[c][k]).behavior).locked() implies t.actors[(#[trigger] t.queues[c][j]).behavior].stamp
            < t.actors[t.queues[c][k].behavior].stamp by {
            assert(s.queued(s.queues[c][j]) && s.queued(s.queues[c][k]));
        }
    }
    assert(t.stamps_past()) by {
        assert forall|b2: u64| #[trigger] t.live(b2) && t.stage(b2).locked() implies t.actors[b2].stamp < t.clock by {
            assert(s.live(b2));
        }
    }
}

/// The invariant holds of the empty system.
pub proof fn law_inv_initially()
    ensures
        Protocol::empty().inv(),
{
}

/// Every move keeps the invariant.
pub proof fn law_inv_kept(s: Protocol, m: Move)
    requires
        s.inv(),
        s.enabled(m),
    ensures
        s.apply(m).inv(),
{
    match m {
        Move::AddCown => lemma_add_cown_inv(s),
        Move::Admit(b, targets) => lemma_admit_inv(s, b, targets),
        Move::Enqueue(b) => lemma_enqueue_inv(s, b),
        Move::Resolve(b) => {
            let a = s.actors[b];
            let i = a.stage->Resolve_0;
            assert(s.live(b));
            lemma_owned_len(a, i as usize);
            let after = a.resolved(i as usize).at(Stage::Enqueue(i + 1));
            assert forall|x: usize| #[trigger] after.owned.contains(x) implies x < a.targets.len()
                && after.stage.entered(x as int) by {
                if x != i {
                    assert(a.owned.contains(x));
                }
            }
            lemma_put_inv(s, b, after, s.clock);
        },
        Move::Pass(b) => {
            assert(s.live(b));
            let a = s.actors[b];
            let after = a.at(Stage::Enqueue(a.stage->Wait_0 + 1));
            assert forall|x: usize| #[trigger] after.owned.contains(x) implies after.stage.entered(x as int) by {
                assert(a.stage.entered(x as int));
            }
            lemma_put_inv(s, b, after, s.clock);
        },
        Move::Turn(b) => {
            assert(s.live(b));
            lemma_put_inv(s, b, s.apply(m).actors[b], s.clock + 1);
        },
        Move::Finish(b) => {
            assert(s.live(b));
            lemma_put_inv(s, b, s.apply(m).actors[b], s.clock);
        },
        Move::Settle(b) => {
            assert(s.live(b));
            let a = s.actors[b];
            lemma_below_len(a.owned, a.targets.len());
            lemma_put_inv(s, b, s.apply(m).actors[b], s.clock);
        },
        Move::Begin(b) => {
            assert(s.live(b));
            lemma_put_inv(s, b, s.apply(m).actors[b], s.clock);
        },
        Move::Complete(b) => {
            assert(s.live(b));
            lemma_put_inv(s, b, s.apply(m).actors[b], s.clock);
        },
        Move::Release(b) => lemma_release_inv(s, b),
        Move::Notify(b) => lemma_notify_inv(s, b),
        Move::Retire(b) => lemma_retire_inv(s, b),
    }
}

} // verus!
