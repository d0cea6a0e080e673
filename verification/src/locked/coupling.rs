//! How the memory of the locking discipline stands for a state of the protocol,
//! and why every step keeps it so.
use crate::laws::lemma_past_kept;
use crate::locked::memory::{BehaviourView, Cown, Memory, Phase, Request, ResourceState};
use crate::moves::{
    law_inv_kept, lemma_below_len, lemma_owned_len, lemma_place, lemma_same_place, Move,
};
use crate::protocol::{ascending, Actor, Protocol, ReqId, Stage};
use vstd::prelude::*;

verus! {

/// A behaviour whose next step is `phase` is at `stage` of the protocol.
pub open spec fn stands_for(phase: Phase, stage: Stage) -> bool {
    match phase {
        Phase::Enqueue(i) => stage == Stage::Enqueue(i as int),
        Phase::Resolve(i) => stage == Stage::Resolve(i as int),
        Phase::Wait(i, _) => stage == Stage::Wait(i as int),
        Phase::Finish(i) => stage == Stage::Finish(i as int),
        Phase::Pending => stage == Stage::Pending,
        Phase::Ready => stage == Stage::Ready,
        Phase::Running => stage == Stage::Running,
        Phase::Release(i) => stage == Stage::Release(i as int),
        Phase::Notify(i, next) => stage == Stage::Notify(i as int, next),
    }
}

/// The routine has been started.
pub open spec fn started(stage: Stage) -> bool {
    stage is Running || stage is Release || stage is Notify
}

/// How request `i` of the actor `a` stands to its cown.
pub open spec fn state_of(a: Actor, i: int) -> ResourceState {
    if a.owned.contains(i as usize) {
        ResourceState::Owned
    } else if a.stage.entered(i) && a.stage != Stage::Resolve(i) {
        ResourceState::Certificate
    } else {
        ResourceState::Initial
    }
}

/// The words of a behaviour are those of the actor `a`.
pub open spec fn matches_actor<F>(v: BehaviourView<F>, a: Actor) -> bool {
    &&& v.requests.len() == a.targets.len()
    &&& forall|i: int| 0 <= i < a.targets.len() ==> {
        &&& (#[trigger] v.requests[i]).resource.cown == a.targets[i]
        &&& v.requests[i].scheduled == a.stage.scheduled(i)
        &&& v.requests[i].state == state_of(a, i)
        &&& !a.stage.entered(i) ==> v.requests[i].callback is None
    }
    &&& v.count == a.count
    &&& stands_for(v.phase, a.stage)
    &&& v.routine is Some <==> !started(a.stage)
}

impl<T, F> Memory<T, F> {
    pub open spec fn names_match(self) -> bool {
        &&& self.cowns.len() == self.model.queues.len()
        &&& self.behaviours.dom() == self.model.actors.dom()
        &&& 0 <= self.next_id <= u64::MAX
        &&& forall|b: u64| #[trigger] self.live(b) ==> b < self.next_id
    }

    pub open spec fn behaviours_match(self) -> bool {
        forall|b: u64| #[trigger] self.live(b) ==> matches_actor(self.behaviours[b], self.model.actors[b])
    }

    /// The end of the queue of a cown is its last request.
    pub open spec fn tails_match(self) -> bool {
        forall|c: int| 0 <= c < self.cowns.len() ==> (#[trigger] self.cowns[c]).last_request == (if self.model.queues[c].len()
            == 0 {
            None
        } else {
            Some(self.model.queues[c].last())
        })
    }

    /// At a request is registered the one behind it, if there is one.
    pub open spec fn callbacks_match(self) -> bool {
        forall|c: int, k: int| 0 <= c < self.model.queues.len() && 0 <= k < self.model.queues[c].len() ==> self.request(
            #[trigger] self.model.queues[c][k],
        ).callback == self.behind(c, k)
    }

    pub open spec fn behind(self, c: int, k: int) -> Option<ReqId> {
        if k + 1 < self.model.queues[c].len() {
            Some(self.model.queues[c][k + 1])
        } else {
            None
        }
    }

    /// A scheduler that waits knows the request in front, which may have left the
    /// queue since.
    pub open spec fn waits_match(self) -> bool {
        forall|c: int, k: int| 0 <= c < self.model.queues.len() && 0 <= k < self.model.queues[c].len()
            ==> self.wait_matches(c, k, #[trigger] self.model.queues[c][k])
    }

    pub open spec fn wait_matches(self, c: int, k: int, r: ReqId) -> bool {
        match self.phase(r.behavior) {
            Phase::Wait(i, prev) => i == r.index ==> {
                &&& prev.behavior < self.next_id
                &&& if k > 0 {
                    self.model.queues[c][k - 1] == prev
                } else {
                    self.model.past(prev)
                }
            },
            _ => true,
        }
    }

    /// Somebody who holds the cown `c` is running.
    pub open spec fn borrowed(self, c: int) -> bool {
        exists|r: ReqId| #[trigger] self.model.queued(r) && self.model.target(r) == c && self.model.stage(r.behavior)
            is Running
    }

    /// A value is away from its cown only while its holder runs, and it is known
    /// where it was borrowed.
    pub open spec fn values_home(self) -> bool {
        forall|c: int| 0 <= c < self.cowns.len() ==> {
            &&& (#[trigger] self.cowns[c]).resource is None ==> self.borrowed(c)
            &&& self.cowns[c].resource is None <==> self.cowns[c].borrow_at is Some
        }
    }

    /// The words are those of the state of the protocol.
    pub open spec fn coupled(self) -> bool {
        &&& self.names_match()
        &&& self.behaviours_match()
        &&& self.tails_match()
        &&& self.callbacks_match()
        &&& self.waits_match()
        &&& self.values_home()
    }

    /// The invariant of the memory.
    #[verifier::opaque]
    pub open spec fn inv(self) -> bool {
        self.model.inv() && self.coupled()
    }
}

/// The memory stands for a state in which the protocol's own invariant holds.
pub proof fn lemma_model<T, F>(s: Memory<T, F>)
    requires
        s.inv(),
    ensures
        s.model.inv(),
        s.cowns.len() == s.model.queues.len(),
        s.behaviours.dom() == s.model.actors.dom(),
        0 <= s.next_id <= u64::MAX,
        !s.live(s.next_id as u64) || s.next_id == u64::MAX,
{
    reveal(Memory::inv);
}

/// The words are those of the state of the protocol.
proof fn lemma_coupled<T, F>(s: Memory<T, F>)
    requires
        s.inv(),
    ensures
        s.coupled(),
{
    reveal(Memory::inv);
}

/// The requests in a queue are there.
proof fn lemma_member<T, F>(s: Memory<T, F>, c: int, k: int)
    requires
        s.inv(),
        0 <= c < s.model.queues.len(),
        0 <= k < s.model.queues[c].len(),
    ensures
        s.model.queued(s.model.queues[c][k]),
        s.model.is_request(s.model.queues[c][k]),
        s.live(s.model.queues[c][k].behavior),
{
    reveal(Memory::inv);
}

/// A request stands in one place.
proof fn lemma_one_place<T, F>(s: Memory<T, F>, c: int, k: int, d: int, j: int)
    requires
        s.inv(),
        0 <= c < s.model.queues.len(),
        0 <= k < s.model.queues[c].len(),
        0 <= d < s.model.queues.len(),
        0 <= j < s.model.queues[d].len(),
        s.model.queues[c][k] == s.model.queues[d][j],
    ensures
        c == d,
        k == j,
{
    lemma_model(s);
    lemma_same_place(s.model, c, k, d, j);
}

/// The words of a behaviour that is alive.
pub proof fn lemma_live<T, F>(s: Memory<T, F>, b: u64)
    requires
        s.inv(),
        s.live(b),
    ensures
        b < s.next_id,
        s.model.live(b),
        s.model.actors[b].wf(),
        matches_actor(s.behaviours[b], s.model.actors[b]),
        s.behaviours[b].targets() == s.model.actors[b].targets,
        forall|r: ReqId| #[trigger] s.is_request(r) && r.behavior == b ==> {
            &&& s.model.is_request(r)
            &&& s.target(r) == s.model.target(r)
            &&& 0 <= s.target(r) < s.cowns.len()
        },
{
    reveal(Memory::inv);
    assert(s.model.live(b));
    assert(s.behaviours[b].targets() =~= s.model.actors[b].targets);
    assert forall|r: ReqId| #[trigger] s.is_request(r) && r.behavior == b implies {
        &&& s.model.is_request(r)
        &&& s.target(r) == s.model.target(r)
        &&& 0 <= s.target(r) < s.cowns.len()
    } by {
        assert(s.model.is_request(r));
    }
}

/// A step of `b` alone that touches neither queues nor registrations.
proof fn lemma_own_step_inv<T, F>(s: Memory<T, F>, b: u64, v: BehaviourView<F>, p: Protocol)
    requires
        s.inv(),
        s.live(b),
        p.inv(),
        p.queues == s.model.queues,
        p.actors == s.model.actors.insert(b, p.actors[b]),
        p.actors[b].targets == s.model.actors[b].targets,
        forall|i: int| #[trigger] s.model.stage(b).released(i) ==> p.stage(b).released(i),
        matches_actor(v, p.actors[b]),
        forall|i: int| 0 <= i < s.size(b) ==> (#[trigger] v.requests[i]).callback == s.behaviours[b].requests[i].callback,
        !(v.phase is Wait),
        s.model.stage(b) is Running ==> forall|r: ReqId| #[trigger] s.is_request(r) && r.behavior == b
            ==> s.cowns[s.target(r)].resource is Some,
    ensures
        s.with_behaviour(b, v).with_model(p).inv(),
{
    reveal(Memory::inv);
    let t = s.with_behaviour(b, v).with_model(p);
    lemma_live(s, b);
    assert(t.behaviours.dom() =~= s.behaviours.dom());
    assert(t.model.actors.dom() =~= s.model.actors.dom());
    assert forall|x: u64| #[trigger] t.live(x) implies s.live(x) && matches_actor(t.behaviours[x], t.model.actors[x]) by {
        assert(s.live(x));
    }
    assert(t.callbacks_match()) by {
        assert forall|c: int, k: int| 0 <= c < t.model.queues.len() && 0 <= k < t.model.queues[c].len() implies t.request(
            #[trigger] t.model.queues[c][k],
        ).callback == t.behind(c, k) by {
            let r = s.model.queues[c][k];
            assert(s.request(r).callback == s.behind(c, k));
            assert(s.model.queued(r) && s.model.is_request(r));
        }
    }
    assert(t.waits_match()) by {
        assert forall|c: int, k: int| 0 <= c < t.model.queues.len() && 0 <= k < t.model.queues[c].len()
            implies t.wait_matches(c, k, #[trigger] t.model.queues[c][k]) by {
            let r = s.model.queues[c][k];
            assert(s.wait_matches(c, k, r));
            assert(s.model.queued(r));
        }
    }
    assert(t.values_home()) by {
        assert forall|c: int| 0 <= c < t.cowns.len() implies {
            &&& (#[trigger] t.cowns[c]).resource is None ==> t.borrowed(c)
            &&& t.cowns[c].resource is None <==> t.cowns[c].borrow_at is Some
        } by {
            assert(s.cowns[c].resource is None ==> s.borrowed(c));
            if s.cowns[c].resource is None {
                let r = choose|r: ReqId| #[trigger] s.model.queued(r) && s.model.target(r) == c && s.model.stage(
                    r.behavior,
                ) is Running;
                assert(s.live(r.behavior));
                lemma_live(s, r.behavior);
                assert(s.is_request(r));
                assert(r.behavior != b);
                assert(t.model.queued(r));
            }
        }
    }
}

pub proof fn lemma_resolve_step<T, F>(s: Memory<T, F>, b: u64)
    requires
        s.inv(),
        s.live(b),
        s.phase(b) is Resolve,
    ensures
        s.model.enabled(Move::Resolve(b)),
        s.is_request(s.current(b)),
        s.behaviours[b].count >= 2,
        s.schedule(b).inv(),
{
    lemma_live(s, b);
    lemma_model(s);
    let i = s.phase(b)->Resolve_0;
    let a = s.model.actors[b];
    lemma_owned_len(a, i);
    let m = Move::Resolve(b);
    law_inv_kept(s.model, m);
    let p = s.model.apply(m);
    let t = s.schedule(b);
    assert(t.behaviours =~= s.behaviours.insert(b, t.behaviours[b]));
    assert(p.stage(b) == Stage::Enqueue(i + 1));
    assert(matches_actor(t.behaviours[b], p.actors[b])) by {
        assert forall|x: int| 0 <= x < a.targets.len() implies (#[trigger] t.behaviours[b].requests[x]).state == state_of(
            p.actors[b],
            x,
        ) by {
            assert(s.behaviours[b].requests[x].state == state_of(a, x));
        }
    }
    lemma_own_step_inv(s, b, t.behaviours[b], p);
}

/// The request behind which `b` waits is scheduled if and only if it may be
/// passed.
pub proof fn lemma_wait_known<T, F>(s: Memory<T, F>, b: u64)
    requires
        s.inv(),
        s.live(b),
        s.phase(b) is Wait,
    ensures
        s.is_request(s.current(b)),
        s.model.queued(s.current(b)),
        ({
            let prev = s.phase(b)->Wait_1;
            &&& s.live(prev.behavior) ==> s.is_request(prev)
            &&& s.passable(prev) ==> s.model.enabled(Move::Pass(b))
            &&& s.model.enabled(Move::Pass(b)) ==> s.passable(prev)
        }),
{
    lemma_live(s, b);
    lemma_model(s);
    let i = s.phase(b)->Wait_0;
    let prev = s.phase(b)->Wait_1;
    let n = s.current(b);
    assert(s.is_request(n));
    assert(s.model.queued(n));
    let k = lemma_place(s.model, n);
    let c = s.model.target(n);
    assert(s.wait_matches(c, k, n)) by {
        reveal(Memory::inv);
        assert(s.model.queues[c][k] == n);
    }
    if k > 0 {
        assert(s.model.queues[c][k - 1] == prev);
        assert(s.model.queued(prev) && s.model.is_request(prev));
        assert(s.live(prev.behavior));
        lemma_live(s, prev.behavior);
        assert(s.is_request(prev));
        assert(s.request(prev).scheduled == s.model.scheduled(prev));
        if s.passable(prev) {
            assert(s.model.may_pass(n));
        }
        assert(s.model.queues[c][k] == n);
    } else {
        assert(s.model.may_pass(n));
        if s.live(prev.behavior) {
            lemma_live(s, prev.behavior);
            assert(s.model.stage(prev.behavior).released(prev.index as int));
            assert(s.model.actors[prev.behavior].wf());
            assert(s.is_request(prev));
            assert(s.behaviours[prev.behavior].requests[prev.index as int].scheduled == s.model.scheduled(prev));
        }
    }
}

pub proof fn lemma_pass_step<T, F>(s: Memory<T, F>, b: u64)
    requires
        s.inv(),
        s.live(b),
        s.phase(b) is Wait,
        s.passable(s.phase(b)->Wait_1),
    ensures
        s.model.enabled(Move::Pass(b)),
        s.schedule(b).inv(),
{
    lemma_live(s, b);
    lemma_model(s);
    lemma_wait_known(s, b);
    let m = Move::Pass(b);
    law_inv_kept(s.model, m);
    let p = s.model.apply(m);
    let t = s.schedule(b);
    assert(matches_actor(t.behaviours[b], p.actors[b])) by {
        assert forall|x: int| 0 <= x < p.actors[b].targets.len() implies (#[trigger] t.behaviours[b].requests[x]).state
            == state_of(p.actors[b], x) by {
            assert(s.behaviours[b].requests[x].state == state_of(s.model.actors[b], x));
        }
    }
    lemma_own_step_inv(s, b, t.behaviours[b], p);
}

pub proof fn lemma_turn_step<T, F>(s: Memory<T, F>, b: u64)
    requires
        s.inv(),
        s.live(b),
        s.phase(b) == Phase::Enqueue(s.size(b) as usize),
    ensures
        s.model.enabled(Move::Turn(b)),
        s.schedule(b).inv(),
{
    lemma_live(s, b);
    lemma_model(s);
    let m = Move::Turn(b);
    law_inv_kept(s.model, m);
    let p = s.model.apply(m);
    let t = s.schedule(b);
    assert(matches_actor(t.behaviours[b], p.actors[b])) by {
        assert forall|x: int| 0 <= x < p.actors[b].targets.len() implies (#[trigger] t.behaviours[b].requests[x]).state
            == state_of(p.actors[b], x) by {
            assert(s.behaviours[b].requests[x].state == state_of(s.model.actors[b], x));
        }
    }
    lemma_own_step_inv(s, b, t.behaviours[b], p);
}

pub proof fn lemma_finish_step<T, F>(s: Memory<T, F>, b: u64)
    requires
        s.inv(),
        s.live(b),
        s.phase(b) is Finish,
        s.phase(b)->Finish_0 < s.size(b),
    ensures
        s.model.enabled(Move::Finish(b)),
        !s.request(s.current(b)).scheduled,
        s.schedule(b).inv(),
{
    lemma_live(s, b);
    lemma_model(s);
    let m = Move::Finish(b);
    law_inv_kept(s.model, m);
    let p = s.model.apply(m);
    let t = s.schedule(b);
    let i = s.phase(b)->Finish_0;
    assert(t.behaviours =~= s.behaviours.insert(b, t.behaviours[b]));
    assert(!s.behaviours[b].requests[i as int].scheduled);
    assert(matches_actor(t.behaviours[b], p.actors[b])) by {
        assert forall|x: int| 0 <= x < p.actors[b].targets.len() implies (#[trigger] t.behaviours[b].requests[x]).state
            == state_of(p.actors[b], x) by {
            assert(s.behaviours[b].requests[x].state == state_of(s.model.actors[b], x));
        }
    }
    lemma_own_step_inv(s, b, t.behaviours[b], p);
}

pub proof fn lemma_settle_step<T, F>(s: Memory<T, F>, b: u64)
    requires
        s.inv(),
        s.live(b),
        s.phase(b) == Phase::Finish(s.size(b) as usize),
    ensures
        s.model.enabled(Move::Settle(b)),
        s.behaviours[b].count >= 1,
        s.schedule(b).inv(),
{
    lemma_live(s, b);
    lemma_model(s);
    let m = Move::Settle(b);
    law_inv_kept(s.model, m);
    let p = s.model.apply(m);
    let t = s.schedule(b);
    let a = s.model.actors[b];
    lemma_below_len(a.owned, a.targets.len());
    assert(t.behaviours =~= s.behaviours.insert(b, t.behaviours[b]));
    assert(matches_actor(t.behaviours[b], p.actors[b])) by {
        assert forall|x: int| 0 <= x < p.actors[b].targets.len() implies (#[trigger] t.behaviours[b].requests[x]).state
            == state_of(p.actors[b], x) by {
            assert(s.behaviours[b].requests[x].state == state_of(s.model.actors[b], x));
        }
    }
    lemma_own_step_inv(s, b, t.behaviours[b], p);
}

/// Starting a routine keeps the invariant.
pub proof fn lemma_run_step<T, F>(s: Memory<T, F>, b: u64)
    requires
        s.inv(),
        s.live(b),
        s.phase(b) is Ready,
    ensures
        s.model.enabled(Move::Begin(b)),
        s.behaviours[b].routine is Some,
        s.run(b).inv(),
{
    lemma_live(s, b);
    lemma_model(s);
    let m = Move::Begin(b);
    law_inv_kept(s.model, m);
    let p = s.model.apply(m);
    let t = s.run(b);
    assert(matches_actor(t.behaviours[b], p.actors[b])) by {
        assert forall|x: int| 0 <= x < p.actors[b].targets.len() implies (#[trigger] t.behaviours[b].requests[x]).state
            == state_of(p.actors[b], x) by {
            assert(s.behaviours[b].requests[x].state == state_of(s.model.actors[b], x));
        }
    }
    lemma_own_step_inv(s, b, t.behaviours[b], p);
}

/// Ending a routine, with all values back in their cowns, keeps the invariant.
pub proof fn lemma_complete_step<T, F>(s: Memory<T, F>, b: u64)
    requires
        s.inv(),
        s.live(b),
        s.phase(b) is Running,
        forall|r: ReqId| #[trigger] s.is_request(r) && r.behavior == b ==> s.cowns[s.target(r)].resource is Some,
    ensures
        s.model.enabled(Move::Complete(b)),
        s.complete(b).inv(),
{
    lemma_live(s, b);
    lemma_model(s);
    let m = Move::Complete(b);
    law_inv_kept(s.model, m);
    let p = s.model.apply(m);
    let t = s.complete(b);
    assert(matches_actor(t.behaviours[b], p.actors[b])) by {
        assert forall|x: int| 0 <= x < p.actors[b].targets.len() implies (#[trigger] t.behaviours[b].requests[x]).state
            == state_of(p.actors[b], x) by {
            assert(s.behaviours[b].requests[x].state == state_of(s.model.actors[b], x));
        }
    }
    lemma_own_step_inv(s, b, t.behaviours[b], p);
}

/// Asking for a cown.
#[verifier::spinoff_prover]
#[verifier::rlimit(40)]
pub proof fn lemma_acquire_step<T, F>(s: Memory<T, F>, b: u64)
    requires
        s.inv(),
        s.live(b),
        s.phase(b) is Enqueue,
        s.phase(b)->Enqueue_0 < s.size(b),
    ensures
        s.model.enabled(Move::Enqueue(b)),
        s.is_request(s.current(b)),
        s.request(s.current(b)).state == ResourceState::Initial,
        0 <= s.target(s.current(b)) < s.cowns.len(),
        s.cowns[s.target(s.current(b))].last_request matches Some(prev) ==> s.is_request(prev) && s.request(
            prev,
        ).callback is None,
        s.schedule(b).inv(),
{
    lemma_live(s, b);
    lemma_model(s);
    let i = s.phase(b)->Enqueue_0;
    let n = ReqId { behavior: b, index: i };
    assert(s.is_request(n));
    assert(s.behaviours[b].requests[i as int].state == state_of(s.model.actors[b], i as int));
    assert(!s.model.owned(n)) by {
        if s.model.actors[b].owned.contains(i) {
            assert(s.model.stage(b).entered(i as int));
        }
    }
    let c0 = s.target(n);
    let q0 = s.model.queues[c0];
    let m = Move::Enqueue(b);
    law_inv_kept(s.model, m);
    let p = s.model.apply(m);
    lemma_tail(s, c0);
    lemma_acquire_inv(s, b, p);
    let t = s.schedule(b);
    assert(t.behaviours =~= acquired(s, b, p).behaviours);
    assert(t.cowns =~= acquired(s, b, p).cowns);
    assert(t == acquired(s, b, p));
    reveal(Memory::inv);
}

/// The end of the queue of a cown is a request for it, at which nobody is
/// registered.
pub proof fn lemma_tail<T, F>(s: Memory<T, F>, c: int)
    requires
        s.inv(),
        0 <= c < s.cowns.len(),
    ensures
        s.cowns[c].last_request matches Some(r) ==> {
            &&& s.is_request(r)
            &&& s.target(r) == c
            &&& s.model.queued(r)
            &&& s.model.queues[c].len() > 0
            &&& s.model.queues[c].last() == r
            &&& s.request(r).callback is None
        },
        s.cowns[c].last_request is None ==> s.model.queues[c].len() == 0,
{
    lemma_model(s);
    let q = s.model.queues[c];
    assert(s.cowns[c].last_request == (if q.len() == 0 { None } else { Some(q.last()) })) by {
        reveal(Memory::inv);
    }
    if q.len() > 0 {
        let r = q.last();
        assert(s.model.queues[c][q.len() - 1] == r);
        assert(s.request(r).callback is None) by {
            reveal(Memory::inv);
            assert(s.request(s.model.queues[c][q.len() - 1]).callback == s.behind(c, q.len() - 1));
        }
        assert(s.model.queued(s.model.queues[c][q.len() - 1]));
        assert(s.live(r.behavior));
        lemma_live(s, r.behavior);
        assert(s.is_request(r));
    }
}

/// The memory after `b` has asked for its next cown, standing for `p`.
spec fn acquired<T, F>(s: Memory<T, F>, b: u64, p: Protocol) -> Memory<T, F> {
    let n = s.current(b);
    match s.cowns[s.target(n)].last_request {
        None => s.with_last(s.target(n), Some(n)).with_phase(b, Phase::Resolve(n.index)),
        Some(prev) => s.with_callback(prev, Some(n)).with_last(s.target(n), Some(n)).with_state(
            n,
            ResourceState::Certificate,
        ).with_phase(b, Phase::Wait(n.index, prev)),
    }.with_model(p)
}

#[verifier::spinoff_prover]
#[verifier::rlimit(40)]
proof fn lemma_acquire_inv<T, F>(s: Memory<T, F>, b: u64, p: Protocol)
    requires
        s.inv(),
        s.live(b),
        s.phase(b) is Enqueue,
        s.phase(b)->Enqueue_0 < s.size(b),
        p == s.model.enqueue(b, s.phase(b)->Enqueue_0 as int),
    ensures
        acquired(s, b, p).coupled(),
{
    reveal(Memory::inv);
    lemma_live(s, b);
    let t = acquired(s, b, p);
    let i = s.phase(b)->Enqueue_0;
    let n = ReqId { behavior: b, index: i };
    assert(s.is_request(n));
    let c0 = s.target(n);
    let q0 = s.model.queues[c0];
    lemma_tail(s, c0);
    assert(!s.model.owned(n)) by {
        if s.model.actors[b].owned.contains(i) {
            assert(s.model.stage(b).entered(i as int));
        }
    }
    assert(!s.model.queued(n));
    assert(p.queues[c0] == q0.push(n));
    assert(p.actors.dom() =~= s.model.actors.dom());
    assert(t.behaviours.dom() =~= s.behaviours.dom()) by {
        assert(s.cowns[c0].last_request matches Some(prev) ==> s.live(prev.behavior));
    }
    assert forall|c: int| 0 <= c < s.model.queues.len() && c != c0 implies #[trigger] p.queues[c] == s.model.queues[c] by {}
    assert(t.behaviours_match()) by {
        assert forall|x: u64| #[trigger] t.live(x) implies matches_actor(t.behaviours[x], t.model.actors[x]) by {
            assert(s.live(x));
            let a = s.model.actors[x];
            let v = s.behaviours[x];
            assert(matches_actor(v, a));
            assert forall|y: int| 0 <= y < a.targets.len() implies {
                &&& (#[trigger] t.behaviours[x].requests[y]).resource.cown == a.targets[y]
                &&& t.behaviours[x].requests[y].scheduled == p.actors[x].stage.scheduled(y)
                &&& t.behaviours[x].requests[y].state == state_of(p.actors[x], y)
                &&& !p.actors[x].stage.entered(y) ==> t.behaviours[x].requests[y].callback is None
            } by {
                assert(v.requests[y].state == state_of(a, y));
            }
        }
    }
    assert forall|x: u64| #[trigger] t.live(x) implies x < t.next_id by {
        assert(s.live(x));
    }
    assert(t.tails_match());
    assert(t.callbacks_match()) by {
        assert forall|c: int, k: int| 0 <= c < p.queues.len() && 0 <= k < p.queues[c].len() implies t.request(
            #[trigger] t.model.queues[c][k],
        ).callback == t.behind(c, k) by {
            if c == c0 && k == q0.len() {
                assert(s.behaviours[b].requests[i as int].callback is None);
                assert(s.cowns[c0].last_request != Some(n));
            } else {
                let r = s.model.queues[c][k];
                assert(p.queues[c][k] == r);
                assert(s.request(r).callback == s.behind(c, k));
                assert(s.model.queued(r) && s.model.is_request(r));
                assert(s.live(r.behavior));
                if s.cowns[c0].last_request == Some(r) {
                    lemma_same_place(s.model, c, k, c0, q0.len() - 1);
                } else if c == c0 {
                    assert(k + 1 < q0.len());
                    assert(p.queues[c][k + 1] == q0[k + 1]);
                }
            }
        }
    }
    assert(t.waits_match()) by {
        assert forall|c: int, k: int| 0 <= c < p.queues.len() && 0 <= k < p.queues[c].len()
            implies t.wait_matches(c, k, #[trigger] t.model.queues[c][k]) by {
            if c == c0 && k == q0.len() {
                if k > 0 {
                    assert(p.queues[c][k - 1] == q0[k - 1]);
                    assert(s.live(q0[k - 1].behavior));
                }
            } else {
                let r = s.model.queues[c][k];
                assert(p.queues[c][k] == r);
                assert(s.wait_matches(c, k, r));
                assert(s.model.queued(r));
                if k > 0 {
                    assert(p.queues[c][k - 1] == s.model.queues[c][k - 1]);
                }
            }
        }
    }
    assert(t.values_home()) by {
        assert forall|c: int| 0 <= c < t.cowns.len() implies {
            &&& (#[trigger] t.cowns[c]).resource is None ==> t.borrowed(c)
            &&& t.cowns[c].resource is None <==> t.cowns[c].borrow_at is Some
        } by {
            assert(s.cowns[c].resource is None ==> s.borrowed(c));
            if s.cowns[c].resource is None {
                let r = choose|r: ReqId| #[trigger] s.model.queued(r) && s.model.target(r) == c && s.model.stage(
                    r.behavior,
                ) is Running;
                assert(t.model.queued(r));
            }
        }
    }
}

/// What is known of a behaviour that is about to release a cown: it stands
/// first, owns the cown, and is registered with whoever stands behind it.
pub proof fn lemma_releasing_known<T, F>(s: Memory<T, F>, b: u64)
    requires
        s.inv(),
        s.live(b),
        s.phase(b) is Release,
        s.phase(b)->Release_0 < s.size(b),
    ensures
        ({
            let r = s.current(b);
            let q = s.model.queues[s.target(r)];
            &&& s.is_request(r)
            &&& s.model.is_request(r)
            &&& s.target(r) == s.model.target(r)
            &&& 0 <= s.target(r) < s.cowns.len()
            &&& q.len() > 0
            &&& q[0] == r
            &&& s.request(r).callback == s.behind(s.target(r), 0)
            &&& s.request(r).state == ResourceState::Owned
            &&& s.cowns[s.target(r)].last_request == Some(q.last())
            &&& q.len() > 1 ==> q.last() != r
            &&& s.model.enabled(Move::Release(b))
        }),
{
    lemma_live(s, b);
    lemma_model(s);
    let r = s.current(b);
    assert(s.is_request(r));
    assert(s.model.queued(r));
    lemma_owned_len(s.model.actors[b], r.index);
    assert(s.model.owned(r));
    assert(s.behaviours[b].requests[r.index as int].state == state_of(s.model.actors[b], r.index as int));
    let c = s.target(r);
    assert(s.model.heads(c, r));
    assert(s.request(s.model.queues[c][0]).callback == s.behind(c, 0) && s.cowns[c].last_request == Some(
        s.model.queues[c].last(),
    )) by {
        reveal(Memory::inv);
        assert(s.request(s.model.queues[c][0]).callback == s.behind(c, 0));
    }
    if s.model.queues[c].len() > 1 {
        assert(s.model.queues[c][0] != s.model.queues[c][s.model.queues[c].len() - 1]);
    }
}

/// Releasing a cown.
pub proof fn lemma_release_step<T, F>(s: Memory<T, F>, b: u64)
    requires
        s.inv(),
        s.live(b),
        s.phase(b) is Release,
        s.phase(b)->Release_0 < s.size(b),
    ensures
        s.model.enabled(Move::Release(b)),
        s.unwind(b).inv(),
{
    lemma_live(s, b);
    lemma_model(s);
    lemma_releasing_known(s, b);
    let m = Move::Release(b);
    law_inv_kept(s.model, m);
    let p = s.model.apply(m);
    assert forall|r: ReqId| #[trigger] s.model.past(r) && r.behavior < s.next_id implies p.past(r) by {
        lemma_past_kept(s.model, m, r);
    }
    lemma_release_inv(s, b, p);
    assert(s.unwind(b) == s.release(s.current(b)));
    let t = s.unwind(b);
    assert(t == t.with_model(p));
    reveal(Memory::inv);
}

#[verifier::spinoff_prover]
#[verifier::rlimit(40)]
proof fn lemma_release_inv<T, F>(s: Memory<T, F>, b: u64, p: Protocol)
    requires
        s.inv(),
        s.live(b),
        s.phase(b) is Release,
        s.phase(b)->Release_0 < s.size(b),
        p == s.model.release(b, s.phase(b)->Release_0 as int),
        forall|r: ReqId| #[trigger] s.model.past(r) && r.behavior < s.next_id ==> p.past(r),
    ensures
        s.release(s.current(b)).with_model(p).coupled(),
{
    lemma_coupled(s);
    lemma_live(s, b);
    lemma_releasing_known(s, b);
    let n = s.current(b);
    let c0 = s.target(n);
    let q0 = s.model.queues[c0];
    let t = s.release(n).with_model(p);
    assert(t.behaviours =~= s.behaviours.insert(b, t.behaviours[b]));
    assert(t.behaviours.dom() =~= s.behaviours.dom());
    assert(p.actors.dom() =~= s.model.actors.dom());
    assert(p.queues[c0] == q0.drop_first());
    assert forall|c: int| 0 <= c < s.model.queues.len() && c != c0 implies #[trigger] p.queues[c] == s.model.queues[c] by {}
    assert forall|c: int, k: int| 0 <= c < p.queues.len() && 0 <= k < p.queues[c].len() implies #[trigger] p.queues[c][k]
        == s.model.queues[c][if c == c0 { k + 1 } else { k }] by {}
    assert(t.behaviours_match()) by {
        assert forall|x: u64| #[trigger] t.live(x) implies matches_actor(t.behaviours[x], t.model.actors[x]) by {
            assert(s.live(x));
            let a = s.model.actors[x];
            assert(matches_actor(s.behaviours[x], a));
            assert forall|y: int| 0 <= y < a.targets.len() implies (#[trigger] t.behaviours[x].requests[y]).state == state_of(
                p.actors[x],
                y,
            ) && t.behaviours[x].requests[y].scheduled == p.actors[x].stage.scheduled(y)
                && t.behaviours[x].requests[y].resource.cown == a.targets[y] by {
                assert(s.behaviours[x].requests[y].state == state_of(a, y));
            }
        }
    }
    assert forall|x: u64| #[trigger] t.live(x) implies x < t.next_id by {
        assert(s.live(x));
    }
    assert(t.tails_match()) by {
        assert forall|c: int| 0 <= c < t.cowns.len() implies (#[trigger] t.cowns[c]).last_request == (if p.queues[c].len()
            == 0 {
            None
        } else {
            Some(p.queues[c].last())
        }) by {
            assert(s.cowns[c].last_request == (if s.model.queues[c].len() == 0 {
                None
            } else {
                Some(s.model.queues[c].last())
            }));
        }
    }
    assert(t.callbacks_match()) by {
        assert forall|c: int, k: int| 0 <= c < p.queues.len() && 0 <= k < p.queues[c].len() implies t.request(
            #[trigger] t.model.queues[c][k],
        ).callback == t.behind(c, k) by {
            let k0 = if c == c0 { k + 1 } else { k };
            let r = s.model.queues[c][k0];
            assert(p.queues[c][k] == r);
            assert(s.request(r).callback == s.behind(c, k0));
            if r == n {
                lemma_one_place(s, c, k0, c0, 0);
            }
            lemma_member(s, c, k0);
            if k + 1 < p.queues[c].len() {
                assert(p.queues[c][k + 1] == s.model.queues[c][k0 + 1]);
            }
        }
    }
    assert(t.waits_match()) by {
        assert forall|c: int, k: int| 0 <= c < p.queues.len() && 0 <= k < p.queues[c].len()
            implies t.wait_matches(c, k, #[trigger] t.model.queues[c][k]) by {
            let k0 = if c == c0 { k + 1 } else { k };
            let r = s.model.queues[c][k0];
            assert(p.queues[c][k] == r);
            assert(s.wait_matches(c, k0, r));
            lemma_member(s, c, k0);
            if k > 0 {
                assert(p.queues[c][k - 1] == s.model.queues[c][k0 - 1]);
            } else if c == c0 {
                assert(s.model.queues[c][0] == n);
                assert(p.past(n));
            }
        }
    }
    assert(t.values_home()) by {
        assert forall|c: int| 0 <= c < t.cowns.len() implies {
            &&& (#[trigger] t.cowns[c]).resource is None ==> t.borrowed(c)
            &&& t.cowns[c].resource is None <==> t.cowns[c].borrow_at is Some
        } by {
            assert(s.cowns[c].resource is None ==> s.borrowed(c));
            if s.cowns[c].resource is None {
                let r = choose|r: ReqId| #[trigger] s.model.queued(r) && s.model.target(r) == c && s.model.stage(
                    r.behavior,
                ) is Running;
                assert(t.model.queued(r));
            }
        }
    }
}

/// Handing over a cown.
pub proof fn lemma_notify_step<T, F>(s: Memory<T, F>, b: u64)
    requires
        s.inv(),
        s.live(b),
        s.phase(b) is Notify,
    ensures
        s.model.enabled(Move::Notify(b)),
        s.is_request(s.phase(b)->Notify_1),
        s.behaviours[s.phase(b)->Notify_1.behavior].count >= 1,
        s.phase(b)->Notify_1.behavior != b,
        s.request(s.phase(b)->Notify_1).state == ResourceState::Certificate,
        s.unwind(b).inv(),
{
    lemma_live(s, b);
    lemma_model(s);
    let i = s.phase(b)->Notify_0;
    let n = s.phase(b)->Notify_1;
    let nb = n.behavior;
    assert(s.model.notifying(b, n));
    assert(s.model.queued(n) && s.model.is_request(n));
    assert(s.live(nb));
    lemma_live(s, nb);
    assert(s.is_request(n));
    lemma_owned_len(s.model.actors[nb], n.index);
    assert(nb != b);
    assert(s.behaviours[nb].requests[n.index as int].state == state_of(s.model.actors[nb], n.index as int));
    let m = Move::Notify(b);
    law_inv_kept(s.model, m);
    let p = s.model.apply(m);
    assert forall|r: ReqId| #[trigger] s.model.past(r) && r.behavior < s.next_id implies p.past(r) by {
        lemma_past_kept(s.model, m, r);
    }
    lemma_notify_inv(s, b, p);
    assert(s.unwind(b) == s.release(s.current(b)));
    let t = s.unwind(b);
    assert(t == t.with_model(p));
    reveal(Memory::inv);
}

#[verifier::spinoff_prover]
#[verifier::rlimit(40)]
proof fn lemma_notify_inv<T, F>(s: Memory<T, F>, b: u64, p: Protocol)
    requires
        s.inv(),
        s.live(b),
        s.phase(b) is Notify,
        s.is_request(s.phase(b)->Notify_1),
        s.phase(b)->Notify_1.behavior != b,
        !s.model.owned(s.phase(b)->Notify_1),
        s.model.queued(s.phase(b)->Notify_1),
        p == s.model.notify(b, s.phase(b)->Notify_0 as int, s.phase(b)->Notify_1),
        forall|r: ReqId| #[trigger] s.model.past(r) && r.behavior < s.next_id ==> p.past(r),
    ensures
        s.release(s.current(b)).with_model(p).coupled(),
{
    lemma_coupled(s);
    lemma_live(s, b);
    let n = s.phase(b)->Notify_1;
    let nb = n.behavior;
    lemma_live(s, nb);
    lemma_owned_len(s.model.actors[nb], n.index);
    let t = s.release(s.current(b)).with_model(p);
    assert(t.behaviours.dom() =~= s.behaviours.dom());
    assert(p.actors.dom() =~= s.model.actors.dom());
    assert(t.behaviours_match()) by {
        assert forall|x: u64| #[trigger] t.live(x) implies matches_actor(t.behaviours[x], t.model.actors[x]) by {
            assert(s.live(x));
            let a = s.model.actors[x];
            assert(matches_actor(s.behaviours[x], a));
            assert forall|y: int| 0 <= y < a.targets.len() implies (#[trigger] t.behaviours[x].requests[y]).state == state_of(
                p.actors[x],
                y,
            ) && t.behaviours[x].requests[y].scheduled == p.actors[x].stage.scheduled(y)
                && t.behaviours[x].requests[y].resource.cown == a.targets[y] && t.behaviours[x].requests[y].callback
                == s.behaviours[x].requests[y].callback by {
                assert(s.behaviours[x].requests[y].state == state_of(a, y));
            }
        }
    }
    assert forall|x: u64| #[trigger] t.live(x) implies x < t.next_id by {
        assert(s.live(x));
    }
    assert(t.callbacks_match()) by {
        assert forall|c: int, k: int| 0 <= c < p.queues.len() && 0 <= k < p.queues[c].len() implies t.request(
            #[trigger] t.model.queues[c][k],
        ).callback == t.behind(c, k) by {
            let r = s.model.queues[c][k];
            assert(s.request(r).callback == s.behind(c, k));
            lemma_member(s, c, k);
        }
    }
    assert(t.waits_match()) by {
        assert forall|c: int, k: int| 0 <= c < p.queues.len() && 0 <= k < p.queues[c].len()
            implies t.wait_matches(c, k, #[trigger] t.model.queues[c][k]) by {
            let r = s.model.queues[c][k];
            assert(s.wait_matches(c, k, r));
            lemma_member(s, c, k);
        }
    }
    assert(t.values_home()) by {
        assert forall|c: int| 0 <= c < t.cowns.len() implies {
            &&& (#[trigger] t.cowns[c]).resource is None ==> t.borrowed(c)
            &&& t.cowns[c].resource is None <==> t.cowns[c].borrow_at is Some
        } by {
            assert(s.cowns[c].resource is None ==> s.borrowed(c));
            if s.cowns[c].resource is None {
                let r = choose|r: ReqId| #[trigger] s.model.queued(r) && s.model.target(r) == c && s.model.stage(
                    r.behavior,
                ) is Running;
                assert(t.model.queued(r));
            }
        }
    }
}

/// A behaviour that has given back all its cowns goes away.
pub proof fn lemma_retire_step<T, F>(s: Memory<T, F>, b: u64)
    requires
        s.inv(),
        s.live(b),
        s.phase(b) == Phase::Release(s.size(b) as usize),
    ensures
        s.model.enabled(Move::Retire(b)),
        s.unwind(b).inv(),
{
    reveal(Memory::inv);
    lemma_live(s, b);
    let m = Move::Retire(b);
    law_inv_kept(s.model, m);
    let t = s.unwind(b);
    assert(t.behaviours.dom() =~= s.behaviours.dom().remove(b));
    assert(t.model.actors.dom() =~= s.model.actors.dom().remove(b));
    assert forall|x: u64| #[trigger] t.live(x) implies s.live(x) && matches_actor(t.behaviours[x], t.model.actors[x]) by {
        assert(s.live(x));
    }
    assert forall|r: ReqId| #[trigger] s.model.queued(r) implies r.behavior != b && t.model.queued(r) && t.request(r)
        == s.request(r) by {
        assert(s.live(r.behavior));
    }
    assert(t.callbacks_match()) by {
        assert forall|c: int, k: int| 0 <= c < t.model.queues.len() && 0 <= k < t.model.queues[c].len() implies t.request(
            #[trigger] t.model.queues[c][k],
        ).callback == t.behind(c, k) by {
            let r = s.model.queues[c][k];
            assert(s.model.queued(r));
            assert(s.request(r).callback == s.behind(c, k));
        }
    }
    assert(t.waits_match()) by {
        assert forall|c: int, k: int| 0 <= c < t.model.queues.len() && 0 <= k < t.model.queues[c].len()
            implies t.wait_matches(c, k, #[trigger] t.model.queues[c][k]) by {
            let r = s.model.queues[c][k];
            assert(s.wait_matches(c, k, r));
            assert(s.model.queued(r));
        }
    }
    assert(t.values_home()) by {
        assert forall|c: int| 0 <= c < t.cowns.len() implies {
            &&& (#[trigger] t.cowns[c]).resource is None ==> t.borrowed(c)
            &&& t.cowns[c].resource is None <==> t.cowns[c].borrow_at is Some
        } by {
            assert(s.cowns[c].resource is None ==> s.borrowed(c));
            if s.cowns[c].resource is None {
                let r = choose|r: ReqId| #[trigger] s.model.queued(r) && s.model.target(r) == c && s.model.stage(
                    r.behavior,
                ) is Running;
                assert(t.model.queued(r));
            }
        }
    }
}

/// A step of scheduling keeps the invariant.
pub proof fn lemma_schedule_step<T, F>(s: Memory<T, F>, b: u64)
    requires
        s.inv(),
        s.scheduling(b),
    ensures
        s.schedule(b).inv(),
{
    lemma_live(s, b);
    match s.phase(b) {
        Phase::Enqueue(i) => {
            if i < s.size(b) {
                lemma_acquire_step(s, b);
            } else {
                lemma_turn_step(s, b);
            }
        },
        Phase::Resolve(i) => lemma_resolve_step(s, b),
        Phase::Wait(i, prev) => {
            if s.passable(prev) {
                lemma_pass_step(s, b);
            }
        },
        Phase::Finish(i) => {
            if i < s.size(b) {
                lemma_finish_step(s, b);
            } else {
                lemma_settle_step(s, b);
            }
        },
        _ => {},
    }
}

/// A step of giving back keeps the invariant.
pub proof fn lemma_unwind_step<T, F>(s: Memory<T, F>, b: u64)
    requires
        s.inv(),
        s.releasing(b),
    ensures
        s.unwind(b).inv(),
{
    lemma_live(s, b);
    match s.phase(b) {
        Phase::Release(i) => {
            if i < s.size(b) {
                lemma_release_step(s, b);
            } else {
                lemma_retire_step(s, b);
            }
        },
        Phase::Notify(i, next) => lemma_notify_step(s, b),
        _ => {},
    }
}

/// The empty memory satisfies the invariant.
pub proof fn lemma_empty<T, F>()
    ensures
        Memory::<T, F>::empty().inv(),
{
    reveal(Memory::inv);
}

/// A new cown keeps the invariant.
pub proof fn lemma_add_cown_step<T, F>(s: Memory<T, F>, value: T)
    requires
        s.inv(),
    ensures
        s.add_cown(value).inv(),
        s.model.enabled(Move::AddCown),
{
    reveal(Memory::inv);
    let t = s.add_cown(value);
    law_inv_kept(s.model, Move::AddCown);
    assert forall|c: int| 0 <= c < t.model.queues.len() implies (#[trigger] t.model.queues[c]).len() == 0 || c
        < s.model.queues.len() && t.model.queues[c] == s.model.queues[c] by {}
    assert forall|x: u64| #[trigger] t.live(x) implies s.live(x) && matches_actor(t.behaviours[x], t.model.actors[x]) by {
        assert(s.live(x));
    }
    assert(t.tails_match()) by {
        assert forall|c: int| 0 <= c < t.cowns.len() implies (#[trigger] t.cowns[c]).last_request == (if t.model.queues[c].len()
            == 0 {
            None
        } else {
            Some(t.model.queues[c].last())
        }) by {
            if c < s.cowns.len() {
                assert(t.cowns[c] == s.cowns[c]);
            }
        }
    }
    assert(t.callbacks_match()) by {
        assert forall|c: int, k: int| 0 <= c < t.model.queues.len() && 0 <= k < t.model.queues[c].len() implies t.request(
            #[trigger] t.model.queues[c][k],
        ).callback == t.behind(c, k) by {
            assert(s.request(s.model.queues[c][k]).callback == s.behind(c, k));
        }
    }
    assert(t.waits_match()) by {
        assert forall|c: int, k: int| 0 <= c < t.model.queues.len() && 0 <= k < t.model.queues[c].len()
            implies t.wait_matches(c, k, #[trigger] t.model.queues[c][k]) by {
            assert(s.wait_matches(c, k, s.model.queues[c][k]));
        }
    }
    assert(t.values_home()) by {
        assert forall|c: int| 0 <= c < t.cowns.len() implies {
            &&& (#[trigger] t.cowns[c]).resource is None ==> t.borrowed(c)
            &&& t.cowns[c].resource is None <==> t.cowns[c].borrow_at is Some
        } by {
            if c < s.cowns.len() {
                assert(t.cowns[c] == s.cowns[c]);
                if s.cowns[c].resource is None {
                    assert(s.borrowed(c));
                    let r = choose|r: ReqId| #[trigger] s.model.queued(r) && s.model.target(r) == c && s.model.stage(
                        r.behavior,
                    ) is Running;
                    assert(t.model.queued(r));
                }
            }
        }
    }
}

/// A behaviour as it is before its first step.
pub open spec fn newborn<F>(v: BehaviourView<F>) -> bool {
    &&& v.routine is Some
    &&& v.requests.len() < usize::MAX
    &&& v.count == v.requests.len() + 1
    &&& v.phase == Phase::Enqueue(0)
    &&& ascending(v.targets())
    &&& forall|i: int| 0 <= i < v.requests.len() ==> #[trigger] v.requests[i] == Request::fresh(
        v.requests[i].resource.cown,
    )
}

/// A new behaviour keeps the invariant.
pub proof fn lemma_enlist_step<T, F>(s: Memory<T, F>, v: BehaviourView<F>)
    requires
        s.inv(),
        s.next_id < u64::MAX,
        newborn(v),
        forall|i: int| 0 <= i < v.requests.len() ==> (#[trigger] v.requests[i]).resource.cown < s.cowns.len(),
    ensures
        s.enlist(v).inv(),
        s.model.enabled(Move::Admit(s.next_id as u64, v.targets())),
        !s.live(s.next_id as u64),
{
    reveal(Memory::inv);
    let b = s.next_id as u64;
    let m = Move::Admit(b, v.targets());
    let t = s.enlist(v);
    assert(!s.live(b));
    assert(!s.model.live(b));
    assert forall|i: int| 0 <= i < v.targets().len() implies #[trigger] v.targets()[i] < s.model.queues.len() by {
        assert(v.requests[i].resource.cown < s.cowns.len());
    }
    law_inv_kept(s.model, m);
    assert(t.behaviours.dom() =~= s.behaviours.dom().insert(b));
    assert(t.model.actors.dom() =~= s.model.actors.dom().insert(b));
    assert forall|x: u64| #[trigger] t.live(x) implies matches_actor(t.behaviours[x], t.model.actors[x]) && x < t.next_id by {
        if x != b {
            assert(s.live(x));
        } else {
            assert forall|i: int| 0 <= i < v.requests.len() implies v.targets()[i] == (#[trigger] v.requests[i]).resource.cown
                && !v.requests[i].scheduled && v.requests[i].callback is None && v.requests[i].state
                == ResourceState::Initial by {}
        }
    }
    assert forall|r: ReqId| #[trigger] s.model.queued(r) implies r.behavior != b && t.model.queued(r) && t.request(r)
        == s.request(r) by {
        assert(s.live(r.behavior));
    }
    assert(t.callbacks_match()) by {
        assert forall|c: int, k: int| 0 <= c < t.model.queues.len() && 0 <= k < t.model.queues[c].len() implies t.request(
            #[trigger] t.model.queues[c][k],
        ).callback == t.behind(c, k) by {
            let r = s.model.queues[c][k];
            assert(s.model.queued(r));
            assert(s.request(r).callback == s.behind(c, k));
        }
    }
    assert(t.waits_match()) by {
        assert forall|c: int, k: int| 0 <= c < t.model.queues.len() && 0 <= k < t.model.queues[c].len()
            implies t.wait_matches(c, k, #[trigger] t.model.queues[c][k]) by {
            let r = s.model.queues[c][k];
            assert(s.wait_matches(c, k, r));
            assert(s.model.queued(r));
        }
    }
    assert(t.values_home()) by {
        assert forall|c: int| 0 <= c < t.cowns.len() implies {
            &&& (#[trigger] t.cowns[c]).resource is None ==> t.borrowed(c)
            &&& t.cowns[c].resource is None <==> t.cowns[c].borrow_at is Some
        } by {
            assert(s.cowns[c].resource is None ==> s.borrowed(c));
            if s.cowns[c].resource is None {
                let r = choose|r: ReqId| #[trigger] s.model.queued(r) && s.model.target(r) == c && s.model.stage(
                    r.behavior,
                ) is Running;
                assert(t.model.queued(r));
            }
        }
    }
}

/// A step that changes the value of one cown, or where it is borrowed, and leaves
/// its queue alone.
pub proof fn lemma_value_step<T, F>(s: Memory<T, F>, r: ReqId, cown: Cown<T>)
    requires
        s.inv(),
        s.is_request(r),
        cown.last_request == s.cowns[s.target(r)].last_request,
        cown.resource is None <==> cown.borrow_at is Some,
        cown.resource is None ==> s.phase(r.behavior) is Running,
    ensures
        s.with_cown(s.target(r), cown).inv(),
{
    lemma_live(s, r.behavior);
    if cown.resource is None {
        assert(s.model.queued(r));
        assert(s.borrowed(s.target(r)));
    }
    lemma_value_at(s, s.target(r), cown);
}

/// A value may be put into any cown, and taken out of one whose holder runs.
proof fn lemma_value_at<T, F>(s: Memory<T, F>, c0: int, cown: Cown<T>)
    requires
        s.inv(),
        0 <= c0 < s.cowns.len(),
        cown.last_request == s.cowns[c0].last_request,
        cown.resource is None <==> cown.borrow_at is Some,
        cown.resource is None ==> s.borrowed(c0),
    ensures
        s.with_cown(c0, cown).inv(),
{
    reveal(Memory::inv);
    let t = s.with_cown(c0, cown);
    assert(t.callbacks_match()) by {
        assert forall|c: int, k: int| 0 <= c < t.model.queues.len() && 0 <= k < t.model.queues[c].len() implies t.request(
            #[trigger] t.model.queues[c][k],
        ).callback == t.behind(c, k) by {
            assert(s.request(s.model.queues[c][k]).callback == s.behind(c, k));
        }
    }
    assert forall|x: u64| #[trigger] t.live(x) implies matches_actor(t.behaviours[x], t.model.actors[x]) && x < t.next_id by {
        assert(s.live(x));
    }
    assert(t.tails_match()) by {
        assert forall|c: int| 0 <= c < t.cowns.len() implies (#[trigger] t.cowns[c]).last_request == (if t.model.queues[c].len()
            == 0 {
            None
        } else {
            Some(t.model.queues[c].last())
        }) by {
            assert(t.cowns[c].last_request == s.cowns[c].last_request);
        }
    }
    assert(t.waits_match()) by {
        assert forall|c: int, k: int| 0 <= c < t.model.queues.len() && 0 <= k < t.model.queues[c].len()
            implies t.wait_matches(c, k, #[trigger] t.model.queues[c][k]) by {
            assert(s.wait_matches(c, k, s.model.queues[c][k]));
        }
    }
    assert(t.values_home()) by {
        assert forall|c: int| 0 <= c < t.cowns.len() implies {
            &&& (#[trigger] t.cowns[c]).resource is None ==> t.borrowed(c)
            &&& t.cowns[c].resource is None <==> t.cowns[c].borrow_at is Some
        } by {
            assert(c != c0 ==> t.cowns[c] == s.cowns[c]);
            if t.cowns[c].resource is None {
                assert(s.borrowed(c));
                let x = choose|x: ReqId| #[trigger] s.model.queued(x) && s.model.target(x) == c && s.model.stage(
                    x.behavior,
                ) is Running;
                assert(t.model.queued(x));
            }
        }
    }
}

/// The value of a cown that nobody asks for is in the cown, and may be replaced.
pub proof fn lemma_reclaim_step<T, F>(s: Memory<T, F>, c: int, value: T)
    requires
        s.inv(),
        0 <= c < s.cowns.len(),
        s.cowns[c].last_request is None,
    ensures
        s.cowns[c].resource is Some,
        s.cowns[c].borrow_at is None,
        s.with_value(c, value).inv(),
{
    lemma_value_at(s, c, Cown { borrow_at: None, resource: Some(value), ..s.cowns[c] });
    reveal(Memory::inv);
    assert(s.cowns[c].resource is None ==> s.borrowed(c));
    if s.cowns[c].resource is None {
        let x = choose|x: ReqId| #[trigger] s.model.queued(x) && s.model.target(x) == c && s.model.stage(x.behavior)
            is Running;
        assert(s.model.queues[s.model.target(x)].contains(x));
    }
}

} // verus!
