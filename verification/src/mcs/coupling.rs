//! How the memory of the lock-free discipline stands for a state of the
//! protocol, and why every step keeps it so.
use crate::mcs::memory::{BehaviorView, Memory, Phase};
use crate::mcs::request::Request;
use crate::moves::{
    law_inv_kept, lemma_below_len, lemma_owned_len, lemma_place, lemma_same_place, Move,
};
use crate::protocol::{ascending, Actor, Protocol, ReqId, Stage};
use vstd::prelude::*;

verus! {

/// A behaviour whose next step is `phase` is at `stage` of the protocol.
pub open spec fn stands_for(phase: Phase, stage: Stage) -> bool {
    match phase {
        Phase::Enqueue(i) => stage == Stage::Enqueue(i as int),
        Phase::Resolve(i) => stage == Stage::Resolve(i as int),
        Phase::Wait(i, _) => stage == Stage::Wait(i as int),
        Phase::Link(i, _) => stage == Stage::Wait(i as int),
        Phase::Finish(i) => stage == Stage::Finish(i as int),
        Phase::Pending => stage == Stage::Pending,
        Phase::Ready => stage == Stage::Ready,
        Phase::Running => stage == Stage::Running,
        Phase::Release(i) => stage == Stage::Release(i as int),
        Phase::Exchange(i) => stage == Stage::Release(i as int),
        Phase::Spin(i) => stage == Stage::Release(i as int),
        Phase::Notify(i, next) => stage is Notify && stage->Notify_0 == i && stage->Notify_1.behavior == next,
        Phase::Clear(i) => stage == Stage::Release(i + 1),
    }
}

/// The routine has been started.
pub open spec fn started(stage: Stage) -> bool {
    stage is Running || stage is Release || stage is Notify
}

/// The words of a behaviour are those of the actor `a`.
pub open spec fn matches_actor<F>(v: BehaviorView<F>, a: Actor) -> bool {
    &&& v.requests.len() == a.targets.len()
    &&& forall|i: int| 0 <= i < a.targets.len() ==> {
        &&& (#[trigger] v.requests[i]).target.inner == a.targets[i]
        &&& v.requests[i].scheduled == a.stage.scheduled(i)
        &&& !a.stage.entered(i) ==> v.requests[i].next is None
    }
    &&& v.count == a.count
    &&& stands_for(v.phase, a.stage)
    &&& match v.phase {
        Phase::Exchange(i) => i < v.requests.len(),
        Phase::Spin(i) => i < v.requests.len(),
        _ => true,
    }
    &&& v.routine is Some <==> !started(a.stage)
}

impl<T, F> Memory<T, F> {
    pub open spec fn names_match(self) -> bool {
        &&& self.cowns.len() == self.model.queues.len()
        &&& self.behaviors.dom() == self.model.actors.dom()
        &&& 0 <= self.next_id <= u64::MAX
        &&& forall|b: u64| #[trigger] self.live(b) ==> b < self.next_id
    }

    pub open spec fn behaviors_match(self) -> bool {
        forall|b: u64| #[trigger] self.live(b) ==> matches_actor(self.behaviors[b], self.model.actors[b])
    }

    /// The tail of a cown is the last request of its queue.
    pub open spec fn tails_match(self) -> bool {
        forall|c: int| 0 <= c < self.cowns.len() ==> (#[trigger] self.cowns[c]).last == (if self.model.queues[c].len()
            == 0 {
            None
        } else {
            Some(self.model.queues[c].last())
        })
    }

    /// A request points to the behaviour behind it as soon as that one has
    /// passed it, and to nobody before.
    pub open spec fn links_match(self) -> bool {
        forall|c: int, k: int| 0 <= c < self.model.queues.len() && 0 <= k < self.model.queues[c].len() ==> self.request(
            #[trigger] self.model.queues[c][k],
        ).next == self.link(c, k)
    }

    pub open spec fn link(self, c: int, k: int) -> Option<u64> {
        let q = self.model.queues[c];
        if k + 1 < q.len() && !self.model.waiting(q[k + 1]) {
            Some(q[k + 1].behavior)
        } else {
            None
        }
    }

    /// A scheduler that waits behind a request knows which one that is, and one
    /// that is about to link has seen it scheduled.
    pub open spec fn waits_match(self) -> bool {
        forall|c: int, k: int| 0 <= c < self.model.queues.len() && 0 <= k < self.model.queues[c].len() ==> {
            let r = #[trigger] self.model.queues[c][k];
            match self.phase(r.behavior) {
                Phase::Wait(i, prev) => i == r.index ==> k > 0 && self.model.queues[c][k - 1] == prev,
                Phase::Link(i, prev) => i == r.index ==> k > 0 && self.model.queues[c][k - 1] == prev
                    && self.model.scheduled(prev),
                _ => true,
            }
        }
    }

    /// Whoever waits for a successor has one.
    pub open spec fn spins_match(self) -> bool {
        forall|c: int| 0 <= c < self.model.queues.len() && (#[trigger] self.model.queues[c]).len() > 0 ==> {
            let r = self.model.queues[c][0];
            self.phase(r.behavior) == Phase::Spin(r.index) ==> self.model.queues[c].len() > 1
        }
    }

    /// Somebody who holds the cown `c` is running.
    pub open spec fn borrowed(self, c: int) -> bool {
        exists|r: ReqId| #[trigger] self.model.queued(r) && self.model.target(r) == c && self.model.stage(r.behavior)
            is Running
    }

    /// A value is away from its cown only while its holder runs.
    pub open spec fn values_home(self) -> bool {
        forall|c: int| 0 <= c < self.cowns.len() && (#[trigger] self.cowns[c]).resource is None ==> self.borrowed(c)
    }

    /// The invariant of the memory.
    #[verifier::opaque]
    pub open spec fn inv(self) -> bool {
        &&& self.model.inv()
        &&& self.names_match()
        &&& self.behaviors_match()
        &&& self.tails_match()
        &&& self.links_match()
        &&& self.waits_match()
        &&& self.spins_match()
        &&& self.values_home()
    }
}

/// The words of a behaviour that is alive.
pub proof fn lemma_live<T, F>(s: Memory<T, F>, b: u64)
    requires
        s.inv(),
        s.live(b),
    ensures
        b < s.next_id,
        s.model.live(b),
        s.model.actors[b].wf(),
        matches_actor(s.behaviors[b], s.model.actors[b]),
        s.behaviors[b].targets() == s.model.actors[b].targets,
        forall|r: ReqId| #[trigger] s.is_request(r) && r.behavior == b ==> {
            &&& s.model.is_request(r)
            &&& s.target(r) == s.model.target(r)
            &&& 0 <= s.target(r) < s.cowns.len()
        },
{
    reveal(Memory::inv);
    assert(s.model.live(b));
    assert(s.behaviors[b].targets() =~= s.model.actors[b].targets);
    assert forall|r: ReqId| #[trigger] s.is_request(r) && r.behavior == b implies {
        &&& s.model.is_request(r)
        &&& s.target(r) == s.model.target(r)
        &&& 0 <= s.target(r) < s.cowns.len()
    } by {
        assert(s.model.is_request(r));
    }
}

/// A step after which the memory stands for the same state of the protocol.
pub proof fn lemma_phase_inv<T, F>(s: Memory<T, F>, b: u64, phase: Phase)
    requires
        s.inv(),
        s.live(b),
        stands_for(phase, s.model.stage(b)),
        match phase {
            Phase::Exchange(i) => i < s.size(b),
            Phase::Spin(i) => i < s.size(b) && s.model.queues[s.target(s.current(b))].len() > 1,
            Phase::Link(i, prev) => s.phase(b) == Phase::Wait(i, prev) && s.request(prev).scheduled,
            Phase::Wait(_, _) => false,
            _ => true,
        },
        phase is Spin ==> s.phase(b) is Exchange,
    ensures
        s.with_phase(b, phase).inv(),
{
    reveal(Memory::inv);
    let t = s.with_phase(b, phase);
    lemma_live(s, b);
    assert(t.behaviors.dom() =~= s.behaviors.dom());
    assert forall|x: u64| #[trigger] t.live(x) implies s.live(x) && matches_actor(t.behaviors[x], t.model.actors[x]) by {
        assert(s.live(x));
    }
    assert forall|c: int, k: int| 0 <= c < t.model.queues.len() && 0 <= k < t.model.queues[c].len() implies t.request(
        #[trigger] t.model.queues[c][k],
    ).next == t.link(c, k) by {
        assert(s.request(s.model.queues[c][k]).next == s.link(c, k));
    }
    assert(t.waits_match()) by {
        assert forall|c: int, k: int| 0 <= c < t.model.queues.len() && 0 <= k < t.model.queues[c].len() implies {
            let r = #[trigger] t.model.queues[c][k];
            match t.phase(r.behavior) {
                Phase::Wait(i, prev) => i == r.index ==> k > 0 && t.model.queues[c][k - 1] == prev,
                Phase::Link(i, prev) => i == r.index ==> k > 0 && t.model.queues[c][k - 1] == prev
                    && t.model.scheduled(prev),
                _ => true,
            }
        } by {
            let r = s.model.queues[c][k];
            if r.behavior == b && k > 0 {
                let p = s.model.queues[c][k - 1];
                assert(s.model.queued(p));
                assert(s.model.is_request(p));
                assert(s.live(p.behavior));
            }
        }
    }
    assert(t.spins_match()) by {
        assert forall|c: int| 0 <= c < t.model.queues.len() && (#[trigger] t.model.queues[c]).len() > 0 implies {
            let r = t.model.queues[c][0];
            t.phase(r.behavior) == Phase::Spin(r.index) ==> t.model.queues[c].len() > 1
        } by {
            let r = s.model.queues[c][0];
            assert(s.model.queued(r));
            assert(s.model.is_request(r));
        }
    }
    assert(t.values_home()) by {
        assert forall|c: int| 0 <= c < t.cowns.len() && (#[trigger] t.cowns[c]).resource is None implies t.borrowed(c) by {
            assert(s.borrowed(c));
        }
    }
}

/// A step of `b` alone that touches neither queues nor links.
proof fn lemma_own_step_inv<T, F>(s: Memory<T, F>, b: u64, v: BehaviorView<F>, p: Protocol)
    requires
        s.inv(),
        s.live(b),
        p.inv(),
        p.queues == s.model.queues,
        p.actors == s.model.actors.insert(b, p.actors[b]),
        p.actors[b].targets == s.model.actors[b].targets,
        forall|i: int| #[trigger] s.model.stage(b).scheduled(i) ==> p.stage(b).scheduled(i),
        matches_actor(v, p.actors[b]),
        forall|i: int| 0 <= i < s.size(b) ==> (#[trigger] v.requests[i]).next == s.behaviors[b].requests[i].next,
        !(s.model.stage(b) is Wait),
        !(v.phase is Wait),
        !(v.phase is Link),
        !(v.phase is Spin),
        s.model.stage(b) is Running ==> forall|r: ReqId| #[trigger] s.is_request(r) && r.behavior == b
            ==> s.cowns[s.target(r)].resource is Some,
    ensures
        s.with_behavior(b, v).with_model(p).inv(),
{
    reveal(Memory::inv);
    let t = s.with_behavior(b, v).with_model(p);
    lemma_live(s, b);
    assert(t.behaviors.dom() =~= s.behaviors.dom());
    assert(t.model.actors.dom() =~= s.model.actors.dom());
    assert forall|x: u64| #[trigger] t.live(x) implies s.live(x) && matches_actor(t.behaviors[x], t.model.actors[x]) by {
        assert(s.live(x));
    }
    assert forall|r: ReqId| #[trigger] t.model.waiting(r) == s.model.waiting(r) by {}
    assert forall|c: int, k: int| 0 <= c < t.model.queues.len() && 0 <= k < t.model.queues[c].len() implies t.request(
        #[trigger] t.model.queues[c][k],
    ).next == t.link(c, k) by {
        let r = s.model.queues[c][k];
        assert(s.request(r).next == s.link(c, k));
        assert(s.model.queued(r) && s.model.is_request(r));
        assert(t.link(c, k) == s.link(c, k));
    }
    assert(t.waits_match()) by {
        assert forall|c: int, k: int| 0 <= c < t.model.queues.len() && 0 <= k < t.model.queues[c].len() implies {
            let r = #[trigger] t.model.queues[c][k];
            match t.phase(r.behavior) {
                Phase::Wait(i, prev) => i == r.index ==> k > 0 && t.model.queues[c][k - 1] == prev,
                Phase::Link(i, prev) => i == r.index ==> k > 0 && t.model.queues[c][k - 1] == prev
                    && t.model.scheduled(prev),
                _ => true,
            }
        } by {
            let r = s.model.queues[c][k];
            assert(s.model.queued(r));
        }
    }
    assert(t.spins_match()) by {
        assert forall|c: int| 0 <= c < t.model.queues.len() && (#[trigger] t.model.queues[c]).len() > 0 implies {
            let r = t.model.queues[c][0];
            t.phase(r.behavior) == Phase::Spin(r.index) ==> t.model.queues[c].len() > 1
        } by {}
    }
    assert(t.values_home()) by {
        assert forall|c: int| 0 <= c < t.cowns.len() && (#[trigger] t.cowns[c]).resource is None implies t.borrowed(c) by {
            assert(s.borrowed(c));
            let r = choose|r: ReqId| #[trigger] s.model.queued(r) && s.model.target(r) == c && s.model.stage(r.behavior)
                is Running;
            assert(s.live(r.behavior));
            lemma_live(s, r.behavior);
            assert(s.is_request(r));
            assert(r.behavior != b);
            assert(t.model.queued(r));
        }
    }
}

/// What is known of a behaviour that is being scheduled.
pub proof fn lemma_resolve_step<T, F>(s: Memory<T, F>, b: u64)
    requires
        s.inv(),
        s.live(b),
        s.phase(b) is Resolve,
    ensures
        s.model.enabled(Move::Resolve(b)),
        s.behaviors[b].count >= 2,
        s.schedule(b).inv(),
{
    reveal(Memory::inv);
    lemma_live(s, b);
    let i = s.phase(b)->Resolve_0;
    let a = s.model.actors[b];
    lemma_owned_len(a, i);
    let m = Move::Resolve(b);
    law_inv_kept(s.model, m);
    let p = s.model.apply(m);
    let t = s.schedule(b);
    assert(t.behaviors =~= s.behaviors.insert(b, t.behaviors[b]));
    assert(p.stage(b) == Stage::Enqueue(i + 1));
    lemma_own_step_inv(s, b, t.behaviors[b], p);
}

pub proof fn lemma_turn_step<T, F>(s: Memory<T, F>, b: u64)
    requires
        s.inv(),
        s.live(b),
        s.phase(b) == Phase::Enqueue(s.size(b) as usize),
    ensures
        s.model.enabled(Move::Turn(b)),
        s.schedule(b).inv(),
{
    reveal(Memory::inv);
    lemma_live(s, b);
    let m = Move::Turn(b);
    law_inv_kept(s.model, m);
    let p = s.model.apply(m);
    let t = s.schedule(b);
    assert(t.behaviors =~= s.behaviors.insert(b, t.behaviors[b]));
    lemma_own_step_inv(s, b, t.behaviors[b], p);
}

pub proof fn lemma_finish_step<T, F>(s: Memory<T, F>, b: u64)
    requires
        s.inv(),
        s.live(b),
        s.phase(b) is Finish,
        s.phase(b)->Finish_0 < s.size(b),
    ensures
        s.model.enabled(Move::Finish(b)),
        s.schedule(b).inv(),
{
    reveal(Memory::inv);
    lemma_live(s, b);
    let m = Move::Finish(b);
    law_inv_kept(s.model, m);
    let p = s.model.apply(m);
    let t = s.schedule(b);
    let i = s.phase(b)->Finish_0;
    assert(t.behaviors =~= s.behaviors.insert(b, t.behaviors[b]));
    lemma_own_step_inv(s, b, t.behaviors[b], p);
}

pub proof fn lemma_settle_step<T, F>(s: Memory<T, F>, b: u64)
    requires
        s.inv(),
        s.live(b),
        s.phase(b) == Phase::Finish(s.size(b) as usize),
    ensures
        s.model.enabled(Move::Settle(b)),
        s.behaviors[b].count >= 1,
        s.schedule(b).inv(),
{
    reveal(Memory::inv);
    lemma_live(s, b);
    let m = Move::Settle(b);
    law_inv_kept(s.model, m);
    let p = s.model.apply(m);
    let t = s.schedule(b);
    let a = s.model.actors[b];
    lemma_below_len(a.owned, a.targets.len());
    assert(t.behaviors =~= s.behaviors.insert(b, t.behaviors[b]));
    lemma_own_step_inv(s, b, t.behaviors[b], p);
}

/// Starting a routine keeps the invariant.
pub proof fn lemma_run_step<T, F>(s: Memory<T, F>, b: u64)
    requires
        s.inv(),
        s.live(b),
        s.phase(b) is Ready,
    ensures
        s.model.enabled(Move::Begin(b)),
        s.behaviors[b].routine is Some,
        s.run(b).inv(),
{
    reveal(Memory::inv);
    lemma_live(s, b);
    let m = Move::Begin(b);
    law_inv_kept(s.model, m);
    lemma_own_step_inv(s, b, s.run(b).behaviors[b], s.model.apply(m));
}

/// Ending a routine, with all values back in their cowns, keeps the invariant.
pub proof fn lemma_complete_step<T, F>(s: Memory<T, F>, b: u64)
    requires
        s.inv(),
        s.live(b),
        s.phase(b) is Running,
        forall|r: ReqId| #[trigger] s.is_request(r) && r.behavior == b ==> s.cowns[s.target(r)].resource is Some,
    ensures
        s.model.enabled(Move::Complete(b)),
        s.complete(b).inv(),
{
    reveal(Memory::inv);
    lemma_live(s, b);
    let m = Move::Complete(b);
    law_inv_kept(s.model, m);
    lemma_own_step_inv(s, b, s.complete(b).behaviors[b], s.model.apply(m));
}

/// The swap.
#[verifier::spinoff_prover]
#[verifier::rlimit(40)]
pub proof fn lemma_swap_step<T, F>(s: Memory<T, F>, b: u64)
    requires
        s.inv(),
        s.live(b),
        s.phase(b) is Enqueue,
        s.phase(b)->Enqueue_0 < s.size(b),
    ensures
        s.model.enabled(Move::Enqueue(b)),
        s.schedule(b).inv(),
{
    reveal(Memory::inv);
    lemma_live(s, b);
    let i = s.phase(b)->Enqueue_0;
    let n = ReqId { behavior: b, index: i };
    let m = Move::Enqueue(b);
    law_inv_kept(s.model, m);
    let t = s.schedule(b);
    assert(s.is_request(n));
    let c0 = s.target(n);
    let q0 = s.model.queues[c0];
    assert(t.behaviors =~= s.behaviors.insert(b, t.behaviors[b]));
    assert(t.behaviors.dom() =~= s.behaviors.dom());
    assert(t.model.actors.dom() =~= s.model.actors.dom());
    assert(t.model.queues[c0] == q0.push(n));
    assert forall|c: int| 0 <= c < s.model.queues.len() && c != c0 implies #[trigger] t.model.queues[c] == s.model.queues[c] by {}
    assert forall|x: u64| #[trigger] t.live(x) implies s.live(x) && matches_actor(t.behaviors[x], t.model.actors[x]) by {
        assert(s.live(x));
    }
    assert(t.tails_match());
    assert forall|r: ReqId| #[trigger] s.model.queued(r) implies t.model.waiting(r) == s.model.waiting(r) && r != n
        && s.model.is_request(r) && t.request(r) == s.request(r) by {}
    assert(t.links_match()) by {
        assert forall|c: int, k: int| 0 <= c < t.model.queues.len() && 0 <= k < t.model.queues[c].len() implies t.request(
            #[trigger] t.model.queues[c][k],
        ).next == t.link(c, k) by {
            if c == c0 && k == q0.len() {
                assert(t.request(n).next is None);
            } else {
                let r = s.model.queues[c][k];
                assert(t.model.queues[c][k] == r);
                assert(s.model.queued(r));
                assert(s.request(r).next == s.link(c, k));
                if k + 1 < t.model.queues[c].len() {
                    let y = t.model.queues[c][k + 1];
                    if c == c0 && k + 1 == q0.len() {
                        assert(y == n);
                        assert(t.model.waiting(n));
                    } else {
                        assert(y == s.model.queues[c][k + 1]);
                        assert(s.model.queued(y));
                    }
                }
            }
        }
    }
    assert(t.waits_match()) by {
        assert forall|c: int, k: int| 0 <= c < t.model.queues.len() && 0 <= k < t.model.queues[c].len() implies {
            let r = #[trigger] t.model.queues[c][k];
            match t.phase(r.behavior) {
                Phase::Wait(i, prev) => i == r.index ==> k > 0 && t.model.queues[c][k - 1] == prev,
                Phase::Link(i, prev) => i == r.index ==> k > 0 && t.model.queues[c][k - 1] == prev
                    && t.model.scheduled(prev),
                _ => true,
            }
        } by {
            if c == c0 && k == q0.len() {
                if k > 0 {
                    assert(t.model.queues[c][k - 1] == q0[k - 1]);
                }
            } else {
                let r = s.model.queues[c][k];
                assert(t.model.queues[c][k] == r);
                assert(s.model.queued(r));
                if k > 0 {
                    assert(t.model.queues[c][k - 1] == s.model.queues[c][k - 1]);
                }
            }
        }
    }
    assert(t.spins_match()) by {
        assert forall|c: int| 0 <= c < t.model.queues.len() && (#[trigger] t.model.queues[c]).len() > 0 implies {
            let r = t.model.queues[c][0];
            t.phase(r.behavior) == Phase::Spin(r.index) ==> t.model.queues[c].len() > 1
        } by {
            if s.model.queues[c].len() > 0 {
                assert(t.model.queues[c][0] == s.model.queues[c][0]);
                assert(s.model.queued(s.model.queues[c][0]));
            }
        }
    }
    assert(t.values_home()) by {
        assert forall|c: int| 0 <= c < t.cowns.len() && (#[trigger] t.cowns[c]).resource is None implies t.borrowed(c) by {
            assert(s.cowns[c].resource is None);
            assert(s.borrowed(c));
            let r = choose|r: ReqId| #[trigger] s.model.queued(r) && s.model.target(r) == c && s.model.stage(r.behavior)
                is Running;
            assert(t.model.queued(r));
        }
    }
}

/// The link to the request in front.
pub proof fn lemma_link_step<T, F>(s: Memory<T, F>, b: u64)
    requires
        s.inv(),
        s.live(b),
        s.phase(b) is Link,
    ensures
        s.model.enabled(Move::Pass(b)),
        s.is_request(s.phase(b)->Link_1),
        s.request(s.phase(b)->Link_1).next is None,
        s.schedule(b).inv(),
{
    lemma_live(s, b);
    let i = s.phase(b)->Link_0;
    let prev = s.phase(b)->Link_1;
    let n = ReqId { behavior: b, index: i };
    assert(s.is_request(n));
    assert(s.model.queued(n));
    lemma_model(s);
    let k0 = lemma_place(s.model, n);
    let c0 = s.model.target(n);
    assert(k0 > 0 && s.model.queues[c0][k0 - 1] == prev && s.request(prev).next is None) by {
        reveal(Memory::inv);
        assert(s.model.queues[c0][k0] == n);
        assert(s.model.queues[c0][k0 - 1] == prev);
        assert(s.model.scheduled(prev));
        assert(s.model.queued(prev));
        assert(s.model.waiting(n));
        assert(s.request(prev).next == s.link(c0, k0 - 1));
    }
    lemma_wait_known(s, b);
    let m = Move::Pass(b);
    assert(s.model.may_pass(n)) by {
        reveal(Memory::inv);
        assert(s.model.queues[c0][k0] == n);
        assert(s.model.scheduled(prev));
    }
    law_inv_kept(s.model, m);
    lemma_link_inv(s, b, c0, k0, s.model.apply(m));
    assert(s.schedule(b) == s.with_next(prev, Some(b)).with_phase(b, Phase::Enqueue((i + 1) as usize)).with_model(
        s.model.apply(m),
    ));
}

/// The memory after the link stands for the state `p` of the protocol.
#[verifier::spinoff_prover]
proof fn lemma_link_inv<T, F>(s: Memory<T, F>, b: u64, c0: int, k0: int, p: Protocol)
    requires
        s.inv(),
        s.live(b),
        s.phase(b) is Link,
        0 <= c0 < s.model.queues.len(),
        0 < k0 < s.model.queues[c0].len(),
        s.model.queues[c0][k0] == (ReqId { behavior: b, index: s.phase(b)->Link_0 }),
        s.model.queues[c0][k0 - 1] == s.phase(b)->Link_1,
        p.inv(),
        p.queues == s.model.queues,
        p.actors == s.model.actors.insert(b, s.model.actors[b].at(Stage::Enqueue(s.phase(b)->Link_0 + 1))),
    ensures
        s.with_next(s.phase(b)->Link_1, Some(b)).with_phase(
            b,
            Phase::Enqueue((s.phase(b)->Link_0 + 1) as usize),
        ).with_model(p).inv(),
{
    reveal(Memory::inv);
    lemma_live(s, b);
    let i = s.phase(b)->Link_0;
    let prev = s.phase(b)->Link_1;
    let n = ReqId { behavior: b, index: i };
    let t = s.with_next(prev, Some(b)).with_phase(b, Phase::Enqueue((i + 1) as usize)).with_model(p);
    assert(s.model.queued(prev) && s.model.is_request(prev));
    assert(s.live(prev.behavior));
    lemma_live(s, prev.behavior);
    assert(t.behaviors.dom() =~= s.behaviors.dom());
    assert(t.model.actors.dom() =~= s.model.actors.dom());
    assert(t.behaviors_match()) by {
        assert forall|x: u64| #[trigger] t.live(x) implies matches_actor(t.behaviors[x], t.model.actors[x]) by {
            assert(s.live(x));
            assert(matches_actor(s.behaviors[x], s.model.actors[x]));
        }
    }
    assert forall|x: u64| #[trigger] t.live(x) implies x < t.next_id by {
        assert(s.live(x));
    }
    assert forall|r: ReqId| #[trigger] s.model.queued(r) implies s.model.is_request(r) && t.model.waiting(r) == (
    s.model.waiting(r) && r != n) && (r != prev ==> t.request(r).next == s.request(r).next) by {
        assert(s.live(r.behavior));
        assert(matches_actor(s.behaviors[r.behavior], s.model.actors[r.behavior]));
    }
    assert(t.request(prev).next == Some(b));
    assert(t.links_match()) by {
        assert forall|c: int, k: int| 0 <= c < t.model.queues.len() && 0 <= k < t.model.queues[c].len() implies t.request(
            #[trigger] t.model.queues[c][k],
        ).next == t.link(c, k) by {
            let r = s.model.queues[c][k];
            assert(s.model.queued(r));
            assert(s.request(r).next == s.link(c, k));
            if k + 1 < s.model.queues[c].len() {
                let y = s.model.queues[c][k + 1];
                assert(s.model.queued(y));
                if y == n {
                    lemma_same_place(s.model, c, k + 1, c0, k0);
                }
            }
            if r == prev {
                lemma_same_place(s.model, c, k, c0, k0 - 1);
            }
        }
    }
    assert(t.waits_match()) by {
        assert forall|c: int, k: int| 0 <= c < t.model.queues.len() && 0 <= k < t.model.queues[c].len() implies {
            let r = #[trigger] t.model.queues[c][k];
            match t.phase(r.behavior) {
                Phase::Wait(i, prev) => i == r.index ==> k > 0 && t.model.queues[c][k - 1] == prev,
                Phase::Link(i, prev) => i == r.index ==> k > 0 && t.model.queues[c][k - 1] == prev
                    && t.model.scheduled(prev),
                _ => true,
            }
        } by {
            let r = s.model.queues[c][k];
            assert(s.model.queued(r));
        }
    }
    assert(t.spins_match()) by {
        assert forall|c: int| 0 <= c < t.model.queues.len() && (#[trigger] t.model.queues[c]).len() > 0 implies {
            let r = t.model.queues[c][0];
            t.phase(r.behavior) == Phase::Spin(r.index) ==> t.model.queues[c].len() > 1
        } by {
            assert(s.model.queued(s.model.queues[c][0]));
        }
    }
    assert(t.values_home()) by {
        assert forall|c: int| 0 <= c < t.cowns.len() && (#[trigger] t.cowns[c]).resource is None implies t.borrowed(c) by {
            assert(s.borrowed(c));
            let r = choose|r: ReqId| #[trigger] s.model.queued(r) && s.model.target(r) == c && s.model.stage(r.behavior)
                is Running;
            assert(t.model.queued(r));
        }
    }
}

/// The memory stands for a state in which the protocol's own invariant holds.
pub proof fn lemma_model<T, F>(s: Memory<T, F>)
    requires
        s.inv(),
    ensures
        s.model.inv(),
        s.cowns.len() == s.model.queues.len(),
        s.behaviors.dom() == s.model.actors.dom(),
        0 <= s.next_id <= u64::MAX,
        !s.live(s.next_id as u64) || s.next_id == u64::MAX,
{
    reveal(Memory::inv);
}

/// A step of scheduling keeps the invariant, and is a move of the protocol or
/// none.
pub proof fn lemma_schedule_step<T, F>(s: Memory<T, F>, b: u64)
    requires
        s.inv(),
        s.scheduling(b),
    ensures
        s.schedule(b).inv(),
        s.schedule(b).model == s.model || s.model.next(s.schedule(b).model),
{
    reveal(Memory::inv);
    lemma_live(s, b);
    match s.phase(b) {
        Phase::Enqueue(i) => {
            if i < s.size(b) {
                lemma_swap_step(s, b);
                assert(s.model.enabled(Move::Enqueue(b)));
            } else {
                lemma_turn_step(s, b);
                assert(s.model.enabled(Move::Turn(b)));
            }
        },
        Phase::Resolve(i) => {
            lemma_resolve_step(s, b);
            assert(s.model.enabled(Move::Resolve(b)));
        },
        Phase::Wait(i, prev) => {
            lemma_wait_known(s, b);
            if s.request(prev).scheduled {
                lemma_phase_inv(s, b, Phase::Link(i, prev));
            }
        },
        Phase::Link(i, prev) => {
            lemma_link_step(s, b);
            assert(s.model.enabled(Move::Pass(b)));
        },
        Phase::Finish(i) => {
            if i < s.size(b) {
                lemma_finish_step(s, b);
                assert(s.model.enabled(Move::Finish(b)));
            } else {
                lemma_settle_step(s, b);
                assert(s.model.enabled(Move::Settle(b)));
            }
        },
        _ => {},
    }
}

/// The request behind which `b` waits is there.
pub proof fn lemma_wait_known<T, F>(s: Memory<T, F>, b: u64)
    requires
        s.inv(),
        s.live(b),
        s.phase(b) is Wait || s.phase(b) is Link,
    ensures
        ({
            let prev = if s.phase(b) is Wait { s.phase(b)->Wait_1 } else { s.phase(b)->Link_1 };
            &&& s.is_request(prev)
            &&& s.model.queued(prev)
            &&& s.target(prev) == s.target(s.current(b))
            &&& s.request(prev).scheduled == s.model.scheduled(prev)
        }),
{
    reveal(Memory::inv);
    lemma_live(s, b);
    let prev = if s.phase(b) is Wait { s.phase(b)->Wait_1 } else { s.phase(b)->Link_1 };
    let n = s.current(b);
    assert(s.is_request(n));
    assert(s.model.queued(n));
    let k = lemma_place(s.model, n);
    let c = s.model.target(n);
    assert(s.model.queues[c][k] == n);
    assert(s.model.queues[c][k - 1] == prev);
    assert(s.model.queued(prev) && s.model.is_request(prev));
    assert(s.live(prev.behavior));
    lemma_live(s, prev.behavior);
    assert(s.is_request(prev));
}

/// What is known of a behaviour that is giving back a cown: it stands first,
/// and its link says who stands behind it.
pub proof fn lemma_releasing_known<T, F>(s: Memory<T, F>, b: u64)
    requires
        s.inv(),
        s.live(b),
        s.model.stage(b) == Stage::Release(s.current(b).index as int),
        s.current(b).index < s.size(b),
    ensures
        ({
            let r = s.current(b);
            let q = s.model.queues[s.target(r)];
            &&& s.is_request(r)
            &&& s.model.is_request(r)
            &&& s.target(r) == s.model.target(r)
            &&& 0 <= s.target(r) < s.cowns.len()
            &&& q.len() > 0
            &&& q[0] == r
            &&& s.request(r).next == s.link(s.target(r), 0)
            &&& s.cowns[s.target(r)].last == Some(q.last())
            &&& q.len() > 1 ==> q.last() != r
            &&& s.model.enabled(Move::Release(b))
        }),
{
    reveal(Memory::inv);
    lemma_live(s, b);
    let r = s.current(b);
    assert(s.is_request(r));
    assert(s.model.queued(r));
    lemma_owned_len(s.model.actors[b], r.index);
    assert(s.model.owned(r));
    let c = s.target(r);
    assert(s.model.heads(c, r));
    assert(s.request(s.model.queues[c][0]).next == s.link(c, 0));
    assert(s.cowns[c].last == Some(s.model.queues[c].last()));
    if s.model.queues[c].len() > 1 {
        assert(s.model.queues[c][0] != s.model.queues[c][s.model.queues[c].len() - 1]);
    }
}

/// The cown of the current request leaves `b`: either nobody stands behind it,
/// and its tail is emptied, or the one behind it is linked and comes next.
#[verifier::spinoff_prover]
#[verifier::rlimit(40)]
pub proof fn lemma_hand_over_inv<T, F>(s: Memory<T, F>, b: u64, t: Memory<T, F>)
    requires
        s.inv(),
        s.live(b),
        s.model.stage(b) == Stage::Release(s.current(b).index as int),
        s.current(b).index < s.size(b),
        s.phase(b) is Release || s.phase(b) is Exchange || s.phase(b) is Spin,
        ({
            let r = s.current(b);
            let c = s.target(r);
            ||| s.request(r).next is Some && t == s.with_phase(b, Phase::Notify(r.index, s.request(r).next->Some_0)).moved(
                Move::Release(b),
            )
            ||| s.cowns[c].last == Some(r) && t == s.with_last(c, None).with_phase(
                b,
                Phase::Release((r.index + 1) as usize),
            ).moved(Move::Release(b))
        }),
    ensures
        t.inv(),
        s.model.enabled(Move::Release(b)),
{
    reveal(Memory::inv);
    lemma_live(s, b);
    lemma_releasing_known(s, b);
    let n = s.current(b);
    let c0 = s.target(n);
    let q0 = s.model.queues[c0];
    let m = Move::Release(b);
    law_inv_kept(s.model, m);
    assert(t.behaviors =~= s.behaviors.insert(b, t.behaviors[b]));
    assert(t.behaviors.dom() =~= s.behaviors.dom());
    assert(t.model.actors.dom() =~= s.model.actors.dom());
    assert(t.model.queues[c0] == q0.drop_first());
    assert forall|c: int| 0 <= c < s.model.queues.len() && c != c0 implies #[trigger] t.model.queues[c] == s.model.queues[c] by {}
    assert forall|c: int, k: int| 0 <= c < t.model.queues.len() && 0 <= k < t.model.queues[c].len() implies
        #[trigger] t.model.queues[c][k] == s.model.queues[c][if c == c0 { k + 1 } else { k }] by {}
    if s.cowns[c0].last == Some(n) {
        assert(q0.len() == 1);
        assert(s.request(n).next is None);
    }
    if q0.len() > 1 {
        assert(s.request(n).next is Some);
        assert(!s.model.waiting(q0[1]));
        assert(q0[1].behavior == s.request(n).next->Some_0);
        assert(t.model.stage(b) == Stage::Notify(n.index as int, q0[1]));
    }
    assert forall|x: u64| #[trigger] t.live(x) implies s.live(x) && matches_actor(t.behaviors[x], t.model.actors[x]) by {
        assert(s.live(x));
    }
    assert(t.tails_match()) by {
        assert forall|c: int| 0 <= c < t.cowns.len() implies (#[trigger] t.cowns[c]).last == (if t.model.queues[c].len()
            == 0 {
            None
        } else {
            Some(t.model.queues[c].last())
        }) by {
            assert(s.cowns[c].last == (if s.model.queues[c].len() == 0 { None } else { Some(s.model.queues[c].last()) }));
        }
    }
    assert forall|r: ReqId| #[trigger] t.model.waiting(r) == s.model.waiting(r) by {}
    assert(t.links_match()) by {
        assert forall|c: int, k: int| 0 <= c < t.model.queues.len() && 0 <= k < t.model.queues[c].len() implies t.request(
            #[trigger] t.model.queues[c][k],
        ).next == t.link(c, k) by {
            let k0 = if c == c0 { k + 1 } else { k };
            let r = s.model.queues[c][k0];
            assert(s.request(r).next == s.link(c, k0));
        }
    }
    assert(t.waits_match()) by {
        assert forall|c: int, k: int| 0 <= c < t.model.queues.len() && 0 <= k < t.model.queues[c].len() implies {
            let r = #[trigger] t.model.queues[c][k];
            match t.phase(r.behavior) {
                Phase::Wait(i, prev) => i == r.index ==> k > 0 && t.model.queues[c][k - 1] == prev,
                Phase::Link(i, prev) => i == r.index ==> k > 0 && t.model.queues[c][k - 1] == prev
                    && t.model.scheduled(prev),
                _ => true,
            }
        } by {
            let k0 = if c == c0 { k + 1 } else { k };
            let r = s.model.queues[c][k0];
            assert(s.model.queued(r));
            assert(s.live(r.behavior));
            if k > 0 {
                assert(t.model.queues[c][k - 1] == s.model.queues[c][k0 - 1]);
            } else if c == c0 {
                assert(!s.model.waiting(r));
            }
        }
    }
    assert(t.spins_match()) by {
        assert forall|c: int| 0 <= c < t.model.queues.len() && (#[trigger] t.model.queues[c]).len() > 0 implies {
            let r = t.model.queues[c][0];
            t.phase(r.behavior) == Phase::Spin(r.index) ==> t.model.queues[c].len() > 1
        } by {
            let r = t.model.queues[c][0];
            if c == c0 {
                assert(r == q0[1]);
                assert(s.model.queued(r));
                assert(s.live(r.behavior));
                lemma_live(s, r.behavior);
                if t.phase(r.behavior) == Phase::Spin(r.index) {
                    lemma_owned_len(s.model.actors[r.behavior], r.index);
                    assert(s.model.owned(r));
                    assert(q0[0] != q0[1]);
                }
            } else {
                assert(r == s.model.queues[c][0]);
                assert(s.model.queued(r));
            }
        }
    }
    assert(t.values_home()) by {
        assert forall|c: int| 0 <= c < t.cowns.len() && (#[trigger] t.cowns[c]).resource is None implies t.borrowed(c) by {
            assert(s.cowns[c].resource is None);
            assert(s.borrowed(c));
            let r = choose|r: ReqId| #[trigger] s.model.queued(r) && s.model.target(r) == c && s.model.stage(r.behavior)
                is Running;
            assert(t.model.queued(r));
        }
    }
}

/// The successor is told.
#[verifier::spinoff_prover]
#[verifier::rlimit(40)]
pub proof fn lemma_notify_step<T, F>(s: Memory<T, F>, b: u64)
    requires
        s.inv(),
        s.live(b),
        s.phase(b) is Notify,
    ensures
        s.model.enabled(Move::Notify(b)),
        s.live(s.phase(b)->Notify_1),
        s.behaviors[s.phase(b)->Notify_1].count >= 1,
        s.release(s.current(b)).inv(),
{
    reveal(Memory::inv);
    lemma_live(s, b);
    let i = s.phase(b)->Notify_0;
    let nb = s.phase(b)->Notify_1;
    let n = s.model.stage(b)->Notify_1;
    assert(s.model.notifying(b, n));
    assert(s.model.queued(n) && s.model.is_request(n));
    assert(s.live(nb));
    lemma_live(s, nb);
    lemma_owned_len(s.model.actors[nb], n.index);
    assert(nb != b);
    assert(s.model.actors[nb].count == 1 ==> s.model.stage(nb) is Pending);
    let m = Move::Notify(b);
    law_inv_kept(s.model, m);
    let t = s.release(s.current(b));
    assert(t.behaviors.dom() =~= s.behaviors.dom());
    assert(t.model.actors.dom() =~= s.model.actors.dom());
    assert forall|x: u64| #[trigger] t.live(x) implies s.live(x) && matches_actor(t.behaviors[x], t.model.actors[x]) by {
        assert(s.live(x));
    }
    assert forall|r: ReqId| #[trigger] t.model.waiting(r) == s.model.waiting(r) by {}
    assert forall|r: ReqId| #[trigger] t.request(r) == s.request(r) by {}
    assert(t.links_match()) by {
        assert forall|c: int, k: int| 0 <= c < t.model.queues.len() && 0 <= k < t.model.queues[c].len() implies t.request(
            #[trigger] t.model.queues[c][k],
        ).next == t.link(c, k) by {
            let r = s.model.queues[c][k];
            assert(s.request(r).next == s.link(c, k));
        }
    }
    assert(t.waits_match()) by {
        assert forall|c: int, k: int| 0 <= c < t.model.queues.len() && 0 <= k < t.model.queues[c].len() implies {
            let r = #[trigger] t.model.queues[c][k];
            match t.phase(r.behavior) {
                Phase::Wait(i, prev) => i == r.index ==> k > 0 && t.model.queues[c][k - 1] == prev,
                Phase::Link(i, prev) => i == r.index ==> k > 0 && t.model.queues[c][k - 1] == prev
                    && t.model.scheduled(prev),
                _ => true,
            }
        } by {
            let r = s.model.queues[c][k];
            assert(s.model.queued(r));
        }
    }
    assert(t.spins_match()) by {
        assert forall|c: int| 0 <= c < t.model.queues.len() && (#[trigger] t.model.queues[c]).len() > 0 implies {
            let r = t.model.queues[c][0];
            t.phase(r.behavior) == Phase::Spin(r.index) ==> t.model.queues[c].len() > 1
        } by {
            let r = s.model.queues[c][0];
            assert(s.model.queued(r));
        }
    }
    assert(t.values_home()) by {
        assert forall|c: int| 0 <= c < t.cowns.len() && (#[trigger] t.cowns[c]).resource is None implies t.borrowed(c) by {
            assert(s.borrowed(c));
            let r = choose|r: ReqId| #[trigger] s.model.queued(r) && s.model.target(r) == c && s.model.stage(r.behavior)
                is Running;
            assert(t.model.queued(r));
        }
    }
}

/// The link of a request that has left its queue is forgotten.
pub proof fn lemma_clear_step<T, F>(s: Memory<T, F>, b: u64)
    requires
        s.inv(),
        s.live(b),
        s.phase(b) is Clear,
    ensures
        s.is_request(s.current(b)),
        s.release(s.current(b)).inv(),
{
    reveal(Memory::inv);
    lemma_live(s, b);
    let n = s.current(b);
    let t = s.release(n);
    assert(t.behaviors =~= s.behaviors.insert(b, t.behaviors[b]));
    assert(t.behaviors.dom() =~= s.behaviors.dom());
    assert forall|x: u64| #[trigger] t.live(x) implies s.live(x) && matches_actor(t.behaviors[x], t.model.actors[x]) by {
        assert(s.live(x));
    }
    assert(t.links_match()) by {
        assert forall|c: int, k: int| 0 <= c < t.model.queues.len() && 0 <= k < t.model.queues[c].len() implies t.request(
            #[trigger] t.model.queues[c][k],
        ).next == t.link(c, k) by {
            let r = s.model.queues[c][k];
            assert(s.model.queued(r));
            assert(r != n);
            assert(s.request(r).next == s.link(c, k));
        }
    }
    assert(t.waits_match()) by {
        assert forall|c: int, k: int| 0 <= c < t.model.queues.len() && 0 <= k < t.model.queues[c].len() implies {
            let r = #[trigger] t.model.queues[c][k];
            match t.phase(r.behavior) {
                Phase::Wait(i, prev) => i == r.index ==> k > 0 && t.model.queues[c][k - 1] == prev,
                Phase::Link(i, prev) => i == r.index ==> k > 0 && t.model.queues[c][k - 1] == prev
                    && t.model.scheduled(prev),
                _ => true,
            }
        } by {
            let r = s.model.queues[c][k];
            assert(s.model.queued(r));
        }
    }
    assert(t.spins_match()) by {
        assert forall|c: int| 0 <= c < t.model.queues.len() && (#[trigger] t.model.queues[c]).len() > 0 implies {
            let r = t.model.queues[c][0];
            t.phase(r.behavior) == Phase::Spin(r.index) ==> t.model.queues[c].len() > 1
        } by {
            let r = s.model.queues[c][0];
            assert(s.model.queued(r));
        }
    }
    assert(t.values_home()) by {
        assert forall|c: int| 0 <= c < t.cowns.len() && (#[trigger] t.cowns[c]).resource is None implies t.borrowed(c) by {
            assert(s.borrowed(c));
        }
    }
}

/// A behaviour that has given back all its cowns goes away.
pub proof fn lemma_retire_step<T, F>(s: Memory<T, F>, b: u64)
    requires
        s.inv(),
        s.live(b),
        s.phase(b) == Phase::Release(s.size(b) as usize),
    ensures
        s.model.enabled(Move::Retire(b)),
        s.unwind(b).inv(),
{
    reveal(Memory::inv);
    lemma_live(s, b);
    let m = Move::Retire(b);
    law_inv_kept(s.model, m);
    let t = s.unwind(b);
    assert(t.behaviors.dom() =~= s.behaviors.dom().remove(b));
    assert(t.model.actors.dom() =~= s.model.actors.dom().remove(b));
    assert forall|x: u64| #[trigger] t.live(x) implies s.live(x) && matches_actor(t.behaviors[x], t.model.actors[x]) by {
        assert(s.live(x));
    }
    assert forall|r: ReqId| #[trigger] s.model.queued(r) implies r.behavior != b && t.model.queued(r) && t.request(r)
        == s.request(r) && t.model.waiting(r) == s.model.waiting(r) by {
        assert(s.live(r.behavior));
    }
    assert(t.links_match()) by {
        assert forall|c: int, k: int| 0 <= c < t.model.queues.len() && 0 <= k < t.model.queues[c].len() implies t.request(
            #[trigger] t.model.queues[c][k],
        ).next == t.link(c, k) by {
            let r = s.model.queues[c][k];
            assert(s.model.queued(r));
            assert(s.request(r).next == s.link(c, k));
            if k + 1 < s.model.queues[c].len() {
                assert(s.model.queued(s.model.queues[c][k + 1]));
            }
        }
    }
    assert(t.waits_match()) by {
        assert forall|c: int, k: int| 0 <= c < t.model.queues.len() && 0 <= k < t.model.queues[c].len() implies {
            let r = #[trigger] t.model.queues[c][k];
            match t.phase(r.behavior) {
                Phase::Wait(i, prev) => i == r.index ==> k > 0 && t.model.queues[c][k - 1] == prev,
                Phase::Link(i, prev) => i == r.index ==> k > 0 && t.model.queues[c][k - 1] == prev
                    && t.model.scheduled(prev),
                _ => true,
            }
        } by {
            let r = s.model.queues[c][k];
            assert(s.model.queued(r));
            if k > 0 {
                assert(s.model.queued(s.model.queues[c][k - 1]));
            }
        }
    }
    assert(t.spins_match()) by {
        assert forall|c: int| 0 <= c < t.model.queues.len() && (#[trigger] t.model.queues[c]).len() > 0 implies {
            let r = t.model.queues[c][0];
            t.phase(r.behavior) == Phase::Spin(r.index) ==> t.model.queues[c].len() > 1
        } by {
            let r = s.model.queues[c][0];
            assert(s.model.queued(r));
        }
    }
    assert(t.values_home()) by {
        assert forall|c: int| 0 <= c < t.cowns.len() && (#[trigger] t.cowns[c]).resource is None implies t.borrowed(c) by {
            assert(s.borrowed(c));
            let r = choose|r: ReqId| #[trigger] s.model.queued(r) && s.model.target(r) == c && s.model.stage(r.behavior)
                is Running;
            assert(t.model.queued(r));
        }
    }
}

/// A step of giving back keeps the invariant, and is a move of the protocol or
/// none.
pub proof fn lemma_unwind_step<T, F>(s: Memory<T, F>, b: u64)
    requires
        s.inv(),
        s.releasing(b),
    ensures
        s.unwind(b).inv(),
        s.unwind(b).model == s.model || s.model.next(s.unwind(b).model),
{
    reveal(Memory::inv);
    lemma_live(s, b);
    match s.phase(b) {
        Phase::Release(i) => {
            if i < s.size(b) {
                lemma_releasing_known(s, b);
                if s.request(s.current(b)).next is Some {
                    lemma_hand_over_inv(s, b, s.unwind(b));
                    assert(s.model.enabled(Move::Release(b)));
                } else {
                    lemma_phase_inv(s, b, Phase::Exchange(i));
                }
            } else {
                lemma_retire_step(s, b);
                assert(s.model.enabled(Move::Retire(b)));
            }
        },
        Phase::Exchange(i) => {
            lemma_releasing_known(s, b);
            if s.cowns[s.target(s.current(b))].last == Some(s.current(b)) {
                lemma_hand_over_inv(s, b, s.unwind(b));
                assert(s.model.enabled(Move::Release(b)));
            } else {
                lemma_phase_inv(s, b, Phase::Spin(i));
            }
        },
        Phase::Spin(i) => {
            lemma_releasing_known(s, b);
            if s.request(s.current(b)).next is Some {
                lemma_hand_over_inv(s, b, s.unwind(b));
                assert(s.model.enabled(Move::Release(b)));
            }
        },
        Phase::Notify(i, next) => {
            lemma_notify_step(s, b);
            assert(s.model.enabled(Move::Notify(b)));
        },
        Phase::Clear(i) => {
            lemma_clear_step(s, b);
        },
        _ => {},
    }
}

/// The empty memory satisfies the invariant.
pub proof fn lemma_empty<T, F>()
    ensures
        Memory::<T, F>::empty().inv(),
{
    reveal(Memory::inv);
}

/// A new cown keeps the invariant.
pub proof fn lemma_add_cown_step<T, F>(s: Memory<T, F>, value: T)
    requires
        s.inv(),
    ensures
        s.add_cown(value).inv(),
        s.model.enabled(Move::AddCown),
{
    reveal(Memory::inv);
    let t = s.add_cown(value);
    law_inv_kept(s.model, Move::AddCown);
    assert forall|c: int| 0 <= c < t.model.queues.len() implies (#[trigger] t.model.queues[c]).len() == 0 || c
        < s.model.queues.len() && t.model.queues[c] == s.model.queues[c] by {}
    assert forall|x: u64| #[trigger] t.live(x) implies s.live(x) && matches_actor(t.behaviors[x], t.model.actors[x]) by {
        assert(s.live(x));
    }
    assert(t.tails_match()) by {
        assert forall|c: int| 0 <= c < t.cowns.len() implies (#[trigger] t.cowns[c]).last == (if t.model.queues[c].len()
            == 0 {
            None
        } else {
            Some(t.model.queues[c].last())
        }) by {
            if c < s.cowns.len() {
                assert(t.cowns[c] == s.cowns[c]);
            }
        }
    }
    assert(t.links_match()) by {
        assert forall|c: int, k: int| 0 <= c < t.model.queues.len() && 0 <= k < t.model.queues[c].len() implies t.request(
            #[trigger] t.model.queues[c][k],
        ).next == t.link(c, k) by {
            assert(s.request(s.model.queues[c][k]).next == s.link(c, k));
        }
    }
    assert(t.waits_match()) by {
        assert forall|c: int, k: int| 0 <= c < t.model.queues.len() && 0 <= k < t.model.queues[c].len() implies {
            let r = #[trigger] t.model.queues[c][k];
            match t.phase(r.behavior) {
                Phase::Wait(i, prev) => i == r.index ==> k > 0 && t.model.queues[c][k - 1] == prev,
                Phase::Link(i, prev) => i == r.index ==> k > 0 && t.model.queues[c][k - 1] == prev
                    && t.model.scheduled(prev),
                _ => true,
            }
        } by {
            assert(s.model.queues[c][k] == t.model.queues[c][k]);
        }
    }
    assert(t.values_home()) by {
        assert forall|c: int| 0 <= c < t.cowns.len() && (#[trigger] t.cowns[c]).resource is None implies t.borrowed(c) by {
            assert(t.cowns[c] == s.cowns[c]);
            assert(s.borrowed(c));
            let r = choose|r: ReqId| #[trigger] s.model.queued(r) && s.model.target(r) == c && s.model.stage(r.behavior)
                is Running;
            assert(t.model.queued(r));
        }
    }
}

/// A behaviour as it is before its first step.
pub open spec fn newborn<F>(v: BehaviorView<F>) -> bool {
    &&& v.routine is Some
    &&& v.requests.len() < usize::MAX
    &&& v.count == v.requests.len() + 1
    &&& v.phase == Phase::Enqueue(0)
    &&& ascending(v.targets())
    &&& forall|i: int| 0 <= i < v.requests.len() ==> #[trigger] v.requests[i] == Request::fresh(
        v.requests[i].target.inner,
    )
}

/// A new behaviour keeps the invariant.
pub proof fn lemma_enlist_step<T, F>(s: Memory<T, F>, v: BehaviorView<F>)
    requires
        s.inv(),
        s.next_id < u64::MAX,
        newborn(v),
        forall|i: int| 0 <= i < v.requests.len() ==> (#[trigger] v.requests[i]).target.inner < s.cowns.len(),
    ensures
        s.enlist(v).inv(),
        s.model.enabled(Move::Admit(s.next_id as u64, v.targets())),
        !s.live(s.next_id as u64),
{
    reveal(Memory::inv);
    let b = s.next_id as u64;
    let m = Move::Admit(b, v.targets());
    let t = s.enlist(v);
    assert(!s.live(b));
    assert(!s.model.live(b));
    assert forall|i: int| 0 <= i < v.targets().len() implies #[trigger] v.targets()[i] < s.model.queues.len() by {
        assert(v.requests[i].target.inner < s.cowns.len());
    }
    law_inv_kept(s.model, m);
    assert(t.behaviors.dom() =~= s.behaviors.dom().insert(b));
    assert(t.model.actors.dom() =~= s.model.actors.dom().insert(b));
    assert forall|x: u64| #[trigger] t.live(x) implies matches_actor(t.behaviors[x], t.model.actors[x]) && x < t.next_id by {
        if x != b {
            assert(s.live(x));
        } else {
            assert forall|i: int| 0 <= i < v.requests.len() implies v.targets()[i] == (#[trigger] v.requests[i]).target.inner
                && !v.requests[i].scheduled && v.requests[i].next is None by {}
        }
    }
    assert forall|r: ReqId| #[trigger] s.model.queued(r) implies r.behavior != b && t.model.queued(r) && t.request(r)
        == s.request(r) && t.model.waiting(r) == s.model.waiting(r) by {
        assert(s.live(r.behavior));
    }
    assert(t.links_match()) by {
        assert forall|c: int, k: int| 0 <= c < t.model.queues.len() && 0 <= k < t.model.queues[c].len() implies t.request(
            #[trigger] t.model.queues[c][k],
        ).next == t.link(c, k) by {
            let r = s.model.queues[c][k];
            assert(s.model.queued(r));
            assert(s.request(r).next == s.link(c, k));
            if k + 1 < s.model.queues[c].len() {
                assert(s.model.queued(s.model.queues[c][k + 1]));
            }
        }
    }
    assert(t.waits_match()) by {
        assert forall|c: int, k: int| 0 <= c < t.model.queues.len() && 0 <= k < t.model.queues[c].len() implies {
            let r = #[trigger] t.model.queues[c][k];
            match t.phase(r.behavior) {
                Phase::Wait(i, prev) => i == r.index ==> k > 0 && t.model.queues[c][k - 1] == prev,
                Phase::Link(i, prev) => i == r.index ==> k > 0 && t.model.queues[c][k - 1] == prev
                    && t.model.scheduled(prev),
                _ => true,
            }
        } by {
            let r = s.model.queues[c][k];
            assert(s.model.queued(r));
            if k > 0 {
                assert(s.model.queued(s.model.queues[c][k - 1]));
            }
        }
    }
    assert(t.spins_match()) by {
        assert forall|c: int| 0 <= c < t.model.queues.len() && (#[trigger] t.model.queues[c]).len() > 0 implies {
            let r = t.model.queues[c][0];
            t.phase(r.behavior) == Phase::Spin(r.index) ==> t.model.queues[c].len() > 1
        } by {
            let r = s.model.queues[c][0];
            assert(s.model.queued(r));
        }
    }
    assert(t.values_home()) by {
        assert forall|c: int| 0 <= c < t.cowns.len() && (#[trigger] t.cowns[c]).resource is None implies t.borrowed(c) by {
            assert(s.borrowed(c));
            let r = choose|r: ReqId| #[trigger] s.model.queued(r) && s.model.target(r) == c && s.model.stage(r.behavior)
                is Running;
            assert(t.model.queued(r));
        }
    }
}

/// Taking a value out of a cown whose holder runs, or putting one in, keeps the
/// invariant.
pub proof fn lemma_resource_step<T, F>(s: Memory<T, F>, r: ReqId, resource: Option<T>)
    requires
        s.inv(),
        s.is_request(r),
        resource is None ==> s.phase(r.behavior) is Running,
    ensures
        s.with_resource(s.target(r), resource).inv(),
{
    lemma_live(s, r.behavior);
    if resource is None {
        assert(s.model.queued(r));
        assert(s.borrowed(s.target(r)));
    }
    lemma_resource_at(s, s.target(r), resource);
}

/// A value may be put into any cown, and taken out of one whose holder runs.
proof fn lemma_resource_at<T, F>(s: Memory<T, F>, c0: int, resource: Option<T>)
    requires
        s.inv(),
        0 <= c0 < s.cowns.len(),
        resource is None ==> s.borrowed(c0),
    ensures
        s.with_resource(c0, resource).inv(),
{
    reveal(Memory::inv);
    let t = s.with_resource(c0, resource);
    assert(t.links_match()) by {
        assert forall|c: int, k: int| 0 <= c < t.model.queues.len() && 0 <= k < t.model.queues[c].len() implies t.request(
            #[trigger] t.model.queues[c][k],
        ).next == t.link(c, k) by {
            assert(s.request(s.model.queues[c][k]).next == s.link(c, k));
        }
    }
    assert forall|x: u64| #[trigger] t.live(x) implies matches_actor(t.behaviors[x], t.model.actors[x]) && x < t.next_id by {
        assert(s.live(x));
    }
    assert(t.tails_match()) by {
        assert forall|c: int| 0 <= c < t.cowns.len() implies (#[trigger] t.cowns[c]).last == (if t.model.queues[c].len()
            == 0 {
            None
        } else {
            Some(t.model.queues[c].last())
        }) by {
            assert(t.cowns[c].last == s.cowns[c].last);
        }
    }
    assert(t.waits_match());
    assert(t.spins_match());
    assert(t.values_home()) by {
        assert forall|c: int| 0 <= c < t.cowns.len() && (#[trigger] t.cowns[c]).resource is None implies t.borrowed(c) by {
            assert(c != c0 ==> s.cowns[c].resource is None);
            assert(s.borrowed(c));
            let x = choose|x: ReqId| #[trigger] s.model.queued(x) && s.model.target(x) == c && s.model.stage(x.behavior)
                is Running;
            assert(t.model.queued(x));
        }
    }
}

/// The value of a cown that nobody asks for is in the cown, and may be replaced.
pub proof fn lemma_reclaim_step<T, F>(s: Memory<T, F>, c: int, value: T)
    requires
        s.inv(),
        0 <= c < s.cowns.len(),
        s.cowns[c].last is None,
    ensures
        s.cowns[c].resource is Some,
        s.with_resource(c, Some(value)).inv(),
{
    lemma_resource_at(s, c, Some(value));
    reveal(Memory::inv);
    if s.cowns[c].resource is None {
        let x = choose|x: ReqId| #[trigger] s.model.queued(x) && s.model.target(x) == c && s.model.stage(x.behavior)
            is Running;
        assert(s.model.queues[s.model.target(x)].contains(x));
    }
}

} // verus!
