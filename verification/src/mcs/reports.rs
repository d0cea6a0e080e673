//! What the steps report, and what they do to each word of the memory.
use crate::laws::law_acquired_owns;
use crate::mcs::coupling::{
    lemma_enlist_step, lemma_link_step, lemma_live, lemma_model,
    lemma_notify_step, lemma_reclaim_step, lemma_resolve_step,
    lemma_schedule_step, lemma_settle_step, lemma_unwind_step, lemma_wait_known,
};
use crate::mcs::cown::Cown;
use crate::mcs::driving::lemma_schedule_advances;
use crate::mcs::laws::{lemma_lend_all, lemma_return_all, Action};
use crate::mcs::memory::{BehaviorView, Memory, Phase};
use crate::mcs::request::Request;
use crate::moves::{lemma_owned_len, lemma_place};
use crate::progress::Progress;
use crate::protocol::ReqId;
use std::cmp::Ordering;
use vstd::prelude::*;

verus! {

impl<T, F> Memory<T, F> {
    /// `x` is alive and ready.
    pub open spec fn is_ready(self, x: u64) -> bool {
        self.behaviors.contains_key(x) && self.behaviors[x].phase == Phase::Ready
    }
}

/// The words that the contracts speak of: what is alive, how far it is, what it asks
/// for. Whoever is alive is being scheduled, is pending, is ready, is running, or is
/// giving back its cowns.
pub proof fn law_words<T, F>(s: Memory<T, F>, b: u64, r: ReqId)
    ensures
        s.live(b) <==> s.behaviors.contains_key(b),
        s.phase(b) == s.behaviors[b].phase,
        s.size(b) == s.behaviors[b].requests.len(),
        s.is_request(r) <==> s.behaviors.contains_key(r.behavior) && r.index < s.behaviors[r.behavior].requests.len(),
        s.request(r) == s.behaviors[r.behavior].requests[r.index as int],
        s.target(r) == s.behaviors[r.behavior].requests[r.index as int].target.inner,
        s.scheduling(b) <==> s.behaviors.contains_key(b) && match s.behaviors[b].phase {
            Phase::Enqueue(_) | Phase::Resolve(_) | Phase::Wait(_, _) | Phase::Link(_, _) | Phase::Finish(_) => true,
            _ => false,
        },
        s.releasing(b) <==> s.behaviors.contains_key(b) && match s.behaviors[b].phase {
            Phase::Release(_) | Phase::Exchange(_) | Phase::Spin(_) | Phase::Notify(_, _) | Phase::Clear(_) => true,
            _ => false,
        },
{
}

// --- Reports. ---

/// Whoever becomes ready is reported, by the step that makes it so: a step of
/// scheduling reports `x` as ready if and only if `x` is ready after the step and
/// was not before.
pub proof fn law_schedule_reports_ready<T, F>(s: Memory<T, F>, b: u64, x: u64)
    requires
        s.inv(),
        s.scheduling(b),
    ensures
        s.schedule_progress(b) == Progress::Ready(x) <==> !s.is_ready(x) && s.schedule(b).is_ready(x),
        s.schedule(b).is_ready(x) && !s.is_ready(x) ==> x == b,
{
    lemma_schedule_step(s, b);
    lemma_live(s, b);
    match s.phase(b) {
        Phase::Resolve(_) => lemma_resolve_step(s, b),
        Phase::Link(_, _) => lemma_link_step(s, b),
        Phase::Finish(i) => {
            if i == s.size(b) {
                lemma_settle_step(s, b);
            }
        },
        _ => {},
    }
}

/// Whoever becomes ready is reported, by the step that makes it so: a step of
/// giving back reports `x` as ready if and only if `x` is ready after the step and
/// was not before.
pub proof fn law_release_reports_ready<T, F>(s: Memory<T, F>, b: u64, x: u64)
    requires
        s.inv(),
        s.releasing(b),
    ensures
        s.unwind_progress(b) == Progress::Ready(x) <==> !s.is_ready(x) && s.unwind(b).is_ready(x),
        s.unwind(b).is_ready(x) && !s.is_ready(x) ==> x != b && s.behaviors[x].phase == Phase::Pending,
{
    lemma_unwind_step(s, b);
    lemma_live(s, b);
    if s.phase(b) is Notify {
        lemma_next(s, b);
    }
}

/// Whoever is about to be told is somebody else, and is pending if one resolution is
/// outstanding.
proof fn lemma_next<T, F>(s: Memory<T, F>, b: u64)
    requires
        s.inv(),
        s.live(b),
        s.phase(b) is Notify,
    ensures
        ({
            let next = s.phase(b)->Notify_1;
            &&& next != b
            &&& s.live(next)
            &&& s.behaviors[next].count >= 1
            &&& s.behaviors[next].count == 1 ==> s.phase(next) == Phase::Pending
            &&& s.phase(next) != Phase::Ready
        }),
{
    lemma_live(s, b);
    lemma_model(s);
    lemma_notify_step(s, b);
    let next = s.phase(b)->Notify_1;
    let r = s.model.stage(b)->Notify_1;
    lemma_live(s, next);
    assert(s.model.notifying(b, r));
    assert(s.model.queued(r) && s.model.is_request(r));
    lemma_owned_len(s.model.actors[next], r.index);
    if s.model.stage(next).acquired() {
        law_acquired_owns(s.model, r);
    }
}

/// Nobody becomes ready by anything else than a step of scheduling or of giving
/// back.
pub proof fn law_only_steps_make_ready<T, F>(s: Memory<T, F>, a: Action<T, F>, x: u64)
    requires
        s.inv(),
        s.allows(a),
        !(a is Schedule),
        !(a is Release),
    ensures
        s.after(a).is_ready(x) ==> s.is_ready(x),
{
    match a {
        Action::Lend(b, addrs) => lemma_lend_all(s, b, addrs),
        Action::Return(b, addrs, values) => lemma_return_all(s, b, addrs, values),
        _ => {},
    }
}

/// The other reports of a step of scheduling: it has waited if and only if nothing
/// has changed, which is so if and only if the request in front is not scheduled;
/// the behaviour is pending if and only if it is reported so; and otherwise its
/// scheduling goes on, or it is ready.
pub proof fn law_schedule_reports<T, F>(s: Memory<T, F>, b: u64)
    requires
        s.inv(),
        s.scheduling(b),
    ensures
        ({
            let t = s.schedule(b);
            let progress = s.schedule_progress(b);
            &&& t.behaviors.contains_key(b)
            &&& progress == Progress::Waiting <==> t == s
            &&& progress == Progress::Waiting <==> match s.behaviors[b].phase {
                Phase::Wait(_, prev) => !s.behaviors[prev.behavior].requests[prev.index as int].scheduled,
                _ => false,
            }
            &&& progress == Progress::Pending <==> t.behaviors[b].phase == Phase::Pending
            &&& progress == Progress::Ready(b) <==> t.behaviors[b].phase == Phase::Ready
            &&& progress == Progress::Advanced <==> t.scheduling(b) && t != s
            &&& progress != Progress::Finished
        }),
{
    lemma_schedule_step(s, b);
    lemma_live(s, b);
    let t = s.schedule(b);
    match s.phase(b) {
        Phase::Resolve(_) => lemma_resolve_step(s, b),
        Phase::Link(_, prev) => {
            lemma_link_step(s, b);
            lemma_wait_known(s, b);
        },
        Phase::Wait(_, prev) => lemma_wait_known(s, b),
        Phase::Finish(i) => {
            if i == s.size(b) {
                lemma_settle_step(s, b);
            }
        },
        _ => {},
    }
    lemma_live(t, b);
    if t == s {
        assert(t.behaviors[b].phase == s.behaviors[b].phase);
    }
}

/// The other reports of a step of giving back: it has waited if and only if nothing
/// has changed, which is so if and only if the link that it waits for is missing;
/// and the behaviour is gone if and only if it is reported so.
pub proof fn law_release_reports<T, F>(s: Memory<T, F>, b: u64)
    requires
        s.inv(),
        s.releasing(b),
    ensures
        ({
            let t = s.unwind(b);
            let progress = s.unwind_progress(b);
            &&& progress == Progress::Waiting <==> t == s
            &&& progress == Progress::Waiting <==> match s.behaviors[b].phase {
                Phase::Spin(i) => s.behaviors[b].requests[i as int].next is None,
                _ => false,
            }
            &&& progress == Progress::Finished <==> !t.behaviors.contains_key(b)
            &&& progress != Progress::Finished ==> t.releasing(b)
            &&& progress != Progress::Pending
        }),
{
    lemma_unwind_step(s, b);
    lemma_live(s, b);
    let t = s.unwind(b);
    if s.phase(b) is Notify {
        lemma_notify_step(s, b);
    }
    if t.live(b) {
        lemma_live(t, b);
    }
    if t == s {
        assert(t.behaviors.contains_key(b));
        assert(t.behaviors[b].phase == s.behaviors[b].phase);
    }
}

// --- Each at its own pace. ---

/// A behaviour goes on only by its own steps. The one exception is that a behaviour
/// that is pending becomes ready by the step of another one, which reports it.
pub proof fn law_own_pace<T, F>(s: Memory<T, F>, a: Action<T, F>, x: u64)
    requires
        s.inv(),
        s.allows(a),
        s.live(x),
        a != Action::<T, F>::Schedule(x),
        a != Action::<T, F>::Run(x),
        a != Action::<T, F>::Complete(x),
        a != Action::<T, F>::Release(x),
    ensures
        s.after(a).behaviors.contains_key(x),
        ({
            let v = s.behaviors[x];
            let w = s.after(a).behaviors[x];
            &&& w.phase == v.phase || v.phase == Phase::Pending && w.phase == Phase::Ready && a is Release
                && s.unwind_progress(a->Release_0) == Progress::Ready(x)
            &&& w.routine == v.routine
            &&& w.targets() == v.targets()
        }),
{
    lemma_live(s, x);
    lemma_model(s);
    match a {
        Action::Lend(b, addrs) => lemma_lend_all(s, b, addrs),
        Action::Return(b, addrs, values) => lemma_return_all(s, b, addrs, values),
        Action::Enlist(v) => lemma_enlist_step(s, v),
        Action::Schedule(b) => {
            lemma_live(s, b);
            if s.phase(b) is Link {
                lemma_link_step(s, b);
            }
        },
        Action::Release(b) => {
            lemma_live(s, b);
            if s.phase(b) is Notify {
                lemma_notify_step(s, b);
                law_release_reports_ready(s, b, x);
                lemma_live(s, s.phase(b)->Notify_1);
                lemma_unwind_step(s, b);
                lemma_live(s.unwind(b), x);
            }
        },
        _ => {},
    }
    assert(s.after(a).behaviors[x].targets() =~= s.behaviors[x].targets());
}

/// A routine is kept until it is started: every action but its own start leaves it,
/// as it was handed over, in the memory.
pub proof fn law_routine_kept<T, F>(s: Memory<T, F>, a: Action<T, F>, x: u64)
    requires
        s.inv(),
        s.allows(a),
        s.live(x),
        s.behaviors[x].routine is Some,
        a != Action::<T, F>::Run(x),
    ensures
        s.after(a).behaviors.contains_key(x),
        s.after(a).behaviors[x].routine == s.behaviors[x].routine,
{
    lemma_live(s, x);
    lemma_model(s);
    match a {
        Action::Lend(b, addrs) => lemma_lend_all(s, b, addrs),
        Action::Return(b, addrs, values) => lemma_return_all(s, b, addrs, values),
        Action::Enlist(v) => lemma_enlist_step(s, v),
        Action::Schedule(b) => {
            lemma_live(s, b);
            if s.phase(b) is Link {
                lemma_link_step(s, b);
            }
        },
        Action::Release(b) => {
            lemma_live(s, b);
            if s.phase(b) is Notify {
                lemma_notify_step(s, b);
            }
        },
        _ => {},
    }
}

// --- What each action does. ---

/// At the beginning there are no cowns and no behaviours.
pub proof fn law_beginning<T, F>()
    ensures
        Memory::<T, F>::empty().cowns.len() == 0,
        Memory::<T, F>::empty().next_id == 0,
        forall|b: u64| !#[trigger] Memory::<T, F>::empty().behaviors.contains_key(b),
{
}

/// A new cown comes last, holds its value, and is available. Nothing else changes.
pub proof fn law_new_cown<T, F>(s: Memory<T, F>, value: T)
    ensures
        ({
            let t = s.add_cown(value);
            &&& t.cowns == s.cowns.push(Cown { last: None, resource: Some(value) })
            &&& t.behaviors == s.behaviors
            &&& t.next_id == s.next_id
        }),
{
}

/// A behaviour that is handed over gets the next name, and is as it was created.
/// Nothing else changes.
pub proof fn law_handed_over<T, F>(s: Memory<T, F>, v: BehaviorView<F>)
    requires
        s.inv(),
        s.allows(Action::Enlist(v)),
    ensures
        ({
            let t = s.enlist(v);
            &&& !s.behaviors.contains_key(s.next_id as u64)
            &&& t.behaviors == s.behaviors.insert(s.next_id as u64, v)
            &&& t.next_id == s.next_id + 1
            &&& t.cowns == s.cowns
        }),
{
    lemma_enlist_step(s, v);
}

/// Starting a routine takes it out of the memory; ending it begins the giving back.
/// Nothing else changes.
pub proof fn law_run_and_complete<T, F>(s: Memory<T, F>, b: u64)
    ensures
        ({
            let t = s.run(b);
            &&& t.behaviors == s.behaviors.insert(
                b,
                BehaviorView { routine: None, phase: Phase::Running, ..s.behaviors[b] },
            )
            &&& t.cowns == s.cowns
            &&& t.next_id == s.next_id
        }),
        ({
            let t = s.complete(b);
            &&& t.behaviors == s.behaviors.insert(b, BehaviorView { phase: Phase::Release(0), ..s.behaviors[b] })
            &&& t.cowns == s.cowns
            &&& t.next_id == s.next_id
        }),
{
}

/// Reclaiming replaces one value. Nothing else changes.
pub proof fn law_reclaimed<T, F>(s: Memory<T, F>, a: usize, rest: T)
    requires
        s.inv(),
        s.allows(Action::Reclaim(a, rest)),
    ensures
        ({
            let t = s.after(Action::Reclaim(a, rest));
            &&& s.cowns[a as int].resource is Some
            &&& t.cowns == s.cowns.update(a as int, Cown { last: None, resource: Some(rest) })
            &&& t.behaviors == s.behaviors
            &&& t.next_id == s.next_id
        }),
{
    lemma_reclaim_step(s, a as int, rest);
}

/// Counting one resolution takes one from the count, and makes the behaviour ready
/// if and only if that was the last. Nothing else changes.
pub proof fn law_resolution<T, F>(s: Memory<T, F>, b: u64)
    ensures
        ({
            let v = s.behaviors[b];
            let t = s.resolve_one(b);
            &&& t.behaviors == s.behaviors.insert(
                b,
                BehaviorView {
                    count: v.count - 1,
                    phase: if v.count - 1 == 0 {
                        Phase::Ready
                    } else {
                        v.phase
                    },
                    ..v
                },
            )
            &&& t.cowns == s.cowns
            &&& t.next_id == s.next_id
        }),
{
}

impl<T, F> Memory<T, F> {
    /// `t` differs from `self` in the cowns and in the words of `b` at most.
    pub open spec fn only_differs_at(self, b: u64, t: Memory<T, F>) -> bool {
        &&& t.next_id == self.next_id
        &&& t.behaviors.dom() == self.behaviors.dom()
        &&& forall|x: u64| x != b && #[trigger] self.behaviors.contains_key(x) ==> t.behaviors[x] == self.behaviors[x]
    }
}

/// What a step of scheduling does, by the program of a scheduler: it swaps itself
/// into the tail of each cown, counts itself where the tail was empty, and otherwise
/// makes the former tail point to itself once that one is scheduled; then it marks
/// its requests; then it counts its own resolution.
pub proof fn law_schedule_effect<T, F>(s: Memory<T, F>, b: u64)
    requires
        s.inv(),
        s.live(b),
    ensures
        ({
            let v = s.behaviors[b];
            let t = s.schedule(b);
            let w = t.behaviors[b];
            let n = v.requests.len() as int;
            match v.phase {
                Phase::Enqueue(i) => {
                    &&& s.only_differs_at(b, t)
                    &&& if i < n {
                        let c = v.requests[i as int].target.inner as int;
                        &&& t.cowns == s.cowns.update(
                            c,
                            Cown { last: Some(ReqId { behavior: b, index: i }), resource: s.cowns[c].resource },
                        )
                        &&& w == (BehaviorView {
                            phase: match s.cowns[c].last {
                                None => Phase::Resolve(i),
                                Some(prev) => Phase::Wait(i, prev),
                            },
                            ..v
                        })
                    } else {
                        t.cowns == s.cowns && w == (BehaviorView { phase: Phase::Finish(0), ..v })
                    }
                },
                Phase::Resolve(i) => {
                    &&& s.only_differs_at(b, t)
                    &&& t.cowns == s.cowns
                    &&& w == (BehaviorView { count: v.count - 1, phase: Phase::Enqueue((i + 1) as usize), ..v })
                },
                Phase::Wait(i, prev) => {
                    &&& s.only_differs_at(b, t)
                    &&& t.cowns == s.cowns
                    &&& w == (BehaviorView {
                        phase: if s.behaviors[prev.behavior].requests[prev.index as int].scheduled {
                            Phase::Link(i, prev)
                        } else {
                            v.phase
                        },
                        ..v
                    })
                },
                Phase::Link(i, prev) => {
                    let p = s.behaviors[prev.behavior];
                    &&& prev.behavior != b
                    &&& s.with_behavior(
                        prev.behavior,
                        BehaviorView {
                            requests: p.requests.update(
                                prev.index as int,
                                Request { next: Some(b), ..p.requests[prev.index as int] },
                            ),
                            ..p
                        },
                    ).only_differs_at(b, t)
                    &&& t.cowns == s.cowns
                    &&& w == (BehaviorView { phase: Phase::Enqueue((i + 1) as usize), ..v })
                },
                Phase::Finish(i) => {
                    &&& s.only_differs_at(b, t)
                    &&& t.cowns == s.cowns
                    &&& if i < n {
                        w == (BehaviorView {
                            requests: v.requests.update(i as int, Request { scheduled: true, ..v.requests[i as int] }),
                            phase: Phase::Finish((i + 1) as usize),
                            ..v
                        })
                    } else {
                        w == (BehaviorView {
                            count: v.count - 1,
                            phase: if v.count - 1 == 0 {
                                Phase::Ready
                            } else {
                                Phase::Pending
                            },
                            ..v
                        })
                    }
                },
                _ => true,
            }
        }),
{
    lemma_live(s, b);
    let t = s.schedule(b);
    match s.phase(b) {
        Phase::Link(i, prev) => {
            lemma_link_step(s, b);
            lemma_wait_known(s, b);
            assert(s.live(prev.behavior));
            lemma_live(s, prev.behavior);
            assert(prev.behavior != b) by {
                reveal(Memory::inv);
                let n = ReqId { behavior: b, index: i };
                assert(s.is_request(n));
                assert(s.model.queued(n));
                let k = lemma_place(s.model, n);
                let c = s.model.target(n);
                assert(s.model.queues[c][k] == n);
            }
            assert(t.behaviors.dom() =~= s.behaviors.dom());
            assert(s.behaviors.dom().insert(prev.behavior) =~= s.behaviors.dom());
        },
        Phase::Wait(i, prev) => {
            lemma_wait_known(s, b);
            assert(t.behaviors =~= s.behaviors.insert(b, t.behaviors[b]));
            assert(t.behaviors.dom() =~= s.behaviors.dom());
        },
        Phase::Resolve(_) => {
            lemma_resolve_step(s, b);
            assert(t.behaviors.dom() =~= s.behaviors.dom());
        },
        _ => {
            assert(t.behaviors.dom() =~= s.behaviors.dom());
        },
    }
}

/// What a step of giving back does, by the program of a releaser: it looks for its
/// successor; if it has none, it empties the tail, if that is still its own
/// request, and otherwise looks again; it takes one from the count of the successor,
/// which makes it ready if that was the last; it forgets the successor; after the
/// last request it is gone.
pub proof fn law_release_effect<T, F>(s: Memory<T, F>, b: u64)
    requires
        s.inv(),
        s.live(b),
    ensures
        ({
            let v = s.behaviors[b];
            let t = s.unwind(b);
            let w = t.behaviors[b];
            let n = v.requests.len() as int;
            match v.phase {
                Phase::Release(i) => if i < n {
                    &&& s.only_differs_at(b, t)
                    &&& t.cowns == s.cowns
                    &&& w == (BehaviorView {
                        phase: match v.requests[i as int].next {
                            Some(next) => Phase::Notify(i, next),
                            None => Phase::Exchange(i),
                        },
                        ..v
                    })
                } else {
                    &&& t.behaviors == s.behaviors.remove(b)
                    &&& t.cowns == s.cowns
                    &&& t.next_id == s.next_id
                },
                Phase::Exchange(i) => {
                    let c = v.requests[i as int].target.inner as int;
                    &&& s.only_differs_at(b, t)
                    &&& if s.cowns[c].last == Some(ReqId { behavior: b, index: i }) {
                        &&& t.cowns == s.cowns.update(c, Cown { last: None, resource: s.cowns[c].resource })
                        &&& w == (BehaviorView { phase: Phase::Release((i + 1) as usize), ..v })
                    } else {
                        t.cowns == s.cowns && w == (BehaviorView { phase: Phase::Spin(i), ..v })
                    }
                },
                Phase::Spin(i) => {
                    &&& s.only_differs_at(b, t)
                    &&& t.cowns == s.cowns
                    &&& w == (BehaviorView {
                        phase: match v.requests[i as int].next {
                            Some(next) => Phase::Notify(i, next),
                            None => Phase::Spin(i),
                        },
                        ..v
                    })
                },
                Phase::Notify(i, next) => {
                    let p = s.behaviors[next];
                    &&& next != b
                    &&& s.behaviors.contains_key(next)
                    &&& s.with_behavior(
                        next,
                        BehaviorView {
                            count: p.count - 1,
                            phase: if p.count - 1 == 0 {
                                Phase::Ready
                            } else {
                                p.phase
                            },
                            ..p
                        },
                    ).only_differs_at(b, t)
                    &&& t.cowns == s.cowns
                    &&& w == (BehaviorView { phase: Phase::Clear(i), ..v })
                },
                Phase::Clear(i) => {
                    &&& s.only_differs_at(b, t)
                    &&& t.cowns == s.cowns
                    &&& w == (BehaviorView {
                        requests: v.requests.update(i as int, Request { next: None, ..v.requests[i as int] }),
                        phase: Phase::Release((i + 1) as usize),
                        ..v
                    })
                },
                _ => true,
            }
        }),
{
    lemma_live(s, b);
    let t = s.unwind(b);
    match s.phase(b) {
        Phase::Notify(i, next) => {
            lemma_next(s, b);
            assert(t.behaviors.dom() =~= s.behaviors.dom());
            assert(s.behaviors.dom().insert(next) =~= s.behaviors.dom());
        },
        Phase::Spin(i) => {
            assert(t.behaviors =~= s.behaviors.insert(b, t.behaviors[b]));
            assert(t.behaviors.dom() =~= s.behaviors.dom());
        },
        Phase::Release(i) => {
            if i < s.size(b) {
                assert(t.behaviors.dom() =~= s.behaviors.dom());
            }
        },
        _ => {
            assert(t.behaviors.dom() =~= s.behaviors.dom());
        },
    }
}

/// The steps of a request are the steps of its behaviour.
pub proof fn law_request_steps<T, F>(s: Memory<T, F>, b: u64, i: usize)
    requires
        s.inv(),
        s.live(b),
        i < s.behaviors[b].requests.len(),
    ensures
        ({
            let r = ReqId { behavior: b, index: i };
            let phase = s.behaviors[b].phase;
            &&& phase == Phase::Enqueue(i) || phase == Phase::Resolve(i) || (phase matches Phase::Wait(k, _) && k == i) || (
            phase matches Phase::Link(k, _) && k == i) ==> s.start_enqueue(r) == s.schedule(b) && s.current(b) == r
            &&& phase == Phase::Finish(i) ==> s.finish_enqueue(r) == s.schedule(b) && s.current(b) == r
            &&& phase == Phase::Release(i) && i < s.size(b) || phase == Phase::Exchange(i) || phase == Phase::Spin(i) || (
            phase matches Phase::Notify(k, _) && k == i) || phase == Phase::Clear(i) ==> s.release(r) == s.unwind(b)
                && s.current(b) == r
        }),
{
    lemma_live(s, b);
}

// --- Scheduling as far as it goes. ---

impl<T, F> Memory<T, F> {
    /// The memory after `n` steps of scheduling `b`.
    pub open spec fn schedule_times(self, b: u64, n: nat) -> Memory<T, F>
        decreases n,
    {
        if n == 0 {
            self
        } else {
            self.schedule(b).schedule_times(b, (n - 1) as nat)
        }
    }
}

/// Scheduling as far as it goes makes steps of scheduling, and nothing else, until
/// the behaviour is ready, and is reported so, or is pending, and is reported so, or
/// stands behind a request that is not scheduled, and is reported as waiting.
pub proof fn law_driven<T, F>(s: Memory<T, F>, b: u64)
    requires
        s.inv(),
        s.scheduling(b),
    ensures
        ({
            let (t, progress) = s.drive(b);
            &&& t.inv()
            &&& t.behaviors.contains_key(b)
            &&& exists|n: nat| n > 0 && t == #[trigger] s.schedule_times(b, n)
            &&& match t.behaviors[b].phase {
                Phase::Ready => progress == Progress::Ready(b),
                Phase::Pending => progress == Progress::Pending,
                Phase::Wait(_, prev) => progress == Progress::Waiting
                    && !t.behaviors[prev.behavior].requests[prev.index as int].scheduled,
                _ => false,
            }
        }),
    decreases s.schedule_rank(b),
{
    lemma_schedule_advances(s, b);
    law_schedule_reports(s, b);
    let u = s.schedule(b);
    if s.schedule_progress(b) is Advanced {
        law_driven(u, b);
        let (t, progress) = u.drive(b);
        let n = choose|n: nat| n > 0 && t == #[trigger] u.schedule_times(b, n);
        assert(s.schedule_times(b, n + 1) == u.schedule_times(b, n));
    } else {
        assert(s.schedule_times(b, 1) == u.schedule_times(b, 0));
        assert(u.schedule_times(b, 0) == u);
    }
}

// --- The order of requests. ---

/// Requests are compared by their cowns, and by nothing else.
pub proof fn law_request_order(a: Request, b: Request)
    ensures
        vstd::std_specs::cmp::PartialEqSpec::eq_spec(&a, &b) <==> a.target.inner == b.target.inner,
        vstd::std_specs::cmp::PartialOrdSpec::partial_cmp_spec(&a, &b) == Some(Ordering::Less) <==> a.target.inner
            < b.target.inner,
        vstd::std_specs::cmp::PartialOrdSpec::partial_cmp_spec(&a, &b) == Some(Ordering::Equal) <==> a.target.inner
            == b.target.inner,
        vstd::std_specs::cmp::PartialOrdSpec::partial_cmp_spec(&a, &b) == Some(Ordering::Greater) <==> a.target.inner
            > b.target.inner,
{
}

} // verus!
