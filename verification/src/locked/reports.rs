//! What the steps report, and what they do to each word of the memory.
use crate::laws::law_acquired_owns;
use crate::locked::coupling::{
    lemma_acquire_step, lemma_enlist_step, lemma_live, lemma_model, lemma_notify_step,
    lemma_reclaim_step, lemma_resolve_step, lemma_schedule_step,
    lemma_settle_step, lemma_unwind_step, lemma_wait_known,
};
use crate::locked::driving::lemma_schedule_advances;
use crate::locked::laws::{lemma_lend_all, lemma_return_all, Action};
use crate::locked::memory::{BehaviourView, Cown, Memory, Phase, Request, ResourceState};
use crate::moves::lemma_owned_len;
use crate::progress::Progress;
use crate::protocol::ReqId;
use vstd::prelude::*;

verus! {

impl<T, F> Memory<T, F> {
    /// `x` is alive and ready.
    pub open spec fn is_ready(self, x: u64) -> bool {
        self.behaviours.contains_key(x) && self.behaviours[x].phase == Phase::Ready
    }
}

/// The words that the contracts speak of: what is alive, how far it is, what it asks
/// for. Whoever is alive is being scheduled, is pending, is ready, is running, or is
/// giving back its cowns.
pub proof fn law_words<T, F>(s: Memory<T, F>, b: u64, r: ReqId)
    ensures
        s.live(b) <==> s.behaviours.contains_key(b),
        s.phase(b) == s.behaviours[b].phase,
        s.size(b) == s.behaviours[b].requests.len(),
        s.is_request(r) <==> s.behaviours.contains_key(r.behavior) && r.index < s.behaviours[r.behavior].requests.len(),
        s.request(r) == s.behaviours[r.behavior].requests[r.index as int],
        s.target(r) == s.behaviours[r.behavior].requests[r.index as int].resource.cown,
        s.scheduling(b) <==> s.behaviours.contains_key(b) && match s.behaviours[b].phase {
            Phase::Enqueue(_) | Phase::Resolve(_) | Phase::Wait(_, _) | Phase::Finish(_) => true,
            _ => false,
        },
        s.releasing(b) <==> s.behaviours.contains_key(b) && match s.behaviours[b].phase {
            Phase::Release(_) | Phase::Notify(_, _) => true,
            _ => false,
        },
{
}

// --- Reports. ---

/// Whoever becomes ready is reported, by the step that makes it so: a step of
/// scheduling reports `x` as ready if and only if `x` is ready after the step and
/// was not before.
pub proof fn law_schedule_reports_ready<T, F>(s: Memory<T, F>, b: u64, x: u64)
    requires
        s.inv(),
        s.scheduling(b),
    ensures
        s.schedule_progress(b) == Progress::Ready(x) <==> !s.is_ready(x) && s.schedule(b).is_ready(x),
        s.schedule(b).is_ready(x) && !s.is_ready(x) ==> x == b,
{
    lemma_schedule_step(s, b);
    lemma_live(s, b);
    match s.phase(b) {
        Phase::Enqueue(i) => {
            if i < s.size(b) {
                lemma_acquire_step(s, b);
            }
        },
        Phase::Resolve(_) => lemma_resolve_step(s, b),
        Phase::Finish(i) => {
            if i == s.size(b) {
                lemma_settle_step(s, b);
            }
        },
        _ => {},
    }
}

/// Whoever becomes ready is reported, by the step that makes it so: a step of
/// giving back reports `x` as ready if and only if `x` is ready after the step and
/// was not before.
pub proof fn law_release_reports_ready<T, F>(s: Memory<T, F>, b: u64, x: u64)
    requires
        s.inv(),
        s.releasing(b),
    ensures
        s.unwind_progress(b) == Progress::Ready(x) <==> !s.is_ready(x) && s.unwind(b).is_ready(x),
        s.unwind(b).is_ready(x) && !s.is_ready(x) ==> x != b && s.behaviours[x].phase == Phase::Pending,
{
    lemma_unwind_step(s, b);
    lemma_live(s, b);
    if s.phase(b) is Notify {
        lemma_next(s, b);
    }
}

/// Whoever is about to be told is somebody else, and is pending if one resolution is
/// outstanding.
proof fn lemma_next<T, F>(s: Memory<T, F>, b: u64)
    requires
        s.inv(),
        s.live(b),
        s.phase(b) is Notify,
    ensures
        ({
            let next = s.phase(b)->Notify_1;
            &&& next.behavior != b
            &&& s.is_request(next)
            &&& s.behaviours[next.behavior].count >= 1
            &&& s.behaviours[next.behavior].count == 1 ==> s.phase(next.behavior) == Phase::Pending
            &&& s.phase(next.behavior) != Phase::Ready
        }),
{
    lemma_live(s, b);
    lemma_model(s);
    lemma_notify_step(s, b);
    let r = s.phase(b)->Notify_1;
    lemma_live(s, r.behavior);
    assert(s.model.notifying(b, r));
    assert(s.model.queued(r) && s.model.is_request(r));
    lemma_owned_len(s.model.actors[r.behavior], r.index);
    if s.model.stage(r.behavior).acquired() {
        law_acquired_owns(s.model, r);
    }
}

/// Nobody becomes ready by anything else than a step of scheduling or of giving
/// back.
pub proof fn law_only_steps_make_ready<T, F>(s: Memory<T, F>, a: Action<T, F>, x: u64)
    requires
        s.inv(),
        s.allows(a),
        !(a is Schedule),
        !(a is Release),
    ensures
        s.after(a).is_ready(x) ==> s.is_ready(x),
{
    match a {
        Action::Lend(b, addrs, at) => lemma_lend_all(s, b, addrs, at),
        Action::Return(b, addrs, values) => lemma_return_all(s, b, addrs, values),
        _ => {},
    }
}

/// The other reports of a step of scheduling: it has waited if and only if nothing
/// has changed, which is so if and only if the request in front is not scheduled;
/// the behaviour is pending if and only if it is reported so; and otherwise its
/// scheduling goes on, or it is ready.
pub proof fn law_schedule_reports<T, F>(s: Memory<T, F>, b: u64)
    requires
        s.inv(),
        s.scheduling(b),
    ensures
        ({
            let t = s.schedule(b);
            let progress = s.schedule_progress(b);
            &&& t.behaviours.contains_key(b)
            &&& progress == Progress::Waiting <==> t == s
            &&& progress == Progress::Waiting <==> match s.behaviours[b].phase {
                Phase::Wait(_, prev) => s.behaviours.contains_key(prev.behavior)
                    && !s.behaviours[prev.behavior].requests[prev.index as int].scheduled,
                _ => false,
            }
            &&& progress == Progress::Pending <==> t.behaviours[b].phase == Phase::Pending
            &&& progress == Progress::Ready(b) <==> t.behaviours[b].phase == Phase::Ready
            &&& progress == Progress::Advanced <==> t.scheduling(b) && t != s
            &&& progress != Progress::Finished
        }),
{
    lemma_schedule_step(s, b);
    lemma_live(s, b);
    let t = s.schedule(b);
    match s.phase(b) {
        Phase::Enqueue(i) => {
            if i < s.size(b) {
                lemma_acquire_step(s, b);
            }
        },
        Phase::Resolve(_) => lemma_resolve_step(s, b),
        Phase::Wait(_, prev) => lemma_wait_known(s, b),
        Phase::Finish(i) => {
            if i == s.size(b) {
                lemma_settle_step(s, b);
            }
        },
        _ => {},
    }
    lemma_live(t, b);
    if t == s {
        assert(t.behaviours[b].phase == s.behaviours[b].phase);
    }
}

/// The other reports of a step of giving back: it never waits, and the behaviour is
/// gone if and only if it is reported so.
pub proof fn law_release_reports<T, F>(s: Memory<T, F>, b: u64)
    requires
        s.inv(),
        s.releasing(b),
    ensures
        ({
            let t = s.unwind(b);
            let progress = s.unwind_progress(b);
            &&& t != s
            &&& progress == Progress::Finished <==> !t.behaviours.contains_key(b)
            &&& progress != Progress::Finished ==> t.releasing(b)
            &&& progress != Progress::Waiting
            &&& progress != Progress::Pending
        }),
{
    lemma_unwind_step(s, b);
    lemma_live(s, b);
    let t = s.unwind(b);
    if s.phase(b) is Notify {
        lemma_next(s, b);
    }
    if t.live(b) {
        lemma_live(t, b);
    }
    if t == s {
        assert(t.behaviours.contains_key(b));
        assert(t.behaviours[b].phase == s.behaviours[b].phase);
    }
}

// --- Each at its own pace. ---

/// A behaviour goes on only by its own steps. The one exception is that a behaviour
/// that is pending becomes ready by the step of another one, which reports it.
pub proof fn law_own_pace<T, F>(s: Memory<T, F>, a: Action<T, F>, x: u64)
    requires
        s.inv(),
        s.allows(a),
        s.live(x),
        a != Action::<T, F>::Schedule(x),
        a != Action::<T, F>::Run(x),
        a != Action::<T, F>::Complete(x),
        a != Action::<T, F>::Release(x),
    ensures
        s.after(a).behaviours.contains_key(x),
        ({
            let v = s.behaviours[x];
            let w = s.after(a).behaviours[x];
            &&& w.phase == v.phase || v.phase == Phase::Pending && w.phase == Phase::Ready && a is Release
                && s.unwind_progress(a->Release_0) == Progress::Ready(x)
            &&& w.routine == v.routine
            &&& w.targets() == v.targets()
        }),
{
    lemma_live(s, x);
    lemma_model(s);
    match a {
        Action::Lend(b, addrs, at) => lemma_lend_all(s, b, addrs, at),
        Action::Return(b, addrs, values) => lemma_return_all(s, b, addrs, values),
        Action::Enlist(v) => lemma_enlist_step(s, v),
        Action::Schedule(b) => {
            lemma_live(s, b);
            if s.phase(b) is Enqueue && s.phase(b)->Enqueue_0 < s.size(b) {
                lemma_acquire_step(s, b);
            }
        },
        Action::Release(b) => {
            lemma_live(s, b);
            if s.phase(b) is Notify {
                lemma_next(s, b);
                law_release_reports_ready(s, b, x);
                lemma_unwind_step(s, b);
                lemma_live(s.unwind(b), x);
            }
        },
        _ => {},
    }
    assert(s.after(a).behaviours[x].targets() =~= s.behaviours[x].targets());
}

/// A routine is kept until it is started: every action but its own start leaves it,
/// as it was handed over, in the memory.
pub proof fn law_routine_kept<T, F>(s: Memory<T, F>, a: Action<T, F>, x: u64)
    requires
        s.inv(),
        s.allows(a),
        s.live(x),
        s.behaviours[x].routine is Some,
        a != Action::<T, F>::Run(x),
    ensures
        s.after(a).behaviours.contains_key(x),
        s.after(a).behaviours[x].routine == s.behaviours[x].routine,
{
    lemma_live(s, x);
    lemma_model(s);
    match a {
        Action::Lend(b, addrs, at) => lemma_lend_all(s, b, addrs, at),
        Action::Return(b, addrs, values) => lemma_return_all(s, b, addrs, values),
        Action::Enlist(v) => lemma_enlist_step(s, v),
        Action::Schedule(b) => {
            lemma_live(s, b);
            if s.phase(b) is Enqueue && s.phase(b)->Enqueue_0 < s.size(b) {
                lemma_acquire_step(s, b);
            }
        },
        Action::Release(b) => {
            lemma_live(s, b);
            if s.phase(b) is Notify {
                lemma_notify_step(s, b);
            }
        },
        _ => {},
    }
}

// --- What each action does. ---

/// At the beginning there are no cowns and no behaviours.
pub proof fn law_beginning<T, F>()
    ensures
        Memory::<T, F>::empty().cowns.len() == 0,
        Memory::<T, F>::empty().next_id == 0,
        forall|b: u64| !#[trigger] Memory::<T, F>::empty().behaviours.contains_key(b),
{
}

/// A new cown comes last, holds its value, and is available. Nothing else changes.
pub proof fn law_new_cown<T, F>(s: Memory<T, F>, value: T)
    ensures
        ({
            let t = s.add_cown(value);
            &&& t.cowns == s.cowns.push(Cown { last_request: None, borrow_at: None, resource: Some(value) })
            &&& t.behaviours == s.behaviours
            &&& t.next_id == s.next_id
        }),
{
}

/// A behaviour that is handed over gets the next name, and is as it was created.
/// Nothing else changes.
pub proof fn law_handed_over<T, F>(s: Memory<T, F>, v: BehaviourView<F>)
    requires
        s.inv(),
        s.allows(Action::Enlist(v)),
    ensures
        ({
            let t = s.enlist(v);
            &&& !s.behaviours.contains_key(s.next_id as u64)
            &&& t.behaviours == s.behaviours.insert(s.next_id as u64, v)
            &&& t.next_id == s.next_id + 1
            &&& t.cowns == s.cowns
        }),
{
    lemma_enlist_step(s, v);
}

/// Starting a routine takes it out of the memory; ending it begins the giving back.
/// Nothing else changes.
pub proof fn law_run_and_complete<T, F>(s: Memory<T, F>, b: u64)
    ensures
        ({
            let t = s.run(b);
            &&& t.behaviours == s.behaviours.insert(
                b,
                BehaviourView { routine: None, phase: Phase::Running, ..s.behaviours[b] },
            )
            &&& t.cowns == s.cowns
            &&& t.next_id == s.next_id
        }),
        ({
            let t = s.complete(b);
            &&& t.behaviours == s.behaviours.insert(b, BehaviourView { phase: Phase::Release(0), ..s.behaviours[b] })
            &&& t.cowns == s.cowns
            &&& t.next_id == s.next_id
        }),
{
}

/// Reclaiming replaces one value. Nothing else changes.
pub proof fn law_reclaimed<T, F>(s: Memory<T, F>, a: usize, rest: T)
    requires
        s.inv(),
        s.allows(Action::Reclaim(a, rest)),
    ensures
        ({
            let t = s.after(Action::Reclaim(a, rest));
            &&& s.cowns[a as int].resource is Some
            &&& t.cowns == s.cowns.update(a as int, Cown { last_request: None, borrow_at: None, resource: Some(rest) })
            &&& t.behaviours == s.behaviours
            &&& t.next_id == s.next_id
        }),
{
    lemma_reclaim_step(s, a as int, rest);
}

/// Counting one resolution takes one from the count, and makes the behaviour ready
/// if and only if that was the last. Nothing else changes.
pub proof fn law_resolution<T, F>(s: Memory<T, F>, b: u64)
    ensures
        ({
            let v = s.behaviours[b];
            let t = s.resolve_one(b);
            &&& t.behaviours == s.behaviours.insert(
                b,
                BehaviourView {
                    count: v.count - 1,
                    phase: if v.count - 1 == 0 {
                        Phase::Ready
                    } else {
                        v.phase
                    },
                    ..v
                },
            )
            &&& t.cowns == s.cowns
            &&& t.next_id == s.next_id
        }),
{
}

impl<T, F> Memory<T, F> {
    /// `t` differs from `self` in the cowns and in the words of `b` at most.
    pub open spec fn only_differs_at(self, b: u64, t: Memory<T, F>) -> bool {
        &&& t.next_id == self.next_id
        &&& t.behaviours.dom() == self.behaviours.dom()
        &&& forall|x: u64| x != b && #[trigger] self.behaviours.contains_key(x) ==> t.behaviours[x] == self.behaviours[x]
    }
}

/// What a step of scheduling does, by the program of a scheduler: it becomes the end
/// of the queue of each cown; where the cown was free, it owns it and counts itself;
/// otherwise it registers at the former end, notes that, and goes on once that one
/// is scheduled; then it marks its requests; then it counts its own resolution.
pub proof fn law_schedule_effect<T, F>(s: Memory<T, F>, b: u64)
    requires
        s.inv(),
        s.live(b),
    ensures
        ({
            let v = s.behaviours[b];
            let t = s.schedule(b);
            let w = t.behaviours[b];
            let n = v.requests.len() as int;
            match v.phase {
                Phase::Enqueue(i) => if i < n {
                    let c = v.requests[i as int].resource.cown as int;
                    let last = s.cowns[c].last_request;
                    &&& t.next_id == s.next_id
                    &&& t.cowns == s.cowns.update(
                        c,
                        Cown {
                            last_request: Some(ReqId { behavior: b, index: i }),
                            borrow_at: s.cowns[c].borrow_at,
                            resource: s.cowns[c].resource,
                        },
                    )
                    &&& t.behaviours.dom() == s.behaviours.dom()
                    &&& w.phase == (match last {
                        None => Phase::Resolve(i),
                        Some(prev) => Phase::Wait(i, prev),
                    })
                    &&& forall|x: u64| #[trigger] s.behaviours.contains_key(x) ==> {
                        &&& t.behaviours[x].requests.len() == s.behaviours[x].requests.len()
                        &&& t.behaviours[x].count == s.behaviours[x].count
                        &&& t.behaviours[x].routine == s.behaviours[x].routine
                        &&& x != b ==> t.behaviours[x].phase == s.behaviours[x].phase
                    }
                    &&& forall|r: ReqId| #[trigger] s.is_request(r) ==> {
                        let q = s.behaviours[r.behavior].requests[r.index as int];
                        t.behaviours[r.behavior].requests[r.index as int] == (Request {
                            resource: q.resource,
                            scheduled: q.scheduled,
                            state: if r.behavior == b && r.index == i && last is Some {
                                ResourceState::Certificate
                            } else {
                                q.state
                            },
                            callback: if last == Some(r) {
                                Some(ReqId { behavior: b, index: i })
                            } else {
                                q.callback
                            },
                        })
                    }
                } else {
                    &&& s.only_differs_at(b, t)
                    &&& t.cowns == s.cowns
                    &&& w == (BehaviourView { phase: Phase::Finish(0), ..v })
                },
                Phase::Resolve(i) => {
                    &&& s.only_differs_at(b, t)
                    &&& t.cowns == s.cowns
                    &&& w == (BehaviourView {
                        requests: v.requests.update(
                            i as int,
                            Request { state: ResourceState::Owned, ..v.requests[i as int] },
                        ),
                        count: v.count - 1,
                        phase: Phase::Enqueue((i + 1) as usize),
                        ..v
                    })
                },
                Phase::Wait(i, prev) => {
                    &&& s.only_differs_at(b, t)
                    &&& t.cowns == s.cowns
                    &&& w == (BehaviourView {
                        phase: if !s.behaviours.contains_key(prev.behavior)
                            || s.behaviours[prev.behavior].requests[prev.index as int].scheduled {
                            Phase::Enqueue((i + 1) as usize)
                        } else {
                            v.phase
                        },
                        ..v
                    })
                },
                Phase::Finish(i) => {
                    &&& s.only_differs_at(b, t)
                    &&& t.cowns == s.cowns
                    &&& if i < n {
                        w == (BehaviourView {
                            requests: v.requests.update(i as int, Request { scheduled: true, ..v.requests[i as int] }),
                            phase: Phase::Finish((i + 1) as usize),
                            ..v
                        })
                    } else {
                        w == (BehaviourView {
                            count: v.count - 1,
                            phase: if v.count - 1 == 0 {
                                Phase::Ready
                            } else {
                                Phase::Pending
                            },
                            ..v
                        })
                    }
                },
                _ => true,
            }
        }),
{
    lemma_live(s, b);
    let t = s.schedule(b);
    match s.phase(b) {
        Phase::Enqueue(i) => {
            if i < s.size(b) {
                lemma_acquire_step(s, b);
            }
            assert(t.behaviours.dom() =~= s.behaviours.dom());
        },
        Phase::Wait(i, prev) => {
            lemma_wait_known(s, b);
            assert(t.behaviours =~= s.behaviours.insert(b, t.behaviours[b]));
            assert(t.behaviours.dom() =~= s.behaviours.dom());
        },
        Phase::Resolve(_) => {
            lemma_resolve_step(s, b);
            assert(t.behaviours.dom() =~= s.behaviours.dom());
        },
        _ => {
            assert(t.behaviours.dom() =~= s.behaviours.dom());
        },
    }
}

/// What a step of giving back does, by the program of a releaser: if a request is
/// registered, it takes note of it and forgets it, and then hands it the cown: that
/// one owns it, and its behaviour has one resolution less outstanding, and is ready
/// if that was the last. If none is registered, the cown is free. After the last
/// request the behaviour is gone.
pub proof fn law_release_effect<T, F>(s: Memory<T, F>, b: u64)
    requires
        s.inv(),
        s.live(b),
    ensures
        ({
            let v = s.behaviours[b];
            let t = s.unwind(b);
            let w = t.behaviours[b];
            let n = v.requests.len() as int;
            match v.phase {
                Phase::Release(i) => if i < n {
                    let q = v.requests[i as int];
                    let c = q.resource.cown as int;
                    &&& s.only_differs_at(b, t)
                    &&& match q.callback {
                        Some(next) => {
                            &&& t.cowns == s.cowns
                            &&& w == (BehaviourView {
                                requests: v.requests.update(i as int, Request { callback: None, ..q }),
                                phase: Phase::Notify(i, next),
                                ..v
                            })
                        },
                        None => {
                            &&& t.cowns == s.cowns.update(
                                c,
                                Cown {
                                    last_request: None,
                                    borrow_at: s.cowns[c].borrow_at,
                                    resource: s.cowns[c].resource,
                                },
                            )
                            &&& w == (BehaviourView { phase: Phase::Release((i + 1) as usize), ..v })
                        },
                    }
                } else {
                    &&& t.behaviours == s.behaviours.remove(b)
                    &&& t.cowns == s.cowns
                    &&& t.next_id == s.next_id
                },
                Phase::Notify(i, next) => {
                    let p = s.behaviours[next.behavior];
                    &&& next.behavior != b
                    &&& s.behaviours.contains_key(next.behavior)
                    &&& s.with_behaviour(
                        next.behavior,
                        BehaviourView {
                            requests: p.requests.update(
                                next.index as int,
                                Request { state: ResourceState::Owned, ..p.requests[next.index as int] },
                            ),
                            count: p.count - 1,
                            phase: if p.count - 1 == 0 {
                                Phase::Ready
                            } else {
                                p.phase
                            },
                            ..p
                        },
                    ).only_differs_at(b, t)
                    &&& t.cowns == s.cowns
                    &&& w == (BehaviourView { phase: Phase::Release((i + 1) as usize), ..v })
                },
                _ => true,
            }
        }),
{
    lemma_live(s, b);
    let t = s.unwind(b);
    match s.phase(b) {
        Phase::Notify(i, next) => {
            lemma_next(s, b);
            assert(t.behaviours.dom() =~= s.behaviours.dom());
            assert(s.behaviours.dom().insert(next.behavior) =~= s.behaviours.dom());
        },
        Phase::Release(i) => {
            if i < s.size(b) {
                assert(t.behaviours.dom() =~= s.behaviours.dom());
            }
        },
        _ => {},
    }
}

/// The steps of a request are the steps of its behaviour.
pub proof fn law_request_steps<T, F>(s: Memory<T, F>, b: u64, i: usize)
    requires
        s.inv(),
        s.live(b),
        i < s.behaviours[b].requests.len(),
    ensures
        ({
            let r = ReqId { behavior: b, index: i };
            let phase = s.behaviours[b].phase;
            &&& phase == Phase::Enqueue(i) || phase == Phase::Resolve(i) || (phase matches Phase::Wait(k, _) && k == i)
                ==> s.start_enqueue(r) == s.schedule(b) && s.current(b) == r
            &&& phase == Phase::Finish(i) ==> s.finish_enqueue(r) == s.schedule(b) && s.current(b) == r
            &&& phase == Phase::Release(i) || (phase matches Phase::Notify(k, _) && k == i) ==> s.release(r) == s.unwind(b)
                && s.current(b) == r
        }),
{
    lemma_live(s, b);
}

// --- Scheduling as far as it goes. ---

impl<T, F> Memory<T, F> {
    /// The memory after `n` steps of scheduling `b`.
    pub open spec fn schedule_times(self, b: u64, n: nat) -> Memory<T, F>
        decreases n,
    {
        if n == 0 {
            self
        } else {
            self.schedule(b).schedule_times(b, (n - 1) as nat)
        }
    }
}

/// Scheduling as far as it goes makes steps of scheduling, and nothing else, until
/// the behaviour is ready, and is reported so, or is pending, and is reported so, or
/// stands behind a request that is not scheduled, and is reported as waiting.
pub proof fn law_driven<T, F>(s: Memory<T, F>, b: u64)
    requires
        s.inv(),
        s.scheduling(b),
    ensures
        ({
            let (t, progress) = s.drive(b);
            &&& t.inv()
            &&& t.behaviours.contains_key(b)
            &&& exists|n: nat| n > 0 && t == #[trigger] s.schedule_times(b, n)
            &&& match t.behaviours[b].phase {
                Phase::Ready => progress == Progress::Ready(b),
                Phase::Pending => progress == Progress::Pending,
                Phase::Wait(_, prev) => progress == Progress::Waiting && t.behaviours.contains_key(prev.behavior)
                    && !t.behaviours[prev.behavior].requests[prev.index as int].scheduled,
                _ => false,
            }
        }),
    decreases s.schedule_rank(b),
{
    lemma_schedule_advances(s, b);
    law_schedule_reports(s, b);
    let u = s.schedule(b);
    if s.schedule_progress(b) is Advanced {
        law_driven(u, b);
        let (t, progress) = u.drive(b);
        let n = choose|n: nat| n > 0 && t == #[trigger] u.schedule_times(b, n);
        assert(s.schedule_times(b, n + 1) == u.schedule_times(b, n));
    } else {
        assert(s.schedule_times(b, 1) == u.schedule_times(b, 0));
        assert(u.schedule_times(b, 0) == u);
    }
}

} // verus!
