//! Requests: one behaviour asking for one cown.
use crate::locked::behaviour::Behaviour;
use crate::locked::coupling::{
    lemma_acquire_step, lemma_finish_step, lemma_live, lemma_notify_step, lemma_resolve_step,
    lemma_schedule_step, lemma_unwind_step, lemma_wait_known,
};
use crate::locked::cown::ArcCown;
use crate::locked::memory::{AcquireResult, Phase, Request, ResourceHolder, ResourceState};
use crate::locked::runtime::Runtime;
use crate::moves::Move;
use crate::progress::Progress;
use crate::protocol::ReqId;
use crate::sorting::Located;
use vstd::prelude::*;

verus! {

impl ResourceHolder {
    /// Forgets the type of the value.
    pub fn new<T>(resource: ArcCown<T>) -> (holder: ResourceHolder)
        ensures
            holder.cown == resource.addr(),
    {
        ResourceHolder { cown: resource.into_dyn() }
    }

    /// Makes `r` the end of the queue of the cown. If somebody was there before,
    /// `r` is registered with them, to get the cown when they release it.
    pub(crate) fn acquire_or_register_callback<T, F>(&self, rt: &mut Runtime<T, F>, r: ReqId) -> (result: AcquireResult)
        requires
            old(rt)@.is_request(r),
            old(rt)@.request(r).resource == *self,
            self.cown < old(rt)@.cowns.len(),
            old(rt)@.cowns[self.cown as int].last_request matches Some(prev) ==> old(rt)@.is_request(prev),
        ensures
            result == old(rt)@.acquire_result(r),
            final(rt)@ == old(rt)@.acquire_or_register_callback(r),
    {
        let last_request = rt.cown(self.cown).last_request;
        let result = match last_request {
            None => AcquireResult::Success,
            Some(prev) => {
                Request::register_callback(rt, prev, r);
                AcquireResult::WaitFor(prev)
            },
        };
        rt.store_last(self.cown, Some(r));
        result
    }
}

impl Request {
    /// Asks for `resource`.
    pub fn new<T>(resource: ArcCown<T>) -> (request: Request)
        ensures
            request == Request::fresh(resource.addr()),
    {
        Request {
            resource: ResourceHolder::new(resource),
            scheduled: false,
            state: ResourceState::Initial,
            callback: None,
        }
    }

    /// Makes one step of putting `r` into the queue of its cown.
    ///
    /// The first step acquires the cown, or registers at the request in front.
    /// If the cown was acquired, the next step counts the request as resolved.
    /// Otherwise the following steps look at the request in front until that one
    /// is scheduled.
    pub fn start_enqueue<T, F>(rt: &mut Runtime<T, F>, r: ReqId) -> (progress: Progress)
        requires
            old(rt).wf(),
            old(rt)@.scheduling(r.behavior),
            r == old(rt)@.current(r.behavior),
            r.index < old(rt)@.size(r.behavior),
            !(old(rt)@.phase(r.behavior) is Finish),
        ensures
            final(rt).wf(),
            final(rt)@ == old(rt)@.start_enqueue(r),
            progress == old(rt)@.schedule_progress(r.behavior),
    {
        let ghost before = rt@;
        let b = r.behavior;
        proof {
            lemma_live(before, b);
            lemma_schedule_step(before, b);
            assert(before.schedule(b) == before.start_enqueue(r));
            assert(before.is_request(r));
        }
        match rt.behaviour(b).phase() {
            Phase::Enqueue(i) => {
                proof {
                    lemma_acquire_step(before, b);
                }
                let resource = rt.request(r).resource;
                match resource.acquire_or_register_callback(rt, r) {
                    AcquireResult::Success => {
                        rt.set_phase(b, Phase::Resolve(i));
                    },
                    AcquireResult::WaitFor(prev) => {
                        rt.store_state(r, ResourceState::Certificate);
                        rt.set_phase(b, Phase::Wait(i, prev));
                    },
                }
                rt.note(Ghost(before.model.apply(Move::Enqueue(b))));
                Progress::Advanced
            },
            Phase::Resolve(i) => {
                proof {
                    lemma_resolve_step(before, b);
                }
                rt.store_state(r, ResourceState::Owned);
                let _ = Behaviour::resolve_one(rt, b);
                rt.set_phase(b, Phase::Enqueue(i + 1));
                rt.note(Ghost(before.model.apply(Move::Resolve(b))));
                Progress::Advanced
            },
            Phase::Wait(i, prev) => {
                proof {
                    lemma_wait_known(before, b);
                }
                if !rt.is_live(prev.behavior) || rt.request(prev).scheduled {
                    rt.set_phase(b, Phase::Enqueue(i + 1));
                    rt.note(Ghost(before.model.apply(Move::Pass(b))));
                    Progress::Advanced
                } else {
                    Progress::Waiting
                }
            },
            _ => Progress::Waiting,
        }
    }

    /// Registers `callback` at `r`: it gets the cown when `r` releases it.
    pub(crate) fn register_callback<T, F>(rt: &mut Runtime<T, F>, r: ReqId, callback: ReqId)
        requires
            old(rt)@.is_request(r),
        ensures
            final(rt)@ == old(rt)@.with_callback(r, Some(callback)),
    {
        rt.store_callback(r, Some(callback));
    }

    /// Marks `r` as scheduled, so that other schedulers may pass it.
    pub fn finish_enqueue<T, F>(rt: &mut Runtime<T, F>, r: ReqId)
        requires
            old(rt).wf(),
            old(rt)@.live(r.behavior),
            old(rt)@.phase(r.behavior) == Phase::Finish(r.index),
            r.index < old(rt)@.size(r.behavior),
        ensures
            final(rt).wf(),
            final(rt)@ == old(rt)@.finish_enqueue(r),
    {
        let ghost before = rt@;
        let b = r.behavior;
        proof {
            lemma_live(before, b);
            lemma_finish_step(before, b);
            assert(before.schedule(b) == before.finish_enqueue(r));
        }
        rt.store_scheduled(r);
        rt.set_phase(b, Phase::Finish(r.index + 1));
        rt.note(Ghost(before.model.apply(Move::Finish(b))));
    }

    /// Makes one step of giving the cown of `r` to the next behaviour.
    ///
    /// If nobody is registered at `r`, the cown becomes free. Otherwise the next
    /// step hands it to the request that is registered.
    pub fn release<T, F>(rt: &mut Runtime<T, F>, r: ReqId) -> (progress: Progress)
        requires
            old(rt).wf(),
            old(rt)@.releasing(r.behavior),
            r == old(rt)@.current(r.behavior),
            r.index < old(rt)@.size(r.behavior),
        ensures
            final(rt).wf(),
            final(rt)@ == old(rt)@.release(r),
            progress == old(rt)@.unwind_progress(r.behavior),
    {
        let ghost before = rt@;
        let b = r.behavior;
        proof {
            lemma_live(before, b);
            lemma_unwind_step(before, b);
            assert(before.is_request(r));
            assert(before.unwind(b) == before.release(r));
        }
        match rt.behaviour(b).phase() {
            Phase::Release(i) => {
                match rt.request(r).callback {
                    Some(next) => {
                        rt.store_callback(r, None);
                        rt.set_phase(b, Phase::Notify(i, next));
                    },
                    None => {
                        let cown: usize = rt.request(r).resource.cown;
                        rt.store_last(cown, None);
                        rt.set_phase(b, Phase::Release(i + 1));
                    },
                }
                rt.note(Ghost(before.model.apply(Move::Release(b))));
                Progress::Advanced
            },
            Phase::Notify(i, next) => {
                proof {
                    lemma_notify_step(before, b);
                }
                rt.store_state(next, ResourceState::Owned);
                let ready = Behaviour::resolve_one(rt, next.behavior);
                rt.set_phase(b, Phase::Release(i + 1));
                rt.note(Ghost(before.model.apply(Move::Notify(b))));
                if ready {
                    Progress::Ready(next.behavior)
                } else {
                    Progress::Advanced
                }
            },
            _ => Progress::Waiting,
        }
    }
}

impl Located for Request {
    open spec fn location(&self) -> usize {
        self.resource.cown
    }

    fn locate(&self) -> (a: usize) {
        self.resource.cown
    }
}

} // verus!
