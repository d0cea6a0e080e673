//! Requests: one behaviour asking for one cown.
use crate::mcs::behavior::Behavior;
use crate::mcs::coupling::{
    lemma_finish_step, lemma_link_step, lemma_live, lemma_notify_step, lemma_resolve_step,
    lemma_schedule_step, lemma_unwind_step, lemma_wait_known,
};
use crate::mcs::cown::{CownHolder, CownPtr};
use crate::mcs::memory::Phase;
use crate::mcs::runtime::Runtime;
use crate::moves::Move;
use crate::progress::Progress;
use crate::protocol::ReqId;
use crate::sorting::Located;
use std::cmp::Ordering;
use vstd::prelude::*;

verus! {

/// One behaviour asking for one cown: a node of the queue of the cown.
#[derive(Clone, Copy, Debug)]
pub struct Request {
    /// The behaviour that is to be told when the cown is given back.
    pub next: Option<u64>,
    /// Set in the second phase: from then on the request may be passed.
    pub scheduled: bool,
    /// The cown.
    pub target: CownHolder,
}

impl Request {
    /// Asks for `target`.
    pub fn new<T>(target: CownPtr<T>) -> (request: Request)
        ensures
            request == Request::fresh(target.addr()),
    {
        Request { next: None, scheduled: false, target: CownHolder::new(target) }
    }

    /// Makes one step of putting `r` into the queue of its cown.
    ///
    /// The first step swaps `r` into the tail of the cown. If the tail was
    /// empty, the next step counts the request as resolved. Otherwise the
    /// following steps look at the request in front until that one is
    /// scheduled, and then make it point to this behaviour.
    pub fn start_enqueue<T, F>(rt: &mut Runtime<T, F>, r: ReqId) -> (progress: Progress)
        requires
            old(rt).wf(),
            old(rt)@.scheduling(r.behavior),
            r == old(rt)@.current(r.behavior),
            r.index < old(rt)@.size(r.behavior),
            !(old(rt)@.phase(r.behavior) is Finish),
        ensures
            final(rt).wf(),
            final(rt)@ == old(rt)@.start_enqueue(r),
            progress == old(rt)@.schedule_progress(r.behavior),
    {
        let ghost before = rt@;
        let b = r.behavior;
        proof {
            lemma_live(before, b);
            lemma_schedule_step(before, b);
            assert(before.schedule(b) == before.start_enqueue(r));
        }
        match rt.behavior(b).phase() {
            Phase::Enqueue(i) => {
                proof {
                    assert(before.is_request(r));
                }
                let target = rt.request(r).target;
                let previous = target.last_swap(rt, Some(r));
                match previous {
                    None => rt.set_phase(b, Phase::Resolve(i)),
                    Some(prev) => rt.set_phase(b, Phase::Wait(i, prev)),
                }
                rt.note(Ghost(before.model.apply(Move::Enqueue(b))));
                Progress::Advanced
            },
            Phase::Resolve(i) => {
                proof {
                    lemma_resolve_step(before, b);
                }
                let _ = Behavior::resolve_one(rt, b);
                rt.set_phase(b, Phase::Enqueue(i + 1));
                rt.note(Ghost(before.model.apply(Move::Resolve(b))));
                Progress::Advanced
            },
            Phase::Wait(i, prev) => {
                proof {
                    lemma_wait_known(before, b);
                }
                if rt.request(prev).scheduled {
                    rt.set_phase(b, Phase::Link(i, prev));
                    Progress::Advanced
                } else {
                    Progress::Waiting
                }
            },
            Phase::Link(i, prev) => {
                proof {
                    lemma_link_step(before, b);
                }
                rt.store_next(prev, Some(b));
                rt.set_phase(b, Phase::Enqueue(i + 1));
                rt.note(Ghost(before.model.apply(Move::Pass(b))));
                Progress::Advanced
            },
            _ => Progress::Waiting,
        }
    }

    /// Marks `r` as scheduled, so that other schedulers may pass it.
    pub fn finish_enqueue<T, F>(rt: &mut Runtime<T, F>, r: ReqId)
        requires
            old(rt).wf(),
            old(rt)@.live(r.behavior),
            old(rt)@.phase(r.behavior) == Phase::Finish(r.index),
            r.index < old(rt)@.size(r.behavior),
        ensures
            final(rt).wf(),
            final(rt)@ == old(rt)@.finish_enqueue(r),
    {
        let ghost before = rt@;
        let b = r.behavior;
        proof {
            lemma_live(before, b);
            lemma_finish_step(before, b);
            assert(before.schedule(b) == before.finish_enqueue(r));
        }
        rt.store_scheduled(r);
        rt.set_phase(b, Phase::Finish(r.index + 1));
        rt.note(Ghost(before.model.apply(Move::Finish(b))));
    }

    /// Makes one step of giving the cown of `r` to the next behaviour.
    ///
    /// If `r` points to nobody, and is still the tail of the cown, the tail is
    /// emptied. If it is not the tail, somebody is about to link to it, and the
    /// step is repeated until that has happened. The behaviour that `r` points
    /// to is then told, and forgotten.
    pub fn release<T, F>(rt: &mut Runtime<T, F>, r: ReqId) -> (progress: Progress)
        requires
            old(rt).wf(),
            old(rt)@.releasing(r.behavior),
            r == old(rt)@.current(r.behavior),
            r.index < old(rt)@.size(r.behavior),
        ensures
            final(rt).wf(),
            final(rt)@ == old(rt)@.release(r),
            progress == old(rt)@.unwind_progress(r.behavior),
    {
        let ghost before = rt@;
        let b = r.behavior;
        proof {
            lemma_live(before, b);
            lemma_unwind_step(before, b);
            assert(before.is_request(r));
            assert(before.unwind(b) == before.release(r));
        }
        match rt.behavior(b).phase() {
            Phase::Release(i) => {
                match rt.request(r).next {
                    Some(next) => {
                        rt.set_phase(b, Phase::Notify(i, next));
                        rt.note(Ghost(before.model.apply(Move::Release(b))));
                    },
                    None => rt.set_phase(b, Phase::Exchange(i)),
                }
                Progress::Advanced
            },
            Phase::Exchange(i) => {
                let target = rt.request(r).target;
                match target.last_compare_exchange(rt, Some(r), None) {
                    Ok(_) => {
                        rt.set_phase(b, Phase::Release(i + 1));
                        rt.note(Ghost(before.model.apply(Move::Release(b))));
                    },
                    Err(_) => rt.set_phase(b, Phase::Spin(i)),
                }
                Progress::Advanced
            },
            Phase::Spin(i) => {
                match rt.request(r).next {
                    Some(next) => {
                        rt.set_phase(b, Phase::Notify(i, next));
                        rt.note(Ghost(before.model.apply(Move::Release(b))));
                        Progress::Advanced
                    },
                    None => Progress::Waiting,
                }
            },
            Phase::Notify(i, next) => {
                proof {
                    lemma_notify_step(before, b);
                }
                let ready = Behavior::resolve_one(rt, next);
                rt.set_phase(b, Phase::Clear(i));
                rt.note(Ghost(before.model.apply(Move::Notify(b))));
                if ready {
                    Progress::Ready(next)
                } else {
                    Progress::Advanced
                }
            },
            Phase::Clear(i) => {
                rt.store_next(r, None);
                rt.set_phase(b, Phase::Release(i + 1));
                Progress::Advanced
            },
            _ => Progress::Waiting,
        }
    }

    /// Compares two requests by the cowns that they ask for.
    pub fn cmp(&self, other: &Request) -> (order: Ordering)
        ensures
            match order {
                Ordering::Less => self.target.inner < other.target.inner,
                Ordering::Equal => self.target.inner == other.target.inner,
                Ordering::Greater => self.target.inner > other.target.inner,
            },
    {
        if self.target.inner < other.target.inner {
            Ordering::Less
        } else if self.target.inner == other.target.inner {
            Ordering::Equal
        } else {
            Ordering::Greater
        }
    }
}

impl Located for Request {
    open spec fn location(&self) -> usize {
        self.target.inner
    }

    fn locate(&self) -> (a: usize) {
        self.target.inner
    }
}

impl PartialEq for Request {
    fn eq(&self, other: &Request) -> (same: bool) {
        match self.cmp(other) {
            Ordering::Equal => true,
            _ => false,
        }
    }
}

impl vstd::std_specs::cmp::PartialEqSpecImpl for Request {
    open spec fn obeys_eq_spec() -> bool {
        true
    }

    open spec fn eq_spec(&self, other: &Request) -> bool {
        self.target.inner == other.target.inner
    }
}

impl Eq for Request {

}

impl PartialOrd for Request {
    fn partial_cmp(&self, other: &Request) -> (order: Option<Ordering>) {
        Some(self.cmp(other))
    }
}

impl vstd::std_specs::cmp::PartialOrdSpecImpl for Request {
    open spec fn obeys_partial_cmp_spec() -> bool {
        true
    }

    open spec fn partial_cmp_spec(&self, other: &Request) -> Option<Ordering> {
        if self.target.inner < other.target.inner {
            Some(Ordering::Less)
        } else if self.target.inner == other.target.inner {
            Some(Ordering::Equal)
        } else {
            Some(Ordering::Greater)
        }
    }
}

} // verus!
