//! Scheduling a behaviour as far as it goes.
use crate::mcs::coupling::{lemma_link_step, lemma_live, lemma_schedule_step, lemma_wait_known};
use crate::mcs::memory::{BehaviorView, Memory, Phase};
use crate::mcs::request::Request;
use crate::progress::Progress;
use crate::sorting::in_order;
use vstd::prelude::*;

verus! {

/// One fresh request for each of `addrs`.
pub open spec fn fresh_requests(addrs: Seq<usize>) -> Seq<Request> {
    Seq::new(addrs.len(), |i: int| Request::fresh(addrs[i]))
}

impl<F> BehaviorView<F> {
    /// A behaviour that asks for the cowns `addrs`, before its first step.
    pub open spec fn asking(routine: F, addrs: Seq<usize>) -> BehaviorView<F> {
        BehaviorView {
            routine: Some(routine),
            count: addrs.len() as int + 1,
            requests: fresh_requests(in_order(addrs)),
            phase: Phase::Enqueue(0),
        }
    }
}

impl<T, F> Memory<T, F> {
    /// An upper bound on the steps of scheduling that `b` still has to make.
    pub open spec fn schedule_rank(self, b: u64) -> int {
        let n = self.size(b);
        match self.phase(b) {
            Phase::Enqueue(k) => 3 * (n - k) + n + 2,
            Phase::Resolve(k) => 3 * (n - k) + n + 1,
            Phase::Wait(k, _) => 3 * (n - k) + n + 1,
            Phase::Link(k, _) => 3 * (n - k) + n,
            Phase::Finish(k) => n - k + 1,
            _ => 0,
        }
    }

    /// The scheduling of `b`, taken as far as it goes while nobody else moves:
    /// where it ends, and what its last step came to.
    pub open spec fn drive(self, b: u64) -> (Memory<T, F>, Progress)
        decreases self.schedule_rank(b),
        when self.inv() && self.scheduling(b)
    {
        proof {
            lemma_schedule_advances(self, b);
        }
        if self.schedule_progress(b) is Advanced {
            self.schedule(b).drive(b)
        } else {
            (self.schedule(b), self.schedule_progress(b))
        }
    }
}

/// A step of scheduling that makes progress leaves fewer steps to make.
pub proof fn lemma_schedule_advances<T, F>(s: Memory<T, F>, b: u64)
    requires
        s.inv(),
        s.scheduling(b),
    ensures
        s.schedule_rank(b) >= 0,
        s.schedule(b).inv(),
        s.schedule_progress(b) is Advanced ==> s.schedule(b).scheduling(b) && 0 <= s.schedule(b).schedule_rank(b)
            < s.schedule_rank(b),
{
    lemma_live(s, b);
    lemma_schedule_step(s, b);
    if s.schedule(b).live(b) {
        lemma_live(s.schedule(b), b);
    }
    match s.phase(b) {
        Phase::Link(_, _) => {
            lemma_link_step(s, b);
            lemma_wait_known(s, b);
        },
        _ => {},
    }
}

} // verus!
