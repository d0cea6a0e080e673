//! Behaviours: the unit of concurrent execution.
use crate::locked::coupling::{
    lemma_complete_step, lemma_enlist_step, lemma_live, lemma_run_step, lemma_schedule_step,
    lemma_settle_step, lemma_unwind_step, newborn,
};
use crate::locked::cown::CownList;
use crate::locked::driving::{fresh_requests, lemma_schedule_advances};
use crate::locked::memory::{BehaviourView, Phase, Request, ResourceState};
use crate::locked::runtime::Runtime;
use crate::moves::Move;
use crate::progress::Progress;
use crate::protocol::ReqId;
use crate::sorting::{in_order, law_in_order, locations, sort_by_location};
use vstd::prelude::*;

verus! {

/// A routine, and the requests that must be resolved before it may run.
pub struct Behaviour<F> {
    routine: Option<F>,
    count: usize,
    requests: Vec<Request>,
    phase: Phase,
}

impl<F> View for Behaviour<F> {
    type V = BehaviourView<F>;

    closed spec fn view(&self) -> BehaviourView<F> {
        BehaviourView {
            routine: self.routine,
            count: self.count as int,
            requests: self.requests@,
            phase: self.phase,
        }
    }
}

impl<F> Behaviour<F> {
    /// The next step.
    pub fn phase(&self) -> (phase: Phase)
        ensures
            phase == self@.phase,
    {
        self.phase
    }

    /// The resolutions outstanding.
    pub fn count(&self) -> (count: usize)
        ensures
            count == self@.count,
    {
        self.count
    }

    /// The number of requests.
    pub fn size(&self) -> (n: usize)
        ensures
            n == self@.requests.len(),
    {
        self.requests.len()
    }

    /// The `index`-th request.
    pub fn request(&self, index: usize) -> (request: Request)
        requires
            index < self@.requests.len(),
        ensures
            request == self@.requests[index as int],
    {
        self.requests[index]
    }

    pub(crate) fn set_phase(&mut self, phase: Phase)
        ensures
            final(self)@ == (BehaviourView { phase, ..old(self)@ }),
    {
        self.phase = phase;
    }

    pub(crate) fn set_callback(&mut self, index: usize, callback: Option<ReqId>)
        requires
            index < old(self)@.requests.len(),
        ensures
            final(self)@ == (BehaviourView {
                requests: old(self)@.requests.update(
                    index as int,
                    Request { callback, ..old(self)@.requests[index as int] },
                ),
                ..old(self)@
            }),
    {
        self.requests[index].callback = callback;
        assert(self.requests@ =~= old(self)@.requests.update(
            index as int,
            Request { callback, ..old(self)@.requests[index as int] },
        ));
    }

    pub(crate) fn set_state(&mut self, index: usize, state: ResourceState)
        requires
            index < old(self)@.requests.len(),
        ensures
            final(self)@ == (BehaviourView {
                requests: old(self)@.requests.update(
                    index as int,
                    Request { state, ..old(self)@.requests[index as int] },
                ),
                ..old(self)@
            }),
    {
        self.requests[index].state = state;
        assert(self.requests@ =~= old(self)@.requests.update(
            index as int,
            Request { state, ..old(self)@.requests[index as int] },
        ));
    }

    pub(crate) fn set_scheduled(&mut self, index: usize)
        requires
            index < old(self)@.requests.len(),
        ensures
            final(self)@ == (BehaviourView {
                requests: old(self)@.requests.update(
                    index as int,
                    Request { scheduled: true, ..old(self)@.requests[index as int] },
                ),
                ..old(self)@
            }),
    {
        self.requests[index].scheduled = true;
        assert(self.requests@ =~= old(self)@.requests.update(
            index as int,
            Request { scheduled: true, ..old(self)@.requests[index as int] },
        ));
    }

    pub(crate) fn fetch_sub(&mut self) -> (count: usize)
        requires
            old(self)@.count > 0,
        ensures
            count == old(self)@.count,
            final(self)@ == (BehaviourView { count: count - 1, ..old(self)@ }),
    {
        let count: usize = self.count;
        self.count = count - 1;
        count
    }

    pub(crate) fn take_routine(&mut self) -> (routine: F)
        requires
            old(self)@.routine is Some,
        ensures
            Some(routine) == old(self)@.routine,
            final(self)@ == (BehaviourView { routine: None, ..old(self)@ }),
    {
        self.routine.take().unwrap()
    }
}

impl<F> Behaviour<F> {
    /// Counts one resolution of `b`, and says whether it was the last one. The
    /// last one makes the behaviour ready to run.
    ///
    /// It does not look at the requests: it is for whoever has just resolved one of
    /// them, or has just scheduled all of them.
    pub fn resolve_one<T>(rt: &mut Runtime<T, F>, b: u64) -> (ready: bool)
        requires
            old(rt)@.live(b),
            old(rt)@.behaviours[b].count > 0,
        ensures
            ready == (old(rt)@.behaviours[b].count == 1),
            final(rt)@ == old(rt)@.resolve_one(b),
    {
        let ghost before = rt@;
        if rt.count_fetch_sub(b) > 1 {
            assert(rt@ =~= before.resolve_one(b));
            return false;
        }
        rt.set_phase(b, Phase::Ready);
        assert(rt@ =~= before.resolve_one(b));
        true
    }
}

impl<F> Behaviour<F> {
    /// Makes one step of scheduling `b`.
    ///
    /// The requests are put into their queues one by one, in the global order
    /// of cowns; then they are marked as scheduled one by one; then the
    /// scheduler makes its own resolution.
    pub fn schedule_step<T>(rt: &mut Runtime<T, F>, b: u64) -> (progress: Progress)
        requires
            old(rt).wf(),
            old(rt)@.scheduling(b),
        ensures
            final(rt).wf(),
            final(rt)@ == old(rt)@.schedule(b),
            progress == old(rt)@.schedule_progress(b),
    {
        let ghost before = rt@;
        proof {
            lemma_live(before, b);
            lemma_schedule_step(before, b);
        }
        let n: usize = rt.behaviour(b).size();
        match rt.behaviour(b).phase() {
            Phase::Enqueue(i) => {
                if i < n {
                    Request::start_enqueue(rt, ReqId { behavior: b, index: i })
                } else {
                    rt.set_phase(b, Phase::Finish(0));
                    rt.note(Ghost(before.model.apply(Move::Turn(b))));
                    Progress::Advanced
                }
            },
            Phase::Resolve(i) => Request::start_enqueue(rt, ReqId { behavior: b, index: i }),
            Phase::Wait(i, _) => Request::start_enqueue(rt, ReqId { behavior: b, index: i }),
            Phase::Finish(i) => {
                if i < n {
                    Request::finish_enqueue(rt, ReqId { behavior: b, index: i });
                    Progress::Advanced
                } else {
                    proof {
                        lemma_settle_step(before, b);
                    }
                    let ready = Behaviour::resolve_one(rt, b);
                    if ready {
                        rt.set_phase(b, Phase::Ready);
                        rt.note(Ghost(before.model.apply(Move::Settle(b))));
                        Progress::Ready(b)
                    } else {
                        rt.set_phase(b, Phase::Pending);
                        rt.note(Ghost(before.model.apply(Move::Settle(b))));
                        Progress::Pending
                    }
                }
            },
            _ => Progress::Waiting,
        }
    }
}

impl<F> Behaviour<F> {
    /// A behaviour that asks for `cowns`, and whose routine is `f`.
    ///
    /// The routine reaches the values of the cowns through
    /// [`CownList::get_mut`], once it has been started.
    pub fn new<V, Cs: CownList<V>>(cowns: &Cs, f: F) -> (behaviour: Behaviour<F>)
        requires
            cowns.request_addrs().len() < usize::MAX,
        ensures
            behaviour@ == BehaviourView::asking(f, cowns.request_addrs()),
    {
        let ghost addrs = cowns.request_addrs();
        let unsorted = cowns.requests();
        assert(locations(unsorted@) =~= addrs);
        let ghost given = unsorted@;
        let requests = sort_by_location(unsorted);
        proof {
            law_in_order(addrs);
            lemma_sorted_fresh(given, requests@);
            assert(requests@ =~= fresh_requests(in_order(addrs))) by {
                assert forall|i: int| 0 <= i < requests@.len() implies requests@[i] == fresh_requests(in_order(addrs))[i] by {
                    assert(locations(requests@)[i] == requests@[i].resource.cown);
                }
            }
        }
        let count: usize = requests.len() + 1;
        Behaviour { routine: Some(f), count, requests, phase: Phase::Enqueue(0) }
    }

    /// Hands the behaviour over to the runtime, which names it. Its scheduling is
    /// then made step by step, by [`Behaviour::schedule_step`].
    pub fn enlist<T>(self, rt: &mut Runtime<T, F>) -> (b: u64)
        requires
            old(rt).wf(),
            old(rt)@.next_id < u64::MAX,
            newborn(self@),
            forall|i: int| 0 <= i < self@.requests.len() ==> (#[trigger] self@.requests[i]).resource.cown
                < old(rt)@.cowns.len(),
        ensures
            final(rt).wf(),
            b == old(rt)@.next_id,
            final(rt)@ == old(rt)@.enlist(self@),
            final(rt)@.scheduling(b),
    {
        let ghost before = rt@;
        let ghost v = self@;
        proof {
            lemma_enlist_step(before, v);
        }
        let b: u64 = rt.insert(self);
        rt.note(Ghost(before.model.apply(Move::Admit(b, v.targets()))));
        b
    }

    /// Hands the behaviour over to the runtime, which names it, and takes its
    /// scheduling as far as it goes while nobody else moves.
    ///
    /// Where the result is [`Progress::Waiting`], the scheduling is to be
    /// continued by [`Behaviour::schedule_step`].
    pub fn schedule<T>(self, rt: &mut Runtime<T, F>) -> (result: (u64, Progress))
        requires
            old(rt).wf(),
            old(rt)@.next_id < u64::MAX,
            newborn(self@),
            forall|i: int| 0 <= i < self@.requests.len() ==> (#[trigger] self@.requests[i]).resource.cown
                < old(rt)@.cowns.len(),
        ensures
            final(rt).wf(),
            result.0 == old(rt)@.next_id,
            (final(rt)@, result.1) == old(rt)@.enlist(self@).drive(result.0),
    {
        let ghost v = self@;
        let b: u64 = self.enlist(rt);
        let ghost start = rt@;
        loop
            invariant
                rt.wf(),
                rt@.scheduling(b),
                b == old(rt)@.next_id,
                v == self@,
                start == old(rt)@.enlist(v),
                rt@.drive(b) == start.drive(b),
            decreases rt@.schedule_rank(b),
        {
            proof {
                lemma_schedule_advances(rt@, b);
            }
            let progress = Behaviour::schedule_step(rt, b);
            match progress {
                Progress::Advanced => {},
                _ => {
                    return (b, progress);
                },
            }
        }
    }

    /// Starts the behaviour `b`, which is ready: its routine is handed out, to
    /// be run once.
    pub fn run<T>(rt: &mut Runtime<T, F>, b: u64) -> (routine: F)
        requires
            old(rt).wf(),
            old(rt)@.live(b),
            old(rt)@.phase(b) is Ready,
        ensures
            final(rt).wf(),
            Some(routine) == old(rt)@.behaviours[b].routine,
            final(rt)@ == old(rt)@.run(b),
    {
        let ghost before = rt@;
        proof {
            lemma_run_step(before, b);
        }
        let routine = rt.take_routine(b);
        rt.set_phase(b, Phase::Running);
        rt.note(Ghost(before.model.apply(Move::Begin(b))));
        assert(rt@ =~= before.run(b));
        routine
    }

    /// The routine of `b` has returned, and its values are back in their cowns:
    /// from now on the cowns are given back.
    pub fn complete<T>(rt: &mut Runtime<T, F>, b: u64)
        requires
            old(rt).wf(),
            old(rt)@.live(b),
            old(rt)@.phase(b) is Running,
            forall|r: ReqId| #[trigger] old(rt)@.is_request(r) && r.behavior == b ==> old(rt)@.cowns[old(rt)@.target(r)].resource
                is Some,
        ensures
            final(rt).wf(),
            final(rt)@ == old(rt)@.complete(b),
    {
        let ghost before = rt@;
        proof {
            lemma_complete_step(before, b);
        }
        rt.set_phase(b, Phase::Release(0));
        rt.note(Ghost(before.model.apply(Move::Complete(b))));
    }

    /// Makes one step of giving back the cowns of `b`. After the last one the
    /// behaviour is gone.
    pub fn release<T>(rt: &mut Runtime<T, F>, b: u64) -> (progress: Progress)
        requires
            old(rt).wf(),
            old(rt)@.releasing(b),
        ensures
            final(rt).wf(),
            final(rt)@ == old(rt)@.unwind(b),
            progress == old(rt)@.unwind_progress(b),
    {
        let ghost before = rt@;
        proof {
            lemma_live(before, b);
            lemma_unwind_step(before, b);
        }
        let n: usize = rt.behaviour(b).size();
        match rt.behaviour(b).phase() {
            Phase::Release(i) => {
                if i < n {
                    Request::release(rt, ReqId { behavior: b, index: i })
                } else {
                    rt.remove(b);
                    rt.note(Ghost(before.model.apply(Move::Retire(b))));
                    Progress::Finished
                }
            },
            Phase::Notify(i, _) => Request::release(rt, ReqId { behavior: b, index: i }),
            _ => Progress::Waiting,
        }
    }
}

/// A permutation of fresh requests is made of fresh requests.
proof fn lemma_sorted_fresh(given: Seq<Request>, sorted: Seq<Request>)
    requires
        sorted.to_multiset() == given.to_multiset(),
        forall|i: int| 0 <= i < given.len() ==> #[trigger] given[i] == Request::fresh(given[i].resource.cown),
    ensures
        sorted.len() == given.len(),
        forall|i: int| 0 <= i < sorted.len() ==> #[trigger] sorted[i] == Request::fresh(sorted[i].resource.cown),
{
    broadcast use vstd::seq_lib::group_to_multiset_ensures;

    assert(sorted.len() == sorted.to_multiset().len());
    assert(given.len() == given.to_multiset().len());
    assert forall|i: int| 0 <= i < sorted.len() implies #[trigger] sorted[i] == Request::fresh(sorted[i].resource.cown) by {
        assert(sorted.contains(sorted[i]));
        assert(given.to_multiset().count(sorted[i]) > 0);
        assert(given.contains(sorted[i]));
        let j = choose|j: int| 0 <= j < given.len() && given[j] == sorted[i];
        assert(given[j] == Request::fresh(given[j].resource.cown));
    }
}

/// A behaviour as it is created is ready to be scheduled, and asks for the cowns
/// that it was given.
pub proof fn lemma_asking<F>(f: F, addrs: Seq<usize>, bound: nat)
    requires
        addrs.len() < usize::MAX,
        forall|i: int| 0 <= i < addrs.len() ==> #[trigger] addrs[i] < bound,
    ensures
        newborn(BehaviourView::asking(f, addrs)),
        BehaviourView::asking(f, addrs).targets() == in_order(addrs),
        forall|i: int| 0 <= i < addrs.len() ==> (#[trigger] BehaviourView::asking(f, addrs).requests[i]).resource.cown
            < bound,
{
    broadcast use vstd::seq_lib::group_to_multiset_ensures;

    law_in_order(addrs);
    let v = BehaviourView::asking(f, addrs);
    assert(v.targets() =~= in_order(addrs));
    assert forall|i: int| 0 <= i < addrs.len() implies (#[trigger] v.requests[i]).resource.cown < bound by {
        let a = in_order(addrs)[i];
        assert(in_order(addrs).contains(a));
        assert(addrs.to_multiset().count(a) > 0);
        assert(addrs.contains(a));
        let j = choose|j: int| 0 <= j < addrs.len() && addrs[j] == a;
        assert(addrs[j] < bound);
    }
}

} // verus!
