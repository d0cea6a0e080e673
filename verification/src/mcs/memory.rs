//! The shared memory of the lock-free discipline, and what each step of each
//! program does to it.
//!
//! The programs of a behaviour are cut into steps: one step makes one access
//! to shared memory (a swap, a compare-and-exchange, a load, a store or a
//! fetch-and-subtract), or ends a loop. A [`Phase`] says which step comes next.
use crate::mcs::cown::{Cown, CownHolder};
use crate::mcs::request::Request;
use crate::moves::Move;
use crate::progress::Progress;
use crate::protocol::{Protocol, ReqId};
use vstd::prelude::*;

verus! {

/// The next step of a behaviour.
#[derive(Clone, Copy, Debug, PartialEq, Eq, Structural)]
pub enum Phase {
    /// Swap this request into the tail of its cown, or, after the last one,
    /// begin to mark the requests.
    Enqueue(usize),
    /// The tail was empty: count the request as resolved.
    Resolve(usize),
    /// The tail held a request: look whether that one is scheduled.
    Wait(usize, ReqId),
    /// It is: make it point to this behaviour.
    Link(usize, ReqId),
    /// Mark this request as scheduled, or, after the last one, count the
    /// scheduler's own resolution.
    Finish(usize),
    /// Scheduled; others will count the remaining resolutions.
    Pending,
    /// Nothing is outstanding: the routine may be started.
    Ready,
    /// The routine is running.
    Running,
    /// Look whether this request has a successor, or, after the last one, end.
    Release(usize),
    /// It has none: empty the tail, if it is still this request.
    Exchange(usize),
    /// The tail is another request: look again for the successor.
    Spin(usize),
    /// Count the resolution of the successor.
    Notify(usize, u64),
    /// Forget the successor.
    Clear(usize),
}

/// One behaviour in memory.
#[verifier::ext_equal]
pub struct BehaviorView<F> {
    pub routine: Option<F>,
    pub count: int,
    pub requests: Seq<Request>,
    pub phase: Phase,
}

/// The memory, together with the protocol state that it stands for.
#[verifier::ext_equal]
pub struct Memory<T, F> {
    pub cowns: Seq<Cown<T>>,
    pub behaviors: Map<u64, BehaviorView<F>>,
    pub next_id: int,
    pub model: Protocol,
}

impl Request {
    /// A request before it is used.
    pub open spec fn fresh(addr: usize) -> Request {
        Request { next: None, scheduled: false, target: CownHolder { inner: addr } }
    }
}

impl<F> BehaviorView<F> {
    /// The cowns asked for, in the order of the requests.
    pub open spec fn targets(self) -> Seq<usize> {
        Seq::new(self.requests.len(), |i: int| self.requests[i].target.inner)
    }
}

impl<T, F> Memory<T, F> {
    pub open spec fn empty() -> Memory<T, F> {
        Memory { cowns: Seq::empty(), behaviors: Map::empty(), next_id: 0, model: Protocol::empty() }
    }

    pub open spec fn live(self, b: u64) -> bool {
        self.behaviors.contains_key(b)
    }

    pub open spec fn phase(self, b: u64) -> Phase {
        self.behaviors[b].phase
    }

    /// The number of requests of `b`.
    pub open spec fn size(self, b: u64) -> int {
        self.behaviors[b].requests.len() as int
    }

    pub open spec fn is_request(self, r: ReqId) -> bool {
        self.live(r.behavior) && r.index < self.size(r.behavior)
    }

    pub open spec fn request(self, r: ReqId) -> Request {
        self.behaviors[r.behavior].requests[r.index as int]
    }

    pub open spec fn target(self, r: ReqId) -> int {
        self.request(r).target.inner as int
    }

    // --- Stores. ---

    pub open spec fn with_behavior(self, b: u64, v: BehaviorView<F>) -> Memory<T, F> {
        Memory { behaviors: self.behaviors.insert(b, v), ..self }
    }

    pub open spec fn with_phase(self, b: u64, phase: Phase) -> Memory<T, F> {
        self.with_behavior(b, BehaviorView { phase, ..self.behaviors[b] })
    }

    pub open spec fn with_request(self, r: ReqId, request: Request) -> Memory<T, F> {
        let v = self.behaviors[r.behavior];
        self.with_behavior(
            r.behavior,
            BehaviorView { requests: v.requests.update(r.index as int, request), ..v },
        )
    }

    pub open spec fn with_next(self, r: ReqId, next: Option<u64>) -> Memory<T, F> {
        self.with_request(r, Request { next, ..self.request(r) })
    }

    pub open spec fn with_scheduled(self, r: ReqId) -> Memory<T, F> {
        self.with_request(r, Request { scheduled: true, ..self.request(r) })
    }

    pub open spec fn with_count(self, b: u64, count: int) -> Memory<T, F> {
        self.with_behavior(b, BehaviorView { count, ..self.behaviors[b] })
    }

    pub open spec fn with_cown(self, c: int, cown: Cown<T>) -> Memory<T, F> {
        Memory { cowns: self.cowns.update(c, cown), ..self }
    }

    pub open spec fn with_last(self, c: int, last: Option<ReqId>) -> Memory<T, F> {
        self.with_cown(c, Cown { last, ..self.cowns[c] })
    }

    pub open spec fn with_resource(self, c: int, resource: Option<T>) -> Memory<T, F> {
        self.with_cown(c, Cown { resource, ..self.cowns[c] })
    }

    pub open spec fn with_model(self, model: Protocol) -> Memory<T, F> {
        Memory { model, ..self }
    }

    /// The protocol makes the move `m`.
    pub open spec fn moved(self, m: Move) -> Memory<T, F> {
        self.with_model(self.model.apply(m))
    }

    // --- Creation. ---

    /// A new cown that holds `value`.
    pub open spec fn add_cown(self, value: T) -> Memory<T, F> {
        Memory { cowns: self.cowns.push(Cown { last: None, resource: Some(value) }), ..self }.moved(Move::AddCown)
    }

    /// A new behaviour, under the next name.
    pub open spec fn enlist(self, v: BehaviorView<F>) -> Memory<T, F> {
        let b = self.next_id as u64;
        Memory { next_id: self.next_id + 1, ..self.with_behavior(b, v) }.moved(Move::Admit(b, v.targets()))
    }

    // --- Programs. ---

    /// Counts one resolution of `b`. The last one makes it ready.
    pub open spec fn resolve_one(self, b: u64) -> Memory<T, F> {
        let v = self.behaviors[b];
        self.with_behavior(
            b,
            BehaviorView { count: v.count - 1, phase: if v.count == 1 { Phase::Ready } else { v.phase }, ..v },
        )
    }

    /// One step of putting `r` into the queue of its cown.
    pub open spec fn start_enqueue(self, r: ReqId) -> Memory<T, F> {
        let b = r.behavior;
        match self.phase(b) {
            Phase::Enqueue(i) => {
                let c = self.target(r);
                self.with_last(c, Some(r)).with_phase(
                    b,
                    match self.cowns[c].last {
                        None => Phase::Resolve(i),
                        Some(prev) => Phase::Wait(i, prev),
                    },
                ).moved(Move::Enqueue(b))
            },
            Phase::Resolve(i) => self.resolve_one(b).with_phase(b, Phase::Enqueue((i + 1) as usize)).moved(
                Move::Resolve(b),
            ),
            Phase::Wait(i, prev) => if self.request(prev).scheduled {
                self.with_phase(b, Phase::Link(i, prev))
            } else {
                self
            },
            Phase::Link(i, prev) => self.with_next(prev, Some(b)).with_phase(
                b,
                Phase::Enqueue((i + 1) as usize),
            ).moved(Move::Pass(b)),
            _ => self,
        }
    }

    /// Marks `r` as scheduled.
    pub open spec fn finish_enqueue(self, r: ReqId) -> Memory<T, F> {
        self.with_scheduled(r).with_phase(r.behavior, Phase::Finish((r.index + 1) as usize)).moved(
            Move::Finish(r.behavior),
        )
    }

    /// The request that `b` is working on.
    pub open spec fn current(self, b: u64) -> ReqId {
        let index = match self.phase(b) {
            Phase::Enqueue(i) => i,
            Phase::Resolve(i) => i,
            Phase::Wait(i, _) => i,
            Phase::Link(i, _) => i,
            Phase::Finish(i) => i,
            Phase::Release(i) => i,
            Phase::Exchange(i) => i,
            Phase::Spin(i) => i,
            Phase::Notify(i, _) => i,
            Phase::Clear(i) => i,
            _ => 0,
        };
        ReqId { behavior: b, index }
    }

    /// `b` is in the middle of being scheduled.
    pub open spec fn scheduling(self, b: u64) -> bool {
        self.live(b) && match self.phase(b) {
            Phase::Enqueue(_) => true,
            Phase::Resolve(_) => true,
            Phase::Wait(_, _) => true,
            Phase::Link(_, _) => true,
            Phase::Finish(_) => true,
            _ => false,
        }
    }

    /// One step of scheduling `b`.
    pub open spec fn schedule(self, b: u64) -> Memory<T, F> {
        let r = self.current(b);
        match self.phase(b) {
            Phase::Enqueue(i) => if i < self.size(b) {
                self.start_enqueue(r)
            } else {
                self.with_phase(b, Phase::Finish(0)).moved(Move::Turn(b))
            },
            Phase::Finish(i) => if i < self.size(b) {
                self.finish_enqueue(r)
            } else {
                self.resolve_one(b).with_phase(
                    b,
                    if self.behaviors[b].count == 1 {
                        Phase::Ready
                    } else {
                        Phase::Pending
                    },
                ).moved(Move::Settle(b))
            },
            _ => self.start_enqueue(r),
        }
    }

    /// What that step comes to.
    pub open spec fn schedule_progress(self, b: u64) -> Progress {
        match self.phase(b) {
            Phase::Wait(i, prev) => if self.request(prev).scheduled {
                Progress::Advanced
            } else {
                Progress::Waiting
            },
            Phase::Finish(i) => if i < self.size(b) {
                Progress::Advanced
            } else if self.behaviors[b].count == 1 {
                Progress::Ready(b)
            } else {
                Progress::Pending
            },
            _ => Progress::Advanced,
        }
    }

    /// Starts the routine of `b`, which leaves the memory.
    pub open spec fn run(self, b: u64) -> Memory<T, F> {
        self.with_behavior(
            b,
            BehaviorView { routine: None, phase: Phase::Running, ..self.behaviors[b] },
        ).moved(Move::Begin(b))
    }

    /// Ends the routine of `b`.
    pub open spec fn complete(self, b: u64) -> Memory<T, F> {
        self.with_phase(b, Phase::Release(0)).moved(Move::Complete(b))
    }

    /// `b` is in the middle of giving back its cowns.
    pub open spec fn releasing(self, b: u64) -> bool {
        self.live(b) && match self.phase(b) {
            Phase::Release(_) => true,
            Phase::Exchange(_) => true,
            Phase::Spin(_) => true,
            Phase::Notify(_, _) => true,
            Phase::Clear(_) => true,
            _ => false,
        }
    }

    /// One step of giving the cown of `r` to the next behaviour.
    pub open spec fn release(self, r: ReqId) -> Memory<T, F> {
        let b = r.behavior;
        match self.phase(b) {
            Phase::Release(i) => match self.request(r).next {
                Some(next) => self.with_phase(b, Phase::Notify(i, next)).moved(Move::Release(b)),
                None => self.with_phase(b, Phase::Exchange(i)),
            },
            Phase::Exchange(i) => if self.cowns[self.target(r)].last == Some(r) {
                self.with_last(self.target(r), None).with_phase(b, Phase::Release((i + 1) as usize)).moved(
                    Move::Release(b),
                )
            } else {
                self.with_phase(b, Phase::Spin(i))
            },
            Phase::Spin(i) => match self.request(r).next {
                Some(next) => self.with_phase(b, Phase::Notify(i, next)).moved(Move::Release(b)),
                None => self,
            },
            Phase::Notify(i, next) => self.resolve_one(next).with_phase(b, Phase::Clear(i)).moved(Move::Notify(b)),
            Phase::Clear(i) => self.with_next(r, None).with_phase(b, Phase::Release((i + 1) as usize)),
            _ => self,
        }
    }

    /// One step of giving back the cowns of `b`.
    pub open spec fn unwind(self, b: u64) -> Memory<T, F> {
        if self.phase(b) == Phase::Release(self.size(b) as usize) {
            Memory { behaviors: self.behaviors.remove(b), ..self }.moved(Move::Retire(b))
        } else {
            self.release(self.current(b))
        }
    }

    /// What that step comes to.
    pub open spec fn unwind_progress(self, b: u64) -> Progress {
        match self.phase(b) {
            Phase::Release(i) => if i == self.size(b) {
                Progress::Finished
            } else {
                Progress::Advanced
            },
            Phase::Spin(i) => if self.request(self.current(b)).next is Some {
                Progress::Advanced
            } else {
                Progress::Waiting
            },
            Phase::Notify(_, next) => if self.behaviors[next].count == 1 {
                Progress::Ready(next)
            } else {
                Progress::Advanced
            },
            _ => Progress::Advanced,
        }
    }
}

} // verus!
