//! The shared memory of the locking discipline, and what each step of each
//! program does to it.
//!
//! One step is one critical section of the lock of one cown, one access to a
//! flag or to a count, or the end of a loop, together with the note of it in the
//! state of the request, which nobody else waits for. A [`Phase`] says which step
//! comes next.
use crate::moves::Move;
use crate::progress::Progress;
use crate::protocol::{Protocol, ReqId};
use vstd::prelude::*;

verus! {

/// The next step of a behaviour.
#[derive(Clone, Copy, Debug, PartialEq, Eq, Structural)]
pub enum Phase {
    /// Acquire the cown of this request or register at the request in front,
    /// or, after the last request, begin to mark the requests.
    Enqueue(usize),
    /// The cown was acquired: count the request as resolved.
    Resolve(usize),
    /// The request was registered: look whether the one in front is scheduled.
    Wait(usize, ReqId),
    /// Mark this request as scheduled, or, after the last one, count the
    /// scheduler's own resolution.
    Finish(usize),
    /// Scheduled; others will count the remaining resolutions.
    Pending,
    /// Nothing is outstanding: the routine may be started.
    Ready,
    /// The routine is running.
    Running,
    /// Release the cown of this request, or, after the last one, end.
    Release(usize),
    /// Hand the cown to the request that was registered.
    Notify(usize, ReqId),
}

/// How a request stands to its cown.
#[derive(Clone, Copy, Debug, PartialEq, Eq, Structural)]
pub enum ResourceState {
    /// It has not asked for the cown, or not yet taken note of the answer.
    Initial,
    /// It is registered at the request in front of it.
    Certificate,
    /// It has the cown.
    Owned,
}

/// A place in a program.
#[derive(Clone, Copy, Debug)]
pub struct Location {
    pub file: &'static str,
    pub line: u32,
    pub column: u32,
}

/// A cown: the only way to the value that it protects.
pub struct Cown<T> {
    /// The end of the queue of requests. If it is `None`, the cown is not in use
    /// by any behaviour.
    pub last_request: Option<ReqId>,
    /// Where the value has been borrowed.
    pub borrow_at: Option<Location>,
    /// The value. It is away while it is borrowed.
    pub resource: Option<T>,
}

/// The cown that a request is for, without the type of its value.
#[derive(Clone, Copy, Debug, PartialEq, Eq, Structural)]
pub struct ResourceHolder {
    pub cown: usize,
}

/// One behaviour asking for one cown.
#[derive(Clone, Copy, Debug)]
pub struct Request {
    /// The cown.
    pub resource: ResourceHolder,
    /// Set in the second phase: from then on the request may be passed.
    pub scheduled: bool,
    /// How the request stands to its cown.
    pub state: ResourceState,
    /// The request that is to get the cown when this one releases it.
    pub callback: Option<ReqId>,
}

/// What came of asking for a cown.
#[derive(Clone, Copy, Debug, PartialEq, Eq, Structural)]
pub enum AcquireResult {
    /// The cown was free.
    Success,
    /// The cown is in use; the request is registered at this one.
    WaitFor(ReqId),
}

/// One behaviour in memory.
#[verifier::ext_equal]
pub struct BehaviourView<F> {
    pub routine: Option<F>,
    pub count: int,
    pub requests: Seq<Request>,
    pub phase: Phase,
}

/// The memory, together with the protocol state that it stands for.
#[verifier::ext_equal]
pub struct Memory<T, F> {
    pub cowns: Seq<Cown<T>>,
    pub behaviours: Map<u64, BehaviourView<F>>,
    pub next_id: int,
    pub model: Protocol,
}

impl Request {
    /// A request before it is used.
    pub open spec fn fresh(addr: usize) -> Request {
        Request {
            resource: ResourceHolder { cown: addr },
            scheduled: false,
            state: ResourceState::Initial,
            callback: None,
        }
    }
}

impl<T> Cown<T> {
    /// A cown that nobody asks for.
    pub open spec fn fresh(value: T) -> Cown<T> {
        Cown { last_request: None, borrow_at: None, resource: Some(value) }
    }
}

impl<F> BehaviourView<F> {
    /// The cowns asked for, in the order of the requests.
    pub open spec fn targets(self) -> Seq<usize> {
        Seq::new(self.requests.len(), |i: int| self.requests[i].resource.cown)
    }
}

impl<T, F> Memory<T, F> {
    pub open spec fn empty() -> Memory<T, F> {
        Memory { cowns: Seq::empty(), behaviours: Map::empty(), next_id: 0, model: Protocol::empty() }
    }

    pub open spec fn live(self, b: u64) -> bool {
        self.behaviours.contains_key(b)
    }

    pub open spec fn phase(self, b: u64) -> Phase {
        self.behaviours[b].phase
    }

    /// The number of requests of `b`.
    pub open spec fn size(self, b: u64) -> int {
        self.behaviours[b].requests.len() as int
    }

    pub open spec fn is_request(self, r: ReqId) -> bool {
        self.live(r.behavior) && r.index < self.size(r.behavior)
    }

    pub open spec fn request(self, r: ReqId) -> Request {
        self.behaviours[r.behavior].requests[r.index as int]
    }

    pub open spec fn target(self, r: ReqId) -> int {
        self.request(r).resource.cown as int
    }

    // --- Stores. ---

    pub open spec fn with_behaviour(self, b: u64, v: BehaviourView<F>) -> Memory<T, F> {
        Memory { behaviours: self.behaviours.insert(b, v), ..self }
    }

    pub open spec fn with_phase(self, b: u64, phase: Phase) -> Memory<T, F> {
        self.with_behaviour(b, BehaviourView { phase, ..self.behaviours[b] })
    }

    pub open spec fn with_request(self, r: ReqId, request: Request) -> Memory<T, F> {
        let v = self.behaviours[r.behavior];
        self.with_behaviour(
            r.behavior,
            BehaviourView { requests: v.requests.update(r.index as int, request), ..v },
        )
    }

    pub open spec fn with_callback(self, r: ReqId, callback: Option<ReqId>) -> Memory<T, F> {
        self.with_request(r, Request { callback, ..self.request(r) })
    }

    pub open spec fn with_state(self, r: ReqId, state: ResourceState) -> Memory<T, F> {
        self.with_request(r, Request { state, ..self.request(r) })
    }

    pub open spec fn with_scheduled(self, r: ReqId) -> Memory<T, F> {
        self.with_request(r, Request { scheduled: true, ..self.request(r) })
    }

    pub open spec fn with_count(self, b: u64, count: int) -> Memory<T, F> {
        self.with_behaviour(b, BehaviourView { count, ..self.behaviours[b] })
    }

    pub open spec fn with_cown(self, c: int, cown: Cown<T>) -> Memory<T, F> {
        Memory { cowns: self.cowns.update(c, cown), ..self }
    }

    pub open spec fn with_last(self, c: int, last_request: Option<ReqId>) -> Memory<T, F> {
        self.with_cown(c, Cown { last_request, ..self.cowns[c] })
    }

    /// The value of the cown `c` is borrowed at `at`.
    pub open spec fn with_borrow(self, c: int, at: Location) -> Memory<T, F> {
        self.with_cown(c, Cown { borrow_at: Some(at), resource: None, ..self.cowns[c] })
    }

    /// The value of the cown `c` is `value`, and not borrowed.
    pub open spec fn with_value(self, c: int, value: T) -> Memory<T, F> {
        self.with_cown(c, Cown { borrow_at: None, resource: Some(value), ..self.cowns[c] })
    }

    pub open spec fn with_model(self, model: Protocol) -> Memory<T, F> {
        Memory { model, ..self }
    }

    /// The protocol makes the move `m`.
    pub open spec fn moved(self, m: Move) -> Memory<T, F> {
        self.with_model(self.model.apply(m))
    }

    // --- Creation. ---

    /// A new cown that holds `value`.
    pub open spec fn add_cown(self, value: T) -> Memory<T, F> {
        Memory { cowns: self.cowns.push(Cown::fresh(value)), ..self }.moved(Move::AddCown)
    }

    /// A new behaviour, under the next name.
    pub open spec fn enlist(self, v: BehaviourView<F>) -> Memory<T, F> {
        let b = self.next_id as u64;
        Memory { next_id: self.next_id + 1, ..self.with_behaviour(b, v) }.moved(Move::Admit(b, v.targets()))
    }

    // --- Programs. ---

    /// Counts one resolution of `b`. The last one makes it ready.
    pub open spec fn resolve_one(self, b: u64) -> Memory<T, F> {
        let v = self.behaviours[b];
        self.with_behaviour(
            b,
            BehaviourView { count: v.count - 1, phase: if v.count == 1 { Phase::Ready } else { v.phase }, ..v },
        )
    }

    /// `r` becomes the end of the queue of its cown. If it is not alone there, it
    /// is registered at the request in front.
    pub open spec fn acquire_or_register_callback(self, r: ReqId) -> Memory<T, F> {
        let c = self.target(r);
        match self.cowns[c].last_request {
            None => self.with_last(c, Some(r)),
            Some(prev) => self.with_callback(prev, Some(r)).with_last(c, Some(r)),
        }
    }

    /// What `r` learns by that.
    pub open spec fn acquire_result(self, r: ReqId) -> AcquireResult {
        match self.cowns[self.target(r)].last_request {
            None => AcquireResult::Success,
            Some(prev) => AcquireResult::WaitFor(prev),
        }
    }

    /// `prev` may be passed: it is scheduled. A behaviour that is gone has been
    /// scheduled.
    pub open spec fn passable(self, prev: ReqId) -> bool {
        !self.live(prev.behavior) || self.request(prev).scheduled
    }

    /// One step of putting `r` into the queue of its cown.
    pub open spec fn start_enqueue(self, r: ReqId) -> Memory<T, F> {
        let b = r.behavior;
        match self.phase(b) {
            Phase::Enqueue(i) => match self.acquire_result(r) {
                AcquireResult::Success => self.acquire_or_register_callback(r).with_phase(b, Phase::Resolve(i)),
                AcquireResult::WaitFor(prev) => self.acquire_or_register_callback(r).with_state(
                    r,
                    ResourceState::Certificate,
                ).with_phase(b, Phase::Wait(i, prev)),
            }.moved(Move::Enqueue(b)),
            Phase::Resolve(i) => self.with_state(r, ResourceState::Owned).resolve_one(b).with_phase(
                b,
                Phase::Enqueue((i + 1) as usize),
            ).moved(Move::Resolve(b)),
            Phase::Wait(i, prev) => if self.passable(prev) {
                self.with_phase(b, Phase::Enqueue((i + 1) as usize)).moved(Move::Pass(b))
            } else {
                self
            },
            _ => self,
        }
    }

    /// Marks `r` as scheduled.
    pub open spec fn finish_enqueue(self, r: ReqId) -> Memory<T, F> {
        self.with_scheduled(r).with_phase(r.behavior, Phase::Finish((r.index + 1) as usize)).moved(
            Move::Finish(r.behavior),
        )
    }

    /// The request that `b` is working on.
    pub open spec fn current(self, b: u64) -> ReqId {
        let index = match self.phase(b) {
            Phase::Enqueue(i) => i,
            Phase::Resolve(i) => i,
            Phase::Wait(i, _) => i,
            Phase::Finish(i) => i,
            Phase::Release(i) => i,
            Phase::Notify(i, _) => i,
            _ => 0,
        };
        ReqId { behavior: b, index }
    }

    /// `b` is in the middle of being scheduled.
    pub open spec fn scheduling(self, b: u64) -> bool {
        self.live(b) && match self.phase(b) {
            Phase::Enqueue(_) => true,
            Phase::Resolve(_) => true,
            Phase::Wait(_, _) => true,
            Phase::Finish(_) => true,
            _ => false,
        }
    }

    /// One step of scheduling `b`.
    pub open spec fn schedule(self, b: u64) -> Memory<T, F> {
        let r = self.current(b);
        match self.phase(b) {
            Phase::Enqueue(i) => if i < self.size(b) {
                self.start_enqueue(r)
            } else {
                self.with_phase(b, Phase::Finish(0)).moved(Move::Turn(b))
            },
            Phase::Finish(i) => if i < self.size(b) {
                self.finish_enqueue(r)
            } else {
                self.resolve_one(b).with_phase(
                    b,
                    if self.behaviours[b].count == 1 {
                        Phase::Ready
                    } else {
                        Phase::Pending
                    },
                ).moved(Move::Settle(b))
            },
            _ => self.start_enqueue(r),
        }
    }

    /// What that step comes to.
    pub open spec fn schedule_progress(self, b: u64) -> Progress {
        match self.phase(b) {
            Phase::Wait(i, prev) => if self.passable(prev) {
                Progress::Advanced
            } else {
                Progress::Waiting
            },
            Phase::Finish(i) => if i < self.size(b) {
                Progress::Advanced
            } else if self.behaviours[b].count == 1 {
                Progress::Ready(b)
            } else {
                Progress::Pending
            },
            _ => Progress::Advanced,
        }
    }

    /// Starts the routine of `b`, which leaves the memory.
    pub open spec fn run(self, b: u64) -> Memory<T, F> {
        self.with_behaviour(
            b,
            BehaviourView { routine: None, phase: Phase::Running, ..self.behaviours[b] },
        ).moved(Move::Begin(b))
    }

    /// Ends the routine of `b`.
    pub open spec fn complete(self, b: u64) -> Memory<T, F> {
        self.with_phase(b, Phase::Release(0)).moved(Move::Complete(b))
    }

    /// `b` is in the middle of giving back its cowns.
    pub open spec fn releasing(self, b: u64) -> bool {
        self.live(b) && match self.phase(b) {
            Phase::Release(_) => true,
            Phase::Notify(_, _) => true,
            _ => false,
        }
    }

    /// One step of giving the cown of `r` to the next behaviour.
    pub open spec fn release(self, r: ReqId) -> Memory<T, F> {
        let b = r.behavior;
        match self.phase(b) {
            Phase::Release(i) => match self.request(r).callback {
                Some(next) => self.with_callback(r, None).with_phase(b, Phase::Notify(i, next)),
                None => self.with_last(self.target(r), None).with_phase(b, Phase::Release((i + 1) as usize)),
            }.moved(Move::Release(b)),
            Phase::Notify(i, next) => self.with_state(next, ResourceState::Owned).resolve_one(
                next.behavior,
            ).with_phase(b, Phase::Release((i + 1) as usize)).moved(Move::Notify(b)),
            _ => self,
        }
    }

    /// One step of giving back the cowns of `b`.
    pub open spec fn unwind(self, b: u64) -> Memory<T, F> {
        if self.phase(b) == Phase::Release(self.size(b) as usize) {
            Memory { behaviours: self.behaviours.remove(b), ..self }.moved(Move::Retire(b))
        } else {
            self.release(self.current(b))
        }
    }

    /// What that step comes to.
    pub open spec fn unwind_progress(self, b: u64) -> Progress {
        match self.phase(b) {
            Phase::Release(i) => if i == self.size(b) {
                Progress::Finished
            } else {
                Progress::Advanced
            },
            Phase::Notify(_, next) => if self.behaviours[next.behavior].count == 1 {
                Progress::Ready(next.behavior)
            } else {
                Progress::Advanced
            },
            _ => Progress::Advanced,
        }
    }
}

} // verus!
