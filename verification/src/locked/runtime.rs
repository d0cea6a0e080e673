//! The memory that all threads share, and the accesses to it.
//!
//! Whoever drives the behaviours on several threads keeps the runtime behind a
//! lock and makes one step at a time.
use crate::locked::behaviour::Behaviour;
use crate::locked::coupling::lemma_empty;
use crate::locked::memory::{
    BehaviourView, Cown, Location, Memory, Phase, Request, ResourceState,
};
use crate::protocol::{Protocol, ReqId};
use std::collections::BTreeMap;
use vstd::prelude::*;

verus! {

/// All cowns and all behaviours alive. `T` is the type of the values that the
/// cowns protect, `F` that of the routines.
pub struct Runtime<T, F> {
    cowns: Vec<Cown<T>>,
    behaviours: BTreeMap<u64, Behaviour<F>>,
    next_id: u64,
    model: Ghost<Protocol>,
}

impl<T, F> View for Runtime<T, F> {
    type V = Memory<T, F>;

    closed spec fn view(&self) -> Memory<T, F> {
        Memory {
            cowns: self.cowns@,
            behaviours: self.behaviours@.map_values(|v: Behaviour<F>| v@),
            next_id: self.next_id as int,
            model: self.model@,
        }
    }
}

impl<T, F> Runtime<T, F> {
    /// The memory is in order.
    pub open spec fn wf(self) -> bool {
        self@.inv()
    }

    /// A runtime without cowns and behaviours.
    pub fn new() -> (rt: Runtime<T, F>)
        ensures
            rt.wf(),
            rt@ == Memory::<T, F>::empty(),
    {
        let rt = Runtime {
            cowns: Vec::new(),
            behaviours: BTreeMap::new(),
            next_id: 0,
            model: Ghost(Protocol::empty()),
        };
        proof {
            assert(rt@ =~= Memory::<T, F>::empty());
            lemma_empty::<T, F>();
        }
        rt
    }

    /// The number of cowns. They are named by the numbers below it.
    pub fn cown_count(&self) -> (n: usize)
        ensures
            n == self@.cowns.len(),
    {
        self.cowns.len()
    }

    /// The name that the next behaviour gets.
    pub fn next_id(&self) -> (b: u64)
        ensures
            b == self@.next_id,
    {
        self.next_id
    }

    /// Whether `b` is alive.
    pub fn is_live(&self, b: u64) -> (live: bool)
        ensures
            live == self@.live(b),
    {
        self.behaviours.contains_key(&b)
    }

    /// The behaviour `b`.
    pub fn behaviour(&self, b: u64) -> (v: &Behaviour<F>)
        requires
            self@.live(b),
        ensures
            v@ == self@.behaviours[b],
    {
        self.behaviours.get(&b).unwrap()
    }

    /// The cown `c`.
    pub fn cown(&self, c: usize) -> (cown: &Cown<T>)
        requires
            c < self@.cowns.len(),
        ensures
            *cown == self@.cowns[c as int],
    {
        &self.cowns[c]
    }

    /// The request `r`.
    pub fn request(&self, r: ReqId) -> (request: Request)
        requires
            self@.is_request(r),
        ensures
            request == self@.request(r),
    {
        self.behaviour(r.behavior).request(r.index)
    }

    /// Takes a behaviour out of the memory.
    fn take(&mut self, b: u64) -> (v: Behaviour<F>)
        requires
            old(self)@.live(b),
        ensures
            v@ == old(self)@.behaviours[b],
            final(self)@ == (Memory { behaviours: old(self)@.behaviours.remove(b), ..old(self)@ }),
    {
        let v = self.behaviours.remove(&b).unwrap();
        assert(self@ =~= (Memory { behaviours: old(self)@.behaviours.remove(b), ..old(self)@ }));
        v
    }

    /// Puts a behaviour into the memory.
    fn put(&mut self, b: u64, v: Behaviour<F>)
        ensures
            final(self)@ == old(self)@.with_behaviour(b, v@),
    {
        let old_value = self.behaviours.insert(b, v);
        assert(self@ =~= old(self)@.with_behaviour(b, v@));
    }

    /// Adds a cown and returns its name.
    pub(crate) fn push_cown(&mut self, cown: Cown<T>) -> (addr: usize)
        ensures
            addr == old(self)@.cowns.len(),
            final(self)@ == (Memory { cowns: old(self)@.cowns.push(cown), ..old(self)@ }),
    {
        let addr: usize = self.cowns.len();
        self.cowns.push(cown);
        addr
    }

    /// Adds a behaviour and returns its name.
    pub(crate) fn insert(&mut self, v: Behaviour<F>) -> (b: u64)
        requires
            old(self)@.next_id < u64::MAX,
        ensures
            b == old(self)@.next_id,
            final(self)@ == (Memory {
                next_id: old(self)@.next_id + 1,
                ..old(self)@.with_behaviour(b, v@)
            }),
    {
        let b: u64 = self.next_id;
        self.next_id = b + 1;
        self.put(b, v);
        b
    }

    /// Frees a behaviour.
    pub(crate) fn remove(&mut self, b: u64)
        requires
            old(self)@.live(b),
        ensures
            final(self)@ == (Memory { behaviours: old(self)@.behaviours.remove(b), ..old(self)@ }),
    {
        let freed = self.take(b);
    }

    /// Records the state of the protocol that the memory now stands for.
    pub(crate) fn note(&mut self, Ghost(model): Ghost<Protocol>)
        ensures
            final(self)@ == old(self)@.with_model(model),
    {
        self.model = Ghost(model);
    }

    /// Stores the end of the queue of the cown `c`.
    pub(crate) fn store_last(&mut self, c: usize, last_request: Option<ReqId>)
        requires
            c < old(self)@.cowns.len(),
        ensures
            final(self)@ == old(self)@.with_last(c as int, last_request),
    {
        self.cowns[c].last_request = last_request;
        assert(self@ =~= old(self)@.with_last(c as int, last_request));
    }

    /// Takes the value out of the cown `c`, and notes where.
    pub(crate) fn borrow_value(&mut self, c: usize, at: Location) -> (value: T)
        requires
            c < old(self)@.cowns.len(),
            old(self)@.cowns[c as int].resource is Some,
        ensures
            Some(value) == old(self)@.cowns[c as int].resource,
            final(self)@ == old(self)@.with_borrow(c as int, at),
    {
        self.cowns[c].borrow_at = Some(at);
        let value = self.cowns[c].resource.take().unwrap();
        assert(self@ =~= old(self)@.with_borrow(c as int, at));
        value
    }

    /// Puts a value into the cown `c`.
    pub(crate) fn return_value(&mut self, c: usize, value: T)
        requires
            c < old(self)@.cowns.len(),
        ensures
            final(self)@ == old(self)@.with_value(c as int, value),
    {
        self.cowns[c].borrow_at = None;
        self.cowns[c].resource = Some(value);
        assert(self@ =~= old(self)@.with_value(c as int, value));
    }

    /// Puts a value into the cown `c`, and returns the one that was there.
    pub(crate) fn replace_value(&mut self, c: usize, value: T) -> (previous: T)
        requires
            c < old(self)@.cowns.len(),
            old(self)@.cowns[c as int].resource is Some,
        ensures
            Some(previous) == old(self)@.cowns[c as int].resource,
            final(self)@ == old(self)@.with_value(c as int, value),
    {
        let previous = self.cowns[c].resource.take().unwrap();
        self.return_value(c, value);
        assert(self@ =~= old(self)@.with_value(c as int, value));
        previous
    }

    /// Stores what is registered at `r`.
    pub(crate) fn store_callback(&mut self, r: ReqId, callback: Option<ReqId>)
        requires
            old(self)@.is_request(r),
        ensures
            final(self)@ == old(self)@.with_callback(r, callback),
    {
        let mut v = self.take(r.behavior);
        v.set_callback(r.index, callback);
        self.put(r.behavior, v);
        assert(self@ =~= old(self)@.with_callback(r, callback));
    }

    /// Stores how `r` stands to its cown.
    pub(crate) fn store_state(&mut self, r: ReqId, state: ResourceState)
        requires
            old(self)@.is_request(r),
        ensures
            final(self)@ == old(self)@.with_state(r, state),
    {
        let mut v = self.take(r.behavior);
        v.set_state(r.index, state);
        self.put(r.behavior, v);
        assert(self@ =~= old(self)@.with_state(r, state));
    }

    /// Sets the scheduled mark of `r`.
    pub(crate) fn store_scheduled(&mut self, r: ReqId)
        requires
            old(self)@.is_request(r),
        ensures
            final(self)@ == old(self)@.with_scheduled(r),
    {
        let mut v = self.take(r.behavior);
        v.set_scheduled(r.index);
        self.put(r.behavior, v);
        assert(self@ =~= old(self)@.with_scheduled(r));
    }

    /// Subtracts one from the count of `b`, and returns what it was.
    pub(crate) fn count_fetch_sub(&mut self, b: u64) -> (count: usize)
        requires
            old(self)@.live(b),
            old(self)@.behaviours[b].count > 0,
        ensures
            count == old(self)@.behaviours[b].count,
            final(self)@ == old(self)@.with_count(b, count - 1),
    {
        let mut v = self.take(b);
        let count: usize = v.fetch_sub();
        self.put(b, v);
        assert(self@ =~= old(self)@.with_count(b, count - 1));
        count
    }

    /// Sets the next step of `b`.
    pub(crate) fn set_phase(&mut self, b: u64, phase: Phase)
        requires
            old(self)@.live(b),
        ensures
            final(self)@ == old(self)@.with_phase(b, phase),
    {
        let mut v = self.take(b);
        v.set_phase(phase);
        self.put(b, v);
        assert(self@ =~= old(self)@.with_phase(b, phase));
    }

    /// Takes the routine of `b`.
    pub(crate) fn take_routine(&mut self, b: u64) -> (routine: F)
        requires
            old(self)@.live(b),
            old(self)@.behaviours[b].routine is Some,
        ensures
            Some(routine) == old(self)@.behaviours[b].routine,
            final(self)@ == old(self)@.with_behaviour(
                b,
                BehaviourView { routine: None, ..old(self)@.behaviours[b] },
            ),
    {
        let mut v = self.take(b);
        let routine = v.take_routine();
        self.put(b, v);
        assert(self@ =~= old(self)@.with_behaviour(b, BehaviourView { routine: None, ..old(self)@.behaviours[b] }));
        routine
    }
}

} // verus!
