//! The memory that all threads share, and the accesses to it.
//!
//! Every access is one sequentially consistent operation on one word. Whoever
//! drives the behaviours on several threads keeps the runtime behind a lock and
//! makes one step at a time.
use crate::mcs::behavior::Behavior;
use crate::mcs::coupling::lemma_empty;
use crate::mcs::cown::Cown;
use crate::mcs::memory::{BehaviorView, Memory, Phase};
use crate::mcs::request::Request;
use crate::protocol::{Protocol, ReqId};
use std::collections::BTreeMap;
use vstd::prelude::*;

verus! {

/// All cowns and all behaviours alive. `T` is the type of the values that the
/// cowns protect, `F` that of the routines.
pub struct Runtime<T, F> {
    cowns: Vec<Cown<T>>,
    behaviors: BTreeMap<u64, Behavior<F>>,
    next_id: u64,
    model: Ghost<Protocol>,
}

impl<T, F> View for Runtime<T, F> {
    type V = Memory<T, F>;

    closed spec fn view(&self) -> Memory<T, F> {
        Memory {
            cowns: self.cowns@,
            behaviors: self.behaviors@.map_values(|v: Behavior<F>| v@),
            next_id: self.next_id as int,
            model: self.model@,
        }
    }
}

impl<T, F> Runtime<T, F> {
    /// The memory is in order.
    pub open spec fn wf(self) -> bool {
        self@.inv()
    }

    /// A runtime without cowns and behaviours.
    pub fn new() -> (rt: Runtime<T, F>)
        ensures
            rt.wf(),
            rt@ == Memory::<T, F>::empty(),
    {
        let rt = Runtime {
            cowns: Vec::new(),
            behaviors: BTreeMap::new(),
            next_id: 0,
            model: Ghost(Protocol::empty()),
        };
        proof {
            assert(rt@ =~= Memory::<T, F>::empty());
            lemma_empty::<T, F>();
        }
        rt
    }

    /// The number of cowns. They are named by the numbers below it.
    pub fn cown_count(&self) -> (n: usize)
        ensures
            n == self@.cowns.len(),
    {
        self.cowns.len()
    }

    /// The name that the next behaviour gets.
    pub fn next_id(&self) -> (b: u64)
        ensures
            b == self@.next_id,
    {
        self.next_id
    }

    /// Whether `b` is alive.
    pub fn is_live(&self, b: u64) -> (live: bool)
        ensures
            live == self@.live(b),
    {
        self.behaviors.contains_key(&b)
    }

    /// The behaviour `b`.
    pub fn behavior(&self, b: u64) -> (v: &Behavior<F>)
        requires
            self@.live(b),
        ensures
            v@ == self@.behaviors[b],
    {
        self.behaviors.get(&b).unwrap()
    }

    /// The cown `c`.
    pub fn cown(&self, c: usize) -> (cown: &Cown<T>)
        requires
            c < self@.cowns.len(),
        ensures
            *cown == self@.cowns[c as int],
    {
        &self.cowns[c]
    }

    /// The request `r`.
    pub fn request(&self, r: ReqId) -> (request: Request)
        requires
            self@.is_request(r),
        ensures
            request == self@.request(r),
    {
        self.behavior(r.behavior).request(r.index)
    }

    /// Takes a behaviour out of the memory.
    fn take(&mut self, b: u64) -> (v: Behavior<F>)
        requires
            old(self)@.live(b),
        ensures
            v@ == old(self)@.behaviors[b],
            final(self)@ == (Memory { behaviors: old(self)@.behaviors.remove(b), ..old(self)@ }),
    {
        let v = self.behaviors.remove(&b).unwrap();
        assert(self@ =~= (Memory { behaviors: old(self)@.behaviors.remove(b), ..old(self)@ }));
        v
    }

    /// Puts a behaviour into the memory.
    fn put(&mut self, b: u64, v: Behavior<F>)
        ensures
            final(self)@ == old(self)@.with_behavior(b, v@),
    {
        let old_value = self.behaviors.insert(b, v);
        assert(self@ =~= old(self)@.with_behavior(b, v@));
    }

    /// Adds a cown and returns its name.
    pub(crate) fn push_cown(&mut self, cown: Cown<T>) -> (addr: usize)
        ensures
            addr == old(self)@.cowns.len(),
            final(self)@ == (Memory { cowns: old(self)@.cowns.push(cown), ..old(self)@ }),
    {
        let addr: usize = self.cowns.len();
        self.cowns.push(cown);
        addr
    }

    /// Adds a behaviour and returns its name.
    pub(crate) fn insert(&mut self, v: Behavior<F>) -> (b: u64)
        requires
            old(self)@.next_id < u64::MAX,
        ensures
            b == old(self)@.next_id,
            final(self)@ == (Memory {
                next_id: old(self)@.next_id + 1,
                ..old(self)@.with_behavior(b, v@)
            }),
    {
        let b: u64 = self.next_id;
        self.next_id = b + 1;
        self.put(b, v);
        b
    }

    /// Frees a behaviour.
    pub(crate) fn remove(&mut self, b: u64)
        requires
            old(self)@.live(b),
        ensures
            final(self)@ == (Memory { behaviors: old(self)@.behaviors.remove(b), ..old(self)@ }),
    {
        let freed = self.take(b);
    }

    /// Records the state of the protocol that the memory now stands for.
    pub(crate) fn note(&mut self, Ghost(model): Ghost<Protocol>)
        ensures
            final(self)@ == old(self)@.with_model(model),
    {
        self.model = Ghost(model);
    }

    /// Swaps the tail of the cown `c`, and returns what was there.
    pub(crate) fn last_swap(&mut self, c: usize, new: Option<ReqId>) -> (previous: Option<ReqId>)
        requires
            c < old(self)@.cowns.len(),
        ensures
            previous == old(self)@.cowns[c as int].last,
            final(self)@ == old(self)@.with_last(c as int, new),
    {
        let previous = self.cowns[c].last;
        self.cowns[c].last = new;
        assert(self@ =~= old(self)@.with_last(c as int, new));
        previous
    }

    /// Takes the value out of the cown `c`.
    pub(crate) fn take_resource(&mut self, c: usize) -> (value: T)
        requires
            c < old(self)@.cowns.len(),
            old(self)@.cowns[c as int].resource is Some,
        ensures
            Some(value) == old(self)@.cowns[c as int].resource,
            final(self)@ == old(self)@.with_resource(c as int, None),
    {
        let value = self.cowns[c].resource.take().unwrap();
        assert(self@ =~= old(self)@.with_resource(c as int, None));
        value
    }

    /// Puts a value into the cown `c`.
    pub(crate) fn put_resource(&mut self, c: usize, value: T)
        requires
            c < old(self)@.cowns.len(),
        ensures
            final(self)@ == old(self)@.with_resource(c as int, Some(value)),
    {
        self.cowns[c].resource = Some(value);
        assert(self@ =~= old(self)@.with_resource(c as int, Some(value)));
    }

    /// Stores the successor of `r`.
    pub(crate) fn store_next(&mut self, r: ReqId, next: Option<u64>)
        requires
            old(self)@.is_request(r),
        ensures
            final(self)@ == old(self)@.with_next(r, next),
    {
        let mut v = self.take(r.behavior);
        v.set_next(r.index, next);
        self.put(r.behavior, v);
        assert(self@ =~= old(self)@.with_next(r, next));
    }

    /// Sets the scheduled mark of `r`.
    pub(crate) fn store_scheduled(&mut self, r: ReqId)
        requires
            old(self)@.is_request(r),
        ensures
            final(self)@ == old(self)@.with_scheduled(r),
    {
        let mut v = self.take(r.behavior);
        v.set_scheduled(r.index);
        self.put(r.behavior, v);
        assert(self@ =~= old(self)@.with_scheduled(r));
    }

    /// Subtracts one from the count of `b`, and returns what it was.
    pub(crate) fn count_fetch_sub(&mut self, b: u64) -> (count: usize)
        requires
            old(self)@.live(b),
            old(self)@.behaviors[b].count > 0,
        ensures
            count == old(self)@.behaviors[b].count,
            final(self)@ == old(self)@.with_count(b, count - 1),
    {
        let mut v = self.take(b);
        let count: usize = v.fetch_sub();
        self.put(b, v);
        assert(self@ =~= old(self)@.with_count(b, count - 1));
        count
    }

    /// Puts a value into the cown `c`, and returns the one that was there.
    pub(crate) fn replace_resource(&mut self, c: usize, value: T) -> (previous: T)
        requires
            c < old(self)@.cowns.len(),
            old(self)@.cowns[c as int].resource is Some,
        ensures
            Some(previous) == old(self)@.cowns[c as int].resource,
            final(self)@ == old(self)@.with_resource(c as int, Some(value)),
    {
        let previous = self.take_resource(c);
        self.put_resource(c, value);
        assert(self@ =~= old(self)@.with_resource(c as int, Some(value)));
        previous
    }

    /// Sets the next step of `b`.
    pub(crate) fn set_phase(&mut self, b: u64, phase: Phase)
        requires
            old(self)@.live(b),
        ensures
            final(self)@ == old(self)@.with_phase(b, phase),
    {
        let mut v = self.take(b);
        v.set_phase(phase);
        self.put(b, v);
        assert(self@ =~= old(self)@.with_phase(b, phase));
    }

    /// Takes the routine of `b`.
    pub(crate) fn take_routine(&mut self, b: u64) -> (routine: F)
        requires
            old(self)@.live(b),
            old(self)@.behaviors[b].routine is Some,
        ensures
            Some(routine) == old(self)@.behaviors[b].routine,
            final(self)@ == old(self)@.with_behavior(
                b,
                BehaviorView { routine: None, ..old(self)@.behaviors[b] },
            ),
    {
        let mut v = self.take(b);
        let routine = v.take_routine();
        self.put(b, v);
        assert(self@ =~= old(self)@.with_behavior(b, BehaviorView { routine: None, ..old(self)@.behaviors[b] }));
        routine
    }
}

} // verus!
