//! What the locking discipline guarantees, whatever the threads do.
use crate::laws::{
    among, distinct, law_acquired_owns, law_atomic_enqueue, law_no_deadlock as protocol_no_deadlock,
    law_schedulers_advance as protocol_schedulers_advance, lemma_among_split, lemma_cowns_stay,
    lemma_ordered_kept, lemma_past_kept, lemma_same_members, lemma_targets_kept, ordered,
};
use crate::locked::coupling::{
    lemma_acquire_step, lemma_add_cown_step, lemma_complete_step, lemma_reclaim_step, lemma_empty, lemma_enlist_step,
    lemma_finish_step, lemma_live, lemma_model, lemma_notify_step, lemma_pass_step,
    lemma_release_step, lemma_releasing_known, lemma_resolve_step, lemma_retire_step,
    lemma_run_step, lemma_schedule_step, lemma_settle_step, lemma_tail, lemma_turn_step,
    lemma_unwind_step, lemma_wait_known, newborn,
};
use crate::locked::cown::{lemma_lend_one, lemma_return_one, CownList};
use crate::locked::memory::{BehaviourView, Cown, Location, Memory, Phase, ResourceState};
use crate::measure::{lemma_total_put, lemma_total_remove, total};
use crate::moves::{lemma_place, Move};
use crate::progress::Progress;
use crate::protocol::{ascending, ReqId};
use vstd::prelude::*;

verus! {

/// One thing that can happen to the memory.
///
/// Every public function that changes a runtime makes one of these, or several of
/// them one after the other. The exception is `Behaviour::resolve_one`: it is the part
/// of a step that counts, is no action by itself, and leaves the invariant to the
/// step that it belongs to.
pub enum Action<T, F> {
    /// A cown is created.
    NewCown(T),
    /// A behaviour is handed over.
    Enlist(BehaviourView<F>),
    /// A behaviour makes one step of its scheduling.
    Schedule(u64),
    /// A routine is started.
    Run(u64),
    /// A routine has returned.
    Complete(u64),
    /// A behaviour makes one step of giving back its cowns.
    Release(u64),
    /// A routine borrows values, at some place in the program.
    Lend(u64, Seq<usize>, Location),
    /// A routine returns values.
    Return(u64, Seq<usize>, Seq<T>),
    /// The value of a cown that nobody asks for is moved out, and another one takes
    /// its place.
    Reclaim(usize, T),
}

impl<T, F> Memory<T, F> {
    /// The action `a` is possible.
    pub open spec fn allows(self, a: Action<T, F>) -> bool {
        match a {
            Action::NewCown(_) => true,
            Action::Enlist(v) => {
                &&& self.next_id < u64::MAX
                &&& newborn(v)
                &&& forall|i: int| 0 <= i < v.requests.len() ==> (#[trigger] v.requests[i]).resource.cown
                    < self.cowns.len()
            },
            Action::Schedule(b) => self.scheduling(b),
            Action::Run(b) => self.live(b) && self.phase(b) is Ready,
            Action::Complete(b) => {
                &&& self.live(b)
                &&& self.phase(b) is Running
                &&& forall|r: ReqId| #[trigger] self.is_request(r) && r.behavior == b
                    ==> self.cowns[self.target(r)].resource is Some
            },
            Action::Release(b) => self.releasing(b),
            Action::Lend(b, addrs, _) => self.lendable(b, addrs),
            Action::Return(b, addrs, values) => self.returnable(b, addrs) && values.len() == addrs.len(),
            Action::Reclaim(a, _) => a < self.cowns.len() && self.cowns[a as int].last_request is None,
        }
    }

    /// The memory after the action `a`.
    pub open spec fn after(self, a: Action<T, F>) -> Memory<T, F> {
        match a {
            Action::NewCown(value) => self.add_cown(value),
            Action::Enlist(v) => self.enlist(v),
            Action::Schedule(b) => self.schedule(b),
            Action::Run(b) => self.run(b),
            Action::Complete(b) => self.complete(b),
            Action::Release(b) => self.unwind(b),
            Action::Lend(_, addrs, at) => self.lend(addrs, at),
            Action::Return(_, addrs, values) => self.give_back(addrs, values),
            Action::Reclaim(a, rest) => self.with_value(a as int, rest),
        }
    }

    /// The move of the protocol that the action `a` makes, if any.
    pub open spec fn move_of(self, a: Action<T, F>) -> Option<Move> {
        match a {
            Action::NewCown(_) => Some(Move::AddCown),
            Action::Enlist(v) => Some(Move::Admit(self.next_id as u64, v.targets())),
            Action::Schedule(b) => match self.phase(b) {
                Phase::Enqueue(i) => if i < self.size(b) {
                    Some(Move::Enqueue(b))
                } else {
                    Some(Move::Turn(b))
                },
                Phase::Resolve(_) => Some(Move::Resolve(b)),
                Phase::Wait(_, prev) => if self.passable(prev) {
                    Some(Move::Pass(b))
                } else {
                    None
                },
                Phase::Finish(i) => if i < self.size(b) {
                    Some(Move::Finish(b))
                } else {
                    Some(Move::Settle(b))
                },
                _ => None,
            },
            Action::Run(b) => Some(Move::Begin(b)),
            Action::Complete(b) => Some(Move::Complete(b)),
            Action::Release(b) => match self.phase(b) {
                Phase::Release(i) => if i == self.size(b) {
                    Some(Move::Retire(b))
                } else {
                    Some(Move::Release(b))
                },
                Phase::Notify(_, _) => Some(Move::Notify(b)),
                _ => None,
            },
            Action::Lend(_, _, _) => None,
            Action::Return(_, _, _) => None,
            Action::Reclaim(_, _) => None,
        }
    }
}

/// Borrowing the values of several cowns.
pub proof fn lemma_lend_all<T, F>(s: Memory<T, F>, b: u64, addrs: Seq<usize>, at: Location)
    requires
        s.inv(),
        s.lendable(b, addrs),
    ensures
        s.lend(addrs, at).inv(),
        s.lend(addrs, at) == (Memory { cowns: s.lend(addrs, at).cowns, ..s }),
        s.lend(addrs, at).cowns.len() == s.cowns.len(),
        forall|c: int| 0 <= c < s.cowns.len() ==> #[trigger] s.lend(addrs, at).cowns[c] == (if among(
            addrs,
            c,
        ) {
            Cown { borrow_at: Some(at), resource: None, ..s.cowns[c] }
        } else {
            s.cowns[c]
        }),
    decreases addrs.len(),
{
    if addrs.len() > 0 {
        let t = s.with_borrow(addrs[0] as int, at);
        let rest = addrs.drop_first();
        lemma_lend_one(s, b, addrs, at);
        lemma_lend_all(t, b, rest, at);
        assert forall|c: int| 0 <= c < s.cowns.len() implies #[trigger] s.lend(addrs, at).cowns[c] == (if among(
            addrs,
            c,
        ) {
            Cown { borrow_at: Some(at), resource: None, ..s.cowns[c] }
        } else {
            s.cowns[c]
        }) by {
            assert(t.lend(rest, at).cowns[c] == s.lend(addrs, at).cowns[c]);
            lemma_among_split(addrs, c);
        }
    }
}

/// Returning the values of several cowns.
pub proof fn lemma_return_all<T, F>(s: Memory<T, F>, b: u64, addrs: Seq<usize>, values: Seq<T>)
    requires
        s.inv(),
        s.returnable(b, addrs),
        values.len() == addrs.len(),
    ensures
        s.give_back(addrs, values).inv(),
        s.give_back(addrs, values) == (Memory { cowns: s.give_back(addrs, values).cowns, ..s }),
        s.give_back(addrs, values).cowns.len() == s.cowns.len(),
        forall|i: int| 0 <= i < addrs.len() ==> #[trigger] s.give_back(addrs, values).cowns[addrs[i] as int] == (Cown {
            borrow_at: None,
            resource: Some(values[i]),
            ..s.cowns[addrs[i] as int]
        }),
        forall|c: int| 0 <= c < s.cowns.len() && !among(addrs, c) ==> #[trigger] s.give_back(
            addrs,
            values,
        ).cowns[c] == s.cowns[c],
    decreases addrs.len(),
{
    if addrs.len() > 0 {
        let t = s.with_value(addrs[0] as int, values[0]);
        let rest = addrs.drop_first();
        let vals = values.drop_first();
        lemma_return_one(s, b, addrs, values[0]);
        lemma_return_all(t, b, rest, vals);
        let u = s.give_back(addrs, values);
        assert(u == t.give_back(rest, vals));
        assert forall|i: int| 0 <= i < addrs.len() implies #[trigger] u.cowns[addrs[i] as int] == (Cown {
            borrow_at: None,
            resource: Some(values[i]),
            ..s.cowns[addrs[i] as int]
        }) by {
            if i == 0 {
                assert(!rest.contains(addrs[0])) by {
                    if rest.contains(addrs[0]) {
                        let j = choose|j: int| 0 <= j < rest.len() && rest[j] == addrs[0];
                        assert(addrs[j + 1] == addrs[0]);
                    }
                }
                assert(u.cowns[addrs[0] as int] == t.cowns[addrs[0] as int]);
            } else {
                assert(rest[i - 1] == addrs[i]);
                assert(addrs[0] != addrs[i]);
                assert(u.cowns[rest[i - 1] as int].resource == Some(vals[i - 1]));
            }
        }
        assert forall|c: int| 0 <= c < s.cowns.len() && !among(addrs, c) implies
            #[trigger] u.cowns[c] == s.cowns[c] by {
            lemma_among_split(addrs, c);
        }
    }
}

/// Every action keeps the invariant, and is the move of the protocol that
/// [`Memory::move_of`] says, or none.
pub proof fn law_actions_refine<T, F>(s: Memory<T, F>, a: Action<T, F>)
    requires
        s.inv(),
        s.allows(a),
    ensures
        s.after(a).inv(),
        match s.move_of(a) {
            Some(m) => s.model.enabled(m) && s.after(a).model == s.model.apply(m),
            None => s.after(a).model == s.model,
        },
{
    match a {
        Action::NewCown(value) => lemma_add_cown_step(s, value),
        Action::Enlist(v) => lemma_enlist_step(s, v),
        Action::Schedule(b) => {
            lemma_live(s, b);
            lemma_schedule_step(s, b);
            match s.phase(b) {
                Phase::Enqueue(i) => {
                    if i < s.size(b) {
                        lemma_acquire_step(s, b);
                    } else {
                        lemma_turn_step(s, b);
                    }
                },
                Phase::Resolve(_) => lemma_resolve_step(s, b),
                Phase::Wait(_, prev) => {
                    if s.passable(prev) {
                        lemma_pass_step(s, b);
                    }
                },
                Phase::Finish(i) => {
                    if i < s.size(b) {
                        lemma_finish_step(s, b);
                    } else {
                        lemma_settle_step(s, b);
                    }
                },
                _ => {},
            }
        },
        Action::Run(b) => lemma_run_step(s, b),
        Action::Complete(b) => lemma_complete_step(s, b),
        Action::Release(b) => {
            lemma_live(s, b);
            lemma_unwind_step(s, b);
            match s.phase(b) {
                Phase::Release(i) => {
                    if i < s.size(b) {
                        lemma_release_step(s, b);
                    } else {
                        lemma_retire_step(s, b);
                    }
                },
                Phase::Notify(_, _) => lemma_notify_step(s, b),
                _ => {},
            }
        },
        Action::Lend(b, addrs, at) => lemma_lend_all(s, b, addrs, at),
        Action::Return(b, addrs, values) => lemma_return_all(s, b, addrs, values),
        Action::Reclaim(c, rest) => lemma_reclaim_step(s, c as int, rest),
    }
}

// --- Runs. ---

impl<T, F> Memory<T, F> {
    /// The actions `run` are possible one after the other.
    pub open spec fn allows_all(self, run: Seq<Action<T, F>>) -> bool
        decreases run.len(),
    {
        run.len() == 0 || self.allows_all(run.drop_last()) && self.after_all(run.drop_last()).allows(run.last())
    }

    /// The memory after the actions `run`.
    pub open spec fn after_all(self, run: Seq<Action<T, F>>) -> Memory<T, F>
        decreases run.len(),
    {
        if run.len() == 0 {
            self
        } else {
            self.after_all(run.drop_last()).after(run.last())
        }
    }
}

/// Whatever is done, in whatever order, the invariant holds.
pub proof fn law_reachable_inv<T, F>(run: Seq<Action<T, F>>)
    requires
        Memory::<T, F>::empty().allows_all(run),
    ensures
        Memory::<T, F>::empty().after_all(run).inv(),
{
    lemma_empty::<T, F>();
    lemma_run_inv(Memory::<T, F>::empty(), run);
}

proof fn lemma_run_inv<T, F>(s: Memory<T, F>, run: Seq<Action<T, F>>)
    requires
        s.inv(),
        s.allows_all(run),
    ensures
        s.after_all(run).inv(),
    decreases run.len(),
{
    if run.len() > 0 {
        lemma_run_inv(s, run.drop_last());
        law_actions_refine(s.after_all(run.drop_last()), run.last());
    }
}

// --- Isolation. ---

impl<T, F> Memory<T, F> {
    /// `b` has acquired all its cowns.
    pub open spec fn acquired(self, b: u64) -> bool {
        self.live(b) && (self.phase(b) is Ready || self.phase(b) is Running || self.releasing(b))
    }

    /// `b` has acquired all its cowns, `c` is one of them, and it has not yet
    /// given `c` back.
    pub open spec fn holds(self, b: u64, c: int) -> bool {
        &&& self.acquired(b)
        &&& exists|r: ReqId| r.behavior == b && #[trigger] self.is_request(r) && self.target(r) == c && match self.phase(b) {
            Phase::Release(i) => i <= r.index,
            Phase::Notify(i, _) => i < r.index,
            _ => true,
        }
    }
}

/// No two behaviours hold one cown at the same time.
pub proof fn law_exclusion<T, F>(s: Memory<T, F>, b1: u64, b2: u64, c: int)
    requires
        s.inv(),
        s.holds(b1, c),
        s.holds(b2, c),
    ensures
        b1 == b2,
{
    lemma_model(s);
    lemma_holds(s, b1, c);
    lemma_holds(s, b2, c);
    crate::laws::law_exclusion(s.model, b1, b2, c);
}

proof fn lemma_holds<T, F>(s: Memory<T, F>, b: u64, c: int)
    requires
        s.inv(),
        s.holds(b, c),
    ensures
        s.model.holds(b, c),
{
    lemma_live(s, b);
    let r = choose|r: ReqId| r.behavior == b && #[trigger] s.is_request(r) && s.target(r) == c && match s.phase(b) {
        Phase::Release(i) => i <= r.index,
        Phase::Notify(i, _) => i < r.index,
        _ => true,
    };
    assert(s.model.queued(r));
}

/// A cown is available, or somebody asks for it: it has no last request if and
/// only if no request for it is in a queue. Whoever holds it has such a request.
pub proof fn law_availability<T, F>(s: Memory<T, F>, c: int)
    requires
        s.inv(),
        0 <= c < s.cowns.len(),
    ensures
        s.cowns[c].last_request is None <==> forall|r: ReqId| #[trigger] s.model.queued(r) ==> s.model.target(r) != c,
        forall|b: u64| #[trigger] s.holds(b, c) ==> s.cowns[c].last_request is Some,
{
    reveal(Memory::inv);
    assert(s.cowns[c].last_request is None <==> s.model.queues[c].len() == 0);
    if s.cowns[c].last_request is None {
        assert forall|r: ReqId| #[trigger] s.model.queued(r) implies s.model.target(r) != c by {
            assert(s.model.queues[s.model.target(r)].contains(r));
        }
    } else {
        assert(s.model.queued(s.model.queues[c][0]));
    }
    assert forall|b: u64| #[trigger] s.holds(b, c) implies s.cowns[c].last_request is Some by {
        lemma_holds(s, b, c);
        let r = choose|r: ReqId| r.behavior == b && #[trigger] s.model.queued(r) && s.model.target(r) == c;
        assert(s.model.queued(r));
    }
}

/// Freedom from data races: only the one behaviour that holds a cown, while its
/// routine runs, can take the value of the cown or put it back. Only the value of a
/// cown that nobody asks for can be moved out for good. Every other action leaves the value as
/// it is.
pub proof fn law_values_isolated<T, F>(s: Memory<T, F>, a: Action<T, F>, c: int)
    requires
        s.inv(),
        s.allows(a),
        0 <= c < s.cowns.len(),
    ensures
        c < s.after(a).cowns.len(),
        s.after(a).cowns[c].resource == s.cowns[c].resource || match a {
            Action::Lend(b, addrs, _) => among(addrs, c) && s.phase(b) is Running && s.holds(b, c),
            Action::Return(b, addrs, _) => among(addrs, c) && s.phase(b) is Running && s.holds(b, c),
            Action::Reclaim(a, _) => a == c && s.cowns[c].last_request is None,
            _ => false,
        },
{
    match a {
        Action::Lend(b, addrs, at) => {
            lemma_lend_all(s, b, addrs, at);
            if among(addrs, c) {
                let i = choose|i: int| 0 <= i < addrs.len() && addrs[i] == c as usize;
                assert(s.running_with(b, addrs[i]));
            }
            assert(s.lend(addrs, at).cowns[c] == s.lend(addrs, at).cowns[c]);
        },
        Action::Return(b, addrs, values) => {
            lemma_return_all(s, b, addrs, values);
            if among(addrs, c) {
                let i = choose|i: int| 0 <= i < addrs.len() && addrs[i] == c as usize;
                assert(s.running_with(b, addrs[i]));
            } else {
                assert(s.give_back(addrs, values).cowns[c] == s.cowns[c]);
            }
        },
        Action::Schedule(b) => {
            lemma_live(s, b);
            assert(s.is_request(s.current(b)) ==> s.target(s.current(b)) < s.cowns.len());
        },
        Action::Release(b) => {
            lemma_live(s, b);
            assert(s.is_request(s.current(b)) ==> s.target(s.current(b)) < s.cowns.len());
        },
        _ => {},
    }
}

/// The action `a` names the value of the cown `c`.
pub open spec fn touches<T, F>(a: Action<T, F>, c: int) -> bool {
    match a {
        Action::Lend(_, addrs, _) => among(addrs, c),
        Action::Return(_, addrs, _) => among(addrs, c),
        Action::Reclaim(x, _) => x == c,
        _ => false,
    }
}

/// A value stays: as long as nobody borrows it, returns it or reclaims it, it is as
/// it was left, whatever else is done. So the next behaviour that borrows it finds
/// what the last one returned.
pub proof fn law_value_stays<T, F>(s: Memory<T, F>, run: Seq<Action<T, F>>, c: int)
    requires
        s.inv(),
        s.allows_all(run),
        0 <= c < s.cowns.len(),
        forall|k: int| 0 <= k < run.len() ==> !touches(#[trigger] run[k], c),
    ensures
        c < s.after_all(run).cowns.len(),
        s.after_all(run).cowns[c].resource == s.cowns[c].resource,
    decreases run.len(),
{
    if run.len() > 0 {
        let front = run.drop_last();
        assert forall|k: int| 0 <= k < front.len() implies !touches(#[trigger] front[k], c) by {
            assert(front[k] == run[k]);
        }
        law_value_stays(s, front, c);
        lemma_run_inv(s, front);
        assert(!touches(run[run.len() - 1], c));
        law_values_isolated(s.after_all(front), run.last(), c);
    }
}

/// Borrowing and returning: what is borrowed can be returned, and returning the
/// values unchanged restores the memory.
pub proof fn law_borrow_return<T, F>(s: Memory<T, F>, b: u64, addrs: Seq<usize>, at: Location)
    requires
        s.inv(),
        s.lendable(b, addrs),
    ensures
        s.lend(addrs, at).returnable(b, addrs),
        s.lend(addrs, at).give_back(addrs, s.values(addrs)) == s,
{
    lemma_lend_all(s, b, addrs, at);
    let t = s.lend(addrs, at);
    assert forall|i: int| 0 <= i < addrs.len() implies {
        &&& t.running_with(b, #[trigger] addrs[i])
        &&& addrs[i] < t.cowns.len()
        &&& t.cowns[addrs[i] as int].resource is None
    } by {
        assert(s.running_with(b, addrs[i]));
        let r = choose|r: ReqId| r.behavior == b && #[trigger] s.is_request(r) && s.target(r) == addrs[i];
        assert(t.is_request(r) && t.target(r) == addrs[i]);
        assert(addrs.contains(addrs[i]));
        assert(t.cowns[addrs[i] as int].resource is None);
    }
    lemma_return_all(t, b, addrs, s.values(addrs));
    let u = t.give_back(addrs, s.values(addrs));
    assert(u.cowns =~= s.cowns) by {
        assert forall|c: int| 0 <= c < s.cowns.len() implies u.cowns[c] == s.cowns[c] by {
            assert(t.cowns[c].last_request == s.cowns[c].last_request);
            if among(addrs, c) {
                let i = choose|i: int| 0 <= i < addrs.len() && addrs[i] == c as usize;
                assert(u.cowns[addrs[i] as int].resource == Some(s.values(addrs)[i]));
                assert(s.cowns[addrs[i] as int].resource is Some);
            } else {
                assert(u.cowns[c] == t.cowns[c]);
            }
        }
    }
}

impl<T, F> Memory<T, F> {
    /// How many borrows of the cown `c` are outstanding.
    pub open spec fn lent(self, c: int) -> int {
        if 0 <= c < self.cowns.len() && self.cowns[c].borrow_at is Some {
            1
        } else {
            0
        }
    }
}

/// The borrows of the cown `c` that `run` makes, less those that it ends.
pub open spec fn outstanding<T, F>(run: Seq<Action<T, F>>, c: int) -> int
    decreases run.len(),
{
    if run.len() == 0 {
        0
    } else {
        outstanding(run.drop_last(), c) + match run.last() {
            Action::Lend(_, addrs, _) => if among(addrs, c) { 1int } else { 0int },
            Action::Return(_, addrs, _) => if among(addrs, c) { -1int } else { 0int },
            _ => 0int,
        }
    }
}

/// Access to a value is unique: at every moment of every run at most one borrow of
/// a cown is outstanding, and the cown knows whether one is.
pub proof fn law_one_borrow<T, F>(run: Seq<Action<T, F>>, c: int)
    requires
        Memory::<T, F>::empty().allows_all(run),
    ensures
        outstanding(run, c) == Memory::<T, F>::empty().after_all(run).lent(c),
        0 <= outstanding(run, c) <= 1,
{
    lemma_empty::<T, F>();
    law_borrows_counted(Memory::<T, F>::empty(), run, c);
}

/// What is outstanding at the end of a run is what was outstanding before, and
/// what the run has borrowed and not returned.
pub proof fn law_borrows_counted<T, F>(s: Memory<T, F>, run: Seq<Action<T, F>>, c: int)
    requires
        s.inv(),
        s.allows_all(run),
    ensures
        s.lent(c) + outstanding(run, c) == s.after_all(run).lent(c),
    decreases run.len(),
{
    if run.len() > 0 {
        let front = run.drop_last();
        let a = run.last();
        law_borrows_counted(s, front, c);
        lemma_run_inv(s, front);
        let u = s.after_all(front);
        law_actions_refine(u, a);
        if 0 <= c < u.cowns.len() {
            law_values_isolated(u, a, c);
            lemma_borrow_noted(u, c);
            lemma_borrow_noted(u.after(a), c);
        }
        match a {
            Action::Lend(b, addrs, at) => {
                lemma_lend_all(u, b, addrs, at);
                if among(addrs, c) {
                    let i = choose|i: int| 0 <= i < addrs.len() && addrs[i] == c as usize;
                    assert(u.running_with(b, addrs[i]));
                    assert(u.cowns[addrs[i] as int].resource is Some);
                }
                if 0 <= c < u.cowns.len() {
                    assert(u.lend(addrs, at).cowns[c] == u.lend(addrs, at).cowns[c]);
                }
            },
            Action::Return(b, addrs, values) => {
                lemma_return_all(u, b, addrs, values);
                if among(addrs, c) {
                    let i = choose|i: int| 0 <= i < addrs.len() && addrs[i] == c as usize;
                    assert(u.running_with(b, addrs[i]));
                    assert(u.give_back(addrs, values).cowns[addrs[i] as int].resource == Some(values[i]));
                } else if 0 <= c < u.cowns.len() {
                    assert(u.give_back(addrs, values).cowns[c] == u.cowns[c]);
                }
            },
            Action::Reclaim(x, rest) => {
                lemma_reclaim_step(u, x as int, rest);
            },
            _ => {
                law_cowns_grow(u, a);
            },
        }
    }
}

/// Cowns stay, and only their creation adds some, one at a time, with its value in
/// it.
pub proof fn law_cowns_grow<T, F>(s: Memory<T, F>, a: Action<T, F>)
    requires
        s.inv(),
        s.allows(a),
    ensures
        match a {
            Action::NewCown(value) => s.after(a).cowns == s.cowns.push(s.after(a).cowns.last()) && s.after(
                a,
            ).cowns.last().resource == Some(value) && s.after(a).cowns.last().borrow_at is None,
            _ => s.after(a).cowns.len() == s.cowns.len(),
        },
{
    match a {
        Action::Lend(b, addrs, at) => lemma_lend_all(s, b, addrs, at),
        Action::Return(b, addrs, values) => lemma_return_all(s, b, addrs, values),
        Action::Schedule(b) => {
            lemma_live(s, b);
            assert(s.is_request(s.current(b)) ==> s.target(s.current(b)) < s.cowns.len());
        },
        Action::Release(b) => {
            lemma_live(s, b);
            assert(s.is_request(s.current(b)) ==> s.target(s.current(b)) < s.cowns.len());
        },
        _ => {},
    }
}

/// It is known where a value is borrowed if and only if it is away.
proof fn lemma_borrow_noted<T, F>(s: Memory<T, F>, c: int)
    requires
        s.inv(),
        0 <= c < s.cowns.len(),
    ensures
        s.cowns[c].resource is None <==> s.cowns[c].borrow_at is Some,
{
    reveal(Memory::inv);
}

/// Borrowing from one cown, and returning to it, are actions: those on a list of
/// one.
pub proof fn law_single_borrow<T, F>(s: Memory<T, F>, b: u64, a: usize, at: Location, value: T)
    requires
        s.inv(),
        s.running_with(b, a),
        a < s.cowns.len(),
    ensures
        s.cowns[a as int].borrow_at is None ==> s.allows(Action::Lend(b, seq![a], at)),
        s.with_borrow(a as int, at) == s.after(Action::Lend(b, seq![a], at)),
        s.cowns[a as int].resource is None ==> s.allows(Action::Return(b, seq![a], seq![value])),
        s.with_value(a as int, value) == s.after(Action::Return(b, seq![a], seq![value])),
{
    lemma_borrow_noted(s, a as int);
    assert(seq![a].drop_first() =~= Seq::empty());
    assert(seq![value].drop_first() =~= Seq::empty());
    reveal_with_fuel(Memory::lend, 2);
    reveal_with_fuel(Memory::give_back, 2);
}

impl<T, F> Memory<T, F> {
    /// Every value that is in its cown is as `ok` says.
    pub open spec fn well_typed(self, ok: spec_fn(int, T) -> bool) -> bool {
        forall|c: int| 0 <= c < self.cowns.len() ==> ((#[trigger] self.cowns[c]).resource matches Some(v) ==> ok(c, v))
    }

    /// The values that the action `a` puts into cowns are as `ok` says.
    pub open spec fn keeps_types(self, a: Action<T, F>, ok: spec_fn(int, T) -> bool) -> bool {
        match a {
            Action::NewCown(value) => ok(self.cowns.len() as int, value),
            Action::Return(_, addrs, values) => forall|i: int| 0 <= i < addrs.len() ==> ok(
                addrs[i] as int,
                #[trigger] values[i],
            ),
            Action::Reclaim(a, rest) => ok(a as int, rest),
            _ => true,
        }
    }
}

/// Types of values over time: whatever holds of the value of each cown goes on to
/// hold, as long as what is put into cowns keeps it.
pub proof fn law_types_kept<T, F>(s: Memory<T, F>, a: Action<T, F>, ok: spec_fn(int, T) -> bool)
    requires
        s.inv(),
        s.allows(a),
        s.well_typed(ok),
        s.keeps_types(a, ok),
    ensures
        s.after(a).well_typed(ok),
{
    let t = s.after(a);
    law_cowns_grow(s, a);
    assert forall|c: int| 0 <= c < t.cowns.len() implies ((#[trigger] t.cowns[c]).resource matches Some(v) ==> ok(c, v)) by {
        if c < s.cowns.len() {
            law_values_isolated(s, a, c);
            assert(s.cowns[c].resource matches Some(v) ==> ok(c, v));
            match a {
                Action::Lend(b, addrs, at) => {
                    lemma_lend_all(s, b, addrs, at);
                },
                Action::Return(b, addrs, values) => {
                    lemma_return_all(s, b, addrs, values);
                    if among(addrs, c) {
                        let i = choose|i: int| 0 <= i < addrs.len() && addrs[i] == c as usize;
                        assert(t.cowns[addrs[i] as int].resource == Some(values[i]));
                        assert(ok(addrs[i] as int, values[i]));
                    } else {
                        assert(t.cowns[c] == s.cowns[c]);
                    }
                },
                _ => {},
            }
        }
    }
}

/// The same along a run.
pub proof fn law_types_kept_along<T, F>(s: Memory<T, F>, run: Seq<Action<T, F>>, ok: spec_fn(int, T) -> bool)
    requires
        s.inv(),
        s.allows_all(run),
        s.well_typed(ok),
        forall|k: int| 0 <= k < run.len() ==> s.after_all(#[trigger] run.take(k)).keeps_types(run[k], ok),
    ensures
        s.after_all(run).well_typed(ok),
    decreases run.len(),
{
    if run.len() > 0 {
        let front = run.drop_last();
        assert forall|k: int| 0 <= k < front.len() implies s.after_all(#[trigger] front.take(k)).keeps_types(front[k], ok) by {
            assert(front.take(k) =~= run.take(k));
        }
        law_types_kept_along(s, front, ok);
        lemma_run_inv(s, front);
        assert(run.take(run.len() - 1) =~= front);
        assert(run.last() == run[run.len() - 1]);
        law_types_kept(s.after_all(front), run.last(), ok);
    }
}

/// A list of handles can be used as long as the values are of the types that the
/// handles promise: the values that are lent fit the list.
pub proof fn law_typed_values_fit<T, F, C: CownList<T>>(
    s: Memory<T, F>,
    b: u64,
    list: C,
    ok: spec_fn(int, T) -> bool,
)
    requires
        s.well_typed(ok),
        s.lendable(b, list.addrs()),
        list.typed(ok),
    ensures
        list.fits(s.values(list.addrs())),
{
    let addrs = list.addrs();
    let values = s.values(addrs);
    assert forall|i: int| 0 <= i < values.len() implies ok(addrs[i] as int, #[trigger] values[i]) by {
        assert(s.running_with(b, addrs[i]));
        assert(s.cowns[addrs[i] as int].resource == Some(values[i]));
    }
    list.law_typed_fits(ok, values);
}

/// A routine reaches its values: where a behaviour that asked for `addrs`, none of
/// them twice, is ready, it can be run, it can borrow the values of `addrs`, it can
/// return any values instead, and it can then be completed.
pub proof fn law_routine_reaches_values<T, F>(s: Memory<T, F>, b: u64, addrs: Seq<usize>, values: Seq<T>, at: Location)
    requires
        s.inv(),
        s.live(b),
        s.phase(b) is Ready,
        distinct(s.behaviours[b].targets()),
        addrs.to_multiset() == s.behaviours[b].targets().to_multiset(),
        values.len() == addrs.len(),
    ensures
        s.run(b).lendable(b, addrs),
        s.run(b).lend(addrs, at).returnable(b, addrs),
        s.run(b).lend(addrs, at).give_back(addrs, values).allows(Action::Complete(b)),
{
    let targets = s.behaviours[b].targets();
    let u = s.run(b);
    lemma_same_members(targets, addrs);
    lemma_run_step(s, b);
    lemma_live(s, b);
    lemma_live(u, b);
    assert forall|i: int| 0 <= i < addrs.len() implies {
        &&& u.running_with(b, #[trigger] addrs[i])
        &&& addrs[i] < u.cowns.len()
        &&& u.cowns[addrs[i] as int].resource is Some
        &&& u.cowns[addrs[i] as int].borrow_at is None
    } by {
        assert(addrs.contains(addrs[i]));
        let k = choose|k: int| 0 <= k < targets.len() && targets[k] == addrs[i];
        let r = ReqId { behavior: b, index: k as usize };
        assert(s.is_request(r) && u.is_request(r));
        assert(u.target(r) == addrs[i]);
        lemma_ready_home(s, r);
    }
    law_borrow_return(u, b, addrs, at);
    lemma_lend_all(u, b, addrs, at);
    let t = u.lend(addrs, at);
    lemma_return_all(t, b, addrs, values);
    let w = t.give_back(addrs, values);
    assert forall|r: ReqId| #[trigger] w.is_request(r) && r.behavior == b implies w.cowns[w.target(r)].resource is Some by {
        assert(u.is_request(r));
        assert(targets[r.index as int] == w.target(r));
        assert(targets.contains(targets[r.index as int]));
        let i = choose|i: int| 0 <= i < addrs.len() && addrs[i] == targets[r.index as int];
        assert(w.cowns[addrs[i] as int].resource == Some(values[i]));
    }
}

/// The values of a behaviour that is ready are in their cowns.
proof fn lemma_ready_home<T, F>(s: Memory<T, F>, r: ReqId)
    requires
        s.inv(),
        s.is_request(r),
        s.phase(r.behavior) is Ready,
    ensures
        s.cowns[s.target(r)].resource is Some,
        s.cowns[s.target(r)].borrow_at is None,
{
    lemma_live(s, r.behavior);
    lemma_model(s);
    let c = s.target(r);
    if s.cowns[c].resource is None {
        assert(s.borrowed(c)) by {
            reveal(Memory::inv);
        }
        let x = choose|x: ReqId| #[trigger] s.model.queued(x) && s.model.target(x) == c && s.model.stage(x.behavior)
            is Running;
        law_acquired_owns(s.model, r);
        law_acquired_owns(s.model, x);
        assert(s.model.queued(r));
    }
    reveal(Memory::inv);
}

// --- Order. ---

/// Happens before: if a request is in the queue of a cown before another
/// behaviour asks for that cown, then, whatever is done in between, the latter
/// behaviour is not started before the former has given the cown back, and so not
/// before its routine has returned.
pub proof fn law_happens_before<T, F>(s: Memory<T, F>, run: Seq<Action<T, F>>, first: ReqId, second: ReqId)
    requires
        s.inv(),
        s.allows_all(run),
        s.model.queued(first),
        s.is_request(second),
        s.target(first) == s.target(second),
        first.behavior != second.behavior,
        !s.model.stage(second.behavior).entered(second.index as int),
    ensures
        s.after_all(run).acquired(second.behavior) || !s.after_all(run).live(second.behavior) ==> {
            &&& s.after_all(run).model.past(first)
            &&& !s.after_all(run).live(first.behavior) || s.after_all(run).releasing(first.behavior)
        },
{
    lemma_live(s, second.behavior);
    lemma_model(s);
    assert(s.live(first.behavior));
    lemma_live(s, first.behavior);
    assert(s.is_request(first));
    let c = s.target(first);
    lemma_order_run(s, run, c, first, second);
    lemma_run_inv(s, run);
    let t = s.after_all(run);
    lemma_model(t);
    if t.acquired(second.behavior) && !t.model.past(first) {
        lemma_live(t, second.behavior);
        let (j, k) = choose|j: int, k: int| 0 <= j < k < t.model.queues[c].len() && #[trigger] t.model.queues[c][j]
            == first && #[trigger] t.model.queues[c][k] == second;
        assert(t.model.stage(second.behavior).acquired());
        law_acquired_owns(t.model, second);
        assert(t.model.queued(t.model.queues[c][k]));
        assert(t.model.queues[c][0] == second);
        assert(t.model.queues[c][0] != t.model.queues[c][k]);
    }
    if t.model.past(first) {
        lemma_past_released(t, first);
    }
}

/// A behaviour that has given back a cown is gone, or is giving back its cowns: its
/// routine has returned.
proof fn lemma_past_released<T, F>(s: Memory<T, F>, r: ReqId)
    requires
        s.inv(),
        s.model.past(r),
    ensures
        !s.live(r.behavior) || s.releasing(r.behavior),
{
    if s.live(r.behavior) {
        lemma_live(s, r.behavior);
    }
}

proof fn lemma_order_run<T, F>(s: Memory<T, F>, run: Seq<Action<T, F>>, c: int, first: ReqId, second: ReqId)
    requires
        s.inv(),
        s.allows_all(run),
        0 <= c < s.model.queues.len(),
        first.behavior != second.behavior,
        first.behavior < s.next_id,
        second.behavior < s.next_id,
        ordered(s.model, c, first, second),
    ensures
        ordered(s.after_all(run).model, c, first, second),
        s.after_all(run).model.queues.len() >= s.model.queues.len(),
        s.after_all(run).next_id >= s.next_id,
    decreases run.len(),
{
    if run.len() > 0 {
        let front = run.drop_last();
        lemma_order_run(s, front, c, first, second);
        lemma_run_inv(s, front);
        let u = s.after_all(front);
        let a = run.last();
        law_actions_refine(u, a);
        lemma_model(u);
        if u.move_of(a) is Some {
            let m = u.move_of(a)->Some_0;
            lemma_ordered_kept(u.model, m, c, first, second);
            lemma_cowns_stay(u.model, m);
        }
        match a {
            Action::Lend(b, addrs, at) => lemma_lend_all(u, b, addrs, at),
            Action::Return(b, addrs, values) => lemma_return_all(u, b, addrs, values),
            _ => {},
        }
    }
}

/// Spawned before: if a behaviour has been scheduled before another one that
/// shares a cown with it is handed over, then, whatever is done afterwards, the
/// latter is not started before the former has given the shared cown back, and so
/// not before its routine has returned.
pub proof fn law_spawned_before<T, F>(
    s: Memory<T, F>,
    v: BehaviourView<F>,
    run: Seq<Action<T, F>>,
    first: ReqId,
    index: usize,
)
    requires
        s.inv(),
        s.allows(Action::Enlist(v)),
        s.enlist(v).allows_all(run),
        s.is_request(first),
        !s.scheduling(first.behavior),
        index < v.requests.len(),
        v.targets()[index as int] == s.target(first),
    ensures
        ({
            let t = s.enlist(v).after_all(run);
            let b = s.next_id as u64;
            t.acquired(b) || !t.live(b) ==> {
                &&& t.model.past(first)
                &&& !t.live(first.behavior) || t.releasing(first.behavior)
            }
        }),
{
    let b = s.next_id as u64;
    let second = ReqId { behavior: b, index };
    let u = s.enlist(v);
    lemma_live(s, first.behavior);
    lemma_enlist_step(s, v);
    lemma_live(u, b);
    lemma_live(u, first.behavior);
    assert(u.is_request(first) && u.is_request(second));
    assert(u.target(second) == v.targets()[index as int]);
    assert(u.model.stage(first.behavior) == s.model.stage(first.behavior));
    if u.model.past(first) {
        lemma_past_run(u, run, first);
        lemma_run_inv(u, run);
        lemma_past_released(u.after_all(run), first);
    } else {
        law_happens_before(u, run, first, second);
    }
}

/// What has been given back stays so.
proof fn lemma_past_run<T, F>(s: Memory<T, F>, run: Seq<Action<T, F>>, r: ReqId)
    requires
        s.inv(),
        s.allows_all(run),
        s.model.past(r),
        r.behavior < s.next_id,
    ensures
        s.after_all(run).model.past(r),
        s.after_all(run).next_id >= s.next_id,
    decreases run.len(),
{
    if run.len() > 0 {
        let front = run.drop_last();
        lemma_past_run(s, front, r);
        lemma_run_inv(s, front);
        let u = s.after_all(front);
        let a = run.last();
        law_actions_refine(u, a);
        lemma_model(u);
        if u.move_of(a) is Some {
            lemma_past_kept(u.model, u.move_of(a)->Some_0, r);
        }
        match a {
            Action::Lend(b, addrs, at) => lemma_lend_all(u, b, addrs, at),
            Action::Return(b, addrs, values) => lemma_return_all(u, b, addrs, values),
            _ => {},
        }
    }
}

impl<T, F> Memory<T, F> {
    /// All requests of `b` have been put into their queues.
    pub open spec fn enqueued(self, b: u64) -> bool {
        self.live(b) && match self.phase(b) {
            Phase::Enqueue(_) => false,
            Phase::Resolve(_) => false,
            Phase::Wait(_, _) => false,
            _ => true,
        }
    }
}

/// The enqueueing of a behaviour takes effect at once, even while others are
/// being scheduled: two behaviours that have put all their requests into the
/// queues stand in the same order at all cowns that they share.
pub proof fn law_one_order<T, F>(s: Memory<T, F>, a1: ReqId, b1: ReqId, a2: ReqId, b2: ReqId)
    requires
        s.inv(),
        a1.behavior == a2.behavior,
        b1.behavior == b2.behavior,
        a1.behavior != b1.behavior,
        s.enqueued(a1.behavior),
        s.enqueued(b1.behavior),
        s.model.queued(a2) && s.model.queued(b2) && s.target(a2) == s.target(b2),
        s.model.queued(a1) && s.model.queued(b1) && s.target(a1) == s.target(b1),
        s.model.precedes(s.target(a1), a1, b1),
    ensures
        s.model.precedes(s.target(a2), a2, b2),
{
    lemma_model(s);
    lemma_live(s, a1.behavior);
    lemma_live(s, b1.behavior);
    assert(s.is_request(a1) && s.is_request(a2) && s.is_request(b1) && s.is_request(b2));
    law_atomic_enqueue(s.model, s.target(a1), s.target(a2), a1, a2, b1, b2);
}

/// The requests of every behaviour are in the global order of cowns.
pub proof fn law_requests_sorted<T, F>(s: Memory<T, F>, b: u64)
    requires
        s.inv(),
        s.live(b),
    ensures
        ascending(s.behaviours[b].targets()),
{
    lemma_live(s, b);
}

// --- No dangling references. ---

/// Everything that the memory refers to is there: the end of the queue of a
/// cown, the request that is registered at another, and the one that is about to
/// be told. The request behind which a scheduler waits is there, or its behaviour
/// is gone.
pub proof fn law_references_valid<T, F>(s: Memory<T, F>)
    requires
        s.inv(),
    ensures
        forall|c: int| 0 <= c < s.cowns.len() ==> ((#[trigger] s.cowns[c]).last_request matches Some(r) ==> s.is_request(r)
            && s.target(r) == c),
        forall|b: u64| #[trigger] s.live(b) ==> match s.phase(b) {
            Phase::Wait(_, prev) => s.live(prev.behavior) ==> s.is_request(prev),
            Phase::Notify(_, next) => s.is_request(next) && s.behaviours[next.behavior].count > 0,
            _ => true,
        },
        forall|r: ReqId| #[trigger] s.is_request(r) && s.model.queued(r) ==> (s.request(r).callback matches Some(next)
            ==> s.is_request(next) && s.target(next) == s.target(r)),
{
    lemma_model(s);
    assert forall|c: int| 0 <= c < s.cowns.len() implies ((#[trigger] s.cowns[c]).last_request matches Some(r)
        ==> s.is_request(r) && s.target(r) == c) by {
        lemma_tail(s, c);
    }
    assert forall|b: u64| #[trigger] s.live(b) implies match s.phase(b) {
        Phase::Wait(_, prev) => s.live(prev.behavior) ==> s.is_request(prev),
        Phase::Notify(_, next) => s.is_request(next) && s.behaviours[next.behavior].count > 0,
        _ => true,
    } by {
        match s.phase(b) {
            Phase::Wait(_, prev) => lemma_wait_known(s, b),
            Phase::Notify(_, next) => lemma_notify_step(s, b),
            _ => {},
        }
    }
    assert forall|r: ReqId| #[trigger] s.is_request(r) && s.model.queued(r) implies (s.request(r).callback matches Some(next)
        ==> s.is_request(next) && s.target(next) == s.target(r)) by {
        lemma_live(s, r.behavior);
        let k = lemma_place(s.model, r);
        let c = s.model.target(r);
        assert(s.request(s.model.queues[c][k]).callback == s.behind(c, k)) by {
            reveal(Memory::inv);
        }
        if s.request(r).callback is Some {
            let y = s.model.queues[c][k + 1];
            assert(s.model.queued(y));
            assert(s.live(y.behavior));
            lemma_live(s, y.behavior);
            assert(s.is_request(y));
        }
    }
}

// --- The states of a request. ---

/// Each request goes through its states in order. It is `Initial` when it asks
/// for its cown, is unmarked when it is marked as scheduled, is `Certificate` when
/// it is handed the cown by another, and is `Owned` when it gives the cown back.
/// Whoever gives back a cown has a request registered if and only if it is not
/// the end of the queue.
pub proof fn law_request_states<T, F>(s: Memory<T, F>, b: u64)
    requires
        s.inv(),
        s.live(b),
    ensures
        match s.phase(b) {
            Phase::Enqueue(i) => i < s.size(b) ==> s.request(s.current(b)).state == ResourceState::Initial,
            Phase::Finish(i) => i < s.size(b) ==> !s.request(s.current(b)).scheduled,
            Phase::Release(i) => i < s.size(b) ==> {
                let r = s.current(b);
                let last = s.cowns[s.target(r)].last_request;
                &&& s.request(r).state == ResourceState::Owned
                &&& last is Some
                &&& s.request(r).callback is None <==> last == Some(r)
            },
            Phase::Notify(_, next) => s.request(next).state == ResourceState::Certificate,
            _ => true,
        },
{
    lemma_live(s, b);
    match s.phase(b) {
        Phase::Enqueue(i) => {
            if i < s.size(b) {
                lemma_acquire_step(s, b);
            }
        },
        Phase::Finish(i) => {
            if i < s.size(b) {
                lemma_finish_step(s, b);
            }
        },
        Phase::Release(i) => {
            if i < s.size(b) {
                lemma_releasing_known(s, b);
            }
        },
        Phase::Notify(_, _) => lemma_notify_step(s, b),
        _ => {},
    }
}

// --- Once. ---

/// A behaviour that is ready has nothing outstanding, and its routine has not
/// been started.
pub proof fn law_ready_settled<T, F>(s: Memory<T, F>, b: u64)
    requires
        s.inv(),
        s.live(b),
        s.phase(b) is Ready,
    ensures
        s.behaviours[b].count == 0,
        s.behaviours[b].routine is Some,
{
    lemma_live(s, b);
}

/// A routine is started at most once: a behaviour whose routine has been started
/// is never ready again.
pub proof fn law_started_once<T, F>(s: Memory<T, F>, a: Action<T, F>, b: u64)
    requires
        s.inv(),
        s.allows(a),
        s.live(b),
        s.behaviours[b].routine is None,
    ensures
        a != Action::<T, F>::Run(b),
        s.after(a).live(b) ==> s.after(a).behaviours[b].routine is None,
{
    lemma_live(s, b);
    law_actions_refine(s, a);
    lemma_model(s);
    match a {
        Action::Enlist(v) => {
            lemma_enlist_step(s, v);
        },
        Action::Lend(x, addrs, at) => lemma_lend_all(s, x, addrs, at),
        Action::Return(x, addrs, values) => lemma_return_all(s, x, addrs, values),
        _ => {},
    }
}

// --- Progress. ---

impl<T, F> Memory<T, F> {
    /// `b` can act: its routine is running or may be started, or its next step
    /// does not wait for anybody.
    pub open spec fn can_act(self, b: u64) -> bool {
        ||| self.scheduling(b) && self.schedule_progress(b) != Progress::Waiting
        ||| self.live(b) && (self.phase(b) is Ready || self.phase(b) is Running)
        ||| self.releasing(b) && self.unwind_progress(b) != Progress::Waiting
    }
}

/// A step that waits changes nothing.
pub proof fn law_waiting_idle<T, F>(s: Memory<T, F>, b: u64)
    requires
        s.inv(),
    ensures
        s.scheduling(b) && s.schedule_progress(b) == Progress::Waiting ==> s.schedule(b) == s,
        s.releasing(b) && s.unwind_progress(b) == Progress::Waiting ==> s.unwind(b) == s,
{
}

/// The protocol knows who is being scheduled.
proof fn lemma_scheduling<T, F>(s: Memory<T, F>, b: u64)
    requires
        s.inv(),
    ensures
        s.scheduling(b) <==> s.model.scheduling(b),
        s.live(b) ==> s.behaviours[b].targets() == s.model.actors[b].targets,
{
    lemma_model(s);
    assert(s.live(b) <==> s.model.live(b));
    if s.live(b) {
        lemma_live(s, b);
    }
}

/// Schedulers do not wait for each other in a circle: where no behaviour that is
/// being scheduled asks for a cown twice, and some behaviour is being scheduled,
/// the next step of one of those does not wait. So a routine may spawn a
/// behaviour and wait for its scheduling, whatever cowns it holds itself.
pub proof fn law_schedulers_advance<T, F>(s: Memory<T, F>, b: u64)
    requires
        s.inv(),
        s.scheduling(b),
        forall|x: u64| #[trigger] s.scheduling(x) ==> distinct(s.behaviours[x].targets()),
    ensures
        exists|x: u64| #[trigger] s.scheduling(x) && s.schedule_progress(x) != Progress::Waiting,
{
    lemma_model(s);
    lemma_scheduling(s, b);
    assert forall|x: u64| #[trigger] s.model.scheduling(x) implies distinct(s.model.actors[x].targets) by {
        lemma_scheduling(s, x);
    }
    protocol_schedulers_advance(s.model, b);
    let x = choose|x: u64| #[trigger] s.model.scheduling(x) && s.model.can_move(x);
    lemma_scheduling(s, x);
    lemma_live(s, x);
    if s.schedule_progress(x) == Progress::Waiting {
        let m = choose|m: Move| #[trigger] s.model.enabled(m) && crate::laws::mover(m) == Some(x);
        lemma_wait_known(s, x);
    }
}

/// Freedom from deadlock: where no behaviour that is being scheduled asks for a
/// cown twice, and some behaviour is alive, some behaviour can act.
pub proof fn law_no_deadlock<T, F>(s: Memory<T, F>, b: u64)
    requires
        s.inv(),
        s.live(b),
        forall|x: u64| #[trigger] s.scheduling(x) ==> distinct(s.behaviours[x].targets()),
    ensures
        exists|x: u64| #[trigger] s.live(x) && s.can_act(x),
{
    lemma_model(s);
    assert forall|x: u64| #[trigger] s.model.scheduling(x) implies distinct(s.model.actors[x].targets) by {
        lemma_scheduling(s, x);
    }
    assert(s.model.live(b));
    protocol_no_deadlock(s.model, b);
    let x = choose|x: u64| #[trigger] s.model.live(x) && s.model.can_move(x);
    assert(s.live(x));
    lemma_live(s, x);
    if !s.can_act(x) {
        let m = choose|m: Move| #[trigger] s.model.enabled(m) && crate::laws::mover(m) == Some(x);
        if s.phase(x) is Wait {
            lemma_wait_known(s, x);
        }
    }
}

/// An upper bound on the steps that a behaviour still has to make.
pub open spec fn step_rank<F>(v: BehaviourView<F>) -> nat {
    let n = v.requests.len() as int;
    (match v.phase {
        Phase::Enqueue(k) => 3 * n + 6 + 2 * (n - k),
        Phase::Resolve(k) => 3 * n + 5 + 2 * (n - k),
        Phase::Wait(k, _) => 3 * n + 5 + 2 * (n - k),
        Phase::Finish(k) => 3 * n + 5 - k,
        Phase::Pending => 2 * n + 4,
        Phase::Ready => 2 * n + 3,
        Phase::Running => 2 * n + 2,
        Phase::Release(k) => 2 * (n - k) + 1,
        Phase::Notify(k, _) => 2 * (n - k),
    }) as nat
}

impl<T, F> Memory<T, F> {
    /// The sum of the ranks.
    pub open spec fn work(self) -> nat {
        total(self.behaviours, |v: BehaviourView<F>| step_rank(v))
    }

    /// `a` is a step of a behaviour that does not wait.
    pub open spec fn effective(self, a: Action<T, F>) -> bool {
        match a {
            Action::Schedule(b) => self.schedule_progress(b) != Progress::Waiting,
            Action::Run(b) => true,
            Action::Complete(b) => true,
            Action::Release(b) => self.unwind_progress(b) != Progress::Waiting,
            _ => false,
        }
    }
}

/// Every step that does not wait brings the system nearer to its end.
pub proof fn law_steps_count<T, F>(s: Memory<T, F>, a: Action<T, F>)
    requires
        s.inv(),
        s.allows(a),
        s.effective(a),
    ensures
        s.after(a).work() < s.work(),
{
    let f = |v: BehaviourView<F>| step_rank(v);
    let t = s.after(a);
    lemma_model(s);
    assert(s.behaviours.dom().finite());
    match a {
        Action::Schedule(b) => {
            lemma_live(s, b);
            match s.phase(b) {
                Phase::Enqueue(i) => {
                    if i < s.size(b) {
                        lemma_acquire_step(s, b);
                        let r = s.current(b);
                        let u = s.acquire_or_register_callback(r);
                        assert(total(u.behaviours, f) == total(s.behaviours, f)) by {
                            if s.acquire_result(r) is WaitFor {
                                let prev = s.acquire_result(r)->WaitFor_0;
                                lemma_total_put(s.behaviours, f, prev.behavior, u.behaviours[prev.behavior]);
                            }
                        }
                        assert(u.size(b) == s.size(b) && u.phase(b) == s.phase(b));
                        assert(u.behaviours.dom() =~= s.behaviours.dom());
                        lemma_total_put(u.behaviours, f, b, t.behaviours[b]);
                        assert(t.behaviours =~= u.behaviours.insert(b, t.behaviours[b]));
                    } else {
                        lemma_total_put(s.behaviours, f, b, t.behaviours[b]);
                    }
                },
                _ => {
                    lemma_total_put(s.behaviours, f, b, t.behaviours[b]);
                    assert(t.behaviours =~= s.behaviours.insert(b, t.behaviours[b]));
                },
            }
        },
        Action::Run(b) => {
            lemma_total_put(s.behaviours, f, b, t.behaviours[b]);
        },
        Action::Complete(b) => {
            lemma_live(s, b);
            lemma_total_put(s.behaviours, f, b, t.behaviours[b]);
        },
        Action::Release(b) => {
            lemma_live(s, b);
            match s.phase(b) {
                Phase::Notify(i, next) => {
                    lemma_notify_step(s, b);
                    lemma_live(s, next.behavior);
                    let u = s.with_state(next, ResourceState::Owned).resolve_one(next.behavior);
                    lemma_total_put(s.behaviours, f, next.behavior, u.behaviours[next.behavior]);
                    assert(u.behaviours =~= s.behaviours.insert(next.behavior, u.behaviours[next.behavior]));
                    lemma_total_put(u.behaviours, f, b, t.behaviours[b]);
                },
                Phase::Release(i) => {
                    if i == s.size(b) {
                        lemma_total_remove(s.behaviours, f, b);
                    } else {
                        lemma_total_put(s.behaviours, f, b, t.behaviours[b]);
                        assert(t.behaviours =~= s.behaviours.insert(b, t.behaviours[b]));
                    }
                },
                _ => {
                    lemma_total_put(s.behaviours, f, b, t.behaviours[b]);
                    assert(t.behaviours =~= s.behaviours.insert(b, t.behaviours[b]));
                },
            }
        },
        _ => {},
    }
}

/// Without new behaviours every run of steps that do not wait comes to an end.
/// [`law_final`] says what its end is.
pub proof fn law_runs_end<T, F>(s: Memory<T, F>, run: Seq<Action<T, F>>)
    requires
        s.inv(),
        s.allows_all(run),
        forall|k: int| 0 <= k < run.len() ==> s.after_all(#[trigger] run.take(k)).effective(run[k]),
    ensures
        run.len() + s.after_all(run).work() <= s.work(),
    decreases run.len(),
{
    if run.len() > 0 {
        let front = run.drop_last();
        assert forall|k: int| 0 <= k < front.len() implies s.after_all(#[trigger] front.take(k)).effective(front[k]) by {
            assert(front.take(k) =~= run.take(k));
        }
        law_runs_end(s, front);
        lemma_run_inv(s, front);
        assert(run.take(run.len() - 1) =~= front);
        assert(run.last() == run[run.len() - 1]);
        law_steps_count(s.after_all(front), run.last());
    }
}

/// The number of times that `run` starts the routine of `b`.
pub open spec fn starts<T, F>(run: Seq<Action<T, F>>, b: u64) -> int
    decreases run.len(),
{
    if run.len() == 0 {
        0
    } else {
        starts(run.drop_last(), b) + if run.last() == Action::<T, F>::Run(b) { 1int } else { 0int }
    }
}

impl<T, F> Memory<T, F> {
    /// `b` is alive, and its routine has not been started.
    pub open spec fn unstarted(self, b: u64) -> bool {
        self.live(b) && self.behaviours[b].routine is Some
    }
}

/// The behaviours that the action `a` hands over ask for no cown twice.
pub open spec fn enlists_distinct<T, F>(a: Action<T, F>) -> bool {
    match a {
        Action::Enlist(v) => distinct(v.targets()),
        _ => true,
    }
}

/// `b` is handed over between `s` and `t`.
pub open spec fn born<T, F>(s: Memory<T, F>, t: Memory<T, F>, b: u64) -> bool {
    s.next_id <= b < t.next_id
}

/// What one action does to `b`.
proof fn lemma_action_kept<T, F>(s: Memory<T, F>, a: Action<T, F>, b: u64)
    requires
        s.inv(),
        s.allows(a),
    ensures
        s.after(a).next_id == s.next_id + (if a is Enlist { 1int } else { 0int }),
        s.after(a).live(b) ==> {
            ||| s.live(b) && s.after(a).behaviours[b].targets() == s.behaviours[b].targets()
            ||| a is Enlist && s.after(a).behaviours[b].targets() == a->Enlist_0.targets()
        },
        (if a == Action::<T, F>::Run(b) { 1int } else { 0int }) + (if s.after(a).unstarted(b) { 1int } else { 0int }) == (
        if s.unstarted(b) { 1int } else { 0int }) + (if born(s, s.after(a), b) { 1int } else { 0int }),
{
    law_actions_refine(s, a);
    lemma_model(s);
    lemma_model(s.after(a));
    if s.live(b) {
        lemma_live(s, b);
    }
    if a is Enlist {
        lemma_enlist_step(s, a->Enlist_0);
    } else if s.after(a).live(b) {
        assert(s.after(a).model.live(b));
        if s.move_of(a) is Some {
            lemma_targets_kept(s.model, s.move_of(a)->Some_0, b);
        }
        assert(s.model.live(b));
        lemma_live(s.after(a), b);
    }
    match a {
        Action::Lend(x, addrs, at) => lemma_lend_all(s, x, addrs, at),
        Action::Return(x, addrs, values) => lemma_return_all(s, x, addrs, values),
        Action::Run(x) => lemma_run_step(s, x),
        _ => {},
    }
}

proof fn lemma_run_kept<T, F>(s: Memory<T, F>, run: Seq<Action<T, F>>, b: u64)
    requires
        s.inv(),
        s.allows_all(run),
        forall|x: u64| #[trigger] s.live(x) ==> distinct(s.behaviours[x].targets()),
        forall|k: int| 0 <= k < run.len() ==> enlists_distinct(#[trigger] run[k]),
    ensures
        s.after_all(run).next_id >= s.next_id,
        s.after_all(run).live(b) ==> distinct(s.after_all(run).behaviours[b].targets()),
        starts(run, b) + (if s.after_all(run).unstarted(b) { 1int } else { 0int }) == (if s.unstarted(b) {
            1int
        } else {
            0int
        }) + (if born(s, s.after_all(run), b) { 1int } else { 0int }),
    decreases run.len(),
{
    if run.len() > 0 {
        let front = run.drop_last();
        assert forall|k: int| 0 <= k < front.len() implies enlists_distinct(#[trigger] front[k]) by {
            assert(front[k] == run[k]);
        }
        lemma_run_kept(s, front, b);
        lemma_run_inv(s, front);
        assert(enlists_distinct(run[run.len() - 1]));
        lemma_action_kept(s.after_all(front), run.last(), b);
    }
}

/// The end of a run: where no behaviour asks for a cown twice, and at the end
/// nobody can act, every behaviour is gone, every cown is available, and each
/// routine that had not been started before, or was handed over on the way, has
/// been started once, and no other. By [`law_runs_end`] a run without idle steps
/// and new behaviours cannot go on for ever.
pub proof fn law_final<T, F>(s: Memory<T, F>, run: Seq<Action<T, F>>)
    requires
        s.inv(),
        s.allows_all(run),
        forall|x: u64| #[trigger] s.live(x) ==> distinct(s.behaviours[x].targets()),
        forall|k: int| 0 <= k < run.len() ==> enlists_distinct(#[trigger] run[k]),
        forall|x: u64| #[trigger] s.after_all(run).live(x) ==> !s.after_all(run).can_act(x),
    ensures
        forall|x: u64| !#[trigger] s.after_all(run).live(x),
        forall|c: int| 0 <= c < s.after_all(run).cowns.len() ==> (#[trigger] s.after_all(run).cowns[c]).last_request is None,
        forall|b: u64| #[trigger] starts(run, b) == (if s.unstarted(b) || born(s, s.after_all(run), b) {
            1int
        } else {
            0int
        }),
{
    let t = s.after_all(run);
    lemma_run_inv(s, run);
    lemma_model(t);
    assert forall|x: u64| !#[trigger] t.live(x) by {
        if t.live(x) {
            assert forall|y: u64| #[trigger] t.scheduling(y) implies distinct(t.behaviours[y].targets()) by {
                lemma_run_kept(s, run, y);
            }
            law_no_deadlock(t, x);
        }
    }
    assert forall|c: int| 0 <= c < t.cowns.len() implies (#[trigger] t.cowns[c]).last_request is None by {
        law_availability(t, c);
        assert forall|r: ReqId| #[trigger] t.model.queued(r) implies t.model.target(r) != c by {
            assert(t.model.live(r.behavior));
            assert(t.live(r.behavior));
        }
    }
    assert forall|b: u64| #[trigger] starts(run, b) == (if s.unstarted(b) || born(s, t, b) { 1int } else { 0int }) by {
        lemma_run_kept(s, run, b);
        assert(!t.live(b));
        if s.live(b) {
            lemma_live(s, b);
        }
    }
}

/// The end of everything: a run from the beginning in which no behaviour asks for a
/// cown twice, and at whose end nobody can act, has started the routine of every
/// behaviour that was handed over, each once. None is left, and every cown is
/// available.
pub proof fn law_all_run<T, F>(run: Seq<Action<T, F>>)
    requires
        Memory::<T, F>::empty().allows_all(run),
        forall|k: int| 0 <= k < run.len() ==> enlists_distinct(#[trigger] run[k]),
        forall|x: u64| #[trigger] Memory::<T, F>::empty().after_all(run).live(x) ==> !Memory::<T, F>::empty().after_all(
            run,
        ).can_act(x),
    ensures
        ({
            let t = Memory::<T, F>::empty().after_all(run);
            &&& forall|x: u64| !#[trigger] t.live(x)
            &&& forall|c: int| 0 <= c < t.cowns.len() ==> (#[trigger] t.cowns[c]).last_request is None
            &&& forall|b: u64| #[trigger] starts(run, b) == (if b < t.next_id { 1int } else { 0int })
        }),
{
    let s = Memory::<T, F>::empty();
    lemma_empty::<T, F>();
    law_final(s, run);
    assert forall|b: u64| #[trigger] starts(run, b) == (if b < s.after_all(run).next_id { 1int } else { 0int }) by {
        assert(!s.live(b));
        assert(born(s, s.after_all(run), b) == (b < s.after_all(run).next_id));
    }
}

} // verus!
