//! What the protocol guarantees.
use crate::measure::{lemma_total_put, lemma_total_remove, total};
use crate::moves::{law_inv_kept, lemma_owned_len, Move};
use crate::protocol::{Actor, Protocol, ReqId, Stage};
use vstd::prelude::*;

verus! {

impl Protocol {
    /// `b` has acquired all its cowns, `c` is one of them, and it has not given
    /// `c` back.
    pub open spec fn holds(self, b: u64, c: int) -> bool {
        &&& self.live(b)
        &&& self.stage(b).acquired()
        &&& exists|r: ReqId| r.behavior == b && #[trigger] self.queued(r) && self.target(r) == c
    }

    /// `first` and `second` both stand in the queue of `c`, in this order.
    pub open spec fn precedes(self, c: int, first: ReqId, second: ReqId) -> bool {
        exists|j: int, k: int| 0 <= j < k < self.queues[c].len() && #[trigger] self.queues[c][j] == first
            && #[trigger] self.queues[c][k] == second
    }
}

/// Isolation: no two behaviours hold one cown at the same time.
pub proof fn law_exclusion(s: Protocol, b1: u64, b2: u64, c: int)
    requires
        s.inv(),
        s.holds(b1, c),
        s.holds(b2, c),
    ensures
        b1 == b2,
{
    let r1 = choose|r: ReqId| r.behavior == b1 && #[trigger] s.queued(r) && s.target(r) == c;
    let r2 = choose|r: ReqId| r.behavior == b2 && #[trigger] s.queued(r) && s.target(r) == c;
    law_acquired_owns(s, r1);
    law_acquired_owns(s, r2);
}

/// A behaviour that has started, or may start, stands first at every cown that
/// it asked for and has not given back.
pub proof fn law_acquired_owns(s: Protocol, r: ReqId)
    requires
        s.inv(),
        s.is_request(r),
        s.stage(r.behavior).acquired(),
    ensures
        s.owned(r),
        s.queued(r) ==> s.heads(s.target(r), r),
{
    assert(s.live(r.behavior));
    lemma_owned_len(s.actors[r.behavior], r.index);
}

/// First in, first out: a move never lets one request overtake another, and
/// only the first request of a queue can leave it.
pub proof fn law_fifo(s: Protocol, m: Move, c: int, first: ReqId, second: ReqId)
    requires
        s.inv(),
        s.enabled(m),
        0 <= c < s.queues.len(),
        s.precedes(c, first, second),
    ensures
        s.apply(m).precedes(c, first, second) || s.heads(c, first) && s.apply(m).queues[c] == s.queues[c].drop_first(),
{
    let t = s.apply(m);
    let (j, k) = choose|j: int, k: int| 0 <= j < k < s.queues[c].len() && #[trigger] s.queues[c][j] == first
        && #[trigger] s.queues[c][k] == second;
    assert(s.queued(s.queues[c][j]));
    match m {
        Move::Enqueue(b) => {
            assert(s.live(b));
            assert(s.actors[b].wf());
            assert(s.is_request(ReqId { behavior: b, index: s.stage(b)->Enqueue_0 as usize }));
            assert(t.queues[c][j] == first && t.queues[c][k] == second);
        },
        Move::Release(b) => {
            let n = ReqId { behavior: b, index: s.stage(b)->Release_0 as usize };
            assert(s.live(b));
            assert(s.queued(n));
            if s.target(n) == c {
                if j > 0 {
                    assert(t.queues[c][j - 1] == first && t.queues[c][k - 1] == second);
                }
            } else {
                assert(t.queues[c][j] == first && t.queues[c][k] == second);
            }
        },
        _ => {
            assert(t.queues[c][j] == first && t.queues[c][k] == second);
        },
    }
}

/// Along a queue, up to a behaviour in its second phase, all behaviours are in
/// their second phase, and they entered it in the order of the queue.
proof fn lemma_stamps_along(s: Protocol, c: int, j: int, k: int)
    requires
        s.inv(),
        0 <= c < s.queues.len(),
        0 <= j < k < s.queues[c].len(),
        s.stage(s.queues[c][k].behavior).locked(),
    ensures
        s.stage(s.queues[c][j].behavior).locked(),
        s.actors[s.queues[c][j].behavior].stamp < s.actors[s.queues[c][k].behavior].stamp,
    decreases k - j,
{
    let prev = s.queues[c][k - 1];
    assert(s.waiting(s.queues[c][k]) || s.scheduled(prev));
    assert(s.stage(prev.behavior).locked());
    if j < k - 1 {
        lemma_stamps_along(s, c, j, k - 1);
    }
}

/// The enqueueing of a behaviour is atomic: two scheduled behaviours that share
/// several cowns stand in the same order at all of them.
pub proof fn law_atomic_enqueue(s: Protocol, c: int, d: int, a1: ReqId, a2: ReqId, b1: ReqId, b2: ReqId)
    requires
        s.inv(),
        0 <= c < s.queues.len(),
        0 <= d < s.queues.len(),
        a1.behavior == a2.behavior,
        b1.behavior == b2.behavior,
        a1.behavior != b1.behavior,
        s.stage(a1.behavior).locked(),
        s.stage(b1.behavior).locked(),
        s.queued(a2) && s.target(a2) == d,
        s.queued(b2) && s.target(b2) == d,
        s.precedes(c, a1, b1),
    ensures
        s.precedes(d, a2, b2),
{
    let (j, k) = choose|j: int, k: int| 0 <= j < k < s.queues[c].len() && #[trigger] s.queues[c][j] == a1
        && #[trigger] s.queues[c][k] == b1;
    lemma_stamps_along(s, c, j, k);
    assert(s.queues[d].contains(a2));
    assert(s.queues[d].contains(b2));
    let x = choose|x: int| 0 <= x < s.queues[d].len() && s.queues[d][x] == a2;
    let y = choose|y: int| 0 <= y < s.queues[d].len() && s.queues[d][y] == b2;
    if y < x {
        lemma_stamps_along(s, d, y, x);
    }
    assert(s.queues[d][x] == a2 && s.queues[d][y] == b2);
}

// --- Freedom from deadlock. ---

/// No cown is asked for twice.
pub open spec fn distinct(targets: Seq<usize>) -> bool {
    forall|i: int, j: int| 0 <= i < j < targets.len() ==> targets[i] != targets[j]
}

/// `c` is one of `addrs`.
pub open spec fn among(addrs: Seq<usize>, c: int) -> bool {
    0 <= c <= usize::MAX && addrs.contains(c as usize)
}

/// What is in a list is its first member or in the rest.
pub proof fn lemma_among_split(addrs: Seq<usize>, c: int)
    requires
        addrs.len() > 0,
    ensures
        among(addrs, c) <==> addrs[0] == c || among(addrs.drop_first(), c),
{
    let rest = addrs.drop_first();
    if among(addrs, c) {
        let i = choose|i: int| 0 <= i < addrs.len() && addrs[i] == c as usize;
        if i > 0 {
            assert(rest[i - 1] == c as usize);
        }
    }
    if among(rest, c) {
        let i = choose|i: int| 0 <= i < rest.len() && rest[i] == c as usize;
        assert(addrs[i + 1] == c as usize);
    }
    if addrs[0] == c {
        assert(addrs[0] == c as usize);
    }
}

/// Two lists of the same cowns: if none is twice in the one, none is twice in the
/// other.
pub proof fn lemma_same_members(targets: Seq<usize>, addrs: Seq<usize>)
    requires
        distinct(targets),
        addrs.to_multiset() == targets.to_multiset(),
    ensures
        addrs.no_duplicates(),
        forall|a: usize| #[trigger] addrs.contains(a) <==> targets.contains(a),
{
    targets.lemma_multiset_has_no_duplicates();
    addrs.lemma_multiset_has_no_duplicates_conv();
    assert forall|a: usize| #[trigger] addrs.contains(a) <==> targets.contains(a) by {
        vstd::seq_lib::to_multiset_contains(addrs, a);
        vstd::seq_lib::to_multiset_contains(targets, a);
    }
}

/// The behaviour whose move `m` is.
pub open spec fn mover(m: Move) -> Option<u64> {
    match m {
        Move::AddCown => None,
        Move::Admit(_, _) => None,
        Move::Enqueue(b) => Some(b),
        Move::Resolve(b) => Some(b),
        Move::Pass(b) => Some(b),
        Move::Turn(b) => Some(b),
        Move::Finish(b) => Some(b),
        Move::Settle(b) => Some(b),
        Move::Begin(b) => Some(b),
        Move::Complete(b) => Some(b),
        Move::Release(b) => Some(b),
        Move::Notify(b) => Some(b),
        Move::Retire(b) => Some(b),
    }
}

impl Protocol {
    /// `b` can move.
    pub open spec fn can_move(self, b: u64) -> bool {
        exists|m: Move| #[trigger] self.enabled(m) && mover(m) == Some(b)
    }
}

/// A behaviour that cannot move is waiting behind a request that is not yet
/// scheduled, or has some cown outstanding.
pub proof fn law_blocked(s: Protocol, b: u64)
    requires
        s.inv(),
        s.live(b),
        !s.can_move(b),
    ensures
        s.stage(b) is Pending || s.stage(b) is Wait && !s.may_pass(
            ReqId { behavior: b, index: s.stage(b)->Wait_0 as usize },
        ),
{
    assert(s.actors[b].wf());
    let n = s.actors[b].targets.len() as int;
    let m = match s.stage(b) {
        Stage::Enqueue(k) => if k < n { Move::Enqueue(b) } else { Move::Turn(b) },
        Stage::Resolve(k) => Move::Resolve(b),
        Stage::Wait(k) => Move::Pass(b),
        Stage::Finish(k) => if k < n { Move::Finish(b) } else { Move::Settle(b) },
        Stage::Pending => Move::AddCown,
        Stage::Ready => Move::Begin(b),
        Stage::Running => Move::Complete(b),
        Stage::Release(k) => if k < n { Move::Release(b) } else { Move::Retire(b) },
        Stage::Notify(k, r) => Move::Notify(b),
    };
    assert(!(s.enabled(m) && mover(m) == Some(b)));
}

impl Protocol {
    /// `b` is in the middle of being scheduled.
    pub open spec fn scheduling(self, b: u64) -> bool {
        self.live(b) && !self.stage(b).settled()
    }
}

/// If some request waits in its first phase, somebody who is being scheduled can
/// move.
proof fn lemma_waiting_chain(s: Protocol, c: int, k: int)
    requires
        s.inv(),
        0 <= c < s.queues.len(),
        0 <= k < s.queues[c].len(),
        s.waiting(s.queues[c][k]),
        forall|x: u64| #[trigger] s.scheduling(x) ==> distinct(s.actors[x].targets),
    ensures
        exists|x: u64| #[trigger] s.scheduling(x) && s.can_move(x),
    decreases s.queues.len() - c, k,
{
    let r = s.queues[c][k];
    let b = r.behavior;
    assert(s.queued(r));
    assert(s.live(b));
    assert(s.scheduling(b));
    if s.may_pass(r) {
        assert(s.enabled(Move::Pass(b)) && mover(Move::Pass(b)) == Some(b));
        assert(s.can_move(b));
    } else {
        let q = s.queues[c];
        let k0 = choose|k0: int| 0 < k0 < q.len() && #[trigger] q[k0] == r && !s.scheduled(q[k0 - 1]);
        assert(k0 == k);
        let prev = s.queues[c][k - 1];
        assert(s.queued(prev) && s.is_request(prev));
        let p = prev.behavior;
        assert(s.live(p));
        assert(s.scheduling(p));
        if !s.can_move(p) {
            law_blocked(s, p);
            let j = s.stage(p)->Wait_0;
            let pr = ReqId { behavior: p, index: j as usize };
            let ts = s.actors[p].targets;
            assert(s.actors[p].wf());
            assert(s.is_request(pr) && s.queued(pr));
            if prev.index == j {
                lemma_waiting_chain(s, c, k - 1);
            } else {
                assert(ts[prev.index as int] <= ts[j]);
                assert(ts[prev.index as int] != ts[j]);
                let d = s.target(pr);
                assert(s.queues[d].contains(pr));
                let x = choose|x: int| 0 <= x < s.queues[d].len() && s.queues[d][x] == pr;
                lemma_waiting_chain(s, d, x);
            }
        }
    }
}

/// If some behaviour is pending, somebody can move.
proof fn lemma_pending_chain(s: Protocol, b: u64)
    requires
        s.inv(),
        s.live(b),
        s.stage(b) is Pending,
    ensures
        exists|x: u64| #[trigger] s.live(x) && s.can_move(x),
    decreases s.actors[b].stamp,
{
    let a = s.actors[b];
    assert(a.wf());
    assert(exists|i: usize| i < a.targets.len() && !a.owned.contains(i)) by {
        if forall|i: usize| i < a.targets.len() ==> a.owned.contains(i) {
            lemma_full_len(a.owned, a.targets.len());
        }
    }
    let i = choose|i: usize| i < a.targets.len() && !a.owned.contains(i);
    let r = ReqId { behavior: b, index: i };
    assert(s.queued(r) && s.is_request(r));
    let c = s.target(r);
    assert(s.queues[c].contains(r));
    let k = choose|k: int| 0 <= k < s.queues[c].len() && s.queues[c][k] == r;
    if k == 0 {
        assert(s.queues[c].len() > 0 && s.queues[c][0] == r);
        let p = choose|p: u64| s.notifying(p, r);
        assert(s.enabled(Move::Notify(p)) && mover(Move::Notify(p)) == Some(p));
        assert(s.live(p) && s.can_move(p));
    } else {
        let prev = s.queues[c][k - 1];
        lemma_stamps_along(s, c, k - 1, k);
        assert(s.queued(prev));
        assert(s.live(prev.behavior));
        if !s.can_move(prev.behavior) {
            law_blocked(s, prev.behavior);
            lemma_pending_chain(s, prev.behavior);
        }
    }
}

/// A finite set that holds every number below `n` has at least `n` elements.
proof fn lemma_full_len(s: Set<usize>, n: nat)
    requires
        s.finite(),
        n <= usize::MAX,
        forall|i: usize| i < n ==> s.contains(i),
    ensures
        s.len() >= n,
    decreases n,
{
    if n > 0 {
        lemma_full_len(s.remove((n - 1) as usize), (n - 1) as nat);
    }
}

/// Schedulers do not wait for each other in a circle: where no behaviour that is
/// being scheduled asks for a cown twice, and some behaviour is being scheduled,
/// one of those can move. Nobody else is needed for that, so that a routine may
/// wait for the scheduling of a behaviour that it spawns.
pub proof fn law_schedulers_advance(s: Protocol, b: u64)
    requires
        s.inv(),
        s.scheduling(b),
        forall|x: u64| #[trigger] s.scheduling(x) ==> distinct(s.actors[x].targets),
    ensures
        exists|x: u64| #[trigger] s.scheduling(x) && s.can_move(x),
{
    if !s.can_move(b) {
        law_blocked(s, b);
        assert(s.actors[b].wf());
        let r = ReqId { behavior: b, index: s.stage(b)->Wait_0 as usize };
        assert(s.is_request(r) && s.queued(r));
        let c = s.target(r);
        assert(s.queues[c].contains(r));
        let k = choose|k: int| 0 <= k < s.queues[c].len() && s.queues[c][k] == r;
        lemma_waiting_chain(s, c, k);
    }
}

/// Freedom from deadlock: where no behaviour that is being scheduled asks for a
/// cown twice, and some behaviour is alive, some behaviour can move.
pub proof fn law_no_deadlock(s: Protocol, b: u64)
    requires
        s.inv(),
        s.live(b),
        forall|x: u64| #[trigger] s.scheduling(x) ==> distinct(s.actors[x].targets),
    ensures
        exists|x: u64| #[trigger] s.live(x) && s.can_move(x),
{
    if !s.can_move(b) {
        law_blocked(s, b);
        if s.stage(b) is Pending {
            lemma_pending_chain(s, b);
        } else {
            assert(s.scheduling(b));
            law_schedulers_advance(s, b);
            let x = choose|x: u64| #[trigger] s.scheduling(x) && s.can_move(x);
            assert(s.live(x));
        }
    }
}

// --- Runs. ---

impl Protocol {
    /// The moves `ms` can be made one after the other.
    pub open spec fn valid(self, ms: Seq<Move>) -> bool
        decreases ms.len(),
    {
        ms.len() == 0 || self.valid(ms.drop_last()) && self.run(ms.drop_last()).enabled(ms.last())
    }

    /// Where the moves `ms` lead.
    pub open spec fn run(self, ms: Seq<Move>) -> Protocol
        decreases ms.len(),
    {
        if ms.len() == 0 {
            self
        } else {
            self.run(ms.drop_last()).apply(ms.last())
        }
    }

    /// `r` belongs to a behaviour that is gone, or has left its queue.
    pub open spec fn past(self, r: ReqId) -> bool {
        !self.live(r.behavior) || self.stage(r.behavior).released(r.index as int)
    }
}

/// The invariant holds after every run.
pub proof fn law_run_inv(s: Protocol, ms: Seq<Move>)
    requires
        s.inv(),
        s.valid(ms),
    ensures
        s.run(ms).inv(),
    decreases ms.len(),
{
    if ms.len() > 0 {
        law_run_inv(s, ms.drop_last());
        law_inv_kept(s.run(ms.drop_last()), ms.last());
    }
}

/// `m` admits the behaviour `b`.
pub open spec fn admits(m: Move, b: u64) -> bool {
    match m {
        Move::Admit(x, _) => x == b,
        _ => false,
    }
}

/// A request that has left its queue does not come back.
pub proof fn lemma_past_kept(s: Protocol, m: Move, r: ReqId)
    requires
        s.inv(),
        s.enabled(m),
        s.past(r),
        !admits(m, r.behavior),
    ensures
        s.apply(m).past(r),
{
    if s.live(r.behavior) {
        assert(s.actors[r.behavior].wf());
    }
    match m {
        Move::Notify(b) => {
            let n = s.stage(b)->Notify_1;
            assert(s.notifying(b, n));
            assert(s.queued(n));
            assert(s.live(n.behavior));
            if n.behavior == r.behavior {
                lemma_owned_len(s.actors[n.behavior], n.index);
            }
        },
        _ => {},
    }
}

/// A cown never goes away.
pub proof fn lemma_cowns_stay(s: Protocol, m: Move)
    requires
        s.inv(),
        s.enabled(m),
    ensures
        s.apply(m).queues.len() >= s.queues.len(),
{
    match m {
        Move::Enqueue(b) => {
            assert(s.live(b));
            assert(s.actors[b].wf());
            assert(s.is_request(ReqId { behavior: b, index: s.stage(b)->Enqueue_0 as usize }));
        },
        Move::Release(b) => {
            assert(s.live(b));
            assert(s.actors[b].wf());
            assert(s.is_request(ReqId { behavior: b, index: s.stage(b)->Release_0 as usize }));
        },
        _ => {},
    }
}

/// `first` is through, or `second` is behind it.
pub open spec fn ordered(s: Protocol, c: int, first: ReqId, second: ReqId) -> bool {
    s.past(first) || {
        &&& s.queued(first)
        &&& s.target(first) == c
        &&& s.is_request(second)
        &&& s.target(second) == c
        &&& !s.stage(second.behavior).entered(second.index as int) || s.precedes(c, first, second)
    }
}

pub proof fn lemma_ordered_kept(s: Protocol, m: Move, c: int, first: ReqId, second: ReqId)
    requires
        s.inv(),
        s.enabled(m),
        0 <= c < s.queues.len(),
        first.behavior != second.behavior,
        !admits(m, first.behavior),
        !admits(m, second.behavior),
        ordered(s, c, first, second),
    ensures
        ordered(s.apply(m), c, first, second),
{
    let t = s.apply(m);
    if s.past(first) {
        lemma_past_kept(s, m, first);
    } else {
        law_inv_kept(s, m);
        let entered = s.stage(second.behavior).entered(second.index as int);
        assert(s.actors[first.behavior].wf());
        assert(s.live(second.behavior));
        assert(s.actors[second.behavior].wf());
        if entered {
            law_fifo(s, m, c, first, second);
        }
        match m {
            Move::Enqueue(b) => {
                assert(s.live(b));
                assert(s.actors[b].wf());
                assert(s.is_request(ReqId { behavior: b, index: s.stage(b)->Enqueue_0 as usize }));
                if b == second.behavior && s.stage(b)->Enqueue_0 == second.index {
                    assert(s.queues[c].contains(first));
                    let j = choose|j: int| 0 <= j < s.queues[c].len() && s.queues[c][j] == first;
                    let k = s.queues[c].len() as int;
                    assert(t.queues[c][j] == first && t.queues[c][k] == second);
                }
            },
            Move::Release(b) => {
                let n = ReqId { behavior: b, index: s.stage(b)->Release_0 as usize };
                assert(s.live(b));
                assert(s.queued(n));
                law_acquired_owns(s, n);
                if entered && s.target(n) == c {
                    if s.heads(c, first) {
                        assert(n == first);
                    }
                }
            },
            Move::Notify(b) => {
                let n = s.stage(b)->Notify_1;
                assert(s.notifying(b, n));
                assert(s.queued(n));
                assert(s.live(n.behavior));
                lemma_owned_len(s.actors[n.behavior], n.index);
            },
            Move::Retire(b) => {
                assert(s.live(b));
                assert(b != first.behavior);
                if b == second.behavior {
                    assert(s.past(second));
                    assert(s.precedes(c, first, second));
                    let (j, k) = choose|j: int, k: int| 0 <= j < k < s.queues[c].len()
                        && #[trigger] s.queues[c][j] == first && #[trigger] s.queues[c][k] == second;
                    assert(s.queued(s.queues[c][k]));
                }
            },
            _ => {},
        }
    }
}

/// Happens before: if `first` is in the queue of a cown before the behaviour of
/// `second` asks for that cown, then, whatever happens in between, the latter
/// does not start before the former has given the cown back.
pub proof fn law_happens_before(s: Protocol, ms: Seq<Move>, first: ReqId, second: ReqId)
    requires
        s.inv(),
        s.valid(ms),
        s.queued(first),
        s.is_request(second),
        s.target(first) == s.target(second),
        first.behavior != second.behavior,
        !s.stage(second.behavior).entered(second.index as int),
        forall|k: int| 0 <= k < ms.len() ==> !admits(#[trigger] ms[k], first.behavior) && !admits(
            ms[k],
            second.behavior,
        ),
    ensures
        !s.run(ms).live(second.behavior) || s.run(ms).stage(second.behavior).acquired() ==> s.run(ms).past(first),
{
    let c = s.target(first);
    assert(s.is_request(first));
    lemma_ordered_run(s, ms, c, first, second);
    law_run_inv(s, ms);
    let t = s.run(ms);
    if !t.past(first) && t.stage(second.behavior).acquired() {
        let (j, k) = choose|j: int, k: int| 0 <= j < k < t.queues[c].len() && #[trigger] t.queues[c][j] == first
            && #[trigger] t.queues[c][k] == second;
        law_acquired_owns(t, second);
        assert(t.queued(t.queues[c][k]));
    }
}

proof fn lemma_ordered_run(s: Protocol, ms: Seq<Move>, c: int, first: ReqId, second: ReqId)
    requires
        s.inv(),
        s.valid(ms),
        0 <= c < s.queues.len(),
        first.behavior != second.behavior,
        ordered(s, c, first, second),
        forall|k: int| 0 <= k < ms.len() ==> !admits(#[trigger] ms[k], first.behavior) && !admits(
            ms[k],
            second.behavior,
        ),
    ensures
        ordered(s.run(ms), c, first, second),
        s.run(ms).queues.len() >= s.queues.len(),
    decreases ms.len(),
{
    if ms.len() > 0 {
        let front = ms.drop_last();
        assert forall|k: int| 0 <= k < front.len() implies !admits(#[trigger] front[k], first.behavior) && !admits(
            front[k],
            second.behavior,
        ) by {
            assert(front[k] == ms[k]);
        }
        lemma_ordered_run(s, front, c, first, second);
        law_run_inv(s, front);
        lemma_ordered_kept(s.run(front), ms.last(), c, first, second);
        lemma_cowns_stay(s.run(front), ms.last());
    }
}

// --- Progress. ---

/// An upper bound on the moves that a behaviour still has to make.
pub open spec fn rank(a: Actor) -> nat {
    let n = a.targets.len() as int;
    (match a.stage {
        Stage::Enqueue(k) => 3 * n + 6 + 2 * (n - k),
        Stage::Resolve(k) => 3 * n + 5 + 2 * (n - k),
        Stage::Wait(k) => 3 * n + 5 + 2 * (n - k),
        Stage::Finish(k) => 3 * n + 5 - k,
        Stage::Pending => 2 * n + 4,
        Stage::Ready => 2 * n + 3,
        Stage::Running => 2 * n + 2,
        Stage::Release(k) => 2 * (n - k) + 1,
        Stage::Notify(k, _) => 2 * (n - k),
    }) as nat
}

/// The sum of the ranks.
pub open spec fn total_rank(actors: Map<u64, Actor>) -> nat {
    total(actors, |a: Actor| rank(a))
}

/// Every move of a behaviour brings the system nearer to its end.
pub proof fn law_move_counts(s: Protocol, m: Move)
    requires
        s.inv(),
        s.enabled(m),
        mover(m) is Some,
    ensures
        total_rank(s.apply(m).actors) < total_rank(s.actors),
{
    let b = mover(m)->Some_0;
    let t = s.apply(m);
    assert(s.live(b));
    assert(s.actors[b].wf());
    match m {
        Move::Retire(_) => {
            lemma_total_remove(s.actors, |a: Actor| rank(a), b);
        },
        Move::Notify(_) => {
            let i = s.stage(b)->Notify_0;
            let n = s.stage(b)->Notify_1;
            assert(s.notifying(b, n));
            assert(s.queued(n));
            assert(s.live(n.behavior));
            lemma_owned_len(s.actors[n.behavior], n.index);
            let a = s.actors[n.behavior].resolved(n.index);
            lemma_total_put(s.actors, |x: Actor| rank(x), n.behavior, a);
            lemma_total_put(
                s.actors.insert(n.behavior, a),
                |x: Actor| rank(x),
                b,
                s.actors[b].at(Stage::Release(i + 1)),
            );
        },
        _ => {
            lemma_total_put(s.actors, |a: Actor| rank(a), b, t.actors[b]);
            assert(t.actors == s.actors.insert(b, t.actors[b]));
        },
    }
}

/// A move other than an admission leaves the lists of cowns as they are, and
/// brings nobody to life.
pub proof fn lemma_targets_kept(s: Protocol, m: Move, x: u64)
    requires
        s.inv(),
        s.enabled(m),
        !(m is Admit),
        s.apply(m).live(x),
    ensures
        s.live(x),
        s.apply(m).actors[x].targets == s.actors[x].targets,
{
    match m {
        Move::Notify(b) => {
            let n = s.stage(b)->Notify_1;
            assert(s.notifying(b, n));
            assert(s.queued(n));
            assert(s.live(n.behavior));
        },
        _ => {},
    }
}

/// Without new behaviours every run comes to an end: it has no more moves than
/// the sum of the ranks at its beginning. [`law_final`] says what its end is.
pub proof fn law_runs_end(s: Protocol, ms: Seq<Move>)
    requires
        s.inv(),
        s.valid(ms),
        forall|k: int| 0 <= k < ms.len() ==> mover(#[trigger] ms[k]) is Some,
    ensures
        ms.len() + total_rank(s.run(ms).actors) <= total_rank(s.actors),
    decreases ms.len(),
{
    if ms.len() > 0 {
        let front = ms.drop_last();
        assert forall|k: int| 0 <= k < front.len() implies mover(#[trigger] front[k]) is Some by {
            assert(front[k] == ms[k]);
        }
        law_runs_end(s, front);
        law_run_inv(s, front);
        assert(ms.last() == ms[ms.len() - 1]);
        law_move_counts(s.run(front), ms.last());
    }
}

/// The number of times that `ms` begins the body of `b`.
pub open spec fn beginnings(ms: Seq<Move>, b: u64) -> int
    decreases ms.len(),
{
    if ms.len() == 0 {
        0
    } else {
        beginnings(ms.drop_last(), b) + if ms.last() == Move::Begin(b) { 1int } else { 0int }
    }
}

impl Protocol {
    /// `b` is alive, and its body has not been begun.
    pub open spec fn unbegun(self, b: u64) -> bool {
        self.live(b) && match self.stage(b) {
            Stage::Running => false,
            Stage::Release(_) => false,
            Stage::Notify(_, _) => false,
            _ => true,
        }
    }
}

/// The number of times that `ms` admits `b`.
pub open spec fn admissions(ms: Seq<Move>, b: u64) -> int
    decreases ms.len(),
{
    if ms.len() == 0 {
        0
    } else {
        admissions(ms.drop_last(), b) + if admits(ms.last(), b) { 1int } else { 0int }
    }
}

/// The behaviour that `m` admits, if any, asks for no cown twice.
pub open spec fn admits_distinct(m: Move) -> bool {
    match m {
        Move::Admit(_, targets) => distinct(targets),
        _ => true,
    }
}

proof fn lemma_run_kept(s: Protocol, ms: Seq<Move>, b: u64)
    requires
        s.inv(),
        s.valid(ms),
        forall|x: u64| #[trigger] s.live(x) ==> distinct(s.actors[x].targets),
        forall|k: int| 0 <= k < ms.len() ==> admits_distinct(#[trigger] ms[k]),
    ensures
        s.run(ms).live(b) ==> distinct(s.run(ms).actors[b].targets),
        beginnings(ms, b) + (if s.run(ms).unbegun(b) { 1int } else { 0int }) == (if s.unbegun(b) { 1int } else { 0int })
            + admissions(ms, b),
    decreases ms.len(),
{
    if ms.len() > 0 {
        let front = ms.drop_last();
        let m = ms.last();
        assert forall|k: int| 0 <= k < front.len() implies admits_distinct(#[trigger] front[k]) by {
            assert(front[k] == ms[k]);
        }
        lemma_run_kept(s, front, b);
        law_run_inv(s, front);
        let u = s.run(front);
        assert(admits_distinct(ms[ms.len() - 1]));
        if u.apply(m).live(b) && !(m is Admit) {
            lemma_targets_kept(u, m, b);
        }
        match m {
            Move::Notify(x) => {
                let n = u.stage(x)->Notify_1;
                assert(u.notifying(x, n));
                assert(u.queued(n));
                assert(u.live(n.behavior));
                lemma_owned_len(u.actors[n.behavior], n.index);
            },
            _ => {},
        }
    }
}

/// The end of a run: where no behaviour asks for a cown twice, and at the end
/// nobody can move, every behaviour is gone, every queue is empty, and each body
/// that had not been begun before, or was admitted on the way, has been begun once
/// for that, and no other.
pub proof fn law_final(s: Protocol, ms: Seq<Move>)
    requires
        s.inv(),
        s.valid(ms),
        forall|x: u64| #[trigger] s.live(x) ==> distinct(s.actors[x].targets),
        forall|k: int| 0 <= k < ms.len() ==> admits_distinct(#[trigger] ms[k]),
        forall|x: u64| #[trigger] s.run(ms).live(x) ==> !s.run(ms).can_move(x),
    ensures
        forall|x: u64| !#[trigger] s.run(ms).live(x),
        forall|c: int| 0 <= c < s.run(ms).queues.len() ==> (#[trigger] s.run(ms).queues[c]).len() == 0,
        forall|b: u64| #[trigger] beginnings(ms, b) == (if s.unbegun(b) { 1int } else { 0int }) + admissions(ms, b),
{
    let t = s.run(ms);
    law_run_inv(s, ms);
    assert forall|x: u64| !#[trigger] t.live(x) by {
        if t.live(x) {
            assert forall|y: u64| #[trigger] t.scheduling(y) implies distinct(t.actors[y].targets) by {
                lemma_run_kept(s, ms, y);
            }
            law_no_deadlock(t, x);
        }
    }
    assert forall|c: int| 0 <= c < t.queues.len() implies (#[trigger] t.queues[c]).len() == 0 by {
        if t.queues[c].len() > 0 {
            assert(t.queued(t.queues[c][0]));
            assert(t.live(t.queues[c][0].behavior));
        }
    }
    assert forall|b: u64| #[trigger] beginnings(ms, b) == (if s.unbegun(b) { 1int } else { 0int }) + admissions(ms, b) by {
        lemma_run_kept(s, ms, b);
        assert(!t.live(b));
    }
}

} // verus!
