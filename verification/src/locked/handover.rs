//! Giving back one cown, as a whole.
use crate::locked::coupling::{
    lemma_live, lemma_model, lemma_notify_step, lemma_releasing_known, lemma_unwind_step,
};
use crate::locked::memory::{BehaviourView, Cown, Memory, Phase, ResourceState};
use crate::protocol::ReqId;
use vstd::prelude::*;

verus! {

impl<T, F> Memory<T, F> {
    /// The steps by which `b` gives back the cown of its current request, made
    /// while nobody else moves.
    pub open spec fn give_up(self, b: u64) -> Memory<T, F> {
        if self.request(self.current(b)).callback is Some {
            self.unwind(b).unwind(b)
        } else {
            self.unwind(b)
        }
    }

    /// The behaviour of `r` after it has been handed the cown of `r`.
    pub open spec fn told(self, r: ReqId) -> BehaviourView<F> {
        self.with_state(r, ResourceState::Owned).resolve_one(r.behavior).behaviours[r.behavior]
    }

    /// `t` is what `self` becomes when `b` has given back the cown of its current
    /// request.
    pub open spec fn handed_over(self, b: u64, t: Memory<T, F>) -> bool {
        let r = self.current(b);
        let c = self.target(r);
        let q = self.model.queues[c];
        &&& t.inv()
        &&& t.phase(b) == Phase::Release((r.index + 1) as usize)
        // The queue loses its first request, and no other queue changes.
        &&& t.model.queues == self.model.queues.update(c, q.drop_first())
        // The cown is free if and only if the request was alone. Every other cown
        // and all values stay.
        &&& t.cowns == self.cowns.update(
            c,
            Cown {
                last_request: if q.len() == 1 {
                    None
                } else {
                    self.cowns[c].last_request
                },
                ..self.cowns[c]
            },
        )
        &&& t.next_id == self.next_id
        // The behaviour that comes next is told. Nobody else is.
        &&& t.behaviours.dom() == self.behaviours.dom()
        &&& q.len() > 1 ==> q[1].behavior != b && self.live(q[1].behavior)
        &&& forall|x: u64| #[trigger] self.live(x) && x != b ==> t.behaviours[x] == (if q.len() > 1 && x == q[1].behavior {
            self.told(q[1])
        } else {
            self.behaviours[x]
        })
        &&& t.behaviours[b] == (BehaviourView {
            phase: t.phase(b),
            requests: t.behaviours[b].requests,
            ..self.behaviours[b]
        })
        &&& t.behaviours[b].targets() == self.behaviours[b].targets()
    }
}

/// Giving back a cown as a whole: the queue of the cown loses its first request,
/// the one of `b`; if there is a next one, it owns the cown, and its behaviour has
/// one resolution less outstanding, and is ready if that was the last; otherwise
/// the cown becomes free. Nothing else changes.
pub proof fn law_release_whole<T, F>(s: Memory<T, F>, b: u64)
    requires
        s.inv(),
        s.live(b),
        s.phase(b) is Release,
        s.current(b).index < s.size(b),
    ensures
        ({
            let r = s.current(b);
            let q = s.model.queues[s.target(r)];
            &&& q.len() > 0
            &&& q[0] == r
            &&& s.handed_over(b, s.give_up(b))
        }),
{
    lemma_live(s, b);
    lemma_model(s);
    lemma_releasing_known(s, b);
    lemma_unwind_step(s, b);
    let r = s.current(b);
    let c = s.target(r);
    let q = s.model.queues[c];
    let u = s.unwind(b);
    lemma_live(u, b);
    assert(u.model.queues == s.model.queues.update(c, q.drop_first()));
    if q.len() > 1 {
        let n = q[1];
        assert(u.phase(b) == Phase::Notify(r.index, n));
        lemma_notify_step(u, b);
        lemma_unwind_step(u, b);
        let t = u.unwind(b);
        assert(s.live(n.behavior));
        assert(t.behaviours.dom() =~= s.behaviours.dom());
        assert(t.cowns =~= s.cowns.update(c, Cown { last_request: s.cowns[c].last_request, ..s.cowns[c] }));
        assert(t.behaviours[b].targets() =~= s.behaviours[b].targets());
    } else {
        assert(u.behaviours.dom() =~= s.behaviours.dom());
        assert(u.behaviours[b].targets() =~= s.behaviours[b].targets());
    }
}

} // verus!
