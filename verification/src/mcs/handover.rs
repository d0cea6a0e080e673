//! Giving back one cown, as a whole.
use crate::laws::law_acquired_owns;
use crate::mcs::coupling::{
    lemma_live, lemma_model, lemma_notify_step, lemma_releasing_known, lemma_unwind_step,
};
use crate::mcs::cown::Cown;
use crate::mcs::memory::{BehaviorView, Memory, Phase};
use crate::progress::Progress;
use vstd::prelude::*;

verus! {

impl<T, F> Memory<T, F> {
    /// The steps by which `b` gives back the cown of its current request, made
    /// while nobody else moves.
    pub open spec fn give_up(self, b: u64) -> Memory<T, F> {
        if self.request(self.current(b)).next is Some {
            self.unwind(b).unwind(b).unwind(b)
        } else {
            self.unwind(b).unwind(b)
        }
    }

    /// One behaviour after the resolution of one of its requests.
    pub open spec fn told(self, b: u64) -> BehaviorView<F> {
        self.resolve_one(b).behaviors[b]
    }

    /// `t` is what `self` becomes when `b` has given back the cown of its current
    /// request.
    pub open spec fn handed_over(self, b: u64, t: Memory<T, F>) -> bool {
        let r = self.current(b);
        let c = self.target(r);
        let q = self.model.queues[c];
        &&& t.inv()
        &&& t.phase(b) == Phase::Release((r.index + 1) as usize)
        // The queue loses its first request, and no other queue changes.
        &&& t.model.queues == self.model.queues.update(c, q.drop_first())
        // The tail is emptied if and only if the request was alone. Every other
        // tail and all values stay.
        &&& t.cowns == self.cowns.update(
            c,
            Cown {
                last: if q.len() == 1 {
                    None
                } else {
                    self.cowns[c].last
                },
                ..self.cowns[c]
            },
        )
        &&& t.next_id == self.next_id
        // The behaviour that comes next is told. Nobody else is.
        &&& t.behaviors.dom() == self.behaviors.dom()
        &&& q.len() > 1 ==> q[1].behavior != b && self.live(q[1].behavior)
        &&& forall|x: u64| #[trigger] self.live(x) && x != b ==> t.behaviors[x] == (if q.len() > 1 && x == q[1].behavior {
            self.told(x)
        } else {
            self.behaviors[x]
        })
        &&& t.behaviors[b] == (BehaviorView {
            phase: t.phase(b),
            requests: t.behaviors[b].requests,
            ..self.behaviors[b]
        })
        &&& t.behaviors[b].targets() == self.behaviors[b].targets()
    }
}

/// Giving back a cown as a whole: the queue of the cown loses its first request,
/// the one of `b`; if there is a next one, its behaviour has one resolution less
/// outstanding, and is ready if that was the last; otherwise the cown becomes
/// available. Nothing else changes. Where the next request is in the queue but has
/// not yet been linked, nothing changes but that `b` looks for the link, again and
/// again.
pub proof fn law_release_whole<T, F>(s: Memory<T, F>, b: u64)
    requires
        s.inv(),
        s.live(b),
        s.current(b).index < s.size(b),
        match s.phase(b) {
            Phase::Release(_) => true,
            Phase::Spin(_) => s.request(s.current(b)).next is Some,
            _ => false,
        },
    ensures
        ({
            let r = s.current(b);
            let q = s.model.queues[s.target(r)];
            &&& q.len() > 0
            &&& q[0] == r
            &&& if s.request(r).next is Some || q.len() == 1 {
                s.handed_over(b, s.give_up(b))
            } else {
                &&& s.give_up(b) == s.with_phase(b, Phase::Spin(r.index))
                &&& s.give_up(b).unwind_progress(b) == Progress::Waiting
            }
        }),
{
    lemma_live(s, b);
    lemma_model(s);
    lemma_releasing_known(s, b);
    lemma_unwind_step(s, b);
    let r = s.current(b);
    let c = s.target(r);
    let q = s.model.queues[c];
    let u = s.unwind(b);
    lemma_live(u, b);
    if s.request(r).next is Some {
        let nb = q[1].behavior;
        assert(u.phase(b) == Phase::Notify(r.index, nb));
        assert(u.model.queues == s.model.queues.update(c, q.drop_first()));
        lemma_model(u);
        lemma_notify_step(u, b);
        lemma_unwind_step(u, b);
        let n = u.model.stage(b)->Notify_1;
        assert(u.model.notifying(b, n));
        assert(nb != b) by {
            if nb == b {
                assert(u.model.queued(n) && u.model.is_request(n));
                law_acquired_owns(u.model, n);
            }
        }
        let w = u.unwind(b);
        lemma_unwind_step(w, b);
        let t = w.unwind(b);
        assert(t.behaviors.dom() =~= s.behaviors.dom());
        assert(t.cowns =~= s.cowns.update(c, Cown { last: s.cowns[c].last, ..s.cowns[c] }));
        assert(t.behaviors[b].targets() =~= s.behaviors[b].targets());
        assert forall|x: u64| #[trigger] s.live(x) && x != b implies t.behaviors[x] == (if x == nb {
            s.told(x)
        } else {
            s.behaviors[x]
        }) by {}
    } else if q.len() == 1 {
        lemma_unwind_step(u, b);
        let t = u.unwind(b);
        assert(t.behaviors.dom() =~= s.behaviors.dom());
        assert(t.behaviors[b].targets() =~= s.behaviors[b].targets());
    } else {
        assert(u.unwind(b).behaviors =~= s.with_phase(b, Phase::Spin(r.index)).behaviors);
    }
}

} // verus!
