//! Sums over the behaviours alive.
use vstd::prelude::*;

verus! {

/// The sum of `f` over the values of `m`.
pub open spec fn total<A>(m: Map<u64, A>, f: spec_fn(A) -> nat) -> nat
    decreases m.dom().len(),
    when m.dom().finite()
{
    if m.dom().len() == 0 {
        0
    } else {
        let b = m.dom().choose();
        f(m[b]) + total(m.remove(b), f)
    }
}

/// What one value contributes.
pub proof fn lemma_total_remove<A>(m: Map<u64, A>, f: spec_fn(A) -> nat, b: u64)
    requires
        m.dom().finite(),
        m.contains_key(b),
    ensures
        total(m, f) == f(m[b]) + total(m.remove(b), f),
    decreases m.dom().len(),
{
    let x = m.dom().choose();
    assert(m.dom().len() > 0);
    if x != b {
        assert(m.dom().contains(x));
        lemma_total_remove(m.remove(x), f, b);
        lemma_total_remove(m.remove(b), f, x);
        assert(m.remove(x).remove(b) =~= m.remove(b).remove(x));
    }
}

/// What changes with one value.
pub proof fn lemma_total_put<A>(m: Map<u64, A>, f: spec_fn(A) -> nat, b: u64, a: A)
    requires
        m.dom().finite(),
        m.contains_key(b),
    ensures
        total(m.insert(b, a), f) + f(m[b]) == total(m, f) + f(a),
{
    lemma_total_remove(m, f, b);
    lemma_total_remove(m.insert(b, a), f, b);
    assert(m.insert(b, a).remove(b) =~= m.remove(b));
}

} // verus!
