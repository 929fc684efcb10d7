//! Sums over finite sets.

use vstd::prelude::*;

verus! {

/// The sum of `f` over the members of the finite set `s`.
pub open spec fn set_sum<A>(s: Set<A>, f: spec_fn(A) -> nat) -> nat
    decreases s.len(),
    when s.finite()
{
    if s.is_empty() {
        0
    } else {
        let a = s.choose();
        f(a) + set_sum(s.remove(a), f)
    }
}

/// A sum does not go up where no term goes up.
pub proof fn lemma_set_sum_le<A>(s: Set<A>, f: spec_fn(A) -> nat, g: spec_fn(A) -> nat)
    requires
        s.finite(),
        forall|a: A| s.contains(a) ==> f(a) <= g(a),
    ensures
        set_sum(s, f) <= set_sum(s, g),
    decreases s.len(),
{
    if !s.is_empty() {
        let a = s.choose();
        lemma_set_sum_le(s.remove(a), f, g);
    }
}

/// A sum goes down where no term goes up and one term goes down.
pub proof fn lemma_set_sum_lt<A>(s: Set<A>, f: spec_fn(A) -> nat, g: spec_fn(A) -> nat, w: A)
    requires
        s.finite(),
        forall|a: A| s.contains(a) ==> f(a) <= g(a),
        s.contains(w),
        f(w) < g(w),
    ensures
        set_sum(s, f) < set_sum(s, g),
    decreases s.len(),
{
    let a = s.choose();
    if a == w {
        lemma_set_sum_le(s.remove(a), f, g);
    } else {
        lemma_set_sum_lt(s.remove(a), f, g, w);
    }
}

} // verus!
