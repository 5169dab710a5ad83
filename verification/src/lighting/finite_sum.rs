//! Sums of natural-number weights over finite sets.
//!
//! The lighting loops terminate because a bounded total over the finitely
//! many passable voxels moves in one direction only; this module supplies
//! that total and the two facts the loops need about it.

use vstd::prelude::*;

verus! {

/// The sum of `weight` over the members of a finite set.
pub open spec fn sum_over<A>(s: Set<A>, weight: spec_fn(A) -> nat) -> nat
    decreases s.len(),
    when s.finite()
{
    if s.len() == 0 {
        0
    } else {
        let x = s.choose();
        weight(x) + sum_over(s.remove(x), weight)
    }
}

/// Any member can be split off the sum.
pub proof fn lemma_sum_split<A>(s: Set<A>, weight: spec_fn(A) -> nat, x: A)
    requires
        s.finite(),
        s.contains(x),
    ensures
        sum_over(s, weight) == weight(x) + sum_over(s.remove(x), weight),
    decreases s.len(),
{
    let y = s.choose();
    if y != x {
        lemma_sum_split(s.remove(y), weight, x);
        lemma_sum_split(s.remove(x), weight, y);
        assert(s.remove(y).remove(x) =~= s.remove(x).remove(y));
    }
}

/// Weights that agree on every member give the same sum.
pub proof fn lemma_sum_agree<A>(s: Set<A>, f: spec_fn(A) -> nat, g: spec_fn(A) -> nat)
    requires
        s.finite(),
        forall|x: A| s.contains(x) ==> #[trigger] f(x) == g(x),
    ensures
        sum_over(s, f) == sum_over(s, g),
    decreases s.len(),
{
    if s.len() != 0 {
        let y = s.choose();
        lemma_sum_agree(s.remove(y), f, g);
    }
}

/// Changing the weight of one member changes the sum by the same amount.
pub proof fn lemma_sum_change<A>(s: Set<A>, f: spec_fn(A) -> nat, g: spec_fn(A) -> nat, x: A)
    requires
        s.finite(),
        s.contains(x),
        forall|y: A| s.contains(y) && y != x ==> #[trigger] f(y) == g(y),
    ensures
        sum_over(s, f) - f(x) == sum_over(s, g) - g(x),
{
    lemma_sum_split(s, f, x);
    lemma_sum_split(s, g, x);
    lemma_sum_agree(s.remove(x), f, g);
}

} // verus!
