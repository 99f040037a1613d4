//! The conjecture's auxiliary sequence: starting from a base value, each term
//! adds the next increment 2, 3, 4, ..., a "base plus triangular number"
//! progression.

use vstd::prelude::*;

verus! {

/// The term of the auxiliary sequence at index `i`: the base, then each
/// further term adds the next increment 2, 3, 4, ...
pub open spec fn seq_term(base: int, i: int) -> int
    decreases i,
{
    if i <= 0 {
        base
    } else {
        seq_term(base, i - 1) + i + 1
    }
}

/// The auxiliary sequence is strictly increasing in its index.
pub proof fn lemma_seq_term_strictly_increasing(base: int, i: int, j: int)
    requires
        0 <= i < j,
    ensures
        seq_term(base, i) < seq_term(base, j),
    decreases j,
{
    if j == i + 1 {
        assert(seq_term(base, j) == seq_term(base, i) + j + 1);
    } else {
        lemma_seq_term_strictly_increasing(base, i, j - 1);
        assert(seq_term(base, j) == seq_term(base, j - 1) + j + 1);
    }
}

/// All terms of the auxiliary sequence that do not exceed `ceiling`, in
/// order: the result holds exactly the terms at indices `0 .. r.len()`, each
/// at most `ceiling`, and the next term would exceed `ceiling`. In
/// particular, when `base <= ceiling` the first term is `base` itself.
pub fn sequence_terms(base: u128, ceiling: u128) -> (r: Vec<u128>)
    ensures
        forall|i: int|
            0 <= i < r@.len() ==> #[trigger] (r@[i] as int) == seq_term(base as int, i) && r@[i]
                <= ceiling,
        seq_term(base as int, r@.len() as int) > ceiling as int,
{
    let mut terms: Vec<u128> = Vec::new();
    let mut current: u128 = base;
    let mut overflowed = false;
    while !overflowed && current <= ceiling
        invariant
            forall|i: int|
                0 <= i < terms@.len() ==> #[trigger] (terms@[i] as int) == seq_term(
                    base as int,
                    i,
                ) && terms@[i] <= ceiling,
            !overflowed ==> current as int == seq_term(base as int, terms@.len() as int),
            overflowed ==> seq_term(base as int, terms@.len() as int) > ceiling as int,
        decreases (if overflowed {
            0int
        } else {
            1int
        }), (if current as int <= ceiling as int {
            ceiling as int - current as int + 1
        } else {
            0int
        }),
    {
        terms.push(current);
        let increment = terms.len() as u128;
        if current <= u128::MAX - (increment + 1) {
            current = current + increment + 1;
            assert(current as int == seq_term(base as int, terms@.len() as int));
        } else {
            overflowed = true;
            assert(seq_term(base as int, terms@.len() as int) > u128::MAX as int);
        }
    }
    terms
}

} // verus!
