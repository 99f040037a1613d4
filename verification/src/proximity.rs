//! The proximity checker: does a target lie within tolerance `k` of some
//! member of a candidate set?

use vstd::prelude::*;

use crate::arith::abs_diff_int;

verus! {

/// Some candidate lies within absolute distance `k` of the target.
pub open spec fn covered_by(target: int, candidates: Seq<u128>, k: int) -> bool {
    exists|i: int| 0 <= i < candidates.len() && abs_diff_int(target, candidates[i] as int) <= k
}

/// Decides whether any candidate has absolute difference at most `k` from
/// the target; false for an empty candidate set. Short-circuits on the first
/// match.
pub fn within_tolerance(target: u128, candidates: &Vec<u128>, k: u128) -> (r: bool)
    ensures
        r == covered_by(target as int, candidates@, k as int),
{
    let mut idx: usize = 0;
    while idx < candidates.len()
        invariant
            0 <= idx <= candidates@.len(),
            forall|i: int|
                0 <= i < idx ==> abs_diff_int(target as int, #[trigger] (candidates@[i] as int))
                    > k as int,
        decreases candidates@.len() - idx,
    {
        let c = candidates[idx];
        let diff = if target > c {
            target - c
        } else {
            c - target
        };
        if diff <= k {
            return true;
        }
        idx += 1;
    }
    false
}

} // verus!
