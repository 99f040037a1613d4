//! The range prime generator: all primes in `(start, end]`, choosing between
//! an exhaustive scan of machine-word ranges, an exhaustive scan of odd
//! candidates for medium ranges beyond the machine word, and a capped sample
//! of odd candidates for huge ranges. Sampling is an explicit, reported
//! degradation, never a silent one.

use vstd::prelude::*;

use crate::arith::{holds_value, int_view, is_prime_int, strictly_increasing};
use crate::primality::is_prime;

verus! {

/// How many odd candidates the sampling path will test at most.
pub const SAMPLE_CAP: u64 = 1_000_000;

/// Above this range width, ranges beyond the machine word are sampled rather
/// than scanned exhaustively.
pub const HUGE_RANGE_WIDTH: u128 = 1_000_000;

/// The primes in `(start, end]`, in ascending order: the recursive reference
/// enumeration that the exhaustive path is held to.
pub open spec fn primes_seq(start: int, end: int) -> Seq<int>
    decreases end - start,
{
    if end <= start {
        Seq::empty()
    } else if is_prime_int(end) {
        primes_seq(start, end - 1).push(end)
    } else {
        primes_seq(start, end - 1)
    }
}

/// `primes_seq(start, end)` holds exactly the primes in `(start, end]`.
pub proof fn lemma_primes_seq_membership(start: int, end: int)
    ensures
        forall|p: int| #[trigger]
            primes_seq(start, end).contains(p) <==> (start < p <= end && is_prime_int(p)),
    decreases end - start,
{
    if end <= start {
        assert forall|p: int| #[trigger]
            primes_seq(start, end).contains(p) <==> (start < p <= end && is_prime_int(p)) by {
            if primes_seq(start, end).contains(p) {
                let idx = choose|i: int|
                    0 <= i < primes_seq(start, end).len() && primes_seq(start, end)[i] == p;
                assert(false);
            }
        }
    } else {
        lemma_primes_seq_membership(start, end - 1);
        let prev = primes_seq(start, end - 1);
        let cur = primes_seq(start, end);
        assert forall|p: int| #[trigger]
            cur.contains(p) <==> (start < p <= end && is_prime_int(p)) by {
            if cur.contains(p) {
                let idx = choose|i: int| 0 <= i < cur.len() && cur[i] == p;
                if is_prime_int(end) {
                    if idx < prev.len() {
                        assert(prev[idx] == p);
                        assert(prev.contains(p));
                    }
                } else {
                    assert(prev[idx] == p);
                    assert(prev.contains(p));
                }
            }
            if start < p <= end && is_prime_int(p) {
                if p == end {
                    assert(cur[prev.len() as int] == p);
                } else {
                    assert(prev.contains(p));
                    let idx = choose|i: int| 0 <= i < prev.len() && prev[i] == p;
                    assert(cur[idx] == p);
                }
            }
        }
    }
}

/// What a range prime scan produced: the primes found, in ascending order,
/// and whether the scan only sampled the range instead of covering it.
pub struct RangePrimes {
    pub primes: Vec<u128>,
    pub sampled: bool,
}

/// Scans the odd values in `(start, end]` in ascending order, starting at the
/// first odd value above `start` and testing at most `cap` of them, and
/// collects those the primality oracle certifies prime. The oracle is exact
/// for machine-word values and certifies nothing larger, so the result holds
/// a machine-word value exactly when it is an odd prime of the range; and
/// when the range is narrow enough that the cap cannot cut the scan short,
/// no odd machine-word prime of the range is missed.
#[verifier::loop_isolation(false)]
fn odd_prime_scan(start: u128, end: u128, cap: u64) -> (r: Vec<u128>)
    requires
        start <= end,
    ensures
        strictly_increasing(r@),
        forall|t: int|
            0 <= t < r@.len() ==> start < #[trigger] r@[t] <= end && is_prime_int(r@[t] as int)
                && r@[t] % 2 == 1 && r@[t] <= u64::MAX,
        end as int - start as int <= 2 * (cap as int) ==> forall|p: int|
            (start as int) < p <= end as int && p <= u64::MAX as int && p % 2 == 1 && #[trigger]
            is_prime_int(p) ==> holds_value(r@, p),
{
    let mut found: Vec<u128> = Vec::new();
    let mut c: u128;
    if start % 2 == 0 {
        c = start + 1;
    } else {
        if start == u128::MAX {
            return found;
        }
        c = start + 2;
    }
    let ghost first = c;
    let mut count: u64 = 0;
    let mut exhausted = false;
    while !exhausted && c <= end && count < cap
        invariant
            start < c,
            first as int >= start as int + 1,
            c % 2 == 1,
            !exhausted ==> c as int == first as int + 2 * (count as int),
            strictly_increasing(found@),
            forall|t: int|
                0 <= t < found@.len() ==> start < #[trigger] found@[t] <= end && is_prime_int(
                    found@[t] as int,
                ) && found@[t] % 2 == 1 && found@[t] <= u64::MAX,
            !exhausted ==> forall|t: int| 0 <= t < found@.len() ==> #[trigger] found@[t] < c,
            forall|p: int|
                (start as int) < p < c as int && p <= u64::MAX as int && p % 2 == 1 && #[trigger]
                is_prime_int(p) ==> holds_value(found@, p),
            exhausted ==> forall|p: int|
                (start as int) < p <= end as int && p <= u64::MAX as int && p % 2 == 1
                    && #[trigger] is_prime_int(p) ==> holds_value(found@, p),
        decreases (if exhausted {
            0int
        } else {
            1int
        }), (if c as int <= end as int {
            end as int - c as int
        } else {
            0int
        }),
    {
        proof {
            crate::arith::lemma_holds_value_push(found@, c);
        }
        if is_prime(c) {
            found.push(c);
        }
        count += 1;
        if end - c >= 2 {
            c += 2;
        } else {
            exhausted = true;
            proof {
                assert forall|p: int|
                    (start as int) < p <= end as int && p <= u64::MAX as int && p % 2 == 1
                        && #[trigger] is_prime_int(p) implies holds_value(found@, p) by {
                    if p > c as int {
                        assert(p != c as int + 1);
                        assert(false);
                    }
                }
            }
        }
    }
    proof {
        if end as int - start as int <= 2 * (cap as int) && !exhausted && c <= end {
            assert(c as int >= start as int + 1 + 2 * (count as int));
            assert(false);
        }
    }
    found
}

/// The primes in `(start, end]`, ascending and duplicate-free. When `end`
/// fits a machine word the scan is exhaustive and the result is exactly
/// `primes_seq(start, end)`. Beyond the machine word the oracle certifies
/// only machine-word primes, so every reported value is a machine-word prime
/// of the range; unless the range is sampled, the result holds a machine-word
/// value exactly when it is a prime of the range, which makes every
/// non-sampled scan a deterministic function of its bounds. A range beyond
/// the machine word wider than `HUGE_RANGE_WIDTH` is only sampled — at most
/// `SAMPLE_CAP` odd candidates are tested — which the `sampled` flag reports.
#[verifier::loop_isolation(false)]
pub fn primes_in_range(start: u128, end: u128) -> (r: RangePrimes)
    requires
        start <= end,
    ensures
        strictly_increasing(r.primes@),
        forall|t: int|
            0 <= t < r.primes@.len() ==> start < #[trigger] r.primes@[t] <= end && is_prime_int(
                r.primes@[t] as int) && r.primes@[t] <= u64::MAX,
        r.sampled == (end > u64::MAX && end as int - start as int > HUGE_RANGE_WIDTH as int),
        end <= u64::MAX ==> int_view(r.primes@) == primes_seq(start as int, end as int),
        !r.sampled ==> forall|p: int| #[trigger]
            holds_value(r.primes@, p) <==> ((start as int) < p <= end as int && p
                <= u64::MAX as int && is_prime_int(p)),
{
    if end <= u64::MAX as u128 {
        let mut primes: Vec<u128> = Vec::new();
        let mut c: u128 = start + 1;
        while c <= end
            invariant
                (start as int) < (c as int) <= end as int + 1,
                int_view(primes@) == primes_seq(start as int, c as int - 1),
                strictly_increasing(primes@),
                forall|t: int|
                    0 <= t < primes@.len() ==> start < #[trigger] primes@[t] <= end && is_prime_int(
                        primes@[t] as int) && primes@[t] < c,
            decreases end as int - c as int + 1,
        {
            if is_prime(c) {
                let ghost prev = primes@;
                primes.push(c);
                proof {
                    assert(int_view(prev.push(c)) =~= int_view(prev).push(c as int));
                }
            }
            c += 1;
        }
        proof {
            lemma_primes_seq_membership(start as int, end as int);
            let full = primes_seq(start as int, end as int);
            assert forall|p: int| #[trigger]
                holds_value(primes@, p) <==> ((start as int) < p <= end as int && p
                    <= u64::MAX as int && is_prime_int(p)) by {
                if holds_value(primes@, p) {
                    let t = choose|t: int| 0 <= t < primes@.len() && primes@[t] as int == p;
                    assert(int_view(primes@)[t] == p);
                    assert(full.contains(p));
                }
                if (start as int) < p <= end as int && p <= u64::MAX as int && is_prime_int(p) {
                    assert(full.contains(p));
                    let t = choose|t: int| 0 <= t < full.len() && full[t] == p;
                    assert(int_view(primes@)[t] == p);
                    assert(primes@[t] as int == p);
                }
            }
        }
        RangePrimes { primes, sampled: false }
    } else {
        let width = end - start;
        if width > HUGE_RANGE_WIDTH {
            let primes = odd_prime_scan(start, end, SAMPLE_CAP);
            RangePrimes { primes, sampled: true }
        } else {
            let mut primes: Vec<u128> = Vec::new();
            if start < 2 && end >= 2 {
                primes.push(2);
            }
            let odds = odd_prime_scan(start, end, SAMPLE_CAP);
            let ghost base0 = primes@;
            let mut idx: usize = 0;
            while idx < odds.len()
                invariant
                    idx <= odds@.len(),
                    strictly_increasing(primes@),
                    forall|t: int|
                        0 <= t < primes@.len() ==> start < #[trigger] primes@[t] <= end
                            && is_prime_int(primes@[t] as int) && primes@[t] <= u64::MAX,
                    forall|t: int, u: int|
                        0 <= t < primes@.len() && idx <= u < odds@.len() ==> #[trigger] primes@[t]
                            < #[trigger] odds@[u],
                    forall|d: int| #[trigger]
                        holds_value(primes@, d) <==> (holds_value(base0, d) || exists|u: int|
                            0 <= u < idx && odds@[u] as int == d),
                decreases odds@.len() - idx,
            {
                let x = odds[idx];
                proof {
                    crate::arith::lemma_holds_value_push(primes@, x);
                    assert forall|d: int| #[trigger]
                        holds_value(primes@.push(x), d) <==> (holds_value(base0, d) || exists|
                        u: int,
                    | 0 <= u < idx + 1 && odds@[u] as int == d) by {
                        if holds_value(primes@.push(x), d) {
                            if x as int == d && !holds_value(primes@, d) {
                                assert(odds@[idx as int] as int == d);
                            }
                        }
                        if !holds_value(primes@.push(x), d) && (holds_value(base0, d) || exists|
                        u: int,
                        | 0 <= u < idx + 1 && odds@[u] as int == d) {
                            if !holds_value(base0, d) {
                                let u = choose|u: int| 0 <= u < idx + 1 && odds@[u] as int == d;
                                assert(u == idx);
                                assert(x as int == d);
                            }
                        }
                    }
                }
                primes.push(x);
                idx += 1;
            }
            proof {
                assert forall|p: int| #[trigger]
                    holds_value(primes@, p) <==> ((start as int) < p <= end as int && p
                        <= u64::MAX as int && is_prime_int(p)) by {
                    if holds_value(primes@, p) {
                        let t = choose|t: int| 0 <= t < primes@.len() && primes@[t] as int == p;
                        assert(is_prime_int(primes@[t] as int));
                    }
                    if (start as int) < p <= end as int && p <= u64::MAX as int && is_prime_int(
                        p,
                    ) {
                        if p == 2 {
                            assert(holds_value(base0, 2));
                        } else {
                            assert(p % 2 != 0);
                            assert(holds_value(odds@, p));
                            let u = choose|u: int| 0 <= u < odds@.len() && odds@[u] as int == p;
                        }
                    }
                }
            }
            RangePrimes { primes, sampled: false }
        }
    }
}

} // verus!
