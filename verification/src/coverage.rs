//! The scale coverage evaluator: for one scale `m`, classify every prime of
//! the range `((m-1)*360, m*360]` (starting at 1 for `m == 1`) as covered by
//! a divisor of `m*360`, covered by a term of the auxiliary sequence, or
//! uncovered, each within tolerance `k`, divisor coverage taking precedence.

use vstd::prelude::*;

use crate::arith::{abs_diff_int, holds_value, int_view, is_divisor_of, is_prime_int,
    saturating_sub, strictly_increasing};
use crate::divisors::divisors;
use crate::primes::{primes_in_range, primes_seq};
use crate::proximity::{covered_by, within_tolerance};
use crate::sequence::{lemma_seq_term_strictly_increasing, seq_term, sequence_terms};

verus! {

/// The lower bound of scale `m`'s range, excluded from it.
pub open spec fn scale_range_start(m: int) -> int {
    if m == 1 {
        1
    } else {
        (m - 1) * 360
    }
}

/// The upper bound of scale `m`'s range, included in it.
pub open spec fn scale_range_end(m: int) -> int {
    m * 360
}

/// The first term of scale `m`'s auxiliary sequence.
pub open spec fn sequence_base(m: int) -> int {
    if m == 1 {
        181
    } else {
        (m - 1) * 360 + 181
    }
}

/// Some divisor of `m*360` lies within `k` of `q`.
pub open spec fn divisor_covers(q: int, m: int, k: int) -> bool {
    exists|d: int| #[trigger] is_divisor_of(d, scale_range_end(m)) && abs_diff_int(q, d) <= k
}

/// Some term of scale `m`'s auxiliary sequence lies within `k` of `q`.
pub open spec fn sequence_covers(q: int, m: int, k: int) -> bool {
    exists|i: int| 0 <= i && abs_diff_int(q, #[trigger] seq_term(sequence_base(m), i)) <= k
}

/// How many of the primes are covered by a divisor.
pub open spec fn count_divisor_covered(ps: Seq<int>, m: int, k: int) -> int
    decreases ps.len(),
{
    if ps.len() == 0 {
        0
    } else {
        count_divisor_covered(ps.drop_last(), m, k) + if divisor_covers(ps.last(), m, k) {
            1int
        } else {
            0int
        }
    }
}

/// How many of the primes are covered by a sequence term but by no divisor:
/// divisor coverage is checked first and takes precedence.
pub open spec fn count_sequence_covered(ps: Seq<int>, m: int, k: int) -> int
    decreases ps.len(),
{
    if ps.len() == 0 {
        0
    } else {
        count_sequence_covered(ps.drop_last(), m, k) + if !divisor_covers(ps.last(), m, k)
            && sequence_covers(ps.last(), m, k) {
            1int
        } else {
            0int
        }
    }
}

/// The primes covered neither by a divisor nor by a sequence term, in order.
pub open spec fn uncovered_of(ps: Seq<int>, m: int, k: int) -> Seq<int>
    decreases ps.len(),
{
    if ps.len() == 0 {
        Seq::empty()
    } else if !divisor_covers(ps.last(), m, k) && !sequence_covers(ps.last(), m, k) {
        uncovered_of(ps.drop_last(), m, k).push(ps.last())
    } else {
        uncovered_of(ps.drop_last(), m, k)
    }
}

/// The coverage report for one scale, immutable once produced.
#[derive(Debug)]
pub struct ScaleReport {
    /// The excluded lower bound of the scale's range.
    pub range_start: u128,
    /// The included upper bound of the scale's range.
    pub range_end: u128,
    /// How many primes were classified.
    pub total_primes: usize,
    /// How many of them lie within tolerance of a divisor of `m*360`.
    pub divisor_covered: usize,
    /// How many of the rest lie within tolerance of a sequence term.
    pub sequence_covered: usize,
    /// How many are covered by neither.
    pub uncovered: usize,
    /// The uncovered primes themselves, ascending.
    pub uncovered_primes: Vec<u128>,
    /// Whether prime generation only sampled the range.
    pub sampled: bool,
    /// Whether the prime list was cut off at the cap.
    pub truncated: bool,
}

/// The whole report is a function of `(m, k, cap)` alone, through the
/// reference prime enumeration: what `evaluate_scale` promises whenever the
/// range lies within the machine word.
pub open spec fn report_matches(r: ScaleReport, m: int, k: int, cap: int) -> bool {
    let full = primes_seq(scale_range_start(m), scale_range_end(m));
    let kept = if full.len() > cap {
        full.take(cap)
    } else {
        full
    };
    &&& r.truncated == (full.len() > cap)
    &&& r.total_primes == kept.len()
    &&& r.divisor_covered == count_divisor_covered(kept, m, k)
    &&& r.sequence_covered == count_sequence_covered(kept, m, k)
    &&& int_view(r.uncovered_primes@) == uncovered_of(kept, m, k)
    &&& r.uncovered == uncovered_of(kept, m, k).len()
}

/// The filtered divisor candidates cover `q` exactly when some divisor of
/// `m*360` lies within `k` of it: the window `[lo, hi]` the candidates were
/// filtered to cannot exclude a divisor near a prime of the range.
proof fn lemma_divisor_candidates_exact(q: int, m: int, k: int, dc: Seq<u128>, lo: int, hi: int)
    requires
        m >= 1,
        k >= 0,
        lo == (if scale_range_start(m) - k >= 0 {
            scale_range_start(m) - k
        } else {
            0
        }),
        hi == scale_range_end(m) + k,
        scale_range_start(m) < q <= scale_range_end(m),
        forall|t: int|
            0 <= t < dc.len() ==> is_divisor_of(#[trigger] dc[t] as int, scale_range_end(m)) && lo
                <= dc[t] as int <= hi,
        forall|d: int|
            #[trigger] is_divisor_of(d, scale_range_end(m)) && lo <= d <= hi ==> holds_value(
                dc,
                d,
            ),
    ensures
        covered_by(q, dc, k) == divisor_covers(q, m, k),
{
    if covered_by(q, dc, k) {
        let i = choose|i: int| 0 <= i < dc.len() && abs_diff_int(q, dc[i] as int) <= k;
        assert(is_divisor_of(dc[i] as int, scale_range_end(m)) && abs_diff_int(q, dc[i] as int)
            <= k);
    }
    if divisor_covers(q, m, k) {
        let d = choose|d: int|
            #[trigger] is_divisor_of(d, scale_range_end(m)) && abs_diff_int(q, d) <= k;
        assert(lo <= d <= hi);
        assert(holds_value(dc, d));
        let i = choose|i: int| 0 <= i < dc.len() && dc[i] as int == d;
        assert(abs_diff_int(q, dc[i] as int) <= k);
    }
}

/// The generated sequence candidates cover `q` exactly when some term of the
/// scale's sequence lies within `k` of it: terms beyond the generation
/// ceiling are too large to matter for a prime of the range.
proof fn lemma_sequence_candidates_exact(q: int, m: int, k: int, sc: Seq<u128>, ceiling: int)
    requires
        m >= 1,
        k >= 0,
        ceiling == scale_range_end(m) + k,
        q <= scale_range_end(m),
        forall|i: int|
            0 <= i < sc.len() ==> #[trigger] (sc[i] as int) == seq_term(sequence_base(m), i) && sc[i]
                as int <= ceiling,
        seq_term(sequence_base(m), sc.len() as int) > ceiling,
    ensures
        covered_by(q, sc, k) == sequence_covers(q, m, k),
{
    if covered_by(q, sc, k) {
        let i = choose|i: int| 0 <= i < sc.len() && abs_diff_int(q, sc[i] as int) <= k;
        assert(0 <= i && abs_diff_int(q, seq_term(sequence_base(m), i)) <= k);
    }
    if sequence_covers(q, m, k) {
        let i = choose|i: int|
            0 <= i && abs_diff_int(q, #[trigger] seq_term(sequence_base(m), i)) <= k;
        if i >= sc.len() {
            if i > sc.len() {
                lemma_seq_term_strictly_increasing(sequence_base(m), sc.len() as int, i);
            }
            assert(seq_term(sequence_base(m), i) >= seq_term(sequence_base(m), sc.len() as int));
            assert(false);
        }
        assert(abs_diff_int(q, sc[i] as int) <= k);
    }
}

/// Two reports that both satisfy the machine-word contract of
/// `evaluate_scale` for the same inputs are equal: evaluating a scale is
/// deterministic there, whatever order the primes were classified in.
pub proof fn lemma_evaluate_scale_deterministic(
    r1: ScaleReport,
    r2: ScaleReport,
    m: int,
    k: int,
    cap: int,
)
    requires
        report_matches(r1, m, k, cap),
        report_matches(r2, m, k, cap),
    ensures
        r1.total_primes == r2.total_primes,
        r1.divisor_covered == r2.divisor_covered,
        r1.sequence_covered == r2.sequence_covered,
        r1.uncovered == r2.uncovered,
        r1.truncated == r2.truncated,
        r1.uncovered_primes@ == r2.uncovered_primes@,
{
    assert(int_view(r1.uncovered_primes@) == int_view(r2.uncovered_primes@));
    assert forall|t: int|
        0 <= t < r1.uncovered_primes@.len() implies r1.uncovered_primes@[t]
        == r2.uncovered_primes@[t] by {
        assert(int_view(r1.uncovered_primes@)[t] == int_view(r2.uncovered_primes@)[t]);
    }
    assert(r1.uncovered_primes@ =~= r2.uncovered_primes@);
}

/// Evaluates one scale: generates the primes of the scale's range (cut off
/// at `cap`), the divisor candidates of `m*360` filtered to within `k` of
/// the range, and the sequence candidates up to the range's end plus `k`,
/// then classifies every prime, divisor coverage first. The counts always
/// add up to the total, every reported uncovered prime really is an
/// uncovered prime of the range, and for ranges within the machine word the
/// whole report is the unique one determined by `(m, k, cap)`.
#[verifier::loop_isolation(false)]
pub fn evaluate_scale(m: u128, k: u64, cap: usize) -> (r: ScaleReport)
    requires
        m >= 1,
        cap >= 1,
        m as int * 360 + k as int <= u128::MAX as int,
    ensures
        r.range_start as int == scale_range_start(m as int),
        r.range_end as int == scale_range_end(m as int),
        r.total_primes == r.divisor_covered + r.sequence_covered + r.uncovered,
        r.total_primes <= cap,
        r.uncovered == r.uncovered_primes@.len(),
        !r.sampled,
        r.truncated ==> r.total_primes == cap,
        strictly_increasing(r.uncovered_primes@),
        forall|t: int|
            0 <= t < r.uncovered_primes@.len() ==> scale_range_start(m as int) < #[trigger] (
            r.uncovered_primes@[t] as int) <= scale_range_end(m as int) && is_prime_int(
                r.uncovered_primes@[t] as int,
            ) && !divisor_covers(r.uncovered_primes@[t] as int, m as int, k as int)
                && !sequence_covers(r.uncovered_primes@[t] as int, m as int, k as int),
        scale_range_end(m as int) <= u64::MAX as int ==> report_matches(
            r,
            m as int,
            k as int,
            cap as int,
        ),
{
    let range_end: u128 = m * 360;
    let range_start: u128 = if m == 1 {
        1
    } else {
        (m - 1) * 360
    };
    let k128: u128 = k as u128;

    let scan = primes_in_range(range_start, range_end);
    let mut primes = scan.primes;
    let truncated = primes.len() > cap;
    if truncated {
        primes.truncate(cap);
        proof {
            assert(int_view(primes@) =~= int_view(scan.primes@).take(cap as int));
        }
    }

    let lo = saturating_sub(range_start, k128);
    let hi = range_end + k128;
    let all_divisors = divisors(range_end);
    let mut divisor_candidates: Vec<u128> = Vec::new();
    let mut di: usize = 0;
    while di < all_divisors.len()
        invariant
            di <= all_divisors@.len(),
            forall|t: int|
                0 <= t < divisor_candidates@.len() ==> is_divisor_of(
                    #[trigger] divisor_candidates@[t] as int,
                    range_end as int,
                ) && lo as int <= divisor_candidates@[t] as int <= hi as int,
            forall|u: int|
                0 <= u < di && lo <= #[trigger] all_divisors@[u] <= hi ==> holds_value(
                    divisor_candidates@,
                    all_divisors@[u] as int,
                ),
        decreases all_divisors@.len() - di,
    {
        let d = all_divisors[di];
        if lo <= d && d <= hi {
            proof {
                crate::arith::lemma_holds_value_push(divisor_candidates@, d);
                assert(holds_value(all_divisors@, d as int));
            }
            divisor_candidates.push(d);
        }
        di += 1;
    }
    proof {
        assert forall|d: int|
            #[trigger] is_divisor_of(d, range_end as int) && lo as int <= d <= hi as int
            implies holds_value(divisor_candidates@, d) by {
            assert(holds_value(all_divisors@, d));
            let u = choose|u: int| 0 <= u < all_divisors@.len() && all_divisors@[u] as int == d;
            assert(lo <= all_divisors@[u] <= hi);
        }
    }

    let seq_base: u128 = if m == 1 {
        181
    } else {
        (m - 1) * 360 + 181
    };
    let sequence_candidates = sequence_terms(seq_base, hi);

    let ghost gm = m as int;
    let ghost gk = k as int;
    let ghost kept = int_view(primes@);

    let mut divisor_covered: usize = 0;
    let mut sequence_covered: usize = 0;
    let mut uncovered_count: usize = 0;
    let mut uncovered_primes: Vec<u128> = Vec::new();
    let mut idx: usize = 0;
    while idx < primes.len()
        invariant
            idx <= primes@.len(),
            divisor_covered + sequence_covered + uncovered_count == idx,
            divisor_covered as int == count_divisor_covered(kept.take(idx as int), gm, gk),
            sequence_covered as int == count_sequence_covered(kept.take(idx as int), gm, gk),
            int_view(uncovered_primes@) == uncovered_of(kept.take(idx as int), gm, gk),
            uncovered_count == uncovered_primes@.len(),
            strictly_increasing(uncovered_primes@),
            forall|t: int|
                0 <= t < uncovered_primes@.len() ==> range_start
                    < #[trigger] uncovered_primes@[t] <= range_end && is_prime_int(
                    uncovered_primes@[t] as int,
                ) && !divisor_covers(uncovered_primes@[t] as int, gm, gk) && !sequence_covers(
                    uncovered_primes@[t] as int,
                    gm,
                    gk,
                ),
            uncovered_primes@.len() > 0 ==> idx > 0 && uncovered_primes@.last() <= primes@[idx
                - 1],
        decreases primes@.len() - idx,
    {
        let p = primes[idx];
        proof {
            assert(kept.take(idx as int + 1).drop_last() =~= kept.take(idx as int));
            assert(kept.take(idx as int + 1).last() == p as int);
            lemma_divisor_candidates_exact(
                p as int,
                gm,
                gk,
                divisor_candidates@,
                lo as int,
                hi as int,
            );
            lemma_sequence_candidates_exact(
                p as int,
                gm,
                gk,
                sequence_candidates@,
                hi as int,
            );
        }
        if within_tolerance(p, &divisor_candidates, k128) {
            divisor_covered += 1;
        } else if within_tolerance(p, &sequence_candidates, k128) {
            sequence_covered += 1;
        } else {
            proof {
                if uncovered_primes@.len() > 0 {
                    assert(uncovered_primes@.last() < p);
                    assert forall|t: int| 0 <= t < uncovered_primes@.len()
                        implies #[trigger] uncovered_primes@[t] < p by {
                        if t < uncovered_primes@.len() - 1 {
                            assert(uncovered_primes@[t] < uncovered_primes@.last());
                        }
                    }
                }
                assert(int_view(uncovered_primes@.push(p)) =~= int_view(uncovered_primes@).push(
                    p as int,
                ));
            }
            uncovered_count += 1;
            uncovered_primes.push(p);
        }
        idx += 1;
    }
    proof {
        assert(kept.take(primes@.len() as int) =~= kept);
    }

    ScaleReport {
        range_start,
        range_end,
        total_primes: primes.len(),
        divisor_covered,
        sequence_covered,
        uncovered: uncovered_count,
        uncovered_primes,
        sampled: scan.sampled,
        truncated,
    }
}

} // verus!
