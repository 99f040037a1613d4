use prime_coverage::evaluate_scale;

/// Reference trial-division primality test.
fn is_prime_ref(n: u128) -> bool {
    if n < 2 {
        return false;
    }
    let mut d: u128 = 2;
    while d * d <= n {
        if n % d == 0 {
            return false;
        }
        d += 1;
    }
    true
}

/// Reference classification of one scale, computed exhaustively: returns
/// (total, divisor covered, sequence covered, uncovered primes).
fn reference_scale(m: u128, k: u128) -> (usize, usize, usize, Vec<u128>) {
    let range_start = if m == 1 { 1 } else { (m - 1) * 360 };
    let range_end = m * 360;
    let primes: Vec<u128> = (range_start + 1..=range_end).filter(|&n| is_prime_ref(n)).collect();

    let n = range_end;
    let divisor_candidates: Vec<u128> = (1..=n).filter(|&d| n % d == 0).collect();

    let base = if m == 1 { 181 } else { (m - 1) * 360 + 181 };
    let ceiling = range_end + k;
    let mut sequence_candidates = Vec::new();
    let mut term = base;
    let mut inc: u128 = 2;
    while term <= ceiling {
        sequence_candidates.push(term);
        term += inc;
        inc += 1;
    }

    let near = |p: u128, cands: &[u128]| {
        cands.iter().any(|&c| if p > c { p - c <= k } else { c - p <= k })
    };

    let mut divisor_covered = 0;
    let mut sequence_covered = 0;
    let mut uncovered = Vec::new();
    for &p in &primes {
        if near(p, &divisor_candidates) {
            divisor_covered += 1;
        } else if near(p, &sequence_candidates) {
            sequence_covered += 1;
        } else {
            uncovered.push(p);
        }
    }
    (primes.len(), divisor_covered, sequence_covered, uncovered)
}

#[test]
fn first_scale_with_proven_tolerance_matches_reference() {
    let report = evaluate_scale(1, 180, 100_000);
    let (total, div, seq, uncovered) = reference_scale(1, 180);
    assert_eq!(report.range_start, 1);
    assert_eq!(report.range_end, 360);
    assert_eq!(report.total_primes, total);
    assert_eq!(report.divisor_covered, div);
    assert_eq!(report.sequence_covered, seq);
    assert_eq!(report.uncovered, uncovered.len());
    assert_eq!(report.uncovered_primes, uncovered);
    assert!(!report.sampled);
    assert!(!report.truncated);
    // with k = 180 the divisor 180 alone covers the whole range, so nothing
    // is missed and divisor coverage takes precedence everywhere
    assert_eq!(report.uncovered, 0);
    assert_eq!(report.uncovered_primes, Vec::<u128>::new());
    assert_eq!(report.divisor_covered, report.total_primes);
    assert_eq!(report.total_primes, 72);
}

#[test]
fn second_scale_with_zero_tolerance_matches_reference() {
    let report = evaluate_scale(2, 0, 100_000);
    let (total, div, seq, uncovered) = reference_scale(2, 0);
    assert_eq!(report.range_start, 360);
    assert_eq!(report.range_end, 720);
    assert_eq!(report.total_primes, total);
    assert_eq!(report.divisor_covered, div);
    assert_eq!(report.sequence_covered, seq);
    assert_eq!(report.uncovered, uncovered.len());
    assert_eq!(report.uncovered_primes, uncovered);
    // zero tolerance is meaningfully stricter: most primes are uncovered
    assert!(report.uncovered > 0);
}

#[test]
fn evaluating_a_scale_twice_gives_identical_reports() {
    let a = evaluate_scale(3, 180, 100_000);
    let b = evaluate_scale(3, 180, 100_000);
    assert_eq!(a.range_start, b.range_start);
    assert_eq!(a.range_end, b.range_end);
    assert_eq!(a.total_primes, b.total_primes);
    assert_eq!(a.divisor_covered, b.divisor_covered);
    assert_eq!(a.sequence_covered, b.sequence_covered);
    assert_eq!(a.uncovered, b.uncovered);
    assert_eq!(a.uncovered_primes, b.uncovered_primes);
    assert_eq!(a.sampled, b.sampled);
    assert_eq!(a.truncated, b.truncated);
}

#[test]
fn classification_counts_always_add_up() {
    for m in 1u128..=8 {
        for &k in &[0u64, 1, 30, 180] {
            let report = evaluate_scale(m, k, 100_000);
            assert_eq!(
                report.divisor_covered + report.sequence_covered + report.uncovered,
                report.total_primes,
                "counts for m={}, k={} do not add up",
                m,
                k
            );
            assert_eq!(report.uncovered, report.uncovered_primes.len());
        }
    }
}

#[test]
fn oversized_prime_sets_are_truncated_and_flagged() {
    let report = evaluate_scale(1, 180, 10);
    assert!(report.truncated);
    assert_eq!(report.total_primes, 10);
    assert_eq!(
        report.divisor_covered + report.sequence_covered + report.uncovered,
        report.total_primes
    );
}

#[test]
fn uncovered_primes_are_uncovered_primes_of_the_range() {
    let report = evaluate_scale(5, 2, 100_000);
    for w in report.uncovered_primes.windows(2) {
        assert!(w[0] < w[1]);
    }
    let (_, _, _, uncovered) = reference_scale(5, 2);
    assert_eq!(report.uncovered_primes, uncovered);
    for &p in &report.uncovered_primes {
        assert!(report.range_start < p && p <= report.range_end);
        assert!(is_prime_ref(p));
    }
}
