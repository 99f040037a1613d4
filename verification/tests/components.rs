use prime_coverage::primality::{verdict_says_prime, PrimalityVerdict};
use prime_coverage::{divisors, is_prime, primes_in_range, saturating_sub, sequence_terms,
    within_tolerance};

/// Reference trial-division primality test.
fn trial_division_is_prime(n: u128) -> bool {
    if n < 2 {
        return false;
    }
    let mut d: u128 = 2;
    while d < n {
        if n % d == 0 {
            return false;
        }
        d += 1;
    }
    true
}

/// Reference divisor enumeration by scanning every candidate.
fn reference_divisors(n: u128) -> Vec<u128> {
    let mut out = Vec::new();
    let mut d: u128 = 1;
    while d <= n {
        if n % d == 0 {
            out.push(d);
        }
        d += 1;
    }
    out
}

#[test]
fn divisors_of_360() {
    let expected: Vec<u128> = vec![
        1, 2, 3, 4, 5, 6, 8, 9, 10, 12, 15, 18, 20, 24, 30, 36, 40, 45, 60, 72, 90, 120, 180, 360,
    ];
    assert_eq!(divisors(360), expected);
}

#[test]
fn divisors_of_one_and_primes() {
    assert_eq!(divisors(1), vec![1]);
    assert_eq!(divisors(2), vec![1, 2]);
    assert_eq!(divisors(7), vec![1, 7]);
}

#[test]
fn divisors_of_perfect_square() {
    assert_eq!(divisors(36), vec![1, 2, 3, 4, 6, 9, 12, 18, 36]);
}

#[test]
fn divisors_match_reference_for_small_inputs() {
    for n in 1u128..=200 {
        let got = divisors(n);
        assert_eq!(got, reference_divisors(n), "divisors({}) differ", n);
        assert!(got.first() == Some(&1));
        assert!(got.last() == Some(&n));
        for w in got.windows(2) {
            assert!(w[0] < w[1], "divisors({}) not strictly ascending", n);
        }
    }
}

#[test]
fn is_prime_agrees_with_trial_division_up_to_ten_thousand() {
    for n in 0u128..=10_000 {
        assert_eq!(is_prime(n), trial_division_is_prime(n), "disagreement at {}", n);
    }
}

#[test]
fn is_prime_on_word_sized_values() {
    assert!(!is_prime(0));
    assert!(!is_prime(1));
    assert!(is_prime(2));
    assert!(is_prime(3));
    assert!(is_prime(7919));
    assert!(!is_prime(7917));
    // the largest prime below 2^64 and an even neighbour
    assert!(is_prime(18_446_744_073_709_551_557));
    assert!(!is_prime(18_446_744_073_709_551_556));
}

#[test]
fn is_prime_beyond_the_machine_word() {
    // 2^64 is even, so the probabilistic test certifies it composite.
    assert!(!is_prime(1u128 << 64));
    // 2^64 + 1 = 274177 * 67280421310721: composite, certified by a failed
    // strong-probable-prime test.
    assert!(!is_prime((1u128 << 64) + 1));
    // 2^89 - 1 is a Mersenne prime, but beyond 2^64 the oracle only reports
    // certified primes, and a probable prime is not certified.
    assert!(!is_prime((1u128 << 89) - 1));
}

#[test]
fn only_a_certified_prime_verdict_counts() {
    assert!(verdict_says_prime(PrimalityVerdict::Prime));
    assert!(!verdict_says_prime(PrimalityVerdict::Composite));
    assert!(!verdict_says_prime(PrimalityVerdict::ProbablyPrime));
}

#[test]
fn sequence_terms_small_exact() {
    assert_eq!(sequence_terms(5, 20), vec![5, 7, 10, 14, 19]);
}

#[test]
fn sequence_terms_empty_when_base_exceeds_ceiling() {
    assert_eq!(sequence_terms(10, 9), Vec::<u128>::new());
}

#[test]
fn sequence_terms_shape() {
    let base: u128 = 181;
    let ceiling: u128 = 541;
    let terms = sequence_terms(base, ceiling);
    assert_eq!(terms[0], base);
    for w in terms.windows(2) {
        assert!(w[0] < w[1]);
    }
    for &t in &terms {
        assert!(t <= ceiling);
    }
    // the term after the last one would exceed the ceiling
    let next = terms[terms.len() - 1] + terms.len() as u128 + 1;
    assert!(next > ceiling);
    // closed form: term i is base + (i+1)(i+2)/2 - 1
    for (i, &t) in terms.iter().enumerate() {
        let i = i as u128;
        assert_eq!(t, base + (i + 1) * (i + 2) / 2 - 1);
    }
}

#[test]
fn within_tolerance_empty_set_is_false() {
    assert!(!within_tolerance(100, &Vec::new(), 1_000_000));
}

#[test]
fn within_tolerance_boundary_cases() {
    let candidates: Vec<u128> = vec![10, 50, 90];
    assert!(within_tolerance(53, &candidates, 3));
    assert!(!within_tolerance(54, &candidates, 3));
    assert!(within_tolerance(50, &candidates, 0));
    assert!(!within_tolerance(51, &candidates, 0));
    assert!(within_tolerance(7, &candidates, 3));
    assert!(within_tolerance(93, &candidates, 3));
    assert!(!within_tolerance(94, &candidates, 3));
}

#[test]
fn primes_in_range_matches_reference_sieve() {
    let scan = primes_in_range(1, 360);
    assert!(!scan.sampled);
    let mut expected: Vec<u128> = Vec::new();
    for n in 2u128..=360 {
        if trial_division_is_prime(n) {
            expected.push(n);
        }
    }
    assert_eq!(scan.primes, expected);
    assert_eq!(scan.primes.len(), 72);
}

#[test]
fn primes_in_range_boundaries() {
    // half-open at the bottom, closed at the top
    assert_eq!(primes_in_range(0, 2).primes, vec![2]);
    assert_eq!(primes_in_range(2, 3).primes, vec![3]);
    assert_eq!(primes_in_range(89, 97).primes, vec![97]);
    assert_eq!(primes_in_range(7, 7).primes, Vec::<u128>::new());
    assert_eq!(primes_in_range(24, 28).primes, Vec::<u128>::new());
}

#[test]
fn primes_in_range_beyond_the_machine_word() {
    // a narrow range wholly beyond 2^64: scanned odd by odd, not sampled,
    // and empty, since the oracle certifies no prime beyond the machine word
    let start: u128 = 1u128 << 64;
    let scan = primes_in_range(start, start + 1000);
    assert!(!scan.sampled);
    assert_eq!(scan.primes, Vec::<u128>::new());
}

#[test]
fn primes_in_range_straddling_the_machine_word() {
    // a narrow range straddling 2^64: every machine-word prime of the range
    // is found. 2^64 - 59 is the largest prime below 2^64, and nothing
    // beyond the machine word is certified, so it is the only find.
    let start: u128 = (1u128 << 64) - 60;
    let end: u128 = start + 2000;
    let scan = primes_in_range(start, end);
    assert!(!scan.sampled);
    assert_eq!(scan.primes, vec![18_446_744_073_709_551_557]);
}

#[test]
fn saturating_sub_clamps_at_zero() {
    assert_eq!(saturating_sub(7, 5), 2);
    assert_eq!(saturating_sub(5, 7), 0);
    assert_eq!(saturating_sub(5, 5), 0);
    assert_eq!(saturating_sub(0, u128::MAX), 0);
}
