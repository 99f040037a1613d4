//! The primality oracle. Machine-word values go through an exact
//! deterministic test; larger values go through a probabilistic test, and
//! only a verdict it certifies counts as prime. The test certifies no prime
//! beyond the machine word, so there the oracle answers `false`.

use vstd::prelude::*;

use crate::arith::is_prime_int;

verus! {

/// The answer of the probabilistic primality test. Only `Prime` is a
/// certified answer: beyond the machine word the test draws random witnesses,
/// so the library relies on nothing about the other two verdicts.
#[derive(Clone, Copy, PartialEq, Eq, Structural, Debug)]
pub enum PrimalityVerdict {
    Prime,
    Composite,
    ProbablyPrime,
}

/// Relies on primal::is_prime (primal_check::miller_rabin): a deterministic
/// Miller-Rabin test whose fixed witness tables cover the whole of `u64`, so
/// its answer is exact for every input.
#[verifier::external_body]
fn word_is_prime(n: u64) -> (r: bool)
    ensures
        r == is_prime_int(n as int),
{
    primal::is_prime(n)
}

/// Relies on num_prime::nt_funcs::is_prime with the default configuration.
/// `Primality::Yes` comes back only from its deterministic paths (the even
/// shortcut, or the exact test it runs for every input below 2^64), so a
/// `Prime` verdict certifies primality and is never returned above the
/// machine word. Above 2^64 the test runs strong-probable-prime rounds with
/// fixed and random witnesses; a randomly drawn witness can make a round
/// fail even on a prime, so nothing is promised of the other verdicts.
#[verifier::external_body]
fn probabilistic_is_prime(n: u128) -> (r: PrimalityVerdict)
    ensures
        r == PrimalityVerdict::Prime ==> is_prime_int(n as int),
        n > u64::MAX ==> r != PrimalityVerdict::Prime,
{
    match num_prime::nt_funcs::is_prime(&n, None) {
        num_prime::Primality::Yes => PrimalityVerdict::Prime,
        num_prime::Primality::No => PrimalityVerdict::Composite,
        num_prime::Primality::Probable(_) => PrimalityVerdict::ProbablyPrime,
    }
}

/// Turns a verdict into the oracle's answer: only a certified prime counts.
/// An uncertain verdict is treated as composite, so the oracle never calls a
/// composite number prime.
pub fn verdict_says_prime(v: PrimalityVerdict) -> (r: bool)
    ensures
        r == (v == PrimalityVerdict::Prime),
{
    match v {
        PrimalityVerdict::Prime => true,
        PrimalityVerdict::Composite => false,
        PrimalityVerdict::ProbablyPrime => false,
    }
}

/// Decides whether `n` is prime. Exact for every machine-word value. Beyond
/// the machine word only a certified prime would count, and the probabilistic
/// test never certifies one there, so the answer is `false`: the oracle is a
/// deterministic function of `n` over its whole domain, and a `true` answer
/// is always a prime.
pub fn is_prime(n: u128) -> (r: bool)
    ensures
        n <= u64::MAX ==> r == is_prime_int(n as int),
        n > u64::MAX ==> !r,
        r ==> is_prime_int(n as int),
{
    if n <= 1 {
        false
    } else if n <= u64::MAX as u128 {
        word_is_prime(n as u64)
    } else {
        let verdict = probabilistic_is_prime(n);
        verdict_says_prime(verdict)
    }
}

} // verus!
