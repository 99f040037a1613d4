//! Empirical checker for a number-theoretic coverage conjecture: every prime
//! in the scaled range `((m-1)*360, m*360]` should lie within a fixed
//! tolerance `k` of either a divisor of `m*360` or a term of an auxiliary
//! triangular-increment sequence. The library classifies every prime of a
//! scale's range and reports coverage counts and the uncovered primes.

pub mod arith;
pub mod coverage;
pub mod divisors;
pub mod primality;
pub mod primes;
pub mod proximity;
pub mod sequence;

pub use arith::saturating_sub;
pub use coverage::{evaluate_scale, ScaleReport};
pub use divisors::divisors;
pub use primality::is_prime;
pub use primes::{primes_in_range, RangePrimes};
pub use proximity::within_tolerance;
pub use sequence::sequence_terms;
