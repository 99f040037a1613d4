//! The divisor enumerator: every positive divisor of `n`, in ascending
//! order. Candidate divisors are tried up to the square root of `n`; each hit
//! also records its paired quotient, so the two halves of the divisor list
//! meet at the square root.

use vstd::prelude::*;

use crate::arith::{holds_value, is_divisor_of, lemma_cofactor, lemma_divisor_pair_split,
    lemma_holds_value_push, strictly_increasing};

verus! {

/// Of two positive integers, the one whose square is at most `n` is smaller
/// than the one whose square exceeds `n`.
proof fn lemma_sq_compare(a: int, b: int, n: int)
    by (nonlinear_arith)
    requires
        a >= 1,
        b >= 1,
        a * a <= n,
        b * b > n,
    ensures
        a < b,
{
}

/// Divisors are ordered inversely to their cofactors.
proof fn lemma_cofactor_order(l: int, q: int, n: int)
    requires
        is_divisor_of(l, n),
        is_divisor_of(q, n),
        n / l < n / q,
    ensures
        l > q,
{
    lemma_cofactor(l, n);
    lemma_cofactor(q, n);
    assert(l > q) by (nonlinear_arith)
        requires
            n == l * (n / l),
            n == q * (n / q),
            1 <= n / l,
            1 <= n / q,
            n / l < n / q,
            l >= 1,
            q >= 1,
    ;
}

/// A candidate no greater than its quotient has a square at most `n`.
proof fn lemma_candidate_below_root(i: int, n: int)
    requires
        i >= 1,
        n >= 0,
        i <= n / i,
    ensures
        i * i <= n,
{
    vstd::arithmetic::div_mod::lemma_fundamental_div_mod(n, i);
    assert(i * i <= n) by (nonlinear_arith)
        requires
            n == i * (n / i) + n % i,
            0 <= n % i,
            i <= n / i,
            i >= 1,
    ;
}

/// A candidate greater than its quotient has a square exceeding `n`.
proof fn lemma_candidate_above_root(i: int, n: int)
    requires
        i >= 1,
        n >= 0,
        i > n / i,
    ensures
        i * i > n,
{
    vstd::arithmetic::div_mod::lemma_fundamental_div_mod(n, i);
    assert(i * i > n) by (nonlinear_arith)
        requires
            n == i * (n / i) + n % i,
            n % i < i,
            i > n / i,
            i >= 1,
    ;
}

/// One and `n` itself divide every positive `n`: with the contract of
/// `divisors`, both are always among the enumerated divisors.
pub proof fn lemma_one_and_self_divide(n: int)
    requires
        n >= 1,
    ensures
        is_divisor_of(1, n),
        is_divisor_of(n, n),
{
    vstd::arithmetic::div_mod::lemma_mod_self_0(n);
    assert(n % 1 == 0) by (nonlinear_arith)
        requires
            n >= 1,
    ;
}

/// All positive divisors of `n`, sorted in strictly ascending order (so
/// duplicate-free); `1` and `n` are always among them.
#[verifier::loop_isolation(false)]
pub fn divisors(n: u128) -> (r: Vec<u128>)
    requires
        n >= 1,
    ensures
        strictly_increasing(r@),
        forall|d: int| #[trigger] holds_value(r@, d) <==> is_divisor_of(d, n as int),
{
    let mut small: Vec<u128> = Vec::new();
    let mut large: Vec<u128> = Vec::new();
    let mut i: u128 = 1;
    while i <= n / i
        invariant
            n >= 1,
            1 <= i,
            strictly_increasing(small@),
            forall|t: int|
                0 <= t < small@.len() ==> is_divisor_of(#[trigger] small@[t] as int, n as int)
                    && small@[t] < i && (small@[t] as int) * (small@[t] as int) <= n as int,
            forall|d: int|
                1 <= d < i as int && #[trigger] is_divisor_of(d, n as int) ==> holds_value(
                    small@,
                    d,
                ),
            forall|a: int, b: int| 0 <= a < b < large@.len() ==> large@[a] > large@[b],
            forall|t: int|
                0 <= t < large@.len() ==> is_divisor_of(#[trigger] large@[t] as int, n as int) && (
                large@[t] as int) * (large@[t] as int) > n as int && n as int / (large@[t] as int)
                    < i as int,
            forall|d: int|
                #[trigger] is_divisor_of(d, n as int) && d * d > n as int && 1 <= n as int / d
                    < i as int ==> holds_value(large@, d),
        decreases n as int - i as int + 1,
    {
        proof {
            lemma_candidate_below_root(i as int, n as int);
            assert(i < u128::MAX) by (nonlinear_arith)
                requires
                    i >= 1,
                    (i as int) * (i as int) <= u128::MAX as int,
            ;
            assert(i <= n) by (nonlinear_arith)
                requires
                    i >= 1,
                    (i as int) * (i as int) <= n as int,
            ;
        }
        if n % i == 0 {
            proof {
                lemma_holds_value_push(small@, i);
            }
            small.push(i);
            let q = n / i;
            if q != i {
                proof {
                    lemma_cofactor(i as int, n as int);
                    assert((q as int) * (q as int) > n as int) by (nonlinear_arith)
                        requires
                            n as int == (i as int) * (q as int),
                            q > i,
                            i >= 1,
                    ;
                    assert forall|t: int| 0 <= t < large@.len() implies large@[t] > q by {
                        lemma_cofactor_order(large@[t] as int, q as int, n as int);
                    }
                    lemma_holds_value_push(large@, q);
                    assert forall|d: int|
                        #[trigger] is_divisor_of(d, n as int) && d * d > n as int && 1 <= n as int
                            / d < i as int + 1 implies holds_value(large@.push(q), d) by {
                        if n as int / d == i as int {
                            lemma_cofactor(d, n as int);
                            assert(d == q as int);
                        }
                    }
                }
                large.push(q);
            } else {
                proof {
                    assert forall|d: int|
                        #[trigger] is_divisor_of(d, n as int) && d * d > n as int && 1 <= n as int
                            / d < i as int + 1 implies holds_value(large@, d) by {
                        if n as int / d == i as int {
                            lemma_cofactor(d, n as int);
                            assert(d == q as int);
                            assert((i as int) * (i as int) <= n as int);
                        }
                    }
                }
            }
        } else {
            proof {
                assert forall|d: int|
                    #[trigger] is_divisor_of(d, n as int) && d * d > n as int && 1 <= n as int / d
                        < i as int + 1 implies holds_value(large@, d) by {
                    if n as int / d == i as int {
                        lemma_cofactor(d, n as int);
                        assert(n as int == d * (i as int));
                        vstd::arithmetic::div_mod::lemma_fundamental_div_mod_converse_mod(
                            n as int,
                            i as int,
                            d,
                            0,
                        );
                    }
                }
            }
        }
        i += 1;
    }
    proof {
        lemma_candidate_above_root(i as int, n as int);
    }
    let ghost small0 = small@;
    let ghost lseq = large@;
    proof {
        assert forall|t: int, u: int|
            0 <= t < small0.len() && 0 <= u < lseq.len() implies small0[t] < lseq[u] by {
            lemma_sq_compare(small0[t] as int, lseq[u] as int, n as int);
        }
    }
    let mut j: usize = large.len();
    while j > 0
        invariant
            j <= large@.len(),
            large@ == lseq,
            strictly_increasing(small@),
            forall|t: int|
                0 <= t < small@.len() ==> is_divisor_of(#[trigger] small@[t] as int, n as int),
            forall|t: int, u: int|
                0 <= t < small@.len() && 0 <= u < j ==> #[trigger] small@[t] < #[trigger] lseq[u],
            forall|d: int|
                #[trigger] holds_value(small@, d) <==> holds_value(small0, d) || exists|u: int|
                    j <= u < lseq.len() && lseq[u] as int == d,
        decreases j,
    {
        j -= 1;
        let x = large[j];
        proof {
            lemma_holds_value_push(small@, x);
            assert forall|d: int|
                #[trigger] holds_value(small@.push(x), d) <==> holds_value(small0, d) || exists|
                u: int,
            | j <= u < lseq.len() && lseq[u] as int == d by {
                if holds_value(small0, d) || exists|u: int| j <= u < lseq.len() && lseq[u] as int
                    == d {
                    if !holds_value(small@, d) && x as int != d {
                        let u = choose|u: int| j <= u < lseq.len() && lseq[u] as int == d;
                        assert(u >= j + 1);
                    }
                }
            }
        }
        small.push(x);
    }
    proof {
        assert forall|d: int| #[trigger] holds_value(small@, d) <==> is_divisor_of(
            d,
            n as int,
        ) by {
            if holds_value(small@, d) {
                if holds_value(small0, d) {
                    let t = choose|t: int| 0 <= t < small0.len() && small0[t] as int == d;
                    assert(is_divisor_of(small0[t] as int, n as int));
                } else {
                    let u = choose|u: int| 0 <= u < lseq.len() && lseq[u] as int == d;
                    assert(is_divisor_of(lseq[u] as int, n as int));
                }
            }
            if is_divisor_of(d, n as int) {
                if d * d <= n as int {
                    lemma_sq_compare(d, i as int, n as int);
                } else {
                    lemma_divisor_pair_split(d, n as int);
                    lemma_sq_compare(n as int / d, i as int, n as int);
                    assert(exists|u: int| 0 <= u < lseq.len() && lseq[u] as int == d);
                }
            }
        }
    }
    small
}

} // verus!
