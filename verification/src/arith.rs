//! Shared arithmetic vocabulary: divisibility, primality and absolute
//! difference over mathematical integers, and the small lemmas about them
//! that the rest of the library leans on.

use vstd::prelude::*;

verus! {

/// `d` is a positive divisor of `n`.
pub open spec fn is_divisor_of(d: int, n: int) -> bool {
    1 <= d <= n && n % d == 0
}

/// Primality of a mathematical integer: at least 2, with no divisor strictly
/// between 1 and itself. This is the trial-division definition.
pub open spec fn is_prime_int(n: int) -> bool {
    n >= 2 && forall|d: int| 2 <= d < n ==> #[trigger] (n % d) != 0
}

/// Absolute difference of two integers.
pub open spec fn abs_diff_int(a: int, b: int) -> int {
    if a >= b {
        a - b
    } else {
        b - a
    }
}

/// The sequence holds the value `v` at some position.
pub open spec fn holds_value(s: Seq<u128>, v: int) -> bool {
    exists|i: int| 0 <= i < s.len() && s[i] as int == v
}

/// The sequence is sorted in strictly increasing order (hence duplicate-free).
pub open spec fn strictly_increasing(s: Seq<u128>) -> bool {
    forall|i: int, j: int| 0 <= i < j < s.len() ==> s[i] < s[j]
}

/// The view of a sequence of machine integers as mathematical integers.
pub open spec fn int_view(s: Seq<u128>) -> Seq<int> {
    s.map_values(|x: u128| x as int)
}

/// Subtraction on `u128` that yields zero instead of wrapping below zero.
pub fn saturating_sub(a: u128, b: u128) -> (r: u128)
    ensures
        r as int == if a as int >= b as int { a as int - b as int } else { 0int },
{
    if a > b {
        a - b
    } else {
        0
    }
}

/// Pushing onto a sequence adds exactly one value to what it holds.
pub proof fn lemma_holds_value_push(s: Seq<u128>, x: u128)
    ensures
        forall|d: int| #[trigger]
            holds_value(s.push(x), d) <==> (holds_value(s, d) || x as int == d),
{
    assert forall|d: int| #[trigger]
        holds_value(s.push(x), d) <==> (holds_value(s, d) || x as int == d) by {
        if holds_value(s.push(x), d) {
            let i = choose|i: int| 0 <= i < s.push(x).len() && s.push(x)[i] as int == d;
            if i < s.len() {
                assert(s[i] as int == d);
            }
        }
        if holds_value(s, d) {
            let i = choose|i: int| 0 <= i < s.len() && s[i] as int == d;
            assert(s.push(x)[i] as int == d);
        }
        if x as int == d {
            assert(s.push(x)[s.len() as int] as int == d);
        }
    }
}

/// A positive divisor pairs with its cofactor: if `d` divides `n`, then
/// `n / d` divides `n` as well, and dividing `n` by the cofactor gives `d`
/// back.
pub proof fn lemma_cofactor(d: int, n: int)
    requires
        is_divisor_of(d, n),
    ensures
        is_divisor_of(n / d, n),
        n / (n / d) == d,
        d * (n / d) == n,
{
    vstd::arithmetic::div_mod::lemma_fundamental_div_mod(n, d);
    let c = n / d;
    assert(n == d * c);
    assert(1 <= c <= n) by (nonlinear_arith)
        requires
            n == d * c,
            1 <= d <= n,
    ;
    assert(n == c * d + 0) by (nonlinear_arith)
        requires
            n == d * c,
    ;
    vstd::arithmetic::div_mod::lemma_fundamental_div_mod_converse_mod(n, c, d, 0);
    vstd::arithmetic::div_mod::lemma_fundamental_div_mod_converse_div(n, c, d, 0);
}

/// Among the two members of a divisor pair, exactly the smaller one (up to a
/// tie at the square root) satisfies `d * d <= n`.
pub proof fn lemma_divisor_pair_split(d: int, n: int)
    requires
        is_divisor_of(d, n),
        d * d > n,
    ensures
        is_divisor_of(n / d, n),
        (n / d) * (n / d) <= n,
        n / d < d,
{
    lemma_cofactor(d, n);
    let c = n / d;
    assert(c * c <= n && c < d) by (nonlinear_arith)
        requires
            n == d * c,
            1 <= d <= n,
            1 <= c <= n,
            d * d > n,
    ;
}

} // verus!
