//! Floor division and powers of two over all integers, negative ones included.

use vstd::arithmetic::div_mod::*;
use vstd::arithmetic::power2::*;
use vstd::prelude::*;

verus! {

/// `2^e` as an integer. An exponent below zero counts as zero.
pub open spec fn exp2(e: int) -> int {
    pow2(
        if e < 0 {
            0
        } else {
            e as nat
        },
    ) as int
}

/// Powers of two are positive, and each is twice the one before.
pub proof fn lemma_exp2_step(e: int)
    requires
        0 <= e,
    ensures
        exp2(e) > 0,
        exp2(e + 1) == 2 * exp2(e),
        exp2(0) == 1,
{
    lemma_pow2_pos(e as nat);
    lemma_pow2_unfold((e + 1) as nat);
    lemma2_to64();
}

/// `2^(a+b) = 2^a * 2^b`.
pub proof fn lemma_exp2_adds(a: int, b: int)
    requires
        0 <= a,
        0 <= b,
    ensures
        exp2(a + b) == exp2(a) * exp2(b),
        exp2(a) > 0,
        exp2(b) > 0,
{
    lemma_pow2_adds(a as nat, b as nat);
    lemma_pow2_pos(a as nat);
    lemma_pow2_pos(b as nat);
}

/// Powers of two grow with the exponent.
pub proof fn lemma_exp2_monotonic(a: int, b: int)
    requires
        0 <= a <= b,
    ensures
        0 < exp2(a) <= exp2(b),
{
    lemma_pow2_pos(a as nat);
    if a < b {
        lemma_pow2_strictly_increases(a as nat, b as nat);
    }
}

/// A quotient and a remainder that fit are the quotient and the remainder.
pub proof fn lemma_div_mod_unique(x: int, d: int, q: int, r: int)
    requires
        0 < d,
        0 <= r < d,
        x == q * d + r,
    ensures
        x / d == q,
        x % d == r,
{
    lemma_fundamental_div_mod_converse(x, d, q, r);
}

/// Dividing by `c` and then by `d` divides by `c * d`, and the remainder by
/// `c * d` splits accordingly. Holds for negative `x` too.
pub proof fn lemma_div_div(x: int, c: int, d: int)
    requires
        0 < c,
        0 < d,
    ensures
        0 < c * d,
        (x / c) / d == x / (c * d),
        x % (c * d) == c * ((x / c) % d) + x % c,
{
    let q1 = x / c;
    let r1 = x % c;
    let q2 = q1 / d;
    let r2 = q1 % d;
    lemma_fundamental_div_mod(x, c);
    lemma_fundamental_div_mod(q1, d);
    lemma_mod_bound(x, c);
    lemma_mod_bound(q1, d);
    let r = c * r2 + r1;
    assert(0 < c * d) by (nonlinear_arith)
        requires
            0 < c,
            0 < d,
    ;
    assert(0 <= r < c * d) by (nonlinear_arith)
        requires
            0 <= r1 < c,
            0 <= r2 < d,
            r == c * r2 + r1,
    ;
    assert(x == q2 * (c * d) + r) by (nonlinear_arith)
        requires
            x == c * q1 + r1,
            q1 == d * q2 + r2,
            r == c * r2 + r1,
    ;
    lemma_div_mod_unique(x, c * d, q2, r);
}

} // verus!
