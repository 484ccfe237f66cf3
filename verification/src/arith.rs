//! Small integer facts shared by the modules that scale by powers of two.

use vstd::arithmetic::power2::{
    lemma2_to64, lemma2_to64_rest, lemma_pow2_adds, lemma_pow2_pos, lemma_pow2_strictly_increases,
    lemma_pow2_unfold, pow2,
};
use vstd::prelude::*;

verus! {

/// Two to the power `n`.
pub(crate) fn power_of_two(n: u32) -> (value: u128)
    requires
        n <= 100,
    ensures
        value == pow2(n as nat),
{
    let mut value: u128 = 1;
    let mut i: u32 = 0;
    proof {
        lemma2_to64();
    }
    while i < n
        invariant
            i <= n <= 100,
            value == pow2(i as nat),
        decreases n - i,
    {
        proof {
            lemma2_to64();
            lemma2_to64_rest();
            lemma_pow2_adds(64, 36);
            lemma_pow2_unfold((i + 1) as nat);
            lemma_pow2_at_most((i + 1) as nat, 100);
        }
        value = value * 2;
        i = i + 1;
    }
    value
}

pub(crate) proof fn lemma_pow2_at_most(a: nat, b: nat)
    requires
        a <= b,
    ensures
        1 <= pow2(a) <= pow2(b),
{
    lemma_pow2_pos(a);
    if a < b {
        lemma_pow2_strictly_increases(a, b);
    }
}

/// The size of a number.
pub open spec fn size(x: int) -> nat {
    if x < 0 {
        (-x) as nat
    } else {
        x as nat
    }
}

/// A number held within `limit` of zero.
pub open spec fn within(x: int, limit: int) -> int {
    if x > limit {
        limit
    } else if x < -limit {
        -limit
    } else {
        x
    }
}

/// A quotient rounded towards zero.
pub open spec fn toward_zero(x: int, d: int) -> int {
    if x < 0 {
        -((-x) / d)
    } else {
        x / d
    }
}

/// A quotient rounded towards zero.
pub(crate) fn quotient(x: i128, d: i128) -> (q: i128)
    requires
        d > 0,
        x > i128::MIN,
    ensures
        q == toward_zero(x as int, d as int),
        size(q as int) <= size(x as int),
{
    if x < 0 {
        let y: i128 = -x;
        assert(0 <= y as int / d as int <= y) by (nonlinear_arith)
            requires
                y >= 0,
                d > 0,
        ;
        -(y / d)
    } else {
        assert(0 <= x as int / d as int <= x) by (nonlinear_arith)
            requires
                x >= 0,
                d > 0,
        ;
        x / d
    }
}

/// A quotient of sums lies where the terms' quotients lie.
pub(crate) proof fn lemma_mean_within(offsets: int, weights: int, low: int, high: int)
    requires
        weights > 0,
        low * weights <= offsets <= high * weights,
    ensures
        low <= toward_zero(offsets, weights) <= high,
{
    if offsets < 0 {
        let y = -offsets;
        assert((-low) * weights == -(low * weights) && (-high) * weights == -(high * weights))
            by (nonlinear_arith);
        assert(y / weights <= -low) by (nonlinear_arith)
            requires
                y <= (-low) * weights,
                weights > 0,
        ;
        assert(y / weights >= -high) by (nonlinear_arith)
            requires
                y >= (-high) * weights,
                weights > 0,
        ;
    } else {
        assert(low <= offsets / weights <= high) by (nonlinear_arith)
            requires
                low * weights <= offsets <= high * weights,
                weights > 0,
        ;
    }
}

} // verus!
