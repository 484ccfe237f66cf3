//! How the past fades: one half to the power of an age in half-lives, in 40 bits
//! of fixed point.

use vstd::arithmetic::power2::{lemma2_to64, lemma_pow2_pos, lemma_pow2_unfold, pow2};
use vstd::prelude::*;

verus! {

/// One, 2^40.
pub const ONE: u64 = 0x100_0000_0000;

/// Half-lives are divided into 2^16 steps.
pub const STEP_BITS: u32 = 16;

/// Steps in one half-life.
pub const STEPS: u64 = 0x1_0000;

/// The square root of a number, rounded down.
pub open spec fn root(v: int) -> int {
    choose|r: int| is_floor_root(v, r)
}

/// Whether `r` is the square root of `v`, rounded down.
pub open spec fn is_floor_root(v: int, r: int) -> bool {
    0 <= r && r * r <= v < (r + 1) * (r + 1)
}

proof fn lemma_root(v: int, r: int)
    requires
        is_floor_root(v, r),
    ensures
        root(v) == r,
{
    let s = root(v);
    assert(is_floor_root(v, s));
    assert(s == r) by (nonlinear_arith)
        requires
            0 <= r,
            0 <= s,
            r * r <= v < (r + 1) * (r + 1),
            s * s <= v < (s + 1) * (s + 1),
    ;
}

/// One half to the power of 2^-n: one half itself, and then the square root of
/// the last, over and over.
pub open spec fn half_root(n: nat) -> int
    decreases n,
{
    if n == 0 {
        ONE as int / 2
    } else {
        root(half_root((n - 1) as nat) * ONE)
    }
}

/// One half to the power of `x` times 2^-n, rounded down at each step: the
/// binary digits of the exponent pick the roots that are multiplied.
pub open spec fn half_to(x: nat, n: nat) -> int
    decreases n,
{
    if n == 0 {
        ONE as int / pow2(x) as int
    } else {
        let rest = half_to(x / 2, (n - 1) as nat);
        if x % 2 == 1 {
            rest * half_root(n) / (ONE as int)
        } else {
            rest
        }
    }
}

/// What is left of one after a time, by a half-life that is not zero.
pub open spec fn fading(age: nat, halflife: nat) -> int {
    half_to(age * (STEPS as nat) / halflife, STEP_BITS as nat)
}

proof fn lemma_root_is(n: nat, last: int, r: int)
    requires
        n > 0,
        half_root((n - 1) as nat) == last,
        is_floor_root(last * ONE, r),
    ensures
        half_root(n) == r,
{
    lemma_root(last * ONE, r);
}

proof fn lemma_roots()
    ensures
        forall|n: nat| 1 <= n <= 16 ==> half_root(n) == #[trigger] root_at(n),
{
    lemma_root_is(1, 0x8000000000int, 0xb504f333f9int);
    lemma_root_is(2, 0xb504f333f9int, 0xd744fccad6int);
    lemma_root_is(3, 0xd744fccad6int, 0xeac0c6e7dcint);
    lemma_root_is(4, 0xeac0c6e7dcint, 0xf5257d1523int);
    lemma_root_is(5, 0xf5257d1523int, 0xfa83b2db71int);
    lemma_root_is(6, 0xfa83b2db71int, 0xfd3e0c0cf3int);
    lemma_root_is(7, 0xfd3e0c0cf3int, 0xfe9e115c7aint);
    lemma_root_is(8, 0xfe9e115c7aint, 0xff4ecb5950int);
    lemma_root_is(9, 0xff4ecb5950int, 0xffa756521bint);
    lemma_root_is(10, 0xffa756521bint, 0xffd3a751c0int);
    lemma_root_is(11, 0xffd3a751c0int, 0xffe9d2b2f7int);
    lemma_root_is(12, 0xffe9d2b2f7int, 0xfff4e91bfeint);
    lemma_root_is(13, 0xfff4e91bfeint, 0xfffa747e9fint);
    lemma_root_is(14, 0xfffa747e9fint, 0xfffd3a3b77int);
    lemma_root_is(15, 0xfffd3a3b77int, 0xfffe9d1cc5int);
    lemma_root_is(16, 0xfffe9d1cc5int, 0xffff4e8e25int);
    assert forall|n: nat| 1 <= n <= 16 implies half_root(n) == #[trigger] root_at(n) by {
    }
}

/// The roots, one after the other.
spec fn root_at(n: nat) -> int {
    if n == 1 {
        0xb504f333f9int
    } else if n == 2 {
        0xd744fccad6int
    } else if n == 3 {
        0xeac0c6e7dcint
    } else if n == 4 {
        0xf5257d1523int
    } else if n == 5 {
        0xfa83b2db71int
    } else if n == 6 {
        0xfd3e0c0cf3int
    } else if n == 7 {
        0xfe9e115c7aint
    } else if n == 8 {
        0xff4ecb5950int
    } else if n == 9 {
        0xffa756521bint
    } else if n == 10 {
        0xffd3a751c0int
    } else if n == 11 {
        0xffe9d2b2f7int
    } else if n == 12 {
        0xfff4e91bfeint
    } else if n == 13 {
        0xfffa747e9fint
    } else if n == 14 {
        0xfffd3a3b77int
    } else if n == 15 {
        0xfffe9d1cc5int
    } else {
        0xffff4e8e25int
    }
}

fn root_of(n: u32) -> (r: u64)
    requires
        1 <= n <= 16,
    ensures
        r == half_root(n as nat),
        r <= ONE,
{
    proof {
        lemma_roots();
        assert(half_root(n as nat) == root_at(n as nat));
    }
    match n {
        1 => 0xb504f333f9,
        2 => 0xd744fccad6,
        3 => 0xeac0c6e7dc,
        4 => 0xf5257d1523,
        5 => 0xfa83b2db71,
        6 => 0xfd3e0c0cf3,
        7 => 0xfe9e115c7a,
        8 => 0xff4ecb5950,
        9 => 0xffa756521b,
        10 => 0xffd3a751c0,
        11 => 0xffe9d2b2f7,
        12 => 0xfff4e91bfe,
        13 => 0xfffa747e9f,
        14 => 0xfffd3a3b77,
        15 => 0xfffe9d1cc5,
        _ => 0xffff4e8e25,
    }
}

/// What is left is between nothing and all of it.
pub proof fn lemma_half_to_bounds(x: nat, n: nat)
    requires
        n <= 16,
    ensures
        0 <= half_to(x, n) <= ONE,
    decreases n,
{
    if n == 0 {
        lemma_pow2_pos(x);
        let p = pow2(x) as int;
        assert(0 <= ONE as int / p <= ONE) by (nonlinear_arith)
            requires
                p >= 1,
        ;
    } else {
        lemma_half_to_bounds(x / 2, (n - 1) as nat);
        lemma_roots();
        assert(half_root(n) == root_at(n));
        let a = half_to(x / 2, (n - 1) as nat);
        let c = half_root(n);
        assert(0 <= a * c / (ONE as int) <= ONE) by (nonlinear_arith)
            requires
                0 <= a <= ONE,
                0 <= c <= ONE,
        ;
    }
}

/// One over a power of two, in fixed point.
fn halved(x: u128) -> (h: u64)
    ensures
        h == ONE as int / pow2(x as nat) as int,
{
    let mut h: u64 = ONE;
    let mut i: u128 = 0;
    proof {
        lemma2_to64();
        assert(ONE as int / 1 == ONE);
    }
    while i < x && h > 0
        invariant
            i <= x,
            h == ONE as int / pow2(i as nat) as int,
        decreases x - i,
    {
        proof {
            lemma_pow2_unfold((i + 1) as nat);
            lemma_pow2_pos(i as nat);
            let p = pow2(i as nat) as int;
            assert(ONE as int / (2 * p) == ONE as int / p / 2) by {
                vstd::arithmetic::div_mod::lemma_div_denominator(ONE as int, p, 2);
                assert(p * 2 == 2 * p);
            }
        }
        h = h / 2;
        i = i + 1;
    }
    proof {
        if i < x {
            vstd::arithmetic::power2::lemma_pow2_strictly_increases(i as nat, x as nat);
            lemma_pow2_pos(i as nat);
            let p = pow2(i as nat) as int;
            let q = pow2(x as nat) as int;
            assert(ONE as int / q == 0) by (nonlinear_arith)
                requires
                    ONE as int / p == 0,
                    0 < p <= q,
            ;
        }
    }
    h
}

fn half_to_the(x: u128, n: u32) -> (h: u64)
    requires
        n <= 16,
    ensures
        h == half_to(x as nat, n as nat),
        h <= ONE,
    decreases n,
{
    proof {
        lemma_half_to_bounds(x as nat, n as nat);
    }
    if n == 0 {
        return halved(x);
    }
    let rest: u64 = half_to_the(x / 2, n - 1);
    if x % 2 == 1 {
        let c: u64 = root_of(n);
        proof {
            assert(0 <= rest * c <= ONE * ONE) by (nonlinear_arith)
                requires
                    0 <= rest <= ONE,
                    0 <= c <= ONE,
            ;
        }
        (rest as u128 * c as u128 / ONE as u128) as u64
    } else {
        rest
    }
}

/// What is left of a full weight after `age`, where half of it is gone after
/// `halflife`.
pub fn faded(age: u64, halflife: u64) -> (left: u64)
    requires
        halflife > 0,
    ensures
        left == fading(age as nat, halflife as nat),
        left <= ONE,
{
    let steps: u128 = age as u128 * STEPS as u128 / halflife as u128;
    half_to_the(steps, STEP_BITS)
}

/// After each half-life, half of what was there is left.
pub proof fn each_half_life_halves(k: nat, halflife: nat)
    requires
        halflife > 0,
    ensures
        fading(k * halflife, halflife) == ONE as int / pow2(k) as int,
        fading((k + 1) * halflife, halflife) == fading(k * halflife, halflife) / 2,
{
    lemma_whole(k, halflife);
    lemma_whole(k + 1, halflife);
    lemma_pow2_unfold(k + 1);
    lemma_pow2_pos(k);
    let p = pow2(k) as int;
    vstd::arithmetic::div_mod::lemma_div_denominator(ONE as int, p, 2);
    assert(p * 2 == pow2(k + 1));
}

proof fn lemma_whole(k: nat, halflife: nat)
    requires
        halflife > 0,
    ensures
        fading(k * halflife, halflife) == ONE as int / pow2(k) as int,
{
    let steps = k * (STEPS as nat);
    assert(k * halflife * (STEPS as nat) / halflife == steps) by {
        assert(k * halflife * (STEPS as nat) == steps * halflife) by (nonlinear_arith)
            requires
                steps == k * (STEPS as nat),
        ;
        vstd::arithmetic::div_mod::lemma_div_multiples_vanish(steps as int, halflife as int);
        assert(halflife * steps == steps * halflife) by (nonlinear_arith);
    }
    lemma2_to64();
    assert(steps == k * pow2(16));
    lemma_even_steps(k, 16);
}

proof fn lemma_even_steps(k: nat, n: nat)
    ensures
        half_to(k * pow2(n), n) == ONE as int / pow2(k) as int,
    decreases n,
{
    if n == 0 {
        lemma2_to64();
        assert(k * pow2(0) == k) by (nonlinear_arith)
            requires
                pow2(0) == 1,
        ;
    } else {
        lemma_pow2_unfold(n);
        let half = k * pow2((n - 1) as nat);
        assert(k * pow2(n) == 2 * half) by (nonlinear_arith)
            requires
                pow2(n) == 2 * pow2((n - 1) as nat),
                half == k * pow2((n - 1) as nat),
        ;
        lemma_even_steps(k, (n - 1) as nat);
    }
}

} // verus!
