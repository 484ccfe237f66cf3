//! Natural numbers of any size: what it takes to weigh a decimal text against a
//! bound, or offsets against each other, without rounding.

use vstd::arithmetic::power::{lemma_pow0, lemma_pow1, lemma_pow_adds, pow};
use vstd::prelude::*;

verus! {

/// What one limb counts to.
pub const LIMB: u64 = 0x1_0000_0000;

/// What the limb at place `i` counts in.
pub open spec fn weight(i: nat) -> nat
    decreases i,
{
    if i == 0 {
        1
    } else {
        LIMB as nat * weight((i - 1) as nat)
    }
}

/// The number that limbs stand for, the least significant first.
pub open spec fn limbs_value(limbs: Seq<u32>) -> nat
    decreases limbs.len(),
{
    if limbs.len() == 0 {
        0
    } else {
        limbs_value(limbs.drop_last()) + limbs.last() as nat * weight((limbs.len() - 1) as nat)
    }
}

/// The limb at place `i`, or none of it where the number ends before.
pub open spec fn limb_at(limbs: Seq<u32>, i: int) -> u32 {
    if i < limbs.len() {
        limbs[i]
    } else {
        0
    }
}

/// The number that the first `i` limbs stand for.
pub open spec fn low_part(limbs: Seq<u32>, i: nat) -> nat
    decreases i,
{
    if i == 0 {
        0
    } else {
        low_part(limbs, (i - 1) as nat) + limb_at(limbs, i - 1) as nat * weight((i - 1) as nat)
    }
}

proof fn lemma_low_part_is_less(limbs: Seq<u32>, i: nat)
    ensures
        low_part(limbs, i) < weight(i),
    decreases i,
{
    if i > 0 {
        let w = weight((i - 1) as nat);
        let x = limb_at(limbs, i - 1) as nat;
        lemma_low_part_is_less(limbs, (i - 1) as nat);
        assert((x + 1) * w <= LIMB as nat * w) by (nonlinear_arith)
            requires
                x + 1 <= LIMB,
        ;
        assert((x + 1) * w == x * w + w) by (nonlinear_arith);
    }
}

proof fn lemma_whole(limbs: Seq<u32>, i: nat)
    requires
        i >= limbs.len(),
    ensures
        low_part(limbs, i) == limbs_value(limbs),
    decreases i,
{
    if i > limbs.len() {
        lemma_whole(limbs, (i - 1) as nat);
        let w = weight((i - 1) as nat);
        assert(0 * w == 0) by (nonlinear_arith);
    } else if i > 0 {
        lemma_whole(limbs.drop_last(), (i - 1) as nat);
        lemma_same_low_part(limbs, limbs.drop_last(), (i - 1) as nat);
    }
}

proof fn lemma_same_low_part(a: Seq<u32>, b: Seq<u32>, i: nat)
    requires
        forall|k: int| 0 <= k < i ==> limb_at(a, k) == #[trigger] limb_at(b, k),
    ensures
        low_part(a, i) == low_part(b, i),
    decreases i,
{
    if i > 0 {
        lemma_same_low_part(a, b, (i - 1) as nat);
        assert(limb_at(a, i - 1) == limb_at(b, i - 1));
    }
}

/// A natural number.
pub struct Natural {
    limbs: Vec<u32>,
}

impl Natural {
    /// The number.
    pub closed spec fn value(&self) -> nat {
        limbs_value(self.limbs@)
    }

    /// Zero.
    pub fn zero() -> (n: Natural)
        ensures
            n.value() == 0,
    {
        Natural { limbs: Vec::new() }
    }

    /// Multiply by `factor` and add `more`.
    pub fn times_plus(&mut self, factor: u64, more: u64)
        ensures
            final(self).value() == old(self).value() * factor + more,
    {
        let ghost before = self.limbs@;
        let n: usize = self.limbs.len();
        let mut carry: u64 = more;
        let mut i: usize = 0;
        assert(carry * 1 == carry && 0 * factor == 0) by (nonlinear_arith);
        while i < n
            invariant
                i <= n,
                n == before.len(),
                self.limbs@.len() == n,
                forall|k: int| i <= k < n ==> self.limbs@[k] == before[k],
                low_part(self.limbs@, i as nat) + carry * weight(i as nat) == low_part(
                    before,
                    i as nat,
                ) * factor + more,
            decreases n - i,
        {
            let ghost now = self.limbs@;
            let x: u128 = self.limbs[i] as u128;
            assert(0 <= x * factor + carry < 0x1_0000_0000_0000_0000_0000_0000) by (nonlinear_arith)
                requires
                    0 <= x < 0x1_0000_0000,
                    0 <= factor < 0x1_0000_0000_0000_0000,
                    0 <= carry < 0x1_0000_0000_0000_0000,
            ;
            let t: u128 = x * factor as u128 + carry as u128;
            let limb: u128 = LIMB as u128;
            let low: u32 = (t % limb) as u32;
            let ghost held = carry;
            proof {
                assert(t < 0x1_0000_0000_0000_0000_0000_0000);
                assert(limb == 0x1_0000_0000);
                assert(t / limb < 0x1_0000_0000_0000_0000);
                assert(t == t % limb + limb * (t / limb));
            }
            carry = (t / limb) as u64;
            self.limbs.set(i, low);
            proof {
                let w = weight(i as nat) as int;
                let f = factor as int;
                let p = low_part(before, i as nat) as int;
                lemma_same_low_part(now, self.limbs@, i as nat);
                assert(t == low + LIMB * carry);
                assert(low * w + carry * (LIMB * w) == t * w) by (nonlinear_arith)
                    requires
                        t == low + LIMB * carry,
                ;
                assert(t * w == (x * f) * w + held * w) by (nonlinear_arith)
                    requires
                        t == x * f + held,
                ;
                assert((p + x * w) * f == p * f + (x * f) * w) by (nonlinear_arith);
            }
            i = i + 1;
        }
        let ghost now = self.limbs@;
        let low: u32 = (carry % LIMB) as u32;
        let high: u32 = (carry / LIMB) as u32;
        proof {
            lemma_whole(before, n as nat);
            lemma_whole(now, n as nat);
            let w = weight(n as nat);
            assert(0 * w == 0) by (nonlinear_arith);
            assert(low * w + high * (LIMB as nat * w) == carry * w) by (nonlinear_arith)
                requires
                    carry == low + LIMB * high,
            ;
        }
        if carry > 0 {
            self.limbs.push(low);
            assert(self.limbs@.drop_last() =~= now);
            let ghost longer = self.limbs@;
            assert(limbs_value(longer) == limbs_value(now) + low as nat * weight(n as nat));
            if high > 0 {
                self.limbs.push(high);
                assert(self.limbs@.drop_last() =~= longer);
                assert(weight((n + 1) as nat) == LIMB as nat * weight(n as nat));
                assert(limbs_value(self.limbs@) == limbs_value(longer) + high as nat * weight(
                    (n + 1) as nat,
                ));
            } else {
                proof {
                    let w = LIMB as nat * weight(n as nat);
                    assert(0 * w == 0) by (nonlinear_arith);
                }
            }
        }
    }

    /// Add another number.
    pub fn plus(&mut self, other: &Natural)
        ensures
            final(self).value() == old(self).value() + other.value(),
    {
        let ghost before = self.limbs@;
        let n: usize = if self.limbs.len() < other.limbs.len() {
            other.limbs.len()
        } else {
            self.limbs.len()
        };
        while self.limbs.len() < n
            invariant
                before.len() <= self.limbs@.len() <= n,
                n >= before.len(),
                forall|k: int| 0 <= k < n ==> limb_at(self.limbs@, k) == #[trigger] limb_at(
                    before,
                    k,
                ),
            decreases n - self.limbs@.len(),
        {
            self.limbs.push(0);
        }
        let ghost padded = self.limbs@;
        let mut carry: u64 = 0;
        let mut i: usize = 0;
        proof {
            lemma_same_low_part(padded, before, n as nat);
            assert(0 * weight(0) == 0);
        }
        while i < n
            invariant
                i <= n,
                n >= other.limbs@.len(),
                padded.len() == n,
                self.limbs@.len() == n,
                carry <= 1,
                forall|k: int| i <= k < n ==> self.limbs@[k] == padded[k],
                low_part(self.limbs@, i as nat) + carry * weight(i as nat) == low_part(
                    padded,
                    i as nat,
                ) + low_part(other.limbs@, i as nat),
            decreases n - i,
        {
            let ghost now = self.limbs@;
            let b: u64 = if i < other.limbs.len() {
                other.limbs[i] as u64
            } else {
                0
            };
            let a: u64 = self.limbs[i] as u64;
            let t: u64 = a + b + carry;
            let low: u32 = (t % LIMB) as u32;
            let ghost held = carry;
            carry = t / LIMB;
            self.limbs.set(i, low);
            proof {
                let w = weight(i as nat) as int;
                lemma_same_low_part(now, self.limbs@, i as nat);
                assert(t == low + LIMB * carry);
                assert(low * w + carry * (LIMB * w) == t * w) by (nonlinear_arith)
                    requires
                        t == low + LIMB * carry,
                ;
                assert(t * w == a * w + b * w + held * w) by (nonlinear_arith)
                    requires
                        t == a + b + held,
                ;
            }
            i = i + 1;
        }
        let ghost now = self.limbs@;
        proof {
            lemma_whole(padded, n as nat);
            lemma_whole(before, n as nat);
            lemma_whole(other.limbs@, n as nat);
            lemma_whole(now, n as nat);
            let w = weight(n as nat);
            assert(0 * w == 0 && 1 * w == w) by (nonlinear_arith);
        }
        if carry > 0 {
            self.limbs.push(1);
            assert(self.limbs@.drop_last() =~= now);
        }
    }

    /// A copy.
    pub fn copy(&self) -> (copy: Natural)
        ensures
            copy.value() == self.value(),
    {
        let mut copy: Natural = Natural::zero();
        copy.plus(self);
        copy
    }

    /// Multiply by `factor`, so many times over.
    pub fn scale(&mut self, factor: u64, times: u128)
        ensures
            final(self).value() == old(self).value() * pow(factor as int, times as nat),
    {
        let ghost start = self.value() as int;
        let mut i: u128 = 0;
        proof {
            lemma_pow0(factor as int);
            assert(start * 1 == start);
        }
        while i < times
            invariant
                i <= times,
                self.value() == start * pow(factor as int, i as nat),
            decreases times - i,
        {
            self.times_plus(factor, 0);
            proof {
                let f = factor as int;
                let p = pow(f, i as nat);
                lemma_pow_adds(f, i as nat, 1);
                lemma_pow1(f);
                assert((start * p) * f == start * (p * f)) by (nonlinear_arith);
            }
            i = i + 1;
        }
    }

    /// Whether this number is less than another.
    pub fn is_less(&self, other: &Natural) -> (yes: bool)
        ensures
            yes == (self.value() < other.value()),
    {
        let n: usize = if self.limbs.len() < other.limbs.len() {
            other.limbs.len()
        } else {
            self.limbs.len()
        };
        let mut less: bool = false;
        let mut i: usize = 0;
        while i < n
            invariant
                i <= n,
                n >= self.limbs@.len(),
                n >= other.limbs@.len(),
                less == (low_part(self.limbs@, i as nat) < low_part(other.limbs@, i as nat)),
            decreases n - i,
        {
            let a: u32 = if i < self.limbs.len() {
                self.limbs[i]
            } else {
                0
            };
            let b: u32 = if i < other.limbs.len() {
                other.limbs[i]
            } else {
                0
            };
            proof {
                lemma_low_part_is_less(self.limbs@, i as nat);
                lemma_low_part_is_less(other.limbs@, i as nat);
                let w = weight(i as nat) as int;
                assert(a < b ==> a * w + w <= b * w) by (nonlinear_arith)
                    requires
                        w >= 0,
                ;
                assert(b < a ==> b * w + w <= a * w) by (nonlinear_arith)
                    requires
                        w >= 0,
                ;
            }
            if a < b {
                less = true;
            } else if b < a {
                less = false;
            }
            i = i + 1;
        }
        proof {
            lemma_whole(self.limbs@, n as nat);
            lemma_whole(other.limbs@, n as nat);
        }
        less
    }
}

/// The quotient of the difference of two numbers, and the remainder left out: how
/// often `unit` fits between `from` and `to`.
pub fn steps_between(from: &Natural, to: &Natural, unit: &Natural, limit: u64) -> (q: u64)
    requires
        from.value() <= to.value(),
        unit.value() > 0,
        to.value() - from.value() <= unit.value() * limit,
    ensures
        q == (to.value() - from.value()) as int / unit.value() as int,
        q <= limit,
{
    let ghost far = to.value() - from.value();
    let ghost u = unit.value() as int;
    let mut low: u64 = 0;
    let mut high: u64 = limit;
    assert(u * 0 == 0);
    while low < high
        invariant
            low <= high <= limit,
            far == to.value() - from.value(),
            u == unit.value(),
            u > 0,
            far <= u * limit,
            u * low <= far,
            high < limit ==> far < u * (high + 1),
        decreases high - low,
    {
        let mid: u64 = low + (high - low) / 2 + (high - low) % 2;
        let mut reached: Natural = unit.copy();
        reached.times_plus(mid, 0);
        reached.plus(from);
        if to.is_less(&reached) {
            high = mid - 1;
        } else {
            low = mid;
        }
    }
    proof {
        let q = low as int;
        assert(far / u >= q) by (nonlinear_arith)
            requires
                u * q <= far,
                u > 0,
        ;
        if low < limit {
            assert(far / u < q + 1) by (nonlinear_arith)
                requires
                    far < u * (q + 1),
                    u > 0,
            ;
        } else {
            assert(far / u <= q) by (nonlinear_arith)
                requires
                    far <= u * q,
                    u > 0,
            ;
        }
    }
    low
}

} // verus!
