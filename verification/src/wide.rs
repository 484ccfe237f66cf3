//! Natural numbers of 256 bits, for sums of products that outgrow the machine's
//! own integers.

use vstd::prelude::*;

verus! {

/// Two to the power 128.
pub open spec fn half_range() -> nat {
    0x1_0000_0000_0000_0000_0000_0000_0000_0000nat
}

/// One past the largest number held: two to the power 256.
pub open spec fn full_range() -> nat {
    half_range() * half_range()
}

/// A natural number of 256 bits.
#[derive(Clone, Copy, Debug, PartialEq, Eq, Structural)]
pub struct Wide {
    pub high: u128,
    pub low: u128,
}

impl Wide {
    /// The number.
    pub open spec fn value(self) -> nat {
        (self.high * half_range() + self.low) as nat
    }

    pub fn new(low: u128) -> (w: Self)
        ensures
            w.value() == low,
    {
        Wide { high: 0, low }
    }

    /// The product of two machine numbers.
    pub fn product(a: u128, b: u128) -> (w: Self)
        ensures
            w.value() == a * b,
    {
        let base: u128 = 0x1_0000_0000_0000_0000;
        let (a1, a0): (u128, u128) = (a / base, a % base);
        let (b1, b0): (u128, u128) = (b / base, b % base);
        proof {
            assert(a1 < base && a0 < base && b1 < base && b0 < base);
            lemma_half_product(a0 as int, b0 as int);
            lemma_half_product(a1 as int, b0 as int);
            lemma_half_product(a0 as int, b1 as int);
            lemma_half_product(a1 as int, b1 as int);
        }
        let p00: u128 = a0 * b0;
        let p10: u128 = a1 * b0;
        let p01: u128 = a0 * b1;
        let p11: u128 = a1 * b1;
        // The middle column: what carries out of the lowest, and both cross
        // products' lower halves.
        let mid: u128 = p00 / base + p10 % base + p01 % base;
        let low: u128 = p00 % base + (mid % base) * base;
        proof {
            lemma_columns(a1 as int, a0 as int, b1 as int, b0 as int);
            let total = p11 + p10 / base + p01 / base + mid / base;
            assert(total * half_range() + low == a * b);
            assert(a * b < full_range()) by (nonlinear_arith)
                requires
                    0 <= a < 0x1_0000_0000_0000_0000_0000_0000_0000_0000int,
                    0 <= b < 0x1_0000_0000_0000_0000_0000_0000_0000_0000int,
                    full_range() == 0x1_0000_0000_0000_0000_0000_0000_0000_0000int
                        * 0x1_0000_0000_0000_0000_0000_0000_0000_0000int,
            ;
            assert(total < half_range()) by (nonlinear_arith)
                requires
                    total * half_range() + low == a * b,
                    a * b < full_range(),
                    full_range() == half_range() * half_range(),
                    low >= 0,
                    half_range() > 0,
            ;
        }
        let high: u128 = p11 + p10 / base + p01 / base + mid / base;
        Wide { high, low }
    }

    /// The sum of two numbers.
    pub fn plus(self, other: Wide) -> (w: Self)
        requires
            self.value() + other.value() < full_range(),
        ensures
            w.value() == self.value() + other.value(),
    {
        let room: u128 = u128::MAX - self.low;
        let carries: bool = other.low > room;
        proof {
            let carry: int = if carries {
                1
            } else {
                0
            };
            assert(self.high + other.high + carry < half_range()) by (nonlinear_arith)
                requires
                    (self.high + other.high) * half_range() + self.low + other.low
                        < half_range() * half_range(),
                    carry == 1 ==> self.low + other.low >= half_range(),
                    carry == 0 || carry == 1,
                    self.low >= 0,
                    other.low >= 0,
                    half_range() > 0,
            ;
        }
        if carries {
            Wide { high: self.high + other.high + 1, low: other.low - room - 1 }
        } else {
            Wide { high: self.high + other.high, low: self.low + other.low }
        }
    }

    /// The number times a machine number.
    pub fn times(self, m: u128) -> (w: Self)
        requires
            self.value() * m < full_range(),
        ensures
            w.value() == self.value() * m,
    {
        let low: Wide = Wide::product(self.low, m);
        proof {
            let h = self.high as int;
            let l = self.low as int;
            let r = half_range() as int;
            assert((h * r + l) * m == (h * m) * r + l * m) by (nonlinear_arith);
            assert(l * m >= 0) by (nonlinear_arith)
                requires
                    l >= 0,
                    m >= 0,
            ;
            assert(h * m >= 0) by (nonlinear_arith)
                requires
                    h >= 0,
                    m >= 0,
            ;
            let hm = h * m;
            let lm = l * m;
            assert(hm < r) by (nonlinear_arith)
                requires
                    hm * r + lm < r * r,
                    lm >= 0,
                    r > 0,
            ;
        }
        let raised: Wide = Wide { high: self.high * m, low: 0 };
        low.plus(raised)
    }

    /// Whether the number is at most another.
    pub fn at_most(self, other: Wide) -> (yes: bool)
        ensures
            yes == (self.value() <= other.value()),
    {
        proof {
            if self.high < other.high {
                lemma_high_decides(self, other);
            } else if other.high < self.high {
                lemma_high_decides(other, self);
            }
        }
        self.high < other.high || (self.high == other.high && self.low <= other.low)
    }

    /// How much larger the number is than another that is no larger.
    pub fn minus(self, other: Wide) -> (w: Self)
        requires
            other.value() <= self.value(),
        ensures
            w.value() == self.value() - other.value(),
    {
        proof {
            if self.high < other.high {
                lemma_high_decides(self, other);
            }
        }
        if self.low >= other.low {
            Wide { high: self.high - other.high, low: self.low - other.low }
        } else {
            proof {
                if self.high == other.high {
                    assert(self.value() < other.value());
                }
            }
            Wide {
                high: self.high - other.high - 1,
                low: u128::MAX - other.low + self.low + 1,
            }
        }
    }
}

proof fn lemma_high_decides(a: Wide, b: Wide)
    requires
        a.high < b.high,
    ensures
        a.value() < b.value(),
{
    let r = half_range() as int;
    let x = a.high as int;
    let y = b.high as int;
    assert(x * r + r <= y * r) by (nonlinear_arith)
        requires
            x + 1 <= y,
            r > 0,
    ;
}

proof fn lemma_half_product(a: int, b: int)
    requires
        0 <= a < 0x1_0000_0000_0000_0000,
        0 <= b < 0x1_0000_0000_0000_0000,
    ensures
        0 <= a * b <= 0xffff_ffff_ffff_fffe_0000_0000_0000_0001,
{
    assert(0 <= a * b <= 0xffff_ffff_ffff_ffff * 0xffff_ffff_ffff_ffff) by (nonlinear_arith)
        requires
            0 <= a <= 0xffff_ffff_ffff_ffff,
            0 <= b <= 0xffff_ffff_ffff_ffff,
    ;
}

proof fn lemma_expand(a1: int, a0: int, b1: int, b0: int, base: int)
    ensures
        (a1 * base + a0) * (b1 * base + b0) == (a1 * b1) * (base * base) + (a1 * b0 + a0 * b1)
            * base + a0 * b0,
{
    let x = a1 * base;
    let y = b1 * base;
    assert((x + a0) * (y + b0) == x * y + x * b0 + a0 * y + a0 * b0) by (nonlinear_arith);
    assert(x * y == (a1 * b1) * (base * base)) by (nonlinear_arith)
        requires
            x == a1 * base,
            y == b1 * base,
    ;
    assert(x * b0 + a0 * y == (a1 * b0 + a0 * b1) * base) by (nonlinear_arith)
        requires
            x == a1 * base,
            y == b1 * base,
    ;
}

/// Schoolbook multiplication in base 2^64.
proof fn lemma_columns(a1: int, a0: int, b1: int, b0: int)
    requires
        0 <= a1,
        0 <= a0,
        0 <= b1,
        0 <= b0,
    ensures
        ({
            let base = 0x1_0000_0000_0000_0000int;
            let mid = a0 * b0 / base + a1 * b0 % base + a0 * b1 % base;
            let high = a1 * b1 + a1 * b0 / base + a0 * b1 / base + mid / base;
            let low = a0 * b0 % base + (mid % base) * base;
            (a1 * base + a0) * (b1 * base + b0) == high * half_range() + low
        }),
{
    let base = 0x1_0000_0000_0000_0000int;
    let p00 = a0 * b0;
    let p10 = a1 * b0;
    let p01 = a0 * b1;
    let p11 = a1 * b1;
    lemma_expand(a1, a0, b1, b0, base);
    assert(base * base == half_range());
}

/// The largest number up to `limit` that, times `d`, is at most `a`: the quotient,
/// as far as `limit`.
pub fn quotient_up_to(a: Wide, d: Wide, limit: u128) -> (q: u128)
    requires
        d.value() > 0,
        d.value() * limit < full_range(),
    ensures
        q == if a.value() / d.value() < limit {
            a.value() / d.value()
        } else {
            limit as nat
        },
{
    let mut low: u128 = 0;
    let mut high: u128 = limit;
    let ghost av = a.value() as int;
    let ghost dv = d.value() as int;
    assert(dv * 0 == 0);
    while low < high
        invariant
            low <= high <= limit,
            av == a.value(),
            dv == d.value(),
            dv > 0,
            dv * limit < full_range(),
            dv * low <= av,
            high < limit ==> av < dv * (high + 1),
        decreases high - low,
    {
        let mid: u128 = low + (high - low) / 2 + (high - low) % 2;
        proof {
            assert(dv * mid <= dv * limit) by (nonlinear_arith)
                requires
                    mid <= limit,
                    dv > 0,
            ;
        }
        let reached: Wide = d.times(mid);
        if reached.at_most(a) {
            low = mid;
        } else {
            high = mid - 1;
        }
    }
    proof {
        let q = low as int;
        assert(av / dv >= q) by (nonlinear_arith)
            requires
                dv * q <= av,
                dv > 0,
        ;
        if low < limit {
            assert(av / dv < q + 1) by (nonlinear_arith)
                requires
                    av < dv * (q + 1),
                    dv > 0,
            ;
        }
    }
    low
}

/// Whether `s` is the square root of `a / d`, rounded down, as far as a machine
/// number goes.
pub open spec fn is_root(a: nat, d: nat, s: u64) -> bool {
    &&& s * s * d <= a
    &&& s < u64::MAX ==> a < (s + 1) * (s + 1) * d
}

/// The square root of a quotient, rounded down.
pub fn root_of_quotient(a: Wide, d: u128) -> (s: u64)
    requires
        d > 0,
    ensures
        is_root(a.value(), d as nat, s),
{
    let mut low: u64 = 0;
    let mut high: u64 = u64::MAX;
    let ghost av = a.value() as int;
    while low < high
        invariant
            low <= high,
            av == a.value(),
            low * low * d <= av,
            high < u64::MAX ==> av < (high + 1) * (high + 1) * d,
        decreases high - low,
    {
        let mid: u64 = low + (high - low) / 2 + (high - low) % 2;
        let square: Wide = Wide::product(mid as u128, mid as u128);
        proof {
            let m = mid as int;
            assert(m * m * d < full_range()) by (nonlinear_arith)
                requires
                    0 <= m <= 0xffff_ffff_ffff_ffff,
                    0 <= d < 0x1_0000_0000_0000_0000_0000_0000_0000_0000int,
                    full_range() == 0x1_0000_0000_0000_0000_0000_0000_0000_0000int
                        * 0x1_0000_0000_0000_0000_0000_0000_0000_0000int,
            ;
        }
        let reached: Wide = square.times(d);
        if reached.at_most(a) {
            low = mid;
        } else {
            high = mid - 1;
        }
    }
    low
}

} // verus!
