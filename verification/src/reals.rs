//! Which decimal texts a double-precision number holds apart from zero and from
//! infinity. A text is rounded to the nearest double, so one beyond the largest
//! double by half a step reads as infinite, and one of half the smallest double
//! or less reads as zero.

use vstd::arithmetic::power::{
    lemma_pow0, lemma_pow1, lemma_pow_adds, lemma_pow_increases, lemma_pow_positive, pow,
};
use vstd::prelude::*;
use vstd::slice::slice_subrange;

use crate::natural::Natural;
use crate::numbers::{
    count_digits, digits_value, exponent_from, is_decimal, is_digit,
    is_exponent, leading_digits, lemma_digits_lead, skip_sign, unsigned,
};

verus! {

/// The number that an exponent stands for.
pub open spec fn exponent_value(s: Seq<char>) -> int {
    if s.len() == 0 {
        0
    } else {
        let t = s.drop_first();
        if t[0] == '-' {
            -(digits_value(unsigned(t)) as int)
        } else {
            digits_value(unsigned(t)) as int
        }
    }
}

/// A decimal as a natural number and the power of ten that it counts in.
pub open spec fn decimal_parts(s: Seq<char>) -> (nat, int) {
    let a = leading_digits(s) as int;
    let rest = s.skip(a);
    if rest.len() > 0 && rest[0] == '.' {
        let b = leading_digits(rest.drop_first()) as int;
        (
            digits_value(s.take(a) + rest.subrange(1, 1 + b)),
            exponent_value(rest.skip(1 + b)) - b,
        )
    } else {
        (digits_value(s.take(a)), exponent_value(rest))
    }
}

/// The least number that rounds to infinity: half a step above the largest
/// double.
pub open spec fn overflow() -> int {
    (pow(2, 54) - 1) * pow(2, 970)
}

/// Whether `d` times ten to the power of `e` rounds to a double that is neither
/// zero nor infinite. What rounds to zero is at most half the smallest double,
/// one over two to the power of 1075.
pub open spec fn rounds_to_positive(d: nat, e: int) -> bool {
    if e >= 0 {
        0 < d && d * pow(10, e as nat) < overflow()
    } else {
        d < overflow() * pow(10, (-e) as nat) && pow(10, (-e) as nat) < d * pow(2, 1075)
    }
}

/// Whether a text reads as a positive, finite double.
pub open spec fn is_positive_real(s: Seq<char>) -> bool {
    let (d, e) = decimal_parts(unsigned(s));
    &&& is_decimal(unsigned(s))
    &&& !(s.len() > 0 && s[0] == '-')
    &&& rounds_to_positive(d, e)
}

/// Where the size of an exponent stops mattering.
pub const FAR_EXPONENT: i128 = 0x1_0000_0000_0000_0000_0000;

proof fn lemma_power_of_more(b: int, more: nat, e: nat)
    requires
        2 <= b <= more,
    ensures
        pow(b, e) <= pow(more as int, e),
    decreases e,
{
    if e == 0 {
        lemma_pow0(b);
        lemma_pow0(more as int);
    } else {
        let k = (e - 1) as nat;
        lemma_power_of_more(b, more, k);
        lemma_pow_adds(b, k, 1);
        lemma_pow_adds(more as int, k, 1);
        lemma_pow1(b);
        lemma_pow1(more as int);
        lemma_pow_positive(b, k);
        let p = pow(b, k);
        let q = pow(more as int, k);
        assert(p * b <= q * more) by (nonlinear_arith)
            requires
                0 < p <= q,
                2 <= b <= more,
        ;
    }
}

proof fn lemma_overflow_is_less()
    ensures
        0 < overflow() < pow(2, 1024),
{
    lemma_pow_adds(2, 54, 970);
    lemma_pow_positive(2, 970);
    lemma_pow_increases(2, 1, 54);
    lemma_pow1(2);
    let p = pow(2, 54);
    let q = pow(2, 970);
    assert(0 < (p - 1) * q < p * q) by (nonlinear_arith)
        requires
            p >= 2,
            q > 0,
    ;
}

proof fn lemma_far_up(d: nat, e: int)
    requires
        e >= 1024,
    ensures
        !rounds_to_positive(d, e),
{
    if d > 0 {
        lemma_overflow_is_less();
        lemma_power_of_more(2, 10, e as nat);
        lemma_pow_increases(2, 1024, e as nat);
        let p = pow(10, e as nat);
        assert(d * p >= p) by (nonlinear_arith)
            requires
                d >= 1,
                p >= 0,
        ;
    }
}

proof fn lemma_far_down(d: nat, n: nat, e: int)
    requires
        d < pow(10, n),
        -e >= n + 1075,
    ensures
        !rounds_to_positive(d, e),
{
    lemma_power_of_more(2, 10, 1075);
    lemma_pow_adds(10, n, 1075);
    lemma_pow_increases(10, (n + 1075) as nat, (-e) as nat);
    lemma_pow_positive(2, 1075);
    let p = pow(10, n);
    let q = pow(10, 1075);
    let r = pow(2, 1075);
    assert(d * r <= p * q) by (nonlinear_arith)
        requires
            0 <= d <= p,
            0 <= r <= q,
    ;
}

proof fn lemma_digits_are_less(s: Seq<char>)
    requires
        forall|i: int| 0 <= i < s.len() ==> is_digit(#[trigger] s[i]),
    ensures
        digits_value(s) < pow(10, s.len()),
    decreases s.len(),
{
    lemma_pow0(10);
    if s.len() > 0 {
        let t = s.drop_last();
        assert forall|i: int| 0 <= i < t.len() implies is_digit(#[trigger] t[i]) by {
            assert(t[i] == s[i]);
        }
        lemma_digits_are_less(t);
        lemma_pow_adds(10, t.len(), 1);
        lemma_pow1(10);
        assert(is_digit(s.last()));
    }
}

/// A string of digits as a number.
fn number_of(digits: &[char]) -> (n: Natural)
    requires
        forall|i: int| 0 <= i < digits@.len() ==> is_digit(#[trigger] digits@[i]),
    ensures
        n.value() == digits_value(digits@),
{
    let mut n: Natural = Natural::zero();
    let mut i: usize = 0;
    while i < digits.len()
        invariant
            forall|k: int| 0 <= k < digits@.len() ==> is_digit(#[trigger] digits@[k]),
            i <= digits@.len(),
            n.value() == digits_value(digits@.take(i as int)),
        decreases digits@.len() - i,
    {
        proof {
            let t = digits@.take(i + 1);
            assert(is_digit(digits@[i as int]));
            assert(t.drop_last() =~= digits@.take(i as int));
            assert(t.last() == digits@[i as int]);
        }
        n.times_plus(10, digits[i] as u64 - 48);
        i = i + 1;
    }
    assert(digits@.take(i as int) =~= digits@);
    n
}

/// The least number that rounds to infinity.
fn overflow_number() -> (n: Natural)
    ensures
        n.value() == overflow(),
{
    let mut n: Natural = Natural::zero();
    let mut i: u64 = 0;
    proof {
        lemma_pow0(2);
    }
    while i < 54
        invariant
            i <= 54,
            n.value() == pow(2, i as nat) - 1,
        decreases 54 - i,
    {
        proof {
            lemma_pow_adds(2, i as nat, 1);
            lemma_pow1(2);
        }
        n.times_plus(2, 1);
        i = i + 1;
    }
    n.scale(2, 970);
    n
}

/// Whether digits, times ten to the power of `e`, round to a positive, finite
/// double.
fn rounds(digits: &[char], e: i128) -> (yes: bool)
    requires
        forall|i: int| 0 <= i < digits@.len() ==> is_digit(#[trigger] digits@[i]),
        -2 * FAR_EXPONENT <= e <= FAR_EXPONENT,
    ensures
        yes == rounds_to_positive(digits_value(digits@), e as int),
{
    let ghost d = digits_value(digits@);
    proof {
        lemma_digits_are_less(digits@);
    }
    if e >= 1024 {
        proof {
            lemma_far_up(d, e as int);
        }
        return false;
    }
    let least: i128 = digits.len() as i128 + 1075;
    if -e >= least {
        proof {
            lemma_far_down(d, digits@.len(), e as int);
        }
        return false;
    }
    let mut n: Natural = number_of(digits);
    let mut top: Natural = overflow_number();
    if e >= 0 {
        let none: Natural = Natural::zero();
        let some: bool = none.is_less(&n);
        n.scale(10, e as u128);
        some && n.is_less(&top)
    } else {
        top.scale(10, (-e) as u128);
        if !n.is_less(&top) {
            return false;
        }
        let mut one: Natural = Natural::zero();
        one.times_plus(10, 1);
        one.scale(10, (-e) as u128);
        n.scale(2, 1075);
        proof {
            let k = (-e) as u128 as nat;
            assert(k == (-(e as int)) as nat);
            assert(1 * pow(10, k) == pow(10, k));
        }
        one.is_less(&n)
    }
}

/// An exponent's number, or the far end where it lies beyond.
fn exponent_of(s: &[char], from: usize) -> (e: i128)
    requires
        from <= s@.len(),
        is_exponent(s@.skip(from as int)),
    ensures
        ({
            let v = exponent_value(s@.skip(from as int));
            e == if v > FAR_EXPONENT {
                FAR_EXPONENT as int
            } else if v < -FAR_EXPONENT {
                -FAR_EXPONENT
            } else {
                v
            }
        }),
{
    let ghost rest = s@.skip(from as int);
    if from == s.len() {
        return 0;
    }
    assert(rest.drop_first() =~= s@.skip(from + 1));
    let at: usize = skip_sign(s, from + 1);
    let ghost digits = s@.skip(at as int);
    let mut size: i128 = 0;
    let mut i: usize = at;
    assert(digits.take(0) =~= Seq::empty());
    while i < s.len()
        invariant
            at <= i <= s@.len(),
            digits == s@.skip(at as int),
            forall|k: int| 0 <= k < digits.len() ==> is_digit(#[trigger] digits[k]),
            0 <= size <= FAR_EXPONENT,
            size == if digits_value(digits.take(i - at)) > FAR_EXPONENT {
                FAR_EXPONENT as int
            } else {
                digits_value(digits.take(i - at)) as int
            },
        decreases s@.len() - i,
    {
        proof {
            let t = digits.take(i + 1 - at);
            assert(is_digit(digits[i - at]));
            assert(t.drop_last() =~= digits.take(i - at));
            assert(t.last() == s@[i as int]);
        }
        size = size * 10 + (s[i] as i128 - 48);
        if size > FAR_EXPONENT {
            size = FAR_EXPONENT;
        }
        i = i + 1;
    }
    assert(digits.take(i - at) =~= digits);
    assert(rest.drop_first()[0] == s@[from + 1]);
    if s[from + 1] == '-' {
        -size
    } else {
        size
    }
}

proof fn lemma_far_either_way(d: nat, n: nat, true_e: int, e: int)
    requires
        d < pow(10, n),
        true_e == e || (e >= 1024 && true_e >= 1024) || (-e >= n + 1075 && -true_e >= n + 1075),
    ensures
        rounds_to_positive(d, true_e) == rounds_to_positive(d, e),
{
    if true_e != e {
        if e >= 1024 {
            lemma_far_up(d, e);
            lemma_far_up(d, true_e);
        } else {
            lemma_far_down(d, n, e);
            lemma_far_down(d, n, true_e);
        }
    }
}

/// The digits of a decimal, how many of them stand behind the point, and where
/// its exponent starts.
fn split_decimal(s: &[char]) -> (parts: (Vec<char>, usize, usize))
    ensures
        parts.2 <= s@.len(),
        parts.1 <= parts.0@.len(),
        forall|i: int| 0 <= i < parts.0@.len() ==> is_digit(#[trigger] parts.0@[i]),
        is_decimal(s@) <==> parts.0@.len() > 0 && is_exponent(s@.skip(parts.2 as int)),
        decimal_parts(s@) == (
            digits_value(parts.0@),
            exponent_value(s@.skip(parts.2 as int)) - parts.1,
        ),
{
    assert(s@.skip(0) =~= s@);
    let a: usize = count_digits(s, 0);
    let ghost rest = s@.skip(a as int);
    let mut digits: Vec<char> = Vec::new();
    digits.extend_from_slice(slice_subrange(s, 0, a));
    assert(digits@ =~= s@.take(a as int));
    proof {
        assert forall|i: int| 0 <= i < a implies is_digit(#[trigger] digits@[i]) by {
            lemma_digits_lead(s@, i);
        }
    }
    if a < s.len() && s[a] == '.' {
        let from: usize = count_digits(s, a + 1);
        let below: usize = from - (a + 1);
        let ghost whole = digits@;
        digits.extend_from_slice(slice_subrange(s, a + 1, from));
        proof {
            let after = rest.drop_first();
            assert(rest[0] == s@[a as int]);
            assert(after =~= s@.skip(a + 1));
            assert(rest.skip(1 + below) =~= s@.skip(from as int));
            assert(digits@ =~= whole + rest.subrange(1, 1 + below));
            assert forall|i: int| 0 <= i < digits@.len() implies is_digit(#[trigger] digits@[i]) by {
                if i < a {
                    assert(digits@[i] == whole[i]);
                } else {
                    lemma_digits_lead(after, i - a);
                    assert(digits@[i] == after[i - a]);
                }
            }
        }
        (digits, below, from)
    } else {
        proof {
            if a < s.len() {
                assert(rest[0] == s@[a as int]);
            }
        }
        (digits, 0, a)
    }
}

/// Whether a text reads as a positive, finite double.
pub fn reads_as_positive(s: &[char]) -> (yes: bool)
    ensures
        yes == is_positive_real(s@),
{
    if s.len() > 0 && s[0] == '-' {
        return false;
    }
    assert(s@.skip(0) =~= s@);
    let start: usize = skip_sign(s, 0);
    let body: &[char] = slice_subrange(s, start, s.len());
    assert(body@ =~= unsigned(s@));
    let (digits, below, from) = split_decimal(body);
    if digits.len() == 0 || !exponent_from(body, from) {
        return false;
    }
    let power: i128 = exponent_of(body, from);
    proof {
        let (d, e) = decimal_parts(body@);
        lemma_digits_are_less(digits@);
        lemma_far_either_way(d, digits@.len(), e, power - below);
    }
    rounds(digits.as_slice(), power - below as i128)
}

} // verus!
