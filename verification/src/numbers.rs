//! Numbers as text: the integer grammar (an optional sign and decimal digits)
//! and the grammar of a real number. A real number is kept as its text: nothing
//! here computes with it.

use vstd::prelude::*;
use vstd::slice::slice_subrange;

use crate::text::{is_space, is_word, lowered, small, spells, to_lower};

verus! {

/// Whether a character is a decimal digit.
pub open spec fn is_digit(c: char) -> bool {
    '0' <= c <= '9'
}

/// The number a digit stands for.
pub open spec fn digit_value(c: char) -> nat {
    (c as u32 - '0' as u32) as nat
}

/// The number a string of digits stands for.
pub open spec fn digits_value(s: Seq<char>) -> nat
    decreases s.len(),
{
    if s.len() == 0 {
        0
    } else {
        digits_value(s.drop_last()) * 10 + digit_value(s.last())
    }
}

/// Whether a text is digits and nothing else, at least one.
pub open spec fn all_digits(s: Seq<char>) -> bool {
    s.len() > 0 && forall|i: int| 0 <= i < s.len() ==> is_digit(#[trigger] s[i])
}

/// The natural number a text stands for: digits, with a plus sign or without.
pub open spec fn natural_value(s: Seq<char>) -> Option<nat> {
    let digits = if s.len() > 0 && s[0] == '+' {
        s.drop_first()
    } else {
        s
    };
    if all_digits(digits) {
        Some(digits_value(digits))
    } else {
        None
    }
}

/// The integer a text stands for: digits, with a sign or without.
pub open spec fn integer_value(s: Seq<char>) -> Option<int> {
    if s.len() > 0 && s[0] == '-' {
        if all_digits(s.drop_first()) {
            Some(-(digits_value(s.drop_first()) as int))
        } else {
            None
        }
    } else {
        match natural_value(s) {
            Some(v) => Some(v as int),
            None => None,
        }
    }
}

proof fn lemma_digits_grow(s: Seq<char>, n: int)
    requires
        0 <= n <= s.len(),
        forall|i: int| 0 <= i < s.len() ==> is_digit(#[trigger] s[i]),
    ensures
        digits_value(s.take(n)) <= digits_value(s),
    decreases s.len() - n,
{
    if n < s.len() {
        lemma_digits_grow(s, n + 1);
        assert(s.take(n + 1).drop_last() =~= s.take(n));
    } else {
        assert(s.take(n) =~= s);
    }
}

/// Digits as a number, where they are digits and the number is at most `max`.
fn read_digits(s: &[char], max: u64) -> (value: Option<u64>)
    ensures
        value == if all_digits(s@) && digits_value(s@) <= max {
            Some(digits_value(s@) as u64)
        } else {
            None
        },
{
    if s.len() == 0 {
        return None;
    }
    let mut acc: u128 = 0;
    let mut i: usize = 0;
    assert(s@.take(0).len() == 0);
    while i < s.len()
        invariant
            i <= s@.len(),
            acc == digits_value(s@.take(i as int)),
            acc <= max,
            forall|j: int| 0 <= j < i ==> is_digit(#[trigger] s@[j]),
        decreases s@.len() - i,
    {
        let c: char = s[i];
        if c < '0' || c > '9' {
            assert(!is_digit(s@[i as int]));
            return None;
        }
        acc = acc * 10 + (c as u32 - '0' as u32) as u128;
        i = i + 1;
        proof {
            assert(s@.take(i as int).drop_last() =~= s@.take(i - 1));
            assert(s@.take(i as int).last() == s@[i - 1]);
        }
        if acc > max as u128 {
            proof {
                if all_digits(s@) {
                    lemma_digits_grow(s@, i as int);
                }
            }
            return None;
        }
    }
    assert(s@.take(i as int) =~= s@);
    Some(acc as u64)
}

/// The natural number a text stands for, if it stands for one of at most `max`.
pub fn parse_natural(s: &[char], max: u64) -> (value: Option<u64>)
    ensures
        value == match natural_value(s@) {
            Some(v) => if v <= max {
                Some(v as u64)
            } else {
                None
            },
            None => None,
        },
{
    if s.len() > 0 && s[0] == '+' {
        let digits: &[char] = slice_subrange(s, 1, s.len());
        assert(digits@ =~= s@.drop_first());
        read_digits(digits, max)
    } else {
        read_digits(s, max)
    }
}

/// The integer a text stands for, if it stands for one from `min` to `max`.
pub fn parse_integer(s: &[char], min: i64, max: i64) -> (value: Option<i64>)
    requires
        min <= 0 <= max,
    ensures
        value == match integer_value(s@) {
            Some(v) => if min <= v <= max {
                Some(v as i64)
            } else {
                None
            },
            None => None,
        },
{
    if s.len() > 0 && s[0] == '-' {
        let digits: &[char] = slice_subrange(s, 1, s.len());
        assert(digits@ =~= s@.drop_first());
        let size: u64 = (-(min as i128)) as u64;
        match read_digits(digits, size) {
            Some(v) => Some((-(v as i128)) as i64),
            None => None,
        }
    } else {
        match parse_natural(s, max as u64) {
            Some(v) => Some(v as i64),
            None => None,
        }
    }
}

/// The digit that stands for a number below ten.
pub open spec fn digit_of(n: nat) -> char {
    (48 + n) as u8 as char
}

/// A natural number in decimal, without leading zeros.
pub open spec fn decimal(n: nat) -> Seq<char>
    decreases n,
{
    if n < 10 {
        seq![digit_of(n)]
    } else {
        decimal(n / 10).push(digit_of(n % 10))
    }
}

/// A natural number in decimal.
pub fn decimal_text(n: u64) -> (text: String)
    ensures
        text@ == decimal(n as nat),
    decreases n,
{
    if n < 10 {
        let mut text: String = String::new();
        text.push((48 + n as u8) as char);
        assert(text@ =~= decimal(n as nat));
        text
    } else {
        let mut text: String = decimal_text(n / 10);
        text.push((48 + (n % 10) as u8) as char);
        text
    }
}

/// A number written in decimal reads back as the number.
pub proof fn decimal_reads_back(n: nat)
    ensures
        all_digits(decimal(n)),
        digits_value(decimal(n)) == n,
        natural_value(decimal(n)) == Some(n),
    decreases n,
{
    let s = decimal(n);
    if n < 10 {
        assert(digits_value(s.drop_last()) == 0);
        assert(is_digit(s[0]));
    } else {
        decimal_reads_back(n / 10);
        assert(s.drop_last() =~= decimal(n / 10));
        assert forall|i: int| 0 <= i < s.len() implies is_digit(#[trigger] s[i]) by {
            if i < s.len() - 1 {
                assert(s[i] == decimal(n / 10)[i]);
            }
        }
    }
    assert(is_digit(s[0]));
}

/// How many digits a text starts with.
pub open spec fn leading_digits(s: Seq<char>) -> nat
    decreases s.len(),
{
    if s.len() == 0 || !is_digit(s[0]) {
        0
    } else {
        1 + leading_digits(s.drop_first())
    }
}

/// A text without the sign in front, if it has one.
pub open spec fn unsigned(s: Seq<char>) -> Seq<char> {
    if s.len() > 0 && (s[0] == '+' || s[0] == '-') {
        s.drop_first()
    } else {
        s
    }
}

/// Whether a text is an exponent, or empty.
pub open spec fn is_exponent(s: Seq<char>) -> bool {
    s.len() == 0 || ((s[0] == 'e' || s[0] == 'E') && all_digits(unsigned(s.drop_first())))
}

/// Whether a text is digits with at most one decimal point among them, at least
/// one digit, and an exponent or none.
pub open spec fn is_decimal(s: Seq<char>) -> bool {
    let a = leading_digits(s) as int;
    let rest = s.skip(a);
    if rest.len() > 0 && rest[0] == '.' {
        let b = leading_digits(rest.drop_first()) as int;
        a + b > 0 && is_exponent(rest.skip(1 + b))
    } else {
        a > 0 && is_exponent(rest)
    }
}

/// Whether a text is a real number: a decimal, or one of the three names, with a
/// sign or without, in capitals or not.
pub open spec fn is_real(s: Seq<char>) -> bool {
    let t = unsigned(s);
    ||| lowered(t) == "inf"@
    ||| lowered(t) == "infinity"@
    ||| lowered(t) == "nan"@
    ||| is_decimal(t)
}

proof fn lemma_leading_digits(s: Seq<char>, n: int)
    requires
        0 <= n <= s.len(),
        forall|i: int| 0 <= i < n ==> is_digit(#[trigger] s[i]),
        n == s.len() || !is_digit(s[n]),
    ensures
        leading_digits(s) == n,
    decreases s.len(),
{
    if n > 0 {
        assert(is_digit(s[0]));
        let t = s.drop_first();
        assert forall|i: int| 0 <= i < n - 1 implies is_digit(#[trigger] t[i]) by {
            assert(t[i] == s[i + 1]);
        }
        lemma_leading_digits(t, n - 1);
    }
}

pub(crate) fn count_digits(s: &[char], from: usize) -> (end: usize)
    requires
        from <= s@.len(),
    ensures
        from <= end <= s@.len(),
        end - from == leading_digits(s@.skip(from as int)),
{
    let mut end: usize = from;
    while end < s.len() && '0' <= s[end] && s[end] <= '9'
        invariant
            from <= end <= s@.len(),
            forall|i: int| from <= i < end ==> is_digit(#[trigger] s@[i]),
        decreases s@.len() - end,
    {
        end = end + 1;
    }
    proof {
        let rest = s@.skip(from as int);
        let n = end - from;
        assert forall|i: int| 0 <= i < n implies is_digit(#[trigger] rest[i]) by {
            assert(rest[i] == s@[from + i]);
        }
        if n < rest.len() {
            assert(rest[n] == s@[end as int]);
        }
        lemma_leading_digits(rest, n);
    }
    end
}

proof fn lemma_all_leading(s: Seq<char>)
    ensures
        leading_digits(s) <= s.len(),
        all_digits(s) <==> s.len() > 0 && leading_digits(s) == s.len(),
    decreases s.len(),
{
    if s.len() > 0 {
        let t = s.drop_first();
        lemma_all_leading(t);
        if all_digits(s) {
            assert(is_digit(s[0]));
            assert forall|i: int| 0 <= i < t.len() implies is_digit(#[trigger] t[i]) by {
                assert(t[i] == s[i + 1]);
            }
        }
        if leading_digits(s) == s.len() {
            assert forall|i: int| 0 <= i < s.len() implies is_digit(#[trigger] s[i]) by {
                if i > 0 {
                    assert(t[i - 1] == s[i]);
                }
            }
        }
    }
}

pub(crate) fn skip_sign(s: &[char], from: usize) -> (at: usize)
    requires
        from <= s@.len(),
    ensures
        from <= at <= s@.len(),
        s@.skip(at as int) == unsigned(s@.skip(from as int)),
{
    let ghost rest = s@.skip(from as int);
    if from < s.len() && (s[from] == '+' || s[from] == '-') {
        assert(rest[0] == s@[from as int]);
        assert(rest.drop_first() =~= s@.skip(from + 1));
        from + 1
    } else {
        if from < s.len() {
            assert(rest[0] == s@[from as int]);
        }
        from
    }
}

pub(crate) fn exponent_from(s: &[char], from: usize) -> (yes: bool)
    requires
        from <= s@.len(),
    ensures
        yes == is_exponent(s@.skip(from as int)),
{
    let ghost rest = s@.skip(from as int);
    if from == s.len() {
        return true;
    }
    assert(rest[0] == s@[from as int]);
    if s[from] != 'e' && s[from] != 'E' {
        return false;
    }
    assert(rest.drop_first() =~= s@.skip(from + 1));
    let at: usize = skip_sign(s, from + 1);
    let end: usize = count_digits(s, at);
    proof {
        lemma_all_leading(s@.skip(at as int));
    }
    at < s.len() && end == s.len()
}

/// Whether a text is a real number.
pub fn reads_as_real(s: &[char]) -> (yes: bool)
    ensures
        yes == is_real(s@),
{
    assert(s@.skip(0) =~= s@);
    let start: usize = skip_sign(s, 0);
    let body: &[char] = slice_subrange(s, start, s.len());
    let ghost t = unsigned(s@);
    assert(body@ =~= t);
    let low: Vec<char> = to_lower(body);
    if spells(low.as_slice(), "inf") || spells(low.as_slice(), "infinity") || spells(
        low.as_slice(),
        "nan",
    ) {
        return true;
    }
    assert(body@.skip(0) =~= body@);
    let a: usize = count_digits(body, 0);
    let ghost rest = body@.skip(a as int);
    if a < body.len() && body[a] == '.' {
        assert(rest[0] == body@[a as int]);
        assert(rest.drop_first() =~= body@.skip(a + 1));
        let end: usize = count_digits(body, a + 1);
        let b: usize = end - (a + 1);
        assert(rest.skip(1 + b) =~= body@.skip(end as int));
        (a > 0 || b > 0) && exponent_from(body, end)
    } else {
        if a < body.len() {
            assert(rest[0] == body@[a as int]);
        }
        a > 0 && exponent_from(body, a)
    }
}


pub(crate) proof fn lemma_digits_lead(s: Seq<char>, i: int)
    requires
        0 <= i < leading_digits(s),
    ensures
        i < s.len(),
        is_digit(s[i]),
    decreases s.len(),
{
    if i > 0 {
        lemma_digits_lead(s.drop_first(), i - 1);
        assert(s.drop_first()[i - 1] == s[i]);
    }
}

proof fn lemma_unsigned_is_word(s: Seq<char>)
    requires
        is_word(unsigned(s)),
    ensures
        is_word(s),
{
    if s.len() > 0 && (s[0] == '+' || s[0] == '-') {
        assert forall|i: int| 0 <= i < s.len() implies !is_space(#[trigger] s[i]) by {
            if i > 0 {
                assert(s.drop_first()[i - 1] == s[i]);
            }
        }
    }
}

proof fn lemma_exponent_has_no_space(s: Seq<char>, i: int)
    requires
        is_exponent(s),
        0 <= i < s.len(),
    ensures
        !is_space(s[i]),
{
    if i > 0 {
        let t = s.drop_first();
        let u = unsigned(t);
        assert(t[i - 1] == s[i]);
        if t[0] == '+' || t[0] == '-' {
            if i > 1 {
                assert(u[i - 2] == s[i]);
                assert(is_digit(u[i - 2]));
            }
        } else {
            assert(is_digit(u[i - 1]));
        }
    }
}

proof fn lemma_decimal_is_word(s: Seq<char>)
    requires
        is_decimal(s),
    ensures
        is_word(s),
{
    let a = leading_digits(s) as int;
    lemma_all_leading(s);
    let rest = s.skip(a);
    if rest.len() > 0 && rest[0] == '.' {
        let after = rest.drop_first();
        lemma_all_leading(after);
        let b = leading_digits(after) as int;
        let exp = rest.skip(1 + b);
        assert forall|i: int| 0 <= i < s.len() implies !is_space(#[trigger] s[i]) by {
            if i < a {
                lemma_digits_lead(s, i);
            } else if i == a {
                assert(rest[0] == s[i]);
            } else if i <= a + b {
                lemma_digits_lead(after, i - a - 1);
                assert(after[i - a - 1] == s[i]);
            } else {
                assert(exp[i - a - 1 - b] == s[i]);
                lemma_exponent_has_no_space(exp, i - a - 1 - b);
            }
        }
    } else {
        assert forall|i: int| 0 <= i < s.len() implies !is_space(#[trigger] s[i]) by {
            if i < a {
                lemma_digits_lead(s, i);
            } else {
                assert(rest[i - a] == s[i]);
                lemma_exponent_has_no_space(rest, i - a);
            }
        }
    }
}

proof fn lemma_name_is_word(t: Seq<char>, name: Seq<char>)
    requires
        lowered(t) == name,
        is_word(name),
    ensures
        is_word(t),
{
    assert(t.len() == name.len());
    assert forall|i: int| 0 <= i < t.len() implies !is_space(#[trigger] t[i]) by {
        assert(lowered(t)[i] == small(t[i]));
        assert(!is_space(name[i]));
    }
}

/// A real number is one word.
pub proof fn a_real_is_one_word(s: Seq<char>)
    requires
        is_real(s),
    ensures
        is_word(s),
{
    let t = unsigned(s);
    reveal_strlit("inf");
    reveal_strlit("infinity");
    reveal_strlit("nan");
    assert(is_word("inf"@));
    assert(is_word("infinity"@));
    assert(is_word("nan"@));
    if lowered(t) == "inf"@ {
        lemma_name_is_word(t, "inf"@);
    } else if lowered(t) == "infinity"@ {
        lemma_name_is_word(t, "infinity"@);
    } else if lowered(t) == "nan"@ {
        lemma_name_is_word(t, "nan"@);
    } else {
        lemma_decimal_is_word(t);
    }
    lemma_unsigned_is_word(s);
}

/// A number in decimal is one word.
pub proof fn a_decimal_is_one_word(n: nat)
    ensures
        is_word(decimal(n)),
{
    decimal_reads_back(n);
    let s = decimal(n);
    assert forall|i: int| 0 <= i < s.len() implies !is_space(#[trigger] s[i]) by {
        assert(is_digit(s[i]));
    }
}

} // verus!
