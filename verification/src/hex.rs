//! Bytes as lower-case hexadecimal text, and back.

use vstd::prelude::*;

use crate::text::chars_of;

verus! {

/// The digit that stands for a number below sixteen.
pub open spec fn hex_digit(n: int) -> char {
    if n < 10 {
        (48 + n) as u8 as char
    } else {
        (87 + n) as u8 as char
    }
}

/// The number a hex digit stands for, in either case.
pub open spec fn hex_value(c: char) -> Option<int> {
    if '0' <= c <= '9' {
        Some(c as u32 - 48)
    } else if 'a' <= c <= 'f' {
        Some(c as u32 - 87)
    } else if 'A' <= c <= 'F' {
        Some(c as u32 - 55)
    } else {
        None
    }
}

/// Bytes as text: two digits each.
pub open spec fn hex_text(bytes: Seq<u8>) -> Seq<char>
    decreases bytes.len(),
{
    if bytes.len() == 0 {
        Seq::empty()
    } else {
        hex_text(bytes.drop_last()) + seq![
            hex_digit(bytes.last() as int / 16),
            hex_digit(bytes.last() as int % 16),
        ]
    }
}

fn digit(n: u8) -> (c: char)
    requires
        n < 16,
    ensures
        c == hex_digit(n as int),
{
    if n < 10 {
        (48 + n) as char
    } else {
        (87 + n) as char
    }
}

/// Bytes as hexadecimal text.
pub fn hex(bytes: &[u8]) -> (text: String)
    ensures
        text@ == hex_text(bytes@),
{
    let mut text: String = String::new();
    let mut i: usize = 0;
    assert(bytes@.take(0) =~= Seq::empty());
    while i < bytes.len()
        invariant
            i <= bytes@.len(),
            text@ == hex_text(bytes@.take(i as int)),
        decreases bytes@.len() - i,
    {
        let b: u8 = bytes[i];
        let ghost before = text@;
        text.push(digit(b / 16));
        text.push(digit(b % 16));
        proof {
            let now = bytes@.take(i + 1);
            assert(now.drop_last() =~= bytes@.take(i as int));
            assert(now.last() == b);
            assert(text@ =~= before + seq![hex_digit(b as int / 16), hex_digit(b as int % 16)]);
        }
        i = i + 1;
    }
    assert(bytes@.take(i as int) =~= bytes@);
    text
}


/// Whether a text is pairs of hex digits.
pub open spec fn is_hex(text: Seq<char>) -> bool {
    text.len() % 2 == 0 && forall|i: int| 0 <= i < text.len() ==> hex_value(#[trigger] text[i]) is Some
}

/// The bytes that pairs of hex digits stand for.
pub open spec fn hex_bytes(text: Seq<char>) -> Seq<u8> {
    Seq::new(
        text.len() / 2,
        |i: int| (hex_value(text[2 * i])->Some_0 * 16 + hex_value(text[2 * i + 1])->Some_0) as u8,
    )
}

/// The number that a hex digit stands for, in either case.
pub(crate) fn value_of_digit(c: char) -> (v: Option<u8>)
    ensures
        match hex_value(c) {
            Some(n) => v is Some && v->Some_0 == n && n < 16,
            None => v is None,
        },
{
    if '0' <= c && c <= '9' {
        Some((c as u32 - 48) as u8)
    } else if 'a' <= c && c <= 'f' {
        Some((c as u32 - 87) as u8)
    } else if 'A' <= c && c <= 'F' {
        Some((c as u32 - 55) as u8)
    } else {
        None
    }
}

/// The bytes of a hexadecimal text, in either case; `None` where it is not one.
pub fn unhex(s: &str) -> (bytes: Option<Vec<u8>>)
    ensures
        match bytes {
            Some(b) => is_hex(s@) && b@ == hex_bytes(s@),
            None => !is_hex(s@),
        },
{
    let text: Vec<char> = chars_of(s);
    if text.len() % 2 != 0 {
        return None;
    }
    let mut out: Vec<u8> = Vec::new();
    let mut i: usize = 0;
    while i < text.len()
        invariant
            text@ == s@,
            text@.len() % 2 == 0,
            i <= text@.len(),
            i % 2 == 0,
            forall|j: int| 0 <= j < i ==> hex_value(#[trigger] s@[j]) is Some,
            out@ == hex_bytes(s@.take(i as int)),
        decreases text@.len() - i,
    {
        let (hi, lo): (u8, u8) = match (value_of_digit(text[i]), value_of_digit(text[i + 1])) {
            (Some(h), Some(l)) => (h, l),
            _ => {
                assert(!is_hex(s@)) by {
                    assert(hex_value(s@[i as int]) is None || hex_value(s@[i + 1]) is None);
                }
                return None;
            },
        };
        let ghost before = out@;
        out.push(hi * 16 + lo);
        proof {
            let now = s@.take(i + 2);
            let old = s@.take(i as int);
            assert(now.len() / 2 == old.len() / 2 + 1);
            assert(out@ =~= hex_bytes(now)) by {
                assert forall|k: int| 0 <= k < out@.len() implies out@[k] == hex_bytes(now)[k] by {
                    if k < before.len() {
                        assert(before[k] == hex_bytes(old)[k]);
                        assert(now[2 * k] == old[2 * k] && now[2 * k + 1] == old[2 * k + 1]);
                    } else {
                        assert(2 * k == i);
                        assert(now[i as int] == s@[i as int] && now[i + 1] == s@[i + 1]);
                    }
                }
            }
        }
        i = i + 2;
    }
    assert(s@.take(i as int) =~= s@);
    Some(out)
}

/// Text made of bytes reads back as the bytes.
pub proof fn hex_reads_back(bytes: Seq<u8>)
    ensures
        is_hex(hex_text(bytes)),
        hex_text(bytes).len() == 2 * bytes.len(),
        hex_bytes(hex_text(bytes)) == bytes,
    decreases bytes.len(),
{
    let text = hex_text(bytes);
    if bytes.len() == 0 {
        assert(hex_bytes(text) =~= bytes);
    } else {
        let shorter = bytes.drop_last();
        let head = hex_text(shorter);
        hex_reads_back(shorter);
        let b = bytes.last() as int;
        lemma_hex_digit(b / 16);
        lemma_hex_digit(b % 16);
        assert forall|i: int| 0 <= i < text.len() implies hex_value(#[trigger] text[i]) is Some by {
            if i < head.len() {
                assert(text[i] == head[i]);
            }
        }
        assert(hex_bytes(text) =~= bytes) by {
            assert forall|k: int| 0 <= k < bytes.len() implies hex_bytes(text)[k] == bytes[k] by {
                if k < shorter.len() {
                    assert(text[2 * k] == head[2 * k] && text[2 * k + 1] == head[2 * k + 1]);
                    assert(hex_bytes(head)[k] == shorter[k]);
                } else {
                    assert(2 * k == head.len());
                }
            }
        }
    }
}

proof fn lemma_hex_digit(n: int)
    requires
        0 <= n < 16,
    ensures
        hex_value(hex_digit(n)) == Some(n),
{
}

} // verus!
