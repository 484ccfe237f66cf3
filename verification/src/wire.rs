//! Big-endian integers on byte slices, the one number format on the wire.

use vstd::prelude::*;

verus! {

/// The number a big-endian byte string stands for.
pub open spec fn be_value(bytes: Seq<u8>) -> nat
    decreases bytes.len(),
{
    if bytes.len() == 0 {
        0
    } else {
        be_value(bytes.drop_last()) * 256 + bytes.last() as nat
    }
}

/// The low `len` bytes of `value`, most significant byte first.
pub open spec fn be_bytes(value: nat, len: nat) -> Seq<u8>
    decreases len,
{
    if len == 0 {
        Seq::empty()
    } else {
        be_bytes(value / 256, (len - 1) as nat).push((value % 256) as u8)
    }
}

/// `256` to the power `len`: one past the largest value `len` bytes can hold.
pub open spec fn byte_range(len: nat) -> nat
    decreases len,
{
    if len == 0 {
        1
    } else {
        256 * byte_range((len - 1) as nat)
    }
}

/// Encoding fills exactly the bytes it was given.
pub proof fn lemma_be_bytes_len(value: nat, len: nat)
    ensures
        be_bytes(value, len).len() == len,
    decreases len,
{
    if len > 0 {
        lemma_be_bytes_len(value / 256, (len - 1) as nat);
    }
}

/// Decoding an encoded number gives the number back.
pub proof fn be_decode_of_encode(value: nat, len: nat)
    requires
        value < byte_range(len),
    ensures
        be_value(be_bytes(value, len)) == value,
    decreases len,
{
    if len > 0 {
        let shorter: nat = (len - 1) as nat;
        assert(value / 256 < byte_range(shorter));
        be_decode_of_encode(value / 256, shorter);
        let bytes = be_bytes(value, len);
        assert(bytes.drop_last() =~= be_bytes(value / 256, shorter));
    }
}

/// Encoding a decoded byte string gives the byte string back.
pub proof fn be_encode_of_decode(bytes: Seq<u8>)
    ensures
        be_bytes(be_value(bytes), bytes.len()) == bytes,
        be_value(bytes) < byte_range(bytes.len()),
    decreases bytes.len(),
{
    if bytes.len() > 0 {
        let shorter = bytes.drop_last();
        be_encode_of_decode(shorter);
        let high = be_value(shorter);
        let value = be_value(bytes);
        assert(value / 256 == high);
        assert(value % 256 == bytes.last() as nat);
        assert(be_bytes(value, bytes.len()) =~= bytes);
    }
}

pub(crate) proof fn lemma_be_value_2(b: Seq<u8>)
    requires
        b.len() == 2,
    ensures
        be_value(b) == b[0] as nat * 256 + b[1] as nat,
{
    reveal_with_fuel(be_value, 3);
}

pub(crate) proof fn lemma_be_value_4(b: Seq<u8>)
    requires
        b.len() == 4,
    ensures
        be_value(b) == b[0] as nat * 0x100_0000 + b[1] as nat * 0x1_0000 + b[2] as nat * 0x100
            + b[3] as nat,
{
    reveal_with_fuel(be_value, 5);
}

pub(crate) proof fn lemma_be_value_8(b: Seq<u8>)
    requires
        b.len() == 8,
    ensures
        be_value(b) == be_value(b.subrange(0, 4)) * 0x1_0000_0000 + be_value(b.subrange(4, 8)),
{
    reveal_with_fuel(be_value, 5);
    let hi = b.subrange(0, 4);
    assert(b.drop_last().drop_last().drop_last().drop_last() =~= hi);
    lemma_be_value_4(b.subrange(4, 8));
}

/// Two bytes at `at`, or zero where the slice ends too early.
pub fn read_u16(buf: &[u8], at: usize) -> (value: u16)
    requires
        at + 2 <= usize::MAX,
    ensures
        at + 2 <= buf@.len() ==> value == be_value(buf@.subrange(at as int, at + 2)),
        at + 2 > buf@.len() ==> value == 0,
{
    if at + 2 <= buf.len() {
        proof {
            lemma_be_value_2(buf@.subrange(at as int, at + 2));
        }
        (buf[at] as u16) * 256 + buf[at + 1] as u16
    } else {
        0
    }
}

/// Four bytes at `at`, or zero where the slice ends too early.
pub fn read_u32(buf: &[u8], at: usize) -> (value: u32)
    requires
        at + 4 <= usize::MAX,
    ensures
        at + 4 <= buf@.len() ==> value == be_value(buf@.subrange(at as int, at + 4)),
        at + 4 > buf@.len() ==> value == 0,
{
    if at + 4 <= buf.len() {
        proof {
            lemma_be_value_4(buf@.subrange(at as int, at + 4));
        }
        (buf[at] as u32) * 0x100_0000 + (buf[at + 1] as u32) * 0x1_0000 + (buf[at + 2] as u32)
            * 0x100 + buf[at + 3] as u32
    } else {
        0
    }
}

/// Eight bytes at `at`, or zero where the slice ends too early.
pub fn read_u64(buf: &[u8], at: usize) -> (value: u64)
    requires
        at + 8 <= usize::MAX,
    ensures
        at + 8 <= buf@.len() ==> value == be_value(buf@.subrange(at as int, at + 8)),
        at + 8 > buf@.len() ==> value == 0,
{
    if at + 8 <= buf.len() {
        let high: u32 = read_u32(buf, at);
        let low: u32 = read_u32(buf, at + 4);
        proof {
            let b = buf@.subrange(at as int, at + 8);
            lemma_be_value_8(b);
            assert(b.subrange(0, 4) =~= buf@.subrange(at as int, at + 4));
            assert(b.subrange(4, 8) =~= buf@.subrange(at + 4, at + 8));
        }
        (high as u64) * 0x1_0000_0000 + low as u64
    } else {
        0
    }
}

/// The two bytes of `value`, most significant first.
pub fn u16_bytes(value: u16) -> (bytes: [u8; 2])
    ensures
        bytes@ == be_bytes(value as nat, 2),
{
    let bytes: [u8; 2] = [(value / 0x100) as u8, (value % 0x100) as u8];
    proof {
        reveal_with_fuel(be_bytes, 3);
        assert(bytes@ =~= be_bytes(value as nat, 2));
    }
    bytes
}

/// The four bytes of `value`, most significant first.
pub fn u32_bytes(value: u32) -> (bytes: [u8; 4])
    ensures
        bytes@ == be_bytes(value as nat, 4),
{
    let bytes: [u8; 4] = [
        (value / 0x100_0000) as u8,
        (value / 0x1_0000 % 0x100) as u8,
        (value / 0x100 % 0x100) as u8,
        (value % 0x100) as u8,
    ];
    proof {
        reveal_with_fuel(be_bytes, 5);
        assert(bytes@ =~= be_bytes(value as nat, 4));
    }
    bytes
}

/// The eight bytes of `value`, most significant first.
pub fn u64_bytes(value: u64) -> (bytes: [u8; 8])
    ensures
        bytes@ == be_bytes(value as nat, 8),
{
    let h: [u8; 4] = u32_bytes((value / 0x1_0000_0000) as u32);
    let l: [u8; 4] = u32_bytes((value % 0x1_0000_0000) as u32);
    let bytes: [u8; 8] = [h[0], h[1], h[2], h[3], l[0], l[1], l[2], l[3]];
    proof {
        lemma_be_bytes_split(value as nat);
        assert(bytes@ =~= h@ + l@);
    }
    bytes
}

pub(crate) proof fn lemma_be_bytes_split(value: nat)
    ensures
        be_bytes(value, 8) == be_bytes(value / 0x1_0000_0000, 4) + be_bytes(
            value % 0x1_0000_0000,
            4,
        ),
{
    reveal_with_fuel(be_bytes, 9);
    let low = value % 0x1_0000_0000;
    assert(value / 256 / 256 / 256 / 256 == value / 0x1_0000_0000);
    assert(value % 256 == low % 256);
    assert(value / 256 % 256 == low / 256 % 256);
    assert(value / 256 / 256 % 256 == low / 256 / 256 % 256);
    assert(value / 256 / 256 / 256 % 256 == low / 256 / 256 / 256 % 256);
    lemma_be_bytes_len(value, 8);
    lemma_be_bytes_len(value / 0x1_0000_0000, 4);
    lemma_be_bytes_len(low, 4);
    assert(be_bytes(value, 8) =~= be_bytes(value / 0x1_0000_0000, 4) + be_bytes(low, 4));
}

} // verus!
