//! A fast, seeded hasher for short keys. The key of the client table is a source
//! address, which an attacker picks, so the seed is drawn from the system once
//! per table: which addresses collide depends on a secret that nobody outside
//! sees.

use std::hash::{BuildHasher, Hasher};
use vstd::arithmetic::div_mod::{lemma_mul_mod_noop_left, lemma_small_mod};
use vstd::prelude::*;

use crate::numbers::{natural_value, parse_natural};
use crate::text::chars_of;

verus! {

/// Odd multiplier of the key mixer.
pub const MIX: u64 = 0x9e37_79b1_85eb_ca87;

/// The multiplier's inverse modulo 2^64.
const UNMIX: u64 = 0x0887_4934_32ba_db37;

/// The number that a little-endian byte string stands for.
pub open spec fn le_value(bytes: Seq<u8>) -> nat
    decreases bytes.len(),
{
    if bytes.len() == 0 {
        0
    } else {
        bytes[0] as nat + 256 * le_value(bytes.drop_first())
    }
}

/// One past the largest number that `len` bytes hold.
pub open spec fn le_range(len: nat) -> nat
    decreases len,
{
    if len == 0 {
        1
    } else {
        256 * le_range((len - 1) as nat)
    }
}

/// What is mixed in for the bytes left after the last whole word: their number,
/// with how many they are in the top byte, so that trailing zero bytes cannot
/// alias a shorter key against a longer one.
pub open spec fn tail_word(rest: Seq<u8>) -> u64 {
    (le_value(rest) + rest.len() * 0x100_0000_0000_0000) as u64
}

/// A hash state with one word mixed in.
pub open spec fn mixed(state: u64, word: u64) -> u64 {
    ((state ^ word) * MIX % 0x1_0000_0000_0000_0000) as u64
}

/// A hash state with a byte string mixed in, eight bytes at a time.
pub open spec fn mixed_bytes(state: u64, bytes: Seq<u8>) -> u64
    decreases bytes.len(),
{
    if bytes.len() == 0 {
        state
    } else if bytes.len() < 8 {
        mixed(state, tail_word(bytes))
    } else {
        mixed_bytes(mixed(state, le_value(bytes.take(8)) as u64), bytes.skip(8))
    }
}

/// What makes a hash of a hash state: every bit depends on every bit, so that
/// adjacent addresses do not land in adjacent buckets.
pub open spec fn finished(state: u64) -> u64 {
    let a = ((state ^ (state >> 30)) * 0xbf58_476d_1ce4_e5b9 % 0x1_0000_0000_0000_0000) as u64;
    let b = ((a ^ (a >> 27)) * 0x94d0_49bb_1331_11eb % 0x1_0000_0000_0000_0000) as u64;
    b ^ (b >> 31)
}

/// The hasher of one key.
#[derive(Clone, Copy, Debug, PartialEq, Eq, Structural)]
pub struct ClientHasher {
    pub state: u64,
}

/// What makes a hasher per key.
#[derive(Clone, Copy, Debug, PartialEq, Eq, Structural)]
pub struct ClientHashBuilder {
    pub seed: u64,
}

impl ClientHashBuilder {
    /// A builder with the seed that was pinned, if one was and it is a number,
    /// else with the one that was drawn. A pinned seed is for measurement only:
    /// a known seed is a known set of collisions.
    pub fn seeded(pinned: Option<&str>, drawn: u64) -> (builder: Self)
        ensures
            builder.seed == match pinned {
                Some(text) => match natural_value(text@) {
                    Some(n) if n <= u64::MAX => n as u64,
                    _ => drawn,
                },
                None => drawn,
            },
    {
        let seed: u64 = match pinned {
            Some(text) => {
                let chars: Vec<char> = chars_of(text);
                match parse_natural(chars.as_slice(), u64::MAX) {
                    Some(n) => n,
                    None => drawn,
                }
            },
            None => drawn,
        };
        ClientHashBuilder { seed }
    }

    /// A hasher that starts from the seed.
    pub fn start(&self) -> (hasher: ClientHasher)
        ensures
            hasher.state == self.seed,
    {
        ClientHasher { state: self.seed }
    }
}

fn times(a: u64, b: u64) -> (product: u64)
    ensures
        product == (a * b % 0x1_0000_0000_0000_0000) as u64,
{
    a.wrapping_mul(b)
}

impl ClientHasher {
    pub fn mix(&mut self, word: u64)
        ensures
            final(self).state == mixed(old(self).state, word),
    {
        self.state = times(self.state ^ word, MIX);
    }

    /// Mix in a byte string.
    pub fn mix_bytes(&mut self, bytes: &[u8])
        ensures
            final(self).state == mixed_bytes(old(self).state, bytes@),
    {
        let end: usize = bytes.len();
        let mut at: usize = 0;
        assert(bytes@.skip(0) =~= bytes@);
        while end - at >= 8
            invariant
                at <= end == bytes@.len(),
                mixed_bytes(old(self).state, bytes@) == mixed_bytes(
                    self.state,
                    bytes@.skip(at as int),
                ),
            decreases end - at,
        {
            let word: u64 = read_le(bytes, at, 8);
            proof {
                let rest = bytes@.skip(at as int);
                assert(rest.take(8) =~= bytes@.subrange(at as int, at + 8));
                assert(rest.skip(8) =~= bytes@.skip(at + 8));
            }
            self.mix(word);
            at = at + 8;
        }
        if at < end {
            let rest: u64 = read_le(bytes, at, end - at);
            proof {
                assert(bytes@.subrange(at as int, end as int) =~= bytes@.skip(at as int));
                lemma_le_bound(bytes@.skip(at as int));
                reveal_with_fuel(le_range, 9);
                lemma_range_grows((end - at) as nat, 7);
            }
            let count: u64 = (end - at) as u64;
            self.mix(rest + count * 0x100_0000_0000_0000);
        }
    }

    /// The hash of what was mixed in.
    pub fn digest(&self) -> (hash: u64)
        ensures
            hash == finished(self.state),
    {
        let z: u64 = self.state;
        let a: u64 = times(z ^ (z >> 30), 0xbf58_476d_1ce4_e5b9);
        let b: u64 = times(a ^ (a >> 27), 0x94d0_49bb_1331_11eb);
        b ^ (b >> 31)
    }
}

proof fn lemma_le_bound(bytes: Seq<u8>)
    ensures
        le_value(bytes) < le_range(bytes.len()),
    decreases bytes.len(),
{
    if bytes.len() > 0 {
        lemma_le_bound(bytes.drop_first());
    }
}

proof fn lemma_range_grows(a: nat, b: nat)
    requires
        a <= b,
    ensures
        1 <= le_range(a) <= le_range(b),
    decreases b,
{
    if a < b {
        lemma_range_grows(a, (b - 1) as nat);
    } else if b > 0 {
        lemma_range_grows((a - 1) as nat, (b - 1) as nat);
    }
}

/// The number of `count` bytes, little end first.
fn read_le(bytes: &[u8], at: usize, count: usize) -> (value: u64)
    requires
        at + count <= bytes@.len(),
        count <= 8,
    ensures
        value == le_value(bytes@.subrange(at as int, at + count)),
{
    let end: usize = bytes.len();
    let mut value: u64 = 0;
    let mut i: usize = count;
    let ghost all = bytes@.subrange(at as int, at + count);
    proof {
        assert(all.skip(count as int) =~= Seq::empty());
        reveal_with_fuel(le_range, 9);
    }
    while i > 0
        invariant
            i <= count <= 8,
            at + count <= end == bytes@.len(),
            all == bytes@.subrange(at as int, at + count),
            value == le_value(all.skip(i as int)),
        decreases i,
    {
        proof {
            let rest = all.skip(i as int);
            lemma_le_bound(rest);
            lemma_range_grows(rest.len(), 7);
            reveal_with_fuel(le_range, 9);
            assert(all.skip(i - 1).drop_first() =~= rest);
            assert(all.skip(i - 1)[0] == bytes@[at + i - 1]);
        }
        i = i - 1;
        value = bytes[at + i] as u64 + 256 * value;
    }
    assert(all.skip(0) =~= all);
    value
}

impl Hasher for ClientHasher {
    fn write(&mut self, bytes: &[u8])
        ensures
            final(self).state == mixed_bytes(old(self).state, bytes@),
    {
        self.mix_bytes(bytes);
    }

    fn write_u8(&mut self, value: u8)
        ensures
            final(self).state == mixed(old(self).state, value as u64),
    {
        self.mix(value as u64);
    }

    fn write_u32(&mut self, value: u32)
        ensures
            final(self).state == mixed(old(self).state, value as u64),
    {
        self.mix(value as u64);
    }

    fn write_u64(&mut self, value: u64)
        ensures
            final(self).state == mixed(old(self).state, value),
    {
        self.mix(value);
    }

    fn write_usize(&mut self, value: usize)
        ensures
            final(self).state == mixed(old(self).state, value as u64),
    {
        self.mix(value as u64);
    }

    fn finish(&self) -> (hash: u64)
        ensures
            hash == finished(self.state),
    {
        self.digest()
    }
}

impl BuildHasher for ClientHashBuilder {
    type Hasher = ClientHasher;

    fn build_hasher(&self) -> (hasher: ClientHasher)
        ensures
            hasher.state == self.seed,
    {
        self.start()
    }
}

proof fn lemma_le_injective(a: Seq<u8>, b: Seq<u8>)
    requires
        a.len() == b.len(),
        le_value(a) == le_value(b),
    ensures
        a == b,
    decreases a.len(),
{
    if a.len() > 0 {
        lemma_le_injective(a.drop_first(), b.drop_first());
        assert(a =~= seq![a[0]] + a.drop_first());
        assert(b =~= seq![b[0]] + b.drop_first());
    } else {
        assert(a =~= b);
    }
}

/// Different words give different states: mixing loses nothing.
pub proof fn mixing_loses_nothing(state: u64, a: u64, b: u64)
    requires
        mixed(state, a) == mixed(state, b),
    ensures
        a == b,
{
    lemma_unmix(state ^ a);
    lemma_unmix(state ^ b);
    assert(state ^ a == state ^ b);
    assert(a == b) by (bit_vector)
        requires
            state ^ a == state ^ b,
    ;
}

proof fn lemma_unmix(x: u64)
    ensures
        (x * MIX % 0x1_0000_0000_0000_0000) * UNMIX % 0x1_0000_0000_0000_0000 == x,
{
    let m = 0x1_0000_0000_0000_0000int;
    lemma_mul_mod_noop_left(x * MIX, UNMIX as int, m);
    assert((x * MIX) * UNMIX == x * (MIX * UNMIX)) by (nonlinear_arith);
    let k = 379806830464837242int;
    assert(MIX * UNMIX == k * m + 1);
    assert(x * (MIX * UNMIX) == (x * k) * m + x) by (nonlinear_arith)
        requires
            MIX * UNMIX == k * m + 1,
    ;
    vstd::arithmetic::div_mod::lemma_mod_multiples_vanish(x * k, x as int, m);
    assert(((x * k) * m + x) == m * (x * k) + x) by (nonlinear_arith);
    lemma_small_mod(x as nat, m as nat);
}

/// Two keys of fewer than eight bytes, whatever their lengths, never reach the
/// same state from the same seed, trailing zero bytes or not.
pub proof fn short_keys_never_alias(seed: u64, a: Seq<u8>, b: Seq<u8>)
    requires
        1 <= a.len() < 8,
        1 <= b.len() < 8,
        mixed_bytes(seed, a) == mixed_bytes(seed, b),
    ensures
        a == b,
{
    mixing_loses_nothing(seed, tail_word(a), tail_word(b));
    lemma_le_bound(a);
    lemma_le_bound(b);
    reveal_with_fuel(le_range, 9);
    lemma_range_grows(a.len(), 7);
    lemma_range_grows(b.len(), 7);
    assert(a.len() == b.len());
    lemma_le_injective(a, b);
}

} // verus!
