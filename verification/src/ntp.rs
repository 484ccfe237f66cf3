//! The NTPv4 packet: a 48-byte header (RFC 5905) and the extension fields that
//! may follow it (RFC 7822). No input makes the parsers fail other than by
//! returning an error.

use vstd::prelude::*;
use vstd::slice::slice_subrange;

use crate::wire::{
    be_bytes, be_value, byte_range, read_u16, read_u32, read_u64, u32_bytes, u64_bytes,
};

verus! {

/// Length of the fixed NTPv4 header.
pub const HEADER_LEN: usize = 48;

/// Seconds between the NTP era-0 epoch (1900-01-01) and the Unix epoch (1970-01-01).
pub const UNIX_EPOCH_OFFSET: u64 = 2_208_988_800;

/// One second in units of the timestamp fraction, 2^32.
pub const TICKS_PER_SECOND: u64 = 0x1_0000_0000;

/// One second in nanoseconds.
pub const NANOS_PER_SECOND: u64 = 1_000_000_000;

/// The number of distinct timestamps, 2^64: one NTP era.
pub open spec fn era_ticks() -> int {
    0x1_0000_0000_0000_0000
}

/// 64-bit NTP timestamp: 32.32 fixed-point seconds since the era epoch.
#[derive(Clone, Copy, Debug, PartialEq, Eq, Structural)]
pub struct NtpTimestamp(pub u64);

/// A signed span of time in 32.32 fixed-point seconds: units of 2^-32 s.
#[derive(Clone, Copy, Debug, PartialEq, Eq, Structural)]
pub struct NtpInterval(pub i64);

impl Default for NtpTimestamp {
    fn default() -> (ts: NtpTimestamp)
        ensures
            ts == NtpTimestamp(0),
    {
        NtpTimestamp(0)
    }
}

/// The timestamp of a Unix time, on the mathematical integers: the NTP second
/// count is taken modulo one era, and the fraction is rounded down.
pub open spec fn unix_ticks(secs: int, nanos: int) -> int {
    ((secs + UNIX_EPOCH_OFFSET) % (TICKS_PER_SECOND as int)) * TICKS_PER_SECOND + nanos
        * TICKS_PER_SECOND / (NANOS_PER_SECOND as int) % (TICKS_PER_SECOND as int)
}

impl NtpTimestamp {
    pub fn from_parts(seconds: u32, fraction: u32) -> (ts: Self)
        ensures
            ts.0 == seconds * TICKS_PER_SECOND + fraction,
    {
        NtpTimestamp(seconds as u64 * TICKS_PER_SECOND + fraction as u64)
    }

    pub fn seconds(self) -> (seconds: u32)
        ensures
            seconds == self.0 / TICKS_PER_SECOND,
    {
        (self.0 / TICKS_PER_SECOND) as u32
    }

    pub fn fraction(self) -> (fraction: u32)
        ensures
            fraction == self.0 % TICKS_PER_SECOND,
    {
        (self.0 % TICKS_PER_SECOND) as u32
    }

    /// Build from Unix wall time. Era wrap (2036) is handled by truncation to the
    /// low 32 bits of the NTP second count, per RFC 5905 era arithmetic.
    pub fn from_unix(secs: i64, nanos: u32) -> (ts: Self)
        ensures
            ts.0 == unix_ticks(secs as int, nanos as int),
    {
        let shifted: i128 = secs as i128 + UNIX_EPOCH_OFFSET as i128;
        let wrapped: i128 = shifted % (TICKS_PER_SECOND as i128);
        let low: i128 = if wrapped < 0 { wrapped + TICKS_PER_SECOND as i128 } else { wrapped };
        let frac: u64 = nanos as u64 * TICKS_PER_SECOND / NANOS_PER_SECOND;
        NtpTimestamp(low as u64 * TICKS_PER_SECOND + frac % TICKS_PER_SECOND)
    }

    /// The span from `earlier` to `self`, correct across era wrap for spans
    /// under 68 years either way (the same guarantee RFC 5905 gives).
    pub fn seconds_since(self, earlier: NtpTimestamp) -> (span: NtpInterval)
        ensures
            (span.0 - (self.0 - earlier.0)) % era_ticks() == 0,
    {
        let diff: u64 = self.0.wrapping_sub(earlier.0);
        let signed: i64 = if diff < 0x8000_0000_0000_0000 {
            diff as i64
        } else {
            (diff as i128 - 0x1_0000_0000_0000_0000i128) as i64
        };
        NtpInterval(signed)
    }

    pub fn is_zero(self) -> (zero: bool)
        ensures
            zero == (self.0 == 0),
    {
        self.0 == 0
    }
}

/// 32-bit NTP short format: 16.16 fixed-point seconds (root delay / dispersion).
#[derive(Clone, Copy, Debug, PartialEq, Eq, Structural)]
pub struct NtpShort(pub u32);

impl Default for NtpShort {
    fn default() -> (short: NtpShort)
        ensures
            short == NtpShort(0),
    {
        NtpShort(0)
    }
}

#[derive(Clone, Copy, Debug, PartialEq, Eq, Structural)]
pub enum LeapIndicator {
    NoWarning,
    LastMinute61,
    LastMinute59,
    Unsynchronized,
}

impl LeapIndicator {
    /// The two-bit wire code of each warning.
    pub open spec fn code(self) -> u8 {
        match self {
            LeapIndicator::NoWarning => 0,
            LeapIndicator::LastMinute61 => 1,
            LeapIndicator::LastMinute59 => 2,
            LeapIndicator::Unsynchronized => 3,
        }
    }

    /// Decode the low two bits of `b`.
    pub fn from_bits(b: u8) -> (leap: Self)
        ensures
            leap.code() == b % 4,
    {
        match b % 4 {
            0 => LeapIndicator::NoWarning,
            1 => LeapIndicator::LastMinute61,
            2 => LeapIndicator::LastMinute59,
            _ => LeapIndicator::Unsynchronized,
        }
    }

    pub fn bits(self) -> (code: u8)
        ensures
            code == self.code(),
            code < 4,
    {
        match self {
            LeapIndicator::NoWarning => 0,
            LeapIndicator::LastMinute61 => 1,
            LeapIndicator::LastMinute59 => 2,
            LeapIndicator::Unsynchronized => 3,
        }
    }
}

#[derive(Clone, Copy, Debug, PartialEq, Eq, Structural)]
pub enum Mode {
    Reserved,
    SymmetricActive,
    SymmetricPassive,
    Client,
    Server,
    Broadcast,
    Control,
    Private,
}

impl Mode {
    /// The three-bit wire code of each mode.
    pub open spec fn code(self) -> u8 {
        match self {
            Mode::Reserved => 0,
            Mode::SymmetricActive => 1,
            Mode::SymmetricPassive => 2,
            Mode::Client => 3,
            Mode::Server => 4,
            Mode::Broadcast => 5,
            Mode::Control => 6,
            Mode::Private => 7,
        }
    }

    /// Decode the low three bits of `b`.
    pub fn from_bits(b: u8) -> (mode: Self)
        ensures
            mode.code() == b % 8,
    {
        match b % 8 {
            1 => Mode::SymmetricActive,
            2 => Mode::SymmetricPassive,
            3 => Mode::Client,
            4 => Mode::Server,
            5 => Mode::Broadcast,
            6 => Mode::Control,
            7 => Mode::Private,
            _ => Mode::Reserved,
        }
    }

    pub fn bits(self) -> (code: u8)
        ensures
            code == self.code(),
            code < 8,
    {
        match self {
            Mode::Reserved => 0,
            Mode::SymmetricActive => 1,
            Mode::SymmetricPassive => 2,
            Mode::Client => 3,
            Mode::Server => 4,
            Mode::Broadcast => 5,
            Mode::Control => 6,
            Mode::Private => 7,
        }
    }
}

#[derive(Clone, Copy, Debug, PartialEq, Eq, Structural)]
pub enum ParseError {
    /// Fewer than 48 bytes.
    TooShort { len: usize },
    /// Version outside 3..=4.
    BadVersion { version: u8 },
}

/// The fixed NTPv4 header.
#[derive(Clone, Copy, Debug, PartialEq, Eq)]
pub struct NtpPacket {
    pub leap: LeapIndicator,
    pub version: u8,
    pub mode: Mode,
    pub stratum: u8,
    pub poll: i8,
    pub precision: i8,
    pub root_delay: NtpShort,
    pub root_dispersion: NtpShort,
    pub reference_id: [u8; 4],
    pub reference_ts: NtpTimestamp,
    pub origin_ts: NtpTimestamp,
    pub receive_ts: NtpTimestamp,
    pub transmit_ts: NtpTimestamp,
}

/// The two's complement byte of a signed byte.
pub open spec fn i8_byte(v: i8) -> u8 {
    if v < 0 {
        (v + 256) as u8
    } else {
        v as u8
    }
}

/// The signed byte a two's complement byte stands for.
pub open spec fn byte_i8(b: u8) -> i8 {
    if b < 128 {
        b as i8
    } else {
        (b - 256) as i8
    }
}

fn to_i8(b: u8) -> (v: i8)
    ensures
        v == byte_i8(b),
{
    if b < 128 {
        b as i8
    } else {
        (b as i16 - 256) as i8
    }
}

fn from_i8(v: i8) -> (b: u8)
    ensures
        b == i8_byte(v),
{
    if v < 0 {
        (v as i16 + 256) as u8
    } else {
        v as u8
    }
}

impl NtpPacket {
    /// The 48 bytes of the header, in the field order of RFC 5905.
    pub open spec fn wire(self) -> Seq<u8> {
        seq![
            (self.leap.code() * 64 + self.version % 8 * 8 + self.mode.code()) as u8,
            self.stratum,
            i8_byte(self.poll),
            i8_byte(self.precision),
        ] + be_bytes(self.root_delay.0 as nat, 4) + be_bytes(self.root_dispersion.0 as nat, 4)
            + self.reference_id@ + be_bytes(self.reference_ts.0 as nat, 8) + be_bytes(
            self.origin_ts.0 as nat,
            8,
        ) + be_bytes(self.receive_ts.0 as nat, 8) + be_bytes(self.transmit_ts.0 as nat, 8)
    }

    /// Whether the header is a client's request with this version and timestamp:
    /// everything else in it says nothing.
    pub open spec fn asks(self, version: u8, transmit_ts: NtpTimestamp) -> bool {
        &&& self.leap == LeapIndicator::NoWarning
        &&& self.version == version
        &&& self.mode == Mode::Client
        &&& self.stratum == 0
        &&& self.poll == 0
        &&& self.precision == 32
        &&& self.root_delay.0 == 0
        &&& self.root_dispersion.0 == 0
        &&& self.reference_id@ == seq![0u8, 0u8, 0u8, 0u8]
        &&& self.reference_ts.0 == 0
        &&& self.origin_ts.0 == 0
        &&& self.receive_ts.0 == 0
        &&& self.transmit_ts == transmit_ts
    }

    /// A mode-3 client request. The caller supplies `transmit_ts`, which SHOULD be
    /// an unpredictable nonce rather than the real clock (BCP: it is echoed back as
    /// `origin_ts` and is the only spoofing defence an unauthenticated client has).
    pub fn client_request(version: u8, transmit_ts: NtpTimestamp) -> (packet: Self)
        ensures
            packet.asks(version, transmit_ts),
            packet.leap == LeapIndicator::NoWarning,
            packet.version == version,
            packet.mode == Mode::Client,
            packet.stratum == 0,
            packet.poll == 0,
            packet.precision == 32,
            packet.root_delay.0 == 0,
            packet.root_dispersion.0 == 0,
            packet.reference_id@ == seq![0u8, 0u8, 0u8, 0u8],
            packet.reference_ts.0 == 0,
            packet.origin_ts.0 == 0,
            packet.receive_ts.0 == 0,
            packet.transmit_ts == transmit_ts,
    {
        let reference_id: [u8; 4] = [0, 0, 0, 0];
        assert(reference_id@ =~= seq![0u8, 0u8, 0u8, 0u8]);
        NtpPacket {
            leap: LeapIndicator::NoWarning,
            version,
            mode: Mode::Client,
            stratum: 0,
            poll: 0,
            precision: 32,
            root_delay: NtpShort(0),
            root_dispersion: NtpShort(0),
            reference_id,
            reference_ts: NtpTimestamp(0),
            origin_ts: NtpTimestamp(0),
            receive_ts: NtpTimestamp(0),
            transmit_ts,
        }
    }

    /// Whether `self` is what the header bytes at the front of `buf` say, for a
    /// `buf` of at least 48 bytes.
    pub open spec fn decodes(self, buf: Seq<u8>) -> bool {
        &&& self.leap.code() == buf[0] / 64
        &&& self.version == buf[0] / 8 % 8
        &&& self.mode.code() == buf[0] % 8
        &&& self.stratum == buf[1]
        &&& self.poll == byte_i8(buf[2])
        &&& self.precision == byte_i8(buf[3])
        &&& self.root_delay.0 == be_value(buf.subrange(4, 8))
        &&& self.root_dispersion.0 == be_value(buf.subrange(8, 12))
        &&& self.reference_id@ == buf.subrange(12, 16)
        &&& self.reference_ts.0 == be_value(buf.subrange(16, 24))
        &&& self.origin_ts.0 == be_value(buf.subrange(24, 32))
        &&& self.receive_ts.0 == be_value(buf.subrange(32, 40))
        &&& self.transmit_ts.0 == be_value(buf.subrange(40, 48))
    }

    /// Parse the 48-byte header. Trailing bytes (extension fields / legacy MAC) are
    /// left to [`extension_fields`].
    pub fn parse(buf: &[u8]) -> (parsed: Result<NtpPacket, ParseError>)
        ensures
            match parsed {
                Ok(packet) => buf@.len() >= HEADER_LEN && 3 <= buf@[0] / 8 % 8 <= 4
                    && packet.decodes(buf@),
                Err(ParseError::TooShort { len }) => buf@.len() < HEADER_LEN && len == buf@.len(),
                Err(ParseError::BadVersion { version }) => buf@.len() >= HEADER_LEN && version
                    == buf@[0] / 8 % 8 && !(3 <= version <= 4),
            },
    {
        if buf.len() < HEADER_LEN {
            return Err(ParseError::TooShort { len: buf.len() });
        }
        let b0: u8 = buf[0];
        let version: u8 = b0 / 8 % 8;
        if version < 3 || version > 4 {
            return Err(ParseError::BadVersion { version });
        }
        let reference_id: [u8; 4] = [buf[12], buf[13], buf[14], buf[15]];
        assert(reference_id@ =~= buf@.subrange(12, 16));
        Ok(
            NtpPacket {
                leap: LeapIndicator::from_bits(b0 / 64),
                version,
                mode: Mode::from_bits(b0),
                stratum: buf[1],
                poll: to_i8(buf[2]),
                precision: to_i8(buf[3]),
                root_delay: NtpShort(read_u32(buf, 4)),
                root_dispersion: NtpShort(read_u32(buf, 8)),
                reference_id,
                reference_ts: NtpTimestamp(read_u64(buf, 16)),
                origin_ts: NtpTimestamp(read_u64(buf, 24)),
                receive_ts: NtpTimestamp(read_u64(buf, 32)),
                transmit_ts: NtpTimestamp(read_u64(buf, 40)),
            },
        )
    }

    /// Serialize the header into a 48-byte buffer.
    pub fn write(&self, buf: &mut [u8; HEADER_LEN])
        ensures
            final(buf)@ == self.wire(),
    {
        *buf = self.to_bytes();
    }

    pub fn to_bytes(&self) -> (bytes: [u8; HEADER_LEN])
        ensures
            bytes@ == self.wire(),
    {
        let first: u8 = self.leap.bits() * 64 + self.version % 8 * 8 + self.mode.bits();
        let d: [u8; 4] = u32_bytes(self.root_delay.0);
        let p: [u8; 4] = u32_bytes(self.root_dispersion.0);
        let i: [u8; 4] = self.reference_id;
        let f: [u8; 8] = u64_bytes(self.reference_ts.0);
        let o: [u8; 8] = u64_bytes(self.origin_ts.0);
        let r: [u8; 8] = u64_bytes(self.receive_ts.0);
        let t: [u8; 8] = u64_bytes(self.transmit_ts.0);
        let bytes: [u8; HEADER_LEN] = [
            first, self.stratum, from_i8(self.poll), from_i8(self.precision),
            d[0], d[1], d[2], d[3],
            p[0], p[1], p[2], p[3],
            i[0], i[1], i[2], i[3],
            f[0], f[1], f[2], f[3], f[4], f[5], f[6], f[7],
            o[0], o[1], o[2], o[3], o[4], o[5], o[6], o[7],
            r[0], r[1], r[2], r[3], r[4], r[5], r[6], r[7],
            t[0], t[1], t[2], t[3], t[4], t[5], t[6], t[7],
        ];
        assert(bytes@ =~= self.wire());
        bytes
    }
}


/// One RFC 7822 extension field: type, and its value bytes (header excluded).
#[derive(Clone, Copy, Debug, PartialEq, Eq)]
pub struct ExtensionField<'a> {
    pub field_type: u16,
    pub value: &'a [u8],
}

/// What follows the fixed header.
#[derive(Clone, Copy, Debug, PartialEq, Eq)]
pub enum Trailer<'a> {
    /// A well-formed RFC 7822 extension field.
    Extension(ExtensionField<'a>),
    /// Bytes that cannot be a well-formed extension field (e.g. a legacy MAC).
    /// Always the final item when present.
    Opaque(&'a [u8]),
}

/// An item of the trailer as a value: what [`Trailer`] borrows, held.
pub ghost enum TrailerItem {
    Extension { field_type: u16, value: Seq<u8> },
    Opaque { bytes: Seq<u8> },
}

impl<'a> View for Trailer<'a> {
    type V = TrailerItem;

    open spec fn view(&self) -> TrailerItem {
        match *self {
            Trailer::Extension(ef) => TrailerItem::Extension {
                field_type: ef.field_type,
                value: ef.value@,
            },
            Trailer::Opaque(bytes) => TrailerItem::Opaque { bytes: bytes@ },
        }
    }
}

/// The length the bytes at the front of `rest` claim for an extension field.
pub open spec fn claimed_len(rest: Seq<u8>) -> nat {
    be_value(rest.subrange(2, 4))
}

/// Whether `rest` starts with a well-formed extension field: its length covers
/// its own four-byte header, is a multiple of four, is at least sixteen, and
/// the bytes are there.
pub open spec fn starts_with_field(rest: Seq<u8>) -> bool {
    &&& rest.len() >= 4
    &&& claimed_len(rest) >= 16
    &&& claimed_len(rest) % 4 == 0
    &&& claimed_len(rest) <= rest.len()
}

/// The items of a trailer, in order: well-formed fields for as long as there
/// are any, and then whatever is left over as one opaque item.
pub open spec fn trailer_items(rest: Seq<u8>) -> Seq<TrailerItem>
    decreases rest.len(),
{
    if rest.len() == 0 {
        Seq::empty()
    } else if starts_with_field(rest) {
        let len = claimed_len(rest) as int;
        seq![
            TrailerItem::Extension {
                field_type: be_value(rest.subrange(0, 2)) as u16,
                value: rest.subrange(4, len),
            },
        ] + trailer_items(rest.subrange(len, rest.len() as int))
    } else {
        seq![TrailerItem::Opaque { bytes: rest }]
    }
}

/// What follows the fixed header, or nothing in a packet too short to have one.
pub open spec fn trailer_of(packet: Seq<u8>) -> Seq<u8> {
    if packet.len() >= HEADER_LEN {
        packet.subrange(HEADER_LEN as int, packet.len() as int)
    } else {
        Seq::empty()
    }
}

/// The bytes an item was read from.
pub open spec fn item_bytes(item: TrailerItem) -> Seq<u8> {
    match item {
        TrailerItem::Extension { field_type, value } => be_bytes(field_type as nat, 2) + be_bytes(
            value.len() + 4,
            2,
        ) + value,
        TrailerItem::Opaque { bytes } => bytes,
    }
}

/// The bytes of several items, one after the other.
pub open spec fn items_bytes(items: Seq<TrailerItem>) -> Seq<u8>
    decreases items.len(),
{
    if items.len() == 0 {
        Seq::empty()
    } else {
        item_bytes(items[0]) + items_bytes(items.drop_first())
    }
}

/// Iterate whatever follows the 48-byte header: anything that does not parse as
/// an extension field is yielded once as [`Trailer::Opaque`] and iteration ends.
pub fn extension_fields(packet: &[u8]) -> (iter: ExtensionIter<'_>)
    ensures
        iter.remaining() == trailer_of(packet@),
{
    if packet.len() >= HEADER_LEN {
        ExtensionIter { rest: slice_subrange(packet, HEADER_LEN, packet.len()) }
    } else {
        let rest: &[u8] = slice_subrange(packet, 0, 0);
        assert(rest@ =~= Seq::empty());
        ExtensionIter { rest }
    }
}

pub struct ExtensionIter<'a> {
    rest: &'a [u8],
}

impl<'a> ExtensionIter<'a> {
    /// The bytes not yet walked over.
    pub closed spec fn remaining(&self) -> Seq<u8> {
        self.rest@
    }

    /// The next item, or `None` at the end.
    pub fn next(&mut self) -> (item: Option<Trailer<'a>>)
        ensures
            match item {
                None => old(self).remaining().len() == 0 && final(self).remaining()
                    == old(self).remaining(),
                Some(t) => old(self).remaining().len() > 0 && trailer_items(old(self).remaining())
                    == seq![t@] + trailer_items(final(self).remaining())
                    && final(self).remaining().len() < old(self).remaining().len(),
            },
    {
        if self.rest.len() == 0 {
            return None;
        }
        if self.rest.len() >= 4 {
            let field_type: u16 = read_u16(self.rest, 0);
            let len: usize = read_u16(self.rest, 2) as usize;
            if len >= 16 && len % 4 == 0 && len <= self.rest.len() {
                let value: &'a [u8] = slice_subrange(self.rest, 4, len);
                self.rest = slice_subrange(self.rest, len, self.rest.len());
                return Some(Trailer::Extension(ExtensionField { field_type, value }));
            }
        }
        let opaque: &'a [u8] = self.rest;
        self.rest = slice_subrange(opaque, 0, 0);
        proof {
            assert(self.rest@ =~= Seq::<u8>::empty());
            assert(trailer_items(self.rest@) =~= Seq::<TrailerItem>::empty());
            assert(seq![TrailerItem::Opaque { bytes: opaque@ }] + Seq::<TrailerItem>::empty()
                =~= seq![TrailerItem::Opaque { bytes: opaque@ }]);
        }
        Some(Trailer::Opaque(opaque))
    }

    /// Every remaining item, in order.
    pub fn collect(self) -> (items: Vec<Trailer<'a>>)
        ensures
            items@.map_values(|t: Trailer<'a>| t@) == trailer_items(self.remaining()),
    {
        let mut iter = self;
        let mut items: Vec<Trailer<'a>> = Vec::new();
        let ghost whole = trailer_items(iter.remaining());
        assert(items@.map_values(|t: Trailer<'a>| t@) =~= Seq::<TrailerItem>::empty());
        assert(whole =~= Seq::<TrailerItem>::empty() + whole);
        loop
            invariant
                whole == items@.map_values(|t: Trailer<'a>| t@) + trailer_items(iter.remaining()),
            ensures
                whole == items@.map_values(|t: Trailer<'a>| t@),
            decreases iter.remaining().len(),
        {
            let ghost before = items@;
            match iter.next() {
                None => {
                    assert(trailer_items(iter.remaining()) =~= Seq::<TrailerItem>::empty());
                    break;
                },
                Some(t) => {
                    items.push(t);
                    assert(items@.map_values(|t: Trailer<'a>| t@) =~= before.map_values(
                        |t: Trailer<'a>| t@,
                    ).push(t@));
                    assert(whole =~= items@.map_values(|t: Trailer<'a>| t@) + trailer_items(
                        iter.remaining(),
                    ));
                },
            }
        }
        items
    }
}

/// Twice the offset, and the delay, of an exchange at these four times.
pub open spec fn exchange_terms(t1: int, t2: int, t3: int, t4: int) -> (int, int) {
    ((t2 - t1) + (t3 - t4), (t4 - t1) - (t3 - t2))
}

/// Twice the offset, and the delay, of one exchange (RFC 5905 section 8), from
/// its four times on any common scale: the request leaves at `t1`, arrives at
/// `t2`, the reply leaves at `t3` and arrives at `t4`. The offset is what to
/// add to the local clock; doubling it keeps it a whole number.
pub fn offset_delay(t1: NtpInterval, t2: NtpInterval, t3: NtpInterval, t4: NtpInterval) -> (r: (
    i128,
    i128,
))
    ensures
        (r.0 as int, r.1 as int) == exchange_terms(
            t1.0 as int,
            t2.0 as int,
            t3.0 as int,
            t4.0 as int,
        ),
        r.0 == (t2.0 - t1.0) + (t3.0 - t4.0),
        r.1 == (t4.0 - t1.0) - (t3.0 - t2.0),
{
    let doubled: i128 = (t2.0 as i128 - t1.0 as i128) + (t3.0 as i128 - t4.0 as i128);
    let delay: i128 = (t4.0 as i128 - t1.0 as i128) - (t3.0 as i128 - t2.0 as i128);
    (doubled, delay)
}

/// The measured offset is wrong by at most half the measured delay, whatever
/// part of the round trip each path took: `theta` is the true offset, `out` and
/// `back` the times the two packets spent travelling.
pub proof fn offset_error_is_within_half_the_delay(
    t1: int,
    t3: int,
    theta: int,
    out: nat,
    back: nat,
)
    ensures
        ({
            let t2 = t1 + theta + out;
            let t4 = t3 - theta + back;
            let (doubled, delay) = exchange_terms(t1, t2, t3, t4);
            &&& delay == out + back
            &&& doubled == 2 * theta + out - back
            &&& -delay <= doubled - 2 * theta <= delay
        }),
{
}

/// The header that the bytes at the front of `buf` spell.
pub open spec fn header_of(buf: Seq<u8>) -> NtpPacket {
    choose|packet: NtpPacket| packet.decodes(buf)
}

/// Header bytes spell one header only.
pub proof fn a_header_decodes_one_way(buf: Seq<u8>, a: NtpPacket, b: NtpPacket)
    requires
        a.decodes(buf),
        b.decodes(buf),
    ensures
        a == b,
        header_of(buf) == a,
{
    assert(a.reference_id =~= b.reference_id);
    let h = header_of(buf);
    assert(h.decodes(buf));
    assert(a.reference_id =~= h.reference_id);
}

/// A header survives the wire: what `to_bytes` writes, `parse` reads back, for
/// the two versions that `parse` accepts.
pub proof fn header_survives_the_wire(packet: NtpPacket, read: NtpPacket)
    requires
        3 <= packet.version <= 4,
        read.decodes(packet.wire()),
    ensures
        packet.wire().len() == HEADER_LEN,
        3 <= packet.wire()[0] / 8 % 8 <= 4,
        read == packet,
{
    lemma_wire_parts(packet);
    reveal_with_fuel(byte_range, 9);
    crate::wire::be_decode_of_encode(packet.root_delay.0 as nat, 4);
    crate::wire::be_decode_of_encode(packet.root_dispersion.0 as nat, 4);
    crate::wire::be_decode_of_encode(packet.reference_ts.0 as nat, 8);
    crate::wire::be_decode_of_encode(packet.origin_ts.0 as nat, 8);
    crate::wire::be_decode_of_encode(packet.receive_ts.0 as nat, 8);
    crate::wire::be_decode_of_encode(packet.transmit_ts.0 as nat, 8);
    lemma_first_byte(packet.leap.code(), packet.version, packet.mode.code());
    assert(read.reference_id =~= packet.reference_id);
}

/// Writing a parsed header gives the header bytes of the packet back unchanged.
pub proof fn parsing_loses_nothing(buf: Seq<u8>, packet: NtpPacket)
    requires
        buf.len() >= HEADER_LEN,
        packet.decodes(buf),
    ensures
        packet.wire() == buf.subrange(0, HEADER_LEN as int),
{
    lemma_wire_parts(packet);
    let head = buf.subrange(0, 48);
    let wire = packet.wire();
    crate::wire::be_encode_of_decode(buf.subrange(4, 8));
    crate::wire::be_encode_of_decode(buf.subrange(8, 12));
    crate::wire::be_encode_of_decode(buf.subrange(16, 24));
    crate::wire::be_encode_of_decode(buf.subrange(24, 32));
    crate::wire::be_encode_of_decode(buf.subrange(32, 40));
    crate::wire::be_encode_of_decode(buf.subrange(40, 48));
    assert(wire[0] == buf[0]);
    assert(wire =~= seq![buf[0], buf[1], buf[2], buf[3]] + buf.subrange(4, 8) + buf.subrange(8, 12)
        + buf.subrange(12, 16) + buf.subrange(16, 24) + buf.subrange(24, 32) + buf.subrange(32, 40)
        + buf.subrange(40, 48));
    assert(wire =~= head);
}

proof fn lemma_first_byte(leap: u8, version: u8, mode: u8)
    requires
        leap < 4,
        3 <= version <= 4,
        mode < 8,
    ensures
        ({
            let b = (leap * 64 + version % 8 * 8 + mode) as u8;
            b / 64 == leap && b / 8 % 8 == version && b % 8 == mode
        }),
{
}

/// Where each field of a serialized header stands.
pub(crate) proof fn lemma_wire_parts(packet: NtpPacket)
    ensures
        ({
            let w = packet.wire();
            &&& w.len() == HEADER_LEN
            &&& w[0] == (packet.leap.code() * 64 + packet.version % 8 * 8 + packet.mode.code())
                as u8
            &&& w[1] == packet.stratum
            &&& byte_i8(w[2]) == packet.poll
            &&& byte_i8(w[3]) == packet.precision
            &&& w.subrange(4, 8) == be_bytes(packet.root_delay.0 as nat, 4)
            &&& w.subrange(8, 12) == be_bytes(packet.root_dispersion.0 as nat, 4)
            &&& w.subrange(12, 16) == packet.reference_id@
            &&& w.subrange(16, 24) == be_bytes(packet.reference_ts.0 as nat, 8)
            &&& w.subrange(24, 32) == be_bytes(packet.origin_ts.0 as nat, 8)
            &&& w.subrange(32, 40) == be_bytes(packet.receive_ts.0 as nat, 8)
            &&& w.subrange(40, 48) == be_bytes(packet.transmit_ts.0 as nat, 8)
        }),
{
    crate::wire::lemma_be_bytes_len(packet.root_delay.0 as nat, 4);
    crate::wire::lemma_be_bytes_len(packet.root_dispersion.0 as nat, 4);
    crate::wire::lemma_be_bytes_len(packet.reference_ts.0 as nat, 8);
    crate::wire::lemma_be_bytes_len(packet.origin_ts.0 as nat, 8);
    crate::wire::lemma_be_bytes_len(packet.receive_ts.0 as nat, 8);
    crate::wire::lemma_be_bytes_len(packet.transmit_ts.0 as nat, 8);
    let w = packet.wire();
    assert(w.subrange(4, 8) =~= be_bytes(packet.root_delay.0 as nat, 4));
    assert(w.subrange(8, 12) =~= be_bytes(packet.root_dispersion.0 as nat, 4));
    assert(w.subrange(12, 16) =~= packet.reference_id@);
    assert(w.subrange(16, 24) =~= be_bytes(packet.reference_ts.0 as nat, 8));
    assert(w.subrange(24, 32) =~= be_bytes(packet.origin_ts.0 as nat, 8));
    assert(w.subrange(32, 40) =~= be_bytes(packet.receive_ts.0 as nat, 8));
    assert(w.subrange(40, 48) =~= be_bytes(packet.transmit_ts.0 as nat, 8));
}

/// The items of a trailer are the trailer, cut into pieces: putting their bytes
/// back together gives it, byte for byte.
pub proof fn items_partition_the_trailer(rest: Seq<u8>)
    ensures
        items_bytes(trailer_items(rest)) == rest,
    decreases rest.len(),
{
    let items = trailer_items(rest);
    if rest.len() == 0 {
    } else if starts_with_field(rest) {
        let len = claimed_len(rest) as int;
        let tail = rest.subrange(len, rest.len() as int);
        items_partition_the_trailer(tail);
        assert(items.drop_first() =~= trailer_items(tail));
        let ty = rest.subrange(0, 2);
        let ln = rest.subrange(2, 4);
        reveal_with_fuel(byte_range, 3);
        crate::wire::be_encode_of_decode(ty);
        crate::wire::be_encode_of_decode(ln);
        assert(be_value(ty) as u16 == be_value(ty));
        assert(rest.subrange(4, len).len() + 4 == len);
        assert(item_bytes(items[0]) =~= ty + ln + rest.subrange(4, len));
        assert(rest =~= ty + ln + rest.subrange(4, len) + tail);
        assert(items_bytes(items) =~= rest);
    } else {
        assert(items.drop_first() =~= Seq::empty());
        assert(items_bytes(items.drop_first()) =~= Seq::empty());
        assert(items_bytes(items) =~= rest);
    }
}

/// Only the last item of a trailer can be opaque.
pub proof fn only_the_last_item_is_opaque(rest: Seq<u8>, i: int)
    requires
        0 <= i < trailer_items(rest).len(),
        trailer_items(rest)[i] is Opaque,
    ensures
        i == trailer_items(rest).len() - 1,
    decreases rest.len(),
{
    if rest.len() > 0 && starts_with_field(rest) {
        let len = claimed_len(rest) as int;
        let tail = rest.subrange(len, rest.len() as int);
        assert(i > 0);
        assert(trailer_items(rest)[i] == trailer_items(tail)[i - 1]);
        only_the_last_item_is_opaque(tail, i - 1);
    }
}

/// The span between two instants is measured exactly, across an era boundary
/// too, whenever the instants are less than half an era apart.
pub proof fn span_is_exact_within_half_an_era(earlier: int, later: int, span: i64)
    requires
        -0x8000_0000_0000_0000 <= later - earlier < 0x8000_0000_0000_0000,
        (span - (later % era_ticks() - earlier % era_ticks())) % era_ticks() == 0,
    ensures
        span == later - earlier,
{
    let m = era_ticks();
    vstd::arithmetic::div_mod::lemma_fundamental_div_mod(earlier, m);
    vstd::arithmetic::div_mod::lemma_fundamental_div_mod(later, m);
    let x = span - (later % m - earlier % m);
    vstd::arithmetic::div_mod::lemma_fundamental_div_mod(x, m);
    let k = x / m - later / m + earlier / m;
    assert(span - (later - earlier) == m * k) by (nonlinear_arith)
        requires
            x == m * (x / m),
            x == span - (later % m - earlier % m),
            later == m * (later / m) + later % m,
            earlier == m * (earlier / m) + earlier % m,
            k == x / m - later / m + earlier / m,
    ;
    assert(k == 0) by (nonlinear_arith)
        requires
            -m < m * k < m,
            m > 0,
    ;
}

} // verus!
