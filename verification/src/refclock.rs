//! Reference-clock samples: what a GPS, a PPS edge or a PTP hardware clock
//! hands us, and what must be true before any of it is believed.
//!
//! The transports differ wildly, but what arrives is always the same shape: "at
//! *my* time T, the reference said R". Times here are whole nanoseconds.

use vstd::arithmetic::power2::{lemma2_to64, lemma_pow2_adds, lemma_pow2_unfold, pow2};
use vstd::prelude::*;

use crate::arith::{lemma_pow2_at_most, power_of_two};

verus! {

/// One reading from a reference clock. A time is `None` where the producer
/// supplied something that is not a finite number.
///
/// **The offset is the stored quantity, not the reference time**: differencing
/// two epoch-sized times after the fact loses exactly the precision a reference
/// clock exists to provide.
#[derive(Clone, Copy, Debug, PartialEq, Eq, Structural)]
pub struct RefclockSample {
    /// Our own clock when the reading was taken, Unix nanoseconds.
    pub local_ns: Option<i128>,
    /// Nanoseconds to ADD to our clock to match the reference. Authoritative.
    pub offset_ns: Option<i128>,
    /// The reference's own claim about its precision, log2 seconds.
    pub precision_log2: i8,
    pub leap: LeapWarning,
}

#[derive(Clone, Copy, Debug, PartialEq, Eq, Structural)]
pub enum LeapWarning {
    NoWarning,
    AddSecond,
    DeleteSecond,
    /// The reference is not currently trustworthy.
    NotSynchronized,
}

/// The warning that a wire value stands for; anything unknown is not trusted.
pub open spec fn wire_leap(value: int) -> LeapWarning {
    if value == 0 {
        LeapWarning::NoWarning
    } else if value == 1 {
        LeapWarning::AddSecond
    } else if value == 2 {
        LeapWarning::DeleteSecond
    } else {
        LeapWarning::NotSynchronized
    }
}

impl LeapWarning {
    /// Decode the leap field used by both the SHM and SOCK protocols.
    pub fn from_wire(value: i32) -> (leap: LeapWarning)
        ensures
            leap == wire_leap(value as int),
    {
        match value {
            0 => LeapWarning::NoWarning,
            1 => LeapWarning::AddSecond,
            2 => LeapWarning::DeleteSecond,
            _ => LeapWarning::NotSynchronized,
        }
    }
}

#[derive(Clone, Copy, Debug, PartialEq, Eq, Structural)]
pub enum RefclockError {
    /// The reference says it is not synchronized.
    NotSynchronized,
    /// The offset is larger than any sane reference could imply.
    OffsetTooLarge,
    /// A timestamp was zero, negative or otherwise not a time.
    Implausible,
    /// This reading is not newer than the one before it.
    Stale,
}

/// What each error says to an operator.
pub open spec fn refclock_message(e: RefclockError) -> &'static str {
    match e {
        RefclockError::NotSynchronized => "reference clock reports it is unsynchronized",
        RefclockError::OffsetTooLarge => "reference offset is implausibly large",
        RefclockError::Implausible => "reference timestamps are not plausible times",
        RefclockError::Stale => "reference sample is not newer than the last one",
    }
}

impl RefclockError {
    /// What the error says to an operator.
    pub fn message(self) -> (text: &'static str)
        ensures
            text@ == refclock_message(self)@,
    {
        match self {
            RefclockError::NotSynchronized => "reference clock reports it is unsynchronized",
            RefclockError::OffsetTooLarge => "reference offset is implausibly large",
            RefclockError::Implausible => "reference timestamps are not plausible times",
            RefclockError::Stale => "reference sample is not newer than the last one",
        }
    }
}

/// The widest offset a reference clock may imply before we refuse it: far beyond
/// any real reference clock's error and far short of the jumps a stale sample
/// produces.
pub const MAX_REFCLOCK_OFFSET_NS: i128 = 16_000_000_000;

/// Earliest time accepted as a real reading (2020-01-01). A zeroed or partially
/// written segment reads as an epoch-ish timestamp, and this is what catches it.
pub const MIN_PLAUSIBLE_UNIX_NS: i128 = 1_577_836_800_000_000_000;

/// Whether a sample's two times can be times at all.
pub open spec fn plausible(sample: RefclockSample) -> bool {
    &&& sample.local_ns is Some
    &&& sample.offset_ns is Some
    &&& sample.local_ns->Some_0 >= MIN_PLAUSIBLE_UNIX_NS
    &&& sample.local_ns->Some_0 + sample.offset_ns->Some_0 >= MIN_PLAUSIBLE_UNIX_NS
}

/// The first reason there is to refuse a sample.
pub open spec fn refclock_verdict(sample: RefclockSample, last_local_ns: Option<i128>) -> Result<
    (),
    RefclockError,
> {
    if sample.leap is NotSynchronized {
        Err(RefclockError::NotSynchronized)
    } else if !plausible(sample) {
        Err(RefclockError::Implausible)
    } else if last_local_ns is Some && sample.local_ns->Some_0 <= last_local_ns->Some_0 {
        Err(RefclockError::Stale)
    } else if sample.offset_ns->Some_0 > MAX_REFCLOCK_OFFSET_NS || sample.offset_ns->Some_0
        < -MAX_REFCLOCK_OFFSET_NS {
        Err(RefclockError::OffsetTooLarge)
    } else {
        Ok(())
    }
}

/// Two to the power `precision` seconds in picoseconds, rounded down, as far as
/// it fits: beyond 2^88 s it is without bound.
pub open spec fn implied_dispersion(precision: int) -> nat {
    if precision > 88 {
        u128::MAX as nat
    } else if precision >= 0 {
        1_000_000_000_000 * pow2(precision as nat)
    } else {
        1_000_000_000_000nat / pow2((-precision) as nat)
    }
}

impl RefclockSample {
    /// Nanoseconds to ADD to our clock to match the reference.
    pub fn offset_ns(&self) -> (offset: Option<i128>)
        ensures
            offset == self.offset_ns,
    {
        self.offset_ns
    }

    /// The dispersion that this sample implies, from the reference's own
    /// precision claim, in picoseconds.
    pub fn dispersion_ps(&self) -> (dispersion: u128)
        ensures
            dispersion == implied_dispersion(self.precision_log2 as int),
    {
        let p: i8 = self.precision_log2;
        if p > 88 {
            return u128::MAX;
        }
        proof {
            lemma2_to64();
            lemma_pow2_adds(64, 24);
        }
        if p >= 0 {
            let scale: u128 = power_of_two(p as u32);
            proof {
                lemma_pow2_at_most(p as nat, 88);
            }
            return 1_000_000_000_000 * scale;
        }
        let shift: u32 = (-(p as i32)) as u32;
        if shift > 64 {
            proof {
                lemma_pow2_at_most(64, shift as nat);
                let q = pow2(shift as nat) as int;
                assert(1_000_000_000_000int / q == 0) by (nonlinear_arith)
                    requires
                        q > 1_000_000_000_000,
                ;
            }
            return 0;
        }
        let scale: u128 = power_of_two(shift);
        proof {
            lemma_pow2_at_most(0, shift as nat);
        }
        1_000_000_000_000 / scale
    }

    /// What the reference says our `local_ns` instant actually was, where both
    /// are known and the sum can be held.
    pub fn reference_ns(&self) -> (reference: Option<i128>)
        ensures
            reference == match (self.local_ns, self.offset_ns) {
                (Some(l), Some(o)) => if i128::MIN <= l + o <= i128::MAX {
                    Some((l + o) as i128)
                } else {
                    None
                },
                _ => None,
            },
    {
        match (self.local_ns, self.offset_ns) {
            (Some(l), Some(o)) => l.checked_add(o),
            _ => None,
        }
    }

    /// Is this reading usable? `last_local_ns` is the previous accepted
    /// reading's local timestamp, if any: re-reading the same segment must not
    /// be mistaken for a new sample, or a dead producer would keep "confirming"
    /// a frozen time forever.
    pub fn validate(&self, last_local_ns: Option<i128>) -> (verdict: Result<(), RefclockError>)
        ensures
            verdict == refclock_verdict(*self, last_local_ns),
    {
        if self.leap == LeapWarning::NotSynchronized {
            return Err(RefclockError::NotSynchronized);
        }
        let (local, offset): (i128, i128) = match (self.local_ns, self.offset_ns) {
            (Some(l), Some(o)) => (l, o),
            _ => {
                return Err(RefclockError::Implausible);
            },
        };
        if local < MIN_PLAUSIBLE_UNIX_NS || offset < MIN_PLAUSIBLE_UNIX_NS - local {
            return Err(RefclockError::Implausible);
        }
        if let Some(previous) = last_local_ns {
            if local <= previous {
                return Err(RefclockError::Stale);
            }
        }
        if offset > MAX_REFCLOCK_OFFSET_NS || offset < -MAX_REFCLOCK_OFFSET_NS {
            return Err(RefclockError::OffsetTooLarge);
        }
        Ok(())
    }
}

/// The same reading is never accepted twice: once it has been accepted, reading
/// it again is refused.
pub proof fn a_frozen_reading_confirms_nothing(sample: RefclockSample, last: Option<i128>)
    requires
        refclock_verdict(sample, last) is Ok,
    ensures
        refclock_verdict(sample, sample.local_ns) == Err::<(), RefclockError>(RefclockError::Stale),
{
}

/// One look at a shared-memory segment, field by field in the order in which a
/// reader takes them; the producer writes without a lock.
#[derive(Clone, Copy, Debug, PartialEq, Eq, Structural)]
pub struct ShmReading {
    pub valid: i32,
    pub mode: i32,
    pub count_before: i32,
    pub clock_sec: i64,
    pub clock_usec: i32,
    pub clock_nsec: i32,
    pub receive_sec: i64,
    pub receive_usec: i32,
    pub receive_nsec: i32,
    pub leap: i32,
    pub precision: i32,
    pub count_after: i32,
}

/// What a look at a shared-memory segment comes to.
#[derive(Clone, Copy, Debug, PartialEq, Eq, Structural)]
pub enum ShmOutcome {
    /// The producer has not published anything.
    Empty,
    /// The producer was mid-update; look again.
    Torn,
    Sample(RefclockSample),
}

/// How often a reader looks before it gives up on a producer that keeps writing.
pub const SHM_ATTEMPTS: usize = 4;

/// Base SysV key of the shared-memory segments: the bytes "NTP0".
pub const SHM_KEY_BASE: i32 = 0x4E54_5030;

/// The part of a time below a second: the nanosecond field is authoritative when
/// present, the microsecond field is the older interface.
pub open spec fn below_second(nsec: i32, usec: i32) -> int {
    if nsec != 0 {
        nsec as int
    } else {
        usec * 1000
    }
}

/// A number held within bounds.
pub open spec fn held(v: int, lo: int, hi: int) -> int {
    if v < lo {
        lo
    } else if v > hi {
        hi
    } else {
        v
    }
}

fn sub_second(nsec: i32, usec: i32) -> (ns: i128)
    ensures
        ns == below_second(nsec, usec),
{
    if nsec != 0 {
        nsec as i128
    } else {
        usec as i128 * 1000
    }
}

/// What one look at a shared-memory segment comes to.
pub open spec fn shm_outcome(reading: ShmReading) -> ShmOutcome {
    if reading.valid == 0 {
        ShmOutcome::Empty
    } else if reading.mode == 1 && reading.count_before != reading.count_after {
        ShmOutcome::Torn
    } else {
        ShmOutcome::Sample(
            RefclockSample {
                local_ns: Some(
                    (reading.receive_sec * 1_000_000_000 + below_second(
                        reading.receive_nsec,
                        reading.receive_usec,
                    )) as i128,
                ),
                offset_ns: Some(
                    ((reading.clock_sec - reading.receive_sec) * 1_000_000_000 + (below_second(
                        reading.clock_nsec,
                        reading.clock_usec,
                    ) - below_second(reading.receive_nsec, reading.receive_usec))) as i128,
                ),
                precision_log2: held(reading.precision as int, -32, 0) as i8,
                leap: wire_leap(reading.leap as int),
            },
        )
    }
}

/// The sample in one look at a shared-memory segment. Only mode 1 lets a reader
/// see that the producer was mid-update, by its count.
pub fn shm_sample(reading: &ShmReading) -> (outcome: ShmOutcome)
    ensures
        outcome == shm_outcome(*reading),
{
    if reading.valid == 0 {
        return ShmOutcome::Empty;
    }
    if reading.mode == 1 && reading.count_before != reading.count_after {
        return ShmOutcome::Torn;
    }
    let clock_ns: i128 = sub_second(reading.clock_nsec, reading.clock_usec);
    let receive_ns: i128 = sub_second(reading.receive_nsec, reading.receive_usec);
    let seconds: i128 = reading.clock_sec as i128 - reading.receive_sec as i128;
    let precision: i32 = if reading.precision < -32 {
        -32
    } else if reading.precision > 0 {
        0
    } else {
        reading.precision
    };
    ShmOutcome::Sample(
        RefclockSample {
            local_ns: Some(reading.receive_sec as i128 * 1_000_000_000 + receive_ns),
            offset_ns: Some(seconds * 1_000_000_000 + (clock_ns - receive_ns)),
            precision_log2: precision as i8,
            leap: LeapWarning::from_wire(reading.leap),
        },
    )
}

/// The offset of a shared-memory sample is exactly the reference time less the
/// local time, however large the two are.
pub proof fn shm_offset_is_exact(reading: ShmReading, sample: RefclockSample)
    requires
        sample.local_ns == Some(
            (reading.receive_sec * 1_000_000_000 + below_second(
                reading.receive_nsec,
                reading.receive_usec,
            )) as i128,
        ),
        sample.offset_ns == Some(
            ((reading.clock_sec - reading.receive_sec) * 1_000_000_000 + (below_second(
                reading.clock_nsec,
                reading.clock_usec,
            ) - below_second(reading.receive_nsec, reading.receive_usec))) as i128,
        ),
    ensures
        sample.local_ns->Some_0 + sample.offset_ns->Some_0 == reading.clock_sec * 1_000_000_000
            + below_second(reading.clock_nsec, reading.clock_usec),
{
}

/// What a look at a segment makes of two readings gives them back: the local time is what
/// our clock read, and adding the offset to it gives what the reference read.
pub proof fn a_sample_gives_back_what_the_reference_read(reading: ShmReading, sample: RefclockSample)
    requires
        shm_outcome(reading) == ShmOutcome::Sample(sample),
    ensures
        sample.local_ns is Some && sample.offset_ns is Some,
        sample.local_ns->Some_0 == reading.receive_sec * 1_000_000_000 + if reading.receive_nsec
            != 0 {
            reading.receive_nsec as int
        } else {
            reading.receive_usec * 1000
        },
        sample.local_ns->Some_0 + sample.offset_ns->Some_0 == reading.clock_sec * 1_000_000_000
            + if reading.clock_nsec != 0 {
            reading.clock_nsec as int
        } else {
            reading.clock_usec * 1000
        },
{
}

/// The order of a machine's bytes within a number.
#[derive(Clone, Copy, Debug, PartialEq, Eq, Structural)]
pub enum ByteOrder {
    LittleEndian,
    BigEndian,
}

/// "SOCK": the magic that keeps a stray datagram from being mistaken for a time
/// sample.
pub const SOCK_MAGIC: i32 = 0x534F_434B;

/// Wire size of one SOCK sample on a 64-bit platform.
pub const SAMPLE_SIZE: usize = 40;

/// A SOCK sample as it stands in the datagram: the local time, the offset as the
/// bits of a double-precision number of seconds, and the leap field.
#[derive(Clone, Copy, Debug, PartialEq, Eq, Structural)]
pub struct SockSample {
    pub sec: i64,
    pub usec: i64,
    pub offset_bits: u64,
    pub leap: LeapWarning,
}

/// Precision assumed of a SOCK producer, log2 seconds: about a microsecond.
pub const SOCK_PRECISION_LOG2: i8 = -20;

/// A native number as an unsigned value.
pub open spec fn native_value(bytes: Seq<u8>, order: ByteOrder) -> nat {
    match order {
        ByteOrder::BigEndian => crate::wire::be_value(bytes),
        ByteOrder::LittleEndian => crate::wire::be_value(bytes.reverse()),
    }
}

/// The signed number that an unsigned one stands for in `bits` bits of two's
/// complement, given half and all of its range.
pub open spec fn twos_complement(v: int, half: int) -> int {
    if v < half {
        v
    } else {
        v - 2 * half
    }
}

fn native_u32(buf: &[u8], at: usize, order: ByteOrder) -> (v: u32)
    requires
        at + 4 <= buf@.len(),
        at < SAMPLE_SIZE,
    ensures
        v == native_value(buf@.subrange(at as int, at + 4), order),
{
    match order {
        ByteOrder::BigEndian => crate::wire::read_u32(buf, at),
        ByteOrder::LittleEndian => {
            let r: [u8; 4] = [buf[at + 3], buf[at + 2], buf[at + 1], buf[at]];
            assert(r@ =~= buf@.subrange(at as int, at + 4).reverse());
            assert(r@.subrange(0, 4) =~= r@);
            crate::wire::read_u32(r.as_slice(), 0)
        },
    }
}

fn native_u64(buf: &[u8], at: usize, order: ByteOrder) -> (v: u64)
    requires
        at + 8 <= buf@.len(),
        at < SAMPLE_SIZE,
    ensures
        v == native_value(buf@.subrange(at as int, at + 8), order),
{
    match order {
        ByteOrder::BigEndian => crate::wire::read_u64(buf, at),
        ByteOrder::LittleEndian => {
            let r: [u8; 8] = [
                buf[at + 7],
                buf[at + 6],
                buf[at + 5],
                buf[at + 4],
                buf[at + 3],
                buf[at + 2],
                buf[at + 1],
                buf[at],
            ];
            assert(r@ =~= buf@.subrange(at as int, at + 8).reverse());
            assert(r@.subrange(0, 8) =~= r@);
            crate::wire::read_u64(r.as_slice(), 0)
        },
    }
}

fn signed_32(v: u32) -> (s: i32)
    ensures
        s == twos_complement(v as int, 0x8000_0000),
{
    if v < 0x8000_0000 {
        v as i32
    } else {
        (v as i64 - 0x1_0000_0000) as i32
    }
}

fn signed_64(v: u64) -> (s: i64)
    ensures
        s == twos_complement(v as int, 0x8000_0000_0000_0000),
{
    if v < 0x8000_0000_0000_0000 {
        v as i64
    } else {
        (v as i128 - 0x1_0000_0000_0000_0000) as i64
    }
}

/// Whether a datagram is a SOCK sample: long enough, and with the magic.
pub open spec fn is_sock_sample(buf: Seq<u8>, order: ByteOrder) -> bool {
    buf.len() >= SAMPLE_SIZE && native_value(buf.subrange(36, 40), order) == SOCK_MAGIC
}

/// Whether `sample` is what a SOCK datagram says.
pub open spec fn says(buf: Seq<u8>, order: ByteOrder, sample: SockSample) -> bool {
    &&& sample.sec == twos_complement(
        native_value(buf.subrange(0, 8), order) as int,
        0x8000_0000_0000_0000,
    )
    &&& sample.usec == twos_complement(
        native_value(buf.subrange(8, 16), order) as int,
        0x8000_0000_0000_0000,
    )
    &&& sample.offset_bits == native_value(buf.subrange(16, 24), order)
    &&& sample.leap == wire_leap(
        twos_complement(native_value(buf.subrange(28, 32), order) as int, 0x8000_0000),
    )
}

/// Decode one SOCK datagram, whose numbers are in the machine's own byte order:
/// seconds at 0, microseconds at 8, the offset at 16, the leap field at 28 and
/// the magic at 36.
pub fn decode_sample(buf: &[u8], order: ByteOrder) -> (sample: Option<SockSample>)
    ensures
        match sample {
            Some(s) => is_sock_sample(buf@, order) && says(buf@, order, s),
            None => !is_sock_sample(buf@, order),
        },
{
    if buf.len() < SAMPLE_SIZE {
        return None;
    }
    if native_u32(buf, 36, order) != SOCK_MAGIC as u32 {
        return None;
    }
    Some(
        SockSample {
            sec: signed_64(native_u64(buf, 0, order)),
            usec: signed_64(native_u64(buf, 8, order)),
            offset_bits: native_u64(buf, 16, order),
            leap: LeapWarning::from_wire(signed_32(native_u32(buf, 28, order))),
        },
    )
}

/// The clock id of an open `/dev/ptpN` descriptor: Linux encodes dynamic POSIX
/// clocks as the complement of the descriptor, shifted left by three, with the
/// low bits set to three. What the shift pushes out of a 32-bit id is lost.
pub fn fd_to_clockid(fd: i32) -> (id: i32)
    ensures
        id == twos_complement(((-fd - 1) * 8 + 3) % 0x1_0000_0000, 0x8000_0000),
        0 <= fd < 0x1000_0000 ==> id == (-fd - 1) * 8 + 3,
{
    let shifted: i64 = (-(fd as i64) - 1) * 8 + 3;
    signed_32(((shifted + 0x100_0000_0000) % 0x1_0000_0000) as u32)
}

/// Whether `precision` is the power of two, in seconds, that a reading taken
/// within `window` nanoseconds is good for: the least that covers the window, of
/// those from 2^-32 s to a second.
pub open spec fn covers(window: nat, precision: int) -> bool {
    &&& -32 <= precision <= 0
    &&& precision < 0 ==> window * pow2((-precision) as nat) <= 1_000_000_000
    &&& precision > -32 ==> window * pow2((1 - precision) as nat) > 1_000_000_000
}

/// Whether `sample` is what a hardware clock makes, read between two readings of
/// our own clock.
pub open spec fn is_phc_sample(
    before_ns: int,
    phc_ns: int,
    after_ns: int,
    sample: RefclockSample,
) -> bool {
    &&& sample.local_ns == Some(((before_ns + after_ns) / 2) as i128)
    &&& sample.offset_ns == Some((phc_ns - (before_ns + after_ns) / 2) as i128)
    &&& covers(
        if after_ns - before_ns > 1 {
            (after_ns - before_ns) as nat
        } else {
            1
        },
        sample.precision_log2 as int,
    )
    &&& sample.leap == LeapWarning::NoWarning
}

/// The sample that a hardware clock makes, read between two readings of our own
/// clock: the midpoint of the two splits the latency of the reading, rather than
/// charging it to one side. All three are Unix nanoseconds.
pub fn phc_sample(before_ns: i64, phc_ns: i64, after_ns: i64) -> (sample: RefclockSample)
    ensures
        is_phc_sample(before_ns as int, phc_ns as int, after_ns as int, sample),
{
    let sum: i128 = before_ns as i128 + after_ns as i128;
    let odd: i128 = if sum % 2 != 0 && sum < 0 { 1 } else { 0 };
    let midpoint: i128 = (sum - odd) / 2;
    let gap: i128 = after_ns as i128 - before_ns as i128;
    let window: u128 = if gap > 1 { gap as u128 } else { 1 };
    let mut shift: i8 = 0;
    let mut scaled: u128 = window;
    proof {
        lemma2_to64();
        assert(pow2(0) == 1);
        assert(window * 1 == window);
    }
    while shift < 32 && scaled * 2 <= 1_000_000_000
        invariant
            0 <= shift <= 32,
            scaled == window * pow2(shift as nat),
            1 <= scaled <= 0x1_0000_0000_0000_0000,
            shift > 0 ==> scaled <= 1_000_000_000,
        decreases 32 - shift,
    {
        proof {
            let p = pow2(shift as nat) as int;
            lemma_pow2_unfold((shift + 1) as nat);
            assert(window * (2 * p) == 2 * (window * p)) by (nonlinear_arith);
        }
        scaled = scaled * 2;
        shift = shift + 1;
    }
    proof {
        let p = pow2(shift as nat) as int;
        lemma_pow2_unfold((shift + 1) as nat);
        assert(window * (2 * p) == 2 * (window * p)) by (nonlinear_arith);
    }
    RefclockSample {
        local_ns: Some(midpoint),
        offset_ns: Some(phc_ns as i128 - midpoint),
        precision_log2: -shift,
        leap: LeapWarning::NoWarning,
    }
}

} // verus!
