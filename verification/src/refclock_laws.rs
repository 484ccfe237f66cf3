//! What is believed of a reference clock: a reading that finds our clock fast as
//! much as one that finds it slow, and nothing that is unsynchronized, old, or far
//! from any sane time.

use vstd::arithmetic::power2::{lemma2_to64, lemma_pow2_pos, lemma_pow2_unfold, pow2};
use vstd::prelude::*;

use crate::refclock::{
    implied_dispersion, is_phc_sample, is_sock_sample, native_value, refclock_verdict, says,
    shm_outcome, wire_leap, ByteOrder, LeapWarning, RefclockError, RefclockSample, ShmReading,
    SockSample,
};
use crate::wire::be_bytes;

verus! {

/// Which readings are believed: of a reference that is synchronized, whose two
/// times lie in 2020 or later, and that is newer than the last one, exactly those
/// whose offset is sixteen seconds at most, on either side. One that is further off
/// is refused as that.
pub proof fn sixteen_seconds_are_believed(
    local: i128,
    offset: i128,
    precision_log2: i8,
    leap: LeapWarning,
    last: Option<i128>,
)
    requires
        leap != LeapWarning::NotSynchronized,
        local >= 1_577_836_800_000_000_000,
        local + offset >= 1_577_836_800_000_000_000,
        last is None || last->Some_0 < local,
    ensures
        ({
            let sample = RefclockSample {
                local_ns: Some(local),
                offset_ns: Some(offset),
                precision_log2,
                leap,
            };
            refclock_verdict(sample, last) == if -16_000_000_000 <= offset <= 16_000_000_000 {
                Ok::<(), RefclockError>(())
            } else {
                Err(RefclockError::OffsetTooLarge)
            }
        }),
{
}

/// Fast and slow are judged alike: two readings that find our clock off by the same
/// amount, the one ahead and the other behind, are both believed or both refused,
/// and for the same reason, where both tell a time of 2020 or later.
pub proof fn fast_and_slow_are_judged_alike(sample: RefclockSample, last: Option<i128>)
    requires
        sample.offset_ns is Some,
        sample.offset_ns->Some_0 > i128::MIN,
        sample.local_ns is Some ==> {
            let local = sample.local_ns->Some_0;
            let offset = sample.offset_ns->Some_0;
            local >= 1_577_836_800_000_000_000 ==> (local + offset >= 1_577_836_800_000_000_000
                <==> local - offset >= 1_577_836_800_000_000_000)
        },
    ensures
        refclock_verdict(sample, last) == refclock_verdict(
            RefclockSample { offset_ns: Some((-sample.offset_ns->Some_0) as i128), ..sample },
            last,
        ),
{
}

/// What is refused, whatever else it says: an unsynchronized reference, a time
/// that is no number, one before 2020, and a reading no newer than the last.
pub proof fn untrustworthy_readings_are_refused(sample: RefclockSample, last: Option<i128>)
    ensures
        sample.leap == LeapWarning::NotSynchronized ==> refclock_verdict(sample, last) == Err::<
            (),
            RefclockError,
        >(RefclockError::NotSynchronized),
        sample.local_ns is None || sample.offset_ns is None ==> refclock_verdict(sample, last)
            is Err,
        sample.local_ns is Some && sample.local_ns->Some_0 < 1_577_836_800_000_000_000
            ==> refclock_verdict(sample, last) is Err,
        sample.local_ns is Some && sample.offset_ns is Some && sample.local_ns->Some_0
            + sample.offset_ns->Some_0 < 1_577_836_800_000_000_000 ==> refclock_verdict(
            sample,
            last,
        ) is Err,
        last is Some && sample.local_ns is Some && sample.local_ns->Some_0 <= last->Some_0
            ==> refclock_verdict(sample, last) is Err,
{
}

/// A leap field that is not one of the three known ones is never believed.
pub proof fn an_unknown_leap_is_refused(value: int, sample: RefclockSample, last: Option<i128>)
    requires
        sample.leap == wire_leap(value),
    ensures
        value < 0 || value > 2 ==> refclock_verdict(sample, last) is Err,
        value == 0 ==> sample.leap is NoWarning,
        value == 1 ==> sample.leap is AddSecond,
        value == 2 ==> sample.leap is DeleteSecond,
{
}

/// A segment gives a sample exactly where its producer has published one and, in
/// the mode that counts updates, was not at it while we looked.
pub proof fn a_segment_is_read_whole(reading: ShmReading)
    ensures
        shm_outcome(reading) is Empty <==> reading.valid == 0,
        shm_outcome(reading) is Torn <==> reading.valid != 0 && reading.mode == 1
            && reading.count_before != reading.count_after,
        shm_outcome(reading) is Sample <==> reading.valid != 0 && (reading.mode != 1
            || reading.count_before == reading.count_after),
        shm_outcome(reading) is Sample ==> {
            let sample = shm_outcome(reading)->Sample_0;
            &&& -32 <= sample.precision_log2 <= 0
            &&& -32 <= reading.precision <= 0 ==> sample.precision_log2 == reading.precision
            &&& reading.leap == 0 <==> sample.leap is NoWarning
            &&& reading.leap == 1 <==> sample.leap is AddSecond
            &&& reading.leap == 2 <==> sample.leap is DeleteSecond
        },
{
}

/// The bytes of a number in a machine's own order.
pub open spec fn native_bytes(v: nat, len: nat, order: ByteOrder) -> Seq<u8> {
    match order {
        ByteOrder::BigEndian => be_bytes(v, len),
        ByteOrder::LittleEndian => be_bytes(v, len).reverse(),
    }
}

/// A number in `half * 2` values of two's complement.
pub open spec fn wrapped(v: int, half: int) -> nat {
    (if v < 0 {
        v + 2 * half
    } else {
        v
    }) as nat
}

proof fn lemma_native(v: nat, len: nat, order: ByteOrder)
    requires
        v < crate::wire::byte_range(len),
    ensures
        native_value(native_bytes(v, len, order), order) == v,
        native_bytes(v, len, order).len() == len,
{
    crate::wire::be_decode_of_encode(v, len);
    crate::wire::lemma_be_bytes_len(v, len);
    assert(be_bytes(v, len).reverse().reverse() =~= be_bytes(v, len));
}

/// A datagram that a producer wrote is read as what it wrote, in either byte order:
/// seconds, microseconds, the offset's bits and the leap field, with the magic
/// behind them; and whatever is shorter than 40 bytes, or ends in anything else, is
/// no sample.
pub proof fn a_sock_sample_reads_back(
    buf: Seq<u8>,
    order: ByteOrder,
    sec: i64,
    usec: i64,
    bits: u64,
    leap: i32,
    sample: SockSample,
)
    requires
        buf.len() >= 40,
        buf.subrange(0, 8) == native_bytes(wrapped(sec as int, 0x8000_0000_0000_0000), 8, order),
        buf.subrange(8, 16) == native_bytes(wrapped(usec as int, 0x8000_0000_0000_0000), 8, order),
        buf.subrange(16, 24) == native_bytes(bits as nat, 8, order),
        buf.subrange(28, 32) == native_bytes(wrapped(leap as int, 0x8000_0000), 4, order),
        buf.subrange(36, 40) == native_bytes(0x534F_434B, 4, order),
        says(buf, order, sample),
    ensures
        is_sock_sample(buf, order),
        sample.sec == sec,
        sample.usec == usec,
        sample.offset_bits == bits,
        leap == 0 <==> sample.leap is NoWarning,
        leap == 1 <==> sample.leap is AddSecond,
        leap == 2 <==> sample.leap is DeleteSecond,
        forall|n: int| 0 <= n < 40 ==> !is_sock_sample(#[trigger] buf.take(n), order),
{
    reveal_with_fuel(crate::wire::byte_range, 9);
    lemma_native(wrapped(sec as int, 0x8000_0000_0000_0000), 8, order);
    lemma_native(wrapped(usec as int, 0x8000_0000_0000_0000), 8, order);
    lemma_native(bits as nat, 8, order);
    lemma_native(wrapped(leap as int, 0x8000_0000), 4, order);
    lemma_native(0x534F_434B, 4, order);
}

/// A hardware clock is read against the middle of the two readings of our own
/// around it: adding the offset to the local time gives what the hardware clock
/// said, the local time lies half way between, and the precision is no finer than
/// the time that the reading took.
pub proof fn a_hardware_clock_is_read_in_the_middle(
    before: int,
    phc: int,
    after: int,
    sample: RefclockSample,
)
    requires
        is_phc_sample(before, phc, after, sample),
        i64::MIN <= before <= i64::MAX,
        i64::MIN <= phc <= i64::MAX,
        i64::MIN <= after <= i64::MAX,
    ensures
        sample.local_ns is Some && sample.offset_ns is Some,
        sample.local_ns->Some_0 + sample.offset_ns->Some_0 == phc,
        0 <= before + after - 2 * sample.local_ns->Some_0 <= 1,
        sample.leap is NoWarning,
        -32 <= sample.precision_log2 <= 0,
        after - before > 1 && sample.precision_log2 < 0 ==> (after - before) * pow2(
            (-sample.precision_log2) as nat,
        ) <= 1_000_000_000,
{
}

/// The dispersion that a precision implies is a second at zero, doubles with each
/// step up as far as it can be held, and halves, rounded down, with each step down.
pub proof fn a_coarser_clock_implies_twice_the_dispersion(precision: int)
    ensures
        implied_dispersion(0) == 1_000_000_000_000,
        0 <= precision < 88 ==> implied_dispersion(precision + 1) == 2 * implied_dispersion(
            precision,
        ),
        precision <= 0 ==> implied_dispersion(precision - 1) == implied_dispersion(precision) / 2,
{
    lemma2_to64();
    if 0 <= precision < 88 {
        lemma_pow2_unfold((precision + 1) as nat);
    }
    if precision <= 0 {
        let n = (-precision) as nat;
        lemma_pow2_unfold(n + 1);
        lemma_pow2_pos(n);
        let p = pow2(n) as int;
        vstd::arithmetic::div_mod::lemma_div_denominator(1_000_000_000_000, p, 2);
        assert(p * 2 == 2 * p);
        if n == 0 {
            assert(1_000_000_000_000int / 1 == 1_000_000_000_000);
        }
    }
}

/// Segments are found where every program looks for them: the key of the first spells
/// `NTP0`. A segment that changes under the reader is read four times at most, and a sample
/// from a socket is taken for good to a microsecond.
pub proof fn segments_are_found()
    ensures
        crate::refclock::SHM_KEY_BASE == 'N' as int * 0x100_0000 + 'T' as int * 0x1_0000
            + 'P' as int * 0x100 + '0' as int,
        crate::refclock::SHM_ATTEMPTS == 4,
        crate::refclock::SOCK_PRECISION_LOG2 == -20,
{
}

} // verus!
