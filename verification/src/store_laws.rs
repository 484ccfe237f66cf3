//! Where durable state stands: under which key each entry lives, and how it is laid out,
//! so that what one run wrote the next one finds.

use spacedb_sdk::SignedCapability;
use vstd::prelude::*;
use vstd::utf8::{encode_utf8, encode_utf8_decode_utf8, valid_utf8};

use crate::entry_log::{entry_bytes, first_entry, Collection, EntryValue, LogFault};
use crate::hex::{hex_text, hex_value, is_hex};
use crate::numbers::{decimal, is_real};
use crate::replica::{budget_of, giver_of, granted, holder_of, is_lasting, scope_of};
use crate::sealing::{opened, SealFault};
use crate::store::{
    client_keys_key, client_meta_key, cookie_key, cookie_run, drift_key, drift_of, endpoint_in,
    is_blank, is_grant, is_master, master_bytes, master_slot, reading, session_of, stored_count, EntryFault,
    StoredMasterKey,
};
use crate::text::words;
use crate::wire::{be_decode_of_encode, byte_range, lemma_be_bytes_len};
use crate::wire_laws::{four_bytes, two_bytes};

verus! {

/// Each entry lives under its own key: its kind, whom it belongs to and its place, with
/// slashes between.
pub proof fn every_entry_has_its_place(owner: Seq<char>, i: nat)
    ensures
        drift_key(owner) == "drift/"@ + owner + "/0"@,
        cookie_key(owner, i) == "cookie/"@ + owner + "/"@ + decimal(i),
        client_keys_key(owner) == "client_keys/"@ + owner + "/0"@,
        client_meta_key(owner) == "client_meta/"@ + owner + "/0"@,
{
    reveal_strlit("/");
    reveal_strlit("/0");
    reveal_strlit("drift");
    reveal_strlit("drift/");
    reveal_strlit("cookie");
    reveal_strlit("cookie/");
    reveal_strlit("client_keys");
    reveal_strlit("client_keys/");
    reveal_strlit("client_meta");
    reveal_strlit("client_meta/");
    assert(decimal(0) =~= seq!['0']);
    assert("drift"@ + "/"@ =~= "drift/"@);
    assert("cookie"@ + "/"@ =~= "cookie/"@);
    assert("client_keys"@ + "/"@ =~= "client_keys/"@);
    assert("client_meta"@ + "/"@ =~= "client_meta/"@);
    assert("/"@ + decimal(0) =~= "/0"@);
    assert(drift_key(owner) =~= "drift/"@ + owner + "/0"@);
    assert(client_keys_key(owner) =~= "client_keys/"@ + owner + "/0"@);
    assert(client_meta_key(owner) =~= "client_meta/"@ + owner + "/0"@);
}

/// Master keys go round three slots: the fourth takes the place of the first.
pub proof fn master_keys_go_round_three_slots(slot: nat)
    ensures
        master_slot(slot as int + 3) == master_slot(slot as int),
        master_slot(0) == "master/self/0"@,
        master_slot(1) == "master/self/1"@,
        master_slot(2) == "master/self/2"@,
        master_slot(0) != master_slot(1),
        master_slot(1) != master_slot(2),
        master_slot(0) != master_slot(2),
{
    reveal_strlit("/");
    reveal_strlit("master");
    reveal_strlit("self");
    reveal_strlit("master/self/0");
    reveal_strlit("master/self/1");
    reveal_strlit("master/self/2");
    assert(decimal(0) =~= seq!['0']);
    assert(decimal(1) =~= seq!['1']);
    assert(decimal(2) =~= seq!['2']);
    assert(master_slot(0) =~= "master/self/0"@);
    assert(master_slot(1) =~= "master/self/1"@);
    assert(master_slot(2) =~= "master/self/2"@);
    assert("master/self/0"@[12] == '0');
    assert("master/self/1"@[12] == '1');
    assert("master/self/2"@[12] == '2');
}

/// A master key is stored as 36 bytes: four of its id, the first counting for most, and the
/// 32 of the key as they are.
pub proof fn a_master_key_byte_by_byte(key: StoredMasterKey)
    ensures
        master_bytes(key).len() == 36,
        master_bytes(key)[0] * 0x100_0000 + master_bytes(key)[1] * 0x1_0000 + master_bytes(key)[2]
            * 0x100 + master_bytes(key)[3] == key.id,
        forall|i: int| 0 <= i < 32 ==> #[trigger] master_bytes(key)[4 + i] == key.key@[i],
{
    let front = crate::wire::be_bytes(key.id as nat, 4);
    lemma_be_bytes_len(key.id as nat, 4);
    reveal_with_fuel(byte_range, 5);
    be_decode_of_encode(key.id as nat, 4);
    four_bytes(front);
    assert(key.key@.len() == 32);
    assert(master_bytes(key).take(4) =~= front);
}

/// What is not 36 bytes long is no master key, and what is one is.
pub proof fn only_thirty_six_bytes_are_a_master_key(
    plain: Seq<u8>,
    found: Option<StoredMasterKey>,
)
    requires
        is_master(Ok(Some(plain)), found),
    ensures
        found is Some <==> plain.len() == 36,
{
}

/// A batch of up to 64 cookies is stored whole, and of a larger one the first 64.
pub proof fn sixty_four_cookies_are_stored(n: nat)
    ensures
        n <= 64 ==> stored_count(n) == n,
        n > 64 ==> stored_count(n) == 64,
{
}

/// Reading a server's cookies stops at the first blank place, whatever stands behind it, and
/// never goes past the 64th.
pub proof fn cookies_are_read_up_to_a_blank(
    map: Map<(Seq<char>, Seq<char>), Seq<char>>,
    key: Seq<u8>,
    server: Seq<char>,
    i: nat,
)
    requires
        i >= 64 || is_blank(reading(map, key, Collection::Cookies, cookie_key(server, i))),
    ensures
        cookie_run(map, key, server, i) == Ok::<Seq<Seq<u8>>, SealFault>(Seq::empty()),
{
}

/// A run of cookies is never longer than the places from there on.
pub proof fn a_run_of_cookies_is_bounded(
    map: Map<(Seq<char>, Seq<char>), Seq<char>>,
    key: Seq<u8>,
    server: Seq<char>,
    i: nat,
)
    requires
        i <= 64,
        cookie_run(map, key, server, i) is Ok,
    ensures
        cookie_run(map, key, server, i)->Ok_0.len() <= 64 - i,
        forall|k: int|
            0 <= k < cookie_run(map, key, server, i)->Ok_0.len() ==> (#[trigger] cookie_run(
                map,
                key,
                server,
                i,
            )->Ok_0[k]).len() > 0,
    decreases 64 - i,
{
    if i < 64 {
        let run = cookie_run(map, key, server, i)->Ok_0;
        if run.len() > 0 {
            a_run_of_cookies_is_bounded(map, key, server, i + 1);
            let rest = cookie_run(map, key, server, i + 1)->Ok_0;
            assert forall|k: int| 0 <= k < run.len() implies (#[trigger] run[k]).len() > 0 by {
                if k > 0 {
                    assert(run[k] == rest[k - 1]);
                }
            }
        }
    }
}

/// An entry that was never written, and one that was retired, is no drift; neither is one
/// with fewer than three numbers in it, which is told.
pub proof fn drift_takes_three_numbers(text: Seq<char>)
    requires
        words(text).len() < 3 || !is_real(words(text)[0]) || !is_real(words(text)[1]) || !is_real(
            words(text)[2],
        ),
    ensures
        drift_of(Ok(None)) == Ok::<_, EntryFault>(None::<crate::store::DriftValue>),
        drift_of(Ok(Some(Seq::empty()))) == Ok::<_, EntryFault>(None::<crate::store::DriftValue>),
        text.len() > 0 ==> drift_of(Ok(Some(encode_utf8(text)))) == Err::<
            Option<crate::store::DriftValue>,
            EntryFault,
        >(EntryFault::Corrupt("drift field is not a number"@)),
{
    encode_utf8_decode_utf8(text);
    lemma_utf8_nonempty(text);
}

proof fn lemma_utf8_nonempty(text: Seq<char>)
    ensures
        text.len() > 0 ==> encode_utf8(text).len() > 0,
        valid_utf8(encode_utf8(text)),
{
    encode_utf8_decode_utf8(text);
    if text.len() > 0 && encode_utf8(text).len() == 0 {
        assert(encode_utf8(text) =~= encode_utf8(Seq::empty()));
        encode_utf8_decode_utf8(Seq::empty());
    }
    vstd::utf8::encode_utf8_valid_utf8(text);
}

/// A session without its keys, or with keys that are not 64 bytes, is none; and the 64 bytes
/// are the client's 32 before the server's 32.
pub proof fn a_session_takes_both_keys(
    map: Map<(Seq<char>, Seq<char>), Seq<char>>,
    secret: Seq<u8>,
    host: Seq<char>,
    raw: Seq<u8>,
)
    requires
        reading(map, secret, Collection::Keys, client_keys_key(host)) == Ok::<_, SealFault>(
            Some(raw),
        ),
    ensures
        raw.len() != 64 ==> session_of(map, secret, host) == Ok::<_, EntryFault>(
            None::<crate::store::SessionValue>,
        ),
        match session_of(map, secret, host) {
            Ok(Some(s)) => {
                &&& raw.len() == 64
                &&& s.c2s.len() == 32 && s.s2c.len() == 32
                &&& raw == s.c2s + s.s2c
                &&& 0 < s.cookies.len() <= 64
            },
            _ => true,
        },
{
    if let Ok(Some(s)) = session_of(map, secret, host) {
        assert(raw =~= s.c2s + s.s2c);
        a_run_of_cookies_is_bounded(map, secret, host, 0);
    }
}

/// A record byte by byte: two for its collection, four that count the bytes of the key, the
/// key, four that count those of the value, and the value.
pub proof fn a_record_byte_by_byte(entry: EntryValue)
    requires
        encode_utf8(entry.key).len() < 0x1_0000_0000,
        encode_utf8(entry.value).len() < 0x1_0000_0000,
    ensures
        ({
            let b = entry_bytes(entry);
            let k = encode_utf8(entry.key);
            let v = encode_utf8(entry.value);
            let at = 6 + k.len() as int;
            &&& b.len() == 10 + k.len() + v.len()
            &&& b[0] == 0
            &&& b[1] == match entry.collection {
                Collection::Drift => 0u8,
                Collection::Cookies => 1u8,
                Collection::Keys => 2u8,
            }
            &&& b[2] * 0x100_0000 + b[3] * 0x1_0000 + b[4] * 0x100 + b[5] == k.len()
            &&& b.subrange(6, at) == k
            &&& b[at] * 0x100_0000 + b[at + 1] * 0x1_0000 + b[at + 2] * 0x100 + b[at + 3]
                == v.len()
            &&& b.subrange(at + 4, b.len() as int) == v
        }),
{
    let b = entry_bytes(entry);
    let k = encode_utf8(entry.key);
    let v = encode_utf8(entry.value);
    let at = 6 + k.len() as int;
    let n = entry.collection.number();
    let c = crate::wire::be_bytes(n, 2);
    let kn = crate::wire::be_bytes(k.len(), 4);
    let vn = crate::wire::be_bytes(v.len(), 4);
    lemma_be_bytes_len(n, 2);
    lemma_be_bytes_len(k.len(), 4);
    lemma_be_bytes_len(v.len(), 4);
    reveal_with_fuel(byte_range, 5);
    be_decode_of_encode(n, 2);
    be_decode_of_encode(k.len(), 4);
    be_decode_of_encode(v.len(), 4);
    two_bytes(c);
    four_bytes(kn);
    four_bytes(vn);
    assert(b =~= c + kn + k + vn + v);
    assert(b.subrange(6, at) =~= k);
    assert(b.subrange(at + 4, b.len() as int) =~= v);
    assert(b[at] == vn[0] && b[at + 1] == vn[1] && b[at + 2] == vn[2] && b[at + 3] == vn[3]);
    assert(b[2] == kn[0] && b[3] == kn[1] && b[4] == kn[2] && b[5] == kn[3]);
    assert(b[0] == c[0] && b[1] == c[1]);
}

/// A log that ends inside its first record, or names a collection that there is not, is
/// refused for that.
pub proof fn a_torn_log_is_refused(log: Seq<u8>)
    ensures
        log.len() < 2 ==> first_entry(log) == Err::<(EntryValue, int), LogFault>(
            LogFault::Truncated,
        ),
        log.len() >= 2 && log[0] * 0x100 + log[1] > 2 ==> first_entry(log) == Err::<
            (EntryValue, int),
            LogFault,
        >(LogFault::UnknownCollection),
        2 <= log.len() < 6 && log[0] == 0 && log[1] <= 2 ==> first_entry(log) == Err::<
            (EntryValue, int),
            LogFault,
        >(LogFault::Truncated),
        first_entry(log) is Ok ==> 10 <= first_entry(log)->Ok_0.1 <= log.len(),
{
    if log.len() >= 2 {
        two_bytes(log.subrange(0, 2));
    }
}

/// The replica knows the collections by these names.
pub proof fn collections_by_name()
    ensures
        Collection::Drift.title()@ == "rusty_time.drift"@,
        Collection::Cookies.title()@ == "rusty_time.nts_cookies"@,
        Collection::Keys.title()@ == "rusty_time.nts_keys"@,
{
}

/// Each byte is two digits, the first for sixteens, in small letters; capitals are read too.
pub proof fn each_byte_is_two_digits(bytes: Seq<u8>, i: int)
    requires
        0 <= i < bytes.len(),
    ensures
        hex_text(bytes).len() == 2 * bytes.len(),
        hex_value(hex_text(bytes)[2 * i]) == Some(bytes[i] as int / 16),
        hex_value(hex_text(bytes)[2 * i + 1]) == Some(bytes[i] as int % 16),
        !('A' <= hex_text(bytes)[2 * i] <= 'Z'),
        !('A' <= hex_text(bytes)[2 * i + 1] <= 'Z'),
        hex_value('0') == Some(0int) && hex_value('9') == Some(9int),
        hex_value('a') == Some(10int) && hex_value('f') == Some(15int),
        hex_value('A') == Some(10int) && hex_value('F') == Some(15int),
        hex_value('g') is None && hex_value('G') is None && hex_value('-') is None,
    decreases bytes.len(),
{
    lemma_hex_text_len(bytes);
    lemma_hex_text_len(bytes.drop_last());
    let before = hex_text(bytes.drop_last());
    if i < bytes.len() - 1 {
        each_byte_is_two_digits(bytes.drop_last(), i);
        assert(hex_text(bytes)[2 * i] == before[2 * i]);
        assert(hex_text(bytes)[2 * i + 1] == before[2 * i + 1]);
    }
}

proof fn lemma_hex_text_len(bytes: Seq<u8>)
    ensures
        hex_text(bytes).len() == 2 * bytes.len(),
    decreases bytes.len(),
{
    if bytes.len() > 0 {
        lemma_hex_text_len(bytes.drop_last());
    }
}

/// What is not pairs of digits is no seal, and what is shorter than a nonce of twelve bytes
/// and a tag of sixteen is too short for one.
pub proof fn a_seal_is_twenty_eight_bytes_at_least(
    key: Seq<u8>,
    associated: Seq<u8>,
    text: Seq<char>,
)
    ensures
        opened(key, associated, text) == Err::<Seq<u8>, SealFault>(SealFault::NotHex)
            <==> !is_hex(text),
        opened(key, associated, text) == Err::<Seq<u8>, SealFault>(SealFault::TooShort)
            <==> is_hex(text) && text.len() < 56,
{
}

/// An endpoint takes a name and a port; a text with less in it names none.
pub proof fn an_endpoint_takes_a_port(text: Seq<char>)
    requires
        words(text).len() < 2 || crate::numbers::natural_value(words(text)[1]) is None
            || crate::numbers::natural_value(words(text)[1])->Some_0 > 65535,
    ensures
        endpoint_in(text) is None,
{
}

/// A right that the store works under is one that the owner gave itself, to one collection,
/// for good, and a session under it can pay for five hundred writes.
pub proof fn a_right_pays_for_five_hundred_writes(signed: SignedCapability, c: Collection)
    requires
        is_grant(signed, c),
    ensures
        scope_of(granted(signed)) == Some(c.title()@),
        giver_of(granted(signed)) == holder_of(granted(signed)),
        is_lasting(granted(signed)),
        budget_of(granted(signed)) is Some,
        budget_of(granted(signed))->Some_0 == 500 * 2000,
{
}

} // verus!
