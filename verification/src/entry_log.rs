//! The record log: durable entries as one byte string, each record a collection,
//! a key and a value.
//!
//! Layout, repeated: `u16 collection | u32 key_len | key | u32 value_len | value`.

use vstd::prelude::*;
use vstd::slice::slice_subrange;
use vstd::utf8::{
    decode_utf8, encode_utf8, encode_utf8_decode_utf8, encode_utf8_valid_utf8, valid_utf8,
};

use crate::wire::{
    be_bytes, be_decode_of_encode, be_value, byte_range, lemma_be_bytes_len, read_u16, read_u32,
    u16_bytes, u32_bytes,
};

verus! {

/// The collections: one per kind of thing that is kept, so a retired cookie can
/// never take drift history down with it.
#[derive(Clone, Copy, Debug, PartialEq, Eq, Structural)]
pub enum Collection {
    Drift,
    Cookies,
    Keys,
}

impl Collection {
    /// The collection's number in the log.
    pub open spec fn number(self) -> nat {
        match self {
            Collection::Drift => 0,
            Collection::Cookies => 1,
            Collection::Keys => 2,
        }
    }

    /// The collection of a number.
    pub open spec fn of_number(n: nat) -> Option<Collection> {
        if n == 0 {
            Some(Collection::Drift)
        } else if n == 1 {
            Some(Collection::Cookies)
        } else if n == 2 {
            Some(Collection::Keys)
        } else {
            None
        }
    }

    /// The collection's name in the replica.
    pub open spec fn title(self) -> &'static str {
        match self {
            Collection::Drift => "rusty_time.drift",
            Collection::Cookies => "rusty_time.nts_cookies",
            Collection::Keys => "rusty_time.nts_keys",
        }
    }

    pub fn index(self) -> (n: usize)
        ensures
            n == self.number(),
            n < 3,
    {
        match self {
            Collection::Drift => 0,
            Collection::Cookies => 1,
            Collection::Keys => 2,
        }
    }

    pub fn from_index(n: usize) -> (c: Option<Collection>)
        ensures
            c == Collection::of_number(n as nat),
    {
        match n {
            0 => Some(Collection::Drift),
            1 => Some(Collection::Cookies),
            2 => Some(Collection::Keys),
            _ => None,
        }
    }

    pub fn name(self) -> (name: &'static str)
        ensures
            name@ == self.title()@,
    {
        match self {
            Collection::Drift => "rusty_time.drift",
            Collection::Cookies => "rusty_time.nts_cookies",
            Collection::Keys => "rusty_time.nts_keys",
        }
    }
}

/// Different collections have different names.
pub proof fn collections_are_apart(a: Collection, b: Collection)
    ensures
        a.title()@ == b.title()@ ==> a == b,
        Collection::of_number(a.number()) == Some(a),
{
    reveal_strlit("rusty_time.drift");
    reveal_strlit("rusty_time.nts_cookies");
    reveal_strlit("rusty_time.nts_keys");
    assert("rusty_time.drift"@.len() == 16);
    assert("rusty_time.nts_cookies"@.len() == 22);
    assert("rusty_time.nts_keys"@.len() == 19);
}

/// One entry.
pub struct LogEntry {
    pub collection: Collection,
    pub key: String,
    pub value: String,
}

/// One entry as a value.
pub ghost struct EntryValue {
    pub collection: Collection,
    pub key: Seq<char>,
    pub value: Seq<char>,
}

impl View for LogEntry {
    type V = EntryValue;

    open spec fn view(&self) -> EntryValue {
        EntryValue { collection: self.collection, key: self.key@, value: self.value@ }
    }
}

/// What can be wrong with a log.
#[derive(Clone, Copy, Debug, PartialEq, Eq, Structural)]
pub enum LogFault {
    /// It ends in the middle of a record.
    Truncated,
    /// It names a collection that there is not.
    UnknownCollection,
    KeyNotText,
    ValueNotText,
}

/// The bytes of a length, as far as four bytes hold it, and of what it counts.
pub open spec fn counted_bytes(bytes: Seq<u8>) -> Seq<u8> {
    be_bytes(bytes.len() % 0x1_0000_0000, 4) + bytes
}

/// The bytes of one record.
pub open spec fn entry_bytes(entry: EntryValue) -> Seq<u8> {
    be_bytes(entry.collection.number(), 2) + counted_bytes(encode_utf8(entry.key)) + counted_bytes(
        encode_utf8(entry.value),
    )
}

/// The bytes of a whole log.
pub open spec fn log_bytes(entries: Seq<EntryValue>) -> Seq<u8>
    decreases entries.len(),
{
    if entries.len() == 0 {
        Seq::empty()
    } else {
        log_bytes(entries.drop_last()) + entry_bytes(entries.last())
    }
}

/// The record at the front of a log, and how long it is.
pub open spec fn first_entry(log: Seq<u8>) -> Result<(EntryValue, int), LogFault> {
    if log.len() < 2 {
        Err(LogFault::Truncated)
    } else {
        match Collection::of_number(be_value(log.subrange(0, 2))) {
            None => Err(LogFault::UnknownCollection),
            Some(collection) => if log.len() < 6 {
                Err(LogFault::Truncated)
            } else {
                let key_end = 6 + be_value(log.subrange(2, 6)) as int;
                if key_end > log.len() {
                    Err(LogFault::Truncated)
                } else if !valid_utf8(log.subrange(6, key_end)) {
                    Err(LogFault::KeyNotText)
                } else if key_end + 4 > log.len() {
                    Err(LogFault::Truncated)
                } else {
                    let end = key_end + 4 + be_value(log.subrange(key_end, key_end + 4)) as int;
                    if end > log.len() {
                        Err(LogFault::Truncated)
                    } else if !valid_utf8(log.subrange(key_end + 4, end)) {
                        Err(LogFault::ValueNotText)
                    } else {
                        Ok(
                            (
                                EntryValue {
                                    collection,
                                    key: decode_utf8(log.subrange(6, key_end)),
                                    value: decode_utf8(log.subrange(key_end + 4, end)),
                                },
                                end,
                            ),
                        )
                    }
                }
            },
        }
    }
}

/// The entries of a log, or the first thing that is wrong with it.
pub open spec fn entries_of(log: Seq<u8>) -> Result<Seq<EntryValue>, LogFault>
    decreases log.len(),
{
    if log.len() == 0 {
        Ok(Seq::empty())
    } else {
        match first_entry(log) {
            Err(f) => Err(f),
            Ok((entry, len)) => if 0 < len <= log.len() {
                match entries_of(log.subrange(len, log.len() as int)) {
                    Err(f) => Err(f),
                    Ok(rest) => Ok(seq![entry] + rest),
                }
            } else {
                Err(LogFault::Truncated)
            },
        }
    }
}

/// `core::str::from_utf8` of std, and a copy of what it borrows: the text of
/// bytes that are UTF-8, and nothing of bytes that are not.
#[verifier::external_body]
pub(crate) fn text_from_utf8(bytes: &[u8]) -> (text: Option<String>)
    ensures
        match text {
            Some(t) => valid_utf8(bytes@) && t@ == decode_utf8(bytes@),
            None => !valid_utf8(bytes@),
        },
{
    core::str::from_utf8(bytes).ok().map(str::to_string)
}

fn append_counted(out: &mut Vec<u8>, text: &str)
    ensures
        final(out)@ == old(out)@ + counted_bytes(encode_utf8(text@)),
{
    let ghost start = out@;
    let bytes: &[u8] = text.as_bytes();
    let len: u64 = bytes.len() as u64;
    out.extend_from_slice(u32_bytes((len % 0x1_0000_0000) as u32).as_slice());
    out.extend_from_slice(bytes);
    assert(out@ =~= start + counted_bytes(encode_utf8(text@)));
}

/// Append one record to a log.
pub fn append_entry(log: &mut Vec<u8>, collection: Collection, key: &str, value: &str)
    ensures
        final(log)@ == old(log)@ + entry_bytes(
            EntryValue { collection, key: key@, value: value@ },
        ),
{
    let ghost start = log@;
    log.extend_from_slice(u16_bytes(collection.index() as u16).as_slice());
    append_counted(log, key);
    append_counted(log, value);
    assert(log@ =~= start + entry_bytes(EntryValue { collection, key: key@, value: value@ }));
}

/// The views of several entries.
pub open spec fn entry_views(entries: Seq<LogEntry>) -> Seq<EntryValue> {
    entries.map_values(|e: LogEntry| e@)
}

fn entry_at(log: &[u8], at: usize) -> (entry: Result<(LogEntry, usize), LogFault>)
    requires
        at <= log@.len(),
    ensures
        match first_entry(log@.subrange(at as int, log@.len() as int)) {
            Ok((e, len)) => entry is Ok && entry->Ok_0.0@ == e && entry->Ok_0.1 == at + len && 0
                < len && at + len <= log@.len(),
            Err(f) => entry is Err && entry->Err_0 == f,
        },
{
    let ghost rest = log@.subrange(at as int, log@.len() as int);
    let left: usize = log.len() - at;
    if left < 2 {
        return Err(LogFault::Truncated);
    }
    let number: usize = read_u16(log, at) as usize;
    assert(rest.subrange(0, 2) =~= log@.subrange(at as int, at + 2));
    let collection: Collection = match Collection::from_index(number) {
        None => {
            return Err(LogFault::UnknownCollection);
        },
        Some(c) => c,
    };
    if left < 6 {
        return Err(LogFault::Truncated);
    }
    let key_len: usize = read_u32(log, at + 2) as usize;
    assert(rest.subrange(2, 6) =~= log@.subrange(at + 2, at + 6));
    if key_len > left - 6 {
        return Err(LogFault::Truncated);
    }
    let key_bytes: &[u8] = slice_subrange(log, at + 6, at + 6 + key_len);
    assert(key_bytes@ =~= rest.subrange(6, 6 + key_len));
    let key: String = match text_from_utf8(key_bytes) {
        None => {
            return Err(LogFault::KeyNotText);
        },
        Some(t) => t,
    };
    let then: usize = left - 6 - key_len;
    if then < 4 {
        return Err(LogFault::Truncated);
    }
    let value_at: usize = at + 6 + key_len;
    let value_len: usize = read_u32(log, value_at) as usize;
    assert(rest.subrange(6 + key_len, 6 + key_len + 4) =~= log@.subrange(
        value_at as int,
        value_at + 4,
    ));
    if value_len > then - 4 {
        return Err(LogFault::Truncated);
    }
    let value_bytes: &[u8] = slice_subrange(log, value_at + 4, value_at + 4 + value_len);
    assert(value_bytes@ =~= rest.subrange(10 + key_len, 10 + key_len + value_len));
    match text_from_utf8(value_bytes) {
        None => Err(LogFault::ValueNotText),
        Some(value) => Ok((LogEntry { collection, key, value }, value_at + 4 + value_len)),
    }
}

/// Read a log back.
pub fn read_log(log: &[u8]) -> (entries: Result<Vec<LogEntry>, LogFault>)
    ensures
        match entries_of(log@) {
            Ok(e) => entries is Ok && entry_views(entries->Ok_0@) == e,
            Err(f) => entries is Err && entries->Err_0 == f,
        },
{
    let mut entries: Vec<LogEntry> = Vec::new();
    let mut at: usize = 0;
    let ghost all = entries_of(log@);
    assert(log@.subrange(0, log@.len() as int) =~= log@);
    assert(entry_views(entries@) =~= Seq::empty());
    proof {
        if let Ok(e) = all {
            assert(entry_views(entries@) + e =~= e);
        }
    }
    while at < log.len()
        invariant
            at <= log@.len(),
            all == entries_of(log@),
            match entries_of(log@.subrange(at as int, log@.len() as int)) {
                Ok(rest) => all == Ok::<Seq<EntryValue>, LogFault>(entry_views(entries@) + rest),
                Err(f) => all == Err::<Seq<EntryValue>, LogFault>(f),
            },
        decreases log@.len() - at,
    {
        let ghost rest = log@.subrange(at as int, log@.len() as int);
        let ghost before = entries@;
        match entry_at(log, at) {
            Err(f) => {
                return Err(f);
            },
            Ok((entry, next)) => {
                let ghost value = entry@;
                entries.push(entry);
                proof {
                    let tail = log@.subrange(next as int, log@.len() as int);
                    assert(rest.subrange(next - at, rest.len() as int) =~= tail);
                    assert(entry_views(entries@) =~= entry_views(before).push(value));
                    if let Ok(more) = entries_of(tail) {
                        assert(entry_views(before) + (seq![value] + more) =~= entry_views(entries@)
                            + more);
                    }
                }
                at = next;
            },
        }
    }
    proof {
        assert(log@.subrange(at as int, log@.len() as int) =~= Seq::empty());
        assert(entry_views(entries@) + Seq::<EntryValue>::empty() =~= entry_views(entries@));
    }
    Ok(entries)
}

/// Whether an entry's key and value are short enough for their lengths to be
/// written in full.
pub open spec fn writable(entry: EntryValue) -> bool {
    encode_utf8(entry.key).len() < 0x1_0000_0000 && encode_utf8(entry.value).len() < 0x1_0000_0000
}

proof fn lemma_entry_first(entry: EntryValue, tail: Seq<u8>)
    requires
        writable(entry),
    ensures
        first_entry(entry_bytes(entry) + tail) == Ok::<(EntryValue, int), LogFault>(
            (entry, entry_bytes(entry).len() as int),
        ),
        entry_bytes(entry).len() > 0,
{
    let key = encode_utf8(entry.key);
    let value = encode_utf8(entry.value);
    let log = entry_bytes(entry) + tail;
    reveal_with_fuel(byte_range, 5);
    collections_are_apart(entry.collection, entry.collection);
    lemma_be_bytes_len(entry.collection.number(), 2);
    lemma_be_bytes_len(key.len(), 4);
    lemma_be_bytes_len(value.len(), 4);
    be_decode_of_encode(entry.collection.number(), 2);
    be_decode_of_encode(key.len(), 4);
    be_decode_of_encode(value.len(), 4);
    encode_utf8_valid_utf8(entry.key);
    encode_utf8_valid_utf8(entry.value);
    encode_utf8_decode_utf8(entry.key);
    encode_utf8_decode_utf8(entry.value);
    let key_end = 6 + key.len() as int;
    let end = key_end + 4 + value.len() as int;
    assert(key.len() % 0x1_0000_0000 == key.len());
    assert(value.len() % 0x1_0000_0000 == value.len());
    assert(log.subrange(0, 2) =~= be_bytes(entry.collection.number(), 2));
    assert(log.subrange(2, 6) =~= be_bytes(key.len(), 4));
    assert(log.subrange(6, key_end) =~= key);
    assert(log.subrange(key_end, key_end + 4) =~= be_bytes(value.len(), 4));
    assert(log.subrange(key_end + 4, end) =~= value);
}

/// A log that was written reads back: the same entries, in the same order.
pub proof fn log_reads_back(entries: Seq<EntryValue>)
    requires
        forall|i: int| 0 <= i < entries.len() ==> writable(#[trigger] entries[i]),
    ensures
        entries_of(log_bytes(entries)) == Ok::<Seq<EntryValue>, LogFault>(entries),
{
    let none = Seq::<u8>::empty();
    assert(log_bytes(entries) =~= log_bytes(entries) + none);
    lemma_log_then(entries, none);
    assert(entries + Seq::<EntryValue>::empty() =~= entries);
}

proof fn lemma_log_then(entries: Seq<EntryValue>, tail: Seq<u8>)
    requires
        forall|i: int| 0 <= i < entries.len() ==> writable(#[trigger] entries[i]),
        entries_of(tail) is Ok,
    ensures
        entries_of(log_bytes(entries) + tail) == Ok::<Seq<EntryValue>, LogFault>(
            entries + entries_of(tail)->Ok_0,
        ),
    decreases entries.len(),
{
    let rest = entries_of(tail)->Ok_0;
    if entries.len() == 0 {
        assert(log_bytes(entries) + tail =~= tail);
        assert(entries + rest =~= rest);
    } else {
        let last = entries.last();
        let shorter = entries.drop_last();
        assert(writable(entries[entries.len() - 1]));
        assert forall|i: int| 0 <= i < shorter.len() implies writable(#[trigger] shorter[i]) by {
            assert(writable(entries[i]));
        }
        let more = entry_bytes(last) + tail;
        lemma_entry_first(last, tail);
        let len = entry_bytes(last).len() as int;
        assert(more.subrange(len, more.len() as int) =~= tail);
        assert(entries_of(more) == Ok::<Seq<EntryValue>, LogFault>(seq![last] + rest));
        lemma_log_then(shorter, more);
        assert(log_bytes(entries) + tail =~= log_bytes(shorter) + more);
        assert(shorter + (seq![last] + rest) =~= entries + rest);
    }
}

} // verus!
