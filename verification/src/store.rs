//! Durable state: drift, NTS cookies, and server master keys.
//!
//! * **Per entry, never a blob.** Each cookie, each drift reading, each master
//!   key is its own entry under its own compound key: a write that stops half way
//!   costs the cookie it was at, not the association.
//! * **Encrypted at rest.** Values are sealed under a key derived from a
//!   passphrase, with the compound key as associated data, so a sealed value
//!   cannot be lifted from one entry to another.
//!
//! Files and randomness belong to the caller: it hands in the salt, the log and
//! the nonces, and writes out the log that [`Store::flush`] returns.
//!
//! The replica admits what the store asks of it: once a store is open, only what
//! its entries hold decides how a read ends. [`StoreError::Sdk`] comes from making
//! the replica's identities alone, which takes the system's randomness.

use spacedb_sdk::{Database, Identity, Schema, Session, SignedCapability};
use vstd::prelude::*;

use vstd::string::StringExecFns;
use vstd::utf8::{decode_utf8, encode_utf8, valid_utf8};

use crate::entry_log::{
    append_entry, collections_are_apart, entries_of, entry_views, log_bytes, read_log,
    text_from_utf8, Collection, EntryValue, LogEntry, LogFault,
};
use crate::numbers::{decimal, decimal_text, is_real, natural_value, parse_natural, reads_as_real};
use crate::replica::{
    budget_of, declared, define, did_of, generate_identity, giver_of, grant, granted, holder_of,
    is_lasting, key_of, new_schema, no_registers, node_of, none_declared, none_withdrawn, not_texts,
    open_database, open_session, published, put_register, read_register, register_identity,
    registers, scope_of, sign, signed_with, with_budget, with_field, withdrawn,
};
use crate::sealing::{
    argon2_key, derive_key, open_value, opened, seal, SealFault, MAX_ASSOCIATED_LEN,
    MAX_MESSAGE_LEN, MAX_PASSPHRASE_LEN, NONCE_LEN, SALT_LEN,
};
use crate::text::{
    chars_of, comes_before, spells, split_words, string_of, text_before, text_order_is_total,
    text_order_is_transitive, words,
};
use crate::wire::{be_bytes, read_u32, u32_bytes};

verus! {

/// Master keys live in a small fixed slot ring, so the whole set can be
/// enumerated on boot without persisting an index.
pub const MASTER_KEY_SLOTS: usize = 3;

/// Bound on cookies stored per server, and the read loop's end.
pub const MAX_COOKIES_PER_SERVER: usize = 64;

/// Budget granted to each session, in micro-$MATA: generous for one operation
/// while still being a real bound.
pub const SESSION_BUDGET_MICRO_MATA: u64 = 1_000_000;

#[derive(Debug)]
pub enum StoreError {
    Io(String),
    Crypto(&'static str),
    Sdk(String),
    /// The file exists but is not one of ours, or is truncated.
    Corrupt(&'static str),
}

impl StoreError {
    /// What the error says to an operator.
    pub fn message(&self) -> (text: String)
        ensures
            text@ == match *self {
                StoreError::Io(e) => "store I/O: "@ + e@,
                StoreError::Crypto(what) => "store crypto: "@ + what@,
                StoreError::Sdk(e) => "store: "@ + e@,
                StoreError::Corrupt(what) => "store file is unusable: "@ + what@,
            },
    {
        let mut text: String = match self {
            StoreError::Io(_) => "store I/O: ".to_owned(),
            StoreError::Crypto(_) => "store crypto: ".to_owned(),
            StoreError::Sdk(_) => "store: ".to_owned(),
            StoreError::Corrupt(_) => "store file is unusable: ".to_owned(),
        };
        match self {
            StoreError::Io(e) => {
                text.append(e.as_str());
            },
            StoreError::Crypto(what) => {
                text.append(what);
            },
            StoreError::Sdk(e) => {
                text.append(e.as_str());
            },
            StoreError::Corrupt(what) => {
                text.append(what);
            },
        }
        text
    }
}

/// Whether an error reports this fault of a sealed value.
pub open spec fn reports_seal(e: StoreError, fault: SealFault) -> bool {
    match fault {
        SealFault::NotHex => e is Corrupt && e->Corrupt_0@ == "value is not hex"@,
        SealFault::TooShort => e is Corrupt && e->Corrupt_0@ == "value is too short to be sealed"@,
        SealFault::Unauthentic => e is Crypto && e->Crypto_0@ == "value failed authentication"@,
    }
}

/// Whether an error reports this fault of a log.
pub open spec fn reports_log(e: StoreError, fault: LogFault) -> bool {
    &&& e is Corrupt
    &&& e->Corrupt_0@ == match fault {
        LogFault::Truncated => "store file ended mid-record"@,
        LogFault::UnknownCollection => "store names an unknown collection"@,
        LogFault::KeyNotText => "entry key is not utf-8"@,
        LogFault::ValueNotText => "entry value is not utf-8"@,
    }
}

fn seal_error(fault: SealFault) -> (e: StoreError)
    ensures
        reports_seal(e, fault),
        !(e is Sdk),
{
    match fault {
        SealFault::NotHex => StoreError::Corrupt("value is not hex"),
        SealFault::TooShort => StoreError::Corrupt("value is too short to be sealed"),
        SealFault::Unauthentic => StoreError::Crypto("value failed authentication"),
    }
}

fn log_error(fault: LogFault) -> (e: StoreError)
    ensures
        reports_log(e, fault),
{
    match fault {
        LogFault::Truncated => StoreError::Corrupt("store file ended mid-record"),
        LogFault::UnknownCollection => StoreError::Corrupt("store names an unknown collection"),
        LogFault::KeyNotText => StoreError::Corrupt("entry key is not utf-8"),
        LogFault::ValueNotText => StoreError::Corrupt("entry value is not utf-8"),
    }
}

/// The compound key an entry lives under.
pub open spec fn entry_key(kind: Seq<char>, owner: Seq<char>, index: nat) -> Seq<char> {
    kind + "/"@ + owner + "/"@ + decimal(index)
}

/// The compound key an entry lives under, and the seal's associated data.
pub fn compound_key(kind: &str, owner: &str, index: usize) -> (key: String)
    ensures
        key@ == entry_key(kind@, owner@, index as nat),
{
    let mut key: String = kind.to_owned();
    key.append("/");
    key.append(owner);
    key.append("/");
    key.append(decimal_text(index as u64).as_str());
    key
}

/// Registers with the entries of a log written into them, in order.
pub open spec fn replayed(
    start: Map<(Seq<char>, Seq<char>), Seq<char>>,
    entries: Seq<EntryValue>,
) -> Map<(Seq<char>, Seq<char>), Seq<char>>
    decreases entries.len(),
{
    if entries.len() == 0 {
        start
    } else {
        let e = entries.last();
        replayed(start, entries.drop_last()).insert((e.collection.title()@, e.key), e.value)
    }
}

/// Whether texts stand in strictly ascending order.
pub open spec fn ascending(names: Seq<Seq<char>>) -> bool {
    forall|i: int, j: int|
        0 <= i < j < names.len() ==> text_before(#[trigger] names[i], #[trigger] names[j])
}

/// The entries of one collection: its fields that are set, in order.
pub open spec fn kept(
    map: Map<(Seq<char>, Seq<char>), Seq<char>>,
    collection: Collection,
    fields: Seq<Seq<char>>,
) -> Seq<EntryValue>
    decreases fields.len(),
{
    if fields.len() == 0 {
        Seq::empty()
    } else {
        let before = kept(map, collection, fields.drop_last());
        let key = fields.last();
        if map.contains_key((collection.title()@, key)) {
            before.push(
                EntryValue { collection, key, value: map[(collection.title()@, key)] },
            )
        } else {
            before
        }
    }
}

/// What a sealed entry reads as: nothing where it was never set, an empty value
/// where it was retired, and otherwise what its seal holds.
pub open spec fn reading(
    map: Map<(Seq<char>, Seq<char>), Seq<char>>,
    key: Seq<u8>,
    collection: Collection,
    field: Seq<char>,
) -> Result<Option<Seq<u8>>, SealFault> {
    let at = (collection.title()@, field);
    if !map.contains_key(at) {
        Ok(None)
    } else if map[at].len() == 0 {
        Ok(Some(Seq::empty()))
    } else {
        match opened(key, encode_utf8(field), map[at]) {
            Ok(m) => Ok(Some(m)),
            Err(f) => Err(f),
        }
    }
}

/// Durable state, open and unlocked.
pub struct Store {
    /// The replica that holds the entries.
    pub db: Database,
    /// Signed grants, one per collection. Sessions are made per operation from
    /// these: a session spends from its grant's budget, so a long-lived one
    /// would eventually refuse writes.
    capabilities: Vec<SignedCapability>,
    /// Field names declared per collection, ascending. SpaceDB schemas are
    /// explicit, so a compound key is declared before it is written or read.
    fields: Vec<Vec<String>>,
    key: [u8; 32],
}

/// The identity that grants the store its rights.
pub const OWNER: &'static str = "did:mata:rusty-time";

/// The identity that the store's replica is for.
pub const NODE: &'static str = "did:mata:rusty-time-node";

/// Whether a signed right is the one to a collection that the store works under.
pub open spec fn is_grant(signed: SignedCapability, c: Collection) -> bool {
    &&& scope_of(granted(signed)) == Some(c.title()@)
    &&& giver_of(granted(signed)) == OWNER@
    &&& holder_of(granted(signed)) == OWNER@
    &&& is_lasting(granted(signed))
    &&& budget_of(granted(signed)) == Some(SESSION_BUDGET_MICRO_MATA)
}

/// Whether a replica is the store's own, honours what the store's owner signed
/// with this key, and holds texts alone.
pub open spec fn is_replica(db: Database, key: Seq<u8>) -> bool {
    &&& node_of(db) == NODE@
    &&& published(db).contains_key(OWNER@)
    &&& published(db)[OWNER@] == key
    &&& withdrawn(db) == none_withdrawn()
    &&& not_texts(db) == none_declared()
}

/// The texts of some names.
pub open spec fn names_of(names: Seq<String>) -> Seq<Seq<char>> {
    names.map_values(|s: String| s@)
}

impl Store {
    /// The entries, sealed, by collection and key.
    pub closed spec fn map(&self) -> Map<(Seq<char>, Seq<char>), Seq<char>> {
        registers(self.db)
    }

    /// The sealing key.
    pub closed spec fn secret(&self) -> Seq<u8> {
        self.key@
    }

    /// The compound keys known of a collection.
    pub closed spec fn names(&self, c: Collection) -> Seq<Seq<char>> {
        names_of(self.fields@[c.number() as int]@)
    }

    pub closed spec fn wf(&self) -> bool {
        &&& is_replica(self.db, published(self.db)[OWNER@])
        &&& self.capabilities@.len() == 3
        &&& forall|c: Collection|
            is_grant(#[trigger] self.capabilities@[c.number() as int], c) && signed_with(
                self.capabilities@[c.number() as int],
            ) == published(self.db)[OWNER@]
        &&& self.fields@.len() == 3
        &&& forall|c: Collection| #[trigger] ascending(self.names(c))
        &&& forall|c: Collection, i: int|
            0 <= i < self.names(c).len() ==> declared(self.db).contains(
                (c.title()@, #[trigger] self.names(c)[i]),
            )
    }

    /// Whether every entry stands under a known key, so that a flush writes it.
    pub open spec fn complete(&self) -> bool {
        forall|at: (Seq<char>, Seq<char>)| #[trigger]
            self.map().contains_key(at) ==> exists|c: Collection|
                at.0 == c.title()@ && #[trigger] self.names(c).contains(at.1)
    }

    /// What an entry reads as.
    pub open spec fn stored(&self, c: Collection, field: Seq<char>) -> Result<
        Option<Seq<u8>>,
        SealFault,
    > {
        reading(self.map(), self.secret(), c, field)
    }

    /// Declare a compound key as a field before touching it: schemas are
    /// explicit by design, so keys are registered as they are used.
    fn ensure_field(&mut self, c: Collection, field: &str)
        requires
            old(self).wf(),
        ensures
            final(self).wf(),
            final(self).map() == old(self).map(),
            final(self).secret() == old(self).secret(),
            old(self).complete() ==> final(self).complete(),
            final(self).names(c).contains(field@),
            old(self).names(c).contains(field@) ==> *final(self) == *old(self),
            forall|d: Collection| d != c ==> #[trigger] final(self).names(d) == old(self).names(d),
            forall|n: Seq<char>|
                final(self).names(c).contains(n) <==> n == field@ || old(self).names(c).contains(n),
    {
        let ci: usize = c.index();
        let wanted: Vec<char> = chars_of(field);
        let ghost before = *self;
        let ghost names = self.names(c);
        let n: usize = self.fields[ci].len();
        let mut at: usize = 0;
        assert(ascending(self.names(c)));
        while at < n && comes_before(
            chars_of(self.fields[ci][at].as_str()).as_slice(),
            wanted.as_slice(),
        )
            invariant
                *self == before,
                before.wf(),
                ci == c.number(),
                ci < 3,
                names == before.names(c),
                n == names.len(),
                n == self.fields@[ci as int]@.len(),
                at <= n,
                wanted@ == field@,
                forall|i: int| 0 <= i < at ==> text_before(#[trigger] names[i], field@),
            decreases n - at,
        {
            assert(names[at as int] == self.fields@[ci as int]@[at as int]@);
            at = at + 1;
        }
        if at < n {
            assert(names[at as int] == self.fields@[ci as int]@[at as int]@);
            if spells(chars_of(self.fields[ci][at].as_str()).as_slice(), field) {
                return;
            }
        }
        proof {
            if names.contains(field@) {
                let k = names.index_of(field@);
                text_order_is_total(field@, field@);
                text_order_is_total(names[at as int], field@);
                if k < at {
                    assert(text_before(names[k], field@));
                } else {
                    assert(k > at);
                    assert(text_before(names[at as int], names[k]));
                }
            }
        }
        self.fields[ci].insert(at, field.to_owned());
        let ghost after = self.names(c);
        proof {
            lemma_insert_ascending(names, at as int, field@);
            assert(after =~= names.insert(at as int, field@));
        }
        let mut schema: Schema = new_schema(c.name());
        let mut i: usize = 0;
        while i < self.fields[ci].len()
            invariant
                ci == c.number(),
                ci < 3,
                self.fields@.len() == 3,
                after == self.names(c),
                after == names.insert(at as int, field@),
                names == before.names(c),
                !names.contains(field@),
                0 <= at <= names.len(),
                ascending(after),
                before.wf(),
                self.db == before.db,
                self.capabilities == before.capabilities,
                self.key == before.key,
                forall|d: Collection| d != c ==> #[trigger] self.names(d) == before.names(d),
                i <= after.len(),
                crate::replica::schema_name(schema) == c.title()@,
                forall|f: Seq<char>|
                    #[trigger] crate::replica::schema_fields(schema).contains(f) <==> after.take(
                        i as int,
                    ).contains(f),
            decreases after.len() - i,
        {
            let name: &str = self.fields[ci][i].as_str();
            assert(after[i as int] == name@);
            schema = with_field(schema, name);
            proof {
                lemma_take_contains(after, i as int);
            }
            i = i + 1;
        }
        assert(after.take(i as int) =~= after);
        define(&mut self.db, schema);
        proof {
            assert(self.names(c) == after);
            lemma_insert_contains(names, at as int, field@);
            assert(after[at as int] == field@);
            assert forall|d: Collection| #[trigger] ascending(self.names(d)) by {
                assert(ascending(before.names(d)));
                if d != c {
                    assert(self.names(d) == before.names(d));
                }
            }
            assert forall|d: Collection, k: int|
                0 <= k < self.names(d).len() implies declared(self.db).contains(
                (d.title()@, #[trigger] self.names(d)[k]),
            ) by {
                collections_are_apart(c, d);
                if d == c {
                    assert(after.contains(after[k]));
                } else {
                    assert(self.names(d) == before.names(d));
                    assert(declared(before.db).contains((d.title()@, before.names(d)[k])));
                }
            }
            lemma_stays_complete(before, *self);
        }
    }
}

proof fn lemma_stays_complete(before: Store, after: Store)
    requires
        after.map() == before.map(),
        forall|d: Collection, n: Seq<char>|
            before.names(d).contains(n) ==> #[trigger] after.names(d).contains(n),
    ensures
        before.complete() ==> after.complete(),
{
    if before.complete() {
        assert forall|at: (Seq<char>, Seq<char>)| #[trigger]
            after.map().contains_key(at) implies exists|d: Collection|
            at.0 == d.title()@ && #[trigger] after.names(d).contains(at.1) by {
            assert(before.map().contains_key(at));
            let d = choose|d: Collection|
                at.0 == d.title()@ && #[trigger] before.names(d).contains(at.1);
            assert(after.names(d).contains(at.1));
        }
    }
}

proof fn lemma_take_contains(names: Seq<Seq<char>>, i: int)
    requires
        0 <= i < names.len(),
    ensures
        forall|f: Seq<char>|
            #[trigger] names.take(i + 1).contains(f) <==> names.take(i).contains(f) || f == names[i],
{
    let now = names.take(i + 1);
    let then = names.take(i);
    assert forall|f: Seq<char>| #[trigger] now.contains(f) <==> then.contains(f) || f
        == names[i] by {
        if now.contains(f) {
            let k = now.index_of(f);
            if k < i {
                assert(then[k] == f);
            }
        }
        if then.contains(f) {
            let k = then.index_of(f);
            assert(now[k] == f);
        }
        if f == names[i] {
            assert(now[i] == f);
        }
    }
}

proof fn lemma_insert_contains(names: Seq<Seq<char>>, at: int, name: Seq<char>)
    requires
        0 <= at <= names.len(),
    ensures
        forall|n: Seq<char>|
            names.insert(at, name).contains(n) <==> n == name || names.contains(n),
{
    let after = names.insert(at, name);
    assert forall|n: Seq<char>| after.contains(n) <==> n == name || names.contains(n) by {
        if after.contains(n) {
            let k = after.index_of(n);
            if k < at {
                assert(names[k] == n);
            } else if k > at {
                assert(names[k - 1] == n);
            }
        }
        if names.contains(n) {
            let k = names.index_of(n);
            assert(after[if k < at { k } else { k + 1 }] == n);
        }
        assert(after[at] == name);
    }
}

proof fn lemma_insert_ascending(names: Seq<Seq<char>>, at: int, name: Seq<char>)
    requires
        ascending(names),
        0 <= at <= names.len(),
        forall|i: int| 0 <= i < at ==> text_before(#[trigger] names[i], name),
        at < names.len() ==> !text_before(names[at], name) && names[at] != name,
    ensures
        ascending(names.insert(at, name)),
{
    let after = names.insert(at, name);
    assert forall|i: int, j: int| 0 <= i < j < after.len() implies text_before(
        #[trigger] after[i],
        #[trigger] after[j],
    ) by {
        let oi = if i < at { i } else { i - 1 };
        let oj = if j < at { j } else { j - 1 };
        if i != at && j != at {
            assert(after[i] == names[oi] && after[j] == names[oj]);
        } else if j == at {
            assert(after[i] == names[i]);
        } else {
            text_order_is_total(names[at], name);
            assert(after[j] == names[j - 1]);
            if j - 1 > at {
                assert(text_before(names[at], names[j - 1]));
                text_order_is_transitive(name, names[at], names[j - 1]);
            }
        }
    }
}


/// Whether the outcome of a read is what the entry reads as.
pub open spec fn agrees(
    outcome: Result<Option<Vec<u8>>, StoreError>,
    truth: Result<Option<Seq<u8>>, SealFault>,
) -> bool {
    match outcome {
        Err(e) => truth is Err && reports_seal(e, truth->Err_0),
        Ok(None) => truth == Ok::<Option<Seq<u8>>, SealFault>(None),
        Ok(Some(v)) => truth == Ok::<Option<Seq<u8>>, SealFault>(Some(v@)),
    }
}

/// The registers with one sealed entry written.
pub open spec fn with_sealed(
    map: Map<(Seq<char>, Seq<char>), Seq<char>>,
    key: Seq<u8>,
    nonce: Seq<u8>,
    c: Collection,
    field: Seq<char>,
    plaintext: Seq<u8>,
) -> Map<(Seq<char>, Seq<char>), Seq<char>> {
    map.insert(
        (c.title()@, field),
        crate::hex::hex_text(
            nonce + crate::sealing::aes_seal(key, nonce, encode_utf8(field), plaintext),
        ),
    )
}

/// Whether a compound key is too long to be a seal's associated data.
pub open spec fn too_long(field: Seq<char>) -> bool {
    encode_utf8(field).len() > MAX_ASSOCIATED_LEN
}

impl Store {
    /// Open a store: derive the key from the passphrase and the salt, make a
    /// replica, and replay the log into it, if there is one.
    pub fn open(passphrase: &[u8], salt: &[u8], log: Option<&[u8]>) -> (store: Result<
        Store,
        StoreError,
    >)
        ensures
            match store {
                Ok(s) => s.wf() && s.complete() && salt@.len() == SALT_LEN && passphrase@.len()
                    <= MAX_PASSPHRASE_LEN && s.secret() == argon2_key(passphrase@, salt@)
                    && match log {
                    None => s.map() == no_registers(),
                    Some(l) => entries_of(l@) is Ok && s.map() == replayed(
                        no_registers(),
                        entries_of(l@)->Ok_0,
                    ),
                },
                Err(StoreError::Sdk(_)) => salt@.len() == SALT_LEN && passphrase@.len()
                    <= MAX_PASSPHRASE_LEN,
                Err(StoreError::Crypto(m)) => salt@.len() == SALT_LEN && passphrase@.len()
                    > MAX_PASSPHRASE_LEN && m@ == "Argon2id key derivation failed"@,
                Err(StoreError::Corrupt(m)) => if salt@.len() != SALT_LEN {
                    m@ == "salt file is the wrong length"@
                } else {
                    &&& passphrase@.len() <= MAX_PASSPHRASE_LEN
                    &&& log is Some
                    &&& entries_of(log->Some_0@) is Err
                    &&& reports_log(store->Err_0, entries_of(log->Some_0@)->Err_0)
                },
                Err(StoreError::Io(_)) => false,
            },
    {
        if salt.len() != SALT_LEN {
            return Err(StoreError::Corrupt("salt file is the wrong length"));
        }
        let salt_bytes: [u8; SALT_LEN] = [
            salt[0], salt[1], salt[2], salt[3], salt[4], salt[5], salt[6], salt[7],
            salt[8], salt[9], salt[10], salt[11], salt[12], salt[13], salt[14], salt[15],
        ];
        assert(salt_bytes@ =~= salt@);
        let key: [u8; 32] = match derive_key(passphrase, &salt_bytes) {
            Some(k) => k,
            None => {
                return Err(StoreError::Crypto("Argon2id key derivation failed"));
            },
        };
        let mut store: Store = match Store::empty(key) {
            Ok(s) => s,
            Err(e) => {
                return Err(StoreError::Sdk(e));
            },
        };
        match log {
            None => Ok(store),
            Some(l) => match store.load(l) {
                Ok(()) => Ok(store),
                Err(e) => Err(e),
            },
        }
    }

    /// Write the entries of a log into the store, or none of them where the log
    /// is unusable.
    pub fn load(&mut self, log: &[u8]) -> (done: Result<(), StoreError>)
        requires
            old(self).wf(),
        ensures
            final(self).wf(),
            final(self).secret() == old(self).secret(),
            old(self).complete() ==> final(self).complete(),
            match entries_of(log@) {
                Ok(entries) => done is Ok && final(self).map() == replayed(
                    old(self).map(),
                    entries,
                ),
                Err(fault) => done is Err && reports_log(done->Err_0, fault) && *final(self)
                    == *old(self),
            },
    {
        match read_log(log) {
            Err(fault) => Err(log_error(fault)),
            Ok(entries) => self.replay(&entries),
        }
    }

    /// A store without entries, under this key, if the replica can be set up.
    fn empty(key: [u8; 32]) -> (store: Result<Store, String>)
        ensures
            match store {
                Ok(s) => s.wf() && s.secret() == key@ && s.map() == no_registers() && forall|
                    c: Collection,
                | #[trigger]
                    s.names(c) == Seq::<Seq<char>>::empty(),
                Err(_) => true,
            },
    {
        let owner: Identity = match generate_identity(OWNER) {
            Ok(i) => i,
            Err(e) => {
                return Err(e);
            },
        };
        let node: Identity = match generate_identity(NODE) {
            Ok(i) => i,
            Err(e) => {
                return Err(e);
            },
        };
        let mut db: Database = open_database(node);
        match register_identity(&mut db, &owner) {
            Ok(()) => {},
            Err(e) => {
                return Err(e);
            },
        }
        let mut capabilities: Vec<SignedCapability> = Vec::new();
        let mut i: usize = 0;
        while i < 3
            invariant
                i <= 3,
                did_of(owner) == OWNER@,
                is_replica(db, key_of(owner)),
                capabilities@.len() == i,
                forall|c: Collection|
                    c.number() < i ==> is_grant(#[trigger] capabilities@[c.number() as int], c)
                        && signed_with(capabilities@[c.number() as int]) == key_of(owner),
                registers(db) == no_registers(),
            decreases 3 - i,
        {
            let name: &str = if i == 0 {
                Collection::Drift.name()
            } else if i == 1 {
                Collection::Cookies.name()
            } else {
                Collection::Keys.name()
            };
            define(&mut db, new_schema(name));
            let right = match grant(&owner, name) {
                Ok(c) => c,
                Err(e) => {
                    return Err(e);
                },
            };
            match sign(with_budget(right, SESSION_BUDGET_MICRO_MATA), &owner) {
                Ok(signed) => {
                    capabilities.push(signed);
                },
                Err(e) => {
                    return Err(e);
                },
            }
            i = i + 1;
        }
        Ok(Store::over(db, capabilities, key))
    }

    /// The store without entries over a fresh replica and its signed rights.
    fn over(db: Database, capabilities: Vec<SignedCapability>, key: [u8; 32]) -> (store: Store)
        requires
            is_replica(db, published(db)[OWNER@]),
            registers(db) == no_registers(),
            capabilities@.len() == 3,
            forall|c: Collection|
                is_grant(#[trigger] capabilities@[c.number() as int], c) && signed_with(
                    capabilities@[c.number() as int],
                ) == published(db)[OWNER@],
        ensures
            store.wf(),
            store.secret() == key@,
            store.map() == no_registers(),
            store.db == db,
            store.capabilities == capabilities,
            forall|c: Collection| #[trigger] store.names(c) == Seq::<Seq<char>>::empty(),
    {
        let mut fields: Vec<Vec<String>> = Vec::new();
        fields.push(Vec::new());
        fields.push(Vec::new());
        fields.push(Vec::new());
        let store = Store { db, capabilities, fields, key };
        proof {
            assert forall|c: Collection| #[trigger] store.names(c) == Seq::<Seq<char>>::empty() by {
                assert(store.fields@[c.number() as int]@.len() == 0);
            }
            assert forall|c: Collection| #[trigger] ascending(store.names(c)) by {
                assert(store.names(c).len() == 0);
            }
        }
        store
    }

    /// Replay entries as normal writes.
    fn replay(&mut self, entries: &Vec<LogEntry>) -> (done: Result<(), StoreError>)
        requires
            old(self).wf(),
        ensures
            final(self).wf(),
            final(self).secret() == old(self).secret(),
            old(self).complete() ==> final(self).complete(),
            done is Ok,
            final(self).map() == replayed(old(self).map(), entry_views(entries@)),
    {
        let ghost start = self.map();
        let ghost all = entry_views(entries@);
        let mut i: usize = 0;
        assert(all.take(0) =~= Seq::empty());
        while i < entries.len()
            invariant
                self.wf(),
                self.secret() == old(self).secret(),
                old(self).complete() ==> self.complete(),
                start == old(self).map(),
                all == entry_views(entries@),
                i <= entries@.len(),
                self.map() == replayed(start, all.take(i as int)),
            decreases entries@.len() - i,
        {
            let e: &LogEntry = &entries[i];
            match self.put_raw(e.collection, e.key.as_str(), e.value.as_str()) {
                Ok(()) => {},
                Err(err) => {
                    return Err(err);
                },
            }
            proof {
                assert(all.take(i + 1).drop_last() =~= all.take(i as int));
                assert(all.take(i + 1).last() == e@);
            }
            i = i + 1;
        }
        assert(all.take(i as int) =~= all);
        Ok(())
    }

    /// Write a value verbatim (already sealed, or the empty tombstone).
    fn put_raw(&mut self, c: Collection, field: &str, value: &str) -> (done: Result<(), StoreError>)
        requires
            old(self).wf(),
        ensures
            final(self).wf(),
            final(self).secret() == old(self).secret(),
            old(self).complete() ==> final(self).complete(),
            done is Ok,
            final(self).map() == old(self).map().insert((c.title()@, field@), value@),
    {
        self.ensure_field(c, field);
        let ghost before = *self;
        let mut session: Session = open_session(&self.db, &self.capabilities[c.index()]);
        let done: Result<(), String> = put_register(
            &mut self.db,
            &mut session,
            c.name(),
            field,
            value,
        );
        proof {
            assert(none_declared().remove((c.title()@, field@)) =~= none_declared());
            assert forall|d: Collection| #[trigger] ascending(self.names(d)) by {
                assert(ascending(before.names(d)));
                assert(self.names(d) == before.names(d));
            }
            assert forall|d: Collection, k: int|
                0 <= k < self.names(d).len() implies declared(self.db).contains(
                (d.title()@, #[trigger] self.names(d)[k]),
            ) by {
                assert(self.names(d) == before.names(d));
                assert(declared(before.db).contains((d.title()@, before.names(d)[k])));
            }
            if before.complete() {
                assert forall|at: (Seq<char>, Seq<char>)| #[trigger]
                    self.map().contains_key(at) implies exists|d: Collection|
                    at.0 == d.title()@ && #[trigger] self.names(d).contains(at.1) by {
                    if at == (c.title()@, field@) {
                        assert(self.names(c).contains(at.1));
                    } else {
                        assert(before.map().contains_key(at));
                        let d = choose|d: Collection|
                            at.0 == d.title()@ && #[trigger] before.names(d).contains(at.1);
                        assert(self.names(d).contains(at.1));
                    }
                }
            }
        }
        match done {
            Ok(()) => Ok(()),
            Err(e) => Err(StoreError::Sdk(e)),
        }
    }

    /// The stored (still sealed) value for a key, if present.
    fn get_raw(&mut self, c: Collection, field: &str) -> (value: Result<Option<String>, StoreError>)
        requires
            old(self).wf(),
        ensures
            final(self).wf(),
            final(self).secret() == old(self).secret(),
            old(self).complete() ==> final(self).complete(),
            final(self).map() == old(self).map(),
            old(self).names(c).contains(field@) ==> (forall|d: Collection| #[trigger]
                final(self).names(d) == old(self).names(d)),
            match value {
                Ok(Some(v)) => old(self).map().contains_key((c.title()@, field@)) && old(
                    self,
                ).map()[(c.title()@, field@)] == v@,
                Ok(None) => !old(self).map().contains_key((c.title()@, field@)),
                Err(_) => false,
            },
    {
        self.ensure_field(c, field);
        let mut session: Session = open_session(&self.db, &self.capabilities[c.index()]);
        match read_register(&self.db, &mut session, c.name(), field) {
            Ok(v) => Ok(v),
            Err(e) => Err(StoreError::Sdk(e)),
        }
    }

    /// Seal a value and write it.
    fn put_sealed(
        &mut self,
        c: Collection,
        field: &str,
        plaintext: &[u8],
        nonce: &[u8; NONCE_LEN],
    ) -> (done: Result<(), StoreError>)
        requires
            old(self).wf(),
            plaintext@.len() <= MAX_MESSAGE_LEN,
        ensures
            final(self).wf(),
            final(self).secret() == old(self).secret(),
            old(self).complete() ==> final(self).complete(),
            match done {
                Ok(()) => !too_long(field@) && final(self).map() == with_sealed(
                    old(self).map(),
                    old(self).secret(),
                    nonce@,
                    c,
                    field@,
                    plaintext@,
                ) && final(self).stored(c, field@) == Ok::<Option<Seq<u8>>, SealFault>(
                    Some(plaintext@),
                ),
                Err(e) => final(self).map() == old(self).map() && too_long(field@) && e is Crypto
                    && e->Crypto_0@ == "AES-256-GCM seal failed"@,
            },
    {
        match seal(&self.key, nonce, plaintext, field.as_bytes()) {
            None => Err(StoreError::Crypto("AES-256-GCM seal failed")),
            Some(text) => self.put_raw(c, field, text.as_str()),
        }
    }

    /// Read a sealed value.
    fn get_sealed(&mut self, c: Collection, field: &str) -> (value: Result<
        Option<Vec<u8>>,
        StoreError,
    >)
        requires
            old(self).wf(),
        ensures
            final(self).wf(),
            final(self).secret() == old(self).secret(),
            old(self).complete() ==> final(self).complete(),
            final(self).map() == old(self).map(),
            agrees(value, old(self).stored(c, field@)),
            !(value is Err && value->Err_0 is Io),
    {
        match self.get_raw(c, field) {
            Err(e) => Err(e),
            Ok(raw) => unsealed(&self.key, field, raw),
        }
    }
}

/// What a register's text comes to, once it has been read: nothing, a retired
/// entry, or what its seal holds.
pub fn unsealed(key: &[u8; 32], field: &str, raw: Option<String>) -> (value: Result<
    Option<Vec<u8>>,
    StoreError,
>)
    ensures
        match raw {
            None => value is Ok && value->Ok_0 is None,
            Some(text) => if text@.len() == 0 {
                value is Ok && value->Ok_0 is Some && value->Ok_0->Some_0@ == Seq::<u8>::empty()
            } else {
                match opened(key@, encode_utf8(field@), text@) {
                    Ok(m) => value is Ok && value->Ok_0 is Some && value->Ok_0->Some_0@ == m,
                    Err(f) => value is Err && reports_seal(value->Err_0, f) && !(value->Err_0
                        is Sdk),
                }
            },
        },
{
    match raw {
        None => Ok(None),
        Some(text) => {
            if text.as_str().is_empty() {
                return Ok(Some(Vec::new()));
            }
            match open_value(key, text.as_str(), field.as_bytes()) {
                Ok(m) => Ok(Some(m)),
                Err(f) => Err(seal_error(f)),
            }
        },
    }
}


proof fn lemma_log_push(entries: Seq<EntryValue>, entry: EntryValue)
    ensures
        log_bytes(entries.push(entry)) == log_bytes(entries) + crate::entry_log::entry_bytes(entry),
{
    assert(entries.push(entry).drop_last() =~= entries);
}

impl Store {
    /// The entries that a flush writes: every known key that is set, collection
    /// by collection, in ascending order.
    pub open spec fn snapshot(&self) -> Seq<EntryValue> {
        kept(self.map(), Collection::Drift, self.names(Collection::Drift)) + kept(
            self.map(),
            Collection::Cookies,
            self.names(Collection::Cookies),
        ) + kept(self.map(), Collection::Keys, self.names(Collection::Keys))
    }

    /// The state as a record log, to be written to disk. A log rather than the
    /// replica's own export: one damaged record costs one entry.
    pub fn flush(&mut self) -> (log: Result<Vec<u8>, StoreError>)
        requires
            old(self).wf(),
        ensures
            final(self).wf(),
            final(self).secret() == old(self).secret(),
            old(self).complete() ==> final(self).complete(),
            final(self).map() == old(self).map(),
            log is Ok,
            log->Ok_0@ == log_bytes(old(self).snapshot()),
    {
        let ghost start = *self;
        let mut log: Vec<u8> = Vec::new();
        let ghost none = Seq::<EntryValue>::empty();
        assert(log@ =~= log_bytes(none));
        match self.flush_collection(Collection::Drift, &mut log, Ghost(none)) {
            Ok(()) => {},
            Err(e) => {
                return Err(e);
            },
        }
        let ghost one = none + kept(self.map(), Collection::Drift, self.names(Collection::Drift));
        match self.flush_collection(Collection::Cookies, &mut log, Ghost(one)) {
            Ok(()) => {},
            Err(e) => {
                return Err(e);
            },
        }
        let ghost two = one + kept(
            self.map(),
            Collection::Cookies,
            self.names(Collection::Cookies),
        );
        match self.flush_collection(Collection::Keys, &mut log, Ghost(two)) {
            Ok(()) => {},
            Err(e) => {
                return Err(e);
            },
        }
        proof {
            assert(two + kept(self.map(), Collection::Keys, self.names(Collection::Keys))
                =~= start.snapshot());
        }
        Ok(log)
    }

    fn flush_collection(
        &mut self,
        c: Collection,
        log: &mut Vec<u8>,
        Ghost(so_far): Ghost<Seq<EntryValue>>,
    ) -> (done: Result<(), StoreError>)
        requires
            old(self).wf(),
            old(log)@ == log_bytes(so_far),
        ensures
            final(self).wf(),
            final(self).secret() == old(self).secret(),
            old(self).complete() ==> final(self).complete(),
            final(self).map() == old(self).map(),
            forall|d: Collection| #[trigger] final(self).names(d) == old(self).names(d),
            done is Ok,
            final(log)@ == log_bytes(so_far + kept(old(self).map(), c, old(self).names(c))),
    {
        let ci: usize = c.index();
        let ghost start = *self;
        let ghost names = self.names(c);
        let n: usize = self.fields[ci].len();
        let mut i: usize = 0;
        assert(names.take(0) =~= Seq::empty());
        assert(so_far + kept(self.map(), c, names.take(0)) =~= so_far);
        while i < n
            invariant
                ci == c.number(),
                ci < 3,
                start == *old(self),
                start.wf(),
                self.wf(),
                self.secret() == start.secret(),
                start.complete() ==> self.complete(),
                self.map() == start.map(),
                forall|d: Collection| #[trigger] self.names(d) == start.names(d),
                names == start.names(c),
                n == names.len(),
                i <= n,
                log@ == log_bytes(so_far + kept(start.map(), c, names.take(i as int))),
            decreases n - i,
        {
            assert(self.names(c) == names);
            let name: String = self.fields[ci][i].clone();
            let ghost so_now = so_far + kept(start.map(), c, names.take(i as int));
            proof {
                assert(names[i as int] == name@);
                assert(names.contains(name@));
                assert(names.take(i + 1).drop_last() =~= names.take(i as int));
                assert(names.take(i + 1).last() == name@);
            }
            match self.get_raw(c, name.as_str()) {
                Err(e) => {
                    return Err(e);
                },
                Ok(None) => {},
                Ok(Some(value)) => {
                    append_entry(log, c, name.as_str(), value.as_str());
                    proof {
                        let entry = EntryValue { collection: c, key: name@, value: value@ };
                        lemma_log_push(so_now, entry);
                        assert(so_far + kept(start.map(), c, names.take(i + 1)) =~= so_now.push(
                            entry,
                        ));
                    }
                },
            }
            i = i + 1;
        }
        assert(names.take(i as int) =~= names);
        Ok(())
    }
}

proof fn lemma_kept_holds(
    map: Map<(Seq<char>, Seq<char>), Seq<char>>,
    c: Collection,
    fields: Seq<Seq<char>>,
)
    ensures
        forall|i: int|
            0 <= i < kept(map, c, fields).len() ==> {
                let e = #[trigger] kept(map, c, fields)[i];
                map.contains_key((e.collection.title()@, e.key)) && map[(
                    e.collection.title()@,
                    e.key,
                )] == e.value
            },
        forall|f: Seq<char>|
            #[trigger] fields.contains(f) && map.contains_key((c.title()@, f)) ==> exists|i: int|
                0 <= i < kept(map, c, fields).len() && (#[trigger] kept(map, c, fields)[i])
                    == (EntryValue { collection: c, key: f, value: map[(c.title()@, f)] }),
    decreases fields.len(),
{
    if fields.len() > 0 {
        let shorter = fields.drop_last();
        lemma_kept_holds(map, c, shorter);
        let list = kept(map, c, fields);
        let before = kept(map, c, shorter);
        assert forall|i: int| 0 <= i < list.len() implies {
            let e = #[trigger] list[i];
            map.contains_key((e.collection.title()@, e.key)) && map[(
                e.collection.title()@,
                e.key,
            )] == e.value
        } by {
            if i < before.len() {
                assert(list[i] == before[i]);
            }
        }
        assert forall|f: Seq<char>| #[trigger]
            fields.contains(f) && map.contains_key((c.title()@, f)) implies exists|i: int|
            0 <= i < list.len() && (#[trigger] list[i]) == (EntryValue {
                collection: c,
                key: f,
                value: map[(c.title()@, f)],
            }) by {
            let k = fields.index_of(f);
            if k < shorter.len() {
                assert(shorter[k] == f);
                assert(shorter.contains(f));
                let i = choose|i: int|
                    0 <= i < before.len() && (#[trigger] before[i]) == (EntryValue {
                        collection: c,
                        key: f,
                        value: map[(c.title()@, f)],
                    });
                assert(list[i] == before[i]);
            } else {
                assert(list[list.len() - 1].key == f);
            }
        }
    }
}

proof fn lemma_replay_agrees(
    map: Map<(Seq<char>, Seq<char>), Seq<char>>,
    entries: Seq<EntryValue>,
    at: (Seq<char>, Seq<char>),
)
    requires
        forall|i: int|
            0 <= i < entries.len() ==> map.contains_key(
                ((#[trigger] entries[i]).collection.title()@, entries[i].key),
            ) && map[(entries[i].collection.title()@, entries[i].key)] == entries[i].value,
    ensures
        replayed(no_registers(), entries).contains_key(at) ==> map.contains_key(at) && replayed(
            no_registers(),
            entries,
        )[at] == map[at],
        (exists|i: int|
            0 <= i < entries.len() && ((#[trigger] entries[i]).collection.title()@, entries[i].key)
                == at) ==> replayed(no_registers(), entries).contains_key(at),
    decreases entries.len(),
{
    if entries.len() > 0 {
        let shorter = entries.drop_last();
        let last = entries.last();
        assert(last == entries[entries.len() - 1]);
        assert forall|i: int| 0 <= i < shorter.len() implies map.contains_key(
            ((#[trigger] shorter[i]).collection.title()@, shorter[i].key),
        ) && map[(shorter[i].collection.title()@, shorter[i].key)] == shorter[i].value by {
            assert(shorter[i] == entries[i]);
        }
        lemma_replay_agrees(map, shorter, at);
        if exists|i: int|
            0 <= i < entries.len() && ((#[trigger] entries[i]).collection.title()@, entries[i].key)
                == at {
            let i = choose|i: int|
                0 <= i < entries.len() && ((#[trigger] entries[i]).collection.title()@,
                    entries[i].key) == at;
            if i < shorter.len() {
                assert(shorter[i] == entries[i]);
            }
        }
    }
}

/// State survives a restart: replaying a flushed log gives every known entry
/// back, still sealed, and nothing else.
pub proof fn a_flushed_log_restores_the_entries(store: Store, c: Collection, field: Seq<char>)
    requires
        store.names(c).contains(field),
    ensures
        ({
            let at = (c.title()@, field);
            let back = replayed(no_registers(), store.snapshot());
            &&& back.contains_key(at) <==> store.map().contains_key(at)
            &&& store.map().contains_key(at) ==> back[at] == store.map()[at]
        }),
{
    let map = store.map();
    let all = store.snapshot();
    let at = (c.title()@, field);
    let a = kept(map, Collection::Drift, store.names(Collection::Drift));
    let b = kept(map, Collection::Cookies, store.names(Collection::Cookies));
    let d = kept(map, Collection::Keys, store.names(Collection::Keys));
    lemma_kept_holds(map, c, store.names(c));
    lemma_snapshot_holds(store);
    lemma_replay_agrees(map, all, at);
    if map.contains_key(at) {
        let list = kept(map, c, store.names(c));
        let i = choose|i: int|
            0 <= i < list.len() && (#[trigger] list[i]) == (EntryValue {
                collection: c,
                key: field,
                value: map[at],
            });
        let j = match c {
            Collection::Drift => i,
            Collection::Cookies => a.len() + i,
            Collection::Keys => a.len() + b.len() + i,
        };
        assert(all[j] == list[i]);
    }
}


/// A restart loses nothing and adds nothing: a store whose entries all stand
/// under known keys, flushed to a log and loaded from it, holds what it held. A
/// log counts the bytes of a key and of a value in 32 bits, so entries that are
/// longer are left out here.
pub proof fn a_restart_restores_the_store(store: Store)
    requires
        store.complete(),
        forall|i: int|
            0 <= i < store.snapshot().len() ==> crate::entry_log::writable(
                #[trigger] store.snapshot()[i],
            ),
    ensures
        entries_of(log_bytes(store.snapshot())) is Ok,
        replayed(no_registers(), entries_of(log_bytes(store.snapshot()))->Ok_0) == store.map(),
{
    let all = store.snapshot();
    crate::entry_log::log_reads_back(all);
    lemma_snapshot_holds(store);
    let back = replayed(no_registers(), all);
    assert forall|at: (Seq<char>, Seq<char>)| #[trigger]
        back.contains_key(at) <==> store.map().contains_key(at) by {
        lemma_replay_agrees(store.map(), all, at);
        if store.map().contains_key(at) {
            let c = choose|c: Collection|
                at.0 == c.title()@ && #[trigger] store.names(c).contains(at.1);
            a_flushed_log_restores_the_entries(store, c, at.1);
        }
    }
    assert forall|at: (Seq<char>, Seq<char>)|
        back.contains_key(at) implies #[trigger] back[at] == store.map()[at] by {
        lemma_replay_agrees(store.map(), all, at);
    }
    assert(back =~= store.map());
}

proof fn lemma_snapshot_holds(store: Store)
    ensures
        forall|i: int|
            0 <= i < store.snapshot().len() ==> {
                let e = #[trigger] store.snapshot()[i];
                store.map().contains_key((e.collection.title()@, e.key)) && store.map()[(
                    e.collection.title()@,
                    e.key,
                )] == e.value
            },
{
    let map = store.map();
    let all = store.snapshot();
    let a = kept(map, Collection::Drift, store.names(Collection::Drift));
    let b = kept(map, Collection::Cookies, store.names(Collection::Cookies));
    let d = kept(map, Collection::Keys, store.names(Collection::Keys));
    lemma_kept_holds(map, Collection::Drift, store.names(Collection::Drift));
    lemma_kept_holds(map, Collection::Cookies, store.names(Collection::Cookies));
    lemma_kept_holds(map, Collection::Keys, store.names(Collection::Keys));
    assert forall|i: int| 0 <= i < all.len() implies map.contains_key(
        ((#[trigger] all[i]).collection.title()@, all[i].key),
    ) && map[(all[i].collection.title()@, all[i].key)] == all[i].value by {
        if i < a.len() {
            assert(all[i] == a[i]);
        } else if i < a.len() + b.len() {
            assert(all[i] == b[i - a.len()]);
        } else {
            assert(all[i] == d[i - a.len() - b.len()]);
        }
    }
}

/// Whether an entry reads as blank: never set, or retired.
pub open spec fn is_blank(reading: Result<Option<Seq<u8>>, SealFault>) -> bool {
    match reading {
        Ok(None) => true,
        Ok(Some(v)) => v.len() == 0,
        Err(_) => false,
    }
}

/// The key of one cookie of a server.
pub open spec fn cookie_key(server: Seq<char>, index: nat) -> Seq<char> {
    entry_key("cookie"@, server, index)
}

/// Different owners and different places have different keys.
pub proof fn entry_keys_are_apart(
    kind: Seq<char>,
    owner: Seq<char>,
    other: Seq<char>,
    i: nat,
    j: nat,
)
    ensures
        entry_key(kind, owner, i) == entry_key(kind, other, j) ==> owner == other && i == j,
{
    let a = entry_key(kind, owner, i);
    let b = entry_key(kind, other, j);
    if a == b {
        reveal_strlit("/");
        crate::numbers::decimal_reads_back(i);
        crate::numbers::decimal_reads_back(j);
        let m = kind.len() + 1 + owner.len() as int;
        let n = kind.len() + 1 + other.len() as int;
        assert(a.len() == m + 1 + decimal(i).len());
        assert(b.len() == n + 1 + decimal(j).len());
        assert(a[m] == '/' && b[n] == '/');
        if m < n {
            assert(a[n] == decimal(i)[n - m - 1]);
        }
        if n < m {
            assert(b[m] == decimal(j)[m - n - 1]);
        }
        let k = kind.len() as int + 1;
        assert(a.subrange(k, m) =~= owner);
        assert(b.subrange(k, n) =~= other);
        assert(a.skip(m + 1) =~= decimal(i));
        assert(b.skip(n + 1) =~= decimal(j));
    }
}

/// How many of a server's first `n` cookies come before the first whose key is
/// too long to seal under.
pub open spec fn fitting(server: Seq<char>, n: nat) -> nat
    decreases n,
{
    if n == 0 {
        0
    } else {
        let before = fitting(server, (n - 1) as nat);
        if before == n - 1 && !too_long(cookie_key(server, (n - 1) as nat)) {
            n
        } else {
            before
        }
    }
}

proof fn lemma_fitting(server: Seq<char>, k: nat, n: nat)
    requires
        k <= n,
        fitting(server, k) == k,
        k < n ==> too_long(cookie_key(server, k)),
    ensures
        fitting(server, n) == k,
    decreases n,
{
    if n > k {
        if n > k + 1 {
            lemma_fitting(server, k, (n - 1) as nat);
        }
    }
}

/// How many cookies of a batch are stored.
pub open spec fn stored_count(cookies: nat) -> nat {
    if cookies < MAX_COOKIES_PER_SERVER {
        cookies
    } else {
        MAX_COOKIES_PER_SERVER as nat
    }
}

/// The registers with the first `n` cookies of a batch sealed and written.
pub open spec fn cookies_written(
    map: Map<(Seq<char>, Seq<char>), Seq<char>>,
    key: Seq<u8>,
    server: Seq<char>,
    cookies: Seq<Vec<u8>>,
    nonces: Seq<[u8; 12]>,
    n: nat,
) -> Map<(Seq<char>, Seq<char>), Seq<char>>
    decreases n,
{
    if n == 0 {
        map
    } else {
        with_sealed(
            cookies_written(map, key, server, cookies, nonces, (n - 1) as nat),
            key,
            nonces[n - 1]@,
            Collection::Cookies,
            cookie_key(server, (n - 1) as nat),
            cookies[n - 1]@,
        )
    }
}

/// The registers with a server's cookies retired from place `i` on, up to the
/// first blank one or the first that cannot be read, and what is wrong with that
/// one.
pub open spec fn cookies_retired(
    map: Map<(Seq<char>, Seq<char>), Seq<char>>,
    key: Seq<u8>,
    server: Seq<char>,
    i: nat,
) -> (Map<(Seq<char>, Seq<char>), Seq<char>>, Option<SealFault>)
    decreases MAX_COOKIES_PER_SERVER - i,
{
    if i >= MAX_COOKIES_PER_SERVER {
        (map, None)
    } else {
        match reading(map, key, Collection::Cookies, cookie_key(server, i)) {
            Err(f) => (map, Some(f)),
            Ok(None) => (map, None),
            Ok(Some(v)) => if v.len() == 0 {
                (map, None)
            } else {
                cookies_retired(
                    map.insert(
                        (Collection::Cookies.title()@, cookie_key(server, i)),
                        Seq::empty(),
                    ),
                    key,
                    server,
                    i + 1,
                )
            },
        }
    }
}

/// What can stop a write.
pub ghost enum WriteFault {
    /// The key is too long to seal under.
    TooLong,
    /// An entry that was to be retired cannot be read.
    Seal(SealFault),
}

/// Whether the outcome of a write is this one.
pub open spec fn ends_as(done: Result<(), StoreError>, fault: Option<WriteFault>) -> bool {
    match (done, fault) {
        (Ok(()), None) => true,
        (Err(e), Some(WriteFault::TooLong)) => e is Crypto && e->Crypto_0@
            == "AES-256-GCM seal failed"@,
        (Err(e), Some(WriteFault::Seal(f))) => reports_seal(e, f),
        _ => false,
    }
}

/// The registers after a batch of cookies was put for a server, and what stopped
/// it: the cookies are written in turn, as far as their keys can be sealed under,
/// and once all of them are there what is left of an older batch is retired.
pub open spec fn cookies_put(
    map: Map<(Seq<char>, Seq<char>), Seq<char>>,
    key: Seq<u8>,
    server: Seq<char>,
    cookies: Seq<Vec<u8>>,
    nonces: Seq<[u8; 12]>,
) -> (Map<(Seq<char>, Seq<char>), Seq<char>>, Option<WriteFault>) {
    let n = stored_count(cookies.len());
    let k = fitting(server, n);
    let written = cookies_written(map, key, server, cookies, nonces, k);
    if k < n {
        (written, Some(WriteFault::TooLong))
    } else {
        let (retired, fault) = cookies_retired(written, key, server, n);
        (
            retired,
            match fault {
                None => None,
                Some(f) => Some(WriteFault::Seal(f)),
            },
        )
    }
}

/// A server's cookies from place `i` on, up to the first blank one; the first
/// that cannot be read is a fault.
pub open spec fn cookie_run(
    map: Map<(Seq<char>, Seq<char>), Seq<char>>,
    key: Seq<u8>,
    server: Seq<char>,
    i: nat,
) -> Result<Seq<Seq<u8>>, SealFault>
    decreases MAX_COOKIES_PER_SERVER - i,
{
    if i >= MAX_COOKIES_PER_SERVER {
        Ok(Seq::empty())
    } else {
        match reading(map, key, Collection::Cookies, cookie_key(server, i)) {
            Err(f) => Err(f),
            Ok(None) => Ok(Seq::empty()),
            Ok(Some(v)) => if v.len() == 0 {
                Ok(Seq::empty())
            } else {
                match cookie_run(map, key, server, i + 1) {
                    Err(f) => Err(f),
                    Ok(rest) => Ok(seq![v] + rest),
                }
            },
        }
    }
}

/// The views of several byte strings.
pub open spec fn byte_views(v: Seq<Vec<u8>>) -> Seq<Seq<u8>> {
    v.map_values(|b: Vec<u8>| b@)
}

/// Whether two register maps agree outside one server's cookies.
pub open spec fn differ_in_cookies(
    a: Map<(Seq<char>, Seq<char>), Seq<char>>,
    b: Map<(Seq<char>, Seq<char>), Seq<char>>,
    server: Seq<char>,
) -> bool {
    forall|at: (Seq<char>, Seq<char>)|
        (forall|i: nat| at != (Collection::Cookies.title()@, #[trigger] cookie_key(server, i))) ==> (
        #[trigger] a.contains_key(at) <==> b.contains_key(at)) && (a.contains_key(at) ==> a[at]
            == b[at])
}

proof fn lemma_cookie_written(
    start: Map<(Seq<char>, Seq<char>), Seq<char>>,
    before: Map<(Seq<char>, Seq<char>), Seq<char>>,
    after: Map<(Seq<char>, Seq<char>), Seq<char>>,
    server: Seq<char>,
    i: nat,
)
    requires
        differ_in_cookies(start, before, server),
        exists|v: Seq<char>|
            after == #[trigger] before.insert(
                (Collection::Cookies.title()@, cookie_key(server, i)),
                v,
            ),
    ensures
        differ_in_cookies(start, after, server),
{
    assert forall|at: (Seq<char>, Seq<char>)|
        (forall|k: nat| at != (Collection::Cookies.title()@, #[trigger] cookie_key(
            server,
            k,
        ))) implies (#[trigger] start.contains_key(at) <==> after.contains_key(at)) && (
    start.contains_key(at) ==> start[at] == after[at]) by {
        assert(at != (Collection::Cookies.title()@, cookie_key(server, i)));
        assert(start.contains_key(at) <==> before.contains_key(at));
    }
}

impl Store {
    /// Replace the cookies stored for one NTS server; `nonces` holds a fresh one
    /// for each cookie stored. A shorter batch retires the tail of the longer
    /// one before it, so no stale cookie is left for a later load to spend.
    pub fn put_cookies(
        &mut self,
        server: &str,
        cookies: &Vec<Vec<u8>>,
        nonces: &Vec<[u8; 12]>,
    ) -> (done: Result<(), StoreError>)
        requires
            old(self).wf(),
            nonces@.len() >= stored_count(cookies@.len()),
            forall|i: int|
                0 <= i < cookies@.len() ==> (#[trigger] cookies@[i])@.len() <= MAX_MESSAGE_LEN,
        ensures
            final(self).wf(),
            final(self).secret() == old(self).secret(),
            old(self).complete() ==> final(self).complete(),
            differ_in_cookies(old(self).map(), final(self).map(), server@),
            ({
                let n = stored_count(cookies@.len());
                let (map, fault) = cookies_put(
                    old(self).map(),
                    old(self).secret(),
                    server@,
                    cookies@,
                    nonces@,
                );
                &&& final(self).map() == map
                &&& ends_as(done, fault)
                &&& forall|i: nat|
                    i < fitting(server@, n) ==> final(self).stored(
                        Collection::Cookies,
                        #[trigger] cookie_key(server@, i),
                    ) == Ok::<Option<Seq<u8>>, SealFault>(Some(cookies@[i as int]@))
                &&& done is Ok && n < MAX_COOKIES_PER_SERVER ==> is_blank(
                    final(self).stored(Collection::Cookies, cookie_key(server@, n)),
                )
            }),
            done is Ok && (forall|i: int|
                0 <= i < cookies@.len() ==> (#[trigger] cookies@[i])@.len() > 0) ==> cookie_run(
                final(self).map(),
                final(self).secret(),
                server@,
                0,
            ) == Ok::<Seq<Seq<u8>>, SealFault>(
                byte_views(cookies@.take(stored_count(cookies@.len()) as int)),
            ),
    {
        let keep: usize = if cookies.len() < MAX_COOKIES_PER_SERVER {
            cookies.len()
        } else {
            MAX_COOKIES_PER_SERVER
        };
        let ghost start = *self;
        let ghost secret = self.secret();
        let mut i: usize = 0;
        while i < keep
            invariant
                start == *old(self),
                self.wf(),
                self.secret() == secret,
                start.complete() ==> self.complete(),
                secret == start.secret(),
                keep == stored_count(cookies@.len()),
                nonces@.len() >= keep,
                forall|k: int|
                    0 <= k < cookies@.len() ==> (#[trigger] cookies@[k])@.len()
                        <= MAX_MESSAGE_LEN,
                i <= keep,
                self.map() == cookies_written(
                    start.map(),
                    secret,
                    server@,
                    cookies@,
                    nonces@,
                    i as nat,
                ),
                differ_in_cookies(start.map(), self.map(), server@),
                fitting(server@, i as nat) == i,
                forall|k: nat|
                    k < i ==> self.stored(
                        Collection::Cookies,
                        #[trigger] cookie_key(server@, k),
                    ) == Ok::<Option<Seq<u8>>, SealFault>(Some(cookies@[k as int]@)),
            decreases keep - i,
        {
            let key: String = compound_key("cookie", server, i);
            let ghost before = *self;
            match self.put_sealed(
                Collection::Cookies,
                key.as_str(),
                cookies[i].as_slice(),
                &nonces[i],
            ) {
                Ok(()) => {},
                Err(e) => {
                    proof {
                        lemma_fitting(server@, i as nat, keep as nat);
                    }
                    return Err(e);
                },
            }
            proof {
                lemma_cookie_written(start.map(), before.map(), self.map(), server@, i as nat);
                assert forall|k: nat| k < i + 1 implies self.stored(
                    Collection::Cookies,
                    #[trigger] cookie_key(server@, k),
                ) == Ok::<Option<Seq<u8>>, SealFault>(Some(cookies@[k as int]@)) by {
                    if k < i {
                        entry_keys_are_apart("cookie"@, server@, server@, k, i as nat);
                        assert(before.stored(Collection::Cookies, cookie_key(server@, k)) == Ok::<
                            Option<Seq<u8>>,
                            SealFault,
                        >(Some(cookies@[k as int]@)));
                    }
                }
            }
            i = i + 1;
        }
        let ghost written = self.map();
        let ghost goal = cookies_retired(written, secret, server@, keep as nat);
        let mut j: usize = keep;
        while j < MAX_COOKIES_PER_SERVER
            invariant
                start == *old(self),
                self.wf(),
                self.secret() == secret,
                start.complete() ==> self.complete(),
                secret == start.secret(),
                keep == stored_count(cookies@.len()),
                written == cookies_written(
                    start.map(),
                    secret,
                    server@,
                    cookies@,
                    nonces@,
                    keep as nat,
                ),
                goal == cookies_retired(written, secret, server@, keep as nat),
                keep <= j <= MAX_COOKIES_PER_SERVER,
                fitting(server@, keep as nat) == keep,
                differ_in_cookies(start.map(), self.map(), server@),
                goal == cookies_retired(self.map(), secret, server@, j as nat),
                keep < j ==> is_blank(
                    self.stored(Collection::Cookies, cookie_key(server@, keep as nat)),
                ),
                forall|k: nat|
                    k < keep ==> self.stored(
                        Collection::Cookies,
                        #[trigger] cookie_key(server@, k),
                    ) == Ok::<Option<Seq<u8>>, SealFault>(Some(cookies@[k as int]@)),
            decreases MAX_COOKIES_PER_SERVER - j,
        {
            let key: String = compound_key("cookie", server, j);
            let ghost before = *self;
            match self.get_sealed(Collection::Cookies, key.as_str()) {
                Err(e) => {
                    return Err(e);
                },
                Ok(None) => {
                    proof {
                        lemma_batch_reads_back(self.map(), secret, server@, cookies@);
                    }
                    return Ok(());
                },
                Ok(Some(v)) => {
                    if v.len() == 0 {
                        proof {
                            lemma_batch_reads_back(self.map(), secret, server@, cookies@);
                        }
                        return Ok(());
                    }
                },
            }
            match self.put_raw(Collection::Cookies, key.as_str(), "") {
                Ok(()) => {},
                Err(e) => {
                    return Err(e);
                },
            }
            proof {
                reveal_strlit("");
                assert(""@ =~= Seq::empty());
                lemma_cookie_written(start.map(), before.map(), self.map(), server@, j as nat);
                assert forall|k: nat| k < keep implies self.stored(
                    Collection::Cookies,
                    #[trigger] cookie_key(server@, k),
                ) == Ok::<Option<Seq<u8>>, SealFault>(Some(cookies@[k as int]@)) by {
                    entry_keys_are_apart("cookie"@, server@, server@, k, j as nat);
                    assert(before.stored(Collection::Cookies, cookie_key(server@, k)) == Ok::<
                        Option<Seq<u8>>,
                        SealFault,
                    >(Some(cookies@[k as int]@)));
                }
                entry_keys_are_apart("cookie"@, server@, server@, keep as nat, j as nat);
            }
            j = j + 1;
        }
        proof {
            lemma_batch_reads_back(self.map(), secret, server@, cookies@);
        }
        Ok(())
    }

    /// The cookies stored for one NTS server.
    pub fn get_cookies(&mut self, server: &str) -> (cookies: Result<Vec<Vec<u8>>, StoreError>)
        requires
            old(self).wf(),
        ensures
            final(self).wf(),
            final(self).secret() == old(self).secret(),
            old(self).complete() ==> final(self).complete(),
            final(self).map() == old(self).map(),
            ({
                let run = cookie_run(old(self).map(), old(self).secret(), server@, 0);
                match cookies {
                    Ok(c) => run == Ok::<Seq<Seq<u8>>, SealFault>(byte_views(c@)),
                    Err(e) => run is Err && reports_seal(e, run->Err_0),
                }
            }),
    {
        let ghost map = self.map();
        let ghost secret = self.secret();
        let ghost run = cookie_run(map, secret, server@, 0);
        let mut out: Vec<Vec<u8>> = Vec::new();
        let mut i: usize = 0;
        proof {
            assert(byte_views(out@) =~= Seq::empty());
            if let Ok(r) = run {
                assert(byte_views(out@) + r =~= r);
            }
        }
        while i < MAX_COOKIES_PER_SERVER
            invariant
                self.wf(),
                self.map() == map,
                self.secret() == secret,
                old(self).complete() ==> self.complete(),
                map == old(self).map(),
                secret == old(self).secret(),
                i <= MAX_COOKIES_PER_SERVER,
                run == cookie_run(map, secret, server@, 0),
                match cookie_run(map, secret, server@, i as nat) {
                    Ok(rest) => run == Ok::<Seq<Seq<u8>>, SealFault>(byte_views(out@) + rest),
                    Err(f) => run == Err::<Seq<Seq<u8>>, SealFault>(f),
                },
            decreases MAX_COOKIES_PER_SERVER - i,
        {
            let key: String = compound_key("cookie", server, i);
            let ghost before = out@;
            match self.get_sealed(Collection::Cookies, key.as_str()) {
                Err(e) => {
                    return Err(e);
                },
                Ok(None) => {
                    assert(byte_views(out@) + Seq::<Seq<u8>>::empty() =~= byte_views(out@));
                    return Ok(out);
                },
                Ok(Some(v)) => {
                    if v.len() == 0 {
                        assert(byte_views(out@) + Seq::<Seq<u8>>::empty() =~= byte_views(out@));
                        return Ok(out);
                    }
                    let ghost value = v@;
                    out.push(v);
                    proof {
                        assert(byte_views(out@) =~= byte_views(before).push(value));
                        if let Ok(rest) = cookie_run(map, secret, server@, (i + 1) as nat) {
                            assert(byte_views(before) + (seq![value] + rest) =~= byte_views(out@)
                                + rest);
                        }
                    }
                },
            }
            i = i + 1;
        }
        assert(byte_views(out@) + Seq::<Seq<u8>>::empty() =~= byte_views(out@));
        Ok(out)
    }
}

proof fn lemma_batch_reads_back(
    map: Map<(Seq<char>, Seq<char>), Seq<char>>,
    key: Seq<u8>,
    server: Seq<char>,
    cookies: Seq<Vec<u8>>,
)
    requires
        ({
            let n = stored_count(cookies.len());
            &&& forall|i: nat|
                i < n ==> reading(
                    map,
                    key,
                    Collection::Cookies,
                    #[trigger] cookie_key(server, i),
                ) == Ok::<Option<Seq<u8>>, SealFault>(Some(cookies[i as int]@))
            &&& n < MAX_COOKIES_PER_SERVER ==> is_blank(
                reading(map, key, Collection::Cookies, cookie_key(server, n)),
            )
        }),
    ensures
        (forall|i: int| 0 <= i < cookies.len() ==> (#[trigger] cookies[i])@.len() > 0)
            ==> cookie_run(map, key, server, 0) == Ok::<Seq<Seq<u8>>, SealFault>(
            byte_views(cookies.take(stored_count(cookies.len()) as int)),
        ),
{
    if forall|i: int| 0 <= i < cookies.len() ==> (#[trigger] cookies[i])@.len() > 0 {
        let batch = byte_views(cookies.take(stored_count(cookies.len()) as int));
        assert forall|i: int| 0 <= i < batch.len() implies (#[trigger] batch[i]).len() > 0 by {
            assert(batch[i] == cookies[i]@);
        }
        assert forall|i: nat| i < batch.len() implies reading(
            map,
            key,
            Collection::Cookies,
            #[trigger] cookie_key(server, i),
        ) == Ok::<Option<Seq<u8>>, SealFault>(Some(batch[i as int])) by {
            assert(batch[i as int] == cookies[i as int]@);
        }
        stored_cookies_read_back(map, key, server, batch, 0);
        assert(batch.skip(0) =~= batch);
    }
}

/// A server's cookies are its own: whatever is stored for one server, every
/// other server's cookies read as they did.
pub proof fn other_servers_keep_their_cookies(
    before: Map<(Seq<char>, Seq<char>), Seq<char>>,
    after: Map<(Seq<char>, Seq<char>), Seq<char>>,
    key: Seq<u8>,
    server: Seq<char>,
    other: Seq<char>,
    from: nat,
)
    requires
        differ_in_cookies(before, after, server),
        other != server,
    ensures
        cookie_run(after, key, other, from) == cookie_run(before, key, other, from),
    decreases MAX_COOKIES_PER_SERVER - from,
{
    if from < MAX_COOKIES_PER_SERVER {
        let at = (Collection::Cookies.title()@, cookie_key(other, from));
        assert forall|i: nat| at != (Collection::Cookies.title()@, #[trigger] cookie_key(
            server,
            i,
        )) by {
            entry_keys_are_apart("cookie"@, server, other, i, from);
        }
        assert(before.contains_key(at) <==> after.contains_key(at));
        other_servers_keep_their_cookies(before, after, key, server, other, from + 1);
    }
}

/// What was put is what is read: after a batch of cookies was stored, reading
/// gives the batch back, as many as are stored of it, and nothing of an earlier
/// one. A cookie of no bytes reads as retired, so it is left out here.
pub proof fn stored_cookies_read_back(
    map: Map<(Seq<char>, Seq<char>), Seq<char>>,
    key: Seq<u8>,
    server: Seq<char>,
    cookies: Seq<Seq<u8>>,
    from: nat,
)
    requires
        from <= cookies.len() <= MAX_COOKIES_PER_SERVER,
        forall|i: int| 0 <= i < cookies.len() ==> (#[trigger] cookies[i]).len() > 0,
        forall|i: nat|
            i < cookies.len() ==> reading(
                map,
                key,
                Collection::Cookies,
                #[trigger] cookie_key(server, i),
            ) == Ok::<Option<Seq<u8>>, SealFault>(Some(cookies[i as int])),
        cookies.len() < MAX_COOKIES_PER_SERVER ==> is_blank(
            reading(map, key, Collection::Cookies, cookie_key(server, cookies.len())),
        ),
    ensures
        cookie_run(map, key, server, from) == Ok::<Seq<Seq<u8>>, SealFault>(
            cookies.skip(from as int),
        ),
    decreases cookies.len() - from,
{
    if from < cookies.len() {
        stored_cookies_read_back(map, key, server, cookies, from + 1);
        assert(cookies[from as int].len() > 0);
        assert(reading(map, key, Collection::Cookies, cookie_key(server, from)) == Ok::<
            Option<Seq<u8>>,
            SealFault,
        >(Some(cookies[from as int])));
        assert(cookies.skip(from as int) =~= seq![cookies[from as int]] + cookies.skip(from as int + 1));
    } else {
        assert(cookies.skip(from as int) =~= Seq::empty());
    }
}


/// One persisted drift reading for a source: the texts of three real numbers,
/// the frequency in ppm, the offset in seconds, and the Unix time.
#[derive(Debug)]
pub struct DriftRecord {
    pub freq_ppm: String,
    pub offset_s: String,
    pub updated_unix: String,
}

/// A drift reading as a value.
pub ghost struct DriftValue {
    pub freq_ppm: Seq<char>,
    pub offset_s: Seq<char>,
    pub updated_unix: Seq<char>,
}

impl View for DriftRecord {
    type V = DriftValue;

    open spec fn view(&self) -> DriftValue {
        DriftValue {
            freq_ppm: self.freq_ppm@,
            offset_s: self.offset_s@,
            updated_unix: self.updated_unix@,
        }
    }
}

/// The text that a drift reading is stored as.
pub open spec fn drift_text(d: DriftValue) -> Seq<char> {
    d.freq_ppm + " "@ + d.offset_s + " "@ + d.updated_unix
}

/// What can be wrong with an entry.
pub ghost enum EntryFault {
    Seal(SealFault),
    Corrupt(Seq<char>),
}

/// Whether an error reports this fault of an entry.
pub open spec fn reports_entry(e: StoreError, fault: EntryFault) -> bool {
    match fault {
        EntryFault::Seal(f) => reports_seal(e, f),
        EntryFault::Corrupt(what) => e is Corrupt && e->Corrupt_0@ == what,
    }
}

/// The drift reading in a text: its first three words, each a real number.
pub open spec fn drift_in(text: Seq<char>) -> Option<DriftValue> {
    let w = words(text);
    if w.len() >= 3 && is_real(w[0]) && is_real(w[1]) && is_real(w[2]) {
        Some(DriftValue { freq_ppm: w[0], offset_s: w[1], updated_unix: w[2] })
    } else {
        None
    }
}

/// The drift reading in an entry that reads as `entry`.
pub open spec fn drift_of(entry: Result<Option<Seq<u8>>, SealFault>) -> Result<
    Option<DriftValue>,
    EntryFault,
> {
    match entry {
        Err(f) => Err(EntryFault::Seal(f)),
        Ok(None) => Ok(None),
        Ok(Some(plain)) => if plain.len() == 0 {
            Ok(None)
        } else if !valid_utf8(plain) {
            Err(EntryFault::Corrupt("drift is not utf-8"@))
        } else {
            match drift_in(decode_utf8(plain)) {
                Some(d) => Ok(Some(d)),
                None => Err(EntryFault::Corrupt("drift field is not a number"@)),
            }
        },
    }
}

/// The key of a source's drift reading.
pub open spec fn drift_key(source: Seq<char>) -> Seq<char> {
    entry_key("drift"@, source, 0)
}

impl Store {
    /// Store a source's drift reading.
    pub fn put_drift(&mut self, source: &str, record: &DriftRecord, nonce: &[u8; NONCE_LEN]) -> (done:
        Result<(), StoreError>)
        requires
            old(self).wf(),
            encode_utf8(drift_text(record@)).len() <= MAX_MESSAGE_LEN,
        ensures
            final(self).wf(),
            final(self).secret() == old(self).secret(),
            old(self).complete() ==> final(self).complete(),
            match done {
                Ok(()) => !too_long(drift_key(source@)) && final(self).map() == with_sealed(
                    old(self).map(),
                    old(self).secret(),
                    nonce@,
                    Collection::Drift,
                    drift_key(source@),
                    encode_utf8(drift_text(record@)),
                ) && final(self).stored(Collection::Drift, drift_key(source@)) == Ok::<
                    Option<Seq<u8>>,
                    SealFault,
                >(Some(encode_utf8(drift_text(record@)))),
                Err(e) => final(self).map() == old(self).map() && too_long(drift_key(source@)) && e is Crypto
                    && e->Crypto_0@ == "AES-256-GCM seal failed"@,
            },
    {
        let key: String = compound_key("drift", source, 0);
        let mut payload: String = record.freq_ppm.clone();
        payload.append(" ");
        payload.append(record.offset_s.as_str());
        payload.append(" ");
        payload.append(record.updated_unix.as_str());
        self.put_sealed(Collection::Drift, key.as_str(), payload.as_str().as_bytes(), nonce)
    }

    /// A source's drift reading, if there is one.
    pub fn get_drift(&mut self, source: &str) -> (record: Result<Option<DriftRecord>, StoreError>)
        requires
            old(self).wf(),
        ensures
            final(self).wf(),
            final(self).secret() == old(self).secret(),
            old(self).complete() ==> final(self).complete(),
            final(self).map() == old(self).map(),
            ({
                let truth = drift_of(old(self).stored(Collection::Drift, drift_key(source@)));
                match record {
                    Ok(None) => truth == Ok::<Option<DriftValue>, EntryFault>(None),
                    Ok(Some(d)) => truth == Ok::<Option<DriftValue>, EntryFault>(Some(d@)),
                    Err(e) => truth is Err && reports_entry(e, truth->Err_0),
                }
            }),
    {
        let key: String = compound_key("drift", source, 0);
        let plain: Vec<u8> = match self.get_sealed(Collection::Drift, key.as_str()) {
            Err(e) => {
                return Err(e);
            },
            Ok(None) => {
                return Ok(None);
            },
            Ok(Some(p)) => p,
        };
        if plain.len() == 0 {
            return Ok(None);
        }
        let text: String = match text_from_utf8(plain.as_slice()) {
            None => {
                return Err(StoreError::Corrupt("drift is not utf-8"));
            },
            Some(t) => t,
        };
        let parts: Vec<Vec<char>> = split_words(chars_of(text.as_str()).as_slice());
        assert(forall|i: int| 0 <= i < parts@.len() ==> words(text@)[i] == (#[trigger] parts@[i])@);
        if parts.len() < 3 || !reads_as_real(parts[0].as_slice()) || !reads_as_real(
            parts[1].as_slice(),
        ) || !reads_as_real(parts[2].as_slice()) {
            return Err(StoreError::Corrupt("drift field is not a number"));
        }
        Ok(
            Some(
                DriftRecord {
                    freq_ppm: string_of(parts[0].as_slice()),
                    offset_s: string_of(parts[1].as_slice()),
                    updated_unix: string_of(parts[2].as_slice()),
                },
            ),
        )
    }
}

/// A persisted NTS server master key.
#[derive(Clone, Copy, Debug, PartialEq, Eq)]
pub struct StoredMasterKey {
    pub id: u32,
    pub key: [u8; 32],
}

/// The bytes that a master key is stored as.
pub open spec fn master_bytes(key: StoredMasterKey) -> Seq<u8> {
    be_bytes(key.id as nat, 4) + key.key@
}

/// The key of a master key slot.
pub open spec fn master_slot(slot: int) -> Seq<char> {
    entry_key("master"@, "self"@, (slot % (MASTER_KEY_SLOTS as int)) as nat)
}

/// Whether `key` is the master key in an entry that reads as `entry`: one of any
/// other length counts as none.
pub open spec fn is_master(
    entry: Result<Option<Seq<u8>>, SealFault>,
    key: Option<StoredMasterKey>,
) -> bool {
    match (entry, key) {
        (Ok(Some(plain)), Some(k)) => plain.len() == 36 && plain == master_bytes(k),
        (Ok(Some(plain)), None) => plain.len() != 36,
        (Ok(None), None) => true,
        _ => false,
    }
}

proof fn lemma_utf8_len(text: Seq<char>)
    ensures
        encode_utf8(text).len() <= 4 * text.len(),
    decreases text.len(),
{
    if text.len() > 0 {
        lemma_utf8_len(text.drop_first());
    }
}

proof fn lemma_slot_fits(slot: int)
    ensures
        !too_long(master_slot(slot)),
{
    reveal_strlit("master");
    reveal_strlit("self");
    reveal_strlit("/");
    lemma_utf8_len(master_slot(slot));
    assert(decimal((slot % (MASTER_KEY_SLOTS as int)) as nat).len() == 1);
}

impl Store {
    /// Persist a server master key in `slot`, so cookies minted before a restart
    /// still redeem afterwards.
    pub fn put_master_key(
        &mut self,
        slot: usize,
        key: &StoredMasterKey,
        nonce: &[u8; NONCE_LEN],
    ) -> (done: Result<(), StoreError>)
        requires
            old(self).wf(),
        ensures
            final(self).wf(),
            final(self).secret() == old(self).secret(),
            old(self).complete() ==> final(self).complete(),
            match done {
                Ok(()) => final(self).map() == with_sealed(
                    old(self).map(),
                    old(self).secret(),
                    nonce@,
                    Collection::Keys,
                    master_slot(slot as int),
                    master_bytes(*key),
                ) && is_master(
                    final(self).stored(Collection::Keys, master_slot(slot as int)),
                    Some(*key),
                ),
                Err(_) => false,
            },
    {
        let field: String = compound_key("master", "self", slot % MASTER_KEY_SLOTS);
        let mut payload: Vec<u8> = Vec::new();
        payload.extend_from_slice(u32_bytes(key.id).as_slice());
        payload.extend_from_slice(key.key.as_slice());
        assert(payload@ =~= master_bytes(*key));
        proof {
            lemma_slot_fits(slot as int);
        }
        self.put_sealed(Collection::Keys, field.as_str(), payload.as_slice(), nonce)
    }

    /// The master key in `slot`, if there is one.
    pub fn get_master_key(&mut self, slot: usize) -> (key: Result<
        Option<StoredMasterKey>,
        StoreError,
    >)
        requires
            old(self).wf(),
        ensures
            final(self).wf(),
            final(self).secret() == old(self).secret(),
            old(self).complete() ==> final(self).complete(),
            final(self).map() == old(self).map(),
            ({
                let entry = old(self).stored(Collection::Keys, master_slot(slot as int));
                match key {
                    Ok(k) => is_master(entry, k),
                    Err(e) => entry is Err && reports_seal(e, entry->Err_0),
                }
            }),
    {
        let field: String = compound_key("master", "self", slot % MASTER_KEY_SLOTS);
        let plain: Vec<u8> = match self.get_sealed(Collection::Keys, field.as_str()) {
            Err(e) => {
                return Err(e);
            },
            Ok(None) => {
                return Ok(None);
            },
            Ok(Some(p)) => p,
        };
        if plain.len() != 36 {
            return Ok(None);
        }
        let id: u32 = read_u32(plain.as_slice(), 0);
        let key: [u8; 32] = bytes_32(plain.as_slice(), 4);
        proof {
            crate::wire::be_encode_of_decode(plain@.subrange(0, 4));
            assert(plain@ =~= plain@.subrange(0, 4) + plain@.subrange(4, 36));
        }
        Ok(Some(StoredMasterKey { id, key }))
    }

    /// Every master key still held, oldest slot first.
    pub fn all_master_keys(&mut self) -> (keys: Result<Vec<StoredMasterKey>, StoreError>)
        requires
            old(self).wf(),
        ensures
            final(self).wf(),
            final(self).secret() == old(self).secret(),
            old(self).complete() ==> final(self).complete(),
            final(self).map() == old(self).map(),
            match keys {
                Ok(k) => are_masters(old(self).map(), old(self).secret(), k@, 3),
                Err(e) => exists|slot: int|
                    0 <= slot < MASTER_KEY_SLOTS && ({
                        let entry = old(self).stored(
                            Collection::Keys,
                            #[trigger] master_slot(slot),
                        );
                        entry is Err && reports_seal(e, entry->Err_0)
                    }) && forall|earlier: int|
                        0 <= earlier < slot ==> old(self).stored(
                            Collection::Keys,
                            #[trigger] master_slot(earlier),
                        ) is Ok,
            },
    {
        let mut out: Vec<StoredMasterKey> = Vec::new();
        let mut slot: usize = 0;
        while slot < MASTER_KEY_SLOTS
            invariant
                self.wf(),
                self.secret() == old(self).secret(),
                old(self).complete() ==> self.complete(),
                self.map() == old(self).map(),
                slot <= MASTER_KEY_SLOTS,
                are_masters(old(self).map(), old(self).secret(), out@, slot as nat),
                forall|earlier: int|
                    0 <= earlier < slot ==> old(self).stored(
                        Collection::Keys,
                        #[trigger] master_slot(earlier),
                    ) is Ok,
            decreases MASTER_KEY_SLOTS - slot,
        {
            let ghost entry = self.stored(Collection::Keys, master_slot(slot as int));
            match self.get_master_key(slot) {
                Err(e) => {
                    return Err(e);
                },
                Ok(Some(k)) => {
                    let ghost before = out@;
                    out.push(k);
                    assert(out@.drop_last() =~= before);
                },
                Ok(None) => {},
            }
            slot = slot + 1;
        }
        Ok(out)
    }
}

/// A master key survives storage: whatever key an entry reads as after one was
/// stored in it, it is that one.
pub proof fn a_master_key_reads_back(
    entry: Result<Option<Seq<u8>>, SealFault>,
    stored: StoredMasterKey,
    found: Option<StoredMasterKey>,
)
    requires
        is_master(entry, Some(stored)),
        is_master(entry, found),
    ensures
        found == Some(stored),
{
    let plain = entry->Ok_0->Some_0;
    crate::wire::lemma_be_bytes_len(stored.id as nat, 4);
    let f = found->Some_0;
    crate::wire::lemma_be_bytes_len(f.id as nat, 4);
    reveal_with_fuel(crate::wire::byte_range, 5);
    crate::wire::be_decode_of_encode(stored.id as nat, 4);
    crate::wire::be_decode_of_encode(f.id as nat, 4);
    assert(plain.subrange(0, 4) =~= be_bytes(stored.id as nat, 4));
    assert(plain.subrange(0, 4) =~= be_bytes(f.id as nat, 4));
    assert(plain.subrange(4, 36) =~= stored.key@);
    assert(plain.subrange(4, 36) =~= f.key@);
    assert(stored.key =~= f.key);
}

/// Whether `keys` are the master keys of the first `n` slots, in order.
pub open spec fn are_masters(
    map: Map<(Seq<char>, Seq<char>), Seq<char>>,
    secret: Seq<u8>,
    keys: Seq<StoredMasterKey>,
    n: nat,
) -> bool
    decreases n,
{
    if n == 0 {
        keys.len() == 0
    } else {
        let entry = reading(map, secret, Collection::Keys, master_slot(n - 1));
        ||| is_master(entry, None) && are_masters(map, secret, keys, (n - 1) as nat)
        ||| keys.len() > 0 && is_master(entry, Some(keys.last())) && are_masters(
            map,
            secret,
            keys.drop_last(),
            (n - 1) as nat,
        )
    }
}

/// Thirty-two bytes at `at`.
fn bytes_32(b: &[u8], at: usize) -> (out: [u8; 32])
    requires
        at <= 32,
        at + 32 <= b@.len(),
    ensures
        out@ == b@.subrange(at as int, at + 32),
{
    let out: [u8; 32] = [
        b[at], b[at + 1], b[at + 2], b[at + 3], b[at + 4], b[at + 5], b[at + 6], b[at + 7],
        b[at + 8], b[at + 9], b[at + 10], b[at + 11], b[at + 12], b[at + 13], b[at + 14],
        b[at + 15], b[at + 16], b[at + 17], b[at + 18], b[at + 19], b[at + 20], b[at + 21],
        b[at + 22], b[at + 23], b[at + 24], b[at + 25], b[at + 26], b[at + 27], b[at + 28],
        b[at + 29], b[at + 30], b[at + 31],
    ];
    assert(out@ =~= b@.subrange(at as int, at + 32));
    out
}


/// The two keys of an NTS session: client to server, and server to client.
#[derive(Clone, Copy, Debug, PartialEq, Eq)]
pub struct NtsKeys {
    pub c2s: [u8; 32],
    pub s2c: [u8; 32],
}

/// A resumable NTS client session, complete enough to skip key establishment.
pub struct StoredClientSession {
    pub keys: NtsKeys,
    pub cookies: Vec<Vec<u8>>,
    pub ntp_server: String,
    pub ntp_port: u16,
}

/// A session as a value.
pub ghost struct SessionValue {
    pub c2s: Seq<u8>,
    pub s2c: Seq<u8>,
    pub cookies: Seq<Seq<u8>>,
    pub ntp_server: Seq<char>,
    pub ntp_port: u16,
}

impl View for StoredClientSession {
    type V = SessionValue;

    open spec fn view(&self) -> SessionValue {
        SessionValue {
            c2s: self.keys.c2s@,
            s2c: self.keys.s2c@,
            cookies: byte_views(self.cookies@),
            ntp_server: self.ntp_server@,
            ntp_port: self.ntp_port,
        }
    }
}

/// The key of the session keys kept for a key-establishment host.
pub open spec fn client_keys_key(host: Seq<char>) -> Seq<char> {
    entry_key("client_keys"@, host, 0)
}

/// The key of the endpoint kept for a key-establishment host.
pub open spec fn client_meta_key(host: Seq<char>) -> Seq<char> {
    entry_key("client_meta"@, host, 0)
}

proof fn lemma_client_keys_apart(host: Seq<char>)
    ensures
        client_keys_key(host) != client_meta_key(host),
{
    reveal_strlit("client_keys");
    reveal_strlit("client_meta");
    let a = client_keys_key(host);
    let b = client_meta_key(host);
    assert("client_keys"@.len() == 11 && "client_meta"@.len() == 11);
    assert(a[7] == 'k');
    assert(b[7] == 'm');
}

/// The text that an endpoint is stored as.
pub open spec fn endpoint_text(server: Seq<char>, port: u16) -> Seq<char> {
    server + " "@ + decimal(port as nat)
}

/// The endpoint in a text: its first word, and its second as a port.
pub open spec fn endpoint_in(text: Seq<char>) -> Option<(Seq<char>, u16)> {
    let w = words(text);
    if w.len() < 2 {
        None
    } else {
        match natural_value(w[1]) {
            Some(p) if p <= u16::MAX => Some((w[0], p as u16)),
            _ => None,
        }
    }
}

/// The session stored for a host, if all of its parts are there: a partial one
/// is not usable.
pub open spec fn session_of(
    map: Map<(Seq<char>, Seq<char>), Seq<char>>,
    secret: Seq<u8>,
    host: Seq<char>,
) -> Result<Option<SessionValue>, EntryFault> {
    match reading(map, secret, Collection::Keys, client_keys_key(host)) {
        Err(f) => Err(EntryFault::Seal(f)),
        Ok(None) => Ok(None),
        Ok(Some(raw)) => if raw.len() != 64 {
            Ok(None)
        } else {
            match reading(map, secret, Collection::Keys, client_meta_key(host)) {
                Err(f) => Err(EntryFault::Seal(f)),
                Ok(None) => Ok(None),
                Ok(Some(meta)) => if !valid_utf8(meta) {
                    Err(EntryFault::Corrupt("client meta is not utf-8"@))
                } else {
                    match endpoint_in(decode_utf8(meta)) {
                        None => Ok(None),
                        Some((server, port)) => match cookie_run(map, secret, host, 0) {
                            Err(f) => Err(EntryFault::Seal(f)),
                            Ok(cookies) => if cookies.len() == 0 {
                                Ok(None)
                            } else {
                                Ok(
                                    Some(
                                        SessionValue {
                                            c2s: raw.subrange(0, 32),
                                            s2c: raw.subrange(32, 64),
                                            cookies,
                                            ntp_server: server,
                                            ntp_port: port,
                                        },
                                    ),
                                )
                            },
                        },
                    }
                },
            }
        },
    }
}

/// Whether everything that a session consists of has been stored: what a read
/// needs to give it back.
pub open spec fn holds_session(
    map: Map<(Seq<char>, Seq<char>), Seq<char>>,
    secret: Seq<u8>,
    host: Seq<char>,
    keys: NtsKeys,
    cookies: Seq<Vec<u8>>,
    server: Seq<char>,
    port: u16,
) -> bool {
    let n = stored_count(cookies.len());
    &&& reading(map, secret, Collection::Keys, client_keys_key(host)) == Ok::<
        Option<Seq<u8>>,
        SealFault,
    >(Some(keys.c2s@ + keys.s2c@))
    &&& reading(map, secret, Collection::Keys, client_meta_key(host)) == Ok::<
        Option<Seq<u8>>,
        SealFault,
    >(Some(encode_utf8(endpoint_text(server, port))))
    &&& forall|i: nat|
        i < n ==> reading(
            map,
            secret,
            Collection::Cookies,
            #[trigger] cookie_key(host, i),
        ) == Ok::<Option<Seq<u8>>, SealFault>(Some(cookies[i as int]@))
    &&& n < MAX_COOKIES_PER_SERVER ==> is_blank(
        reading(map, secret, Collection::Cookies, cookie_key(host, n)),
    )
}

/// The registers after a session was put for a host, and what stopped it: first
/// its keys, then its endpoint, then its cookies.
pub open spec fn session_put(
    map: Map<(Seq<char>, Seq<char>), Seq<char>>,
    secret: Seq<u8>,
    host: Seq<char>,
    keys: NtsKeys,
    cookies: Seq<Vec<u8>>,
    server: Seq<char>,
    port: u16,
    key_nonce: Seq<u8>,
    meta_nonce: Seq<u8>,
    cookie_nonces: Seq<[u8; 12]>,
) -> (Map<(Seq<char>, Seq<char>), Seq<char>>, Option<WriteFault>) {
    let keyed = with_sealed(
        map,
        secret,
        key_nonce,
        Collection::Keys,
        client_keys_key(host),
        keys.c2s@ + keys.s2c@,
    );
    let described = with_sealed(
        keyed,
        secret,
        meta_nonce,
        Collection::Keys,
        client_meta_key(host),
        encode_utf8(endpoint_text(server, port)),
    );
    if too_long(client_keys_key(host)) {
        (map, Some(WriteFault::TooLong))
    } else if too_long(client_meta_key(host)) {
        (keyed, Some(WriteFault::TooLong))
    } else {
        cookies_put(described, secret, host, cookies, cookie_nonces)
    }
}

/// Whether two register maps agree outside one host's session: its keys, its
/// endpoint and its cookies.
pub open spec fn differ_in_session(
    a: Map<(Seq<char>, Seq<char>), Seq<char>>,
    b: Map<(Seq<char>, Seq<char>), Seq<char>>,
    host: Seq<char>,
) -> bool {
    forall|at: (Seq<char>, Seq<char>)|
        at != (Collection::Keys.title()@, client_keys_key(host)) && at != (
            Collection::Keys.title()@,
            client_meta_key(host),
        ) && (forall|i: nat| at != (Collection::Cookies.title()@, #[trigger] cookie_key(host, i)))
            ==> (#[trigger] a.contains_key(at) <==> b.contains_key(at)) && (a.contains_key(at)
            ==> a[at] == b[at])
}

impl Store {
    /// Save a resumable NTS client session: keys, unspent cookies, and the
    /// endpoint that key establishment pointed us at. These travel together on
    /// purpose: cookies without keys can never be resumed from. The first two
    /// nonces are for keys and endpoint, the rest for the cookies.
    pub fn put_client_session(
        &mut self,
        ke_host: &str,
        keys: &NtsKeys,
        cookies: &Vec<Vec<u8>>,
        ntp_server: &str,
        ntp_port: u16,
        key_nonce: &[u8; NONCE_LEN],
        meta_nonce: &[u8; NONCE_LEN],
        cookie_nonces: &Vec<[u8; 12]>,
    ) -> (done: Result<(), StoreError>)
        requires
            old(self).wf(),
            cookie_nonces@.len() >= stored_count(cookies@.len()),
            encode_utf8(endpoint_text(ntp_server@, ntp_port)).len() <= MAX_MESSAGE_LEN,
            forall|i: int|
                0 <= i < cookies@.len() ==> (#[trigger] cookies@[i])@.len() <= MAX_MESSAGE_LEN,
        ensures
            final(self).wf(),
            final(self).secret() == old(self).secret(),
            old(self).complete() ==> final(self).complete(),
            ({
                let (map, fault) = session_put(
                    old(self).map(),
                    old(self).secret(),
                    ke_host@,
                    *keys,
                    cookies@,
                    ntp_server@,
                    ntp_port,
                    key_nonce@,
                    meta_nonce@,
                    cookie_nonces@,
                );
                final(self).map() == map && ends_as(done, fault)
            }),
            differ_in_session(old(self).map(), final(self).map(), ke_host@),
            done is Ok ==> holds_session(
                final(self).map(),
                final(self).secret(),
                ke_host@,
                *keys,
                cookies@,
                ntp_server@,
                ntp_port,
            ),
    {
        let key_field: String = compound_key("client_keys", ke_host, 0);
        let mut payload: Vec<u8> = Vec::new();
        payload.extend_from_slice(keys.c2s.as_slice());
        payload.extend_from_slice(keys.s2c.as_slice());
        assert(payload@ =~= keys.c2s@ + keys.s2c@);
        match self.put_sealed(Collection::Keys, key_field.as_str(), payload.as_slice(), key_nonce) {
            Ok(()) => {},
            Err(e) => {
                return Err(e);
            },
        }
        let ghost keyed = *self;
        let meta_field: String = compound_key("client_meta", ke_host, 0);
        let mut meta: String = ntp_server.to_owned();
        meta.append(" ");
        meta.append(decimal_text(ntp_port as u64).as_str());
        match self.put_sealed(
            Collection::Keys,
            meta_field.as_str(),
            meta.as_str().as_bytes(),
            meta_nonce,
        ) {
            Ok(()) => {},
            Err(e) => {
                return Err(e);
            },
        }
        proof {
            lemma_client_keys_apart(ke_host@);
            assert(self.stored(Collection::Keys, client_keys_key(ke_host@)) == keyed.stored(
                Collection::Keys,
                client_keys_key(ke_host@),
            ));
        }
        let ghost described = *self;
        let ghost start = *old(self);
        let done: Result<(), StoreError> = self.put_cookies(ke_host, cookies, cookie_nonces);
        proof {
            lemma_keys_outlast_cookies(described.map(), self.map(), ke_host@, client_keys_key(ke_host@));
            lemma_keys_outlast_cookies(described.map(), self.map(), ke_host@, client_meta_key(ke_host@));
            assert forall|at: (Seq<char>, Seq<char>)|
                at != (Collection::Keys.title()@, client_keys_key(ke_host@)) && at != (
                    Collection::Keys.title()@,
                    client_meta_key(ke_host@),
                ) && (forall|i: nat|
                    at != (Collection::Cookies.title()@, #[trigger] cookie_key(
                        ke_host@,
                        i,
                    ))) implies (#[trigger] start.map().contains_key(at)
                <==> self.map().contains_key(at)) && (start.map().contains_key(at)
                ==> start.map()[at] == self.map()[at]) by {
                assert(described.map().contains_key(at) <==> self.map().contains_key(at));
            }
        }
        done
    }

    /// Restore a resumable NTS client session, if one is stored and complete.
    pub fn get_client_session(&mut self, ke_host: &str) -> (session: Result<
        Option<StoredClientSession>,
        StoreError,
    >)
        requires
            old(self).wf(),
        ensures
            final(self).wf(),
            final(self).secret() == old(self).secret(),
            old(self).complete() ==> final(self).complete(),
            final(self).map() == old(self).map(),
            ({
                let truth = session_of(old(self).map(), old(self).secret(), ke_host@);
                match session {
                    Ok(None) => truth == Ok::<Option<SessionValue>, EntryFault>(None),
                    Ok(Some(s)) => truth == Ok::<Option<SessionValue>, EntryFault>(Some(s@)),
                    Err(e) => truth is Err && reports_entry(e, truth->Err_0),
                }
            }),
    {
        let key_field: String = compound_key("client_keys", ke_host, 0);
        let raw: Vec<u8> = match self.get_sealed(Collection::Keys, key_field.as_str()) {
            Err(e) => {
                return Err(e);
            },
            Ok(None) => {
                return Ok(None);
            },
            Ok(Some(r)) => r,
        };
        if raw.len() != 64 {
            return Ok(None);
        }
        let keys = NtsKeys { c2s: bytes_32(raw.as_slice(), 0), s2c: bytes_32(raw.as_slice(), 32) };
        let meta_field: String = compound_key("client_meta", ke_host, 0);
        let meta_raw: Vec<u8> = match self.get_sealed(Collection::Keys, meta_field.as_str()) {
            Err(e) => {
                return Err(e);
            },
            Ok(None) => {
                return Ok(None);
            },
            Ok(Some(r)) => r,
        };
        let meta: String = match text_from_utf8(meta_raw.as_slice()) {
            None => {
                return Err(StoreError::Corrupt("client meta is not utf-8"));
            },
            Some(t) => t,
        };
        let parts: Vec<Vec<char>> = split_words(chars_of(meta.as_str()).as_slice());
        assert(forall|i: int| 0 <= i < parts@.len() ==> words(meta@)[i] == (#[trigger] parts@[i])@);
        if parts.len() < 2 {
            return Ok(None);
        }
        let port: u16 = match parse_natural(parts[1].as_slice(), u16::MAX as u64) {
            None => {
                return Ok(None);
            },
            Some(p) => p as u16,
        };
        let cookies: Vec<Vec<u8>> = match self.get_cookies(ke_host) {
            Err(e) => {
                return Err(e);
            },
            Ok(c) => c,
        };
        assert(byte_views(cookies@).len() == cookies@.len());
        if cookies.len() == 0 {
            return Ok(None);
        }
        let ntp_server: String = string_of(parts[0].as_slice());
        Ok(Some(StoredClientSession { keys, cookies, ntp_server, ntp_port: port }))
    }
}

proof fn lemma_keys_outlast_cookies(
    before: Map<(Seq<char>, Seq<char>), Seq<char>>,
    after: Map<(Seq<char>, Seq<char>), Seq<char>>,
    server: Seq<char>,
    field: Seq<char>,
)
    requires
        differ_in_cookies(before, after, server),
    ensures
        ({
            let at = (Collection::Keys.title()@, field);
            (before.contains_key(at) <==> after.contains_key(at)) && (before.contains_key(at)
                ==> before[at] == after[at])
        }),
{
    let at = (Collection::Keys.title()@, field);
    collections_are_apart(Collection::Keys, Collection::Cookies);
    assert(forall|i: nat| at != (Collection::Cookies.title()@, #[trigger] cookie_key(server, i)));
    assert(before.contains_key(at) <==> after.contains_key(at));
}


/// A drift reading survives storage: what its entry opens to reads back as the
/// reading.
pub proof fn drift_reads_back(d: DriftValue)
    requires
        is_real(d.freq_ppm),
        is_real(d.offset_s),
        is_real(d.updated_unix),
    ensures
        drift_of(Ok(Some(encode_utf8(drift_text(d))))) == Ok::<Option<DriftValue>, EntryFault>(
            Some(d),
        ),
{
    let text = drift_text(d);
    crate::numbers::a_real_is_one_word(d.freq_ppm);
    crate::numbers::a_real_is_one_word(d.offset_s);
    crate::numbers::a_real_is_one_word(d.updated_unix);
    let tail = d.offset_s + " "@ + d.updated_unix;
    assert(text =~= d.freq_ppm + " "@ + tail);
    crate::text::words_split_at_a_space(d.freq_ppm, tail);
    crate::text::words_split_at_a_space(d.offset_s, d.updated_unix);
    crate::text::a_word_is_one_word(d.updated_unix);
    vstd::utf8::encode_utf8_valid_utf8(text);
    vstd::utf8::encode_utf8_decode_utf8(text);
    let w = words(text);
    assert(w =~= seq![d.freq_ppm, d.offset_s, d.updated_unix]);
    assert(encode_utf8(text).len() > 0) by {
        if encode_utf8(text).len() == 0 {
            assert(encode_utf8(text) =~= Seq::<u8>::empty());
            assert(decode_utf8(encode_utf8(text)).len() == 0);
        }
    }
}

/// A session survives storage whole: once everything it consists of is stored,
/// reading gives it back, with as many of its cookies as are stored.
pub proof fn a_stored_session_reads_back(
    map: Map<(Seq<char>, Seq<char>), Seq<char>>,
    secret: Seq<u8>,
    host: Seq<char>,
    keys: NtsKeys,
    cookies: Seq<Vec<u8>>,
    server: Seq<char>,
    port: u16,
)
    requires
        holds_session(map, secret, host, keys, cookies, server, port),
        crate::text::is_word(server),
        cookies.len() > 0,
        forall|i: int| 0 <= i < cookies.len() ==> (#[trigger] cookies[i])@.len() > 0,
    ensures
        session_of(map, secret, host) == Ok::<Option<SessionValue>, EntryFault>(
            Some(
                SessionValue {
                    c2s: keys.c2s@,
                    s2c: keys.s2c@,
                    cookies: byte_views(cookies.take(stored_count(cookies.len()) as int)),
                    ntp_server: server,
                    ntp_port: port,
                },
            ),
        ),
{
    let n = stored_count(cookies.len());
    let batch = byte_views(cookies.take(n as int));
    let raw = keys.c2s@ + keys.s2c@;
    assert(raw.subrange(0, 32) =~= keys.c2s@);
    assert(raw.subrange(32, 64) =~= keys.s2c@);
    let text = endpoint_text(server, port);
    crate::numbers::a_decimal_is_one_word(port as nat);
    crate::numbers::decimal_reads_back(port as nat);
    crate::text::words_split_at_a_space(server, decimal(port as nat));
    crate::text::a_word_is_one_word(decimal(port as nat));
    assert(words(text) =~= seq![server, decimal(port as nat)]);
    vstd::utf8::encode_utf8_valid_utf8(text);
    vstd::utf8::encode_utf8_decode_utf8(text);
    assert forall|i: int| 0 <= i < batch.len() implies (#[trigger] batch[i]).len() > 0 by {
        assert(batch[i] == cookies[i]@);
    }
    assert forall|i: nat| i < batch.len() implies reading(
        map,
        secret,
        Collection::Cookies,
        #[trigger] cookie_key(host, i),
    ) == Ok::<Option<Seq<u8>>, SealFault>(Some(batch[i as int])) by {
        assert(batch[i as int] == cookies[i as int]@);
    }
    stored_cookies_read_back(map, secret, host, batch, 0);
    assert(batch.skip(0) =~= batch);
}

/// A torn write loses no association: wherever the writing of a batch of cookies
/// stops, the places that it has not come to read as they did, and so does every
/// master key, session key and endpoint, and all that is kept of drift.
pub proof fn a_torn_write_keeps_the_rest(
    map: Map<(Seq<char>, Seq<char>), Seq<char>>,
    secret: Seq<u8>,
    server: Seq<char>,
    cookies: Seq<Vec<u8>>,
    nonces: Seq<[u8; 12]>,
    k: nat,
)
    ensures
        ({
            let torn = cookies_written(map, secret, server, cookies, nonces, k);
            &&& differ_in_cookies(map, torn, server)
            &&& forall|i: nat|
                i >= k ==> reading(
                    torn,
                    secret,
                    Collection::Cookies,
                    #[trigger] cookie_key(server, i),
                ) == reading(map, secret, Collection::Cookies, cookie_key(server, i))
            &&& forall|c: Collection, field: Seq<char>|
                c != Collection::Cookies ==> #[trigger] reading(torn, secret, c, field) == reading(
                    map,
                    secret,
                    c,
                    field,
                )
        }),
    decreases k,
{
    let torn = cookies_written(map, secret, server, cookies, nonces, k);
    if k > 0 {
        let j = (k - 1) as nat;
        a_torn_write_keeps_the_rest(map, secret, server, cookies, nonces, j);
        let before = cookies_written(map, secret, server, cookies, nonces, j);
        lemma_cookie_written(map, before, torn, server, j);
        assert forall|i: nat| i >= k implies reading(
            torn,
            secret,
            Collection::Cookies,
            #[trigger] cookie_key(server, i),
        ) == reading(map, secret, Collection::Cookies, cookie_key(server, i)) by {
            entry_keys_are_apart("cookie"@, server, server, i, j);
        }
        assert forall|c: Collection, field: Seq<char>| c != Collection::Cookies implies #[trigger]
        reading(torn, secret, c, field) == reading(map, secret, c, field) by {
            collections_are_apart(c, Collection::Cookies);
            assert(reading(before, secret, c, field) == reading(map, secret, c, field));
        }
    }
}

} // verus!
