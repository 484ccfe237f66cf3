//! The replica that durable entries live in: a SpaceDB database, whose registers
//! hold one text each under a collection and a field.
//!
//! SpaceDB admits an operation by the right that its session holds: the right
//! must be for the collection, signed under the key that its giver published,
//! not withdrawn, and, for a write, have enough left to spend.

use spacedb_sdk::{
    Capability, CrdtType, Database, Identity, Ops, Schema, Scope, Session, SignedCapability, Tier,
};
use vstd::prelude::*;

verus! {

#[verifier::external_type_specification]
#[verifier::external_body]
pub struct ExDatabase(spacedb_sdk::Database);

#[verifier::external_type_specification]
#[verifier::external_body]
pub struct ExIdentity(spacedb_sdk::Identity);

#[verifier::external_type_specification]
#[verifier::external_body]
pub struct ExCapability(spacedb_sdk::Capability);

#[verifier::external_type_specification]
#[verifier::external_body]
pub struct ExSignedCapability(spacedb_sdk::SignedCapability);

#[verifier::external_type_specification]
#[verifier::external_body]
pub struct ExSchema(spacedb_sdk::Schema);

#[verifier::external_type_specification]
#[verifier::external_body]
pub struct ExSession(spacedb_sdk::Session);

/// The registers of a database: texts, by collection and field.
pub uninterp spec fn registers(db: Database) -> Map<(Seq<char>, Seq<char>), Seq<char>>;

/// The fields that a database's schemas declare as registers, other than those
/// of the strong tier, which no plain write reaches.
pub uninterp spec fn declared(db: Database) -> Set<(Seq<char>, Seq<char>)>;

/// The collection that a schema is for.
pub uninterp spec fn schema_name(schema: Schema) -> Seq<char>;

/// Where a database holds something that is not a text, such as a counter.
pub uninterp spec fn not_texts(db: Database) -> Set<(Seq<char>, Seq<char>)>;

/// The keys that a database's directory gives out, by the name of their identity.
pub uninterp spec fn published(db: Database) -> Map<Seq<char>, Seq<u8>>;

/// The ids of the rights that were withdrawn from a database.
pub uninterp spec fn withdrawn(db: Database) -> Set<Seq<u8>>;

/// The fields that a schema declares as registers, other than those of the
/// strong tier.
pub uninterp spec fn schema_fields(schema: Schema) -> Set<Seq<char>>;

/// The name of the identity that a database is a replica for.
pub uninterp spec fn node_of(db: Database) -> Seq<char>;

/// The name that an identity goes by.
pub uninterp spec fn did_of(identity: Identity) -> Seq<char>;

/// The public key of an identity.
pub uninterp spec fn key_of(identity: Identity) -> Seq<u8>;

/// The collection that a right is for as a whole: none, if it is for a document
/// or a function.
pub uninterp spec fn scope_of(capability: Capability) -> Option<Seq<char>>;

/// Who gave a right, by name.
pub uninterp spec fn giver_of(capability: Capability) -> Seq<char>;

/// Who holds a right, by name.
pub uninterp spec fn holder_of(capability: Capability) -> Seq<char>;

/// The id that a right is withdrawn by.
pub uninterp spec fn id_of(capability: Capability) -> Seq<u8>;

/// Whether a right is to read and to write, and never expires.
pub uninterp spec fn is_lasting(capability: Capability) -> bool;

/// What may be spent under a right.
pub uninterp spec fn budget_of(capability: Capability) -> Option<u64>;

/// The right that was signed.
pub uninterp spec fn granted(signed: SignedCapability) -> Capability;

/// The public key that a right's signature verifies under.
pub uninterp spec fn signed_with(signed: SignedCapability) -> Seq<u8>;

/// The signed right that a session acts under.
pub uninterp spec fn held(session: Session) -> SignedCapability;

/// What a session has left to spend.
pub uninterp spec fn spendable(session: Session) -> u64;

/// What one write costs a session.
pub const WRITE_COST: u64 = 2000;

/// Whether a database lets a session work on a collection, as far as its right
/// goes.
pub open spec fn admits(db: Database, session: Session, collection: Seq<char>) -> bool {
    let signed = held(session);
    let right = granted(signed);
    &&& scope_of(right) == Some(collection)
    &&& is_lasting(right)
    &&& !withdrawn(db).contains(id_of(right))
    &&& published(db).contains_key(giver_of(right))
    &&& published(db)[giver_of(right)] == signed_with(signed)
}

/// Whether a database rests on the same identity, keys and rights as another.
pub open spec fn same_standing(a: Database, b: Database) -> bool {
    &&& node_of(a) == node_of(b)
    &&& published(a) == published(b)
    &&& withdrawn(a) == withdrawn(b)
}

/// No registers.
pub open spec fn no_registers() -> Map<(Seq<char>, Seq<char>), Seq<char>> {
    Map::empty()
}

/// No declared registers.
pub open spec fn none_declared() -> Set<(Seq<char>, Seq<char>)> {
    Set::empty()
}

/// No published keys.
pub open spec fn none_published() -> Map<Seq<char>, Seq<u8>> {
    Map::empty()
}

/// No withdrawn rights.
pub open spec fn none_withdrawn() -> Set<Seq<u8>> {
    Set::empty()
}

/// No fields.
pub open spec fn no_fields() -> Set<Seq<char>> {
    Set::empty()
}

/// `Identity::generate`: a fresh keypair, from the system's randomness, bound to
/// a name.
#[verifier::external_body]
pub(crate) fn generate_identity(did: &str) -> (identity: Result<Identity, String>)
    ensures
        identity is Ok ==> did_of(identity->Ok_0) == did@,
{
    Identity::generate(did).map_err(|e| format!("{e:?}"))
}

/// `Database::open`: an empty replica for an identity, without schemas, published
/// keys or withdrawn rights.
#[verifier::external_body]
pub(crate) fn open_database(node: Identity) -> (db: Database)
    ensures
        registers(db) == no_registers(),
        declared(db) == none_declared(),
        not_texts(db) == none_declared(),
        published(db) == none_published(),
        withdrawn(db) == none_withdrawn(),
        node_of(db) == did_of(node),
{
    Database::open(node)
}

/// `Database::register_identity`: publish a key under its identity's name, so
/// that what it signs verifies. Nothing else changes.
#[verifier::external_body]
pub(crate) fn register_identity(db: &mut Database, identity: &Identity) -> (done: Result<
    (),
    String,
>)
    ensures
        node_of(*final(db)) == node_of(*old(db)),
        registers(*final(db)) == registers(*old(db)),
        not_texts(*final(db)) == not_texts(*old(db)),
        declared(*final(db)) == declared(*old(db)),
        withdrawn(*final(db)) == withdrawn(*old(db)),
        published(*final(db)) == match done {
            Ok(()) => published(*old(db)).insert(did_of(*identity), key_of(*identity)),
            Err(_) => published(*old(db)),
        },
{
    db.register_identity(identity).map_err(|e| format!("{e:?}"))
}

/// `Capability::grant`: the right to read and write one collection, given by an
/// identity to itself for good, under a random id, with nothing to spend yet.
#[verifier::external_body]
pub(crate) fn grant(owner: &Identity, collection: &str) -> (capability: Result<Capability, String>)
    ensures
        match capability {
            Ok(c) => scope_of(c) == Some(collection@) && giver_of(c) == did_of(*owner)
                && holder_of(c) == did_of(*owner) && is_lasting(c) && budget_of(c) == None::<u64>,
            Err(_) => true,
        },
{
    let scope = Scope::Collection(collection.to_string());
    Capability::grant(owner.did().clone(), owner.did().clone(), scope, Ops::READ | Ops::WRITE)
        .map_err(|e| format!("{e:?}"))
}

/// `Capability::with_budget`: the right, with a spending cap.
#[verifier::external_body]
pub(crate) fn with_budget(capability: Capability, micro_mata: u64) -> (capped: Capability)
    ensures
        scope_of(capped) == scope_of(capability),
        giver_of(capped) == giver_of(capability),
        holder_of(capped) == holder_of(capability),
        id_of(capped) == id_of(capability),
        is_lasting(capped) == is_lasting(capability),
        budget_of(capped) == Some(micro_mata),
{
    capability.with_budget(micro_mata)
}

/// `SignedCapability::sign`: the right, with a signature that verifies under the
/// signer's public key.
#[verifier::external_body]
pub(crate) fn sign(capability: Capability, owner: &Identity) -> (signed: Result<
    SignedCapability,
    String,
>)
    ensures
        signed is Ok ==> granted(signed->Ok_0) == capability && signed_with(signed->Ok_0) == key_of(
            *owner,
        ),
{
    SignedCapability::sign(capability, owner).map_err(|e| format!("{e:?}"))
}

/// `Schema::new`: a schema that declares nothing.
#[verifier::external_body]
pub(crate) fn new_schema(collection: &str) -> (schema: Schema)
    ensures
        schema_name(schema) == collection@,
        schema_fields(schema) == no_fields(),
{
    Schema::new(collection)
}

/// `Schema::field`: the schema with one more field, a convergent register.
#[verifier::external_body]
pub(crate) fn with_field(schema: Schema, name: &str) -> (wider: Schema)
    ensures
        schema_name(wider) == schema_name(schema),
        schema_fields(wider) == schema_fields(schema).insert(name@),
{
    schema.field(name, CrdtType::Register, Tier::Convergent)
}

/// `Database::define`: the schema takes the place of its collection's; what the
/// collection holds is untouched.
#[verifier::external_body]
pub(crate) fn define(db: &mut Database, schema: Schema)
    ensures
        same_standing(*final(db), *old(db)),
        registers(*final(db)) == registers(*old(db)),
        not_texts(*final(db)) == not_texts(*old(db)),
        forall|c: Seq<char>, f: Seq<char>|
            declared(*final(db)).contains((c, f)) <==> if c == schema_name(schema) {
                schema_fields(schema).contains(f)
            } else {
                declared(*old(db)).contains((c, f))
            },
{
    db.define(schema)
}

/// `Database::session`: a context for operations, with the grant's budget to
/// spend, or nothing where the grant has none.
#[verifier::external_body]
pub(crate) fn open_session(db: &Database, capability: &SignedCapability) -> (session: Session)
    ensures
        held(session) == *capability,
        spendable(session) == match budget_of(granted(*capability)) {
            Some(budget) => budget,
            None => 0,
        },
{
    db.session(capability.clone())
}

/// `Database::put_register`: set one register, at a fixed cost. A write to a
/// field that is not declared, under a right to another collection, or without
/// the means to pay for it is refused, and changes nothing; under a right that
/// the database admits, with the means, a declared field is written.
#[verifier::external_body]
pub(crate) fn put_register(
    db: &mut Database,
    session: &mut Session,
    collection: &str,
    field: &str,
    value: &str,
) -> (done: Result<(), String>)
    ensures
        same_standing(*final(db), *old(db)),
        declared(*final(db)) == declared(*old(db)),
        match done {
            Ok(()) => {
                &&& declared(*old(db)).contains((collection@, field@))
                &&& registers(*final(db)) == registers(*old(db)).insert(
                    (collection@, field@),
                    value@,
                )
                &&& not_texts(*final(db)) == not_texts(*old(db)).remove((collection@, field@))
                &&& spendable(*final(session)) == spendable(*old(session)) - WRITE_COST
            },
            Err(_) => registers(*final(db)) == registers(*old(db)) && not_texts(*final(db))
                == not_texts(*old(db)),
        },
        scope_of(granted(held(*old(session)))) != Some(collection@) ==> done is Err,
        spendable(*old(session)) < WRITE_COST ==> done is Err,
        declared(*old(db)).contains((collection@, field@)) && admits(
            *old(db),
            *old(session),
            collection@,
        ) && spendable(*old(session)) >= WRITE_COST ==> done is Ok,
        held(*final(session)) == held(*old(session)),
{
    db.put_register(session, collection, field, value).map_err(|e| format!("{e:?}"))?;
    Ok(())
}

/// `Database::read_register`: one register's text, if it was ever set. Under a
/// right to another collection the read is refused; under a right that the
/// database admits, a declared field that holds a text or nothing is read.
#[verifier::external_body]
pub(crate) fn read_register(
    db: &Database,
    session: &mut Session,
    collection: &str,
    field: &str,
) -> (value: Result<Option<String>, String>)
    ensures
        match value {
            Ok(Some(v)) => registers(*db).contains_key((collection@, field@)) && registers(*db)[(
                collection@,
                field@,
            )] == v@,
            Ok(None) => !registers(*db).contains_key((collection@, field@)),
            Err(_) => true,
        },
        scope_of(granted(held(*old(session)))) != Some(collection@) ==> value is Err,
        declared(*db).contains((collection@, field@)) && !not_texts(*db).contains(
            (collection@, field@),
        ) && admits(*db, *old(session), collection@) ==> value is Ok,
        held(*final(session)) == held(*old(session)),
        spendable(*final(session)) == spendable(*old(session)),
{
    let (value, _) =
        db.read_register(session, collection, field).map_err(|e| format!("{e:?}"))?;
    Ok(value)
}

} // verus!
