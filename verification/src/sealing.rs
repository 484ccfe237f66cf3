//! Encryption at rest: a key derived from a passphrase, and values sealed under
//! it as hexadecimal text.

use aes_gcm::aead::{Aead, KeyInit, Payload};
use aes_gcm::{Aes256Gcm, Nonce};
use argon2::Argon2;
use vstd::prelude::*;
use vstd::slice::slice_subrange;

use crate::hex::{hex, hex_bytes, hex_reads_back, hex_text, is_hex, unhex};

verus! {

/// Length of the nonce in front of a sealed value.
pub const NONCE_LEN: usize = 12;

/// Length of the authentication tag at its end.
pub const TAG_LEN: usize = 16;

/// Length of the salt a key is derived with.
pub const SALT_LEN: usize = 16;

/// The longest passphrase that a key can be derived from.
pub const MAX_PASSPHRASE_LEN: usize = 0xFFFF_FFFF;

/// The longest message that the cipher's 32-bit block counter reaches over.
pub const MAX_MESSAGE_LEN: u64 = 0xF_FFFF_FFE0;

/// The longest associated data that the cipher takes.
pub const MAX_ASSOCIATED_LEN: u64 = 0x10_0000_0000;

/// The error of the `argon2` crate.
#[verifier::external_type_specification]
#[verifier::external_body]
pub struct ExArgon2Error(argon2::Error);

/// The error of the `aes_gcm` crate.
#[verifier::external_type_specification]
#[verifier::external_body]
pub struct ExAesError(aes_gcm::Error);

/// The key that Argon2id derives from a passphrase and a salt, under the
/// parameters that `argon2` has by default.
pub uninterp spec fn argon2_key(passphrase: Seq<u8>, salt: Seq<u8>) -> Seq<u8>;

/// What AES-256-GCM makes of a message: the ciphertext with its tag.
pub uninterp spec fn aes_seal(
    key: Seq<u8>,
    nonce: Seq<u8>,
    associated: Seq<u8>,
    message: Seq<u8>,
) -> Seq<u8>;

/// The message that AES-256-GCM finds in a ciphertext with its tag, if the tag
/// is right.
pub uninterp spec fn aes_open(
    key: Seq<u8>,
    nonce: Seq<u8>,
    associated: Seq<u8>,
    ciphertext: Seq<u8>,
) -> Option<Seq<u8>>;

/// `Argon2::hash_password_into` of `argon2`, with its default parameters and a
/// 32-byte output. It fails on a passphrase that is too long, and on nothing
/// else that a salt of this length lets happen.
#[verifier::external_body]
fn argon2_hash(passphrase: &[u8], salt: &[u8; SALT_LEN]) -> (key: Result<[u8; 32], argon2::Error>)
    ensures
        match key {
            Ok(k) => passphrase@.len() <= MAX_PASSPHRASE_LEN && k@ == argon2_key(
                passphrase@,
                salt@,
            ),
            Err(_) => passphrase@.len() > MAX_PASSPHRASE_LEN,
        },
{
    let mut key = [0u8; 32];
    Argon2::default().hash_password_into(passphrase, salt, &mut key)?;
    Ok(key)
}

/// `Aead::encrypt` of `aes_gcm::Aes256Gcm`. It fails on associated data that is
/// too long; a message past the block counter's reach would make it panic. The
/// ciphertext is the message's length and a tag, and decrypting it under the
/// same key, nonce and associated data gives the message back.
#[verifier::external_body]
fn aes_encrypt(key: &[u8; 32], nonce: &[u8; NONCE_LEN], associated: &[u8], message: &[u8]) -> (sealed:
    Result<Vec<u8>, aes_gcm::Error>)
    requires
        message@.len() <= MAX_MESSAGE_LEN,
    ensures
        match sealed {
            Ok(c) => associated@.len() <= MAX_ASSOCIATED_LEN && c@ == aes_seal(
                key@,
                nonce@,
                associated@,
                message@,
            ) && c@.len() == message@.len() + TAG_LEN && aes_open(key@, nonce@, associated@, c@)
                == Some(message@),
            Err(_) => associated@.len() > MAX_ASSOCIATED_LEN,
        },
{
    let cipher = Aes256Gcm::new(key.into());
    cipher.encrypt(&Nonce::from(*nonce), Payload { msg: message, aad: associated })
}

/// `Aead::decrypt` of `aes_gcm::Aes256Gcm`: the message, where the tag is right
/// for it.
#[verifier::external_body]
fn aes_decrypt(key: &[u8; 32], nonce: &[u8; NONCE_LEN], associated: &[u8], ciphertext: &[u8]) -> (message:
    Result<Vec<u8>, aes_gcm::Error>)
    requires
        ciphertext@.len() <= MAX_MESSAGE_LEN + TAG_LEN,
    ensures
        match message {
            Ok(m) => aes_open(key@, nonce@, associated@, ciphertext@) == Some(m@),
            Err(_) => aes_open(key@, nonce@, associated@, ciphertext@) is None,
        },
{
    let cipher = Aes256Gcm::new(key.into());
    cipher.decrypt(&Nonce::from(*nonce), Payload { msg: ciphertext, aad: associated })
}

/// The key of a passphrase and a salt, unless the passphrase is too long.
pub fn derive_key(passphrase: &[u8], salt: &[u8; SALT_LEN]) -> (key: Option<[u8; 32]>)
    ensures
        match key {
            Some(k) => passphrase@.len() <= MAX_PASSPHRASE_LEN && k@ == argon2_key(
                passphrase@,
                salt@,
            ),
            None => passphrase@.len() > MAX_PASSPHRASE_LEN,
        },
{
    match argon2_hash(passphrase, salt) {
        Ok(k) => Some(k),
        Err(_) => None,
    }
}

/// What is wrong with a sealed value.
#[derive(Clone, Copy, Debug, PartialEq, Eq, Structural)]
pub enum SealFault {
    NotHex,
    TooShort,
    Unauthentic,
}

/// What a sealed value holds: hexadecimal text of a nonce and a ciphertext.
pub open spec fn opened(key: Seq<u8>, associated: Seq<u8>, text: Seq<char>) -> Result<
    Seq<u8>,
    SealFault,
> {
    if !is_hex(text) {
        Err(SealFault::NotHex)
    } else {
        let raw = hex_bytes(text);
        if raw.len() < NONCE_LEN + TAG_LEN {
            Err(SealFault::TooShort)
        } else if raw.len() > NONCE_LEN + MAX_MESSAGE_LEN + TAG_LEN {
            Err(SealFault::Unauthentic)
        } else {
            match aes_open(
                key,
                raw.subrange(0, NONCE_LEN as int),
                associated,
                raw.subrange(NONCE_LEN as int, raw.len() as int),
            ) {
                Some(m) => Ok(m),
                None => Err(SealFault::Unauthentic),
            }
        }
    }
}

/// Seal a message: what comes out opens to it again, under the same key and
/// associated data. `None` where the associated data is too long.
pub fn seal(key: &[u8; 32], nonce: &[u8; NONCE_LEN], message: &[u8], associated: &[u8]) -> (text:
    Option<String>)
    requires
        message@.len() <= MAX_MESSAGE_LEN,
    ensures
        match text {
            Some(t) => associated@.len() <= MAX_ASSOCIATED_LEN && t@ == hex_text(
                nonce@ + aes_seal(key@, nonce@, associated@, message@),
            ) && opened(key@, associated@, t@) == Ok::<Seq<u8>, SealFault>(message@) && t@.len()
                > 0,
            None => associated@.len() > MAX_ASSOCIATED_LEN,
        },
{
    match aes_encrypt(key, nonce, associated, message) {
        Err(_) => None,
        Ok(ciphertext) => {
            let mut out: Vec<u8> = Vec::new();
            out.extend_from_slice(nonce.as_slice());
            out.extend_from_slice(ciphertext.as_slice());
            proof {
                assert(out@ =~= nonce@ + ciphertext@);
                hex_reads_back(out@);
                assert(out@.subrange(0, NONCE_LEN as int) =~= nonce@);
                assert(out@.subrange(NONCE_LEN as int, out@.len() as int) =~= ciphertext@);
            }
            Some(hex(out.as_slice()))
        },
    }
}

/// Open a sealed value.
pub fn open_value(key: &[u8; 32], stored: &str, associated: &[u8]) -> (message: Result<
    Vec<u8>,
    SealFault,
>)
    ensures
        match opened(key@, associated@, stored@) {
            Ok(m) => message is Ok && message->Ok_0@ == m,
            Err(f) => message is Err && message->Err_0 == f,
        },
{
    let raw: Vec<u8> = match unhex(stored) {
        None => {
            return Err(SealFault::NotHex);
        },
        Some(r) => r,
    };
    if raw.len() < NONCE_LEN + TAG_LEN {
        return Err(SealFault::TooShort);
    }
    if (raw.len() - NONCE_LEN - TAG_LEN) as u64 > MAX_MESSAGE_LEN {
        return Err(SealFault::Unauthentic);
    }
    let nonce: [u8; NONCE_LEN] = [
        raw[0], raw[1], raw[2], raw[3], raw[4], raw[5],
        raw[6], raw[7], raw[8], raw[9], raw[10], raw[11],
    ];
    let ciphertext: &[u8] = slice_subrange(raw.as_slice(), NONCE_LEN, raw.len());
    assert(nonce@ =~= raw@.subrange(0, NONCE_LEN as int));
    match aes_decrypt(key, &nonce, associated, ciphertext) {
        Ok(m) => Ok(m),
        Err(_) => Err(SealFault::Unauthentic),
    }
}

} // verus!
