//! The encryption envelope: authenticated encryption of byte payloads into a
//! versioned binary blob.
//!
//! Two layouts share one version byte:
//! - key-sealed: `version | nonce (24) | ciphertext and tag`, for a caller
//!   that already holds a 256-bit key;
//! - passphrase-salted: `version | salt (16) | nonce (24) | ciphertext and
//!   tag`, where the key is derived from a passphrase and the salt.
use crate::error::ErrorKind;
use crate::primitives::{aead_decrypt, aead_encrypt, aead_msg_ok, aead_seal_of, argon2id, argon2id_of, random_bytes, wipe};
use vstd::prelude::*;
use vstd::slice::slice_to_vec;

verus! {

pub const BLOB_VERSION: u8 = 1;

pub const SALT_LEN: usize = 16;

pub const NONCE_LEN: usize = 24;

pub const KEY_LEN: usize = 32;

/// Version byte and nonce.
pub const KEY_HEADER_LEN: usize = 25;

/// Version byte, salt and nonce.
pub const PASSPHRASE_HEADER_LEN: usize = 41;

/// Argon2id memory cost, in KiB. The three costs are part of the format:
/// changing one means a new `BLOB_VERSION`.
pub const KDF_MEMORY_KIB: u32 = 19456;

pub const KDF_ITERATIONS: u32 = 2;

pub const KDF_PARALLELISM: u32 = 1;

/// The longest payload the cipher takes, plus one.
pub const PAYLOAD_LIMIT: u64 = 274877906880;

/// The byte form of a passphrase.
pub open spec fn utf8_of(s: Seq<char>) -> Seq<u8> {
    vstd::utf8::encode_utf8(s)
}

/// The 256-bit key the format derives from a password and a salt.
pub open spec fn kdf_of(password: Seq<u8>, salt: Seq<u8>) -> Seq<u8> {
    argon2id_of(password, salt, KDF_MEMORY_KIB, KDF_ITERATIONS, KDF_PARALLELISM, KEY_LEN)
}

pub open spec fn bytes_result(r: Result<Vec<u8>, ErrorKind>) -> Result<Seq<u8>, ErrorKind> {
    match r {
        Ok(v) => Ok(v@),
        Err(e) => Err(e),
    }
}

/// The key-sealed blob of `p` under `key`, `nonce` and associated data `aad`.
pub open spec fn key_blob(key: Seq<u8>, nonce: Seq<u8>, aad: Seq<u8>, p: Seq<u8>) -> Seq<u8> {
    seq![BLOB_VERSION] + nonce + aead_seal_of(key, nonce, aad, p)
}

/// `blob` is a key-sealed blob of `p` under `key` and `aad`, with the nonce it carries.
pub open spec fn seals_with_key(blob: Seq<u8>, key: Seq<u8>, aad: Seq<u8>, p: Seq<u8>) -> bool {
    &&& blob.len() >= KEY_HEADER_LEN
    &&& blob[0] == BLOB_VERSION
    &&& aead_seal_of(key, blob.subrange(1, KEY_HEADER_LEN as int), aad, p) == blob.subrange(
        KEY_HEADER_LEN as int,
        blob.len() as int,
    )
}

/// What opening a key-sealed `blob` may give: the plaintext it seals, a
/// version error when its first byte is not `BLOB_VERSION`, and a crypto
/// error when it is too short or seals nothing under this key.
pub open spec fn opens_with_key(
    blob: Seq<u8>,
    key: Seq<u8>,
    aad: Seq<u8>,
    r: Result<Seq<u8>, ErrorKind>,
) -> bool {
    &&& blob.len() < KEY_HEADER_LEN ==> r == Err::<Seq<u8>, ErrorKind>(ErrorKind::CryptoError)
    &&& (r == Err::<Seq<u8>, ErrorKind>(ErrorKind::VersionError) <==> (blob.len() >= KEY_HEADER_LEN
        && blob[0] != BLOB_VERSION))
    &&& r matches Ok(p) ==> seals_with_key(blob, key, aad, p)
    &&& forall|p: Seq<u8>|
        aead_msg_ok(p.len()) && #[trigger] seals_with_key(blob, key, aad, p) ==> r == Ok::<
            Seq<u8>,
            ErrorKind,
        >(p)
    &&& r is Err ==> r == Err::<Seq<u8>, ErrorKind>(ErrorKind::CryptoError) || r == Err::<
        Seq<u8>,
        ErrorKind,
    >(ErrorKind::VersionError)
}

/// The plaintext that opening a key-sealed `blob` gives, or the error.
pub open spec fn opened_with_key(blob: Seq<u8>, key: Seq<u8>, aad: Seq<u8>) -> Result<Seq<u8>, ErrorKind> {
    if blob.len() < KEY_HEADER_LEN {
        Err(ErrorKind::CryptoError)
    } else if blob[0] != BLOB_VERSION {
        Err(ErrorKind::VersionError)
    } else if exists|p: Seq<u8>| aead_msg_ok(p.len()) && seals_with_key(blob, key, aad, p) {
        Ok(choose|p: Seq<u8>| aead_msg_ok(p.len()) && seals_with_key(blob, key, aad, p))
    } else {
        Err(ErrorKind::CryptoError)
    }
}

/// The passphrase-salted blob of `p`.
pub open spec fn passphrase_blob(password: Seq<u8>, salt: Seq<u8>, nonce: Seq<u8>, p: Seq<u8>) -> Seq<u8> {
    seq![BLOB_VERSION] + salt + nonce + aead_seal_of(kdf_of(password, salt), nonce, seq![], p)
}

/// `blob` is a passphrase-salted blob of `p` for `password`, with the salt
/// and nonce it carries.
pub open spec fn seals_with_passphrase(blob: Seq<u8>, password: Seq<u8>, p: Seq<u8>) -> bool {
    &&& blob.len() >= PASSPHRASE_HEADER_LEN
    &&& blob[0] == BLOB_VERSION
    &&& aead_seal_of(
        kdf_of(password, blob.subrange(1, 17)),
        blob.subrange(17, PASSPHRASE_HEADER_LEN as int),
        seq![],
        p,
    ) == blob.subrange(PASSPHRASE_HEADER_LEN as int, blob.len() as int)
}

/// What opening a passphrase-salted `blob` may give; as `opens_with_key`.
pub open spec fn opens_with_passphrase(
    blob: Seq<u8>,
    password: Seq<u8>,
    r: Result<Seq<u8>, ErrorKind>,
) -> bool {
    &&& blob.len() < PASSPHRASE_HEADER_LEN ==> r == Err::<Seq<u8>, ErrorKind>(
        ErrorKind::CryptoError,
    )
    &&& (r == Err::<Seq<u8>, ErrorKind>(ErrorKind::VersionError) <==> (blob.len()
        >= PASSPHRASE_HEADER_LEN && blob[0] != BLOB_VERSION))
    &&& r matches Ok(p) ==> seals_with_passphrase(blob, password, p)
    &&& forall|p: Seq<u8>|
        aead_msg_ok(p.len()) && #[trigger] seals_with_passphrase(blob, password, p) ==> r == Ok::<
            Seq<u8>,
            ErrorKind,
        >(p)
    &&& r is Err ==> r == Err::<Seq<u8>, ErrorKind>(ErrorKind::CryptoError) || r == Err::<
        Seq<u8>,
        ErrorKind,
    >(ErrorKind::VersionError)
}

/// Seals `plaintext` under `key` with the given nonce and associated data.
pub fn seal_key_blob(plaintext: &[u8], key: &[u8], nonce: &[u8], aad: &[u8]) -> (r: Vec<u8>)
    requires
        key@.len() == KEY_LEN,
        nonce@.len() == NONCE_LEN,
        aead_msg_ok(plaintext@.len()),
    ensures
        r@ == key_blob(key@, nonce@, aad@, plaintext@),
        r@.len() == plaintext@.len() + KEY_HEADER_LEN + 16,
{
    let ct = aead_encrypt(key, nonce, aad, plaintext);
    let mut out: Vec<u8> = Vec::new();
    out.push(BLOB_VERSION);
    out.extend_from_slice(nonce);
    out.extend_from_slice(ct.as_slice());
    assert(out@ =~= key_blob(key@, nonce@, aad@, plaintext@));
    out
}

/// Opens a key-sealed blob under `key` and `aad`.
pub fn open_key_blob(blob: &[u8], key: &[u8], aad: &[u8]) -> (r: Result<Vec<u8>, ErrorKind>)
    requires
        key@.len() == KEY_LEN,
    ensures
        opens_with_key(blob@, key@, aad@, bytes_result(r)),
        bytes_result(r) == opened_with_key(blob@, key@, aad@),
{
    if blob.len() < KEY_HEADER_LEN {
        return Err(ErrorKind::CryptoError);
    }
    if blob[0] != BLOB_VERSION {
        return Err(ErrorKind::VersionError);
    }
    let nonce = &blob[1..KEY_HEADER_LEN];
    let ct = &blob[KEY_HEADER_LEN..blob.len()];
    match aead_decrypt(key, nonce, aad, ct) {
        Some(p) => Ok(p),
        None => Err(ErrorKind::CryptoError),
    }
}

/// Seals `plaintext` under the project key with a fresh random nonce.
pub fn encrypt_bytes_with_key(plaintext: &[u8], key: &[u8]) -> (r: Result<Vec<u8>, ErrorKind>)
    requires
        key@.len() == KEY_LEN,
    ensures
        r matches Ok(b) ==> seals_with_key(b@, key@, seq![], plaintext@) && b@.len()
            == plaintext@.len() + KEY_HEADER_LEN + 16,
        !aead_msg_ok(plaintext@.len()) ==> r == Err::<Vec<u8>, ErrorKind>(ErrorKind::PayloadTooLarge),
        aead_msg_ok(plaintext@.len()) && r is Err ==> r == Err::<Vec<u8>, ErrorKind>(ErrorKind::EntropyUnavailable),
{
    if plaintext.len() as u64 >= PAYLOAD_LIMIT {
        return Err(ErrorKind::PayloadTooLarge);
    }
    let nonce = match random_bytes(NONCE_LEN) {
        Some(n) => n,
        None => return Err(ErrorKind::EntropyUnavailable),
    };
    let aad: Vec<u8> = Vec::new();
    let blob = seal_key_blob(plaintext, key, nonce.as_slice(), aad.as_slice());
    proof { lemma_key_blob_seals(key@, nonce@, seq![], plaintext@) }
    Ok(blob)
}

/// Opens a key-sealed blob under the project key.
pub fn decrypt_bytes_with_key(blob: &[u8], key: &[u8]) -> (r: Result<Vec<u8>, ErrorKind>)
    requires
        key@.len() == KEY_LEN,
    ensures
        opens_with_key(blob@, key@, seq![], bytes_result(r)),
        bytes_result(r) == opened_with_key(blob@, key@, seq![]),
{
    let aad: Vec<u8> = Vec::new();
    assert(aad@ =~= Seq::<u8>::empty());
    open_key_blob(blob, key, aad.as_slice())
}

/// Seals `plaintext` under a key derived from `passphrase` and `salt`, with
/// the given nonce. The copy of the passphrase and the derived key are
/// zeroed before returning.
pub fn seal_passphrase_blob(plaintext: &[u8], passphrase: &str, salt: &[u8], nonce: &[u8]) -> (r: Vec<u8>)
    requires
        utf8_of(passphrase@).len() <= 0xffff_ffff,
        salt@.len() == SALT_LEN,
        nonce@.len() == NONCE_LEN,
        aead_msg_ok(plaintext@.len()),
    ensures
        r@ == passphrase_blob(utf8_of(passphrase@), salt@, nonce@, plaintext@),
        r@.len() == plaintext@.len() + PASSPHRASE_HEADER_LEN + 16,
{
    let mut pass = slice_to_vec(passphrase.as_bytes());
    let mut key = argon2id(
        pass.as_slice(),
        salt,
        KDF_MEMORY_KIB,
        KDF_ITERATIONS,
        KDF_PARALLELISM,
        KEY_LEN,
    );
    let aad: Vec<u8> = Vec::new();
    let ct = aead_encrypt(key.as_slice(), nonce, aad.as_slice(), plaintext);
    let mut out: Vec<u8> = Vec::new();
    out.push(BLOB_VERSION);
    out.extend_from_slice(salt);
    out.extend_from_slice(nonce);
    out.extend_from_slice(ct.as_slice());
    wipe(&mut pass);
    wipe(&mut key);
    assert(out@ =~= passphrase_blob(utf8_of(passphrase@), salt@, nonce@, plaintext@));
    out
}

/// Opens a passphrase-salted blob. The copy of the passphrase and the
/// derived key are zeroed before returning.
pub fn decrypt_bytes(blob: &[u8], passphrase: &str) -> (r: Result<Vec<u8>, ErrorKind>)
    requires
        utf8_of(passphrase@).len() <= 0xffff_ffff,
    ensures
        opens_with_passphrase(blob@, utf8_of(passphrase@), bytes_result(r)),
{
    if blob.len() < PASSPHRASE_HEADER_LEN {
        return Err(ErrorKind::CryptoError);
    }
    if blob[0] != BLOB_VERSION {
        return Err(ErrorKind::VersionError);
    }
    let salt = &blob[1..17];
    let nonce = &blob[17..PASSPHRASE_HEADER_LEN];
    let ct = &blob[PASSPHRASE_HEADER_LEN..blob.len()];
    let mut pass = slice_to_vec(passphrase.as_bytes());
    let mut key = argon2id(
        pass.as_slice(),
        salt,
        KDF_MEMORY_KIB,
        KDF_ITERATIONS,
        KDF_PARALLELISM,
        KEY_LEN,
    );
    let aad: Vec<u8> = Vec::new();
    let opened = aead_decrypt(key.as_slice(), nonce, aad.as_slice(), ct);
    wipe(&mut pass);
    wipe(&mut key);
    match opened {
        Some(p) => Ok(p),
        None => Err(ErrorKind::CryptoError),
    }
}

/// Seals `plaintext` under `passphrase` with a fresh random salt and nonce.
pub fn encrypt_bytes(plaintext: &[u8], passphrase: &str) -> (r: Result<Vec<u8>, ErrorKind>)
    requires
        utf8_of(passphrase@).len() <= 0xffff_ffff,
    ensures
        r matches Ok(b) ==> seals_with_passphrase(b@, utf8_of(passphrase@), plaintext@) && b@.len()
            == plaintext@.len() + PASSPHRASE_HEADER_LEN + 16,
        !aead_msg_ok(plaintext@.len()) ==> r == Err::<Vec<u8>, ErrorKind>(ErrorKind::PayloadTooLarge),
        aead_msg_ok(plaintext@.len()) && r is Err ==> r == Err::<Vec<u8>, ErrorKind>(ErrorKind::EntropyUnavailable),
{
    if plaintext.len() as u64 >= PAYLOAD_LIMIT {
        return Err(ErrorKind::PayloadTooLarge);
    }
    let salt = match random_bytes(SALT_LEN) {
        Some(s) => s,
        None => return Err(ErrorKind::EntropyUnavailable),
    };
    let nonce = match random_bytes(NONCE_LEN) {
        Some(n) => n,
        None => return Err(ErrorKind::EntropyUnavailable),
    };
    let blob = seal_passphrase_blob(plaintext, passphrase, salt.as_slice(), nonce.as_slice());
    proof { lemma_passphrase_blob_seals(utf8_of(passphrase@), salt@, nonce@, plaintext@) }
    Ok(blob)
}

/// A key-sealed blob seals the plaintext it was made from: together with the
/// contract of `open_key_blob`, opening what `seal_key_blob` made under the
/// same key gives back the plaintext.
pub proof fn lemma_key_blob_seals(key: Seq<u8>, nonce: Seq<u8>, aad: Seq<u8>, p: Seq<u8>)
    requires
        nonce.len() == NONCE_LEN,
    ensures
        seals_with_key(key_blob(key, nonce, aad, p), key, aad, p),
{
    let b = key_blob(key, nonce, aad, p);
    assert(b.subrange(1, KEY_HEADER_LEN as int) =~= nonce);
    assert(b.subrange(KEY_HEADER_LEN as int, b.len() as int) =~= aead_seal_of(key, nonce, aad, p));
}

/// A passphrase-salted blob seals the plaintext it was made from, for the
/// same passphrase.
pub proof fn lemma_passphrase_blob_seals(password: Seq<u8>, salt: Seq<u8>, nonce: Seq<u8>, p: Seq<u8>)
    requires
        salt.len() == SALT_LEN,
        nonce.len() == NONCE_LEN,
    ensures
        seals_with_passphrase(passphrase_blob(password, salt, nonce, p), password, p),
{
    let b = passphrase_blob(password, salt, nonce, p);
    assert(b.subrange(1, 17) =~= salt);
    assert(b.subrange(17, PASSPHRASE_HEADER_LEN as int) =~= nonce);
    assert(b.subrange(PASSPHRASE_HEADER_LEN as int, b.len() as int) =~= aead_seal_of(
        kdf_of(password, salt),
        nonce,
        seq![],
        p,
    ));
}

/// Round trip, key-sealed: whatever opening a blob that `seal_key_blob`
/// made from `p` under `key` may give (any `r` that the contract of
/// `open_key_blob` allows) is `p` itself.
pub proof fn lemma_key_round_trip(
    p: Seq<u8>,
    key: Seq<u8>,
    nonce: Seq<u8>,
    aad: Seq<u8>,
    r: Result<Seq<u8>, ErrorKind>,
)
    requires
        nonce.len() == NONCE_LEN,
        aead_msg_ok(p.len()),
        opens_with_key(key_blob(key, nonce, aad, p), key, aad, r),
    ensures
        r == Ok::<Seq<u8>, ErrorKind>(p),
{
    lemma_key_blob_seals(key, nonce, aad, p);
}

/// Round trip, passphrase-salted: opening with the same passphrase a blob
/// that `seal_passphrase_blob` made from `p` can only give `p`.
pub proof fn lemma_passphrase_round_trip(
    p: Seq<u8>,
    password: Seq<u8>,
    salt: Seq<u8>,
    nonce: Seq<u8>,
    r: Result<Seq<u8>, ErrorKind>,
)
    requires
        salt.len() == SALT_LEN,
        nonce.len() == NONCE_LEN,
        aead_msg_ok(p.len()),
        opens_with_passphrase(passphrase_blob(password, salt, nonce, p), password, r),
    ensures
        r == Ok::<Seq<u8>, ErrorKind>(p),
{
    lemma_passphrase_blob_seals(password, salt, nonce, p);
}

/// Opening never hands back a plaintext that the blob, as it now is, does
/// not seal under the key used: a blob altered anywhere yields either an
/// error or exactly the message its own nonce and ciphertext authenticate.
pub proof fn lemma_open_is_authentic(
    blob: Seq<u8>,
    key: Seq<u8>,
    aad: Seq<u8>,
    p: Seq<u8>,
)
    requires
        opens_with_key(blob, key, aad, Ok::<Seq<u8>, ErrorKind>(p)),
    ensures
        blob == key_blob(key, blob.subrange(1, KEY_HEADER_LEN as int), aad, p),
{
    assert(blob =~= key_blob(key, blob.subrange(1, KEY_HEADER_LEN as int), aad, p));
}

} // verus!
