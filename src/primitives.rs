//! The calls this library makes into outside code, each behind a contract.
//!
//! Every function here is trusted: Verus checks the callers against the
//! contracts, and the doc comment of each names what the contract relies on.
use chacha20poly1305::aead::rand_core::RngCore;
use chacha20poly1305::aead::{Aead, KeyInit, OsRng, Payload};
use chacha20poly1305::{Key, XChaCha20Poly1305, XNonce};
use sha2::Digest;
use vstd::prelude::*;
use vstd::utf8::*;
use zeroize::Zeroize;

verus! {

/// The SHA-256 digest of a byte sequence.
pub uninterp spec fn sha256_of(data: Seq<u8>) -> Seq<u8>;

/// What XChaCha20-Poly1305 produces for a key, a nonce, associated data and
/// a message: the encrypted message followed by its 16-byte tag.
pub uninterp spec fn aead_seal_of(key: Seq<u8>, nonce: Seq<u8>, aad: Seq<u8>, msg: Seq<u8>) -> Seq<u8>;

/// The output of Argon2id (version 0x13) for a password, a salt, the three
/// cost parameters and an output length.
pub uninterp spec fn argon2id_of(
    password: Seq<u8>,
    salt: Seq<u8>,
    m_cost: u32,
    t_cost: u32,
    p_cost: u32,
    out_len: usize,
) -> Seq<u8>;

/// Longest message the cipher accepts: fewer than `u32::MAX` blocks of 64 bytes.
pub open spec fn aead_msg_ok(len: nat) -> bool {
    len < 64 * 0xffff_ffffnat
}

pub open spec fn hex_digit(n: u8) -> char {
    if n == 0 { '0' } else if n == 1 { '1' } else if n == 2 { '2' } else if n == 3 { '3' }
    else if n == 4 { '4' } else if n == 5 { '5' } else if n == 6 { '6' } else if n == 7 { '7' }
    else if n == 8 { '8' } else if n == 9 { '9' } else if n == 10 { 'a' } else if n == 11 { 'b' }
    else if n == 12 { 'c' } else if n == 13 { 'd' } else if n == 14 { 'e' } else { 'f' }
}

/// Lowercase hexadecimal: two digits per byte, the high nibble first.
pub open spec fn hex_of(b: Seq<u8>) -> Seq<char> {
    Seq::new(
        2 * b.len(),
        |i: int|
            if i % 2 == 0 {
                hex_digit((b[i / 2] / 16) as u8)
            } else {
                hex_digit((b[i / 2] % 16) as u8)
            },
    )
}

/// Relies on `sha2::Sha256::digest`: a 32-byte digest that depends on the
/// input alone.
#[verifier::external_body]
pub(crate) fn sha256(data: &[u8]) -> (r: Vec<u8>)
    ensures
        r@ == sha256_of(data@),
        r@.len() == 32,
{
    sha2::Sha256::digest(data).to_vec()
}

/// Relies on `hex::encode`: lowercase digits, two per byte, high nibble first.
#[verifier::external_body]
pub(crate) fn to_hex(data: &[u8]) -> (r: String)
    ensures
        r@ == hex_of(data@),
{
    hex::encode(data)
}

/// Relies on `XChaCha20Poly1305::encrypt` with a `Payload`: it fails only for
/// messages of `u32::MAX` blocks or more, which `requires` leaves out.
#[verifier::external_body]
pub(crate) fn aead_encrypt(key: &[u8], nonce: &[u8], aad: &[u8], msg: &[u8]) -> (r: Vec<u8>)
    requires
        key@.len() == 32,
        nonce@.len() == 24,
        aead_msg_ok(msg@.len()),
    ensures
        r@ == aead_seal_of(key@, nonce@, aad@, msg@),
        r@.len() == msg@.len() + 16,
{
    let cipher = XChaCha20Poly1305::new(Key::from_slice(key));
    cipher.encrypt(XNonce::from_slice(nonce), Payload { msg, aad }).unwrap()
}

/// Relies on `XChaCha20Poly1305::decrypt` with a `Payload`: it recomputes the
/// tag over the associated data and the ciphertext, and only when it matches
/// does it apply the key stream. So it accepts exactly what `encrypt` gives
/// for that key, nonce and associated data, and hands back that message. It
/// refuses buffers of `u32::MAX` blocks or more before looking at them.
#[verifier::external_body]
pub(crate) fn aead_decrypt(key: &[u8], nonce: &[u8], aad: &[u8], ct: &[u8]) -> (r: Option<Vec<u8>>)
    requires
        key@.len() == 32,
        nonce@.len() == 24,
    ensures
        r matches Some(p) ==> {
            &&& aead_seal_of(key@, nonce@, aad@, p@) == ct@
            &&& aead_msg_ok(p@.len())
            &&& forall|m: Seq<u8>|
                aead_msg_ok(m.len()) && #[trigger] aead_seal_of(key@, nonce@, aad@, m) == ct@
                    ==> m == p@
        },
        r is None ==> forall|m: Seq<u8>|
            aead_msg_ok(m.len()) ==> #[trigger] aead_seal_of(key@, nonce@, aad@, m) != ct@,
{
    let cipher = XChaCha20Poly1305::new(Key::from_slice(key));
    cipher.decrypt(XNonce::from_slice(nonce), Payload { msg: ct, aad }).ok()
}

/// Relies on `argon2::Argon2::hash_password_into` (Argon2id, version 0x13).
/// With these bounds on the inputs and parameters neither `Params::new` nor
/// the hashing returns an error.
#[verifier::external_body]
pub(crate) fn argon2id(
    password: &[u8],
    salt: &[u8],
    m_cost: u32,
    t_cost: u32,
    p_cost: u32,
    out_len: usize,
) -> (r: Vec<u8>)
    requires
        password@.len() <= 0xffff_ffff,
        8 <= salt@.len() <= 0xffff_ffff,
        1 <= t_cost,
        1 <= p_cost <= 0xff_ffff,
        8 <= m_cost,
        8 * p_cost <= m_cost,
        4 <= out_len <= 0xffff_ffff,
    ensures
        r@ == argon2id_of(password@, salt@, m_cost, t_cost, p_cost, out_len),
        r@.len() == out_len,
{
    let params = argon2::Params::new(m_cost, t_cost, p_cost, Some(out_len)).unwrap();
    let hasher = argon2::Argon2::new(argon2::Algorithm::Argon2id, argon2::Version::V0x13, params);
    let mut out = vec![0u8; out_len];
    hasher.hash_password_into(password, salt, &mut out).unwrap();
    out
}

/// Relies on `OsRng::try_fill_bytes` (rand_core, re-exported by the cipher
/// crate): the operating system's generator fills the buffer, or reports
/// that it could not.
#[verifier::external_body]
pub(crate) fn random_bytes(n: usize) -> (r: Option<Vec<u8>>)
    ensures
        r matches Some(v) ==> v@.len() == n,
{
    let mut buf = vec![0u8; n];
    match OsRng.try_fill_bytes(&mut buf) {
        Ok(()) => Some(buf),
        Err(_) => None,
    }
}

/// Relies on `Zeroize` for `Vec<u8>`: it overwrites every element with zero,
/// then clears the vector.
#[verifier::external_body]
pub(crate) fn wipe(v: &mut Vec<u8>)
    ensures
        final(v)@.len() == 0,
{
    v.zeroize();
}

/// Relies on `String::from_utf8`: it accepts exactly well-formed UTF-8 and
/// keeps the characters it encodes.
#[verifier::external_body]
pub(crate) fn string_from_utf8(bytes: Vec<u8>) -> (r: Option<String>)
    ensures
        r is Some <==> valid_utf8(bytes@),
        r matches Some(s) ==> s@ == decode_utf8(bytes@),
{
    String::from_utf8(bytes).ok()
}

/// Relies on `SystemTime::now`: seconds since the Unix epoch, or 0 when the
/// clock reads earlier than that.
#[verifier::external_body]
pub(crate) fn unix_now() -> (r: u64) {
    std::time::SystemTime::now().duration_since(std::time::UNIX_EPOCH).map(|d| d.as_secs()).unwrap_or(0)
}

} // verus!
