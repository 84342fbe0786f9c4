//! The cryptographic primitives this crate relies on: SHA-256 (`sha2`),
//! Ed25519 (`ed25519_dalek`), ChaCha20-Poly1305 (`chacha20poly1305`) and
//! operating-system randomness (`getrandom`). Each function here makes one
//! call into those crates; everything built on them is verified against the
//! names below.

use vstd::prelude::*;

use chacha20poly1305::aead::{Aead, KeyInit, Payload};
use chacha20poly1305::{ChaCha20Poly1305, Key, Nonce};
use ed25519_dalek::{Signature, Signer, SigningKey, Verifier, VerifyingKey};
use sha2::{Digest, Sha256};

verus! {

/// SHA-256 digest of a byte string.
pub uninterp spec fn sha256_of(data: Seq<u8>) -> Seq<u8>;

/// Ed25519 public key (compressed point) of a 32-byte secret key.
pub uninterp spec fn ed25519_public_of(secret: Seq<u8>) -> Seq<u8>;

/// Ed25519 signature (RFC 8032, deterministic) of `msg` under `secret`.
pub uninterp spec fn ed25519_signature_of(secret: Seq<u8>, msg: Seq<u8>) -> Seq<u8>;

/// Whether 32 bytes decompress to an Ed25519 public key.
pub uninterp spec fn ed25519_key_decodes(public: Seq<u8>) -> bool;

/// Whether `sig` is accepted for `msg` under `public` (the cofactorless
/// check of `Verifier::verify`).
pub uninterp spec fn ed25519_accepts(public: Seq<u8>, msg: Seq<u8>, sig: Seq<u8>) -> bool;

/// Whether `sig` is accepted for `msg` under `public` by the strict check.
pub uninterp spec fn ed25519_accepts_strict(public: Seq<u8>, msg: Seq<u8>, sig: Seq<u8>) -> bool;

/// ChaCha20-Poly1305 ciphertext (with its 16-byte tag appended).
pub uninterp spec fn chacha_seal(key: Seq<u8>, nonce: Seq<u8>, aad: Seq<u8>, msg: Seq<u8>) -> Seq<
    u8,
>;

/// ChaCha20-Poly1305 decryption: the plaintext if the tag authenticates.
pub uninterp spec fn chacha_open(key: Seq<u8>, nonce: Seq<u8>, aad: Seq<u8>, ct: Seq<u8>) -> Option<
    Seq<u8>,
>;

/// `public` is the public key of some 32-byte secret key.
pub open spec fn is_public_key(public: Seq<u8>) -> bool {
    exists|sk: Seq<u8>| sk.len() == 32 && public == #[trigger] ed25519_public_of(sk)
}

/// `sig` is the signature of `msg` under a secret key whose public key is
/// `public`.
pub open spec fn is_honest_signature(public: Seq<u8>, msg: Seq<u8>, sig: Seq<u8>) -> bool {
    exists|sk: Seq<u8>|
        sk.len() == 32 && public == #[trigger] ed25519_public_of(sk) && sig == ed25519_signature_of(
            sk,
            msg,
        )
}

/// A verification outcome that accepts the signature.
pub open spec fn accepted(r: Result<bool, String>) -> bool {
    r matches Ok(b) && b
}

/// `r` gives back `m` whenever `ct` is the sealing of a message `m` that
/// [`chacha_encrypt`] accepts (fewer than 2^32 - 1 blocks of 64 bytes).
pub open spec fn opens_every_seal(
    key: Seq<u8>,
    nonce: Seq<u8>,
    aad: Seq<u8>,
    ct: Seq<u8>,
    r: Result<Vec<u8>, ()>,
) -> bool {
    forall|m: Seq<u8>|
        m.len() / 64 < u32::MAX && #[trigger] chacha_seal(key, nonce, aad, m) == ct ==> (r matches Ok(p) && p@ == m)
}

/// `sha2::Sha256::digest`: the 32-byte SHA-256 digest of `data`.
#[verifier::external_body]
pub fn sha256_digest(data: &[u8]) -> (r: [u8; 32])
    ensures
        r@ == sha256_of(data@),
{
    Sha256::digest(data).into()
}

/// `SigningKey::verifying_key` of `SigningKey::from_bytes(secret)`: the
/// public key bytes that belong to a secret key.
#[verifier::external_body]
pub fn ed25519_public(secret: &[u8; 32]) -> (r: [u8; 32])
    ensures
        r@ == ed25519_public_of(secret@),
{
    SigningKey::from_bytes(secret).verifying_key().to_bytes()
}

/// `Signer::sign` with `SigningKey::from_bytes(secret)`: the Ed25519
/// signature of `msg`, which depends on the key and the message alone.
#[verifier::external_body]
pub fn ed25519_sign(secret: &[u8; 32], msg: &[u8]) -> (r: [u8; 64])
    ensures
        r@ == ed25519_signature_of(secret@, msg@),
{
    SigningKey::from_bytes(secret).sign(msg).to_bytes()
}

/// `VerifyingKey::from_bytes`: `None` when the 32 bytes decode to a public
/// key (as every public key of a secret key does), else the error's display
/// text.
#[verifier::external_body]
pub fn ed25519_key_error(public: &[u8; 32]) -> (r: Option<String>)
    ensures
        r is None <==> ed25519_key_decodes(public@),
        is_public_key(public@) ==> r is None,
{
    VerifyingKey::from_bytes(public).err().map(|e| e.to_string())
}

/// `Verifier::verify` after `VerifyingKey::from_bytes`: `Err` (the error's
/// display text) when the public key does not decode, else whether the signature is accepted. A
/// signature made with the secret key of `public` over `msg` is accepted
/// (Ed25519 correctness); nothing else is claimed of which signatures pass.
#[verifier::external_body]
pub fn ed25519_verify(public: &[u8; 32], msg: &[u8], sig: &[u8; 64]) -> (r: Result<bool, String>)
    ensures
        r is Ok <==> ed25519_key_decodes(public@),
        r matches Ok(b) ==> b == ed25519_accepts(public@, msg@, sig@),
        is_public_key(public@) ==> r is Ok,
        is_honest_signature(public@, msg@, sig@) ==> accepted(r),
{
    match VerifyingKey::from_bytes(public) {
        Ok(vk) => Ok(vk.verify(msg, &Signature::from_bytes(sig)).is_ok()),
        Err(e) => Err(e.to_string()),
    }
}

/// `VerifyingKey::verify_strict` after `VerifyingKey::from_bytes`: `Err`
/// (the decoding error's display text) when the public key does not decode,
/// else `Ok` of the strict check's outcome, its error carried as display text.
/// Nothing is claimed of which signatures pass: the strict check also
/// refuses a signature whose `R` has small order, which an honest
/// signature can have.
#[verifier::external_body]
pub fn ed25519_verify_strict(public: &[u8; 32], msg: &[u8], sig: &[u8; 64]) -> (r: Result<Result<(), String>, String>)
    ensures
        r is Ok <==> ed25519_key_decodes(public@),
        r matches Ok(v) ==> (v is Ok <==> ed25519_accepts_strict(public@, msg@, sig@)),
        is_public_key(public@) ==> r is Ok,
{
    match VerifyingKey::from_bytes(public) {
        Ok(vk) => Ok(vk.verify_strict(msg, &Signature::from_bytes(sig)).map_err(|e| e.to_string())),
        Err(e) => Err(e.to_string()),
    }
}

/// `Aead::encrypt` of `ChaCha20Poly1305` keyed with `key`: fails only when
/// the message is too long for the 32-bit block counter.
#[verifier::external_body]
pub fn chacha_encrypt(key: &[u8; 32], nonce: &[u8; 12], aad: &[u8], msg: &[u8]) -> (r: Result<Vec<u8>, ()>)
    ensures
        r is Ok <==> msg@.len() / 64 < u32::MAX,
        r matches Ok(ct) ==> ct@ == chacha_seal(key@, nonce@, aad@, msg@),
{
    let cipher = ChaCha20Poly1305::new(Key::from_slice(key));
    cipher.encrypt(Nonce::from_slice(nonce), Payload { msg, aad }).map_err(|_| ())
}

/// `Aead::decrypt` of `ChaCha20Poly1305` keyed with `key`: the plaintext if
/// the tag authenticates. Decrypting what [`chacha_encrypt`] produced with
/// the same key, nonce and associated data gives back the message (AEAD
/// correctness).
#[verifier::external_body]
pub fn chacha_decrypt(key: &[u8; 32], nonce: &[u8; 12], aad: &[u8], ct: &[u8]) -> (r: Result<Vec<u8>, ()>)
    ensures
        r matches Ok(m) ==> chacha_open(key@, nonce@, aad@, ct@) == Some(m@),
        r is Ok <==> chacha_open(key@, nonce@, aad@, ct@) is Some,
        opens_every_seal(key@, nonce@, aad@, ct@, r),
{
    let cipher = ChaCha20Poly1305::new(Key::from_slice(key));
    cipher.decrypt(Nonce::from_slice(nonce), Payload { msg: ct, aad }).map_err(|_| ())
}

/// `getrandom::getrandom`: fills `buf` with operating-system randomness.
/// Nothing is claimed of the bytes it writes, nor of when it fails; the
/// error is carried as its display text.
#[verifier::external_body]
pub fn fill_random(buf: &mut [u8; 32]) -> (r: Result<(), String>) {
    getrandom::getrandom(buf).map_err(|e| e.to_string())
}

} // verus!
