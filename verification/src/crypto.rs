//! The cryptographic primitives the protocol builds on: BLAKE3-256
//! hashing and Ed25519 signatures, and the operating system's random
//! number generator for fresh keys.
//!
//! Each primitive is a small trusted wrapper around its outside crate.
//! Their results are named (`blake3_digest`, `ed25519_public_key`,
//! `ed25519_signature`, `ed25519_accepts`): they are functions of their
//! arguments alone, and the library's contracts speak of them by name.

use vstd::prelude::*;
use ed25519_dalek::Signer;

verus! {

/// BLAKE3-256 of a byte string.
pub uninterp spec fn blake3_digest(data: Seq<u8>) -> Seq<u8>;

/// The Ed25519 public key of a 32-byte secret key.
pub uninterp spec fn ed25519_public_key(secret: Seq<u8>) -> Seq<u8>;

/// The (deterministic) Ed25519 signature of a message under a secret key.
pub uninterp spec fn ed25519_signature(secret: Seq<u8>, msg: Seq<u8>) -> Seq<u8>;

/// Whether strict Ed25519 verification accepts a signature on a message
/// under a 32-byte public key (false also when the key bytes are not a
/// valid curve point).
pub uninterp spec fn ed25519_accepts(key: Seq<u8>, msg: Seq<u8>, sig: Seq<u8>) -> bool;

/// Whether 32 bytes decompress to an Ed25519 public key.
pub uninterp spec fn ed25519_valid_point(key: Seq<u8>) -> bool;

/// An incremental BLAKE3 hasher.
#[verifier::external_type_specification]
#[verifier::external_body]
pub struct ExBlake3Hasher(blake3::Hasher);

/// The bytes an incremental hasher has been fed, in order.
pub uninterp spec fn hasher_input(h: blake3::Hasher) -> Seq<u8>;

/// A fresh incremental hasher.
///
/// Trusted: `blake3::Hasher::new`, which starts with no input.
#[verifier::external_body]
pub(crate) fn hasher_new() -> (h: blake3::Hasher)
    ensures
        hasher_input(h) == Seq::<u8>::empty(),
{
    blake3::Hasher::new()
}

/// Feed bytes to an incremental hasher.
///
/// Trusted: `blake3::Hasher::update`, which appends its argument to the
/// input hashed so far (its documented equivalence with hashing the
/// concatenation).
#[verifier::external_body]
pub(crate) fn hasher_update(h: &mut blake3::Hasher, bytes: &[u8])
    ensures
        hasher_input(*final(h)) == hasher_input(*old(h)) + bytes@,
{
    h.update(bytes);
}

/// The digest of everything an incremental hasher has been fed.
///
/// Trusted: `blake3::Hasher::finalize`, which returns the BLAKE3-256 hash
/// of the whole input, the same as `blake3::hash` of its concatenation,
/// and leaves the hasher as it was.
#[verifier::external_body]
pub(crate) fn hasher_digest(h: &blake3::Hasher) -> (r: [u8; 32])
    ensures
        r@ == blake3_digest(hasher_input(*h)),
{
    *h.finalize().as_bytes()
}

/// BLAKE3-256 of `data`.
///
/// Trusted: `blake3::hash`, whose result is the 32-byte BLAKE3 digest of
/// its input; the contract names it `blake3_digest`.
#[verifier::external_body]
pub fn blake3_hash(data: &[u8]) -> (r: [u8; 32])
    ensures
        r@ == blake3_digest(data@),
{
    *blake3::hash(data).as_bytes()
}

/// The public key of a secret key.
///
/// Trusted: `ed25519_dalek::SigningKey::from_bytes` followed by
/// `verifying_key().to_bytes()`; the 32 bytes returned are named
/// `ed25519_public_key` of the secret.
#[verifier::external_body]
pub fn ed25519_public(secret: &[u8; 32]) -> (r: [u8; 32])
    ensures
        r@ == ed25519_public_key(secret@),
{
    ed25519_dalek::SigningKey::from_bytes(secret).verifying_key().to_bytes()
}

/// Sign a message.
///
/// Trusted: `ed25519_dalek::SigningKey::sign` (the `Signer` trait), which
/// computes the RFC 8032 signature deterministically from the secret and
/// the message; the 64 bytes returned are named `ed25519_signature`.
/// Whether strict verification accepts them is not stated.
#[verifier::external_body]
pub fn ed25519_sign(secret: &[u8; 32], msg: &[u8]) -> (r: [u8; 64])
    ensures
        r@ == ed25519_signature(secret@, msg@),
{
    ed25519_dalek::SigningKey::from_bytes(secret).sign(msg).to_bytes()
}

/// Strict signature verification.
///
/// Trusted: `ed25519_dalek::VerifyingKey::from_bytes` and
/// `VerifyingKey::verify_strict`; a key that does not decompress to a
/// curve point is rejected like a bad signature. The outcome is named
/// `ed25519_accepts`.
#[verifier::external_body]
pub fn ed25519_verify(key: &[u8; 32], msg: &[u8], sig: &[u8; 64]) -> (ok: bool)
    ensures
        ok == ed25519_accepts(key@, msg@, sig@),
{
    match ed25519_dalek::VerifyingKey::from_bytes(key) {
        Ok(k) => k.verify_strict(msg, &ed25519_dalek::Signature::from_bytes(sig)).is_ok(),
        Err(_) => false,
    }
}

/// Whether 32 bytes are a usable public key.
///
/// Trusted: `ed25519_dalek::VerifyingKey::from_bytes`, which fails when
/// the bytes do not decompress to a curve point; the outcome is named
/// `ed25519_valid_point`.
#[verifier::external_body]
pub fn ed25519_key_ok(key: &[u8; 32]) -> (ok: bool)
    ensures
        ok == ed25519_valid_point(key@),
{
    ed25519_dalek::VerifyingKey::from_bytes(key).is_ok()
}

/// Fill 32 bytes from the operating system's random number generator.
///
/// Trusted: `getrandom::getrandom`; `None` when the generator is
/// unavailable. Nothing is stated of the bytes.
#[verifier::external_body]
pub fn os_random_32() -> (r: Option<[u8; 32]>) {
    let mut b = [0u8; 32];
    match getrandom::getrandom(&mut b) {
        Ok(()) => Some(b),
        Err(_) => None,
    }
}

} // verus!
