//! Ed25519 keypairs.

use vstd::prelude::*;
use crate::crypto::{ed25519_public, ed25519_sign, os_random_32, ed25519_public_key, ed25519_signature};
use crate::error::Error;

verus! {

/// An Ed25519 signing keypair, held as its 32 secret bytes.
pub struct Keypair {
    secret: [u8; 32],
}

impl View for Keypair {
    type V = Seq<u8>;

    /// The secret bytes.
    closed spec fn view(&self) -> Seq<u8> {
        self.secret@
    }
}

impl Keypair {
    /// Generate from the operating system RNG; `Err(Io)` when the
    /// generator is unavailable.
    pub fn generate() -> (r: Result<Keypair, Error>)
        ensures
            r matches Ok(k) ==> k@.len() == 32,
            r matches Err(e) ==> e == Error::Io("rng unavailable"),
    {
        match os_random_32() {
            Some(secret) => Ok(Keypair { secret }),
            None => Err(Error::Io("rng unavailable")),
        }
    }

    /// Deterministic construction from 32 secret bytes.
    pub fn from_secret_bytes(secret: &[u8; 32]) -> (r: Keypair)
        ensures
            r@ == secret@,
    {
        Keypair { secret: *secret }
    }

    /// The 32 secret bytes. Handle with care.
    pub fn secret_bytes(&self) -> (r: [u8; 32])
        ensures
            r@ == self@,
    {
        self.secret
    }

    /// The 32-byte Ed25519 public key.
    pub fn public_key_bytes(&self) -> (r: [u8; 32])
        ensures
            r@ == ed25519_public_key(self@),
    {
        ed25519_public(&self.secret)
    }

    /// Sign a message, returning the 64-byte signature.
    pub fn sign(&self, msg: &[u8]) -> (r: [u8; 64])
        ensures
            r@ == ed25519_signature(self@, msg@),
    {
        ed25519_sign(&self.secret, msg)
    }
}

} // verus!
