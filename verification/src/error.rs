//! Kernel error type.

use vstd::prelude::*;
use crate::text::concat;
use crate::json::{decimal, chars_to_string, dec_digits};

verus! {

/// Every way untrusted input can be rejected by the kernel.
///
/// The kernel never panics on untrusted input; all validation failures
/// surface as a variant of this enum.
#[derive(Debug, Clone, PartialEq, Eq)]
pub enum Error {
    /// Input is not well-formed CBOR (truncated, bad head, trailing bytes...).
    Cbor(&'static str),
    /// Input is well-formed CBOR but violates canonical-encoding rules:
    /// non-shortest head, unsorted or duplicate map keys, indefinite
    /// length, float, or tag.
    NonCanonical(&'static str),
    /// The envelope is malformed (missing/unknown keys, wrong types).
    Envelope(&'static str),
    /// The signature does not verify, or the key/signature is malformed.
    Signature,
    /// `sig_alg` (or another algorithm id) is not implemented.
    UnknownAlgorithm(u64),
    /// A rotation chain is invalid (bad genesis, broken parent link...).
    Identity(&'static str),
    /// A chunk-tree proof does not verify.
    ChunkProof(&'static str),
    /// A kind-level validation rule failed.
    Kind(&'static str),
    /// A bundle item is invalid or the container is malformed.
    Bundle(&'static str),
    /// An I/O error occurred while streaming.
    Io(&'static str),
}


/// The text of an error: a fixed lead-in per variant, then the detail.
pub open spec fn error_text(e: Error) -> Seq<char> {
    match e {
        Error::Cbor(m) => "malformed CBOR: "@ + m@,
        Error::NonCanonical(m) => "non-canonical encoding: "@ + m@,
        Error::Envelope(m) => "invalid envelope: "@ + m@,
        Error::Signature => "signature verification failed"@,
        Error::UnknownAlgorithm(id) => "unknown algorithm id "@ + dec_digits(id as nat),
        Error::Identity(m) => "invalid identity chain: "@ + m@,
        Error::ChunkProof(m) => "chunk proof failed: "@ + m@,
        Error::Kind(m) => "kind validation failed: "@ + m@,
        Error::Bundle(m) => "invalid bundle: "@ + m@,
        Error::Io(m) => "i/o error: "@ + m@,
    }
}

impl Error {
    /// A human-readable description of the error.
    pub fn message(&self) -> (s: String)
        ensures
            s@ == error_text(*self),
            s@.len() > 0,
    {
        let r = match self {
            Error::Cbor(m) => concat("malformed CBOR: ", m),
            Error::NonCanonical(m) => concat("non-canonical encoding: ", m),
            Error::Envelope(m) => concat("invalid envelope: ", m),
            Error::Signature => concat("signature verification failed", ""),
            Error::UnknownAlgorithm(id) => {
                let d = decimal(*id as u128);
                let t = chars_to_string(&d, 0);
                concat("unknown algorithm id ", t.as_str())
            },
            Error::Identity(m) => concat("invalid identity chain: ", m),
            Error::ChunkProof(m) => concat("chunk proof failed: ", m),
            Error::Kind(m) => concat("kind validation failed: ", m),
            Error::Bundle(m) => concat("invalid bundle: ", m),
            Error::Io(m) => concat("i/o error: ", m),
        };
        proof {
            reveal_strlit("malformed CBOR: ");
            reveal_strlit("non-canonical encoding: ");
            reveal_strlit("invalid envelope: ");
            reveal_strlit("signature verification failed");
            reveal_strlit("unknown algorithm id ");
            reveal_strlit("invalid identity chain: ");
            reveal_strlit("chunk proof failed: ");
            reveal_strlit("kind validation failed: ");
            reveal_strlit("invalid bundle: ");
            reveal_strlit("i/o error: ");
            reveal_strlit("");
            assert("signature verification failed"@ + ""@ =~= "signature verification failed"@);
        }
        r
    }
}

} // verus!
