//! Proof-of-work anti-spam check.
//!
//! Work function: `BLAKE3-256(id || nonce_le64)`, difficulty is the
//! count of leading zero bits in the digest. The nonce travels in the
//! `PUB` frame beside the record, never inside the signed envelope.

use vstd::prelude::*;
use crate::crypto::{blake3_hash, blake3_digest};

verus! {

/// Leading zero bits of one byte.
pub open spec fn byte_lz(b: u8) -> u32 {
    if b >= 128 {
        0
    } else if b >= 64 {
        1
    } else if b >= 32 {
        2
    } else if b >= 16 {
        3
    } else if b >= 8 {
        4
    } else if b >= 4 {
        5
    } else if b >= 2 {
        6
    } else if b >= 1 {
        7
    } else {
        8
    }
}

/// Leading zero bits of a byte string, most-significant byte first.
pub open spec fn spec_leading_zero_bits(d: Seq<u8>) -> int
    decreases d.len(),
{
    if d.len() == 0 {
        0
    } else if d[0] == 0 {
        8 + spec_leading_zero_bits(d.drop_first())
    } else {
        byte_lz(d[0]) as int
    }
}

/// Little-endian bytes of a 64-bit nonce.
pub open spec fn le8(n: u64) -> Seq<u8> {
    seq![
        (n % 0x100) as u8,
        ((n / 0x100) % 0x100) as u8,
        ((n / 0x10000) % 0x100) as u8,
        ((n / 0x1000000) % 0x100) as u8,
        ((n / 0x100000000) % 0x100) as u8,
        ((n / 0x10000000000) % 0x100) as u8,
        ((n / 0x1000000000000) % 0x100) as u8,
        ((n / 0x100000000000000) % 0x100) as u8,
    ]
}

/// The work digest of a record id and nonce.
pub open spec fn spec_work_digest(id: Seq<u8>, nonce: u64) -> Seq<u8> {
    blake3_digest(id + le8(nonce))
}

proof fn lemma_lzb_bound(d: Seq<u8>)
    ensures
        0 <= spec_leading_zero_bits(d) <= 8 * d.len(),
    decreases d.len(),
{
    if d.len() > 0 && d[0] == 0 {
        lemma_lzb_bound(d.drop_first());
    }
}

fn byte_leading_zeros(b: u8) -> (r: u32)
    ensures
        r == byte_lz(b),
{
    if b >= 128 {
        0
    } else if b >= 64 {
        1
    } else if b >= 32 {
        2
    } else if b >= 16 {
        3
    } else if b >= 8 {
        4
    } else if b >= 4 {
        5
    } else if b >= 2 {
        6
    } else if b >= 1 {
        7
    } else {
        8
    }
}

/// Count leading zero bits of a digest (most-significant byte first).
pub fn leading_zero_bits(digest: &[u8]) -> (bits: u32)
    requires
        8 * digest@.len() <= u32::MAX,
    ensures
        bits == spec_leading_zero_bits(digest@),
{
    let mut bits: u32 = 0;
    let mut i: usize = 0;
    proof {
        assert(digest@.skip(0) =~= digest@);
    }
    while i < digest.len()
        invariant
            i <= digest.len(),
            8 * digest@.len() <= u32::MAX,
            bits == 8 * i,
            spec_leading_zero_bits(digest@) == bits + spec_leading_zero_bits(digest@.skip(i as int)),
        decreases digest.len() - i,
    {
        let ghost rest = digest@.skip(i as int);
        proof {
            assert(rest[0] == digest@[i as int]);
            assert(rest.drop_first() =~= digest@.skip(i + 1));
        }
        if digest[i] == 0 {
            bits = bits + 8;
        } else {
            return bits + byte_leading_zeros(digest[i]);
        }
        i = i + 1;
    }
    proof {
        assert(digest@.skip(i as int).len() == 0);
    }
    bits
}

/// `BLAKE3-256(id || nonce_le64)`.
pub fn work_digest(id: &[u8; 32], nonce: u64) -> (d: [u8; 32])
    ensures
        d@ == spec_work_digest(id@, nonce),
{
    let mut input: Vec<u8> = Vec::new();
    let mut i: usize = 0;
    while i < 32
        invariant
            i <= 32,
            id@.len() == 32,
            input@ == id@.subrange(0, i as int),
        decreases 32 - i,
    {
        input.push(id[i]);
        proof {
            assert(id@.subrange(0, i + 1) =~= id@.subrange(0, i as int).push(id@[i as int]));
        }
        i = i + 1;
    }
    input.push((nonce % 0x100) as u8);
    input.push(((nonce / 0x100) % 0x100) as u8);
    input.push(((nonce / 0x10000) % 0x100) as u8);
    input.push(((nonce / 0x1000000) % 0x100) as u8);
    input.push(((nonce / 0x100000000) % 0x100) as u8);
    input.push(((nonce / 0x10000000000) % 0x100) as u8);
    input.push(((nonce / 0x1000000000000) % 0x100) as u8);
    input.push(((nonce / 0x100000000000000) % 0x100) as u8);
    proof {
        assert(input@ =~= id@ + le8(nonce));
    }
    blake3_hash(input.as_slice())
}

/// The proof-of-work difficulty (leading zero bits) a given
/// `(id, nonce)` pair achieves.
pub fn difficulty(id: &[u8; 32], nonce: u64) -> (bits: u32)
    ensures
        bits == spec_leading_zero_bits(spec_work_digest(id@, nonce)),
{
    let d = work_digest(id, nonce);
    leading_zero_bits(&d)
}

/// Whether a publication satisfies the relay's minimum PoW requirement.
///
/// `min_bits == 0` means PoW is disabled: always accepted, even with no
/// nonce. A relay requiring PoW rejects a publication with no nonce.
pub fn check(id: &[u8; 32], nonce: Option<u64>, min_bits: u32) -> (ok: bool)
    ensures
        ok == (min_bits == 0 || (nonce matches Some(n) && spec_leading_zero_bits(
            spec_work_digest(id@, n),
        ) >= min_bits)),
{
    if min_bits == 0 {
        return true;
    }
    match nonce {
        Some(n) => difficulty(id, n) >= min_bits,
        None => false,
    }
}

} // verus!
