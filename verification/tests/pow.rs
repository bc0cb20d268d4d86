use vidmesh::pow::{leading_zero_bits, check, difficulty};

#[test]
fn leading_zero_bits_known_values() {
    assert_eq!(leading_zero_bits(&[0x00, 0x0F]), 12);
    assert_eq!(leading_zero_bits(&[0xFF]), 0);
    assert_eq!(leading_zero_bits(&[0x00, 0x00, 0x01]), 23);
    assert_eq!(leading_zero_bits(&[0x00, 0x00]), 16);
}

#[test]
fn pow_disabled_always_passes() {
    let id = [1u8; 32];
    assert!(check(&id, None, 0));
    assert!(check(&id, Some(0), 0));
}

#[test]
fn missing_nonce_fails_when_pow_required() {
    let id = [1u8; 32];
    assert!(!check(&id, None, 1));
}

/// Brute-forces a small nonce that clears a low difficulty bar for a
/// fixed id, then checks `check()` agrees at that bar and rejects a
/// bar one bit higher than what was actually achieved.
///
/// This is a self-consistency test (it does not hardcode a
/// pre-computed BLAKE3 digest, since one was not available without
/// executing the code). A byte-exact known-answer vector against
/// the conformance suite's `relay/pow-*` fixtures should replace or
/// augment this once the crate builds.
#[test]
fn brute_force_low_difficulty_nonce() {
    let id = [0x42u8; 32];
    let target_bits = 4;
    let mut nonce = 0u64;
    let achieved = loop {
        let d = difficulty(&id, nonce);
        if d >= target_bits {
            break d;
        }
        nonce += 1;
        assert!(nonce < 1_000_000, "did not find a nonce within budget");
    };
    assert!(check(&id, Some(nonce), target_bits));
    assert!(!check(&id, Some(nonce), achieved + 1));
}
