use vidmesh::identity::{Identity, AlgKey, RotationBody};
use vidmesh::record::RecordBuilder;
use vidmesh::codec::Value;
use vidmesh::ids::IdentityId;
use vidmesh::error::Error;
use vidmesh::keys::Keypair;
use vidmesh::record::SIG_ALG_ED25519;
use vidmesh::ids::RecordId;

fn kp(seed: u8) -> Keypair {
    Keypair::from_secret_bytes(&[seed; 32])
}

fn recovery_of(k: &Keypair) -> AlgKey {
    (SIG_ALG_ED25519, k.public_key_bytes().to_vec())
}

const WINDOW: u64 = 604_800;

/// observed_at treating everything as just seen (nothing final).
fn seen_now(_: &RecordId) -> Option<i64> {
    None
}

#[test]
fn genesis_verifies_and_derives_id() {
    let user = kp(1);
    let (id, genesis) = Identity::genesis(&user, &[], WINDOW, 100).unwrap();
    genesis.verify().unwrap();
    assert_eq!(id.0, genesis.id().0);
    let state = Identity::verify_chain(&[genesis], &seen_now, 1000).unwrap();
    assert_eq!(state.identity_id, id);
    assert_eq!(state.signing_key, user.public_key_bytes().to_vec());
    assert_eq!(state.depth, 0);
}

#[test]
fn signing_key_rotation_advances_state() {
    let old = kp(1);
    let new = kp(2);
    let (id, genesis) = Identity::genesis(&old, &[], WINDOW, 100).unwrap();
    let rot = Identity::rotate(
        id,
        genesis.id(),
        &new.public_key_bytes(),
        SIG_ALG_ED25519,
        &[],
        WINDOW,
        200,
        &old,
    )
    .unwrap();
    let state = Identity::verify_chain(&[genesis, rot.clone()], &seen_now, 1000).unwrap();
    assert_eq!(state.signing_key, new.public_key_bytes().to_vec());
    assert_eq!(state.head, rot.id());
    assert_eq!(state.depth, 1);
}

#[test]
fn unauthorized_rotation_ignored() {
    let user = kp(1);
    let attacker = kp(9);
    let (id, genesis) = Identity::genesis(&user, &[], WINDOW, 100).unwrap();
    let rogue = Identity::rotate(
        id,
        genesis.id(),
        &attacker.public_key_bytes(),
        SIG_ALG_ED25519,
        &[],
        WINDOW,
        200,
        &attacker,
    )
    .unwrap();
    let state = Identity::verify_chain(&[genesis, rogue], &seen_now, 1000).unwrap();
    assert_eq!(state.depth, 0);
    assert_eq!(state.signing_key, user.public_key_bytes().to_vec());
}

#[test]
fn recovery_beats_provisional_thief() {
    // Thief steals the signing key and rotates; owner forks from the
    // same parent with the recovery key. Recovery wins while the
    // thief's rotation is not final.
    let owner_signing = kp(1);
    let owner_recovery = kp(2);
    let thief = kp(3);
    let owner_new = kp(4);
    let (id, genesis) =
        Identity::genesis(&owner_signing, &[recovery_of(&owner_recovery)], WINDOW, 100)
            .unwrap();
    let thief_rot = Identity::rotate(
        id,
        genesis.id(),
        &thief.public_key_bytes(),
        SIG_ALG_ED25519,
        &[],
        WINDOW,
        200,
        &owner_signing, // stolen key
    )
    .unwrap();
    let owner_rot = Identity::rotate(
        id,
        genesis.id(),
        &owner_new.public_key_bytes(),
        SIG_ALG_ED25519,
        &[recovery_of(&owner_recovery)],
        WINDOW,
        300,
        &owner_recovery,
    )
    .unwrap();
    // Deeper thief branch must still lose.
    let thief_rot2 = Identity::rotate(
        id,
        thief_rot.id(),
        &kp(5).public_key_bytes(),
        SIG_ALG_ED25519,
        &[],
        WINDOW,
        400,
        &thief,
    )
    .unwrap();
    let records = vec![genesis, thief_rot, thief_rot2, owner_rot.clone()];
    let state = Identity::verify_chain(&records, &seen_now, 1000).unwrap();
    assert_eq!(state.head, owner_rot.id());
    assert_eq!(state.signing_key, owner_new.public_key_bytes().to_vec());
}

#[test]
fn final_signing_rotation_resists_recovery_fork() {
    // A legitimate signing rotation observed longer than the window
    // ago cannot be displaced by a later recovery fork.
    let signing = kp(1);
    let recovery = kp(2);
    let new_signing = kp(3);
    let recovery_new = kp(4);
    let (id, genesis) =
        Identity::genesis(&signing, &[recovery_of(&recovery)], WINDOW, 100).unwrap();
    let legit = Identity::rotate(
        id,
        genesis.id(),
        &new_signing.public_key_bytes(),
        SIG_ALG_ED25519,
        &[recovery_of(&recovery)],
        WINDOW,
        200,
        &signing,
    )
    .unwrap();
    let late_recovery = Identity::rotate(
        id,
        genesis.id(),
        &recovery_new.public_key_bytes(),
        SIG_ALG_ED25519,
        &[],
        WINDOW,
        300,
        &recovery,
    )
    .unwrap();
    let legit_id = legit.id();
    let observed = move |rid: &RecordId| -> Option<i64> {
        if *rid == legit_id {
            Some(0) // seen long ago
        } else {
            None
        }
    };
    let now = (WINDOW as i64) + 10;
    let records = vec![genesis, legit.clone(), late_recovery];
    let state = Identity::verify_chain(&records, &observed, now).unwrap();
    assert_eq!(state.head, legit.id());
}

#[test]
fn same_class_fork_resolves_by_lowest_id() {
    let signing = kp(1);
    let a = kp(2);
    let b = kp(3);
    let (id, genesis) = Identity::genesis(&signing, &[], WINDOW, 100).unwrap();
    let rot_a = Identity::rotate(
        id,
        genesis.id(),
        &a.public_key_bytes(),
        SIG_ALG_ED25519,
        &[],
        WINDOW,
        200,
        &signing,
    )
    .unwrap();
    let rot_b = Identity::rotate(
        id,
        genesis.id(),
        &b.public_key_bytes(),
        SIG_ALG_ED25519,
        &[],
        WINDOW,
        201,
        &signing,
    )
    .unwrap();
    let expected = if rot_a.id().0 < rot_b.id().0 {
        rot_a.id()
    } else {
        rot_b.id()
    };
    let state = Identity::verify_chain(&[genesis, rot_a, rot_b], &seen_now, 1000).unwrap();
    assert_eq!(state.head, expected);
}

#[test]
fn huge_contest_window_does_not_wrap_negative_and_disable_recovery() {
    // Regression for the `contest_window as i64` cast hazard: `u64`'s
    // upper half (>= 2^63) reinterprets as a *negative* `i64` under
    // `as`, which would make `is_final` return `true` for a rotation
    // observed only moments ago — the opposite of what a large
    // contest window means. Same shape as
    // `recovery_beats_provisional_thief`, but with
    // `contest_window = u64::MAX` and the thief's forged rotation
    // reported as having just been seen (`elapsed == 0`).
    let owner_signing = kp(1);
    let owner_recovery = kp(2);
    let thief = kp(3);
    let owner_new = kp(4);
    let huge_window = u64::MAX;
    let (id, genesis) = Identity::genesis(
        &owner_signing,
        &[recovery_of(&owner_recovery)],
        huge_window,
        100,
    )
    .unwrap();
    let thief_rot = Identity::rotate(
        id,
        genesis.id(),
        &thief.public_key_bytes(),
        SIG_ALG_ED25519,
        &[],
        huge_window,
        200,
        &owner_signing, // stolen key
    )
    .unwrap();
    let owner_rot = Identity::rotate(
        id,
        genesis.id(),
        &owner_new.public_key_bytes(),
        SIG_ALG_ED25519,
        &[recovery_of(&owner_recovery)],
        huge_window,
        300,
        &owner_recovery,
    )
    .unwrap();
    let thief_id = thief_rot.id();
    // The thief's rotation was observed at exactly `now`: elapsed is
    // 0, nowhere near "final" under a window this size. Under the
    // wrapped cast, `huge_window as i64` is negative and `0 > that`
    // is true, so the buggy code finalizes it immediately anyway.
    let observed = move |rid: &RecordId| -> Option<i64> {
        if *rid == thief_id {
            Some(1000)
        } else {
            None
        }
    };
    let records = vec![genesis, thief_rot, owner_rot.clone()];
    let state = Identity::verify_chain(&records, &observed, 1000).unwrap();
    assert_eq!(
        state.head,
        owner_rot.id(),
        "recovery must still beat a just-observed provisional signing rotation \
         even when contest_window is astronomically large"
    );
    assert_eq!(state.signing_key, owner_new.public_key_bytes().to_vec());
}

#[test]
fn merge_order_independence() {
    let signing = kp(1);
    let recovery = kp(2);
    let n1 = kp(3);
    let n2 = kp(4);
    let (id, genesis) =
        Identity::genesis(&signing, &[recovery_of(&recovery)], WINDOW, 100).unwrap();
    let r1 = Identity::rotate(
        id,
        genesis.id(),
        &n1.public_key_bytes(),
        SIG_ALG_ED25519,
        &[recovery_of(&recovery)],
        WINDOW,
        200,
        &signing,
    )
    .unwrap();
    let r2 = Identity::rotate(
        id,
        r1.id(),
        &n2.public_key_bytes(),
        SIG_ALG_ED25519,
        &[],
        WINDOW,
        300,
        &n1,
    )
    .unwrap();
    let mut records = vec![genesis, r1, r2];
    let baseline = Identity::verify_chain(&records, &seen_now, 1000).unwrap();
    // All 6 permutations of 3 records give the same state.
    for _ in 0..3 {
        records.rotate_left(1);
        assert_eq!(
            Identity::verify_chain(&records, &seen_now, 1000).unwrap(),
            baseline
        );
        let mut swapped = records.clone();
        swapped.swap(0, 1);
        assert_eq!(
            Identity::verify_chain(&swapped, &seen_now, 1000).unwrap(),
            baseline
        );
    }
}

#[test]
fn rotation_parse_reports_non_rotation_kind() {
    let kp = Keypair::from_secret_bytes(&[1u8; 32]);
    let r = RecordBuilder::new(32)
        .created_at(5)
        .body(Value::Dict(vec![]))
        .sign_as(&kp, IdentityId([0u8; 32]))
        .unwrap();
    assert_eq!(RotationBody::parse(&r).unwrap_err(), Error::Identity("not a rotation record"));
}
