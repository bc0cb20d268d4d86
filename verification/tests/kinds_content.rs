#![allow(unused_imports)]
use vidmesh::kinds::content::{
    Hint, PaymentPointer, Sponsor, Encryption, Media, Rendition, Caption, Manifest, DERIVATION_SIG_PREFIX,
    derivation_statement, verify_derivation, Delegate, check_delegate_revocation, Supersede, Retract,
    check_retract_target_kind, Mirror, Similarity,
};
use vidmesh::kinds::social::{Profile, Comment, check_comment_thread, Reaction, Follow, Playlist, Channel};
use vidmesh::kinds::claims::{ClaimAuthor, ClaimLicense, ClaimTransfer, ClaimDispute, check_dispute_target_kind};
use vidmesh::kinds::compliance::{Claimant, NoticeTakedown, NoticeCounter, FeedEntry, FeedRemoveEntry, FeedTakedown};
use vidmesh::kinds::infra::{MAX_INLINE_PROOF, AnchorProof, Anchor, Keygrant};
use vidmesh::kinds::live::{LiveSegment, LiveManifest, LiveChat};
use vidmesh::kinds::trust::{EndorseGateway, Receipt, Attest};
use vidmesh::kinds::{
    validate, KIND_ROTATION, KIND_PROFILE, KIND_DELEGATE, KIND_MANIFEST, KIND_SUPERSEDE, KIND_RETRACT,
    KIND_MIRROR, KIND_SIMILARITY, KIND_COMMENT, KIND_REACTION, KIND_FOLLOW, KIND_PLAYLIST, KIND_CHANNEL,
    KIND_CLAIM_AUTHOR, KIND_CLAIM_LICENSE, KIND_CLAIM_TRANSFER, KIND_CLAIM_DISPUTE, KIND_NOTICE_TAKEDOWN,
    KIND_NOTICE_COUNTER, KIND_FEED_TAKEDOWN, KIND_ENDORSE_GATEWAY, KIND_RECEIPT, KIND_ATTEST, KIND_ANCHOR,
    KIND_KEYGRANT, KIND_LIVE_MANIFEST, KIND_LIVE_CHAT,
};
use vidmesh::keys::Keypair;
use vidmesh::record::{Record, RecordBuilder, Ref, SIG_ALG_ED25519};
use vidmesh::ids::{IdentityId, RecordId, BlobId};
use vidmesh::codec::{Value, encode_canonical};
use vidmesh::error::Error;


fn kp(seed: u8) -> Keypair {
    Keypair::from_secret_bytes(&[seed; 32])
}

fn author() -> IdentityId {
    IdentityId([7; 32])
}

fn sign(kind: u64, refs: Vec<Ref>, body: Value) -> Record {
    RecordBuilder::new(kind)
        .created_at(1000)
        .refs(refs)
        .body(body)
        .sign_as(&kp(1), author())
        .unwrap()
}

fn small_media(blob_byte: u8) -> Media {
    Media {
        blob: BlobId([blob_byte; 32]),
        size: 1000,
        chunk_root: None,
        codec: "av01.0.08M.08".into(),
        duration_ms: 60_000,
        width: Some(1920),
        height: Some(1080),
        wrapped_blob_key: None,
    }
}

/// An audio-only encoding (DMTAP §24.4.2): no video track, so
/// `width`/`height` are both absent.
fn small_media_audio(blob_byte: u8) -> Media {
    Media {
        blob: BlobId([blob_byte; 32]),
        size: 1000,
        chunk_root: None,
        codec: "opus".into(),
        duration_ms: 180_000,
        width: None,
        height: None,
        wrapped_blob_key: None,
    }
}

fn sample_manifest() -> Manifest {
    Manifest {
        title: "A title".into(),
        description: Some("desc".into()),
        tags: vec!["a".into(), "b".into()],
        language: Some("en".into()),
        original: small_media(1),
        renditions: vec![],
        captions: vec![],
        thumbnail: Some(BlobId([9; 32])),
        encryption: None,
        license: "CC-BY-4.0".into(),
        sponsorship: vec![Sponsor {
            start_ms: 0,
            end_ms: 100,
            label: "sponsor".into(),
        }],
        payment: vec![PaymentPointer(1, "asha@ln.example.net".into())],
        hints: vec![Hint(1, "https://cdn.example.net/".into())],
        channel: None,
    }
}

#[test]
fn manifest_round_trip_plaintext() {
    let m = sample_manifest();
    let record = sign(KIND_MANIFEST, m.refs(), m.to_body());
    let back = Manifest::parse(&record).unwrap();
    assert_eq!(back, m);
}

#[test]
fn manifest_round_trip_with_channel_and_rendition() {
    let mut m = sample_manifest();
    m.channel = Some(RecordId([3; 32]));
    let rendition = Rendition {
        media: small_media(2),
        bitrate: 2_800_000,
        produced_by: (author(), kp(1).public_key_bytes().to_vec()),
        derivation_sig: vec![0xaa; 64],
    };
    m.renditions.push(rendition);
    let record = sign(KIND_MANIFEST, m.refs(), m.to_body());
    let back = Manifest::parse(&record).unwrap();
    assert_eq!(back, m);
}

/// DMTAP §24.4.2: an audio-only work's `original` omits both
/// `width` and `height`; the wire encoding must not write `0` (or
/// any placeholder) at either key, and round-tripping must recover
/// exactly `None`/`None`.
#[test]
fn audio_only_media_round_trips_with_dimensions_absent_not_zero() {
    let mut m = sample_manifest();
    m.original = small_media_audio(1);
    let body = m.to_body();

    // The wire map must not carry "width"/"height" keys at all —
    // not even zero-valued ones.
    let original_map = body
        .map_get("original")
        .unwrap()
        .as_map()
        .expect("original must encode as a map");
    assert!(
        original_map
            .iter()
            .all(|(k, _)| k.as_text() != Some("width") && k.as_text() != Some("height")),
        "audio-only Media must omit width/height entirely, never write 0"
    );

    let record = sign(KIND_MANIFEST, m.refs(), body);
    let back = Manifest::parse(&record).unwrap();
    assert_eq!(back, m);
    assert_eq!(back.original.width, None);
    assert_eq!(back.original.height, None);
}

/// DMTAP §24.4.2, VID-16: exactly one of `width`/`height` present is
/// malformed and MUST be rejected — before any signature
/// verification (this is a plain parse-time structural check).
#[test]
fn media_rejects_exactly_one_of_width_height() {
    let base = small_media(1).to_value();
    let mut only_width = base.as_map().unwrap().to_vec();
    only_width.retain(|(k, _)| k.as_text() != Some("height"));
    let v = Value::Dict(only_width);
    assert!(matches!(Media::parse(&v), Err(Error::Kind(_))));

    let base = small_media(1).to_value();
    let mut only_height = base.as_map().unwrap().to_vec();
    only_height.retain(|(k, _)| k.as_text() != Some("width"));
    let v = Value::Dict(only_height);
    assert!(matches!(Media::parse(&v), Err(Error::Kind(_))));
}

#[test]
fn manifest_rejects_missing_title() {
    let body = Value::Dict(vec![
        (Value::Text("original".into()), small_media(1).to_value()),
        (
            Value::Text("license".into()),
            Value::Text("CC-BY-4.0".into()),
        ),
    ]);
    let record = sign(KIND_MANIFEST, vec![], body);
    assert!(matches!(Manifest::parse(&record), Err(Error::Kind(_))));
}

#[test]
fn manifest_rejects_more_than_one_ref() {
    let m = sample_manifest();
    let record = sign(
        KIND_MANIFEST,
        vec![
            Ref::record(RecordId([1; 32])),
            Ref::record(RecordId([2; 32])),
        ],
        m.to_body(),
    );
    assert!(matches!(Manifest::parse(&record), Err(Error::Kind(_))));
}

#[test]
fn manifest_rejects_missing_chunk_root_over_1mib() {
    let mut m = sample_manifest();
    m.original.size = (vidmesh::blob::CHUNK_SIZE as u64) + 1;
    m.original.chunk_root = None;
    let record = sign(KIND_MANIFEST, m.refs(), m.to_body());
    assert!(matches!(Manifest::parse(&record), Err(Error::Kind(_))));
}

#[test]
fn manifest_accepts_chunk_root_over_1mib() {
    let mut m = sample_manifest();
    m.original.size = (vidmesh::blob::CHUNK_SIZE as u64) + 1;
    m.original.chunk_root = Some([5; 32]);
    let record = sign(KIND_MANIFEST, m.refs(), m.to_body());
    assert!(Manifest::parse(&record).is_ok());
}

#[test]
fn manifest_requires_wrapped_key_when_encrypted() {
    let mut m = sample_manifest();
    m.encryption = Some(Encryption {
        scheme: 1,
        key_hint: None,
    });
    // original.wrapped_blob_key left None: must fail.
    let record = sign(KIND_MANIFEST, m.refs(), m.to_body());
    assert!(matches!(Manifest::parse(&record), Err(Error::Kind(_))));

    m.original.wrapped_blob_key = Some(vec![0u8; 64]);
    let record = sign(KIND_MANIFEST, m.refs(), m.to_body());
    assert!(Manifest::parse(&record).is_ok());
}

#[test]
fn manifest_rejects_wrong_length_wrapped_key() {
    let mut m = sample_manifest();
    m.encryption = Some(Encryption {
        scheme: 1,
        key_hint: None,
    });
    m.original.wrapped_blob_key = Some(vec![0u8; 10]);
    let record = sign(KIND_MANIFEST, m.refs(), m.to_body());
    assert!(matches!(Manifest::parse(&record), Err(Error::Kind(_))));
}

#[test]
fn manifest_rejects_empty_license() {
    let mut m = sample_manifest();
    m.license = String::new();
    let record = sign(KIND_MANIFEST, m.refs(), m.to_body());
    assert!(matches!(Manifest::parse(&record), Err(Error::Kind(_))));
}

#[test]
fn manifest_rejects_oversized_license() {
    let mut m = sample_manifest();
    m.license = "x".repeat(65);
    let record = sign(KIND_MANIFEST, m.refs(), m.to_body());
    assert!(matches!(Manifest::parse(&record), Err(Error::Kind(_))));
}

#[test]
fn manifest_rejects_too_many_tags() {
    let mut m = sample_manifest();
    m.tags = (0..33).map(|i| i.to_string()).collect();
    let record = sign(KIND_MANIFEST, m.refs(), m.to_body());
    assert!(matches!(Manifest::parse(&record), Err(Error::Kind(_))));
}

#[test]
fn derivation_statement_verifies_with_matching_signature() {
    let producer = kp(2);
    let original = BlobId([1; 32]);
    let media = Media {
        blob: BlobId([2; 32]),
        size: 500,
        chunk_root: None,
        codec: "avc1.640028".into(),
        duration_ms: 60_000,
        width: Some(1280),
        height: Some(720),
        wrapped_blob_key: None,
    };
    let bitrate = 2_800_000;
    let stmt = derivation_statement(
        &original,
        &media.blob,
        &media.codec,
        media.width,
        media.height,
        bitrate,
    )
    .unwrap();
    let hash = blake3::hash(&stmt);
    let mut msg = Vec::new();
    msg.extend_from_slice(&DERIVATION_SIG_PREFIX);
    msg.extend_from_slice(hash.as_bytes());
    let sig = producer.sign(&msg);
    let rendition = Rendition {
        media,
        bitrate,
        produced_by: (author(), producer.public_key_bytes().to_vec()),
        derivation_sig: sig.to_vec(),
    };
    assert!(verify_derivation(&rendition, &original).is_ok());
}

#[test]
fn derivation_statement_rejects_tampered_bitrate() {
    let producer = kp(2);
    let original = BlobId([1; 32]);
    let media = Media {
        blob: BlobId([2; 32]),
        size: 500,
        chunk_root: None,
        codec: "avc1.640028".into(),
        duration_ms: 60_000,
        width: Some(1280),
        height: Some(720),
        wrapped_blob_key: None,
    };
    let stmt = derivation_statement(
        &original,
        &media.blob,
        &media.codec,
        media.width,
        media.height,
        1000,
    )
    .unwrap();
    let hash = blake3::hash(&stmt);
    let mut msg = Vec::new();
    msg.extend_from_slice(&DERIVATION_SIG_PREFIX);
    msg.extend_from_slice(hash.as_bytes());
    let sig = producer.sign(&msg);
    // Replay the signature onto a different bitrate claim.
    let rendition = Rendition {
        media,
        bitrate: 2_800_000,
        produced_by: (author(), producer.public_key_bytes().to_vec()),
        derivation_sig: sig.to_vec(),
    };
    assert!(verify_derivation(&rendition, &original).is_err());
}

/// Byte-identity regression (DMTAP §24.4.4's closing paragraph):
/// `width`/`height` were previously REQUIRED, so every statement
/// producible under the old (video-only) text must be byte-identical
/// under the new optional-dimensions text. This locks in the exact
/// bytes captured from the pre-change implementation for a
/// 1280x720 video rendition — a change to these bytes for a
/// present-dimensions rendition would be a signature-breaking
/// regression, never an acceptable side effect of the audio work.
#[test]
fn derivation_statement_video_bytes_are_byte_identical_to_pre_optional_dimensions() {
    let original = BlobId([1; 32]);
    let rendition = BlobId([2; 32]);
    let stmt = derivation_statement(
        &original,
        &rendition,
        "avc1.640028",
        Some(1280),
        Some(720),
        2_800_000,
    )
    .unwrap();
    let expected_hex = "8658200101010101010101010101010101010101010101010101010101010101010101582002020202020202020202020202020202020202020202020202020202020202026b617663312e3634303032381905001902d01a002ab980";
    let expected: Vec<u8> = (0..expected_hex.len())
        .step_by(2)
        .map(|i| u8::from_str_radix(&expected_hex[i..i + 2], 16).unwrap())
        .collect();
    assert_eq!(
        stmt, expected,
        "video derivation statement bytes must not change under the optional-dimensions text"
    );
}

/// DMTAP §24.4.4: an audio-only rendition's derivation statement is
/// still a six-element array, with CBOR `null` (`0xf6`) at the fixed
/// `width_or_null`/`height_or_null` positions (array indices 3 and 4,
/// i.e. the 4th and 5th elements) — never omitted, never `0`.
#[test]
fn audio_only_derivation_statement_encodes_null_at_fixed_width_height_positions() {
    let original = BlobId([3; 32]);
    let rendition = BlobId([4; 32]);
    let stmt =
        derivation_statement(&original, &rendition, "opus", None, None, 128_000).unwrap();

    // Independently decode the statement and check the array shape
    // and the two null positions directly, rather than trusting
    // derivation_statement's own internals.
    let decoded = vidmesh::decode::decode_canonical(&stmt).unwrap();
    let arr = decoded.as_array().expect("statement must be an array");
    assert_eq!(arr.len(), 6, "statement must always be a six-element array");
    assert_eq!(arr[3], Value::Null, "width_or_null must be CBOR null");
    assert_eq!(arr[4], Value::Null, "height_or_null must be CBOR null");

    // And the raw bytes must contain 0xf6 (not 0x00, not an absent
    // element) at both positions — verified byte-exactly via a
    // from-scratch expected encoding.
    let expected = encode_canonical(&Value::Array(vec![
        Value::Bytes(original.as_bytes().to_vec()),
        Value::Bytes(rendition.as_bytes().to_vec()),
        Value::Text("opus".into()),
        Value::Null,
        Value::Null,
        Value::Uint(128_000),
    ]))
    .unwrap();
    assert_eq!(stmt, expected);

    let producer = kp(5);
    let media = Media {
        blob: rendition,
        size: 900_000,
        chunk_root: None,
        codec: "opus".into(),
        duration_ms: 180_000,
        width: None,
        height: None,
        wrapped_blob_key: None,
    };
    let hash = blake3::hash(&stmt);
    let mut msg = Vec::new();
    msg.extend_from_slice(&DERIVATION_SIG_PREFIX);
    msg.extend_from_slice(hash.as_bytes());
    let sig = producer.sign(&msg);
    let audio_rendition = Rendition {
        media,
        bitrate: 128_000,
        produced_by: (author(), producer.public_key_bytes().to_vec()),
        derivation_sig: sig.to_vec(),
    };
    assert!(verify_derivation(&audio_rendition, &original).is_ok());
}

/// DMTAP §24.4.4, VID-17: a verifier MUST NOT accept a shortened
/// (5-element, dimensions omitted) statement or a `0`-substituted
/// statement in place of the fixed six-element/`null` encoding —
/// `verify_derivation` always reconstructs the one canonical
/// statement and must reject a signature made over either
/// alternative.
#[test]
fn verify_derivation_rejects_shortened_or_zero_substituted_statement() {
    let producer = kp(6);
    let original = BlobId([7; 32]);
    let media = Media {
        blob: BlobId([8; 32]),
        size: 900_000,
        chunk_root: None,
        codec: "opus".into(),
        duration_ms: 180_000,
        width: None,
        height: None,
        wrapped_blob_key: None,
    };
    let bitrate = 128_000u64;

    let sign_over = |value: &Value| -> Vec<u8> {
        let stmt = encode_canonical(value).unwrap();
        let hash = blake3::hash(&stmt);
        let mut msg = Vec::new();
        msg.extend_from_slice(&DERIVATION_SIG_PREFIX);
        msg.extend_from_slice(hash.as_bytes());
        producer.sign(&msg).to_vec()
    };

    // Alternative 1: a shortened, 5-element array (dimensions
    // dropped rather than encoded as null).
    let shortened = Value::Array(vec![
        Value::Bytes(original.as_bytes().to_vec()),
        Value::Bytes(media.blob.as_bytes().to_vec()),
        Value::Text(media.codec.clone()),
        Value::Uint(bitrate),
    ]);
    let sig_shortened = sign_over(&shortened);
    let rendition_shortened = Rendition {
        media: media.clone(),
        bitrate,
        produced_by: (author(), producer.public_key_bytes().to_vec()),
        derivation_sig: sig_shortened,
    };
    assert!(verify_derivation(&rendition_shortened, &original).is_err());

    // Alternative 2: a six-element array using a `0` sentinel
    // instead of `null` for the absent dimensions.
    let zero_sub = Value::Array(vec![
        Value::Bytes(original.as_bytes().to_vec()),
        Value::Bytes(media.blob.as_bytes().to_vec()),
        Value::Text(media.codec.clone()),
        Value::Uint(0),
        Value::Uint(0),
        Value::Uint(bitrate),
    ]);
    let sig_zero = sign_over(&zero_sub);
    let rendition_zero = Rendition {
        media,
        bitrate,
        produced_by: (author(), producer.public_key_bytes().to_vec()),
        derivation_sig: sig_zero,
    };
    assert!(verify_derivation(&rendition_zero, &original).is_err());
}

#[test]
fn supersede_round_trip() {
    let s = Supersede {
        target: RecordId([4; 32]),
        target_kind: KIND_COMMENT,
        replacement_body: Value::Dict(vec![(
            Value::Text("text".into()),
            Value::Text("corrected".into()),
        )]),
    };
    let record = sign(KIND_SUPERSEDE, s.refs(), s.to_body());
    let back = Supersede::parse(&record).unwrap();
    assert_eq!(back, s);
}

#[test]
fn supersede_rejects_wrong_refs_count() {
    let body = Value::Dict(vec![
        (Value::Text("target_kind".into()), Value::Uint(32)),
        (Value::Text("body".into()), Value::Dict(vec![])),
    ]);
    let record = sign(KIND_SUPERSEDE, vec![], body);
    assert!(matches!(Supersede::parse(&record), Err(Error::Kind(_))));
}

#[test]
fn supersede_rejects_target_rotation() {
    let body = Value::Dict(vec![
        (
            Value::Text("target_kind".into()),
            Value::Uint(KIND_ROTATION),
        ),
        (Value::Text("body".into()), Value::Dict(vec![])),
    ]);
    let record = sign(
        KIND_SUPERSEDE,
        vec![Ref::record(RecordId([1; 32]))],
        body,
    );
    assert_eq!(
        Supersede::parse(&record),
        Err(Error::Kind("supersede/target-rotation"))
    );
}

#[test]
fn retract_round_trip_and_target_kind_check() {
    let r = Retract {
        target: RecordId([2; 32]),
        reason: Some("posted in error".into()),
    };
    let record = sign(KIND_RETRACT, r.refs(), r.to_body());
    let back = Retract::parse(&record).unwrap();
    assert_eq!(back, r);
    assert!(check_retract_target_kind(KIND_COMMENT).is_ok());
    assert!(check_retract_target_kind(KIND_ROTATION).is_err());
}

#[test]
fn retract_rejects_wrong_refs_count() {
    let record = sign(KIND_RETRACT, vec![], Value::Dict(vec![]));
    assert!(matches!(Retract::parse(&record), Err(Error::Kind(_))));
}

/// DMTAP §24.4.2: `"lrc"` (the timed-lyric format) is a valid
/// `Caption.format` token, alongside `"vtt"`/`"srt"`.
#[test]
fn caption_accepts_lrc_format() {
    let c = Caption {
        blob: BlobId([1; 32]),
        language: "en".into(),
        format: "lrc".into(),
        wrapped_blob_key: None,
    };
    let back = Caption::parse(&c.to_value()).unwrap();
    assert_eq!(back, c);
}

/// DMTAP §24.4.2, VID-18: `format` is a decode hint, not an enum —
/// an unrecognized token MUST NOT cause rejection of the caption (or
/// any other track); a client skips it or hands it to an external
/// handler. The kernel has no format allow-list, so an unknown token
/// parses successfully rather than being treated as malformed.
#[test]
fn caption_accepts_and_does_not_reject_unknown_format_token() {
    let c = Caption {
        blob: BlobId([2; 32]),
        language: "en".into(),
        format: "a-brand-new-future-format".into(),
        wrapped_blob_key: None,
    };
    let back = Caption::parse(&c.to_value()).unwrap();
    assert_eq!(back, c);
}

#[test]
fn mirror_round_trip() {
    let m = Mirror {
        targets: vec![Ref::record(RecordId([1; 32])), Ref::blob(BlobId([2; 32]))],
        hints: vec![Hint(3, "https://node7.example.org/blob".into())],
    };
    let record = sign(KIND_MIRROR, m.refs(), m.to_body());
    let back = Mirror::parse(&record).unwrap();
    assert_eq!(back, m);
}

#[test]
fn mirror_rejects_empty_refs() {
    let record = sign(KIND_MIRROR, vec![], Value::Dict(vec![]));
    assert!(matches!(Mirror::parse(&record), Err(Error::Kind(_))));
}

#[test]
fn similarity_round_trip() {
    let s = Similarity {
        candidate: Ref::blob(BlobId([1; 32])),
        canonical: RecordId([2; 32]),
        method: "phash-v2".into(),
        score: 9700,
    };
    let record = sign(KIND_SIMILARITY, s.refs(), s.to_body());
    let back = Similarity::parse(&record).unwrap();
    assert_eq!(back, s);
}

#[test]
fn similarity_rejects_score_overflow() {
    let body = Value::Dict(vec![
        (Value::Text("method".into()), Value::Text("phash-v2".into())),
        (Value::Text("score".into()), Value::Uint(10_001)),
    ]);
    let record = sign(
        KIND_SIMILARITY,
        vec![Ref::blob(BlobId([1; 32])), Ref::record(RecordId([2; 32]))],
        body,
    );
    assert_eq!(
        Similarity::parse(&record),
        Err(Error::Kind("similarity/score-overflow"))
    );
}

#[test]
fn similarity_rejects_wrong_refs_count() {
    let body = Value::Dict(vec![
        (Value::Text("method".into()), Value::Text("phash-v2".into())),
        (Value::Text("score".into()), Value::Uint(1)),
    ]);
    let record = sign(
        KIND_SIMILARITY,
        vec![Ref::blob(BlobId([1; 32]))],
        body,
    );
    assert!(matches!(Similarity::parse(&record), Err(Error::Kind(_))));
}

#[test]
fn similarity_rejects_non_record_second_ref() {
    let body = Value::Dict(vec![
        (Value::Text("method".into()), Value::Text("phash-v2".into())),
        (Value::Text("score".into()), Value::Uint(1)),
    ]);
    let record = sign(
        KIND_SIMILARITY,
        vec![Ref::record(RecordId([1; 32])), Ref::blob(BlobId([2; 32]))],
        body,
    );
    assert!(matches!(Similarity::parse(&record), Err(Error::Kind(_))));
}

#[test]
fn delegate_grant_round_trip() {
    let d = Delegate {
        grantee: IdentityId([9; 32]),
        capability: "rendition".into(),
        expires_at: Some(1_795_000_000),
        target: None,
    };
    let record = sign(KIND_DELEGATE, d.refs(), d.to_body());
    let back = Delegate::parse(&record).unwrap();
    assert_eq!(back, d);
}

#[test]
fn delegate_revocation_round_trip_and_cross_check() {
    let grant = Delegate {
        grantee: IdentityId([9; 32]),
        capability: "rendition".into(),
        expires_at: None,
        target: None,
    };
    let grant_record = sign(KIND_DELEGATE, grant.refs(), grant.to_body());
    let revocation = Delegate {
        grantee: grant.grantee,
        capability: grant.capability.clone(),
        expires_at: None,
        target: Some(grant_record.id()),
    };
    let rev_record = sign(
        KIND_DELEGATE,
        revocation.refs(),
        revocation.to_body(),
    );
    let back = Delegate::parse(&rev_record).unwrap();
    assert_eq!(back, revocation);

    assert!(check_delegate_revocation(
        rev_record.author_identity_id(),
        &back,
        grant_record.author_identity_id(),
        &grant,
    )
    .is_ok());

    let mismatched_grant = Delegate {
        grantee: IdentityId([1; 32]),
        ..grant
    };
    assert!(check_delegate_revocation(
        rev_record.author_identity_id(),
        &back,
        grant_record.author_identity_id(),
        &mismatched_grant,
    )
    .is_err());
}

#[test]
fn delegate_rejects_revoked_without_ref() {
    let body = Value::Dict(vec![
        (Value::Text("grantee".into()), Value::Bytes(vec![9; 32])),
        (
            Value::Text("capability".into()),
            Value::Text("rendition".into()),
        ),
        (Value::Text("revoked".into()), Value::Bool(true)),
    ]);
    let record = sign(KIND_DELEGATE, vec![], body);
    assert!(matches!(Delegate::parse(&record), Err(Error::Kind(_))));
}

#[test]
fn delegate_rejects_ref_without_revoked_flag() {
    let body = Value::Dict(vec![
        (Value::Text("grantee".into()), Value::Bytes(vec![9; 32])),
        (
            Value::Text("capability".into()),
            Value::Text("rendition".into()),
        ),
    ]);
    let record = sign(
        KIND_DELEGATE,
        vec![Ref::record(RecordId([1; 32]))],
        body,
    );
    assert!(matches!(Delegate::parse(&record), Err(Error::Kind(_))));
}

#[test]
fn ed25519_dalek_signature_import_smoke_test() {
    // Exercises the ed25519_dalek::Signature import path used by
    // verify_derivation, independent of the derivation statement
    // logic above.
    let sig = ed25519_dalek::Signature::from_bytes(&[0u8; 64]);
    assert_eq!(sig.to_bytes().len(), 64);
}

#[test]
fn rendition_clone_is_equal() {
    let r = Rendition {
        media: Media {
            blob: BlobId([7u8; 32]),
            size: 1234,
            chunk_root: Some([9u8; 32]),
            codec: "av1".to_string(),
            duration_ms: 60000,
            width: Some(1920),
            height: Some(1080),
            wrapped_blob_key: Some(vec![1, 2, 3]),
        },
        bitrate: 2_500_000,
        produced_by: (IdentityId([3u8; 32]), vec![4u8; 32]),
        derivation_sig: vec![5u8; 64],
    };
    assert_eq!(r.clone(), r);
    assert_eq!(r.media.clone(), r.media);
}

#[test]
fn manifest_errors_name_the_failed_check() {
    let body = Value::Dict(vec![
        (Value::Text("original".into()), small_media(1).to_value()),
        (Value::Text("license".into()), Value::Text("CC-BY-4.0".into())),
    ]);
    let record = sign(KIND_MANIFEST, vec![], body);
    assert_eq!(Manifest::parse(&record), Err(Error::Kind("manifest: title required")));

    let m = sample_manifest();
    let refs = vec![Ref::record(RecordId([1; 32])), Ref::record(RecordId([2; 32]))];
    let record = sign(KIND_MANIFEST, refs, m.to_body());
    assert_eq!(
        Manifest::parse(&record),
        Err(Error::Kind("manifest: refs must be empty or one channel ref"))
    );

    let mut m = sample_manifest();
    m.license = String::new();
    let record = sign(KIND_MANIFEST, m.refs(), m.to_body());
    assert_eq!(Manifest::parse(&record), Err(Error::Kind("license must be 1-64 bytes")));

    let mut m = sample_manifest();
    m.tags = (0..33).map(|i| i.to_string()).collect();
    let record = sign(KIND_MANIFEST, m.refs(), m.to_body());
    assert_eq!(Manifest::parse(&record), Err(Error::Kind("manifest: at most 32 tags")));

    let mut m = sample_manifest();
    m.encryption = Some(Encryption { scheme: 1, key_hint: None });
    let record = sign(KIND_MANIFEST, m.refs(), m.to_body());
    assert_eq!(
        Manifest::parse(&record),
        Err(Error::Kind("manifest: encrypted original must carry a 64-byte wrapped_blob_key"))
    );
}
