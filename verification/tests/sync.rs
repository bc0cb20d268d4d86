use vidmesh::codec::Value;
use vidmesh::error::Error;
use vidmesh::filter::Filter;
use vidmesh::frames::{ClientFrame, RelayFrame};
use vidmesh::ids::IdentityId;
use vidmesh::keys::Keypair;
use vidmesh::pow::difficulty;
use vidmesh::record::{Record, RecordBuilder, Ref};
use vidmesh::relay::{AcceptedRecord, InsertOutcome, StoredRecord};
use vidmesh::sync::{
    accepted_record, admit_record, backfill_frames, check_pub, gossip_request, next_backoff, peer_record,
    pub_answer, pub_begin, pub_rate, pub_stored, IngestError, PubNext, PubOutcome, Subscriptions,
    DEFAULT_BACKFILL_LIMIT,
};
use vidmesh::config::retention_key;

fn record() -> Record {
    RecordBuilder::new(32)
        .created_at(10)
        .add_ref(Ref { ref_type: 0, hash: [5; 32] })
        .body(Value::Dict(vec![(Value::Text("text".into()), Value::Text("hi".into()))]))
        .sign_as(&Keypair::from_secret_bytes(&[3; 32]), IdentityId([4; 32]))
        .unwrap()
}

fn refusal(frame: RelayFrame) -> ([u8; 32], String) {
    match frame {
        RelayFrame::Ack { id, accepted, reason } => {
            assert!(!accepted);
            (id, reason)
        }
        other => panic!("expected a refusal, got {other:?}"),
    }
}

#[test]
fn pub_of_garbage_is_refused_with_the_zero_id() {
    let (id, reason) = refusal(check_pub(&[0xff, 0x00], None, 0).unwrap_err());
    assert_eq!(id, [0u8; 32]);
    assert!(reason.starts_with("invalid envelope: "));
}

#[test]
fn pub_with_bad_signature_is_refused_with_its_id() {
    let r = record();
    let mut v = r.to_value(true);
    if let Value::Dict(ref mut es) = v {
        for e in es.iter_mut() {
            if e.0 == Value::Uint(7) {
                e.1 = Value::Bytes(vec![0; 64]);
            }
        }
    }
    let bytes = vidmesh::codec::encode_canonical(&v).unwrap();
    let (id, reason) = refusal(check_pub(&bytes, None, 0).unwrap_err());
    assert_eq!(id, r.id().0);
    assert_eq!(reason, "verification failed: signature verification failed");
}

#[test]
fn pub_without_enough_work_is_refused_for_pow() {
    let r = record();
    let bytes = r.to_canonical_cbor();
    let (id, reason) = refusal(check_pub(&bytes, None, 8).unwrap_err());
    assert_eq!(id, r.id().0);
    assert_eq!(reason, "pow");
    let mut nonce = 0u64;
    while difficulty(&r.id().0, nonce) < 4 {
        nonce += 1;
    }
    assert_eq!(check_pub(&bytes, Some(nonce), 4).unwrap(), r);
    assert_eq!(check_pub(&bytes, None, 0).unwrap(), r);
}

#[test]
fn pub_answers_follow_the_outcome() {
    let id = [7u8; 32];
    assert_eq!(
        pub_answer(&id, PubOutcome::RateLimited),
        RelayFrame::Ack { id, accepted: false, reason: "rate".into() }
    );
    assert_eq!(
        pub_answer(&id, PubOutcome::Stored(InsertOutcome::Duplicate)),
        RelayFrame::Ack { id, accepted: true, reason: String::new() }
    );
    assert_eq!(
        pub_answer(&id, PubOutcome::Stored(InsertOutcome::Inserted(3))),
        RelayFrame::Ack { id, accepted: true, reason: String::new() }
    );
    assert_eq!(
        pub_answer(&id, PubOutcome::StoreFailed),
        RelayFrame::Ack { id, accepted: false, reason: "internal error".into() }
    );
}

#[test]
fn only_a_new_record_is_announced() {
    let r = record();
    let bytes = r.to_canonical_cbor();
    assert!(accepted_record(&r, bytes.clone(), InsertOutcome::Duplicate).is_none());
    let a = accepted_record(&r, bytes.clone(), InsertOutcome::Inserted(42)).unwrap();
    assert_eq!(a.id, r.id().0);
    assert_eq!(a.kind, 32);
    assert_eq!(a.author, [4; 32]);
    assert_eq!(a.ref_hashes, vec![[5; 32]]);
    assert_eq!(a.seq, 42);
    assert_eq!(a.bytes, bytes);
}

#[test]
fn peer_frames_other_than_rec_contribute_nothing() {
    let eose = RelayFrame::Eose { sub_id: "s".into() };
    assert!(peer_record(&eose).unwrap().is_none());
    let r = record();
    let rec = RelayFrame::Rec { sub_id: "gossip".into(), seq: 1, record_bytes: r.to_canonical_cbor() };
    assert_eq!(peer_record(&rec).unwrap().unwrap(), r);
    let junk = RelayFrame::Rec { sub_id: "gossip".into(), seq: 2, record_bytes: vec![1, 2, 3] };
    let err = peer_record(&junk).unwrap_err();
    assert!(matches!(err, IngestError::Envelope(_)));
    assert!(err.message().starts_with("invalid envelope: "));
    assert_eq!(
        IngestError::Verification(Error::Signature).message(),
        "verification failed: signature verification failed"
    );
    assert!(admit_record(&[]).is_err());
}

#[test]
fn subscriptions_replace_close_and_deliver() {
    let r = record();
    let a = AcceptedRecord {
        id: r.id().0,
        kind: 32,
        author: [4; 32],
        ref_hashes: vec![[5; 32]],
        seq: 9,
        bytes: vec![1, 2],
    };
    let mut subs = Subscriptions::new();
    subs.insert("all".into(), Filter::default());
    subs.insert("other".into(), Filter { kinds: Some(vec![1]), ..Default::default() });
    subs.insert("mine".into(), Filter { authors: Some(vec![[4; 32]]), ..Default::default() });
    assert_eq!(subs.len(), 3);
    let frames = subs.live_frames(&a);
    assert_eq!(
        frames,
        vec![
            RelayFrame::Rec { sub_id: "all".into(), seq: 9, record_bytes: vec![1, 2] },
            RelayFrame::Rec { sub_id: "mine".into(), seq: 9, record_bytes: vec![1, 2] },
        ]
    );
    // REQ with an existing id replaces it, and it moves last.
    subs.insert("all".into(), Filter { since: Some(9), ..Default::default() });
    assert_eq!(subs.len(), 3);
    assert_eq!(
        subs.live_frames(&a),
        vec![RelayFrame::Rec { sub_id: "mine".into(), seq: 9, record_bytes: vec![1, 2] }]
    );
    // CLOSE stops delivery.
    subs.remove("mine");
    subs.remove("never-opened");
    assert_eq!(subs.len(), 2);
    assert!(subs.live_frames(&a).is_empty());
}

#[test]
fn backfill_sends_each_row_then_eose() {
    let rows = vec![StoredRecord { seq: 1, bytes: vec![1] }, StoredRecord { seq: 5, bytes: vec![5, 5] }];
    assert_eq!(
        backfill_frames("s1", &rows),
        vec![
            RelayFrame::Rec { sub_id: "s1".into(), seq: 1, record_bytes: vec![1] },
            RelayFrame::Rec { sub_id: "s1".into(), seq: 5, record_bytes: vec![5, 5] },
            RelayFrame::Eose { sub_id: "s1".into() },
        ]
    );
    assert_eq!(backfill_frames("e", &[]), vec![RelayFrame::Eose { sub_id: "e".into() }]);
    assert_eq!(DEFAULT_BACKFILL_LIMIT, 500);
}

#[test]
fn gossip_reconnect_backoff_doubles_up_to_a_minute() {
    assert_eq!(next_backoff(1), 2);
    assert_eq!(next_backoff(16), 32);
    assert_eq!(next_backoff(32), 60);
    assert_eq!(next_backoff(60), 60);
    assert_eq!(
        gossip_request(),
        ClientFrame::Req { sub_id: "gossip".into(), filter: Filter::default() }
    );
}

#[test]
fn retention_keys_name_known_kinds() {
    assert_eq!(retention_key(113), "live.chat_days");
    assert_eq!(retention_key(1), "rotation_days");
    assert_eq!(retention_key(9999), "kind9999_days");
}

#[test]
fn pub_flow_runs_checks_then_rate_then_store() {
    let r = record();
    let bytes = r.to_canonical_cbor();
    // Garbage is answered at once; the limiter is never asked.
    match pub_begin(vec![0xff, 0x00], None, 0) {
        PubNext::Finish { answer, announce } => {
            assert_eq!(refusal(answer).0, [0u8; 32]);
            assert!(announce.is_none());
        }
        other => panic!("expected an answer, got {other:?}"),
    }
    // A valid record goes to the rate limiter for its author.
    let flow = match pub_begin(bytes.clone(), None, 0) {
        PubNext::CheckRate { author, flow } => {
            assert_eq!(author, [4; 32]);
            flow
        }
        other => panic!("expected a rate check, got {other:?}"),
    };
    // Refused by the limiter.
    match pub_rate(flow, false) {
        PubNext::Finish { answer, announce } => {
            assert_eq!(refusal(answer), (r.id().0, "rate".to_string()));
            assert!(announce.is_none());
        }
        other => panic!("expected an answer, got {other:?}"),
    }
    // Allowed, inserted, announced.
    let flow = match pub_begin(bytes.clone(), None, 0) {
        PubNext::CheckRate { flow, .. } => flow,
        other => panic!("expected a rate check, got {other:?}"),
    };
    let flow = match pub_rate(flow, true) {
        PubNext::Insert { flow } => flow,
        other => panic!("expected an insert, got {other:?}"),
    };
    match pub_stored(flow, Some(InsertOutcome::Inserted(7))) {
        PubNext::Finish { answer, announce } => {
            assert_eq!(answer, RelayFrame::Ack { id: r.id().0, accepted: true, reason: String::new() });
            let a = announce.unwrap();
            assert_eq!(a.seq, 7);
            assert_eq!(a.bytes, bytes);
        }
        other => panic!("expected an answer, got {other:?}"),
    }
}
