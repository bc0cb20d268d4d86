use vidmesh::frames::{
    ClientFrame, RelayFrame, FrameError, Value, encode_value_to_vec, encode_head, encode_value,
    decode_value_complete, encode_chunk_proof,
};
use vidmesh::filter::Filter;


#[test]
fn req_round_trip() {
    let frame = ClientFrame::Req {
        sub_id: "sub1".to_string(),
        filter: Filter {
            kinds: Some(vec![1, 2]),
            authors: Some(vec![[7u8; 32]]),
            refs: None,
            ids: None,
            since: Some(42),
            limit: Some(10),
        },
    };
    let bytes = frame.encode();
    let decoded = ClientFrame::decode(&bytes).unwrap();
    assert_eq!(decoded, frame);
}

#[test]
fn close_round_trip() {
    let frame = ClientFrame::Close {
        sub_id: "abc".to_string(),
    };
    assert_eq!(ClientFrame::decode(&frame.encode()).unwrap(), frame);
}

#[test]
fn pub_round_trip_with_and_without_nonce() {
    let with_nonce = ClientFrame::Pub {
        record_bytes: vec![1, 2, 3],
        nonce: Some(9999),
    };
    assert_eq!(
        ClientFrame::decode(&with_nonce.encode()).unwrap(),
        with_nonce
    );

    let without_nonce = ClientFrame::Pub {
        record_bytes: vec![],
        nonce: None,
    };
    assert_eq!(
        ClientFrame::decode(&without_nonce.encode()).unwrap(),
        without_nonce
    );
}

#[test]
fn rec_eose_ok_closed_round_trip() {
    let rec = RelayFrame::Rec {
        sub_id: "s".to_string(),
        seq: 7,
        record_bytes: vec![9, 9, 9],
    };
    assert_eq!(RelayFrame::decode(&rec.encode()).unwrap(), rec);

    let eose = RelayFrame::Eose {
        sub_id: "s".to_string(),
    };
    assert_eq!(RelayFrame::decode(&eose.encode()).unwrap(), eose);

    let ok = RelayFrame::Ack {
        id: [3u8; 32],
        accepted: true,
        reason: String::new(),
    };
    assert_eq!(RelayFrame::decode(&ok.encode()).unwrap(), ok);

    let closed = RelayFrame::Closed {
        sub_id: "s".to_string(),
        reason: "rate".to_string(),
    };
    assert_eq!(RelayFrame::decode(&closed.encode()).unwrap(), closed);
}

#[test]
fn unknown_tag_is_reported_not_panicked() {
    let value = Value::Array(vec![Value::Text("NOPE".to_string())]);
    let bytes = encode_value_to_vec(&value);
    match ClientFrame::decode(&bytes) {
        Err(FrameError::UnknownFrameTag(t)) => assert_eq!(t, "NOPE"),
        other => panic!("expected UnknownFrameTag, got {other:?}"),
    }
}

#[test]
fn truncated_input_errors_cleanly() {
    // A REQ frame's head byte claiming 3 array elements but with no
    // payload must error, not panic or read out of bounds.
    let mut buf = Vec::new();
    encode_head(&mut buf, 4, 3);
    assert_eq!(ClientFrame::decode(&buf), Err(FrameError::Truncated));
}

#[test]
fn non_minimal_length_is_rejected() {
    // Encode the text "REQ" length (3) using the 1-byte-length form
    // (major 3, additional info 24) instead of the minimal small
    // immediate form: non-canonical, must be rejected.
    let mut buf = vec![(3u8 << 5) | 24, 3];
    buf.extend_from_slice(b"REQ");
    let mut frame_buf = Vec::new();
    encode_head(&mut frame_buf, 4, 1);
    frame_buf.extend_from_slice(&buf);
    assert_eq!(
        decode_value_complete(&frame_buf),
        Err(FrameError::NonCanonical("1-byte length not minimal"))
    );
}

#[test]
fn unsorted_map_keys_are_rejected() {
    // Build a 2-entry map with keys "b" then "a" (wrong order).
    let mut buf = Vec::new();
    encode_head(&mut buf, 5, 2);
    encode_value(&mut buf, &Value::Text("b".to_string()));
    encode_value(&mut buf, &Value::Uint(1));
    encode_value(&mut buf, &Value::Text("a".to_string()));
    encode_value(&mut buf, &Value::Uint(2));
    assert_eq!(
        decode_value_complete(&buf),
        Err(FrameError::NonCanonical("map keys not strictly sorted"))
    );
}

#[test]
fn chunk_proof_encodes_as_index_and_sibling_array() {
    let bytes = encode_chunk_proof(3, &[[1u8; 32], [2u8; 32]]);
    let value = decode_value_complete(&bytes).unwrap();
    let arr = value.as_array().unwrap();
    assert_eq!(arr.len(), 2);
    assert_eq!(arr[0].as_uint(), Some(3));
    let siblings = arr[1].as_array().unwrap();
    assert_eq!(siblings.len(), 2);
    assert_eq!(siblings[0].as_bytes32(), Some([1u8; 32]));
    assert_eq!(siblings[1].as_bytes32(), Some([2u8; 32]));
}

#[test]
fn sub_id_over_64_bytes_rejected() {
    let long = "x".repeat(65);
    let frame = ClientFrame::Close { sub_id: long };
    let bytes = frame.encode();
    assert!(matches!(
        ClientFrame::decode(&bytes),
        Err(FrameError::BadShape(_))
    ));
}

#[test]
fn decode_errors_are_exact() {
    assert_eq!(
        ClientFrame::decode(&[0x81, 0x64, 0x4e, 0x4f, 0x50, 0x45]).unwrap_err(),
        FrameError::UnknownFrameTag("NOPE".to_string())
    );
    let long = "x".repeat(65);
    let f = ClientFrame::Close { sub_id: long };
    assert_eq!(ClientFrame::decode(&f.encode()).unwrap_err(), FrameError::BadShape("sub_id exceeds 64 bytes"));
    assert_eq!(FrameError::UnknownFrameTag("NOPE".to_string()).message(), "unknown frame tag \"NOPE\"");
}

#[test]
fn every_proper_prefix_of_a_frame_is_truncated() {
    let frame = ClientFrame::Pub { record_bytes: vec![1, 2, 3, 4, 5], nonce: Some(300) };
    let bytes = frame.encode();
    for cut in 0..bytes.len() {
        assert_eq!(ClientFrame::decode(&bytes[..cut]), Err(FrameError::Truncated), "cut at {cut}");
    }
    let eose = RelayFrame::Eose { sub_id: "abc".to_string() }.encode();
    assert_eq!(RelayFrame::decode(&eose[..eose.len() - 1]), Err(FrameError::Truncated));
}
