use vidmesh::codec::{Value, encode_canonical};
use vidmesh::decode::decode_canonical;
use vidmesh::json::{to_json, from_json};
use vidmesh::error::Error;

// -- Value helpers -----------------------------------------------

#[test]
fn from_i64_as_i64_round_trip() {
    for v in [
        0i64,
        1,
        -1,
        23,
        -24,
        255,
        -256,
        i64::MAX,
        i64::MIN,
        i64::MIN + 1,
    ] {
        assert_eq!(Value::from_i64(v).as_i64(), Some(v), "round trip for {v}");
    }
}

#[test]
fn from_i64_matches_expected_variant() {
    assert_eq!(Value::from_i64(0), Value::Uint(0));
    assert_eq!(Value::from_i64(1), Value::Uint(1));
    assert_eq!(Value::from_i64(-1), Value::Nint(0));
    assert_eq!(Value::from_i64(-24), Value::Nint(23));
    assert_eq!(Value::from_i64(-25), Value::Nint(24));
    assert_eq!(Value::from_i64(i64::MIN), Value::Nint(i64::MAX as u64));
}

#[test]
fn as_i64_rejects_out_of_range() {
    // Nint(n) with n > i64::MAX as u64 represents a value below
    // i64::MIN.
    assert_eq!(Value::Nint(i64::MAX as u64 + 1).as_i64(), None);
    assert_eq!(Value::Uint(u64::MAX).as_i64(), None);
}

#[test]
fn accessors() {
    assert_eq!(Value::Uint(5).as_u64(), Some(5));
    assert_eq!(Value::Nint(5).as_u64(), None);
    assert_eq!(Value::Bytes(vec![1, 2]).as_bytes(), Some(&[1u8, 2][..]));
    assert_eq!(Value::Text("hi".into()).as_text(), Some("hi"));
    assert_eq!(Value::Bool(true).as_bool(), Some(true));
    assert_eq!(Value::Null.as_bool(), None);
    let arr = Value::Array(vec![Value::Uint(1)]);
    assert_eq!(arr.as_array(), Some(&[Value::Uint(1)][..]));
    let map = Value::Dict(vec![(Value::Uint(1), Value::Uint(2))]);
    assert_eq!(map.as_map(), Some(&[(Value::Uint(1), Value::Uint(2))][..]));
}

#[test]
fn map_get_helpers() {
    let map = Value::Dict(vec![
        (Value::Text("a".into()), Value::Uint(1)),
        (Value::Uint(9), Value::Text("nine".into())),
    ]);
    assert_eq!(map.map_get("a"), Some(&Value::Uint(1)));
    assert_eq!(map.map_get("missing"), None);
    assert_eq!(map.map_get_int(9), Some(&Value::Text("nine".into())));
    assert_eq!(map.map_get_int(1), None);
    assert_eq!(Value::Uint(1).map_get("a"), None);
}

// -- Known-answer encodings (RFC 8949 examples) -------------------

fn enc(v: &Value) -> Vec<u8> {
    encode_canonical(v).unwrap()
}

#[test]
fn kat_small_uints() {
    assert_eq!(enc(&Value::Uint(0)), vec![0x00]);
    assert_eq!(enc(&Value::Uint(1)), vec![0x01]);
    assert_eq!(enc(&Value::Uint(23)), vec![0x17]);
    assert_eq!(enc(&Value::Uint(24)), vec![0x18, 0x18]);
    assert_eq!(enc(&Value::Uint(255)), vec![0x18, 0xff]);
    assert_eq!(enc(&Value::Uint(256)), vec![0x19, 0x01, 0x00]);
    assert_eq!(
        enc(&Value::Uint(u64::MAX)),
        vec![0x1b, 0xff, 0xff, 0xff, 0xff, 0xff, 0xff, 0xff, 0xff]
    );
}

#[test]
fn kat_negative_ints() {
    assert_eq!(enc(&Value::from_i64(-1)), vec![0x20]);
    assert_eq!(enc(&Value::from_i64(-24)), vec![0x37]);
    assert_eq!(enc(&Value::from_i64(-25)), vec![0x38, 0x18]);
}

#[test]
fn kat_text() {
    assert_eq!(enc(&Value::Text(String::new())), vec![0x60]);
    assert_eq!(enc(&Value::Text("a".into())), vec![0x61, 0x61]);
    assert_eq!(
        enc(&Value::Text("IETF".into())),
        vec![0x64, b'I', b'E', b'T', b'F']
    );
}

#[test]
fn kat_bytes() {
    assert_eq!(enc(&Value::Bytes(vec![1, 2, 3, 4])), vec![0x44, 1, 2, 3, 4]);
}

#[test]
fn kat_nested_array() {
    let v = Value::Array(vec![
        Value::Uint(1),
        Value::Array(vec![Value::Uint(2), Value::Uint(3)]),
    ]);
    assert_eq!(enc(&v), vec![0x82, 0x01, 0x82, 0x02, 0x03]);
}

#[test]
fn kat_map() {
    let v = Value::Dict(vec![
        (Value::Text("a".into()), Value::Uint(1)),
        (
            Value::Text("b".into()),
            Value::Array(vec![Value::Uint(2), Value::Uint(3)]),
        ),
    ]);
    assert_eq!(
        enc(&v),
        vec![0xa2, 0x61, 0x61, 0x01, 0x61, 0x62, 0x82, 0x02, 0x03]
    );
}

#[test]
fn bool_null() {
    assert_eq!(enc(&Value::Bool(false)), vec![0xf4]);
    assert_eq!(enc(&Value::Bool(true)), vec![0xf5]);
    assert_eq!(enc(&Value::Null), vec![0xf6]);
}

// -- Map key sorting -----------------------------------------------

#[test]
fn map_sorts_by_encoded_key_bytes_not_string_order() {
    // "b" encodes [0x61, 0x62]; "aa" encodes [0x62, 0x61, 0x61].
    // First byte 0x61 < 0x62, so "b" sorts before "aa" even though
    // "aa" < "b" lexicographically as a string.
    let v = Value::Dict(vec![
        (Value::Text("aa".into()), Value::Uint(1)),
        (Value::Text("b".into()), Value::Uint(2)),
    ]);
    let bytes = enc(&v);
    // "b" key/value: 61 62 02 ; "aa" key/value: 62 61 61 01
    let expected = vec![0xa2, 0x61, 0x62, 0x02, 0x62, 0x61, 0x61, 0x01];
    assert_eq!(bytes, expected);
}

#[test]
fn duplicate_map_key_rejected_on_encode() {
    let v = Value::Dict(vec![
        (Value::Uint(1), Value::Uint(1)),
        (Value::Uint(1), Value::Uint(2)),
    ]);
    assert!(matches!(encode_canonical(&v), Err(Error::Cbor(_))));
}

// -- Round trips -----------------------------------------------------

fn round_trip(v: &Value) {
    let bytes = encode_canonical(v).unwrap();
    let back = decode_canonical(&bytes).unwrap();
    assert_eq!(&back, v);
}

#[test]
fn round_trip_every_variant() {
    round_trip(&Value::Uint(0));
    round_trip(&Value::Uint(u64::MAX));
    round_trip(&Value::Nint(0));
    round_trip(&Value::Nint(u64::MAX));
    round_trip(&Value::Bytes(vec![]));
    round_trip(&Value::Bytes(vec![0xde, 0xad, 0xbe, 0xef]));
    round_trip(&Value::Text(String::new()));
    round_trip(&Value::Text("hello, world".into()));
    round_trip(&Value::Array(vec![]));
    round_trip(&Value::Dict(vec![]));
    round_trip(&Value::Bool(true));
    round_trip(&Value::Bool(false));
    round_trip(&Value::Null);
}

#[test]
fn round_trip_nested_structure() {
    let v = Value::Dict(vec![
        (
            Value::Uint(1),
            Value::Array(vec![Value::Uint(1), Value::Nint(0)]),
        ),
        (
            Value::Uint(2),
            Value::Dict(vec![(Value::Text("x".into()), Value::Bool(true))]),
        ),
        (Value::Uint(3), Value::Bytes(vec![1, 2, 3])),
    ]);
    round_trip(&v);
}

// -- Rejections, one per rule -----------------------------------------

fn decode_err(bytes: &[u8]) -> Error {
    decode_canonical(bytes).expect_err("expected rejection")
}

#[test]
fn rejects_trailing_byte() {
    let mut bytes = encode_canonical(&Value::Uint(0)).unwrap();
    bytes.push(0x00);
    assert!(matches!(decode_err(&bytes), Error::Cbor(_)));
}

#[test]
fn rejects_truncated_input() {
    assert!(matches!(decode_err(&[0x18]), Error::Cbor(_)));
    assert!(matches!(decode_err(&[]), Error::Cbor(_)));
}

#[test]
fn rejects_indefinite_array() {
    assert!(matches!(decode_err(&[0x9f]), Error::NonCanonical(_)));
}

#[test]
fn rejects_floats() {
    assert!(matches!(
        decode_err(&[0xf9, 0x00, 0x00]),
        Error::NonCanonical(_)
    ));
    assert!(matches!(
        decode_err(&[0xfa, 0, 0, 0, 0]),
        Error::NonCanonical(_)
    ));
    assert!(matches!(
        decode_err(&[0xfb, 0, 0, 0, 0, 0, 0, 0, 0]),
        Error::NonCanonical(_)
    ));
}

#[test]
fn rejects_tag() {
    assert!(matches!(decode_err(&[0xc0, 0x00]), Error::NonCanonical(_)));
}

#[test]
fn rejects_undefined() {
    assert!(matches!(decode_err(&[0xf7]), Error::NonCanonical(_)));
}

#[test]
fn rejects_non_shortest_uint() {
    // 24 encoded via the 1-byte-argument form with argument 1 (should
    // have been the inline form 0x01).
    assert!(matches!(decode_err(&[0x18, 0x01]), Error::NonCanonical(_)));
    // 23 widened to the 1-byte-argument form (0x1817 in the task's
    // notation): argument 23 < 24, so the 1-byte form was unnecessary.
    assert!(matches!(decode_err(&[0x18, 0x17]), Error::NonCanonical(_)));
}

#[test]
fn rejects_non_shortest_length() {
    // Byte string of length 5 spelled with a 2-byte length argument
    // instead of the inline form.
    let mut bytes = vec![0x59, 0x00, 0x05];
    bytes.extend_from_slice(&[0u8; 5]);
    assert!(matches!(decode_err(&bytes), Error::NonCanonical(_)));
}

#[test]
fn rejects_unsorted_map() {
    // {"b": 2, "a": 1} in that (wrong) order.
    let bytes = vec![0xa2, 0x61, 0x62, 0x02, 0x61, 0x61, 0x01];
    assert!(matches!(decode_err(&bytes), Error::NonCanonical(_)));
}

#[test]
fn rejects_duplicate_key() {
    // {1: 1, 1: 2}
    let bytes = vec![0xa2, 0x01, 0x01, 0x01, 0x02];
    assert!(matches!(decode_err(&bytes), Error::NonCanonical(_)));
}

#[test]
fn rejects_bad_utf8_text() {
    // Text of length 1 containing an invalid UTF-8 byte.
    let bytes = vec![0x61, 0xff];
    assert!(matches!(decode_err(&bytes), Error::Cbor(_)));
}

#[test]
fn rejects_excess_nesting_depth() {
    // 65 nested one-element arrays around a Uint(0): the innermost
    // scalar is parsed at depth 65, which exceeds the limit of 64.
    let mut bytes = vec![0x00u8];
    for _ in 0..65 {
        let mut wrapped = vec![0x81u8];
        wrapped.extend_from_slice(&bytes);
        bytes = wrapped;
    }
    assert!(matches!(decode_err(&bytes), Error::Cbor(_)));
}

#[test]
fn accepts_exactly_64_nesting_depth() {
    let mut bytes = vec![0x00u8];
    for _ in 0..64 {
        let mut wrapped = vec![0x81u8];
        wrapped.extend_from_slice(&bytes);
        bytes = wrapped;
    }
    assert!(decode_canonical(&bytes).is_ok());
}

#[test]
fn rejects_length_exceeding_remaining_input() {
    // Byte string head claiming an 8-byte length of u64::MAX, with no
    // data following at all.
    let bytes = vec![0x5b, 0xff, 0xff, 0xff, 0xff, 0xff, 0xff, 0xff, 0xff];
    assert!(matches!(decode_err(&bytes), Error::Cbor(_)));
}

// -- JSON ------------------------------------------------------------

fn json_round_trip(v: &Value) {
    let json = to_json(v);
    let back = from_json(&json).unwrap();
    assert_eq!(&back, v, "json was: {json}");
}

#[test]
fn json_round_trip_scalars() {
    json_round_trip(&Value::Uint(0));
    json_round_trip(&Value::Uint(u64::MAX));
    json_round_trip(&Value::from_i64(-1));
    json_round_trip(&Value::from_i64(i64::MIN));
    json_round_trip(&Value::Bool(true));
    json_round_trip(&Value::Bool(false));
    json_round_trip(&Value::Null);
    json_round_trip(&Value::Text("hello".into()));
    json_round_trip(&Value::Text(String::new()));
    json_round_trip(&Value::Bytes(vec![0xde, 0xad, 0xbe, 0xef]));
    json_round_trip(&Value::Bytes(vec![]));
}

#[test]
fn json_hex_disambiguation_round_trips() {
    // A real byte string.
    let bytes = Value::Bytes(vec![0xde, 0xad, 0xbe, 0xef]);
    assert_eq!(to_json(&bytes), "\"hex:deadbeef\"");
    json_round_trip(&bytes);

    // Text that happens to start with "hex:" must not be confused
    // with a byte string.
    let text = Value::Text("hex:deadbeef".into());
    assert_eq!(to_json(&text), "\"txt:hex:deadbeef\"");
    json_round_trip(&text);

    // Text that happens to start with "txt:" likewise.
    let text2 = Value::Text("txt:something".into());
    assert_eq!(to_json(&text2), "\"txt:txt:something\"");
    json_round_trip(&text2);
}

#[test]
fn json_integer_and_text_map_keys_disambiguated() {
    // A genuine integer key renders unescaped.
    let int_keyed = Value::Dict(vec![(Value::Uint(5), Value::Bool(true))]);
    assert_eq!(to_json(&int_keyed), "{\"5\":true}");
    json_round_trip(&int_keyed);

    // A text key that looks like a decimal integer must be escaped so
    // it does not collide with a genuine integer key on decode.
    let text_keyed = Value::Dict(vec![(Value::Text("5".into()), Value::Bool(true))]);
    assert_eq!(to_json(&text_keyed), "{\"txt:5\":true}");
    json_round_trip(&text_keyed);

    // Negative-integer key vs. lookalike text key.
    let neg_int_keyed = Value::Dict(vec![(Value::from_i64(-3), Value::Null)]);
    json_round_trip(&neg_int_keyed);
    let neg_text_keyed = Value::Dict(vec![(Value::Text("-3".into()), Value::Null)]);
    assert_eq!(to_json(&neg_text_keyed), "{\"txt:-3\":null}");
    json_round_trip(&neg_text_keyed);

    // Leading-zero text keys are never ambiguous (never produced by
    // the integer-key path), so they pass through unescaped.
    let leading_zero_text = Value::Dict(vec![(Value::Text("007".into()), Value::Null)]);
    assert_eq!(to_json(&leading_zero_text), "{\"007\":null}");
    json_round_trip(&leading_zero_text);
}

#[test]
fn json_nested_and_arrays() {
    let v = Value::Dict(vec![
        (Value::Text("text".into()), Value::Text("hi".into())),
        (
            Value::Uint(4),
            Value::Array(vec![Value::Array(vec![
                Value::Uint(0),
                Value::Bytes(vec![0xaa; 32]),
            ])]),
        ),
    ]);
    json_round_trip(&v);
}

#[test]
fn json_rejects_float() {
    assert!(matches!(from_json("1.5"), Err(Error::Cbor(_))));
}

#[test]
fn json_rejects_exponent() {
    assert!(matches!(from_json("1e5"), Err(Error::Cbor(_))));
    assert!(matches!(from_json("1E5"), Err(Error::Cbor(_))));
}

#[test]
fn json_rejects_leading_zero() {
    assert!(matches!(from_json("01"), Err(Error::Cbor(_))));
    assert!(matches!(from_json("-01"), Err(Error::Cbor(_))));
}

#[test]
fn json_rejects_negative_zero() {
    assert!(matches!(from_json("-0"), Err(Error::Cbor(_))));
}

#[test]
fn json_rejects_bad_escape() {
    assert!(matches!(from_json("\"\\q\""), Err(Error::Cbor(_))));
}

#[test]
fn json_rejects_lone_surrogate() {
    assert!(matches!(from_json("\"\\uD800\""), Err(Error::Cbor(_))));
    assert!(matches!(from_json("\"\\uDC00\""), Err(Error::Cbor(_))));
}

#[test]
fn json_accepts_surrogate_pair() {
    // U+1F600 GRINNING FACE as a surrogate pair.
    let v = from_json("\"\\uD83D\\uDE00\"").unwrap();
    assert_eq!(v, Value::Text("\u{1F600}".to_string()));
}

#[test]
fn json_rejects_trailing_data() {
    assert!(matches!(from_json("1 2"), Err(Error::Cbor(_))));
}

#[test]
fn json_rejects_out_of_range_numbers() {
    // u64::MAX + 1
    assert!(matches!(
        from_json("18446744073709551616"),
        Err(Error::Cbor(_))
    ));
    // Negative numbers are restricted to i64 range even though u64::MAX
    // magnitude would otherwise be representable as an Nint.
    assert!(matches!(
        from_json("-9223372036854775809"),
        Err(Error::Cbor(_))
    ));
    assert!(from_json("-9223372036854775808").is_ok());
}

#[test]
fn json_rejects_duplicate_object_key() {
    assert!(matches!(
        from_json("{\"a\":1,\"a\":2}"),
        Err(Error::Cbor(_))
    ));
}

#[test]
fn json_rejects_depth_exceeding_limit() {
    let mut s = String::new();
    for _ in 0..66 {
        s.push('[');
    }
    s.push('0');
    for _ in 0..66 {
        s.push(']');
    }
    assert!(matches!(from_json(&s), Err(Error::Cbor(_))));
}

#[test]
fn json_non_round_trippable_record_example() {
    // Spec 001 §11 test-vector group `json/` requires a JSON fixture
    // that must fail to round-trip to canonical CBOR. A float value
    // anywhere in the document cannot be represented, so it is
    // rejected at parse time rather than silently coerced.
    assert!(from_json("{\"1\":1.0}").is_err());
}

#[test]
fn unsupported_key_renders_debug_form() {
    let v = Value::Dict(vec![(
        Value::Array(vec![Value::Uint(1), Value::Text("a".into()), Value::Dict(vec![(Value::Bool(true), Value::Null)])]),
        Value::Null,
    )]);
    assert_eq!(
        vidmesh::json::to_json(&v),
        r#"{"unsupported-key:Array([Uint(1), Text(\"a\"), Map([(Bool(true), Null)])])":null}"#
    );
    assert_eq!(vidmesh::debug_form::debug_string(&Value::Bytes(vec![0, 255])), "Bytes([0, 255])");
}

#[test]
fn decode_error_kinds_follow_the_fault() {
    let non_canonical: [&[u8]; 6] = [
        &[0x18, 0x17],
        &[0x9f],
        &[0xf9, 0x00, 0x00],
        &[0xc0, 0x00],
        &[0xa2, 0x61, 0x62, 0x02, 0x61, 0x61, 0x01],
        &[0x82, 0x01, 0x18, 0x05],
    ];
    for b in non_canonical {
        assert!(matches!(decode_canonical(b), Err(Error::NonCanonical(_))), "{b:?}");
    }
    assert_eq!(decode_canonical(&[0x00, 0x00]), Err(Error::Cbor("trailing bytes after value")));
    let malformed: [&[u8]; 4] = [
        &[0x5b, 0xff, 0xff, 0xff, 0xff, 0xff, 0xff, 0xff, 0xff],
        &[0x83, 0x01],
        &[0x62, 0x61],
        &[],
    ];
    for b in malformed {
        assert!(matches!(decode_canonical(b), Err(Error::Cbor(_))), "{b:?}");
    }
}

#[test]
fn into_canonical_keeps_encoding_and_decodes_back() {
    let v = Value::Dict(vec![
        (Value::Text("zz".to_string()), Value::Array(vec![Value::Dict(vec![
            (Value::Uint(9), Value::Null),
            (Value::Uint(1), Value::Bool(true)),
        ])])),
        (Value::Uint(3), Value::Bytes(vec![1, 2])),
        (Value::Text("a".to_string()), Value::Uint(0)),
    ]);
    let w = v.clone().into_canonical();
    let bytes = encode_canonical(&v).unwrap();
    assert_eq!(encode_canonical(&w).unwrap(), bytes);
    assert_eq!(w.clone().into_canonical(), w);
    assert_eq!(decode_canonical(&bytes), Ok(w));
}

#[test]
fn encode_canonical_ignores_entry_order() {
    let a = (Value::Text("b".to_string()), Value::Uint(2));
    let b = (Value::Uint(7), Value::Null);
    let c = (Value::Text("a".to_string()), Value::Bytes(vec![1]));
    let one = encode_canonical(&Value::Dict(vec![a.clone(), b.clone(), c.clone()])).unwrap();
    let two = encode_canonical(&Value::Dict(vec![c.clone(), a.clone(), b.clone()])).unwrap();
    assert_eq!(one, two);
    let dup = Value::Dict(vec![a.clone(), c, (Value::Text("b".to_string()), Value::Uint(3))]);
    assert_eq!(encode_canonical(&dup), Err(Error::Cbor("duplicate map key")));
}

#[test]
fn non_canonical_items_inside_arrays_are_named() {
    let nested: [&[u8]; 3] = [
        &[0x82, 0x01, 0xc0, 0x00],
        &[0x81, 0x81, 0xf9, 0x00, 0x00],
        &[0x82, 0x00, 0xa2, 0x61, 0x62, 0x02, 0x61, 0x61, 0x01],
    ];
    for b in nested {
        assert!(matches!(decode_canonical(b), Err(Error::NonCanonical(_))), "{b:?}");
    }
}
