use vidmesh::bindings::{
    BlobHasher, BindingError, WasmKeypair, build_record, genesis_record, hash_blob as binding_hash_blob,
    parse_recovery, record_from_json, record_id, record_to_json, rotate_record, sign_derivation, validate_kind,
    verify_chain, verify_chunk, verify_record,
};
use vidmesh::blob::{hash_blob, ChunkTree, CHUNK_SIZE};
use vidmesh::error::Error;
use vidmesh::ids::hex_bytes;
use vidmesh::record::Record;

#[test]
fn blob_hasher_matches_kernel() {
    let data = vec![7u8; CHUNK_SIZE + 123];
    let mut h = BlobHasher::new();
    h.update(&data[..1000]).unwrap();
    h.update(&data[1000..]).unwrap();
    h.finalize().unwrap();
    assert_eq!(h.id_hex().unwrap(), hash_blob(&data).to_hex());
    let tree = ChunkTree::from_bytes(&data);
    assert_eq!(h.chunk_root_hex().unwrap(), tree.root().map(|r| hex_bytes(&r)));
    assert_eq!(h.n_chunks(), 2);
}

#[test]
fn blob_hasher_empty() {
    let mut h = BlobHasher::new();
    h.finalize().unwrap();
    assert_eq!(h.n_chunks(), 0);
    assert_eq!(h.chunk_root_hex().unwrap(), None);
}

#[test]
fn blob_hasher_refuses_use_out_of_order() {
    let mut h = BlobHasher::new();
    assert_eq!(h.id_hex(), Err(BindingError::Argument("call finalize first")));
    assert_eq!(h.chunk_root_hex(), Err(BindingError::Argument("call finalize first")));
    h.update(b"abc").unwrap();
    assert_eq!(h.size(), 3);
    h.finalize().unwrap();
    assert_eq!(h.finalize(), Err(BindingError::Argument("hasher already finalized")));
    assert_eq!(h.update(b"d"), Err(BindingError::Argument("hasher already finalized")));
    assert_eq!(h.size(), 3);
    assert_eq!(h.id_hex().unwrap(), hash_blob(b"abc").to_hex());
}

#[test]
fn blob_hasher_exact_chunk_boundary() {
    let data = vec![1u8; 2 * CHUNK_SIZE];
    let mut h = BlobHasher::new();
    for piece in data.chunks(CHUNK_SIZE / 2 + 7) {
        h.update(piece).unwrap();
    }
    assert_eq!(h.n_chunks(), 2);
    h.finalize().unwrap();
    assert_eq!(h.n_chunks(), 2);
    let tree = ChunkTree::from_bytes(&data);
    assert_eq!(h.chunk_root_hex().unwrap(), tree.root().map(|r| hex_bytes(&r)));
}

fn keypair(seed: u8) -> WasmKeypair {
    WasmKeypair::from_secret(&[seed; 32]).unwrap()
}

#[test]
fn keypair_from_secret_checks_length() {
    assert_eq!(
        WasmKeypair::from_secret(&[1; 31]).err(),
        Some(BindingError::Argument("secret must be exactly 32 bytes"))
    );
    let k = keypair(3);
    assert_eq!(k.secret(), vec![3; 32]);
    assert_eq!(k.public_key().len(), 32);
}

#[test]
fn build_record_round_trips_through_the_kernel() {
    let k = keypair(4);
    let refs = format!("[[1,\"hex:{}\"]]", "ab".repeat(32));
    let bytes = build_record(&k, &[2; 32], 32, 1000, &refs, "{\"text\":\"hi\"}").unwrap();
    verify_record(&bytes).unwrap();
    let r = Record::from_cbor(&bytes).unwrap();
    assert_eq!(r.kind(), 32);
    assert_eq!(r.created_at(), 1000);
    assert_eq!(r.refs().len(), 1);
    assert_eq!(r.refs()[0].ref_type, 1);
    assert_eq!(r.refs()[0].hash, [0xab; 32]);
    assert_eq!(record_id(&bytes).unwrap(), r.id().0.to_vec());
    let json = record_to_json(&bytes).unwrap();
    assert_eq!(record_from_json(&json).unwrap(), bytes);
}

#[test]
fn build_record_reports_each_bad_argument() {
    let k = keypair(4);
    assert_eq!(
        build_record(&k, &[2; 31], 32, 0, "[]", "{}"),
        Err(BindingError::Argument("identity_id must be exactly 32 bytes"))
    );
    assert_eq!(
        build_record(&k, &[2; 32], 32, 0, "{}", "{}"),
        Err(BindingError::Argument("refs must be a JSON array"))
    );
    assert_eq!(
        build_record(&k, &[2; 32], 32, 0, "[[0]]", "{}"),
        Err(BindingError::Argument("each ref must be [type, hash]"))
    );
    assert_eq!(
        build_record(&k, &[2; 32], 32, 0, "[[2,\"hex:00\"]]", "{}"),
        Err(BindingError::Argument("ref type must be 0 or 1"))
    );
    assert_eq!(
        build_record(&k, &[2; 32], 32, 0, "[[0,\"zz\"]]", "{}"),
        Err(BindingError::Argument("ref hash must be hex bytes"))
    );
    assert_eq!(
        build_record(&k, &[2; 32], 32, 0, "[[0,\"hex:00\"]]", "{}"),
        Err(BindingError::Argument("ref hash must be exactly 32 bytes"))
    );
    assert_eq!(
        build_record(&k, &[2; 32], 32, 0, "[]", "[]"),
        Err(BindingError::Kernel(Error::Envelope("body must be a map")))
    );
    assert!(matches!(build_record(&k, &[2; 32], 32, 0, "[", "{}"), Err(BindingError::Kernel(Error::Cbor(_)))));
}

#[test]
fn recovery_json_is_checked_entry_by_entry() {
    let key = "cd".repeat(32);
    let ok = parse_recovery(&format!("[[1,\"hex:{key}\"]]")).unwrap();
    assert_eq!(ok, vec![(1, vec![0xcd; 32])]);
    assert_eq!(parse_recovery("{}"), Err(BindingError::Argument("recovery must be a JSON array")));
    assert_eq!(
        parse_recovery("[[1]]"),
        Err(BindingError::Argument("each recovery entry must be [alg, key]"))
    );
    assert_eq!(
        parse_recovery("[[\"x\",\"hex:00\"]]"),
        Err(BindingError::Argument("recovery alg must be a number"))
    );
    assert_eq!(
        parse_recovery("[[1,2]]"),
        Err(BindingError::Argument("recovery key must be hex bytes"))
    );
}

#[test]
fn genesis_rotation_and_chain_state() {
    let owner = keypair(5);
    let next = keypair(6);
    let genesis = genesis_record(&owner, "[]", 604_800, 100).unwrap();
    verify_record(&genesis).unwrap();
    let id = record_id(&genesis).unwrap();
    let rot = rotate_record(&owner, &id, &id, &next.public_key(), 1, "[]", 604_800, 200).unwrap();
    let state = verify_chain(&[genesis.clone(), rot.clone()], 1000).unwrap();
    let expected = format!(
        "{{\"identity_id\":\"hex:{}\",\"signing_key\":\"hex:{}\",\"key_alg\":1,\"recovery\":[],\"contest_window\":604800,\"head\":\"hex:{}\",\"depth\":1}}",
        hex_bytes(&id),
        hex_bytes(&next.public_key()),
        hex_bytes(&record_id(&rot).unwrap()),
    );
    assert_eq!(state, expected);
    assert_eq!(
        rotate_record(&owner, &id[..31], &id, &next.public_key(), 1, "[]", 1, 2),
        Err(BindingError::Argument("identity_id must be exactly 32 bytes"))
    );
    assert_eq!(
        rotate_record(&owner, &id, &id[..3], &next.public_key(), 1, "[]", 1, 2),
        Err(BindingError::Argument("prev_rotation_id must be exactly 32 bytes"))
    );
    assert!(matches!(verify_chain(&[vec![0xff]], 0), Err(BindingError::Kernel(_))));
}

#[test]
fn chain_state_lists_recovery_keys() {
    let owner = keypair(7);
    let key = "11".repeat(32);
    let genesis = genesis_record(&owner, &format!("[[1,\"hex:{key}\"],[2,\"hex:{key}\"]]"), 5, 1).unwrap();
    let state = verify_chain(&[genesis], 10).unwrap();
    assert!(state.contains(&format!("\"recovery\":[[1,\"hex:{key}\"],[2,\"hex:{key}\"]]")));
}

#[test]
fn derivation_signature_and_chunk_verification() {
    let k = keypair(8);
    let sig = sign_derivation(&k, &[1; 32], &[2; 32], "av1", 1920, 1080, 4_000_000).unwrap();
    assert_eq!(sig.len(), 64);
    assert_eq!(
        sign_derivation(&k, &[1; 31], &[2; 32], "av1", 1, 1, 1),
        Err(BindingError::Argument("original blob id must be exactly 32 bytes"))
    );
    assert_eq!(
        sign_derivation(&k, &[1; 32], &[2; 3], "av1", 1, 1, 1),
        Err(BindingError::Argument("rendition blob id must be exactly 32 bytes"))
    );

    let data = vec![9u8; 2 * CHUNK_SIZE + 5];
    let tree = ChunkTree::from_bytes(&data);
    let root = tree.root().unwrap();
    let proof: Vec<u8> = tree.prove(2).unwrap().concat();
    verify_chunk(&root, 3, 2, &data[2 * CHUNK_SIZE..], &proof).unwrap();
    assert!(matches!(
        verify_chunk(&root, 3, 1, &data[2 * CHUNK_SIZE..], &proof),
        Err(BindingError::Kernel(Error::ChunkProof(_)))
    ));
    assert_eq!(
        verify_chunk(&root, 3, 3, &data[2 * CHUNK_SIZE..], &proof),
        Err(BindingError::Kernel(Error::ChunkProof("chunk index out of range")))
    );
    assert_eq!(
        verify_chunk(&root[..5], 3, 2, &data, &proof),
        Err(BindingError::Argument("root must be exactly 32 bytes"))
    );
    assert_eq!(
        verify_chunk(&root, 3, 2, &data, &proof[..10]),
        Err(BindingError::Argument("proof must be a concatenation of 32-byte hashes"))
    );
    assert_eq!(binding_hash_blob(b"x"), hash_blob(b"x").0.to_vec());
}

#[test]
fn binding_errors_render_their_text() {
    assert_eq!(BindingError::Argument("call finalize first").message(), "call finalize first");
    assert_eq!(BindingError::Kernel(Error::Signature).message(), "signature verification failed");
    assert_eq!(BindingError::Kernel(Error::UnknownAlgorithm(42)).message(), "unknown algorithm id 42");
    assert!(matches!(record_id(&[0x01]), Err(BindingError::Kernel(_))));
}

#[test]
fn validate_kind_passes_unknown_kinds_and_refuses_bad_bodies() {
    let k = keypair(9);
    let unknown = build_record(&k, &[2; 32], 9999, 0, "[]", "{}").unwrap();
    assert_eq!(validate_kind(&unknown), Ok(()));
    let profile = build_record(&k, &[2; 32], 2, 0, "[]", "{\"name\":5}").unwrap();
    assert!(matches!(validate_kind(&profile), Err(BindingError::Kernel(Error::Kind(_)))));
}
