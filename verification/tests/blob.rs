use vidmesh::blob::{ChunkTree, StreamHash, CHUNK_SIZE, hash_blob, leaf_hash, node_hash, verify_chunk};
use vidmesh::ids::BlobId;

/// Hashes `bytes` the way a reader-driven caller does: in 64 KiB reads.
fn stream_hash(bytes: &[u8]) -> Result<(BlobId, u64), vidmesh::error::Error> {
    let mut h = StreamHash::new();
    for piece in bytes.chunks(64 * 1024) {
        h.feed(piece);
    }
    Ok(h.finish())
}


/// Build a blob of `n_chunks` chunks, all full `CHUNK_SIZE` except
/// the last, which is `last_len` bytes. Each chunk is filled with a
/// distinct repeating byte (its index) so that chunks, and thus
/// their leaf hashes, are pairwise distinct.
fn make_blob(n_chunks: usize, last_len: usize) -> Vec<u8> {
    assert!(n_chunks > 0);
    assert!(last_len > 0 && last_len <= CHUNK_SIZE);
    let mut out = Vec::with_capacity((n_chunks - 1) * CHUNK_SIZE + last_len);
    for i in 0..n_chunks {
        let len = if i + 1 == n_chunks {
            last_len
        } else {
            CHUNK_SIZE
        };
        out.extend(std::iter::repeat_n(i as u8, len));
    }
    out
}

/// Independent reference implementation of the root reduction, used
/// to cross-check `ChunkTree::root` / `reduce_level`.
fn reference_root(leaves: &[[u8; 32]]) -> Option<[u8; 32]> {
    if leaves.is_empty() {
        return None;
    }
    let mut level: Vec<[u8; 32]> = leaves.to_vec();
    while level.len() > 1 {
        let mut next = Vec::new();
        for pair in level.chunks(2) {
            if pair.len() == 2 {
                next.push(node_hash(&pair[0], &pair[1]));
            } else {
                next.push(pair[0]);
            }
        }
        level = next;
    }
    Some(level[0])
}

#[test]
fn empty_blob_has_no_chunks_and_no_root() {
    let tree = ChunkTree::from_bytes(&[]);
    assert_eq!(tree.n_chunks(), 0);
    assert_eq!(tree.size(), 0);
    assert_eq!(tree.root(), None);
    assert!(tree.leaves().is_empty());

    let tree2 = ChunkTree::build(&Vec::<u8>::new()).unwrap();
    assert_eq!(tree2, tree);
}

#[test]
fn empty_blob_verify_chunk_rejects_any_index() {
    let root = [0u8; 32];
    assert!(verify_chunk(&root, 0, 0, b"x", &[]).is_err());
}

#[test]
fn one_chunk_root_is_the_leaf_hash() {
    let bytes = make_blob(1, CHUNK_SIZE);
    let tree = ChunkTree::from_bytes(&bytes);
    assert_eq!(tree.n_chunks(), 1);
    assert_eq!(tree.size(), CHUNK_SIZE as u64);
    assert_eq!(tree.root(), Some(leaf_hash(&bytes)));
}

#[test]
fn manual_three_chunk_root_shape() {
    // root = node_hash(node_hash(l0, l1), l2): l2 is promoted
    // unchanged at level 0, then combined with the level-1 pair.
    let bytes = make_blob(3, CHUNK_SIZE);
    let l0 = leaf_hash(&bytes[0..CHUNK_SIZE]);
    let l1 = leaf_hash(&bytes[CHUNK_SIZE..2 * CHUNK_SIZE]);
    let l2 = leaf_hash(&bytes[2 * CHUNK_SIZE..3 * CHUNK_SIZE]);
    let expected = node_hash(&node_hash(&l0, &l1), &l2);

    let tree = ChunkTree::from_bytes(&bytes);
    assert_eq!(tree.leaves(), &[l0, l1, l2]);
    assert_eq!(tree.root(), Some(expected));
}

#[test]
fn known_structure_against_reference_for_several_counts() {
    for &n in &[1usize, 2, 3, 4, 5, 7] {
        let bytes = make_blob(n, CHUNK_SIZE);
        let tree = ChunkTree::from_bytes(&bytes);
        assert_eq!(tree.n_chunks(), n, "n_chunks for count {n}");
        let expected = reference_root(tree.leaves());
        assert_eq!(tree.root(), expected, "root mismatch for count {n}");
    }
}

#[test]
fn known_structure_with_short_final_chunk() {
    for &n in &[1usize, 2, 3, 5, 7] {
        let bytes = make_blob(n, 10);
        let tree = ChunkTree::from_bytes(&bytes);
        assert_eq!(tree.n_chunks(), n);
        assert_eq!(tree.size(), ((n - 1) * CHUNK_SIZE + 10) as u64);
        let expected = reference_root(tree.leaves());
        assert_eq!(
            tree.root(),
            expected,
            "root mismatch for count {n} (short final)"
        );
    }
}

#[test]
fn from_bytes_and_build_agree() {
    let bytes = make_blob(2, 5);
    let via_bytes = ChunkTree::from_bytes(&bytes);
    let via_stream = ChunkTree::build(&bytes.clone()).unwrap();
    assert_eq!(via_bytes, via_stream);
    assert_eq!(via_bytes.root(), via_stream.root());
}

#[test]
fn boundary_exact_chunk_size_is_one_chunk() {
    let bytes = vec![0xabu8; CHUNK_SIZE];
    let tree = ChunkTree::from_bytes(&bytes);
    assert_eq!(tree.n_chunks(), 1);
    assert_eq!(tree.size(), CHUNK_SIZE as u64);

    let tree2 = ChunkTree::build(&bytes).unwrap();
    assert_eq!(tree, tree2);
}

#[test]
fn boundary_chunk_size_plus_one_is_two_chunks() {
    let bytes = vec![0xcdu8; CHUNK_SIZE + 1];
    let tree = ChunkTree::from_bytes(&bytes);
    assert_eq!(tree.n_chunks(), 2);
    assert_eq!(tree.size(), (CHUNK_SIZE + 1) as u64);
    assert_eq!(tree.leaves()[1], leaf_hash(&bytes[CHUNK_SIZE..]));

    let tree2 = ChunkTree::build(&bytes).unwrap();
    assert_eq!(tree, tree2);
}

#[test]
fn hash_blob_matches_hash_stream() {
    let bytes = make_blob(2, CHUNK_SIZE / 2);
    let direct = hash_blob(&bytes);
    let (streamed, size) = stream_hash(&bytes.clone()).unwrap();
    assert_eq!(direct, streamed);
    assert_eq!(size, bytes.len() as u64);
}

#[test]
fn hash_blob_matches_hash_stream_for_empty_input() {
    let direct = hash_blob(&[]);
    let (streamed, size) = stream_hash(&Vec::<u8>::new()).unwrap();
    assert_eq!(direct, streamed);
    assert_eq!(size, 0);
}

#[test]
fn prove_and_verify_every_index_for_several_counts() {
    for &n in &[1usize, 2, 3, 4, 5] {
        let bytes = make_blob(n, CHUNK_SIZE);
        let tree = ChunkTree::from_bytes(&bytes);
        let root = tree.root().expect("non-empty tree has a root");
        for index in 0..n {
            let chunk_start = index * CHUNK_SIZE;
            let chunk = &bytes[chunk_start..chunk_start + CHUNK_SIZE];
            let proof = tree.prove(index).expect("valid index");
            verify_chunk(&root, n, index, chunk, &proof)
                .unwrap_or_else(|e| panic!("verify failed for n={n} index={index}: {e:?}"));
        }
    }
}

#[test]
fn prove_out_of_range_index_errors() {
    let bytes = make_blob(3, CHUNK_SIZE);
    let tree = ChunkTree::from_bytes(&bytes);
    assert!(tree.prove(3).is_err());
    assert!(tree.prove(usize::MAX).is_err());
}

#[test]
fn verify_rejects_wrong_chunk_bytes() {
    let bytes = make_blob(4, CHUNK_SIZE);
    let tree = ChunkTree::from_bytes(&bytes);
    let root = tree.root().unwrap();
    let proof = tree.prove(1).unwrap();
    let mut wrong_chunk = bytes[CHUNK_SIZE..2 * CHUNK_SIZE].to_vec();
    wrong_chunk[0] ^= 0xff;
    assert!(verify_chunk(&root, 4, 1, &wrong_chunk, &proof).is_err());
}

#[test]
fn verify_rejects_wrong_index() {
    let bytes = make_blob(4, CHUNK_SIZE);
    let tree = ChunkTree::from_bytes(&bytes);
    let root = tree.root().unwrap();
    let proof = tree.prove(1).unwrap();
    let chunk = &bytes[CHUNK_SIZE..2 * CHUNK_SIZE];
    // Same chunk bytes and proof, but claimed at a different index.
    assert!(verify_chunk(&root, 4, 2, chunk, &proof).is_err());
}

#[test]
fn verify_rejects_truncated_proof() {
    let bytes = make_blob(5, CHUNK_SIZE);
    let tree = ChunkTree::from_bytes(&bytes);
    let root = tree.root().unwrap();
    let index = 3;
    let proof = tree.prove(index).unwrap();
    assert!(
        !proof.is_empty(),
        "5-chunk tree should need at least one sibling"
    );
    let truncated = &proof[..proof.len() - 1];
    let chunk_start = index * CHUNK_SIZE;
    let chunk = &bytes[chunk_start..chunk_start + CHUNK_SIZE];
    assert!(verify_chunk(&root, 5, index, chunk, truncated).is_err());
}

#[test]
fn verify_rejects_over_long_proof() {
    let bytes = make_blob(5, CHUNK_SIZE);
    let tree = ChunkTree::from_bytes(&bytes);
    let root = tree.root().unwrap();
    let index = 3;
    let mut proof = tree.prove(index).unwrap();
    proof.push([0x42; 32]);
    let chunk_start = index * CHUNK_SIZE;
    let chunk = &bytes[chunk_start..chunk_start + CHUNK_SIZE];
    assert!(verify_chunk(&root, 5, index, chunk, &proof).is_err());
}

#[test]
fn verify_rejects_swapped_sibling_order() {
    let bytes = make_blob(4, CHUNK_SIZE);
    let tree = ChunkTree::from_bytes(&bytes);
    let root = tree.root().unwrap();
    let index = 0;
    let mut proof = tree.prove(index).unwrap();
    assert!(
        proof.len() >= 2,
        "4-chunk tree at index 0 has a two-level path"
    );
    proof.swap(0, 1);
    let chunk = &bytes[0..CHUNK_SIZE];
    assert!(verify_chunk(&root, 4, index, chunk, &proof).is_err());
}

#[test]
fn verify_rejects_wrong_root() {
    let bytes = make_blob(3, CHUNK_SIZE);
    let tree = ChunkTree::from_bytes(&bytes);
    let wrong_root = [0x99; 32];
    let index = 0;
    let proof = tree.prove(index).unwrap();
    let chunk = &bytes[0..CHUNK_SIZE];
    assert!(verify_chunk(&wrong_root, 3, index, chunk, &proof).is_err());
}

#[test]
fn leaf_and_node_hash_are_domain_separated() {
    let a = [0x11; 32];
    let b = [0x22; 32];
    let leaf = leaf_hash(&[0x11; 32]);
    let node = node_hash(&a, &b);
    assert_ne!(leaf, node);
}
