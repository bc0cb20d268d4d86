//! Blob addressing and chunk trees.
//!
//! A blob is an opaque byte sequence addressed by the BLAKE3-256 hash of
//! its bytes. Large blobs additionally have a **chunk tree**: a binary
//! Merkle tree over 1 MiB chunks that lets a verifier check any single
//! chunk against a trusted root in `O(log n)` hashes, without the rest
//! of the blob.

use vstd::prelude::*;
use vstd::slice::slice_subrange;
use crate::crypto::{blake3_hash, blake3_digest, hasher_input, hasher_new, hasher_update, hasher_digest};
use crate::error::Error;
use crate::ids::BlobId;
use crate::text::{extend_bytes, bytes_eq};

verus! {

/// Chunk size for chunk trees: 1 MiB.
pub const CHUNK_SIZE: usize = 1048576;

/// Leaf digest: BLAKE3-256(0x00 || chunk).
pub open spec fn leaf_digest(chunk: Seq<u8>) -> Seq<u8> {
    blake3_digest(seq![0u8] + chunk)
}

/// Interior digest: BLAKE3-256(0x01 || left || right).
pub open spec fn node_digest(left: Seq<u8>, right: Seq<u8>) -> Seq<u8> {
    blake3_digest(seq![1u8] + left + right)
}

/// The number of chunks of a blob of `len` bytes.
pub open spec fn chunk_count(len: int) -> int {
    (len + CHUNK_SIZE - 1) / (CHUNK_SIZE as int)
}

/// Chunk `i` of a blob.
pub open spec fn chunk_of(b: Seq<u8>, i: int) -> Seq<u8> {
    let start = i * CHUNK_SIZE;
    let end = if start + CHUNK_SIZE < b.len() {
        start + CHUNK_SIZE
    } else {
        b.len() as int
    };
    b.subrange(start, end)
}

/// The leaf digests of a blob, in chunk order.
pub open spec fn blob_leaves(b: Seq<u8>) -> Seq<Seq<u8>> {
    Seq::new(chunk_count(b.len() as int) as nat, |i: int| leaf_digest(chunk_of(b, i)))
}

/// The digests of a level, as byte sequences.
pub open spec fn digests(v: Seq<[u8; 32]>) -> Seq<Seq<u8>> {
    v.map_values(|a: [u8; 32]| a@)
}

/// One level up: pairs combined left to right, an unpaired last node
/// promoted unchanged.
pub open spec fn reduce(level: Seq<Seq<u8>>) -> Seq<Seq<u8>> {
    Seq::new(
        ((level.len() + 1) / 2) as nat,
        |i: int|
            if 2 * i + 1 < level.len() {
                node_digest(level[2 * i], level[2 * i + 1])
            } else {
                level[2 * i]
            },
    )
}

/// The Merkle root of a non-empty level.
pub open spec fn root_of(level: Seq<Seq<u8>>) -> Seq<u8>
    decreases level.len(),
{
    if level.len() <= 1 {
        level[0]
    } else {
        root_of(reduce(level))
    }
}

/// Whether node `cur` of a level of `n` nodes has a sibling.
pub open spec fn has_sibling(n: int, cur: int) -> bool {
    cur % 2 == 1 || cur + 1 < n
}

/// The sibling index of node `cur`.
pub open spec fn sibling_of(cur: int) -> int {
    if cur % 2 == 0 {
        cur + 1
    } else {
        cur - 1
    }
}

/// The sibling path of node `idx`, bottom-up; promoted nodes contribute
/// nothing at their level.
pub open spec fn path(level: Seq<Seq<u8>>, idx: int) -> Seq<Seq<u8>>
    decreases level.len(),
{
    if level.len() <= 1 {
        Seq::empty()
    } else {
        let here: Seq<Seq<u8>> = if has_sibling(level.len() as int, idx) {
            seq![level[sibling_of(idx)]]
        } else {
            Seq::empty()
        };
        here + path(reduce(level), idx / 2)
    }
}

/// The node a verifier reaches climbing from `node` at index `cur` of a
/// level of `n` nodes, consuming sibling hashes from `proof`; `None` when
/// the proof runs out early or has hashes left over.
pub open spec fn climb(n: int, cur: int, node: Seq<u8>, proof: Seq<Seq<u8>>) -> Option<Seq<u8>>
    decreases n,
{
    if n <= 1 {
        if proof.len() == 0 {
            Some(node)
        } else {
            None
        }
    } else if has_sibling(n, cur) {
        if proof.len() == 0 {
            None
        } else {
            let next = if cur % 2 == 0 {
                node_digest(node, proof[0])
            } else {
                node_digest(proof[0], node)
            };
            climb((n + 1) / 2, cur / 2, next, proof.drop_first())
        }
    } else {
        climb((n + 1) / 2, cur / 2, node, proof)
    }
}

/// What climbing from a node gives: the root reached, or why the proof
/// does not fit the tree (too few or too many siblings).
pub open spec fn climb_outcome(n: int, cur: int, node: Seq<u8>, proof: Seq<Seq<u8>>) -> Result<Seq<u8>, &'static str>
    decreases n,
{
    if n <= 1 {
        if proof.len() == 0 {
            Ok(node)
        } else {
            Err("proof too long")
        }
    } else if has_sibling(n, cur) {
        if proof.len() == 0 {
            Err("proof too short")
        } else {
            let next = if cur % 2 == 0 {
                node_digest(node, proof[0])
            } else {
                node_digest(proof[0], node)
            };
            climb_outcome((n + 1) / 2, cur / 2, next, proof.drop_first())
        }
    } else {
        climb_outcome((n + 1) / 2, cur / 2, node, proof)
    }
}

proof fn lemma_climb_outcome(n: int, cur: int, node: Seq<u8>, proof: Seq<Seq<u8>>)
    ensures
        climb(n, cur, node, proof) == (match climb_outcome(n, cur, node, proof) {
            Ok(x) => Some(x),
            Err(_) => None,
        }),
    decreases n,
{
    if n > 1 {
        if has_sibling(n, cur) {
            if proof.len() > 0 {
                let next = if cur % 2 == 0 {
                    node_digest(node, proof[0])
                } else {
                    node_digest(proof[0], node)
                };
                lemma_climb_outcome((n + 1) / 2, cur / 2, next, proof.drop_first());
            }
        } else {
            lemma_climb_outcome((n + 1) / 2, cur / 2, node, proof);
        }
    }
}

/// The outcome of checking a chunk against a root with a proof.
pub open spec fn chunk_check(root: Seq<u8>, n: int, index: int, chunk: Seq<u8>, proof: Seq<Seq<u8>>) -> Result<(), Error> {
    if index >= n {
        Err(Error::ChunkProof("chunk index out of range"))
    } else {
        match climb_outcome(n, index, leaf_digest(chunk), proof) {
            Ok(r) => if r == root {
                Ok(())
            } else {
                Err(Error::ChunkProof("root mismatch"))
            },
            Err(m) => Err(Error::ChunkProof(m)),
        }
    }
}

/// Hash a complete in-memory blob (BLAKE3-256 of its bytes).
pub fn hash_blob(bytes: &[u8]) -> (id: BlobId)
    ensures
        id.0@ == blake3_digest(bytes@),
{
    BlobId(blake3_hash(bytes))
}

/// A blob hashed as it is read, without holding it: feed the bytes in
/// order, then take the id and the size.
pub struct StreamHash {
    hasher: blake3::Hasher,
    total: u64,
}

impl StreamHash {
    /// The bytes fed so far.
    pub closed spec fn data(&self) -> Seq<u8> {
        hasher_input(self.hasher)
    }

    /// The running total agrees with the bytes fed.
    pub closed spec fn wf(&self) -> bool {
        self.total == hasher_input(self.hasher).len()
    }

    /// Nothing fed yet.
    pub fn new() -> (h: StreamHash)
        ensures
            h.data() == Seq::<u8>::empty(),
            h.wf(),
    {
        StreamHash { hasher: hasher_new(), total: 0 }
    }

    /// Feed the next bytes read.
    pub fn feed(&mut self, bytes: &[u8])
        requires
            old(self).wf(),
            old(self).data().len() + bytes@.len() <= u64::MAX,
        ensures
            final(self).wf(),
            final(self).data() == old(self).data() + bytes@,
    {
        hasher_update(&mut self.hasher, bytes);
        self.total = self.total + bytes.len() as u64;
    }

    /// The number of bytes fed so far.
    pub fn total(&self) -> (n: u64)
        requires
            self.wf(),
        ensures
            n == self.data().len(),
    {
        self.total
    }

    /// The id of everything fed, and its size.
    pub fn finish(&self) -> (r: (BlobId, u64))
        requires
            self.wf(),
        ensures
            r.0.0@ == blake3_digest(self.data()),
            r.1 == self.data().len(),
    {
        (BlobId(hasher_digest(&self.hasher)), self.total)
    }
}

/// Leaf hash: BLAKE3-256(0x00 || chunk_bytes).
pub fn leaf_hash(chunk: &[u8]) -> (h: [u8; 32])
    ensures
        h@ == leaf_digest(chunk@),
{
    let mut buf: Vec<u8> = Vec::new();
    buf.push(0u8);
    extend_bytes(&mut buf, chunk);
    proof {
        assert(buf@ =~= seq![0u8] + chunk@);
    }
    blake3_hash(buf.as_slice())
}

/// Interior hash: BLAKE3-256(0x01 || left || right).
pub fn node_hash(left: &[u8; 32], right: &[u8; 32]) -> (h: [u8; 32])
    ensures
        h@ == node_digest(left@, right@),
{
    let mut buf: Vec<u8> = Vec::new();
    buf.push(1u8);
    extend_bytes(&mut buf, left);
    extend_bytes(&mut buf, right);
    proof {
        assert(buf@ =~= seq![1u8] + left@ + right@);
    }
    blake3_hash(buf.as_slice())
}

/// Combine one level of a chunk tree into the next.
pub(crate) fn reduce_level(level: &Vec<[u8; 32]>) -> (next: Vec<[u8; 32]>)
    ensures
        digests(next@) == reduce(digests(level@)),
{
    let ghost d = digests(level@);
    let mut next: Vec<[u8; 32]> = Vec::new();
    let mut i: usize = 0;
    while i + 1 < level.len()
        invariant
            i % 2 == 0,
            i <= level.len(),
            d == digests(level@),
            next.len() == i / 2,
            forall|k: int| 0 <= k < next.len() ==> #[trigger] next@[k]@ == reduce(d)[k],
        decreases level.len() - i,
    {
        let h = node_hash(&level[i], &level[i + 1]);
        proof {
            assert(reduce(d)[(i / 2) as int] == node_digest(d[i as int], d[i + 1]));
        }
        next.push(h);
        i = i + 2;
    }
    if i < level.len() {
        proof {
            assert(reduce(d)[(i / 2) as int] == d[i as int]);
        }
        next.push(level[i]);
    }
    proof {
        assert(digests(next@) =~= reduce(d));
    }
    next
}

/// Reducing a level of more than one node gives `ceil(n / 2)` nodes.
pub(crate) proof fn lemma_reduce_len(level: Seq<Seq<u8>>)
    ensures
        reduce(level).len() == (level.len() + 1) / 2,
        level.len() > 1 ==> reduce(level).len() < level.len(),
        level.len() >= 1 ==> reduce(level).len() >= 1,
{
}

/// The chunk tree of a blob: its leaf hashes plus total size.
#[derive(Debug, Clone, PartialEq, Eq)]
pub struct ChunkTree {
    leaves: Vec<[u8; 32]>,
    size: u64,
}

impl ChunkTree {
    /// The leaf digests.
    pub closed spec fn spec_leaves(&self) -> Seq<Seq<u8>> {
        digests(self.leaves@)
    }

    /// The total size.
    pub closed spec fn spec_size(&self) -> u64 {
        self.size
    }

    /// Build by reading the blob in [`CHUNK_SIZE`] chunks.
    ///
    /// The empty blob yields the empty tree (zero chunks, no root).
    pub fn build(bytes: &[u8]) -> (res: Result<ChunkTree, Error>)
        ensures
            res matches Ok(t) ==> t.spec_leaves() == blob_leaves(bytes@) && t.spec_size() == bytes@.len(),
            res is Ok,
    {
        Ok(Self::from_bytes(bytes))
    }

    /// Build from an in-memory blob.
    pub fn from_bytes(bytes: &[u8]) -> (t: ChunkTree)
        ensures
            t.spec_leaves() == blob_leaves(bytes@),
            t.spec_size() == bytes@.len(),
    {
        let ghost b = bytes@;
        let mut leaves: Vec<[u8; 32]> = Vec::new();
        let mut start: usize = 0;
        let mut i: usize = 0;
        while start < bytes.len()
            invariant
                start <= bytes.len(),
                start < bytes.len() ==> start == i * CHUNK_SIZE,
                b == bytes@,
                i <= chunk_count(b.len() as int),
                start < bytes.len() ==> i < chunk_count(b.len() as int),
                start >= bytes.len() ==> i == chunk_count(b.len() as int),
                leaves.len() == i,
                forall|k: int| 0 <= k < i ==> #[trigger] leaves@[k]@ == leaf_digest(chunk_of(b, k)),
            decreases bytes.len() - start,
        {
            let end: usize = if bytes.len() - start > CHUNK_SIZE {
                start + CHUNK_SIZE
            } else {
                bytes.len()
            };
            let chunk = slice_subrange(bytes, start, end);
            proof {
                assert(chunk@ == chunk_of(b, i as int));
            }
            leaves.push(leaf_hash(chunk));
            i = i + 1;
            start = end;
            proof {
                let len = b.len() as int;
                let ii = i as int;
                if end < bytes.len() {
                    assert(ii < (len + 1048575) / 1048576) by (nonlinear_arith)
                        requires
                            ii * 1048576 < len,
                    {
                    }
                } else {
                    assert(ii == (len + 1048575) / 1048576) by (nonlinear_arith)
                        requires
                            (ii - 1) * 1048576 < len,
                            len <= ii * 1048576,
                    {
                    }
                }
            }
        }
        proof {
            if bytes.len() == 0 {
                assert(chunk_count(0) == 0);
            }
            assert(digests(leaves@) =~= blob_leaves(b));
        }
        ChunkTree { leaves, size: bytes.len() as u64 }
    }

    /// Merkle root (odd nodes promoted unchanged); `None` for the empty
    /// blob (zero chunks).
    pub fn root(&self) -> (r: Option<[u8; 32]>)
        ensures
            self.spec_leaves().len() == 0 ==> r is None,
            self.spec_leaves().len() > 0 ==> (r matches Some(h) && h@ == root_of(self.spec_leaves())),
    {
        if self.leaves.len() == 0 {
            return None;
        }
        let mut level = self.leaves.clone();
        proof {
            assert(digests(level@) =~= self.spec_leaves());
        }
        while level.len() > 1
            invariant
                level.len() >= 1,
                root_of(digests(level@)) == root_of(self.spec_leaves()),
            decreases level.len(),
        {
            proof {
                lemma_reduce_len(digests(level@));
            }
            level = reduce_level(&level);
        }
        Some(level[0])
    }

    /// Total blob size in bytes.
    pub fn size(&self) -> (s: u64)
        ensures
            s == self.spec_size(),
    {
        self.size
    }

    /// Number of chunks (zero for the empty blob).
    pub fn n_chunks(&self) -> (n: usize)
        ensures
            n == self.spec_leaves().len(),
    {
        self.leaves.len()
    }

    /// The leaf hashes, in chunk order.
    pub fn leaves(&self) -> (l: &[[u8; 32]])
        ensures
            digests(l@) == self.spec_leaves(),
    {
        self.leaves.as_slice()
    }

    /// Sibling path for chunk `index`, bottom-up; `Err(ChunkProof)` if
    /// the index is out of range. A promoted (sibling-less) node
    /// contributes no hash at its level.
    pub fn prove(&self, index: usize) -> (res: Result<Vec<[u8; 32]>, Error>)
        ensures
            index >= self.spec_leaves().len() ==> res == Err::<Vec<[u8; 32]>, Error>(
                Error::ChunkProof("chunk index out of range"),
            ),
            index < self.spec_leaves().len() ==> (res matches Ok(p) && digests(p@) == path(
                self.spec_leaves(),
                index as int,
            )),
    {
        if index >= self.leaves.len() {
            return Err(Error::ChunkProof("chunk index out of range"));
        }
        let mut proof: Vec<[u8; 32]> = Vec::new();
        let mut level = self.leaves.clone();
        let mut cur = index;
        proof {
            assert(digests(level@) =~= self.spec_leaves());
            assert(digests(proof@) + path(digests(level@), cur as int) =~= path(self.spec_leaves(), index as int));
        }
        while level.len() > 1
            invariant
                cur < level.len(),
                digests(proof@) + path(digests(level@), cur as int) == path(self.spec_leaves(), index as int),
            decreases level.len(),
        {
            let ghost d = digests(level@);
            let ghost before = digests(proof@);
            let sibling = if cur % 2 == 0 {
                cur + 1
            } else {
                cur - 1
            };
            if sibling < level.len() {
                proof.push(level[sibling]);
                proof {
                    assert(digests(proof@) =~= before.push(d[sibling as int]));
                }
            }
            proof {
                lemma_reduce_len(d);
                let here: Seq<Seq<u8>> = if has_sibling(d.len() as int, cur as int) {
                    seq![d[sibling_of(cur as int)]]
                } else {
                    Seq::empty()
                };
                assert(path(d, cur as int) == here + path(reduce(d), (cur / 2) as int));
                assert(before + path(d, cur as int) =~= (before + here) + path(reduce(d), (cur / 2) as int));
                assert(digests(proof@) =~= before + here);
            }
            cur = cur / 2;
            level = reduce_level(&level);
        }
        proof {
            assert(path(digests(level@), cur as int) =~= Seq::<Seq<u8>>::empty());
            assert(digests(proof@) =~= path(self.spec_leaves(), index as int));
        }
        Ok(proof)
    }
}

/// Climbing along a node's own sibling path reaches the root.
pub proof fn lemma_climb_path(level: Seq<Seq<u8>>, idx: int)
    requires
        0 <= idx < level.len(),
    ensures
        climb(level.len() as int, idx, level[idx], path(level, idx)) == Some(root_of(level)),
    decreases level.len(),
{
    let n = level.len() as int;
    if n > 1 {
        let r = reduce(level);
        lemma_reduce_len(level);
        let rest = path(r, idx / 2);
        if has_sibling(n, idx) {
            let p = path(level, idx);
            assert(p == seq![level[sibling_of(idx)]] + rest);
            assert(p[0] == level[sibling_of(idx)]);
            assert(p.drop_first() =~= rest);
            if idx % 2 == 0 {
                assert(r[idx / 2] == node_digest(level[idx], level[idx + 1]));
            } else {
                assert(r[idx / 2] == node_digest(level[idx - 1], level[idx]));
            }
        } else {
            assert(path(level, idx) =~= rest);
            assert(r[idx / 2] == level[idx]);
        }
        lemma_climb_path(r, idx / 2);
    }
}

/// Verify one chunk against a root, given the blob's total chunk count
/// and the sibling path from [`ChunkTree::prove`]. Recomputes the tree
/// structure from `n_chunks`: at each level, if the current node has a
/// sibling, one proof hash is consumed (ordered left/right by index
/// parity); a promoted last node consumes nothing.
pub fn verify_chunk(
    root: &[u8; 32],
    n_chunks: usize,
    index: usize,
    chunk: &[u8],
    proof: &[[u8; 32]],
) -> (res: Result<(), Error>)
    ensures
        index >= n_chunks ==> res == Err::<(), Error>(Error::ChunkProof("chunk index out of range")),
        index < n_chunks ==> (res is Ok <==> climb(
            n_chunks as int,
            index as int,
            leaf_digest(chunk@),
            digests(proof@),
        ) == Some(root@)),
        res matches Err(e) ==> e is ChunkProof,
        res == chunk_check(root@, n_chunks as int, index as int, chunk@, digests(proof@)),
{
    if index >= n_chunks {
        return Err(Error::ChunkProof("chunk index out of range"));
    }
    proof {
        lemma_climb_outcome(n_chunks as int, index as int, leaf_digest(chunk@), digests(proof@));
    }
    let mut node = leaf_hash(chunk);
    let mut level_len = n_chunks;
    let mut cur = index;
    let mut used: usize = 0;
    let ghost full = climb(n_chunks as int, index as int, leaf_digest(chunk@), digests(proof@));
    proof {
        assert(digests(proof@).skip(0) =~= digests(proof@));
    }
    while level_len > 1
        invariant
            index < n_chunks,
            cur < level_len,
            used <= proof.len(),
            full == climb(n_chunks as int, index as int, leaf_digest(chunk@), digests(proof@)),
            full == climb(level_len as int, cur as int, node@, digests(proof@).skip(used as int)),
            climb_outcome(n_chunks as int, index as int, leaf_digest(chunk@), digests(proof@)) == climb_outcome(
                level_len as int,
                cur as int,
                node@,
                digests(proof@).skip(used as int),
            ),
        decreases level_len,
    {
        let sibling = if cur % 2 == 0 {
            cur + 1
        } else {
            cur - 1
        };
        let ghost rest = digests(proof@).skip(used as int);
        if sibling < level_len {
            if used >= proof.len() {
                return Err(Error::ChunkProof("proof too short"));
            }
            let sib = proof[used];
            proof {
                assert(rest[0] == sib@);
                assert(rest.drop_first() =~= digests(proof@).skip(used + 1));
            }
            used = used + 1;
            node = if cur % 2 == 0 {
                node_hash(&node, &sib)
            } else {
                node_hash(&sib, &node)
            };
        }
        cur = cur / 2;
        level_len = level_len / 2 + level_len % 2;
    }
    if used != proof.len() {
        return Err(Error::ChunkProof("proof too long"));
    }
    proof {
        assert(digests(proof@).skip(used as int) =~= Seq::<Seq<u8>>::empty());
    }
    if !bytes_eq(&node, root) {
        return Err(Error::ChunkProof("root mismatch"));
    }
    Ok(())
}

/// A chunk tree's proof for any chunk verifies against its root.
pub proof fn lemma_prove_verifies(leaves: Seq<Seq<u8>>, index: int)
    requires
        0 <= index < leaves.len(),
    ensures
        climb(leaves.len() as int, index, leaves[index], path(leaves, index)) == Some(root_of(leaves)),
{
    lemma_climb_path(leaves, index);
}

} // verus!
