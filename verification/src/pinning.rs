//! Pin store: what a node persists about the content it pins.
//!
//! This is the storage design surface for a node: the shape of a pin,
//! the node's budget, and the store's operations. The store holds no
//! database yet: [`PinStore::open`] only computes where the database
//! will live, every accessor reports the empty store, and the mutating
//! operations change nothing. None of them touches the disk or fails.
//!
//! Design: one SQLite file per node install, `pins.sqlite3` in the
//! node's data directory, with a table of pins (blob id, manifest id,
//! reason, time) and one of budgets. Explicit pins are never evicted by
//! budget pressure; subscription pins are evicted oldest first.

use vstd::prelude::*;
use crate::paths::{FilePath, texts};
use crate::kinds::fields::own;
use crate::ids::{BlobId, RecordId};

verus! {

/// Why a piece of content is pinned.
#[derive(Debug, Clone, Copy, PartialEq, Eq)]
pub enum PinReason {
    /// The node owner explicitly chose to pin this content.
    Explicit,
    /// Pinned because it belongs to a followed/subscribed channel.
    Subscription,
}

/// A single pinned item as it will be persisted.
#[derive(Debug, Clone)]
pub struct PinnedItem {
    /// The pinned blob's content hash.
    pub blob_id: BlobId,
    /// The manifest record that named this blob, if known.
    pub manifest_id: Option<RecordId>,
    /// Why this item is pinned.
    pub reason: PinReason,
}

/// This node's disk/bandwidth budget.
#[derive(Debug, Clone, Copy, PartialEq, Eq)]
pub struct Budget {
    /// Disk space reserved for pinned/seeded content, in gigabytes.
    pub disk_gb: u64,
    /// Upload bandwidth ceiling while seeding, in megabits per second.
    pub bandwidth_mbps: u64,
}

impl Default for Budget {
    /// The unconfigured budget: zero disk, zero bandwidth.
    fn default() -> (b: Budget)
        ensures
            b.disk_gb == 0,
            b.bandwidth_mbps == 0,
    {
        Budget { disk_gb: 0, bandwidth_mbps: 0 }
    }
}

/// Handle to the node's pin database.
#[derive(Debug, Clone)]
pub struct PinStore {
    db_path: FilePath,
}

impl PinStore {
    /// The database file name within the node's data directory.
    pub const DB_FILE_NAME: &'static str = "pins.sqlite3";

    /// Open the pin store rooted at `data_dir`: computes the database
    /// path only; does not touch the disk and cannot fail.
    pub fn open(data_dir: &str) -> (s: PinStore)
        ensures
            s.location() == seq![data_dir@, "pins.sqlite3"@],
    {
        let parts = vec![own(data_dir), own(Self::DB_FILE_NAME)];
        proof {
            assert(texts(parts@) =~= seq![data_dir@, "pins.sqlite3"@]);
        }
        PinStore { db_path: FilePath::from_parts(parts) }
    }

    /// Where the database file lives: its path's components.
    pub closed spec fn location(&self) -> Seq<Seq<char>> {
        self.db_path@
    }

    /// The resolved database file path.
    pub fn db_path(&self) -> (p: &FilePath)
        ensures
            p@ == self.location(),
    {
        &self.db_path
    }

    /// Every currently pinned item: none.
    pub fn list_pins(&self) -> (v: Vec<PinnedItem>)
        ensures
            v@.len() == 0,
    {
        Vec::new()
    }

    /// Number of pinned items, the length of [`Self::list_pins`].
    pub fn pinned_count(&self) -> (n: u64)
        ensures
            n == 0,
    {
        self.list_pins().len() as u64
    }

    /// Pin a blob: records nothing yet.
    pub fn pin(&mut self, blob_id: BlobId, manifest_id: Option<RecordId>, reason: PinReason)
        ensures
            *final(self) == *old(self),
    {
    }

    /// Unpin a blob: reports that no pin existed.
    pub fn unpin(&mut self, blob_id: &BlobId) -> (found: bool)
        ensures
            !found,
            *final(self) == *old(self),
    {
        false
    }

    /// Whether a given blob is currently pinned: never.
    pub fn is_pinned(&self, blob_id: &BlobId) -> (b: bool)
        ensures
            !b,
    {
        false
    }

    /// This node's current budget: the unconfigured one.
    pub fn budget(&self) -> (b: Budget)
        ensures
            b.disk_gb == 0 && b.bandwidth_mbps == 0,
    {
        Budget::default()
    }

    /// Update the node's budget: records nothing yet.
    pub fn set_budget(&mut self, budget: Budget)
        ensures
            *final(self) == *old(self),
    {
    }
}

} // verus!
