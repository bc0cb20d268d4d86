//! Typed record kinds: kind ids, kind name lookup, kind-level
//! validation dispatch, and one wrapper per kind.
//!
//! Each kind module exposes one struct per kind with a `parse` that
//! enforces that kind's validation rules and a `to_body` (plus `refs`
//! where refs carry kind-defined meaning) that builds the record back.
//! Rules that need a second record are separate `check_*` functions.

pub mod fields;
pub mod content;
pub mod kind_laws;
pub mod social;
pub mod claims;
pub mod compliance;
pub mod infra;
pub mod live;
pub mod trust;

use vstd::prelude::*;
use crate::error::Error;
use crate::record::Record;
use crate::ids::IdentityId;
use crate::text::str_eq;
use crate::record::RecordModel;
use crate::identity::zero32;
use crate::kinds::content::{
    Manifest, manifest_of, derivation_ok, verify_derivation, delegate_of, supersede_of, retract_of, mirror_of,
    similarity_of, Delegate, Supersede, Retract, Mirror, Similarity,
};
use crate::kinds::social::{profile_of, comment_of, reaction_of, follow_of, playlist_of, channel_of, Profile, Comment, Reaction, Follow, Playlist, Channel};
use crate::kinds::claims::{claim_author_of, claim_license_of, claim_transfer_of, claim_dispute_of, ClaimAuthor, ClaimLicense, ClaimTransfer, ClaimDispute};
use crate::kinds::compliance::{notice_takedown_of, notice_counter_of, feed_takedown_of, NoticeTakedown, NoticeCounter, FeedTakedown};
use crate::kinds::trust::{endorse_gateway_of, receipt_of, attest_of, EndorseGateway, Receipt, Attest};
use crate::kinds::infra::{anchor_of, keygrant_of, Anchor, Keygrant};
use crate::kinds::live::{live_manifest_of, live_chat_of, LiveManifest, LiveChat};

verus! {

pub use crate::identity::KIND_ROTATION;
pub use crate::kinds::claims::check_dispute_target_kind;
pub use crate::kinds::social::check_comment_thread;
pub use crate::kinds::content::{check_delegate_revocation, check_retract_target_kind, derivation_statement, Media, Rendition, Caption, Hint, PaymentPointer, DERIVATION_SIG_PREFIX};
pub use crate::kinds::compliance::{FeedEntry, FeedRemoveEntry, Claimant};
pub use crate::kinds::infra::AnchorProof;
pub use crate::kinds::live::LiveSegment;

/// Kind id of `profile` records.
pub const KIND_PROFILE: u64 = 2;

/// Kind id of `delegate` records.
pub const KIND_DELEGATE: u64 = 3;

/// Kind id of `manifest` records.
pub const KIND_MANIFEST: u64 = 16;

/// Kind id of `supersede` records.
pub const KIND_SUPERSEDE: u64 = 17;

/// Kind id of `retract` records.
pub const KIND_RETRACT: u64 = 18;

/// Kind id of `mirror` records.
pub const KIND_MIRROR: u64 = 19;

/// Kind id of `similarity` records.
pub const KIND_SIMILARITY: u64 = 20;

/// Kind id of `comment` records.
pub const KIND_COMMENT: u64 = 32;

/// Kind id of `reaction` records.
pub const KIND_REACTION: u64 = 33;

/// Kind id of `follow` records.
pub const KIND_FOLLOW: u64 = 34;

/// Kind id of `playlist` records.
pub const KIND_PLAYLIST: u64 = 35;

/// Kind id of `channel` records.
pub const KIND_CHANNEL: u64 = 36;

/// Kind id of `claim.author` records.
pub const KIND_CLAIM_AUTHOR: u64 = 48;

/// Kind id of `claim.license` records.
pub const KIND_CLAIM_LICENSE: u64 = 49;

/// Kind id of `claim.transfer` records.
pub const KIND_CLAIM_TRANSFER: u64 = 50;

/// Kind id of `claim.dispute` records.
pub const KIND_CLAIM_DISPUTE: u64 = 51;

/// Kind id of `notice.takedown` records.
pub const KIND_NOTICE_TAKEDOWN: u64 = 64;

/// Kind id of `notice.counter` records.
pub const KIND_NOTICE_COUNTER: u64 = 65;

/// Kind id of `feed.takedown` records.
pub const KIND_FEED_TAKEDOWN: u64 = 66;

/// Kind id of `endorse.gateway` records.
pub const KIND_ENDORSE_GATEWAY: u64 = 80;

/// Kind id of `receipt` records.
pub const KIND_RECEIPT: u64 = 81;

/// Kind id of `attest` records.
pub const KIND_ATTEST: u64 = 82;

/// Kind id of `anchor` records.
pub const KIND_ANCHOR: u64 = 96;

/// Kind id of `keygrant` records.
pub const KIND_KEYGRANT: u64 = 97;

/// Kind id of `live.manifest` records.
pub const KIND_LIVE_MANIFEST: u64 = 112;

/// Kind id of `live.chat` records.
pub const KIND_LIVE_CHAT: u64 = 113;

/// The registry name of a kind id, if it is a registered kind.
pub open spec fn spec_kind_name(kind: u64) -> Option<Seq<char>> {
    if kind == KIND_ROTATION {
        Some("rotation"@)
    } else if kind == KIND_PROFILE {
        Some("profile"@)
    } else if kind == KIND_DELEGATE {
        Some("delegate"@)
    } else if kind == KIND_MANIFEST {
        Some("manifest"@)
    } else if kind == KIND_SUPERSEDE {
        Some("supersede"@)
    } else if kind == KIND_RETRACT {
        Some("retract"@)
    } else if kind == KIND_MIRROR {
        Some("mirror"@)
    } else if kind == KIND_SIMILARITY {
        Some("similarity"@)
    } else if kind == KIND_COMMENT {
        Some("comment"@)
    } else if kind == KIND_REACTION {
        Some("reaction"@)
    } else if kind == KIND_FOLLOW {
        Some("follow"@)
    } else if kind == KIND_PLAYLIST {
        Some("playlist"@)
    } else if kind == KIND_CHANNEL {
        Some("channel"@)
    } else if kind == KIND_CLAIM_AUTHOR {
        Some("claim.author"@)
    } else if kind == KIND_CLAIM_LICENSE {
        Some("claim.license"@)
    } else if kind == KIND_CLAIM_TRANSFER {
        Some("claim.transfer"@)
    } else if kind == KIND_CLAIM_DISPUTE {
        Some("claim.dispute"@)
    } else if kind == KIND_NOTICE_TAKEDOWN {
        Some("notice.takedown"@)
    } else if kind == KIND_NOTICE_COUNTER {
        Some("notice.counter"@)
    } else if kind == KIND_FEED_TAKEDOWN {
        Some("feed.takedown"@)
    } else if kind == KIND_ENDORSE_GATEWAY {
        Some("endorse.gateway"@)
    } else if kind == KIND_RECEIPT {
        Some("receipt"@)
    } else if kind == KIND_ATTEST {
        Some("attest"@)
    } else if kind == KIND_ANCHOR {
        Some("anchor"@)
    } else if kind == KIND_KEYGRANT {
        Some("keygrant"@)
    } else if kind == KIND_LIVE_MANIFEST {
        Some("live.manifest"@)
    } else if kind == KIND_LIVE_CHAT {
        Some("live.chat"@)
    } else {
        None
    }
}

/// The kind id of a registry name, if it is a registered name.
pub open spec fn spec_kind_id(name: Seq<char>) -> Option<u64> {
    if name == "rotation"@ {
        Some(KIND_ROTATION)
    } else if name == "profile"@ {
        Some(KIND_PROFILE)
    } else if name == "delegate"@ {
        Some(KIND_DELEGATE)
    } else if name == "manifest"@ {
        Some(KIND_MANIFEST)
    } else if name == "supersede"@ {
        Some(KIND_SUPERSEDE)
    } else if name == "retract"@ {
        Some(KIND_RETRACT)
    } else if name == "mirror"@ {
        Some(KIND_MIRROR)
    } else if name == "similarity"@ {
        Some(KIND_SIMILARITY)
    } else if name == "comment"@ {
        Some(KIND_COMMENT)
    } else if name == "reaction"@ {
        Some(KIND_REACTION)
    } else if name == "follow"@ {
        Some(KIND_FOLLOW)
    } else if name == "playlist"@ {
        Some(KIND_PLAYLIST)
    } else if name == "channel"@ {
        Some(KIND_CHANNEL)
    } else if name == "claim.author"@ {
        Some(KIND_CLAIM_AUTHOR)
    } else if name == "claim.license"@ {
        Some(KIND_CLAIM_LICENSE)
    } else if name == "claim.transfer"@ {
        Some(KIND_CLAIM_TRANSFER)
    } else if name == "claim.dispute"@ {
        Some(KIND_CLAIM_DISPUTE)
    } else if name == "notice.takedown"@ {
        Some(KIND_NOTICE_TAKEDOWN)
    } else if name == "notice.counter"@ {
        Some(KIND_NOTICE_COUNTER)
    } else if name == "feed.takedown"@ {
        Some(KIND_FEED_TAKEDOWN)
    } else if name == "endorse.gateway"@ {
        Some(KIND_ENDORSE_GATEWAY)
    } else if name == "receipt"@ {
        Some(KIND_RECEIPT)
    } else if name == "attest"@ {
        Some(KIND_ATTEST)
    } else if name == "anchor"@ {
        Some(KIND_ANCHOR)
    } else if name == "keygrant"@ {
        Some(KIND_KEYGRANT)
    } else if name == "live.manifest"@ {
        Some(KIND_LIVE_MANIFEST)
    } else if name == "live.chat"@ {
        Some(KIND_LIVE_CHAT)
    } else {
        None
    }
}

/// The stable registry name for a kind id, or `None` if the id is not
/// a registered kind.
pub fn kind_name(kind: u64) -> (r: Option<&'static str>)
    ensures
        match r {
            Some(s) => spec_kind_name(kind) == Some(s@),
            None => spec_kind_name(kind) is None,
        },
{
    if kind == KIND_ROTATION {
        Some("rotation")
    } else if kind == KIND_PROFILE {
        Some("profile")
    } else if kind == KIND_DELEGATE {
        Some("delegate")
    } else if kind == KIND_MANIFEST {
        Some("manifest")
    } else if kind == KIND_SUPERSEDE {
        Some("supersede")
    } else if kind == KIND_RETRACT {
        Some("retract")
    } else if kind == KIND_MIRROR {
        Some("mirror")
    } else if kind == KIND_SIMILARITY {
        Some("similarity")
    } else if kind == KIND_COMMENT {
        Some("comment")
    } else if kind == KIND_REACTION {
        Some("reaction")
    } else if kind == KIND_FOLLOW {
        Some("follow")
    } else if kind == KIND_PLAYLIST {
        Some("playlist")
    } else if kind == KIND_CHANNEL {
        Some("channel")
    } else if kind == KIND_CLAIM_AUTHOR {
        Some("claim.author")
    } else if kind == KIND_CLAIM_LICENSE {
        Some("claim.license")
    } else if kind == KIND_CLAIM_TRANSFER {
        Some("claim.transfer")
    } else if kind == KIND_CLAIM_DISPUTE {
        Some("claim.dispute")
    } else if kind == KIND_NOTICE_TAKEDOWN {
        Some("notice.takedown")
    } else if kind == KIND_NOTICE_COUNTER {
        Some("notice.counter")
    } else if kind == KIND_FEED_TAKEDOWN {
        Some("feed.takedown")
    } else if kind == KIND_ENDORSE_GATEWAY {
        Some("endorse.gateway")
    } else if kind == KIND_RECEIPT {
        Some("receipt")
    } else if kind == KIND_ATTEST {
        Some("attest")
    } else if kind == KIND_ANCHOR {
        Some("anchor")
    } else if kind == KIND_KEYGRANT {
        Some("keygrant")
    } else if kind == KIND_LIVE_MANIFEST {
        Some("live.manifest")
    } else if kind == KIND_LIVE_CHAT {
        Some("live.chat")
    } else {
        None
    }
}

/// The kind id for a registry name, or `None` if the name is not a
/// registered kind.
pub fn kind_id(name: &str) -> (r: Option<u64>)
    ensures
        r == spec_kind_id(name@),
{
    if str_eq(name, "rotation") {
        Some(KIND_ROTATION)
    } else if str_eq(name, "profile") {
        Some(KIND_PROFILE)
    } else if str_eq(name, "delegate") {
        Some(KIND_DELEGATE)
    } else if str_eq(name, "manifest") {
        Some(KIND_MANIFEST)
    } else if str_eq(name, "supersede") {
        Some(KIND_SUPERSEDE)
    } else if str_eq(name, "retract") {
        Some(KIND_RETRACT)
    } else if str_eq(name, "mirror") {
        Some(KIND_MIRROR)
    } else if str_eq(name, "similarity") {
        Some(KIND_SIMILARITY)
    } else if str_eq(name, "comment") {
        Some(KIND_COMMENT)
    } else if str_eq(name, "reaction") {
        Some(KIND_REACTION)
    } else if str_eq(name, "follow") {
        Some(KIND_FOLLOW)
    } else if str_eq(name, "playlist") {
        Some(KIND_PLAYLIST)
    } else if str_eq(name, "channel") {
        Some(KIND_CHANNEL)
    } else if str_eq(name, "claim.author") {
        Some(KIND_CLAIM_AUTHOR)
    } else if str_eq(name, "claim.license") {
        Some(KIND_CLAIM_LICENSE)
    } else if str_eq(name, "claim.transfer") {
        Some(KIND_CLAIM_TRANSFER)
    } else if str_eq(name, "claim.dispute") {
        Some(KIND_CLAIM_DISPUTE)
    } else if str_eq(name, "notice.takedown") {
        Some(KIND_NOTICE_TAKEDOWN)
    } else if str_eq(name, "notice.counter") {
        Some(KIND_NOTICE_COUNTER)
    } else if str_eq(name, "feed.takedown") {
        Some(KIND_FEED_TAKEDOWN)
    } else if str_eq(name, "endorse.gateway") {
        Some(KIND_ENDORSE_GATEWAY)
    } else if str_eq(name, "receipt") {
        Some(KIND_RECEIPT)
    } else if str_eq(name, "attest") {
        Some(KIND_ATTEST)
    } else if str_eq(name, "anchor") {
        Some(KIND_ANCHOR)
    } else if str_eq(name, "keygrant") {
        Some(KIND_KEYGRANT)
    } else if str_eq(name, "live.manifest") {
        Some(KIND_LIVE_MANIFEST)
    } else if str_eq(name, "live.chat") {
        Some(KIND_LIVE_CHAT)
    } else {
        None
    }
}

/// Naming a registered kind and looking the name up again gives the
/// kind back.
pub proof fn lemma_kind_name_round_trip(kind: u64)
    requires
        spec_kind_name(kind) is Some,
    ensures
        spec_kind_id(spec_kind_name(kind)->0) == Some(kind),
{
    if kind == KIND_ROTATION {
        reveal_strlit("rotation");
    }
    if kind == KIND_PROFILE {
        reveal_strlit("profile");
        reveal_strlit("rotation");
        assert("profile"@ != "rotation"@) by { assert("profile"@.len() == 7 && "rotation"@.len() == 8); }
    }
    if kind == KIND_DELEGATE {
        reveal_strlit("delegate");
        reveal_strlit("rotation");
        assert("delegate"@ != "rotation"@) by { assert("delegate"@[0] != "rotation"@[0]); }
        reveal_strlit("profile");
        assert("delegate"@ != "profile"@) by { assert("delegate"@.len() == 8 && "profile"@.len() == 7); }
    }
    if kind == KIND_MANIFEST {
        reveal_strlit("manifest");
        reveal_strlit("rotation");
        assert("manifest"@ != "rotation"@) by { assert("manifest"@[0] != "rotation"@[0]); }
        reveal_strlit("profile");
        assert("manifest"@ != "profile"@) by { assert("manifest"@.len() == 8 && "profile"@.len() == 7); }
        reveal_strlit("delegate");
        assert("manifest"@ != "delegate"@) by { assert("manifest"@[0] != "delegate"@[0]); }
    }
    if kind == KIND_SUPERSEDE {
        reveal_strlit("supersede");
        reveal_strlit("rotation");
        assert("supersede"@ != "rotation"@) by { assert("supersede"@.len() == 9 && "rotation"@.len() == 8); }
        reveal_strlit("profile");
        assert("supersede"@ != "profile"@) by { assert("supersede"@.len() == 9 && "profile"@.len() == 7); }
        reveal_strlit("delegate");
        assert("supersede"@ != "delegate"@) by { assert("supersede"@.len() == 9 && "delegate"@.len() == 8); }
        reveal_strlit("manifest");
        assert("supersede"@ != "manifest"@) by { assert("supersede"@.len() == 9 && "manifest"@.len() == 8); }
    }
    if kind == KIND_RETRACT {
        reveal_strlit("retract");
        reveal_strlit("rotation");
        assert("retract"@ != "rotation"@) by { assert("retract"@.len() == 7 && "rotation"@.len() == 8); }
        reveal_strlit("profile");
        assert("retract"@ != "profile"@) by { assert("retract"@[0] != "profile"@[0]); }
        reveal_strlit("delegate");
        assert("retract"@ != "delegate"@) by { assert("retract"@.len() == 7 && "delegate"@.len() == 8); }
        reveal_strlit("manifest");
        assert("retract"@ != "manifest"@) by { assert("retract"@.len() == 7 && "manifest"@.len() == 8); }
        reveal_strlit("supersede");
        assert("retract"@ != "supersede"@) by { assert("retract"@.len() == 7 && "supersede"@.len() == 9); }
    }
    if kind == KIND_MIRROR {
        reveal_strlit("mirror");
        reveal_strlit("rotation");
        assert("mirror"@ != "rotation"@) by { assert("mirror"@.len() == 6 && "rotation"@.len() == 8); }
        reveal_strlit("profile");
        assert("mirror"@ != "profile"@) by { assert("mirror"@.len() == 6 && "profile"@.len() == 7); }
        reveal_strlit("delegate");
        assert("mirror"@ != "delegate"@) by { assert("mirror"@.len() == 6 && "delegate"@.len() == 8); }
        reveal_strlit("manifest");
        assert("mirror"@ != "manifest"@) by { assert("mirror"@.len() == 6 && "manifest"@.len() == 8); }
        reveal_strlit("supersede");
        assert("mirror"@ != "supersede"@) by { assert("mirror"@.len() == 6 && "supersede"@.len() == 9); }
        reveal_strlit("retract");
        assert("mirror"@ != "retract"@) by { assert("mirror"@.len() == 6 && "retract"@.len() == 7); }
    }
    if kind == KIND_SIMILARITY {
        reveal_strlit("similarity");
        reveal_strlit("rotation");
        assert("similarity"@ != "rotation"@) by { assert("similarity"@.len() == 10 && "rotation"@.len() == 8); }
        reveal_strlit("profile");
        assert("similarity"@ != "profile"@) by { assert("similarity"@.len() == 10 && "profile"@.len() == 7); }
        reveal_strlit("delegate");
        assert("similarity"@ != "delegate"@) by { assert("similarity"@.len() == 10 && "delegate"@.len() == 8); }
        reveal_strlit("manifest");
        assert("similarity"@ != "manifest"@) by { assert("similarity"@.len() == 10 && "manifest"@.len() == 8); }
        reveal_strlit("supersede");
        assert("similarity"@ != "supersede"@) by { assert("similarity"@.len() == 10 && "supersede"@.len() == 9); }
        reveal_strlit("retract");
        assert("similarity"@ != "retract"@) by { assert("similarity"@.len() == 10 && "retract"@.len() == 7); }
        reveal_strlit("mirror");
        assert("similarity"@ != "mirror"@) by { assert("similarity"@.len() == 10 && "mirror"@.len() == 6); }
    }
    if kind == KIND_COMMENT {
        reveal_strlit("comment");
        reveal_strlit("rotation");
        assert("comment"@ != "rotation"@) by { assert("comment"@.len() == 7 && "rotation"@.len() == 8); }
        reveal_strlit("profile");
        assert("comment"@ != "profile"@) by { assert("comment"@[0] != "profile"@[0]); }
        reveal_strlit("delegate");
        assert("comment"@ != "delegate"@) by { assert("comment"@.len() == 7 && "delegate"@.len() == 8); }
        reveal_strlit("manifest");
        assert("comment"@ != "manifest"@) by { assert("comment"@.len() == 7 && "manifest"@.len() == 8); }
        reveal_strlit("supersede");
        assert("comment"@ != "supersede"@) by { assert("comment"@.len() == 7 && "supersede"@.len() == 9); }
        reveal_strlit("retract");
        assert("comment"@ != "retract"@) by { assert("comment"@[0] != "retract"@[0]); }
        reveal_strlit("mirror");
        assert("comment"@ != "mirror"@) by { assert("comment"@.len() == 7 && "mirror"@.len() == 6); }
        reveal_strlit("similarity");
        assert("comment"@ != "similarity"@) by { assert("comment"@.len() == 7 && "similarity"@.len() == 10); }
    }
    if kind == KIND_REACTION {
        reveal_strlit("reaction");
        reveal_strlit("rotation");
        assert("reaction"@ != "rotation"@) by { assert("reaction"@[1] != "rotation"@[1]); }
        reveal_strlit("profile");
        assert("reaction"@ != "profile"@) by { assert("reaction"@.len() == 8 && "profile"@.len() == 7); }
        reveal_strlit("delegate");
        assert("reaction"@ != "delegate"@) by { assert("reaction"@[0] != "delegate"@[0]); }
        reveal_strlit("manifest");
        assert("reaction"@ != "manifest"@) by { assert("reaction"@[0] != "manifest"@[0]); }
        reveal_strlit("supersede");
        assert("reaction"@ != "supersede"@) by { assert("reaction"@.len() == 8 && "supersede"@.len() == 9); }
        reveal_strlit("retract");
        assert("reaction"@ != "retract"@) by { assert("reaction"@.len() == 8 && "retract"@.len() == 7); }
        reveal_strlit("mirror");
        assert("reaction"@ != "mirror"@) by { assert("reaction"@.len() == 8 && "mirror"@.len() == 6); }
        reveal_strlit("similarity");
        assert("reaction"@ != "similarity"@) by { assert("reaction"@.len() == 8 && "similarity"@.len() == 10); }
        reveal_strlit("comment");
        assert("reaction"@ != "comment"@) by { assert("reaction"@.len() == 8 && "comment"@.len() == 7); }
    }
    if kind == KIND_FOLLOW {
        reveal_strlit("follow");
        reveal_strlit("rotation");
        assert("follow"@ != "rotation"@) by { assert("follow"@.len() == 6 && "rotation"@.len() == 8); }
        reveal_strlit("profile");
        assert("follow"@ != "profile"@) by { assert("follow"@.len() == 6 && "profile"@.len() == 7); }
        reveal_strlit("delegate");
        assert("follow"@ != "delegate"@) by { assert("follow"@.len() == 6 && "delegate"@.len() == 8); }
        reveal_strlit("manifest");
        assert("follow"@ != "manifest"@) by { assert("follow"@.len() == 6 && "manifest"@.len() == 8); }
        reveal_strlit("supersede");
        assert("follow"@ != "supersede"@) by { assert("follow"@.len() == 6 && "supersede"@.len() == 9); }
        reveal_strlit("retract");
        assert("follow"@ != "retract"@) by { assert("follow"@.len() == 6 && "retract"@.len() == 7); }
        reveal_strlit("mirror");
        assert("follow"@ != "mirror"@) by { assert("follow"@[0] != "mirror"@[0]); }
        reveal_strlit("similarity");
        assert("follow"@ != "similarity"@) by { assert("follow"@.len() == 6 && "similarity"@.len() == 10); }
        reveal_strlit("comment");
        assert("follow"@ != "comment"@) by { assert("follow"@.len() == 6 && "comment"@.len() == 7); }
        reveal_strlit("reaction");
        assert("follow"@ != "reaction"@) by { assert("follow"@.len() == 6 && "reaction"@.len() == 8); }
    }
    if kind == KIND_PLAYLIST {
        reveal_strlit("playlist");
        reveal_strlit("rotation");
        assert("playlist"@ != "rotation"@) by { assert("playlist"@[0] != "rotation"@[0]); }
        reveal_strlit("profile");
        assert("playlist"@ != "profile"@) by { assert("playlist"@.len() == 8 && "profile"@.len() == 7); }
        reveal_strlit("delegate");
        assert("playlist"@ != "delegate"@) by { assert("playlist"@[0] != "delegate"@[0]); }
        reveal_strlit("manifest");
        assert("playlist"@ != "manifest"@) by { assert("playlist"@[0] != "manifest"@[0]); }
        reveal_strlit("supersede");
        assert("playlist"@ != "supersede"@) by { assert("playlist"@.len() == 8 && "supersede"@.len() == 9); }
        reveal_strlit("retract");
        assert("playlist"@ != "retract"@) by { assert("playlist"@.len() == 8 && "retract"@.len() == 7); }
        reveal_strlit("mirror");
        assert("playlist"@ != "mirror"@) by { assert("playlist"@.len() == 8 && "mirror"@.len() == 6); }
        reveal_strlit("similarity");
        assert("playlist"@ != "similarity"@) by { assert("playlist"@.len() == 8 && "similarity"@.len() == 10); }
        reveal_strlit("comment");
        assert("playlist"@ != "comment"@) by { assert("playlist"@.len() == 8 && "comment"@.len() == 7); }
        reveal_strlit("reaction");
        assert("playlist"@ != "reaction"@) by { assert("playlist"@[0] != "reaction"@[0]); }
        reveal_strlit("follow");
        assert("playlist"@ != "follow"@) by { assert("playlist"@.len() == 8 && "follow"@.len() == 6); }
    }
    if kind == KIND_CHANNEL {
        reveal_strlit("channel");
        reveal_strlit("rotation");
        assert("channel"@ != "rotation"@) by { assert("channel"@.len() == 7 && "rotation"@.len() == 8); }
        reveal_strlit("profile");
        assert("channel"@ != "profile"@) by { assert("channel"@[0] != "profile"@[0]); }
        reveal_strlit("delegate");
        assert("channel"@ != "delegate"@) by { assert("channel"@.len() == 7 && "delegate"@.len() == 8); }
        reveal_strlit("manifest");
        assert("channel"@ != "manifest"@) by { assert("channel"@.len() == 7 && "manifest"@.len() == 8); }
        reveal_strlit("supersede");
        assert("channel"@ != "supersede"@) by { assert("channel"@.len() == 7 && "supersede"@.len() == 9); }
        reveal_strlit("retract");
        assert("channel"@ != "retract"@) by { assert("channel"@[0] != "retract"@[0]); }
        reveal_strlit("mirror");
        assert("channel"@ != "mirror"@) by { assert("channel"@.len() == 7 && "mirror"@.len() == 6); }
        reveal_strlit("similarity");
        assert("channel"@ != "similarity"@) by { assert("channel"@.len() == 7 && "similarity"@.len() == 10); }
        reveal_strlit("comment");
        assert("channel"@ != "comment"@) by { assert("channel"@[1] != "comment"@[1]); }
        reveal_strlit("reaction");
        assert("channel"@ != "reaction"@) by { assert("channel"@.len() == 7 && "reaction"@.len() == 8); }
        reveal_strlit("follow");
        assert("channel"@ != "follow"@) by { assert("channel"@.len() == 7 && "follow"@.len() == 6); }
        reveal_strlit("playlist");
        assert("channel"@ != "playlist"@) by { assert("channel"@.len() == 7 && "playlist"@.len() == 8); }
    }
    if kind == KIND_CLAIM_AUTHOR {
        reveal_strlit("claim.author");
        reveal_strlit("rotation");
        assert("claim.author"@ != "rotation"@) by { assert("claim.author"@.len() == 12 && "rotation"@.len() == 8); }
        reveal_strlit("profile");
        assert("claim.author"@ != "profile"@) by { assert("claim.author"@.len() == 12 && "profile"@.len() == 7); }
        reveal_strlit("delegate");
        assert("claim.author"@ != "delegate"@) by { assert("claim.author"@.len() == 12 && "delegate"@.len() == 8); }
        reveal_strlit("manifest");
        assert("claim.author"@ != "manifest"@) by { assert("claim.author"@.len() == 12 && "manifest"@.len() == 8); }
        reveal_strlit("supersede");
        assert("claim.author"@ != "supersede"@) by { assert("claim.author"@.len() == 12 && "supersede"@.len() == 9); }
        reveal_strlit("retract");
        assert("claim.author"@ != "retract"@) by { assert("claim.author"@.len() == 12 && "retract"@.len() == 7); }
        reveal_strlit("mirror");
        assert("claim.author"@ != "mirror"@) by { assert("claim.author"@.len() == 12 && "mirror"@.len() == 6); }
        reveal_strlit("similarity");
        assert("claim.author"@ != "similarity"@) by { assert("claim.author"@.len() == 12 && "similarity"@.len() == 10); }
        reveal_strlit("comment");
        assert("claim.author"@ != "comment"@) by { assert("claim.author"@.len() == 12 && "comment"@.len() == 7); }
        reveal_strlit("reaction");
        assert("claim.author"@ != "reaction"@) by { assert("claim.author"@.len() == 12 && "reaction"@.len() == 8); }
        reveal_strlit("follow");
        assert("claim.author"@ != "follow"@) by { assert("claim.author"@.len() == 12 && "follow"@.len() == 6); }
        reveal_strlit("playlist");
        assert("claim.author"@ != "playlist"@) by { assert("claim.author"@.len() == 12 && "playlist"@.len() == 8); }
        reveal_strlit("channel");
        assert("claim.author"@ != "channel"@) by { assert("claim.author"@.len() == 12 && "channel"@.len() == 7); }
    }
    if kind == KIND_CLAIM_LICENSE {
        reveal_strlit("claim.license");
        reveal_strlit("rotation");
        assert("claim.license"@ != "rotation"@) by { assert("claim.license"@.len() == 13 && "rotation"@.len() == 8); }
        reveal_strlit("profile");
        assert("claim.license"@ != "profile"@) by { assert("claim.license"@.len() == 13 && "profile"@.len() == 7); }
        reveal_strlit("delegate");
        assert("claim.license"@ != "delegate"@) by { assert("claim.license"@.len() == 13 && "delegate"@.len() == 8); }
        reveal_strlit("manifest");
        assert("claim.license"@ != "manifest"@) by { assert("claim.license"@.len() == 13 && "manifest"@.len() == 8); }
        reveal_strlit("supersede");
        assert("claim.license"@ != "supersede"@) by { assert("claim.license"@.len() == 13 && "supersede"@.len() == 9); }
        reveal_strlit("retract");
        assert("claim.license"@ != "retract"@) by { assert("claim.license"@.len() == 13 && "retract"@.len() == 7); }
        reveal_strlit("mirror");
        assert("claim.license"@ != "mirror"@) by { assert("claim.license"@.len() == 13 && "mirror"@.len() == 6); }
        reveal_strlit("similarity");
        assert("claim.license"@ != "similarity"@) by { assert("claim.license"@.len() == 13 && "similarity"@.len() == 10); }
        reveal_strlit("comment");
        assert("claim.license"@ != "comment"@) by { assert("claim.license"@.len() == 13 && "comment"@.len() == 7); }
        reveal_strlit("reaction");
        assert("claim.license"@ != "reaction"@) by { assert("claim.license"@.len() == 13 && "reaction"@.len() == 8); }
        reveal_strlit("follow");
        assert("claim.license"@ != "follow"@) by { assert("claim.license"@.len() == 13 && "follow"@.len() == 6); }
        reveal_strlit("playlist");
        assert("claim.license"@ != "playlist"@) by { assert("claim.license"@.len() == 13 && "playlist"@.len() == 8); }
        reveal_strlit("channel");
        assert("claim.license"@ != "channel"@) by { assert("claim.license"@.len() == 13 && "channel"@.len() == 7); }
        reveal_strlit("claim.author");
        assert("claim.license"@ != "claim.author"@) by { assert("claim.license"@.len() == 13 && "claim.author"@.len() == 12); }
    }
    if kind == KIND_CLAIM_TRANSFER {
        reveal_strlit("claim.transfer");
        reveal_strlit("rotation");
        assert("claim.transfer"@ != "rotation"@) by { assert("claim.transfer"@.len() == 14 && "rotation"@.len() == 8); }
        reveal_strlit("profile");
        assert("claim.transfer"@ != "profile"@) by { assert("claim.transfer"@.len() == 14 && "profile"@.len() == 7); }
        reveal_strlit("delegate");
        assert("claim.transfer"@ != "delegate"@) by { assert("claim.transfer"@.len() == 14 && "delegate"@.len() == 8); }
        reveal_strlit("manifest");
        assert("claim.transfer"@ != "manifest"@) by { assert("claim.transfer"@.len() == 14 && "manifest"@.len() == 8); }
        reveal_strlit("supersede");
        assert("claim.transfer"@ != "supersede"@) by { assert("claim.transfer"@.len() == 14 && "supersede"@.len() == 9); }
        reveal_strlit("retract");
        assert("claim.transfer"@ != "retract"@) by { assert("claim.transfer"@.len() == 14 && "retract"@.len() == 7); }
        reveal_strlit("mirror");
        assert("claim.transfer"@ != "mirror"@) by { assert("claim.transfer"@.len() == 14 && "mirror"@.len() == 6); }
        reveal_strlit("similarity");
        assert("claim.transfer"@ != "similarity"@) by { assert("claim.transfer"@.len() == 14 && "similarity"@.len() == 10); }
        reveal_strlit("comment");
        assert("claim.transfer"@ != "comment"@) by { assert("claim.transfer"@.len() == 14 && "comment"@.len() == 7); }
        reveal_strlit("reaction");
        assert("claim.transfer"@ != "reaction"@) by { assert("claim.transfer"@.len() == 14 && "reaction"@.len() == 8); }
        reveal_strlit("follow");
        assert("claim.transfer"@ != "follow"@) by { assert("claim.transfer"@.len() == 14 && "follow"@.len() == 6); }
        reveal_strlit("playlist");
        assert("claim.transfer"@ != "playlist"@) by { assert("claim.transfer"@.len() == 14 && "playlist"@.len() == 8); }
        reveal_strlit("channel");
        assert("claim.transfer"@ != "channel"@) by { assert("claim.transfer"@.len() == 14 && "channel"@.len() == 7); }
        reveal_strlit("claim.author");
        assert("claim.transfer"@ != "claim.author"@) by { assert("claim.transfer"@.len() == 14 && "claim.author"@.len() == 12); }
        reveal_strlit("claim.license");
        assert("claim.transfer"@ != "claim.license"@) by { assert("claim.transfer"@.len() == 14 && "claim.license"@.len() == 13); }
    }
    if kind == KIND_CLAIM_DISPUTE {
        reveal_strlit("claim.dispute");
        reveal_strlit("rotation");
        assert("claim.dispute"@ != "rotation"@) by { assert("claim.dispute"@.len() == 13 && "rotation"@.len() == 8); }
        reveal_strlit("profile");
        assert("claim.dispute"@ != "profile"@) by { assert("claim.dispute"@.len() == 13 && "profile"@.len() == 7); }
        reveal_strlit("delegate");
        assert("claim.dispute"@ != "delegate"@) by { assert("claim.dispute"@.len() == 13 && "delegate"@.len() == 8); }
        reveal_strlit("manifest");
        assert("claim.dispute"@ != "manifest"@) by { assert("claim.dispute"@.len() == 13 && "manifest"@.len() == 8); }
        reveal_strlit("supersede");
        assert("claim.dispute"@ != "supersede"@) by { assert("claim.dispute"@.len() == 13 && "supersede"@.len() == 9); }
        reveal_strlit("retract");
        assert("claim.dispute"@ != "retract"@) by { assert("claim.dispute"@.len() == 13 && "retract"@.len() == 7); }
        reveal_strlit("mirror");
        assert("claim.dispute"@ != "mirror"@) by { assert("claim.dispute"@.len() == 13 && "mirror"@.len() == 6); }
        reveal_strlit("similarity");
        assert("claim.dispute"@ != "similarity"@) by { assert("claim.dispute"@.len() == 13 && "similarity"@.len() == 10); }
        reveal_strlit("comment");
        assert("claim.dispute"@ != "comment"@) by { assert("claim.dispute"@.len() == 13 && "comment"@.len() == 7); }
        reveal_strlit("reaction");
        assert("claim.dispute"@ != "reaction"@) by { assert("claim.dispute"@.len() == 13 && "reaction"@.len() == 8); }
        reveal_strlit("follow");
        assert("claim.dispute"@ != "follow"@) by { assert("claim.dispute"@.len() == 13 && "follow"@.len() == 6); }
        reveal_strlit("playlist");
        assert("claim.dispute"@ != "playlist"@) by { assert("claim.dispute"@.len() == 13 && "playlist"@.len() == 8); }
        reveal_strlit("channel");
        assert("claim.dispute"@ != "channel"@) by { assert("claim.dispute"@.len() == 13 && "channel"@.len() == 7); }
        reveal_strlit("claim.author");
        assert("claim.dispute"@ != "claim.author"@) by { assert("claim.dispute"@.len() == 13 && "claim.author"@.len() == 12); }
        reveal_strlit("claim.license");
        assert("claim.dispute"@ != "claim.license"@) by { assert("claim.dispute"@[6] != "claim.license"@[6]); }
        reveal_strlit("claim.transfer");
        assert("claim.dispute"@ != "claim.transfer"@) by { assert("claim.dispute"@.len() == 13 && "claim.transfer"@.len() == 14); }
    }
    if kind == KIND_NOTICE_TAKEDOWN {
        reveal_strlit("notice.takedown");
        reveal_strlit("rotation");
        assert("notice.takedown"@ != "rotation"@) by { assert("notice.takedown"@.len() == 15 && "rotation"@.len() == 8); }
        reveal_strlit("profile");
        assert("notice.takedown"@ != "profile"@) by { assert("notice.takedown"@.len() == 15 && "profile"@.len() == 7); }
        reveal_strlit("delegate");
        assert("notice.takedown"@ != "delegate"@) by { assert("notice.takedown"@.len() == 15 && "delegate"@.len() == 8); }
        reveal_strlit("manifest");
        assert("notice.takedown"@ != "manifest"@) by { assert("notice.takedown"@.len() == 15 && "manifest"@.len() == 8); }
        reveal_strlit("supersede");
        assert("notice.takedown"@ != "supersede"@) by { assert("notice.takedown"@.len() == 15 && "supersede"@.len() == 9); }
        reveal_strlit("retract");
        assert("notice.takedown"@ != "retract"@) by { assert("notice.takedown"@.len() == 15 && "retract"@.len() == 7); }
        reveal_strlit("mirror");
        assert("notice.takedown"@ != "mirror"@) by { assert("notice.takedown"@.len() == 15 && "mirror"@.len() == 6); }
        reveal_strlit("similarity");
        assert("notice.takedown"@ != "similarity"@) by { assert("notice.takedown"@.len() == 15 && "similarity"@.len() == 10); }
        reveal_strlit("comment");
        assert("notice.takedown"@ != "comment"@) by { assert("notice.takedown"@.len() == 15 && "comment"@.len() == 7); }
        reveal_strlit("reaction");
        assert("notice.takedown"@ != "reaction"@) by { assert("notice.takedown"@.len() == 15 && "reaction"@.len() == 8); }
        reveal_strlit("follow");
        assert("notice.takedown"@ != "follow"@) by { assert("notice.takedown"@.len() == 15 && "follow"@.len() == 6); }
        reveal_strlit("playlist");
        assert("notice.takedown"@ != "playlist"@) by { assert("notice.takedown"@.len() == 15 && "playlist"@.len() == 8); }
        reveal_strlit("channel");
        assert("notice.takedown"@ != "channel"@) by { assert("notice.takedown"@.len() == 15 && "channel"@.len() == 7); }
        reveal_strlit("claim.author");
        assert("notice.takedown"@ != "claim.author"@) by { assert("notice.takedown"@.len() == 15 && "claim.author"@.len() == 12); }
        reveal_strlit("claim.license");
        assert("notice.takedown"@ != "claim.license"@) by { assert("notice.takedown"@.len() == 15 && "claim.license"@.len() == 13); }
        reveal_strlit("claim.transfer");
        assert("notice.takedown"@ != "claim.transfer"@) by { assert("notice.takedown"@.len() == 15 && "claim.transfer"@.len() == 14); }
        reveal_strlit("claim.dispute");
        assert("notice.takedown"@ != "claim.dispute"@) by { assert("notice.takedown"@.len() == 15 && "claim.dispute"@.len() == 13); }
    }
    if kind == KIND_NOTICE_COUNTER {
        reveal_strlit("notice.counter");
        reveal_strlit("rotation");
        assert("notice.counter"@ != "rotation"@) by { assert("notice.counter"@.len() == 14 && "rotation"@.len() == 8); }
        reveal_strlit("profile");
        assert("notice.counter"@ != "profile"@) by { assert("notice.counter"@.len() == 14 && "profile"@.len() == 7); }
        reveal_strlit("delegate");
        assert("notice.counter"@ != "delegate"@) by { assert("notice.counter"@.len() == 14 && "delegate"@.len() == 8); }
        reveal_strlit("manifest");
        assert("notice.counter"@ != "manifest"@) by { assert("notice.counter"@.len() == 14 && "manifest"@.len() == 8); }
        reveal_strlit("supersede");
        assert("notice.counter"@ != "supersede"@) by { assert("notice.counter"@.len() == 14 && "supersede"@.len() == 9); }
        reveal_strlit("retract");
        assert("notice.counter"@ != "retract"@) by { assert("notice.counter"@.len() == 14 && "retract"@.len() == 7); }
        reveal_strlit("mirror");
        assert("notice.counter"@ != "mirror"@) by { assert("notice.counter"@.len() == 14 && "mirror"@.len() == 6); }
        reveal_strlit("similarity");
        assert("notice.counter"@ != "similarity"@) by { assert("notice.counter"@.len() == 14 && "similarity"@.len() == 10); }
        reveal_strlit("comment");
        assert("notice.counter"@ != "comment"@) by { assert("notice.counter"@.len() == 14 && "comment"@.len() == 7); }
        reveal_strlit("reaction");
        assert("notice.counter"@ != "reaction"@) by { assert("notice.counter"@.len() == 14 && "reaction"@.len() == 8); }
        reveal_strlit("follow");
        assert("notice.counter"@ != "follow"@) by { assert("notice.counter"@.len() == 14 && "follow"@.len() == 6); }
        reveal_strlit("playlist");
        assert("notice.counter"@ != "playlist"@) by { assert("notice.counter"@.len() == 14 && "playlist"@.len() == 8); }
        reveal_strlit("channel");
        assert("notice.counter"@ != "channel"@) by { assert("notice.counter"@.len() == 14 && "channel"@.len() == 7); }
        reveal_strlit("claim.author");
        assert("notice.counter"@ != "claim.author"@) by { assert("notice.counter"@.len() == 14 && "claim.author"@.len() == 12); }
        reveal_strlit("claim.license");
        assert("notice.counter"@ != "claim.license"@) by { assert("notice.counter"@.len() == 14 && "claim.license"@.len() == 13); }
        reveal_strlit("claim.transfer");
        assert("notice.counter"@ != "claim.transfer"@) by { assert("notice.counter"@[0] != "claim.transfer"@[0]); }
        reveal_strlit("claim.dispute");
        assert("notice.counter"@ != "claim.dispute"@) by { assert("notice.counter"@.len() == 14 && "claim.dispute"@.len() == 13); }
        reveal_strlit("notice.takedown");
        assert("notice.counter"@ != "notice.takedown"@) by { assert("notice.counter"@.len() == 14 && "notice.takedown"@.len() == 15); }
    }
    if kind == KIND_FEED_TAKEDOWN {
        reveal_strlit("feed.takedown");
        reveal_strlit("rotation");
        assert("feed.takedown"@ != "rotation"@) by { assert("feed.takedown"@.len() == 13 && "rotation"@.len() == 8); }
        reveal_strlit("profile");
        assert("feed.takedown"@ != "profile"@) by { assert("feed.takedown"@.len() == 13 && "profile"@.len() == 7); }
        reveal_strlit("delegate");
        assert("feed.takedown"@ != "delegate"@) by { assert("feed.takedown"@.len() == 13 && "delegate"@.len() == 8); }
        reveal_strlit("manifest");
        assert("feed.takedown"@ != "manifest"@) by { assert("feed.takedown"@.len() == 13 && "manifest"@.len() == 8); }
        reveal_strlit("supersede");
        assert("feed.takedown"@ != "supersede"@) by { assert("feed.takedown"@.len() == 13 && "supersede"@.len() == 9); }
        reveal_strlit("retract");
        assert("feed.takedown"@ != "retract"@) by { assert("feed.takedown"@.len() == 13 && "retract"@.len() == 7); }
        reveal_strlit("mirror");
        assert("feed.takedown"@ != "mirror"@) by { assert("feed.takedown"@.len() == 13 && "mirror"@.len() == 6); }
        reveal_strlit("similarity");
        assert("feed.takedown"@ != "similarity"@) by { assert("feed.takedown"@.len() == 13 && "similarity"@.len() == 10); }
        reveal_strlit("comment");
        assert("feed.takedown"@ != "comment"@) by { assert("feed.takedown"@.len() == 13 && "comment"@.len() == 7); }
        reveal_strlit("reaction");
        assert("feed.takedown"@ != "reaction"@) by { assert("feed.takedown"@.len() == 13 && "reaction"@.len() == 8); }
        reveal_strlit("follow");
        assert("feed.takedown"@ != "follow"@) by { assert("feed.takedown"@.len() == 13 && "follow"@.len() == 6); }
        reveal_strlit("playlist");
        assert("feed.takedown"@ != "playlist"@) by { assert("feed.takedown"@.len() == 13 && "playlist"@.len() == 8); }
        reveal_strlit("channel");
        assert("feed.takedown"@ != "channel"@) by { assert("feed.takedown"@.len() == 13 && "channel"@.len() == 7); }
        reveal_strlit("claim.author");
        assert("feed.takedown"@ != "claim.author"@) by { assert("feed.takedown"@.len() == 13 && "claim.author"@.len() == 12); }
        reveal_strlit("claim.license");
        assert("feed.takedown"@ != "claim.license"@) by { assert("feed.takedown"@[0] != "claim.license"@[0]); }
        reveal_strlit("claim.transfer");
        assert("feed.takedown"@ != "claim.transfer"@) by { assert("feed.takedown"@.len() == 13 && "claim.transfer"@.len() == 14); }
        reveal_strlit("claim.dispute");
        assert("feed.takedown"@ != "claim.dispute"@) by { assert("feed.takedown"@[0] != "claim.dispute"@[0]); }
        reveal_strlit("notice.takedown");
        assert("feed.takedown"@ != "notice.takedown"@) by { assert("feed.takedown"@.len() == 13 && "notice.takedown"@.len() == 15); }
        reveal_strlit("notice.counter");
        assert("feed.takedown"@ != "notice.counter"@) by { assert("feed.takedown"@.len() == 13 && "notice.counter"@.len() == 14); }
    }
    if kind == KIND_ENDORSE_GATEWAY {
        reveal_strlit("endorse.gateway");
        reveal_strlit("rotation");
        assert("endorse.gateway"@ != "rotation"@) by { assert("endorse.gateway"@.len() == 15 && "rotation"@.len() == 8); }
        reveal_strlit("profile");
        assert("endorse.gateway"@ != "profile"@) by { assert("endorse.gateway"@.len() == 15 && "profile"@.len() == 7); }
        reveal_strlit("delegate");
        assert("endorse.gateway"@ != "delegate"@) by { assert("endorse.gateway"@.len() == 15 && "delegate"@.len() == 8); }
        reveal_strlit("manifest");
        assert("endorse.gateway"@ != "manifest"@) by { assert("endorse.gateway"@.len() == 15 && "manifest"@.len() == 8); }
        reveal_strlit("supersede");
        assert("endorse.gateway"@ != "supersede"@) by { assert("endorse.gateway"@.len() == 15 && "supersede"@.len() == 9); }
        reveal_strlit("retract");
        assert("endorse.gateway"@ != "retract"@) by { assert("endorse.gateway"@.len() == 15 && "retract"@.len() == 7); }
        reveal_strlit("mirror");
        assert("endorse.gateway"@ != "mirror"@) by { assert("endorse.gateway"@.len() == 15 && "mirror"@.len() == 6); }
        reveal_strlit("similarity");
        assert("endorse.gateway"@ != "similarity"@) by { assert("endorse.gateway"@.len() == 15 && "similarity"@.len() == 10); }
        reveal_strlit("comment");
        assert("endorse.gateway"@ != "comment"@) by { assert("endorse.gateway"@.len() == 15 && "comment"@.len() == 7); }
        reveal_strlit("reaction");
        assert("endorse.gateway"@ != "reaction"@) by { assert("endorse.gateway"@.len() == 15 && "reaction"@.len() == 8); }
        reveal_strlit("follow");
        assert("endorse.gateway"@ != "follow"@) by { assert("endorse.gateway"@.len() == 15 && "follow"@.len() == 6); }
        reveal_strlit("playlist");
        assert("endorse.gateway"@ != "playlist"@) by { assert("endorse.gateway"@.len() == 15 && "playlist"@.len() == 8); }
        reveal_strlit("channel");
        assert("endorse.gateway"@ != "channel"@) by { assert("endorse.gateway"@.len() == 15 && "channel"@.len() == 7); }
        reveal_strlit("claim.author");
        assert("endorse.gateway"@ != "claim.author"@) by { assert("endorse.gateway"@.len() == 15 && "claim.author"@.len() == 12); }
        reveal_strlit("claim.license");
        assert("endorse.gateway"@ != "claim.license"@) by { assert("endorse.gateway"@.len() == 15 && "claim.license"@.len() == 13); }
        reveal_strlit("claim.transfer");
        assert("endorse.gateway"@ != "claim.transfer"@) by { assert("endorse.gateway"@.len() == 15 && "claim.transfer"@.len() == 14); }
        reveal_strlit("claim.dispute");
        assert("endorse.gateway"@ != "claim.dispute"@) by { assert("endorse.gateway"@.len() == 15 && "claim.dispute"@.len() == 13); }
        reveal_strlit("notice.takedown");
        assert("endorse.gateway"@ != "notice.takedown"@) by { assert("endorse.gateway"@[0] != "notice.takedown"@[0]); }
        reveal_strlit("notice.counter");
        assert("endorse.gateway"@ != "notice.counter"@) by { assert("endorse.gateway"@.len() == 15 && "notice.counter"@.len() == 14); }
        reveal_strlit("feed.takedown");
        assert("endorse.gateway"@ != "feed.takedown"@) by { assert("endorse.gateway"@.len() == 15 && "feed.takedown"@.len() == 13); }
    }
    if kind == KIND_RECEIPT {
        reveal_strlit("receipt");
        reveal_strlit("rotation");
        assert("receipt"@ != "rotation"@) by { assert("receipt"@.len() == 7 && "rotation"@.len() == 8); }
        reveal_strlit("profile");
        assert("receipt"@ != "profile"@) by { assert("receipt"@[0] != "profile"@[0]); }
        reveal_strlit("delegate");
        assert("receipt"@ != "delegate"@) by { assert("receipt"@.len() == 7 && "delegate"@.len() == 8); }
        reveal_strlit("manifest");
        assert("receipt"@ != "manifest"@) by { assert("receipt"@.len() == 7 && "manifest"@.len() == 8); }
        reveal_strlit("supersede");
        assert("receipt"@ != "supersede"@) by { assert("receipt"@.len() == 7 && "supersede"@.len() == 9); }
        reveal_strlit("retract");
        assert("receipt"@ != "retract"@) by { assert("receipt"@[2] != "retract"@[2]); }
        reveal_strlit("mirror");
        assert("receipt"@ != "mirror"@) by { assert("receipt"@.len() == 7 && "mirror"@.len() == 6); }
        reveal_strlit("similarity");
        assert("receipt"@ != "similarity"@) by { assert("receipt"@.len() == 7 && "similarity"@.len() == 10); }
        reveal_strlit("comment");
        assert("receipt"@ != "comment"@) by { assert("receipt"@[0] != "comment"@[0]); }
        reveal_strlit("reaction");
        assert("receipt"@ != "reaction"@) by { assert("receipt"@.len() == 7 && "reaction"@.len() == 8); }
        reveal_strlit("follow");
        assert("receipt"@ != "follow"@) by { assert("receipt"@.len() == 7 && "follow"@.len() == 6); }
        reveal_strlit("playlist");
        assert("receipt"@ != "playlist"@) by { assert("receipt"@.len() == 7 && "playlist"@.len() == 8); }
        reveal_strlit("channel");
        assert("receipt"@ != "channel"@) by { assert("receipt"@[0] != "channel"@[0]); }
        reveal_strlit("claim.author");
        assert("receipt"@ != "claim.author"@) by { assert("receipt"@.len() == 7 && "claim.author"@.len() == 12); }
        reveal_strlit("claim.license");
        assert("receipt"@ != "claim.license"@) by { assert("receipt"@.len() == 7 && "claim.license"@.len() == 13); }
        reveal_strlit("claim.transfer");
        assert("receipt"@ != "claim.transfer"@) by { assert("receipt"@.len() == 7 && "claim.transfer"@.len() == 14); }
        reveal_strlit("claim.dispute");
        assert("receipt"@ != "claim.dispute"@) by { assert("receipt"@.len() == 7 && "claim.dispute"@.len() == 13); }
        reveal_strlit("notice.takedown");
        assert("receipt"@ != "notice.takedown"@) by { assert("receipt"@.len() == 7 && "notice.takedown"@.len() == 15); }
        reveal_strlit("notice.counter");
        assert("receipt"@ != "notice.counter"@) by { assert("receipt"@.len() == 7 && "notice.counter"@.len() == 14); }
        reveal_strlit("feed.takedown");
        assert("receipt"@ != "feed.takedown"@) by { assert("receipt"@.len() == 7 && "feed.takedown"@.len() == 13); }
        reveal_strlit("endorse.gateway");
        assert("receipt"@ != "endorse.gateway"@) by { assert("receipt"@.len() == 7 && "endorse.gateway"@.len() == 15); }
    }
    if kind == KIND_ATTEST {
        reveal_strlit("attest");
        reveal_strlit("rotation");
        assert("attest"@ != "rotation"@) by { assert("attest"@.len() == 6 && "rotation"@.len() == 8); }
        reveal_strlit("profile");
        assert("attest"@ != "profile"@) by { assert("attest"@.len() == 6 && "profile"@.len() == 7); }
        reveal_strlit("delegate");
        assert("attest"@ != "delegate"@) by { assert("attest"@.len() == 6 && "delegate"@.len() == 8); }
        reveal_strlit("manifest");
        assert("attest"@ != "manifest"@) by { assert("attest"@.len() == 6 && "manifest"@.len() == 8); }
        reveal_strlit("supersede");
        assert("attest"@ != "supersede"@) by { assert("attest"@.len() == 6 && "supersede"@.len() == 9); }
        reveal_strlit("retract");
        assert("attest"@ != "retract"@) by { assert("attest"@.len() == 6 && "retract"@.len() == 7); }
        reveal_strlit("mirror");
        assert("attest"@ != "mirror"@) by { assert("attest"@[0] != "mirror"@[0]); }
        reveal_strlit("similarity");
        assert("attest"@ != "similarity"@) by { assert("attest"@.len() == 6 && "similarity"@.len() == 10); }
        reveal_strlit("comment");
        assert("attest"@ != "comment"@) by { assert("attest"@.len() == 6 && "comment"@.len() == 7); }
        reveal_strlit("reaction");
        assert("attest"@ != "reaction"@) by { assert("attest"@.len() == 6 && "reaction"@.len() == 8); }
        reveal_strlit("follow");
        assert("attest"@ != "follow"@) by { assert("attest"@[0] != "follow"@[0]); }
        reveal_strlit("playlist");
        assert("attest"@ != "playlist"@) by { assert("attest"@.len() == 6 && "playlist"@.len() == 8); }
        reveal_strlit("channel");
        assert("attest"@ != "channel"@) by { assert("attest"@.len() == 6 && "channel"@.len() == 7); }
        reveal_strlit("claim.author");
        assert("attest"@ != "claim.author"@) by { assert("attest"@.len() == 6 && "claim.author"@.len() == 12); }
        reveal_strlit("claim.license");
        assert("attest"@ != "claim.license"@) by { assert("attest"@.len() == 6 && "claim.license"@.len() == 13); }
        reveal_strlit("claim.transfer");
        assert("attest"@ != "claim.transfer"@) by { assert("attest"@.len() == 6 && "claim.transfer"@.len() == 14); }
        reveal_strlit("claim.dispute");
        assert("attest"@ != "claim.dispute"@) by { assert("attest"@.len() == 6 && "claim.dispute"@.len() == 13); }
        reveal_strlit("notice.takedown");
        assert("attest"@ != "notice.takedown"@) by { assert("attest"@.len() == 6 && "notice.takedown"@.len() == 15); }
        reveal_strlit("notice.counter");
        assert("attest"@ != "notice.counter"@) by { assert("attest"@.len() == 6 && "notice.counter"@.len() == 14); }
        reveal_strlit("feed.takedown");
        assert("attest"@ != "feed.takedown"@) by { assert("attest"@.len() == 6 && "feed.takedown"@.len() == 13); }
        reveal_strlit("endorse.gateway");
        assert("attest"@ != "endorse.gateway"@) by { assert("attest"@.len() == 6 && "endorse.gateway"@.len() == 15); }
        reveal_strlit("receipt");
        assert("attest"@ != "receipt"@) by { assert("attest"@.len() == 6 && "receipt"@.len() == 7); }
    }
    if kind == KIND_ANCHOR {
        reveal_strlit("anchor");
        reveal_strlit("rotation");
        assert("anchor"@ != "rotation"@) by { assert("anchor"@.len() == 6 && "rotation"@.len() == 8); }
        reveal_strlit("profile");
        assert("anchor"@ != "profile"@) by { assert("anchor"@.len() == 6 && "profile"@.len() == 7); }
        reveal_strlit("delegate");
        assert("anchor"@ != "delegate"@) by { assert("anchor"@.len() == 6 && "delegate"@.len() == 8); }
        reveal_strlit("manifest");
        assert("anchor"@ != "manifest"@) by { assert("anchor"@.len() == 6 && "manifest"@.len() == 8); }
        reveal_strlit("supersede");
        assert("anchor"@ != "supersede"@) by { assert("anchor"@.len() == 6 && "supersede"@.len() == 9); }
        reveal_strlit("retract");
        assert("anchor"@ != "retract"@) by { assert("anchor"@.len() == 6 && "retract"@.len() == 7); }
        reveal_strlit("mirror");
        assert("anchor"@ != "mirror"@) by { assert("anchor"@[0] != "mirror"@[0]); }
        reveal_strlit("similarity");
        assert("anchor"@ != "similarity"@) by { assert("anchor"@.len() == 6 && "similarity"@.len() == 10); }
        reveal_strlit("comment");
        assert("anchor"@ != "comment"@) by { assert("anchor"@.len() == 6 && "comment"@.len() == 7); }
        reveal_strlit("reaction");
        assert("anchor"@ != "reaction"@) by { assert("anchor"@.len() == 6 && "reaction"@.len() == 8); }
        reveal_strlit("follow");
        assert("anchor"@ != "follow"@) by { assert("anchor"@[0] != "follow"@[0]); }
        reveal_strlit("playlist");
        assert("anchor"@ != "playlist"@) by { assert("anchor"@.len() == 6 && "playlist"@.len() == 8); }
        reveal_strlit("channel");
        assert("anchor"@ != "channel"@) by { assert("anchor"@.len() == 6 && "channel"@.len() == 7); }
        reveal_strlit("claim.author");
        assert("anchor"@ != "claim.author"@) by { assert("anchor"@.len() == 6 && "claim.author"@.len() == 12); }
        reveal_strlit("claim.license");
        assert("anchor"@ != "claim.license"@) by { assert("anchor"@.len() == 6 && "claim.license"@.len() == 13); }
        reveal_strlit("claim.transfer");
        assert("anchor"@ != "claim.transfer"@) by { assert("anchor"@.len() == 6 && "claim.transfer"@.len() == 14); }
        reveal_strlit("claim.dispute");
        assert("anchor"@ != "claim.dispute"@) by { assert("anchor"@.len() == 6 && "claim.dispute"@.len() == 13); }
        reveal_strlit("notice.takedown");
        assert("anchor"@ != "notice.takedown"@) by { assert("anchor"@.len() == 6 && "notice.takedown"@.len() == 15); }
        reveal_strlit("notice.counter");
        assert("anchor"@ != "notice.counter"@) by { assert("anchor"@.len() == 6 && "notice.counter"@.len() == 14); }
        reveal_strlit("feed.takedown");
        assert("anchor"@ != "feed.takedown"@) by { assert("anchor"@.len() == 6 && "feed.takedown"@.len() == 13); }
        reveal_strlit("endorse.gateway");
        assert("anchor"@ != "endorse.gateway"@) by { assert("anchor"@.len() == 6 && "endorse.gateway"@.len() == 15); }
        reveal_strlit("receipt");
        assert("anchor"@ != "receipt"@) by { assert("anchor"@.len() == 6 && "receipt"@.len() == 7); }
        reveal_strlit("attest");
        assert("anchor"@ != "attest"@) by { assert("anchor"@[1] != "attest"@[1]); }
    }
    if kind == KIND_KEYGRANT {
        reveal_strlit("keygrant");
        reveal_strlit("rotation");
        assert("keygrant"@ != "rotation"@) by { assert("keygrant"@[0] != "rotation"@[0]); }
        reveal_strlit("profile");
        assert("keygrant"@ != "profile"@) by { assert("keygrant"@.len() == 8 && "profile"@.len() == 7); }
        reveal_strlit("delegate");
        assert("keygrant"@ != "delegate"@) by { assert("keygrant"@[0] != "delegate"@[0]); }
        reveal_strlit("manifest");
        assert("keygrant"@ != "manifest"@) by { assert("keygrant"@[0] != "manifest"@[0]); }
        reveal_strlit("supersede");
        assert("keygrant"@ != "supersede"@) by { assert("keygrant"@.len() == 8 && "supersede"@.len() == 9); }
        reveal_strlit("retract");
        assert("keygrant"@ != "retract"@) by { assert("keygrant"@.len() == 8 && "retract"@.len() == 7); }
        reveal_strlit("mirror");
        assert("keygrant"@ != "mirror"@) by { assert("keygrant"@.len() == 8 && "mirror"@.len() == 6); }
        reveal_strlit("similarity");
        assert("keygrant"@ != "similarity"@) by { assert("keygrant"@.len() == 8 && "similarity"@.len() == 10); }
        reveal_strlit("comment");
        assert("keygrant"@ != "comment"@) by { assert("keygrant"@.len() == 8 && "comment"@.len() == 7); }
        reveal_strlit("reaction");
        assert("keygrant"@ != "reaction"@) by { assert("keygrant"@[0] != "reaction"@[0]); }
        reveal_strlit("follow");
        assert("keygrant"@ != "follow"@) by { assert("keygrant"@.len() == 8 && "follow"@.len() == 6); }
        reveal_strlit("playlist");
        assert("keygrant"@ != "playlist"@) by { assert("keygrant"@[0] != "playlist"@[0]); }
        reveal_strlit("channel");
        assert("keygrant"@ != "channel"@) by { assert("keygrant"@.len() == 8 && "channel"@.len() == 7); }
        reveal_strlit("claim.author");
        assert("keygrant"@ != "claim.author"@) by { assert("keygrant"@.len() == 8 && "claim.author"@.len() == 12); }
        reveal_strlit("claim.license");
        assert("keygrant"@ != "claim.license"@) by { assert("keygrant"@.len() == 8 && "claim.license"@.len() == 13); }
        reveal_strlit("claim.transfer");
        assert("keygrant"@ != "claim.transfer"@) by { assert("keygrant"@.len() == 8 && "claim.transfer"@.len() == 14); }
        reveal_strlit("claim.dispute");
        assert("keygrant"@ != "claim.dispute"@) by { assert("keygrant"@.len() == 8 && "claim.dispute"@.len() == 13); }
        reveal_strlit("notice.takedown");
        assert("keygrant"@ != "notice.takedown"@) by { assert("keygrant"@.len() == 8 && "notice.takedown"@.len() == 15); }
        reveal_strlit("notice.counter");
        assert("keygrant"@ != "notice.counter"@) by { assert("keygrant"@.len() == 8 && "notice.counter"@.len() == 14); }
        reveal_strlit("feed.takedown");
        assert("keygrant"@ != "feed.takedown"@) by { assert("keygrant"@.len() == 8 && "feed.takedown"@.len() == 13); }
        reveal_strlit("endorse.gateway");
        assert("keygrant"@ != "endorse.gateway"@) by { assert("keygrant"@.len() == 8 && "endorse.gateway"@.len() == 15); }
        reveal_strlit("receipt");
        assert("keygrant"@ != "receipt"@) by { assert("keygrant"@.len() == 8 && "receipt"@.len() == 7); }
        reveal_strlit("attest");
        assert("keygrant"@ != "attest"@) by { assert("keygrant"@.len() == 8 && "attest"@.len() == 6); }
        reveal_strlit("anchor");
        assert("keygrant"@ != "anchor"@) by { assert("keygrant"@.len() == 8 && "anchor"@.len() == 6); }
    }
    if kind == KIND_LIVE_MANIFEST {
        reveal_strlit("live.manifest");
        reveal_strlit("rotation");
        assert("live.manifest"@ != "rotation"@) by { assert("live.manifest"@.len() == 13 && "rotation"@.len() == 8); }
        reveal_strlit("profile");
        assert("live.manifest"@ != "profile"@) by { assert("live.manifest"@.len() == 13 && "profile"@.len() == 7); }
        reveal_strlit("delegate");
        assert("live.manifest"@ != "delegate"@) by { assert("live.manifest"@.len() == 13 && "delegate"@.len() == 8); }
        reveal_strlit("manifest");
        assert("live.manifest"@ != "manifest"@) by { assert("live.manifest"@.len() == 13 && "manifest"@.len() == 8); }
        reveal_strlit("supersede");
        assert("live.manifest"@ != "supersede"@) by { assert("live.manifest"@.len() == 13 && "supersede"@.len() == 9); }
        reveal_strlit("retract");
        assert("live.manifest"@ != "retract"@) by { assert("live.manifest"@.len() == 13 && "retract"@.len() == 7); }
        reveal_strlit("mirror");
        assert("live.manifest"@ != "mirror"@) by { assert("live.manifest"@.len() == 13 && "mirror"@.len() == 6); }
        reveal_strlit("similarity");
        assert("live.manifest"@ != "similarity"@) by { assert("live.manifest"@.len() == 13 && "similarity"@.len() == 10); }
        reveal_strlit("comment");
        assert("live.manifest"@ != "comment"@) by { assert("live.manifest"@.len() == 13 && "comment"@.len() == 7); }
        reveal_strlit("reaction");
        assert("live.manifest"@ != "reaction"@) by { assert("live.manifest"@.len() == 13 && "reaction"@.len() == 8); }
        reveal_strlit("follow");
        assert("live.manifest"@ != "follow"@) by { assert("live.manifest"@.len() == 13 && "follow"@.len() == 6); }
        reveal_strlit("playlist");
        assert("live.manifest"@ != "playlist"@) by { assert("live.manifest"@.len() == 13 && "playlist"@.len() == 8); }
        reveal_strlit("channel");
        assert("live.manifest"@ != "channel"@) by { assert("live.manifest"@.len() == 13 && "channel"@.len() == 7); }
        reveal_strlit("claim.author");
        assert("live.manifest"@ != "claim.author"@) by { assert("live.manifest"@.len() == 13 && "claim.author"@.len() == 12); }
        reveal_strlit("claim.license");
        assert("live.manifest"@ != "claim.license"@) by { assert("live.manifest"@[0] != "claim.license"@[0]); }
        reveal_strlit("claim.transfer");
        assert("live.manifest"@ != "claim.transfer"@) by { assert("live.manifest"@.len() == 13 && "claim.transfer"@.len() == 14); }
        reveal_strlit("claim.dispute");
        assert("live.manifest"@ != "claim.dispute"@) by { assert("live.manifest"@[0] != "claim.dispute"@[0]); }
        reveal_strlit("notice.takedown");
        assert("live.manifest"@ != "notice.takedown"@) by { assert("live.manifest"@.len() == 13 && "notice.takedown"@.len() == 15); }
        reveal_strlit("notice.counter");
        assert("live.manifest"@ != "notice.counter"@) by { assert("live.manifest"@.len() == 13 && "notice.counter"@.len() == 14); }
        reveal_strlit("feed.takedown");
        assert("live.manifest"@ != "feed.takedown"@) by { assert("live.manifest"@[0] != "feed.takedown"@[0]); }
        reveal_strlit("endorse.gateway");
        assert("live.manifest"@ != "endorse.gateway"@) by { assert("live.manifest"@.len() == 13 && "endorse.gateway"@.len() == 15); }
        reveal_strlit("receipt");
        assert("live.manifest"@ != "receipt"@) by { assert("live.manifest"@.len() == 13 && "receipt"@.len() == 7); }
        reveal_strlit("attest");
        assert("live.manifest"@ != "attest"@) by { assert("live.manifest"@.len() == 13 && "attest"@.len() == 6); }
        reveal_strlit("anchor");
        assert("live.manifest"@ != "anchor"@) by { assert("live.manifest"@.len() == 13 && "anchor"@.len() == 6); }
        reveal_strlit("keygrant");
        assert("live.manifest"@ != "keygrant"@) by { assert("live.manifest"@.len() == 13 && "keygrant"@.len() == 8); }
    }
    if kind == KIND_LIVE_CHAT {
        reveal_strlit("live.chat");
        reveal_strlit("rotation");
        assert("live.chat"@ != "rotation"@) by { assert("live.chat"@.len() == 9 && "rotation"@.len() == 8); }
        reveal_strlit("profile");
        assert("live.chat"@ != "profile"@) by { assert("live.chat"@.len() == 9 && "profile"@.len() == 7); }
        reveal_strlit("delegate");
        assert("live.chat"@ != "delegate"@) by { assert("live.chat"@.len() == 9 && "delegate"@.len() == 8); }
        reveal_strlit("manifest");
        assert("live.chat"@ != "manifest"@) by { assert("live.chat"@.len() == 9 && "manifest"@.len() == 8); }
        reveal_strlit("supersede");
        assert("live.chat"@ != "supersede"@) by { assert("live.chat"@[0] != "supersede"@[0]); }
        reveal_strlit("retract");
        assert("live.chat"@ != "retract"@) by { assert("live.chat"@.len() == 9 && "retract"@.len() == 7); }
        reveal_strlit("mirror");
        assert("live.chat"@ != "mirror"@) by { assert("live.chat"@.len() == 9 && "mirror"@.len() == 6); }
        reveal_strlit("similarity");
        assert("live.chat"@ != "similarity"@) by { assert("live.chat"@.len() == 9 && "similarity"@.len() == 10); }
        reveal_strlit("comment");
        assert("live.chat"@ != "comment"@) by { assert("live.chat"@.len() == 9 && "comment"@.len() == 7); }
        reveal_strlit("reaction");
        assert("live.chat"@ != "reaction"@) by { assert("live.chat"@.len() == 9 && "reaction"@.len() == 8); }
        reveal_strlit("follow");
        assert("live.chat"@ != "follow"@) by { assert("live.chat"@.len() == 9 && "follow"@.len() == 6); }
        reveal_strlit("playlist");
        assert("live.chat"@ != "playlist"@) by { assert("live.chat"@.len() == 9 && "playlist"@.len() == 8); }
        reveal_strlit("channel");
        assert("live.chat"@ != "channel"@) by { assert("live.chat"@.len() == 9 && "channel"@.len() == 7); }
        reveal_strlit("claim.author");
        assert("live.chat"@ != "claim.author"@) by { assert("live.chat"@.len() == 9 && "claim.author"@.len() == 12); }
        reveal_strlit("claim.license");
        assert("live.chat"@ != "claim.license"@) by { assert("live.chat"@.len() == 9 && "claim.license"@.len() == 13); }
        reveal_strlit("claim.transfer");
        assert("live.chat"@ != "claim.transfer"@) by { assert("live.chat"@.len() == 9 && "claim.transfer"@.len() == 14); }
        reveal_strlit("claim.dispute");
        assert("live.chat"@ != "claim.dispute"@) by { assert("live.chat"@.len() == 9 && "claim.dispute"@.len() == 13); }
        reveal_strlit("notice.takedown");
        assert("live.chat"@ != "notice.takedown"@) by { assert("live.chat"@.len() == 9 && "notice.takedown"@.len() == 15); }
        reveal_strlit("notice.counter");
        assert("live.chat"@ != "notice.counter"@) by { assert("live.chat"@.len() == 9 && "notice.counter"@.len() == 14); }
        reveal_strlit("feed.takedown");
        assert("live.chat"@ != "feed.takedown"@) by { assert("live.chat"@.len() == 9 && "feed.takedown"@.len() == 13); }
        reveal_strlit("endorse.gateway");
        assert("live.chat"@ != "endorse.gateway"@) by { assert("live.chat"@.len() == 9 && "endorse.gateway"@.len() == 15); }
        reveal_strlit("receipt");
        assert("live.chat"@ != "receipt"@) by { assert("live.chat"@.len() == 9 && "receipt"@.len() == 7); }
        reveal_strlit("attest");
        assert("live.chat"@ != "attest"@) by { assert("live.chat"@.len() == 9 && "attest"@.len() == 6); }
        reveal_strlit("anchor");
        assert("live.chat"@ != "anchor"@) by { assert("live.chat"@.len() == 9 && "anchor"@.len() == 6); }
        reveal_strlit("keygrant");
        assert("live.chat"@ != "keygrant"@) by { assert("live.chat"@.len() == 9 && "keygrant"@.len() == 8); }
        reveal_strlit("live.manifest");
        assert("live.chat"@ != "live.manifest"@) by { assert("live.chat"@.len() == 9 && "live.manifest"@.len() == 13); }
    }
}


/// The refs shape of a rotation: a genesis (zero identity id) has no
/// refs; any other rotation has exactly one record ref, its parent.
pub open spec fn rotation_refs_ok(r: RecordModel) -> bool {
    if r.identity_id == zero32() {
        r.refs.len() == 0
    } else {
        r.refs.len() == 1 && r.refs[0].ref_type == 0
    }
}

/// Whether a manifest is kind-valid: it parses, and every rendition's
/// derivation signature verifies against the original blob.
pub open spec fn manifest_valid(r: RecordModel) -> bool {
    match manifest_of(r) {
        Some(m) => forall|i: int| 0 <= i < m.renditions.len() ==> derivation_ok(#[trigger] m.renditions[i], m.original.blob),
        None => false,
    }
}

/// The kinds whose rules this library knows.
pub open spec fn known_kind(k: u64) -> bool {
    ||| k == KIND_ROTATION
    ||| k == KIND_MANIFEST
    ||| k == KIND_PROFILE
    ||| k == KIND_DELEGATE
    ||| k == KIND_SUPERSEDE
    ||| k == KIND_RETRACT
    ||| k == KIND_MIRROR
    ||| k == KIND_SIMILARITY
    ||| k == KIND_COMMENT
    ||| k == KIND_REACTION
    ||| k == KIND_FOLLOW
    ||| k == KIND_PLAYLIST
    ||| k == KIND_CHANNEL
    ||| k == KIND_CLAIM_AUTHOR
    ||| k == KIND_CLAIM_LICENSE
    ||| k == KIND_CLAIM_TRANSFER
    ||| k == KIND_CLAIM_DISPUTE
    ||| k == KIND_NOTICE_TAKEDOWN
    ||| k == KIND_NOTICE_COUNTER
    ||| k == KIND_FEED_TAKEDOWN
    ||| k == KIND_ENDORSE_GATEWAY
    ||| k == KIND_RECEIPT
    ||| k == KIND_ATTEST
    ||| k == KIND_ANCHOR
    ||| k == KIND_KEYGRANT
    ||| k == KIND_LIVE_MANIFEST
    ||| k == KIND_LIVE_CHAT
}

/// Whether a record is kind-valid: the rules of its kind hold; a kind
/// this library does not know is valid.
pub open spec fn kind_valid(r: RecordModel) -> bool {
    let k = r.kind;
    if k == KIND_ROTATION {
        rotation_refs_ok(r)
    } else if k == KIND_PROFILE {
        profile_of(r) is Some
    } else if k == KIND_DELEGATE {
        delegate_of(r) is Some
    } else if k == KIND_MANIFEST {
        manifest_valid(r)
    } else if k == KIND_SUPERSEDE {
        supersede_of(r) is Some
    } else if k == KIND_RETRACT {
        retract_of(r) is Some
    } else if k == KIND_MIRROR {
        mirror_of(r) is Some
    } else if k == KIND_SIMILARITY {
        similarity_of(r) is Some
    } else if k == KIND_COMMENT {
        comment_of(r) is Some
    } else if k == KIND_REACTION {
        reaction_of(r) is Some
    } else if k == KIND_FOLLOW {
        follow_of(r) is Some
    } else if k == KIND_PLAYLIST {
        playlist_of(r) is Some
    } else if k == KIND_CHANNEL {
        channel_of(r) is Some
    } else if k == KIND_CLAIM_AUTHOR {
        claim_author_of(r) is Some
    } else if k == KIND_CLAIM_LICENSE {
        claim_license_of(r) is Some
    } else if k == KIND_CLAIM_TRANSFER {
        claim_transfer_of(r) is Some
    } else if k == KIND_CLAIM_DISPUTE {
        claim_dispute_of(r) is Some
    } else if k == KIND_NOTICE_TAKEDOWN {
        notice_takedown_of(r) is Some
    } else if k == KIND_NOTICE_COUNTER {
        notice_counter_of(r) is Some
    } else if k == KIND_FEED_TAKEDOWN {
        feed_takedown_of(r) is Some
    } else if k == KIND_ENDORSE_GATEWAY {
        endorse_gateway_of(r) is Some
    } else if k == KIND_RECEIPT {
        receipt_of(r) is Some
    } else if k == KIND_ATTEST {
        attest_of(r) is Some
    } else if k == KIND_ANCHOR {
        anchor_of(r) is Some
    } else if k == KIND_KEYGRANT {
        keygrant_of(r) is Some
    } else if k == KIND_LIVE_MANIFEST {
        live_manifest_of(r) is Some
    } else if k == KIND_LIVE_CHAT {
        live_chat_of(r) is Some
    } else {
        true
    }
}

/// The refs shape of a rotation (see [`rotation_refs_ok`]); the rest of
/// a rotation's validity is the chain's business.
fn validate_rotation_refs(record: &Record) -> (res: Result<(), Error>)
    ensures
        res is Ok <==> rotation_refs_ok(record@),
        res matches Err(e) ==> e is Kind,
{
    let zero = IdentityId::zero();
    proof {
        assert(zero.0@ =~= zero32());
    }
    if crate::text::bytes_eq(&record.author().identity_id.0, &zero.0) {
        if record.refs().len() == 0 {
            Ok(())
        } else {
            Err(Error::Kind("rotation: genesis record must have empty refs"))
        }
    } else {
        if record.refs().len() != 1 || !record.refs()[0].is_record() {
            return Err(Error::Kind("rotation: non-genesis record must have exactly one record ref"));
        }
        Ok(())
    }
}

/// A manifest's full kind validity (see [`manifest_valid`]).
fn validate_manifest(record: &Record) -> (res: Result<(), Error>)
    ensures
        res is Ok <==> manifest_valid(record@),
        res matches Err(e) ==> e is Kind,
{
    let manifest = match Manifest::parse(record) {
        Ok(m) => m,
        Err(e) => {
            return Err(e);
        },
    };
    let mut i: usize = 0;
    while i < manifest.renditions.len()
        invariant
            i <= manifest.renditions.len(),
            manifest_of(record@) == Some(manifest@),
            forall|k: int| 0 <= k < i ==> derivation_ok(#[trigger] manifest@.renditions[k], manifest@.original.blob),
        decreases manifest.renditions.len() - i,
    {
        match verify_derivation(&manifest.renditions[i], &manifest.original.blob) {
            Ok(()) => {},
            Err(e) => {
                assert(!derivation_ok(manifest@.renditions[i as int], manifest@.original.blob));
                return Err(e);
            },
        }
        i = i + 1;
    }
    Ok(())
}

/// Kind-level validation: the rules of the record's kind (see
/// [`kind_valid`]). Unknown kinds pass. This does not check the
/// envelope or signature (see [`Record::verify`]), nor the rules that
/// need a second record (the `check_*` functions).
pub fn validate(record: &Record) -> (res: Result<(), Error>)
    ensures
        res is Ok <==> kind_valid(record@),
        res matches Err(e) ==> e is Kind,
        record@.kind == KIND_ROTATION ==> (res is Ok <==> (if record@.identity_id == zero32() { record@.refs.len() == 0 } else { record@.refs.len() == 1 && record@.refs[0].ref_type == 0 })),
        record@.kind == KIND_MANIFEST ==> (res is Ok <==> (manifest_of(record@) matches Some(m) && forall|i: int| 0 <= i < m.renditions.len() ==> derivation_ok(#[trigger] m.renditions[i], m.original.blob))),
        record@.kind == KIND_PROFILE ==> (res is Ok <==> profile_of(record@) is Some),
        record@.kind == KIND_DELEGATE ==> (res is Ok <==> delegate_of(record@) is Some),
        record@.kind == KIND_SUPERSEDE ==> (res is Ok <==> supersede_of(record@) is Some),
        record@.kind == KIND_RETRACT ==> (res is Ok <==> retract_of(record@) is Some),
        record@.kind == KIND_MIRROR ==> (res is Ok <==> mirror_of(record@) is Some),
        record@.kind == KIND_SIMILARITY ==> (res is Ok <==> similarity_of(record@) is Some),
        record@.kind == KIND_COMMENT ==> (res is Ok <==> comment_of(record@) is Some),
        record@.kind == KIND_REACTION ==> (res is Ok <==> reaction_of(record@) is Some),
        record@.kind == KIND_FOLLOW ==> (res is Ok <==> follow_of(record@) is Some),
        record@.kind == KIND_PLAYLIST ==> (res is Ok <==> playlist_of(record@) is Some),
        record@.kind == KIND_CHANNEL ==> (res is Ok <==> channel_of(record@) is Some),
        record@.kind == KIND_CLAIM_AUTHOR ==> (res is Ok <==> claim_author_of(record@) is Some),
        record@.kind == KIND_CLAIM_LICENSE ==> (res is Ok <==> claim_license_of(record@) is Some),
        record@.kind == KIND_CLAIM_TRANSFER ==> (res is Ok <==> claim_transfer_of(record@) is Some),
        record@.kind == KIND_CLAIM_DISPUTE ==> (res is Ok <==> claim_dispute_of(record@) is Some),
        record@.kind == KIND_NOTICE_TAKEDOWN ==> (res is Ok <==> notice_takedown_of(record@) is Some),
        record@.kind == KIND_NOTICE_COUNTER ==> (res is Ok <==> notice_counter_of(record@) is Some),
        record@.kind == KIND_FEED_TAKEDOWN ==> (res is Ok <==> feed_takedown_of(record@) is Some),
        record@.kind == KIND_ENDORSE_GATEWAY ==> (res is Ok <==> endorse_gateway_of(record@) is Some),
        record@.kind == KIND_RECEIPT ==> (res is Ok <==> receipt_of(record@) is Some),
        record@.kind == KIND_ATTEST ==> (res is Ok <==> attest_of(record@) is Some),
        record@.kind == KIND_ANCHOR ==> (res is Ok <==> anchor_of(record@) is Some),
        record@.kind == KIND_KEYGRANT ==> (res is Ok <==> keygrant_of(record@) is Some),
        record@.kind == KIND_LIVE_MANIFEST ==> (res is Ok <==> live_manifest_of(record@) is Some),
        record@.kind == KIND_LIVE_CHAT ==> (res is Ok <==> live_chat_of(record@) is Some),
        !known_kind(record@.kind) ==> res is Ok,
{
    let k = record.kind();
    if k == KIND_ROTATION {
        validate_rotation_refs(record)
    } else if k == KIND_PROFILE {
        match Profile::parse(record) { Ok(_) => Ok(()), Err(e) => Err(e) }
    } else if k == KIND_DELEGATE {
        match Delegate::parse(record) { Ok(_) => Ok(()), Err(e) => Err(e) }
    } else if k == KIND_MANIFEST {
        validate_manifest(record)
    } else if k == KIND_SUPERSEDE {
        match Supersede::parse(record) { Ok(_) => Ok(()), Err(e) => Err(e) }
    } else if k == KIND_RETRACT {
        match Retract::parse(record) { Ok(_) => Ok(()), Err(e) => Err(e) }
    } else if k == KIND_MIRROR {
        match Mirror::parse(record) { Ok(_) => Ok(()), Err(e) => Err(e) }
    } else if k == KIND_SIMILARITY {
        match Similarity::parse(record) { Ok(_) => Ok(()), Err(e) => Err(e) }
    } else if k == KIND_COMMENT {
        match Comment::parse(record) { Ok(_) => Ok(()), Err(e) => Err(e) }
    } else if k == KIND_REACTION {
        match Reaction::parse(record) { Ok(_) => Ok(()), Err(e) => Err(e) }
    } else if k == KIND_FOLLOW {
        match Follow::parse(record) { Ok(_) => Ok(()), Err(e) => Err(e) }
    } else if k == KIND_PLAYLIST {
        match Playlist::parse(record) { Ok(_) => Ok(()), Err(e) => Err(e) }
    } else if k == KIND_CHANNEL {
        match Channel::parse(record) { Ok(_) => Ok(()), Err(e) => Err(e) }
    } else if k == KIND_CLAIM_AUTHOR {
        match ClaimAuthor::parse(record) { Ok(_) => Ok(()), Err(e) => Err(e) }
    } else if k == KIND_CLAIM_LICENSE {
        match ClaimLicense::parse(record) { Ok(_) => Ok(()), Err(e) => Err(e) }
    } else if k == KIND_CLAIM_TRANSFER {
        match ClaimTransfer::parse(record) { Ok(_) => Ok(()), Err(e) => Err(e) }
    } else if k == KIND_CLAIM_DISPUTE {
        match ClaimDispute::parse(record) { Ok(_) => Ok(()), Err(e) => Err(e) }
    } else if k == KIND_NOTICE_TAKEDOWN {
        match NoticeTakedown::parse(record) { Ok(_) => Ok(()), Err(e) => Err(e) }
    } else if k == KIND_NOTICE_COUNTER {
        match NoticeCounter::parse(record) { Ok(_) => Ok(()), Err(e) => Err(e) }
    } else if k == KIND_FEED_TAKEDOWN {
        match FeedTakedown::parse(record) { Ok(_) => Ok(()), Err(e) => Err(e) }
    } else if k == KIND_ENDORSE_GATEWAY {
        match EndorseGateway::parse(record) { Ok(_) => Ok(()), Err(e) => Err(e) }
    } else if k == KIND_RECEIPT {
        match Receipt::parse(record) { Ok(_) => Ok(()), Err(e) => Err(e) }
    } else if k == KIND_ATTEST {
        match Attest::parse(record) { Ok(_) => Ok(()), Err(e) => Err(e) }
    } else if k == KIND_ANCHOR {
        match Anchor::parse(record) { Ok(_) => Ok(()), Err(e) => Err(e) }
    } else if k == KIND_KEYGRANT {
        match Keygrant::parse(record) { Ok(_) => Ok(()), Err(e) => Err(e) }
    } else if k == KIND_LIVE_MANIFEST {
        match LiveManifest::parse(record) { Ok(_) => Ok(()), Err(e) => Err(e) }
    } else if k == KIND_LIVE_CHAT {
        match LiveChat::parse(record) { Ok(_) => Ok(()), Err(e) => Err(e) }
    } else {
        Ok(())
    }
}

/// Validation follows the parser of each kind: a record of a kind this
/// library knows is valid exactly when that kind's parser (or, for a
/// rotation, the refs rule of the chain; for a manifest, the parser and
/// every rendition's derivation signature) accepts it, and a record of
/// another kind is valid.
pub proof fn lemma_validity_by_kind(r: RecordModel)
    ensures
        r.kind == KIND_ROTATION ==> (kind_valid(r) <==> (if r.identity_id == zero32() { r.refs.len() == 0 } else { r.refs.len() == 1 && r.refs[0].ref_type == 0 })),
        r.kind == KIND_MANIFEST ==> (kind_valid(r) <==> (manifest_of(r) matches Some(m) && forall|i: int| 0 <= i < m.renditions.len() ==> derivation_ok(#[trigger] m.renditions[i], m.original.blob))),
        r.kind == KIND_PROFILE ==> (kind_valid(r) <==> profile_of(r) is Some),
        r.kind == KIND_DELEGATE ==> (kind_valid(r) <==> delegate_of(r) is Some),
        r.kind == KIND_SUPERSEDE ==> (kind_valid(r) <==> supersede_of(r) is Some),
        r.kind == KIND_RETRACT ==> (kind_valid(r) <==> retract_of(r) is Some),
        r.kind == KIND_MIRROR ==> (kind_valid(r) <==> mirror_of(r) is Some),
        r.kind == KIND_SIMILARITY ==> (kind_valid(r) <==> similarity_of(r) is Some),
        r.kind == KIND_COMMENT ==> (kind_valid(r) <==> comment_of(r) is Some),
        r.kind == KIND_REACTION ==> (kind_valid(r) <==> reaction_of(r) is Some),
        r.kind == KIND_FOLLOW ==> (kind_valid(r) <==> follow_of(r) is Some),
        r.kind == KIND_PLAYLIST ==> (kind_valid(r) <==> playlist_of(r) is Some),
        r.kind == KIND_CHANNEL ==> (kind_valid(r) <==> channel_of(r) is Some),
        r.kind == KIND_CLAIM_AUTHOR ==> (kind_valid(r) <==> claim_author_of(r) is Some),
        r.kind == KIND_CLAIM_LICENSE ==> (kind_valid(r) <==> claim_license_of(r) is Some),
        r.kind == KIND_CLAIM_TRANSFER ==> (kind_valid(r) <==> claim_transfer_of(r) is Some),
        r.kind == KIND_CLAIM_DISPUTE ==> (kind_valid(r) <==> claim_dispute_of(r) is Some),
        r.kind == KIND_NOTICE_TAKEDOWN ==> (kind_valid(r) <==> notice_takedown_of(r) is Some),
        r.kind == KIND_NOTICE_COUNTER ==> (kind_valid(r) <==> notice_counter_of(r) is Some),
        r.kind == KIND_FEED_TAKEDOWN ==> (kind_valid(r) <==> feed_takedown_of(r) is Some),
        r.kind == KIND_ENDORSE_GATEWAY ==> (kind_valid(r) <==> endorse_gateway_of(r) is Some),
        r.kind == KIND_RECEIPT ==> (kind_valid(r) <==> receipt_of(r) is Some),
        r.kind == KIND_ATTEST ==> (kind_valid(r) <==> attest_of(r) is Some),
        r.kind == KIND_ANCHOR ==> (kind_valid(r) <==> anchor_of(r) is Some),
        r.kind == KIND_KEYGRANT ==> (kind_valid(r) <==> keygrant_of(r) is Some),
        r.kind == KIND_LIVE_MANIFEST ==> (kind_valid(r) <==> live_manifest_of(r) is Some),
        r.kind == KIND_LIVE_CHAT ==> (kind_valid(r) <==> live_chat_of(r) is Some),
        !known_kind(r.kind) ==> kind_valid(r),
{
}

} // verus!
