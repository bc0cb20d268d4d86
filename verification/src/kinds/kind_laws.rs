//! Write-then-read laws of the record kinds: a body built from a
//! manifest, delegate, supersede, retraction, mirror, profile,
//! comment, reaction, follow, playlist, channel, authorship claim or
//! dispute reads back as that value.

use vstd::prelude::*;
use vstd::utf8::encode_utf8;
use crate::codec::Model;
use crate::access::lookup;
use crate::blob::CHUNK_SIZE;
use crate::record::{RecordModel, Ref};
use crate::access::int_model;
use crate::identity::KIND_ROTATION;
use crate::kinds::fields::{items_of, items_at, license_ok, unbounded, strings_value, req_nonempty_text, text_at, req_text, bytes32_at, text_array_at, is_short_text};
use crate::kinds::content::{
    Manifest, MediaModel, RenditionModel, CaptionModel, SponsorModel, EncryptionModel, ManifestModel,
    media_entries, media_of, rendition_value, rendition_of, caption_value, caption_of, sponsor_value,
    sponsor_of, encryption_value, encryption_of, uint_text_pair, pair_value, manifest_value, manifest_of,
    all_wrapped, channel_refs, pairs_value, manifest_entries_early, manifest_entries_late, manifest_channel,
    original_of, rendition_fn, caption_fn, sponsor_fn, encryption_at, pairs_at, uint_text_pair_fn, manifest_model,
    Delegate, delegate_value, delegate_of, opt_ref, Supersede, supersede_of, Retract, retract_of, Mirror, mirror_of,
    hint_views,
};
use crate::kinds::social::{Profile, profile_of, profile_value, Reaction, reaction_of, Follow, follow_of, Channel, channel_of, channel_value, Comment, comment_of, Playlist, playlist_of};
use crate::kinds::fields::{ids_value, blobs, record_ids, id_list, id_array_at, req_array};
use crate::kinds::claims::{ClaimAuthor, claim_author_of, ClaimDispute, claim_dispute_of, statement_evidence};
use crate::kinds::fields::opt_blob;
use crate::kinds::fields::opt_text;

verus! {

/// Looking up a key after one more entry: an earlier entry wins.
broadcast proof fn lemma_lookup_push(s: Seq<(Model, Model)>, e: (Model, Model), k: Model)
    ensures
        #[trigger] lookup(s.push(e), k) == (match lookup(s, k) {
            Some(v) => Some(v),
            None => if e.0 == k {
                Some(e.1)
            } else {
                None
            },
        }),
    decreases s.len(),
{
    if s.len() == 0 {
        assert(s.push(e).drop_first() =~= s);
    } else {
        assert(s.push(e).drop_first() =~= s.drop_first().push(e));
        lemma_lookup_push(s.drop_first(), e, k);
    }
}

/// Looking up a key in two runs of entries: the first run wins.
broadcast proof fn lemma_lookup_concat(s: Seq<(Model, Model)>, t: Seq<(Model, Model)>, k: Model)
    ensures
        #[trigger] lookup(s + t, k) == (match lookup(s, k) {
            Some(v) => Some(v),
            None => lookup(t, k),
        }),
    decreases s.len(),
{
    if s.len() == 0 {
        assert(s + t =~= t);
    } else {
        assert((s + t).drop_first() =~= s.drop_first() + t);
        lemma_lookup_concat(s.drop_first(), t, k);
    }
}

/// What a media descriptor must meet to be read back: a 32-byte blob,
/// a 1-256 byte codec, width and height together, a 32-byte chunk root,
/// present when the blob is larger than one chunk.
pub open spec fn media_rules(m: MediaModel) -> bool {
    &&& m.blob.len() == 32
    &&& m.codec.len() > 0
    &&& encode_utf8(m.codec).len() <= 256
    &&& (m.width is Some) == (m.height is Some)
    &&& (m.chunk_root matches Some(c) ==> c.len() == 32)
    &&& (m.size > CHUNK_SIZE ==> m.chunk_root is Some)
}

/// The keys of a media descriptor that may be left out.
pub open spec fn media_optional_absent(t: Seq<(Model, Model)>) -> bool {
    &&& lookup(t, Model::Text("width"@)) is None
    &&& lookup(t, Model::Text("height"@)) is None
    &&& lookup(t, Model::Text("chunk_root"@)) is None
    &&& lookup(t, Model::Text("wrapped_key"@)) is None
}


/// A media descriptor's entries, followed by entries that leave its
/// optional keys alone, read back as that descriptor.
proof fn lemma_media_round_trip(m: MediaModel, t: Seq<(Model, Model)>)
    requires
        media_rules(m),
        media_optional_absent(t),
    ensures
        media_of(Model::Dict(media_entries(m) + t)) == Some(m),
{
    broadcast use lemma_lookup_push, lemma_lookup_concat;
    reveal_strlit("blob");
    assert("blob"@.len() == 4 && "blob"@[0] == 'b' && "blob"@[1] == 'l');
    reveal_strlit("size");
    assert("size"@.len() == 4 && "size"@[0] == 's' && "size"@[1] == 'i');
    reveal_strlit("codec");
    assert("codec"@.len() == 5 && "codec"@[0] == 'c' && "codec"@[1] == 'o');
    reveal_strlit("duration");
    assert("duration"@.len() == 8 && "duration"@[0] == 'd' && "duration"@[1] == 'u');
    reveal_strlit("width");
    assert("width"@.len() == 5 && "width"@[0] == 'w' && "width"@[1] == 'i');
    reveal_strlit("height");
    assert("height"@.len() == 6 && "height"@[0] == 'h' && "height"@[1] == 'e');
    reveal_strlit("chunk_root");
    assert("chunk_root"@.len() == 10 && "chunk_root"@[0] == 'c' && "chunk_root"@[1] == 'h');
    reveal_strlit("wrapped_key");
    assert("wrapped_key"@.len() == 11 && "wrapped_key"@[0] == 'w' && "wrapped_key"@[1] == 'r');
    lemma_media_entries_pushes(m);
    let es = media_entries(m) + t;
    assert(lookup(es, Model::Text("blob"@)) == Some(Model::Bytes(m.blob)));
    assert(lookup(es, Model::Text("size"@)) == Some(Model::Uint(m.size)));
    assert(lookup(es, Model::Text("codec"@)) == Some(Model::Text(m.codec)));
    assert(lookup(es, Model::Text("duration"@)) == Some(Model::Uint(m.duration_ms)));
    match m.width {
        Some(w) => {
            assert(lookup(es, Model::Text("width"@)) == Some(Model::Uint(w)));
            assert(lookup(es, Model::Text("height"@)) == Some(Model::Uint(m.height->0)));
        },
        None => {
            assert(lookup(es, Model::Text("width"@)) is None);
            assert(lookup(es, Model::Text("height"@)) is None);
        },
    }
    match m.chunk_root {
        Some(c) => {
            assert(lookup(es, Model::Text("chunk_root"@)) == Some(Model::Bytes(c)));
        },
        None => {
            assert(lookup(es, Model::Text("chunk_root"@)) is None);
        },
    }
    match m.wrapped_blob_key {
        Some(k) => {
            assert(lookup(es, Model::Text("wrapped_key"@)) == Some(Model::Bytes(k)));
        },
        None => {
            assert(lookup(es, Model::Text("wrapped_key"@)) is None);
        },
    }
}

/// The entries of a media descriptor, written as single appends.
proof fn lemma_media_entries_pushes(m: MediaModel)
    ensures
        media_entries(m) == Seq::<(Model, Model)>::empty().push((Model::Text("blob"@), Model::Bytes(m.blob))).push(
            (Model::Text("size"@), Model::Uint(m.size)),
        ).push((Model::Text("codec"@), Model::Text(m.codec))).push(
            (Model::Text("duration"@), Model::Uint(m.duration_ms)),
        ) + (if m.width is Some && m.height is Some {
            Seq::<(Model, Model)>::empty().push((Model::Text("width"@), Model::Uint(m.width->0))).push(
                (Model::Text("height"@), Model::Uint(m.height->0)),
            )
        } else {
            Seq::empty()
        }) + (match m.chunk_root {
            Some(c) => seq![(Model::Text("chunk_root"@), Model::Bytes(c))],
            None => Seq::empty(),
        }) + (match m.wrapped_blob_key {
            Some(k) => seq![(Model::Text("wrapped_key"@), Model::Bytes(k))],
            None => Seq::empty(),
        }),
{
    assert(seq![
        (Model::Text("blob"@), Model::Bytes(m.blob)),
        (Model::Text("size"@), Model::Uint(m.size)),
        (Model::Text("codec"@), Model::Text(m.codec)),
        (Model::Text("duration"@), Model::Uint(m.duration_ms)),
    ] =~= Seq::<(Model, Model)>::empty().push((Model::Text("blob"@), Model::Bytes(m.blob))).push(
        (Model::Text("size"@), Model::Uint(m.size)),
    ).push((Model::Text("codec"@), Model::Text(m.codec))).push(
        (Model::Text("duration"@), Model::Uint(m.duration_ms)),
    ));
    assert(seq![
        (Model::Text("width"@), Model::Uint(m.width->0)),
        (Model::Text("height"@), Model::Uint(m.height->0)),
    ] =~= Seq::<(Model, Model)>::empty().push((Model::Text("width"@), Model::Uint(m.width->0))).push(
        (Model::Text("height"@), Model::Uint(m.height->0)),
    ));
}

/// What a rendition must meet to be read back: a valid media descriptor
/// and a 32-byte producing identity.
pub open spec fn rendition_rules(r: RenditionModel) -> bool {
    &&& media_rules(r.media)
    &&& r.produced_by.0.len() == 32
}

/// A rendition's map reads back as that rendition.
proof fn lemma_rendition_round_trip(r: RenditionModel)
    requires
        rendition_rules(r),
    ensures
        rendition_of(rendition_value(r)) == Some(r),
{
    broadcast use lemma_lookup_push, lemma_lookup_concat;
    reveal_strlit("blob");
    assert("blob"@.len() == 4 && "blob"@[0] == 'b' && "blob"@[1] == 'l');
    reveal_strlit("size");
    assert("size"@.len() == 4 && "size"@[0] == 's' && "size"@[1] == 'i');
    reveal_strlit("codec");
    assert("codec"@.len() == 5 && "codec"@[0] == 'c' && "codec"@[1] == 'o');
    reveal_strlit("duration");
    assert("duration"@.len() == 8 && "duration"@[0] == 'd' && "duration"@[1] == 'u');
    reveal_strlit("width");
    assert("width"@.len() == 5 && "width"@[0] == 'w' && "width"@[1] == 'i');
    reveal_strlit("height");
    assert("height"@.len() == 6 && "height"@[0] == 'h' && "height"@[1] == 'e');
    reveal_strlit("chunk_root");
    assert("chunk_root"@.len() == 10 && "chunk_root"@[0] == 'c' && "chunk_root"@[1] == 'h');
    reveal_strlit("wrapped_key");
    assert("wrapped_key"@.len() == 11 && "wrapped_key"@[0] == 'w' && "wrapped_key"@[1] == 'r');
    reveal_strlit("bitrate");
    assert("bitrate"@.len() == 7 && "bitrate"@[0] == 'b' && "bitrate"@[1] == 'i');
    reveal_strlit("produced_by");
    assert("produced_by"@.len() == 11 && "produced_by"@[0] == 'p' && "produced_by"@[1] == 'r');
    reveal_strlit("derivation_sig");
    assert("derivation_sig"@.len() == 14 && "derivation_sig"@[0] == 'd' && "derivation_sig"@[1] == 'e');
    let t = seq![
        (Model::Text("bitrate"@), Model::Uint(r.bitrate)),
        (Model::Text("produced_by"@), Model::Array(seq![Model::Bytes(r.produced_by.0), Model::Bytes(r.produced_by.1)])),
        (Model::Text("derivation_sig"@), Model::Bytes(r.derivation_sig)),
    ];
    let tp = Seq::<(Model, Model)>::empty().push((Model::Text("bitrate"@), Model::Uint(r.bitrate))).push(
        (Model::Text("produced_by"@), Model::Array(seq![Model::Bytes(r.produced_by.0), Model::Bytes(r.produced_by.1)])),
    ).push((Model::Text("derivation_sig"@), Model::Bytes(r.derivation_sig)));
    assert(t =~= tp);
    lemma_media_entries_pushes(r.media);
    assert(media_optional_absent(t));
    lemma_media_round_trip(r.media, t);
    let es = media_entries(r.media) + t;
    assert(lookup(es, Model::Text("bitrate"@)) == Some(Model::Uint(r.bitrate)));
    assert(lookup(es, Model::Text("produced_by"@)) == Some(
        Model::Array(seq![Model::Bytes(r.produced_by.0), Model::Bytes(r.produced_by.1)]),
    ));
    assert(lookup(es, Model::Text("derivation_sig"@)) == Some(Model::Bytes(r.derivation_sig)));
}

/// What a caption track must meet to be read back: a 32-byte blob and a
/// 1-64 byte language and format.
pub open spec fn caption_rules(c: CaptionModel) -> bool {
    &&& c.blob.len() == 32
    &&& c.language.len() > 0
    &&& encode_utf8(c.language).len() <= 64
    &&& c.format.len() > 0
    &&& encode_utf8(c.format).len() <= 64
}

/// A caption track's map reads back as that track.
proof fn lemma_caption_round_trip(c: CaptionModel)
    requires
        caption_rules(c),
    ensures
        caption_of(caption_value(c)) == Some(c),
{
    broadcast use lemma_lookup_push, lemma_lookup_concat;
    reveal_strlit("blob");
    assert("blob"@.len() == 4 && "blob"@[0] == 'b' && "blob"@[1] == 'l');
    reveal_strlit("language");
    assert("language"@.len() == 8 && "language"@[0] == 'l' && "language"@[1] == 'a');
    reveal_strlit("format");
    assert("format"@.len() == 6 && "format"@[0] == 'f' && "format"@[1] == 'o');
    reveal_strlit("wrapped_key");
    assert("wrapped_key"@.len() == 11 && "wrapped_key"@[0] == 'w' && "wrapped_key"@[1] == 'r');
    assert(seq![
        (Model::Text("blob"@), Model::Bytes(c.blob)),
        (Model::Text("language"@), Model::Text(c.language)),
        (Model::Text("format"@), Model::Text(c.format)),
    ] =~= Seq::<(Model, Model)>::empty().push((Model::Text("blob"@), Model::Bytes(c.blob))).push(
        (Model::Text("language"@), Model::Text(c.language)),
    ).push((Model::Text("format"@), Model::Text(c.format))));
    let es = caption_value(c)->Dict_0;
    assert(lookup(es, Model::Text("blob"@)) == Some(Model::Bytes(c.blob)));
    assert(lookup(es, Model::Text("language"@)) == Some(Model::Text(c.language)));
    assert(lookup(es, Model::Text("format"@)) == Some(Model::Text(c.format)));
    match c.wrapped_blob_key {
        Some(k) => {
            assert(lookup(es, Model::Text("wrapped_key"@)) == Some(Model::Bytes(k)));
        },
        None => {
            assert(lookup(es, Model::Text("wrapped_key"@)) is None);
        },
    }
}

/// What a sponsored segment must meet to be read back: a label that
/// fits in memory.
pub open spec fn sponsor_rules(x: SponsorModel) -> bool {
    encode_utf8(x.label).len() <= unbounded()
}

/// A sponsored segment's map reads back as that segment.
proof fn lemma_sponsor_round_trip(x: SponsorModel)
    requires
        sponsor_rules(x),
    ensures
        sponsor_of(sponsor_value(x)) == Some(x),
{
    broadcast use lemma_lookup_push;
    reveal_strlit("start_ms");
    assert("start_ms"@.len() == 8 && "start_ms"@[0] == 's' && "start_ms"@[1] == 't');
    reveal_strlit("end_ms");
    assert("end_ms"@.len() == 6 && "end_ms"@[0] == 'e' && "end_ms"@[1] == 'n');
    reveal_strlit("label");
    assert("label"@.len() == 5 && "label"@[0] == 'l' && "label"@[1] == 'a');
    let es = sponsor_value(x)->Dict_0;
    assert(es =~= Seq::<(Model, Model)>::empty().push((Model::Text("start_ms"@), Model::Uint(x.start_ms))).push(
        (Model::Text("end_ms"@), Model::Uint(x.end_ms)),
    ).push((Model::Text("label"@), Model::Text(x.label))));
    assert(lookup(es, Model::Text("start_ms"@)) == Some(Model::Uint(x.start_ms)));
    assert(lookup(es, Model::Text("end_ms"@)) == Some(Model::Uint(x.end_ms)));
    assert(lookup(es, Model::Text("label"@)) == Some(Model::Text(x.label)));
}

/// What an encryption descriptor must meet to be read back: a key hint
/// that fits in memory.
pub open spec fn encryption_rules(e: EncryptionModel) -> bool {
    e.key_hint matches Some(h) ==> encode_utf8(h).len() <= unbounded()
}

/// An encryption descriptor's map reads back as that descriptor.
proof fn lemma_encryption_round_trip(e: EncryptionModel)
    requires
        encryption_rules(e),
    ensures
        encryption_of(encryption_value(e)) == Some(e),
{
    broadcast use lemma_lookup_push, lemma_lookup_concat;
    reveal_strlit("scheme");
    assert("scheme"@.len() == 6 && "scheme"@[0] == 's' && "scheme"@[1] == 'c');
    reveal_strlit("key_hint");
    assert("key_hint"@.len() == 8 && "key_hint"@[0] == 'k' && "key_hint"@[1] == 'e');
    let es = encryption_value(e)->Dict_0;
    assert(lookup(es, Model::Text("scheme"@)) == Some(Model::Uint(e.scheme)));
    match e.key_hint {
        Some(h) => {
            assert(lookup(es, Model::Text("key_hint"@)) == Some(Model::Text(h)));
        },
        None => {
            assert(lookup(es, Model::Text("key_hint"@)) is None);
        },
    }
}

/// A `[uint, text]` pair reads back as itself.
proof fn lemma_pair_round_trip(p: (u64, Seq<char>))
    ensures
        uint_text_pair(pair_value(p)) == Some(p),
{
}

/// An array whose every item `f` reads as the matching entry of `xs`
/// reads back as `xs`.
proof fn lemma_items_round_trip<T>(items: Seq<Model>, f: spec_fn(Model) -> Option<T>, xs: Seq<T>)
    requires
        items.len() == xs.len(),
        forall|i: int| 0 <= i < items.len() ==> #[trigger] f(items[i]) == Some(xs[i]),
    ensures
        items_of(items, f) == Some(xs),
{
    assert forall|i: int| 0 <= i < items.len() implies (#[trigger] f(items[i])) is Some by {
        assert(f(items[i]) == Some(xs[i]));
    }
    assert(items.map_values(|m: Model| f(m)->0) =~= xs);
}

/// What a manifest must meet to be read back: a 1-512 byte title, a
/// description of at most 16384 bytes, at most 32 tags of at most 64
/// bytes each, a valid original, renditions, captions and sponsored
/// segments, a 32-byte thumbnail, a 1-64 byte license, and, when
/// encrypted, a 64-byte wrapped key on every blob. Texts without a
/// limit only need to fit in memory.
pub open spec fn manifest_rules(m: ManifestModel) -> bool {
    &&& m.title.len() > 0
    &&& encode_utf8(m.title).len() <= 512
    &&& (m.description matches Some(d) ==> encode_utf8(d).len() <= 16384)
    &&& m.tags.len() <= 32
    &&& forall|i: int| 0 <= i < m.tags.len() ==> encode_utf8(#[trigger] m.tags[i]).len() <= 64
    &&& (m.language matches Some(l) ==> encode_utf8(l).len() <= unbounded())
    &&& media_rules(m.original)
    &&& forall|i: int| 0 <= i < m.renditions.len() ==> rendition_rules(#[trigger] m.renditions[i])
    &&& forall|i: int| 0 <= i < m.captions.len() ==> caption_rules(#[trigger] m.captions[i])
    &&& (m.thumbnail matches Some(t) ==> t.len() == 32)
    &&& (m.encryption matches Some(e) ==> encryption_rules(e) && all_wrapped(m))
    &&& license_ok(m.license)
    &&& forall|i: int| 0 <= i < m.sponsorship.len() ==> sponsor_rules(#[trigger] m.sponsorship[i])
}

/// What the body of a manifest holds under its first keys.
pub open spec fn early_lookups(m: ManifestModel, es: Seq<(Model, Model)>) -> bool {
    &&& lookup(es, Model::Text("title"@)) == Some(Model::Text(m.title))
    &&& lookup(es, Model::Text("original"@)) == Some(Model::Dict(media_entries(m.original)))
    &&& lookup(es, Model::Text("license"@)) == Some(Model::Text(m.license))
    &&& lookup(es, Model::Text("description"@)) == (match m.description {
        Some(d) => Some(Model::Text(d)),
        None => None,
    })
    &&& lookup(es, Model::Text("tags"@)) == (if m.tags.len() > 0 {
        Some(strings_value(m.tags))
    } else {
        None
    })
    &&& lookup(es, Model::Text("language"@)) == (match m.language {
        Some(l) => Some(Model::Text(l)),
        None => None,
    })
    &&& lookup(es, Model::Text("renditions"@)) == (if m.renditions.len() > 0 {
        Some(Model::Array(m.renditions.map_values(|x: RenditionModel| rendition_value(x))))
    } else {
        None
    })
    &&& lookup(es, Model::Text("captions"@)) == (if m.captions.len() > 0 {
        Some(Model::Array(m.captions.map_values(|x: CaptionModel| caption_value(x))))
    } else {
        None
    })
}

/// What the body of a manifest holds under its last keys.
pub open spec fn late_lookups(m: ManifestModel, es: Seq<(Model, Model)>) -> bool {
    &&& lookup(es, Model::Text("thumbnail"@)) == (match m.thumbnail {
        Some(t) => Some(Model::Bytes(t)),
        None => None,
    })
    &&& lookup(es, Model::Text("encryption"@)) == (match m.encryption {
        Some(e) => Some(encryption_value(e)),
        None => None,
    })
    &&& lookup(es, Model::Text("sponsorship"@)) == (if m.sponsorship.len() > 0 {
        Some(Model::Array(m.sponsorship.map_values(|x: SponsorModel| sponsor_value(x))))
    } else {
        None
    })
    &&& lookup(es, Model::Text("payment"@)) == (if m.payment.len() > 0 {
        Some(pairs_value(m.payment))
    } else {
        None
    })
    &&& lookup(es, Model::Text("hints"@)) == (if m.hints.len() > 0 {
        Some(pairs_value(m.hints))
    } else {
        None
    })
}

/// The first keys of a manifest's body, and none of the last ones.
#[verifier::spinoff_prover]
#[verifier::rlimit(50)]
proof fn lemma_manifest_early(m: ManifestModel)
    ensures
        early_lookups(m, manifest_entries_early(m)),
        late_lookups(ManifestModel { thumbnail: None, encryption: None, sponsorship: Seq::empty(), payment: Seq::empty(), hints: Seq::empty(), ..m }, manifest_entries_early(m)),
{
    broadcast use lemma_lookup_push;
    reveal_strlit("title");
    assert("title"@.len() == 5 && "title"@[0] == 't' && "title"@[1] == 'i');
    reveal_strlit("original");
    assert("original"@.len() == 8 && "original"@[0] == 'o' && "original"@[1] == 'r');
    reveal_strlit("license");
    assert("license"@.len() == 7 && "license"@[0] == 'l' && "license"@[1] == 'i');
    reveal_strlit("description");
    assert("description"@.len() == 11 && "description"@[0] == 'd' && "description"@[1] == 'e');
    reveal_strlit("tags");
    assert("tags"@.len() == 4 && "tags"@[0] == 't' && "tags"@[1] == 'a');
    reveal_strlit("language");
    assert("language"@.len() == 8 && "language"@[0] == 'l' && "language"@[1] == 'a');
    reveal_strlit("renditions");
    assert("renditions"@.len() == 10 && "renditions"@[0] == 'r' && "renditions"@[1] == 'e');
    reveal_strlit("captions");
    assert("captions"@.len() == 8 && "captions"@[0] == 'c' && "captions"@[1] == 'a');
    reveal_strlit("thumbnail");
    assert("thumbnail"@.len() == 9 && "thumbnail"@[0] == 't' && "thumbnail"@[1] == 'h');
    reveal_strlit("encryption");
    assert("encryption"@.len() == 10 && "encryption"@[0] == 'e' && "encryption"@[1] == 'n');
    reveal_strlit("sponsorship");
    assert("sponsorship"@.len() == 11 && "sponsorship"@[0] == 's' && "sponsorship"@[1] == 'p');
    reveal_strlit("payment");
    assert("payment"@.len() == 7 && "payment"@[0] == 'p' && "payment"@[1] == 'a');
    reveal_strlit("hints");
    assert("hints"@.len() == 5 && "hints"@[0] == 'h' && "hints"@[1] == 'i');
    assert(seq![
        (Model::Text("title"@), Model::Text(m.title)),
        (Model::Text("original"@), Model::Dict(media_entries(m.original))),
        (Model::Text("license"@), Model::Text(m.license)),
    ] =~= Seq::<(Model, Model)>::empty().push((Model::Text("title"@), Model::Text(m.title))).push(
        (Model::Text("original"@), Model::Dict(media_entries(m.original))),
    ).push((Model::Text("license"@), Model::Text(m.license))));
}

/// The last keys of a manifest's body; the first ones are left as they
/// were.
#[verifier::spinoff_prover]
#[verifier::rlimit(50)]
proof fn lemma_manifest_late(m: ManifestModel, s: Seq<(Model, Model)>)
    requires
        early_lookups(m, s),
        late_lookups(ManifestModel { thumbnail: None, encryption: None, sponsorship: Seq::empty(), payment: Seq::empty(), hints: Seq::empty(), ..m }, s),
    ensures
        early_lookups(m, manifest_entries_late(m, s)),
        late_lookups(m, manifest_entries_late(m, s)),
{
    broadcast use lemma_lookup_push;
    reveal_strlit("title");
    assert("title"@.len() == 5 && "title"@[0] == 't' && "title"@[1] == 'i');
    reveal_strlit("original");
    assert("original"@.len() == 8 && "original"@[0] == 'o' && "original"@[1] == 'r');
    reveal_strlit("license");
    assert("license"@.len() == 7 && "license"@[0] == 'l' && "license"@[1] == 'i');
    reveal_strlit("description");
    assert("description"@.len() == 11 && "description"@[0] == 'd' && "description"@[1] == 'e');
    reveal_strlit("tags");
    assert("tags"@.len() == 4 && "tags"@[0] == 't' && "tags"@[1] == 'a');
    reveal_strlit("language");
    assert("language"@.len() == 8 && "language"@[0] == 'l' && "language"@[1] == 'a');
    reveal_strlit("renditions");
    assert("renditions"@.len() == 10 && "renditions"@[0] == 'r' && "renditions"@[1] == 'e');
    reveal_strlit("captions");
    assert("captions"@.len() == 8 && "captions"@[0] == 'c' && "captions"@[1] == 'a');
    reveal_strlit("thumbnail");
    assert("thumbnail"@.len() == 9 && "thumbnail"@[0] == 't' && "thumbnail"@[1] == 'h');
    reveal_strlit("encryption");
    assert("encryption"@.len() == 10 && "encryption"@[0] == 'e' && "encryption"@[1] == 'n');
    reveal_strlit("sponsorship");
    assert("sponsorship"@.len() == 11 && "sponsorship"@[0] == 's' && "sponsorship"@[1] == 'p');
    reveal_strlit("payment");
    assert("payment"@.len() == 7 && "payment"@[0] == 'p' && "payment"@[1] == 'a');
    reveal_strlit("hints");
    assert("hints"@.len() == 5 && "hints"@[0] == 'h' && "hints"@[1] == 'i');
}

/// A manifest written as a body, under the refs it names, reads back as
/// that manifest, whenever it meets [`manifest_rules`].
pub proof fn lemma_manifest_round_trip(m: Manifest, r: RecordModel)
    requires
        manifest_rules(m@),
        r.refs == channel_refs(m.channel),
        r.body == manifest_value(m@),
    ensures
        manifest_of(r) == Some(m@),
{
    let v = m@;
    let b = r.body;
    let es = manifest_entries_late(v, manifest_entries_early(v));
    lemma_manifest_early(v);
    lemma_manifest_late(v, manifest_entries_early(v));
    // Channel.
    assert(manifest_channel(r) == Some(v.channel));
    // Title, description, language, license, thumbnail.
    assert(req_nonempty_text(b, "title"@, 512) == Some(v.title));
    assert(text_at(b, "description"@, 16384) == Some(v.description));
    assert(text_at(b, "language"@, unbounded()) == Some(v.language));
    assert(req_text(b, "license"@, 4096) == Some(v.license));
    assert(bytes32_at(b, "thumbnail"@) == Some(v.thumbnail));
    // Tags.
    if v.tags.len() > 0 {
        let items = v.tags.map_values(|t: Seq<char>| Model::Text(t));
        assert forall|i: int| 0 <= i < items.len() implies is_short_text(#[trigger] items[i], 64) by {
            assert(encode_utf8(v.tags[i]).len() <= 64);
        }
        assert(items.map_values(|x: Model| x->Text_0) =~= v.tags);
    } else {
        assert(v.tags =~= Seq::empty());
    }
    assert(text_array_at(b, "tags"@, 64) == Some(v.tags));
    // Original.
    assert(media_entries(v.original) + Seq::empty() =~= media_entries(v.original));
    lemma_media_round_trip(v.original, Seq::empty());
    assert(original_of(b) == Some(v.original));
    // Renditions.
    if v.renditions.len() > 0 {
        let items = v.renditions.map_values(|x: RenditionModel| rendition_value(x));
        assert forall|i: int| 0 <= i < items.len() implies #[trigger] rendition_fn()(items[i]) == Some(v.renditions[i]) by {
            lemma_rendition_round_trip(v.renditions[i]);
        }
        lemma_items_round_trip(items, rendition_fn(), v.renditions);
    } else {
        assert(v.renditions =~= Seq::empty());
    }
    assert(items_at(b, "renditions"@, rendition_fn()) == Some(v.renditions));
    // Captions.
    if v.captions.len() > 0 {
        let items = v.captions.map_values(|x: CaptionModel| caption_value(x));
        assert forall|i: int| 0 <= i < items.len() implies #[trigger] caption_fn()(items[i]) == Some(v.captions[i]) by {
            lemma_caption_round_trip(v.captions[i]);
        }
        lemma_items_round_trip(items, caption_fn(), v.captions);
    } else {
        assert(v.captions =~= Seq::empty());
    }
    assert(items_at(b, "captions"@, caption_fn()) == Some(v.captions));
    // Encryption.
    match v.encryption {
        Some(e) => {
            lemma_encryption_round_trip(e);
        },
        None => {},
    }
    assert(encryption_at(b) == Some(v.encryption));
    // Sponsorship.
    if v.sponsorship.len() > 0 {
        let items = v.sponsorship.map_values(|x: SponsorModel| sponsor_value(x));
        assert forall|i: int| 0 <= i < items.len() implies #[trigger] sponsor_fn()(items[i]) == Some(v.sponsorship[i]) by {
            lemma_sponsor_round_trip(v.sponsorship[i]);
        }
        lemma_items_round_trip(items, sponsor_fn(), v.sponsorship);
    } else {
        assert(v.sponsorship =~= Seq::empty());
    }
    assert(items_at(b, "sponsorship"@, sponsor_fn()) == Some(v.sponsorship));
    // Payment and hints.
    lemma_pairs_round_trip(v.payment);
    lemma_pairs_round_trip(v.hints);
    if v.payment.len() == 0 {
        assert(v.payment =~= Seq::empty());
    }
    if v.hints.len() == 0 {
        assert(v.hints =~= Seq::empty());
    }
    assert(pairs_at(b, "payment"@) == Some(v.payment));
    assert(pairs_at(b, "hints"@) == Some(v.hints));
    assert(manifest_model(r) == v);
}

/// A list of `[uint, text]` pairs reads back as itself.
proof fn lemma_pairs_round_trip(ps: Seq<(u64, Seq<char>)>)
    ensures
        items_of(pairs_value(ps)->Array_0, uint_text_pair_fn()) == Some(ps),
{
    let items = pairs_value(ps)->Array_0;
    assert forall|i: int| 0 <= i < items.len() implies #[trigger] uint_text_pair_fn()(items[i]) == Some(ps[i]) by {
        lemma_pair_round_trip(ps[i]);
    }
    lemma_items_round_trip(items, uint_text_pair_fn(), ps);
}

/// A delegate written as a body, under the refs it names, reads back as
/// that delegate, whenever its capability is 1 to 256 bytes.
pub proof fn lemma_delegate_round_trip(d: Delegate, r: RecordModel)
    requires
        d.capability@.len() > 0,
        encode_utf8(d.capability@).len() <= 256,
        r.refs == opt_ref(d.target),
        r.body == delegate_value(d@),
    ensures
        delegate_of(r) == Some(d@),
{
    broadcast use lemma_lookup_push;
    reveal_strlit("grantee");
    assert("grantee"@.len() == 7 && "grantee"@[0] == 'g' && "grantee"@[1] == 'r');
    reveal_strlit("capability");
    assert("capability"@.len() == 10 && "capability"@[0] == 'c' && "capability"@[1] == 'a');
    reveal_strlit("expires_at");
    assert("expires_at"@.len() == 10 && "expires_at"@[0] == 'e' && "expires_at"@[1] == 'x');
    reveal_strlit("revoked");
    assert("revoked"@.len() == 7 && "revoked"@[0] == 'r' && "revoked"@[1] == 'e');
    let v = d@;
    let es = r.body->Dict_0;
    assert(seq![(Model::Text("grantee"@), Model::Bytes(v.grantee)), (Model::Text("capability"@), Model::Text(v.capability))]
        =~= Seq::<(Model, Model)>::empty().push((Model::Text("grantee"@), Model::Bytes(v.grantee))).push(
        (Model::Text("capability"@), Model::Text(v.capability)),
    ));
    assert(lookup(es, Model::Text("grantee"@)) == Some(Model::Bytes(v.grantee)));
    assert(lookup(es, Model::Text("capability"@)) == Some(Model::Text(v.capability)));
    match v.expires_at {
        Some(x) => {
            assert(lookup(es, Model::Text("expires_at"@)) == Some(int_model(x as int)));
        },
        None => {
            assert(lookup(es, Model::Text("expires_at"@)) is None);
        },
    }
    match v.target {
        Some(t) => {
            assert(lookup(es, Model::Text("revoked"@)) == Some(Model::Bool(true)));
        },
        None => {
            assert(lookup(es, Model::Text("revoked"@)) is None);
        },
    }
}

/// A supersede written as a body, under its one ref, reads back as that
/// supersede, whenever its target kind is not `rotation` and its
/// replacement body is a map.
pub proof fn lemma_supersede_round_trip(x: Supersede, r: RecordModel)
    requires
        x.target_kind != KIND_ROTATION,
        x.replacement_body@ is Dict,
        r.refs == seq![Ref { ref_type: 0, hash: x.target.0 }],
        r.body == Model::Dict(
            seq![
                (Model::Text("target_kind"@), Model::Uint(x.target_kind)),
                (Model::Text("body"@), x.replacement_body@),
            ],
        ),
    ensures
        supersede_of(r) == Some(x@),
{
    broadcast use lemma_lookup_push;
    reveal_strlit("target_kind");
    assert("target_kind"@.len() == 11 && "target_kind"@[0] == 't' && "target_kind"@[1] == 'a');
    reveal_strlit("body");
    assert("body"@.len() == 4 && "body"@[0] == 'b' && "body"@[1] == 'o');
    let es = r.body->Dict_0;
    assert(es =~= Seq::<(Model, Model)>::empty().push((Model::Text("target_kind"@), Model::Uint(x.target_kind))).push(
        (Model::Text("body"@), x.replacement_body@),
    ));
    assert(lookup(es, Model::Text("target_kind"@)) == Some(Model::Uint(x.target_kind)));
    assert(lookup(es, Model::Text("body"@)) == Some(x.replacement_body@));
}

/// A retraction written as a body, under its one ref, reads back as
/// that retraction.
pub proof fn lemma_retract_round_trip(x: Retract, r: RecordModel)
    requires
        x.reason matches Some(t) ==> encode_utf8(t@).len() <= unbounded(),
        r.refs == seq![Ref { ref_type: 0, hash: x.target.0 }],
        r.body == Model::Dict(
            match x.reason {
                Some(t) => seq![(Model::Text("reason"@), Model::Text(t@))],
                None => Seq::empty(),
            },
        ),
    ensures
        retract_of(r) == Some((x.target.0@, opt_text(x.reason))),
{
}

/// A profile written as a body, with no refs, reads back as that
/// profile, whenever its name is 1 to 256 bytes and its texts fit in
/// memory.
pub proof fn lemma_profile_round_trip(x: Profile, r: RecordModel)
    requires
        x.name@.len() > 0,
        encode_utf8(x.name@).len() <= 256,
        x.about matches Some(t) ==> encode_utf8(t@).len() <= unbounded(),
        forall|i: int| 0 <= i < x.relays@.len() ==> encode_utf8(#[trigger] x.relays@[i]@).len() <= unbounded(),
        forall|i: int| 0 <= i < x.seeds@.len() ==> encode_utf8(#[trigger] x.seeds@[i]@).len() <= unbounded(),
        r.refs.len() == 0,
        r.body == profile_value(x@),
    ensures
        profile_of(r) == Some(x@),
{
    broadcast use lemma_lookup_push;
    reveal_strlit("name");
    assert("name"@.len() == 4 && "name"@[0] == 'n' && "name"@[1] == 'a');
    reveal_strlit("about");
    assert("about"@.len() == 5 && "about"@[0] == 'a' && "about"@[1] == 'b');
    reveal_strlit("avatar");
    assert("avatar"@.len() == 6 && "avatar"@[0] == 'a' && "avatar"@[1] == 'v');
    reveal_strlit("payment");
    assert("payment"@.len() == 7 && "payment"@[0] == 'p' && "payment"@[1] == 'a');
    reveal_strlit("relays");
    assert("relays"@.len() == 6 && "relays"@[0] == 'r' && "relays"@[1] == 'e');
    reveal_strlit("seeds");
    assert("seeds"@.len() == 5 && "seeds"@[0] == 's' && "seeds"@[1] == 'e');
    reveal_strlit("enc_key");
    assert("enc_key"@.len() == 7 && "enc_key"@[0] == 'e' && "enc_key"@[1] == 'n');
    let v = x@;
    let b = r.body;
    assert(seq![(Model::Text("name"@), Model::Text(v.name))] =~= Seq::<(Model, Model)>::empty().push(
        (Model::Text("name"@), Model::Text(v.name)),
    ));
    let es = b->Dict_0;
    assert(lookup(es, Model::Text("name"@)) == Some(Model::Text(v.name)));
    assert(text_at(b, "about"@, unbounded()) == Some(v.about));
    assert(bytes32_at(b, "avatar"@) == Some(v.avatar));
    lemma_pairs_round_trip(v.payment);
    if v.payment.len() == 0 {
        assert(v.payment =~= Seq::empty());
    }
    assert(pairs_at(b, "payment"@) == Some(v.payment));
    lemma_texts_round_trip(v.relays);
    lemma_texts_round_trip(v.seeds);
    assert(text_array_at(b, "relays"@, unbounded()) == Some(v.relays));
    assert(text_array_at(b, "seeds"@, unbounded()) == Some(v.seeds));
    assert(profile_of(r) == Some(v));
}

/// A list of texts that fit in memory reads back as itself, and an
/// empty one is the empty list.
proof fn lemma_texts_round_trip(ts: Seq<Seq<char>>)
    requires
        forall|i: int| 0 <= i < ts.len() ==> encode_utf8(#[trigger] ts[i]).len() <= unbounded(),
    ensures
        crate::kinds::fields::text_list(strings_value(ts)->Array_0, unbounded()) == Some(ts),
        ts.len() == 0 ==> ts == Seq::<Seq<char>>::empty(),
{
    let items = strings_value(ts)->Array_0;
    assert forall|i: int| 0 <= i < items.len() implies is_short_text(#[trigger] items[i], unbounded()) by {
        assert(encode_utf8(ts[i]).len() <= unbounded());
    }
    assert(items.map_values(|x: Model| x->Text_0) =~= ts);
    if ts.len() == 0 {
        assert(ts =~= Seq::<Seq<char>>::empty());
    }
}

/// A reaction written as a body, under its one ref, reads back as that
/// reaction, whenever the reaction is at most 32 bytes.
pub proof fn lemma_reaction_round_trip(x: Reaction, r: RecordModel)
    requires
        encode_utf8(x.reaction@).len() <= 32,
        r.refs == seq![Ref { ref_type: 0, hash: x.target.0 }],
        r.body == Model::Dict(seq![(Model::Text("reaction"@), Model::Text(x.reaction@))]),
    ensures
        reaction_of(r) == Some((x.target.0@, x.reaction@)),
{
}

/// A follow written as a body, under its one ref, reads back as that
/// follow.
pub proof fn lemma_follow_round_trip(x: Follow, r: RecordModel)
    requires
        x.note matches Some(t) ==> encode_utf8(t@).len() <= unbounded(),
        r.refs == seq![Ref { ref_type: 0, hash: x.followed.0 }],
        r.body == Model::Dict(
            match x.note {
                Some(n) => seq![(Model::Text("note"@), Model::Text(n@))],
                None => Seq::empty(),
            },
        ),
    ensures
        follow_of(r) == Some((x.followed.0@, opt_text(x.note))),
{
}

/// A channel written as a body, with no refs, reads back as that
/// channel, whenever its title is 1 to 512 bytes and its description
/// at most 16384.
pub proof fn lemma_channel_round_trip(x: Channel, r: RecordModel)
    requires
        x.title@.len() > 0,
        encode_utf8(x.title@).len() <= 512,
        x.description matches Some(t) ==> encode_utf8(t@).len() <= 16384,
        r.refs.len() == 0,
        r.body == channel_value(x.title@, opt_text(x.description), opt_blob(x.avatar), opt_blob(x.banner)),
    ensures
        channel_of(r) == Some((x.title@, opt_text(x.description), opt_blob(x.avatar), opt_blob(x.banner))),
{
    broadcast use lemma_lookup_push;
    reveal_strlit("title");
    assert("title"@.len() == 5 && "title"@[0] == 't' && "title"@[1] == 'i');
    reveal_strlit("description");
    assert("description"@.len() == 11 && "description"@[0] == 'd' && "description"@[1] == 'e');
    reveal_strlit("avatar");
    assert("avatar"@.len() == 6 && "avatar"@[0] == 'a' && "avatar"@[1] == 'v');
    reveal_strlit("banner");
    assert("banner"@.len() == 6 && "banner"@[0] == 'b' && "banner"@[1] == 'a');
    let es = r.body->Dict_0;
    assert(seq![(Model::Text("title"@), Model::Text(x.title@))] =~= Seq::<(Model, Model)>::empty().push(
        (Model::Text("title"@), Model::Text(x.title@)),
    ));
    assert(lookup(es, Model::Text("title"@)) == Some(Model::Text(x.title@)));
    assert(text_at(r.body, "description"@, 16384) == Some(opt_text(x.description)));
    assert(bytes32_at(r.body, "avatar"@) == Some(opt_blob(x.avatar)));
    assert(bytes32_at(r.body, "banner"@) == Some(opt_blob(x.banner)));
}

/// A list of 32-byte ids reads back as itself.
proof fn lemma_ids_round_trip(ids: Seq<Seq<u8>>)
    requires
        forall|i: int| 0 <= i < ids.len() ==> (#[trigger] ids[i]).len() == 32,
    ensures
        id_list(ids_value(ids)->Array_0) == Some(ids),
{
    let items = ids_value(ids)->Array_0;
    assert(items.map_values(|m: Model| m->Bytes_0) =~= ids);
}

/// A comment written as a body, under its subject and parent refs,
/// reads back as that comment, whenever its text is 1 to 8192 bytes.
pub proof fn lemma_comment_round_trip(x: Comment, r: RecordModel)
    requires
        x.text@.len() > 0,
        encode_utf8(x.text@).len() <= 8192,
        r.refs == match x.parent {
            Some(p) => seq![Ref { ref_type: 0, hash: x.subject.0 }, Ref { ref_type: 0, hash: p.0 }],
            None => seq![Ref { ref_type: 0, hash: x.subject.0 }],
        },
        r.body == Model::Dict(
            crate::kinds::fields::push_if(
                seq![(Model::Text("text"@), Model::Text(x.text@))],
                x.media@.len() > 0,
                (Model::Text("media"@), ids_value(blobs(x.media@))),
            ),
        ),
    ensures
        comment_of(r) == Some(x@),
{
    broadcast use lemma_lookup_push;
    reveal_strlit("text");
    assert("text"@.len() == 4 && "text"@[0] == 't' && "text"@[1] == 'e');
    reveal_strlit("media");
    assert("media"@.len() == 5 && "media"@[0] == 'm' && "media"@[1] == 'e');
    let es = r.body->Dict_0;
    assert(seq![(Model::Text("text"@), Model::Text(x.text@))] =~= Seq::<(Model, Model)>::empty().push(
        (Model::Text("text"@), Model::Text(x.text@)),
    ));
    assert(lookup(es, Model::Text("text"@)) == Some(Model::Text(x.text@)));
    let ms = blobs(x.media@);
    assert forall|i: int| 0 <= i < ms.len() implies (#[trigger] ms[i]).len() == 32 by {
        assert(ms[i] == x.media@[i].0@);
    }
    lemma_ids_round_trip(ms);
    if x.media@.len() == 0 {
        assert(ms =~= Seq::<Seq<u8>>::empty());
        assert(lookup(es, Model::Text("media"@)) is None);
    } else {
        assert(lookup(es, Model::Text("media"@)) == Some(ids_value(ms)));
    }
    assert(id_array_at(r.body, "media"@) == Some(ms));
}

/// A playlist written as a body, with no refs, reads back as that
/// playlist, whenever its title is 1 to 512 bytes, its description at
/// most 16384, and it has at least one entry.
pub proof fn lemma_playlist_round_trip(x: Playlist, r: RecordModel)
    requires
        x.title@.len() > 0,
        encode_utf8(x.title@).len() <= 512,
        x.description matches Some(t) ==> encode_utf8(t@).len() <= 16384,
        x.entries@.len() > 0,
        r.refs.len() == 0,
        r.body == Model::Dict(
            crate::kinds::fields::push_if(
                seq![
                    (Model::Text("title"@), Model::Text(x.title@)),
                    (Model::Text("entries"@), ids_value(record_ids(x.entries@))),
                ],
                x.description is Some,
                (Model::Text("description"@), Model::Text(x.description->0@)),
            ),
        ),
    ensures
        playlist_of(r) == Some((x.title@, opt_text(x.description), record_ids(x.entries@))),
{
    broadcast use lemma_lookup_push;
    reveal_strlit("title");
    assert("title"@.len() == 5 && "title"@[0] == 't' && "title"@[1] == 'i');
    reveal_strlit("entries");
    assert("entries"@.len() == 7 && "entries"@[0] == 'e' && "entries"@[1] == 'n');
    reveal_strlit("description");
    assert("description"@.len() == 11 && "description"@[0] == 'd' && "description"@[1] == 'e');
    let ids = record_ids(x.entries@);
    let base = seq![
        (Model::Text("title"@), Model::Text(x.title@)),
        (Model::Text("entries"@), ids_value(ids)),
    ];
    assert(base =~= Seq::<(Model, Model)>::empty().push((Model::Text("title"@), Model::Text(x.title@))).push(
        (Model::Text("entries"@), ids_value(ids)),
    ));
    let es = r.body->Dict_0;
    assert(lookup(es, Model::Text("title"@)) == Some(Model::Text(x.title@)));
    assert(lookup(es, Model::Text("entries"@)) == Some(ids_value(ids)));
    assert forall|i: int| 0 <= i < ids.len() implies (#[trigger] ids[i]).len() == 32 by {
        assert(ids[i] == x.entries@[i].0@);
    }
    lemma_ids_round_trip(ids);
    assert(req_array(r.body, "entries"@) == Some(ids_value(ids)->Array_0));
    assert(text_at(r.body, "description"@, 16384) == Some(opt_text(x.description)));
}

/// A mirror written as a body, under its targets as refs, reads back as
/// those targets and hints, whenever it has at least one target.
pub proof fn lemma_mirror_round_trip(x: Mirror, r: RecordModel)
    requires
        x.targets@.len() >= 1,
        r.refs == x.targets@,
        r.body == Model::Dict(
            if x.hints@.len() > 0 {
                seq![(Model::Text("hints"@), pairs_value(hint_views(x.hints@)))]
            } else {
                Seq::empty()
            },
        ),
    ensures
        mirror_of(r) == Some((x.targets@, hint_views(x.hints@))),
{
    let hs = hint_views(x.hints@);
    lemma_pairs_round_trip(hs);
    if hs.len() == 0 {
        assert(hs =~= Seq::<(u64, Seq<char>)>::empty());
    }
}

/// A statement and evidence body holds the statement and the evidence
/// ids under their keys.
proof fn lemma_statement_evidence(st: Option<Seq<char>>, ev: Seq<Seq<u8>>)
    requires
        st matches Some(t) ==> encode_utf8(t).len() <= unbounded(),
        forall|i: int| 0 <= i < ev.len() ==> (#[trigger] ev[i]).len() == 32,
    ensures
        text_at(Model::Dict(statement_evidence(st, ev)), "statement"@, unbounded()) == Some(st),
        id_array_at(Model::Dict(statement_evidence(st, ev)), "evidence"@) == Some(ev),
{
    broadcast use lemma_lookup_push;
    reveal_strlit("statement");
    assert("statement"@.len() == 9 && "statement"@[0] == 's' && "statement"@[1] == 't');
    reveal_strlit("evidence");
    assert("evidence"@.len() == 8 && "evidence"@[0] == 'e' && "evidence"@[1] == 'v');
    let es = statement_evidence(st, ev);
    lemma_ids_round_trip(ev);
    if ev.len() == 0 {
        assert(ev =~= Seq::<Seq<u8>>::empty());
        assert(lookup(es, Model::Text("evidence"@)) is None);
    } else {
        assert(lookup(es, Model::Text("evidence"@)) == Some(ids_value(ev)));
    }
}

/// An authorship claim written as a body, under its one ref, reads back
/// as that claim.
pub proof fn lemma_claim_author_round_trip(x: ClaimAuthor, r: RecordModel)
    requires
        x.statement matches Some(t) ==> encode_utf8(t@).len() <= unbounded(),
        r.refs == seq![Ref { ref_type: 0, hash: x.subject.0 }],
        r.body == Model::Dict(statement_evidence(opt_text(x.statement), blobs(x.evidence@))),
    ensures
        claim_author_of(r) == Some((x.subject.0@, opt_text(x.statement), blobs(x.evidence@))),
{
    let ev = blobs(x.evidence@);
    assert forall|i: int| 0 <= i < ev.len() implies (#[trigger] ev[i]).len() == 32 by {
        assert(ev[i] == x.evidence@[i].0@);
    }
    lemma_statement_evidence(opt_text(x.statement), ev);
}

/// A dispute written as a body, under its one ref, reads back as that
/// dispute, whenever its statement is not empty.
pub proof fn lemma_claim_dispute_round_trip(x: ClaimDispute, r: RecordModel)
    requires
        x.statement@.len() > 0,
        encode_utf8(x.statement@).len() <= unbounded(),
        r.refs == seq![Ref { ref_type: 0, hash: x.target.0 }],
        r.body == Model::Dict(statement_evidence(Some(x.statement@), blobs(x.evidence@))),
    ensures
        claim_dispute_of(r) == Some((x.target.0@, x.statement@, blobs(x.evidence@))),
{
    let ev = blobs(x.evidence@);
    assert forall|i: int| 0 <= i < ev.len() implies (#[trigger] ev[i]).len() == 32 by {
        assert(ev[i] == x.evidence@[i].0@);
    }
    lemma_statement_evidence(Some(x.statement@), ev);
}

} // verus!
