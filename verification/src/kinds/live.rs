//! Live kinds: `live.manifest`, `live.chat`.

use vstd::prelude::*;
use crate::codec::{Value, Model, model_list, lemma_model_list, model_entries};
use crate::error::Error;
use crate::ids::{BlobId, RecordId};
use crate::record::{Record, RecordModel, Ref, array32};
use crate::text::bytes_to_vec;
use crate::kinds::fields::{
    text_value, opt_text, text_at, req_u64, req_array, req_bool, req_nonempty_text, ref_id, is_id32, items_of,
    push_entry, push_if, text_field, required_u64, required_array, required_bool, required_nonempty_text,
    ref_record_id, refs_exact,
};
use crate::kinds::content::{single_target, opt_record, opt_ref};

verus! {

/// One segment of a live stream.
#[derive(Debug, Clone, PartialEq, Eq)]
pub struct LiveSegment {
    /// The segment blob.
    pub blob: BlobId,
    /// Duration in milliseconds.
    pub duration_ms: u64,
}

impl View for LiveSegment {
    type V = (Seq<u8>, u64);

    open spec fn view(&self) -> (Seq<u8>, u64) {
        (self.blob.0@, self.duration_ms)
    }
}

/// A segment read from `[blob, duration_ms]`.
pub open spec fn segment_of(m: Model) -> Option<(Seq<u8>, u64)> {
    match m {
        Model::Array(items) => if items.len() == 2 && is_id32(items[0]) && items[1] is Uint {
            Some((items[0]->Bytes_0, items[1]->Uint_0))
        } else {
            None
        },
        _ => None,
    }
}

/// [`segment_of`] as a function value.
pub open spec fn segment_fn() -> spec_fn(Model) -> Option<(Seq<u8>, u64)> {
    |m: Model| segment_of(m)
}

/// A window of a live stream: the stream, its segments, and whether it
/// is the last window.
#[derive(Debug, Clone, PartialEq, Eq)]
pub struct LiveManifest {
    /// The stream's first record (the one ref); `None` for the first
    /// record itself.
    pub stream: Option<RecordId>,
    /// Title, at most 512 bytes; required in the first record.
    pub title: Option<String>,
    /// Sequence number.
    pub seq: u64,
    /// Segments.
    pub segments: Vec<LiveSegment>,
    /// Whether the stream has ended (the `final` key).
    pub is_final: bool,
}

/// The content of a live manifest.
pub struct LiveManifestModel {
    pub stream: Option<Seq<u8>>,
    pub title: Option<Seq<char>>,
    pub seq: u64,
    pub segments: Seq<(Seq<u8>, u64)>,
    pub is_final: bool,
}

impl View for LiveManifest {
    type V = LiveManifestModel;

    open spec fn view(&self) -> LiveManifestModel {
        LiveManifestModel {
            stream: opt_record(self.stream),
            title: opt_text(self.title),
            seq: self.seq,
            segments: self.segments@.map_values(|s: LiveSegment| s@),
            is_final: self.is_final,
        }
    }
}

/// The stream a live manifest continues: none for the first record, or
/// its one record ref.
pub open spec fn live_stream(r: RecordModel) -> Option<Option<Seq<u8>>> {
    if r.refs.len() == 0 {
        Some(None)
    } else if r.refs.len() == 1 {
        match ref_id(r.refs[0]) {
            Some(h) => Some(Some(h)),
            None => None,
        }
    } else {
        None
    }
}

/// The live manifest a record holds: no refs (with a title) or one
/// stream ref; a sequence number, segments and the `final` flag.
pub open spec fn live_manifest_of(r: RecordModel) -> Option<LiveManifestModel> {
    let b = r.body;
    match (live_stream(r), text_at(b, "title"@, 512), req_u64(b, "seq"@), req_array(b, "segments"@), req_bool(b, "final"@)) {
        (Some(stream), Some(title), Some(seq), Some(items), Some(fin)) => if stream is None && title is None {
            None
        } else {
            match items_of(items, segment_fn()) {
                Some(segments) => Some(LiveManifestModel { stream, title, seq, segments, is_final: fin }),
                None => None,
            }
        },
        _ => None,
    }
}

/// The body a live manifest is written as: the title when given, then
/// sequence number, segments and the `final` flag.
pub open spec fn live_manifest_value(m: LiveManifestModel) -> Model {
    let e0 = push_if(Seq::empty(), m.title is Some, (Model::Text("title"@), Model::Text(m.title->0)));
    Model::Dict(
        e0 + seq![
            (Model::Text("seq"@), Model::Uint(m.seq)),
            (
                Model::Text("segments"@),
                Model::Array(m.segments.map_values(|s: (Seq<u8>, u64)| Model::Array(seq![Model::Bytes(s.0), Model::Uint(s.1)]))),
            ),
            (Model::Text("final"@), Model::Bool(m.is_final)),
        ],
    )
}

impl LiveManifest {
    /// Parse and validate a `live.manifest` record (see
    /// [`live_manifest_of`]).
    pub fn parse(record: &Record) -> (res: Result<LiveManifest, Error>)
        ensures
            match live_manifest_of(record@) {
                None => res matches Err(e) && e is Kind,
                Some(m) => res matches Ok(x) && x@ == m,
            },
    {
        let refs = record.refs();
        let stream = if refs.len() == 0 {
            None
        } else if refs.len() == 1 {
            match ref_record_id(&refs[0], "live.manifest: ref must be a record ref") {
                Ok(x) => Some(x),
                Err(e) => {
                    return Err(e);
                },
            }
        } else {
            return Err(Error::Kind("live.manifest: refs must be empty (first record) or exactly one stream ref"));
        };
        let body = record.body();
        let title = match text_field(body, "title", 512, "live.manifest: title too long") {
            Ok(x) => x,
            Err(e) => {
                return Err(e);
            },
        };
        if stream.is_none() && title.is_none() {
            return Err(Error::Kind("live.manifest: title required in the first record of a stream"));
        }
        let seq = match required_u64(body, "seq", "live.manifest: seq required") {
            Ok(x) => x,
            Err(e) => {
                return Err(e);
            },
        };
        let segments_v = match required_array(body, "segments", "live.manifest: segments required") {
            Ok(x) => x,
            Err(e) => {
                return Err(e);
            },
        };
        proof {
            lemma_model_list(segments_v@);
        }
        let ghost ms = model_list(segments_v@);
        let mut segments: Vec<LiveSegment> = Vec::new();
        let mut i: usize = 0;
        while i < segments_v.len()
            invariant
                i <= segments_v.len(),
                segments.len() == i,
                ms == model_list(segments_v@),
                ms.len() == segments_v.len(),
                forall|k: int| 0 <= k < segments_v.len() ==> #[trigger] ms[k] == segments_v@[k]@,
                forall|k: int| 0 <= k < i ==> #[trigger] segment_of(ms[k]) == Some(segments@[k]@),
                live_manifest_of(record@) is Some ==> items_of(ms, segment_fn()) is Some,
            decreases segments_v.len() - i,
        {
            let arr = match segments_v[i].as_array() {
                Some(a) => a,
                None => {
                    assert(segment_fn()(ms[i as int]) is None);
                    return Err(Error::Kind("live.manifest: segment must be [blob, duration_ms]"));
                },
            };
            proof {
                lemma_model_list(arr@);
            }
            if arr.len() != 2 {
                assert(segment_fn()(ms[i as int]) is None);
                return Err(Error::Kind("live.manifest: segment must have exactly 2 elements"));
            }
            let blob_bytes = match arr[0].as_bytes() {
                Some(b) => b,
                None => {
                    assert(segment_fn()(ms[i as int]) is None);
                    return Err(Error::Kind("live.manifest: segment blob must be bytes"));
                },
            };
            if blob_bytes.len() != 32 {
                assert(segment_fn()(ms[i as int]) is None);
                return Err(Error::Kind("live.manifest: segment blob must be 32 bytes"));
            }
            let blob = array32(blob_bytes);
            let duration_ms = match arr[1].as_u64() {
                Some(d) => d,
                None => {
                    assert(segment_fn()(ms[i as int]) is None);
                    return Err(Error::Kind("live.manifest: segment duration_ms must be a uint"));
                },
            };
            segments.push(LiveSegment { blob: BlobId(blob), duration_ms });
            i = i + 1;
        }
        proof {
            assert forall|k: int| 0 <= k < ms.len() implies (#[trigger] segment_fn()(ms[k])) is Some by {
                assert(segment_of(ms[k]) == Some(segments@[k]@));
            }
            assert(segments@.map_values(|s: LiveSegment| s@) =~= ms.map_values(|m: Model| segment_fn()(m)->0));
        }
        let is_final = match required_bool(body, "final", "live.manifest: final required") {
            Ok(x) => x,
            Err(e) => {
                return Err(e);
            },
        };
        Ok(LiveManifest { stream, title, seq, segments, is_final })
    }

    /// Build the body (see [`live_manifest_value`]).
    pub fn to_body(&self) -> (v: Value)
        ensures
            v@ == live_manifest_value(self@),
    {
        let mut segs: Vec<Value> = Vec::new();
        let mut i: usize = 0;
        while i < self.segments.len()
            invariant
                i <= self.segments.len(),
                segs.len() == i,
                forall|k: int|
                    0 <= k < i ==> #[trigger] segs@[k]@ == Model::Array(
                        seq![Model::Bytes(self.segments@[k].blob.0@), Model::Uint(self.segments@[k].duration_ms)],
                    ),
            decreases self.segments.len() - i,
        {
            let pair = vec![Value::Bytes(bytes_to_vec(self.segments[i].blob.as_bytes())), Value::Uint(self.segments[i].duration_ms)];
            proof {
                lemma_model_list(pair@);
                assert(model_list(pair@) =~= seq![
                    Model::Bytes(self.segments@[i as int].blob.0@),
                    Model::Uint(self.segments@[i as int].duration_ms),
                ]);
            }
            segs.push(Value::Array(pair));
            i = i + 1;
        }
        proof {
            lemma_model_list(segs@);
            let want = self@.segments.map_values(
                |s: (Seq<u8>, u64)| Model::Array(seq![Model::Bytes(s.0), Model::Uint(s.1)]),
            );
            assert forall|k: int| 0 <= k < segs@.len() implies #[trigger] model_list(segs@)[k] == want[k] by {
                assert(model_list(segs@)[k] == segs@[k]@);
            }
            assert(model_list(segs@) =~= want);
        }
        let mut e: Vec<(Value, Value)> = Vec::new();
        proof {
            assert(model_entries(e@) =~= Seq::<(Model, Model)>::empty());
        }
        match &self.title {
            Some(t) => push_entry(&mut e, text_value("title"), Value::Text(t.clone())),
            None => {},
        }
        push_entry(&mut e, text_value("seq"), Value::Uint(self.seq));
        push_entry(&mut e, text_value("segments"), Value::Array(segs));
        push_entry(&mut e, text_value("final"), Value::Bool(self.is_final));
        proof {
            assert(model_entries(e@) =~= live_manifest_value(self@)->Dict_0);
        }
        Value::Dict(e)
    }

    /// The refs this record should carry: the stream, if any.
    pub fn refs(&self) -> (r: Vec<Ref>)
        ensures
            r@ == opt_ref(self.stream),
    {
        match self.stream {
            Some(id) => vec![Ref::record(id)],
            None => Vec::new(),
        }
    }
}

/// A chat message on a live stream.
#[derive(Debug, Clone, PartialEq, Eq)]
pub struct LiveChat {
    /// The stream (the one ref).
    pub stream: RecordId,
    /// Message text, non-empty, at most 2048 bytes.
    pub text: String,
}

/// The chat message a record holds: one record ref and non-empty text
/// of at most 2048 bytes.
pub open spec fn live_chat_of(r: RecordModel) -> Option<(Seq<u8>, Seq<char>)> {
    match (single_target(r), req_nonempty_text(r.body, "text"@, 2048)) {
        (Some(s), Some(t)) => Some((s, t)),
        _ => None,
    }
}

impl LiveChat {
    /// Parse and validate a `live.chat` record (see [`live_chat_of`]).
    pub fn parse(record: &Record) -> (res: Result<LiveChat, Error>)
        ensures
            match live_chat_of(record@) {
                None => res matches Err(e) && e is Kind,
                Some(m) => res matches Ok(x) && x.stream.0@ == m.0 && x.text@ == m.1,
            },
    {
        match refs_exact(record, 1, "live.chat: refs must be exactly one stream ref") {
            Ok(()) => {},
            Err(e) => {
                return Err(e);
            },
        }
        let stream = match ref_record_id(&record.refs()[0], "live.chat: ref must be a record ref") {
            Ok(x) => x,
            Err(e) => {
                return Err(e);
            },
        };
        let text = match required_nonempty_text(record.body(), "text", 2048, "live.chat: text required (<=2048 bytes)") {
            Ok(x) => x,
            Err(e) => {
                return Err(e);
            },
        };
        Ok(LiveChat { stream, text })
    }

    /// Build the body: the text.
    pub fn to_body(&self) -> (v: Value)
        ensures
            v@ == Model::Dict(seq![(Model::Text("text"@), Model::Text(self.text@))]),
    {
        let mut e: Vec<(Value, Value)> = Vec::new();
        proof {
            assert(model_entries(e@) =~= Seq::<(Model, Model)>::empty());
        }
        push_entry(&mut e, text_value("text"), Value::Text(self.text.clone()));
        proof {
            assert(model_entries(e@) =~= seq![(Model::Text("text"@), Model::Text(self.text@))]);
        }
        Value::Dict(e)
    }

    /// The refs this record should carry: the stream.
    pub fn refs(&self) -> (r: Vec<Ref>)
        ensures
            r@ == seq![Ref { ref_type: 0, hash: self.stream.0 }],
    {
        vec![Ref::record(self.stream)]
    }
}

} // verus!
