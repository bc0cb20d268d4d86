//! The decisions behind a relay's `/sync` connection and its gossip
//! links: what a `PUB` is answered, what a stored or live record is sent
//! as, the per-connection subscription registry, and what a peer's frame
//! contributes to the store.
//!
//! The socket loops, the store and the rate limiter run around these:
//! each step here takes what they produced and says what they do next.

use vstd::prelude::*;
use crate::record::{Record, RecordModel, record_of_bytes, sig_valid, spec_record_id, verify_error, envelope_error};
use crate::pow::{check, spec_leading_zero_bits, spec_work_digest};
use crate::frames::{RelayFrame, RelayFrameModel, ClientFrame, ClientFrameModel};
use crate::filter::{Filter, FilterModel, spec_matches, hash_seqs, empty_filter};
use crate::relay::{AcceptedRecord, InsertOutcome, StoredRecord};
use crate::error::{Error, error_text};
use crate::text::{concat, str_eq};
use crate::kinds::fields::own;

verus! {

/// Stored-phase backfill cap for a `REQ` whose filter sets no `limit`.
pub const DEFAULT_BACKFILL_LIMIT: u64 = 500;

/// The first wait, in seconds, before reconnecting to a gossip peer.
pub const RECONNECT_MIN_SECS: u64 = 1;

/// The longest wait, in seconds, between reconnection attempts.
pub const RECONNECT_MAX_SECS: u64 = 60;

/// The 32 zero bytes reported as the id of bytes that are no record.
pub open spec fn zero_id() -> Seq<u8> {
    Seq::new(32, |i: int| 0u8)
}

/// Whether `nonce` carries the proof of work that `min_bits` asks of
/// the record id `id` (no work is asked when `min_bits` is 0).
pub open spec fn pow_ok(id: Seq<u8>, nonce: Option<u64>, min_bits: u32) -> bool {
    min_bits == 0 || (nonce matches Some(n) && spec_leading_zero_bits(spec_work_digest(id, n)) >= min_bits)
}

/// A refusing answer to a `PUB`.
pub open spec fn refusal(id: Seq<u8>, reason: Seq<char>) -> RelayFrameModel {
    RelayFrameModel::Ack { id, accepted: false, reason }
}

/// Why bytes offered as a record were not taken.
#[derive(Debug, Clone, PartialEq, Eq)]
pub enum IngestError {
    /// The bytes are not the canonical envelope of a record.
    Envelope(Error),
    /// The record's signature does not verify.
    Verification(Error),
}

impl IngestError {
    /// A human-readable description.
    pub fn message(&self) -> (s: String)
        ensures
            s@ == match *self {
                IngestError::Envelope(e) => "invalid envelope: "@ + error_text(e),
                IngestError::Verification(e) => "verification failed: "@ + error_text(e),
            },
    {
        match self {
            IngestError::Envelope(e) => {
                let m = e.message();
                concat("invalid envelope: ", m.as_str())
            },
            IngestError::Verification(e) => {
                let m = e.message();
                concat("verification failed: ", m.as_str())
            },
        }
    }
}

/// Decode and verify bytes offered as a record: the step every `PUB`
/// and every record from a peer goes through before anything else.
pub fn admit_record(bytes: &[u8]) -> (res: Result<Record, IngestError>)
    ensures
        match record_of_bytes(bytes@) {
            None => res matches Err(IngestError::Envelope(e)) && envelope_error(bytes@, e),
            Some(m) => if sig_valid(m) {
                res matches Ok(r) && r@ == m
            } else {
                res == Err::<Record, IngestError>(IngestError::Verification(verify_error(m)))
            },
        },
{
    let record = match Record::from_cbor(bytes) {
        Ok(r) => r,
        Err(e) => {
            return Err(IngestError::Envelope(e));
        },
    };
    match record.verify() {
        Ok(()) => Ok(record),
        Err(e) => Err(IngestError::Verification(e)),
    }
}

/// The first step of a `PUB`: decode, verify, and check the proof of
/// work. What passes goes on to the rate limiter; what fails is
/// answered with the returned refusal (the zero id when the bytes are
/// no record, as no id can be derived from them).
pub fn check_pub(record_bytes: &[u8], nonce: Option<u64>, pow_min_bits: u32) -> (res: Result<Record, RelayFrame>)
    ensures
        match record_of_bytes(record_bytes@) {
            None => res matches Err(f) && exists|e: Error|
                envelope_error(record_bytes@, e) && f@ == refusal(zero_id(), "invalid envelope: "@ + error_text(e)),
            Some(m) => if !sig_valid(m) {
                res matches Err(f) && f@ == refusal(
                    spec_record_id(m),
                    "verification failed: "@ + error_text(verify_error(m)),
                )
            } else if !pow_ok(spec_record_id(m), nonce, pow_min_bits) {
                res matches Err(f) && f@ == refusal(spec_record_id(m), "pow"@)
            } else {
                res matches Ok(r) && r@ == m
            },
        },
{
    let bytes_result = Record::from_cbor(record_bytes);
    let record = match bytes_result {
        Ok(r) => r,
        Err(e) => {
            let m = e.message();
            let reason = concat("invalid envelope: ", m.as_str());
            let z = [0u8; 32];
            let f = RelayFrame::Ack { id: z, accepted: false, reason };
            proof {
                assert(z@ =~= zero_id());
                assert(f@ == refusal(zero_id(), "invalid envelope: "@ + error_text(e)));
            }
            return Err(f);
        },
    };
    let id = record.id().0;
    match record.verify() {
        Ok(()) => {},
        Err(e) => {
            let m = e.message();
            let reason = concat("verification failed: ", m.as_str());
            return Err(RelayFrame::Ack { id, accepted: false, reason });
        },
    }
    if !check(&id, nonce, pow_min_bits) {
        let reason = own("pow");
        return Err(RelayFrame::Ack { id, accepted: false, reason });
    }
    Ok(record)
}

/// What became of a `PUB` that passed [`check_pub`].
#[derive(Debug, Clone, Copy, PartialEq, Eq)]
pub enum PubOutcome {
    /// The author's rate limit refused it.
    RateLimited,
    /// The store took it (or already had it).
    Stored(InsertOutcome),
    /// The store failed.
    StoreFailed,
}

/// The answer to a `PUB` that passed [`check_pub`]: accepted when the
/// store took it or already had it, refused with `"rate"` or
/// `"internal error"` otherwise.
pub fn pub_answer(id: &[u8; 32], outcome: PubOutcome) -> (f: RelayFrame)
    ensures
        f@ == match outcome {
            PubOutcome::RateLimited => refusal(id@, "rate"@),
            PubOutcome::Stored(_) => RelayFrameModel::Ack { id: id@, accepted: true, reason: ""@ },
            PubOutcome::StoreFailed => refusal(id@, "internal error"@),
        },
{
    match outcome {
        PubOutcome::RateLimited => RelayFrame::Ack { id: *id, accepted: false, reason: own("rate") },
        PubOutcome::Stored(_) => RelayFrame::Ack { id: *id, accepted: true, reason: own("") },
        PubOutcome::StoreFailed => RelayFrame::Ack { id: *id, accepted: false, reason: own("internal error") },
    }
}

/// The announcement of a record the store has just taken, for live
/// subscriptions and gossip; nothing for a duplicate, which is neither
/// re-sequenced nor re-announced.
pub fn accepted_record(record: &Record, bytes: Vec<u8>, outcome: InsertOutcome) -> (a: Option<AcceptedRecord>)
    ensures
        match outcome {
            InsertOutcome::Duplicate => a is None,
            InsertOutcome::Inserted(seq) => a matches Some(x) && x.id@ == spec_record_id(record@) && x.kind
                == record@.kind && x.author@ == record@.identity_id && x.ref_hashes@.len() == record@.refs.len()
                && (forall|i: int| 0 <= i < x.ref_hashes@.len() ==> #[trigger] x.ref_hashes@[i] == record@.refs[i].hash)
                && x.seq == seq && x.bytes@ == bytes@,
        },
{
    match outcome {
        InsertOutcome::Duplicate => None,
        InsertOutcome::Inserted(seq) => Some(
            AcceptedRecord {
                id: record.id().0,
                kind: record.kind(),
                author: record.author_identity_id(),
                ref_hashes: record.ref_hashes(),
                seq,
                bytes,
            },
        ),
    }
}

/// A `PUB` in progress: the record that passed [`check_pub`] and the
/// bytes it was offered as.
#[derive(Debug)]
pub struct PubFlow {
    pub record: Record,
    pub bytes: Vec<u8>,
}

/// What the relay does next with a `PUB`.
#[derive(Debug)]
pub enum PubNext {
    /// Send `answer` (the one answer to the `PUB`) and, when there is
    /// one, announce `announce`; the `PUB` is done.
    Finish { answer: RelayFrame, announce: Option<AcceptedRecord> },
    /// Ask the rate limiter about `author`, then continue with
    /// [`pub_rate`].
    CheckRate { author: [u8; 32], flow: PubFlow },
    /// Insert the record, then continue with [`pub_stored`].
    Insert { flow: PubFlow },
}

/// The answer of a `PUB` that ends here, with nothing announced.
pub open spec fn finishes_with(next: PubNext, f: RelayFrameModel) -> bool {
    next matches PubNext::Finish { answer, announce } && answer@ == f && announce is None
}

/// The first step of a `PUB`: the record is decoded, verified and its
/// proof of work checked before anything else; a record that fails is
/// answered at once, and only one that passes goes on to the rate
/// limiter.
pub fn pub_begin(record_bytes: Vec<u8>, nonce: Option<u64>, pow_min_bits: u32) -> (next: PubNext)
    ensures
        match record_of_bytes(record_bytes@) {
            None => exists|e: Error| finishes_with(next, refusal(zero_id(), "invalid envelope: "@ + error_text(e))),
            Some(m) => if !sig_valid(m) {
                finishes_with(next, refusal(spec_record_id(m), "verification failed: "@ + error_text(verify_error(m))))
            } else if !pow_ok(spec_record_id(m), nonce, pow_min_bits) {
                finishes_with(next, refusal(spec_record_id(m), "pow"@))
            } else {
                next matches PubNext::CheckRate { author, flow } && author@ == m.identity_id && flow.record@ == m
                    && flow.bytes@ == record_bytes@
            },
        },
{
    match check_pub(record_bytes.as_slice(), nonce, pow_min_bits) {
        Err(answer) => PubNext::Finish { answer, announce: None },
        Ok(record) => {
            let author = record.author_identity_id();
            PubNext::CheckRate { author, flow: PubFlow { record, bytes: record_bytes } }
        },
    }
}

/// After the rate limiter: a refused author is answered `"rate"`;
/// otherwise the record goes to the store.
pub fn pub_rate(flow: PubFlow, allowed: bool) -> (next: PubNext)
    ensures
        !allowed ==> finishes_with(next, refusal(spec_record_id(flow.record@), "rate"@)),
        allowed ==> (next matches PubNext::Insert { flow: f } && f.record@ == flow.record@ && f.bytes@ == flow.bytes@),
{
    if allowed {
        PubNext::Insert { flow }
    } else {
        let id = flow.record.id().0;
        PubNext::Finish { answer: pub_answer(&id, PubOutcome::RateLimited), announce: None }
    }
}

/// After the store (`None` when it failed): the record is accepted when
/// the store took it or already had it, and announced only when it was
/// newly inserted.
pub fn pub_stored(flow: PubFlow, stored: Option<InsertOutcome>) -> (next: PubNext)
    ensures
        match stored {
            None => finishes_with(next, refusal(spec_record_id(flow.record@), "internal error"@)),
            Some(o) => next matches PubNext::Finish { answer, announce } && answer@ == (RelayFrameModel::Ack {
                id: spec_record_id(flow.record@),
                accepted: true,
                reason: ""@,
            }) && match o {
                InsertOutcome::Duplicate => announce is None,
                InsertOutcome::Inserted(seq) => announce matches Some(x) && x.id@ == spec_record_id(flow.record@)
                    && x.seq == seq && x.bytes@ == flow.bytes@ && x.kind == flow.record@.kind && x.author@
                    == flow.record@.identity_id && x.ref_hashes@.len() == flow.record@.refs.len() && (forall|i: int|
                    0 <= i < x.ref_hashes@.len() ==> #[trigger] x.ref_hashes@[i] == flow.record@.refs[i].hash),
            },
        },
{
    let id = flow.record.id().0;
    match stored {
        None => PubNext::Finish { answer: pub_answer(&id, PubOutcome::StoreFailed), announce: None },
        Some(o) => {
            let answer = pub_answer(&id, PubOutcome::Stored(o));
            let announce = accepted_record(&flow.record, flow.bytes, o);
            PubNext::Finish { answer, announce }
        },
    }
}

/// What a frame received from a gossip peer contributes: the verified
/// record of a `REC`, nothing for any other frame, or the reason the
/// record was not taken. Peers are held to the same envelope check as
/// local publishers, but to no proof of work or rate limit.
pub fn peer_record(frame: &RelayFrame) -> (res: Result<Option<Record>, IngestError>)
    ensures
        match frame@ {
            RelayFrameModel::Rec { record, .. } => match record_of_bytes(record) {
                None => res matches Err(IngestError::Envelope(_)),
                Some(m) => if sig_valid(m) {
                    res matches Ok(Some(r)) && r@ == m
                } else {
                    res == Err::<Option<Record>, IngestError>(IngestError::Verification(verify_error(m)))
                },
            },
            _ => res matches Ok(None),
        },
{
    match frame {
        RelayFrame::Rec { record_bytes, .. } => match admit_record(record_bytes.as_slice()) {
            Ok(r) => Ok(Some(r)),
            Err(e) => Err(e),
        },
        _ => Ok(None),
    }
}

/// The subscription a relay asks each gossip peer for: everything.
pub fn gossip_request() -> (f: ClientFrame)
    ensures
        f@ == (ClientFrameModel::Req { sub_id: "gossip"@, filter: empty_filter() }),
{
    ClientFrame::Req { sub_id: own("gossip"), filter: Filter::default() }
}

/// The wait before the next reconnection attempt: double the last one,
/// at most [`RECONNECT_MAX_SECS`].
pub fn next_backoff(secs: u64) -> (next: u64)
    requires
        secs <= u64::MAX / 2,
    ensures
        next == if 2 * secs < RECONNECT_MAX_SECS {
            2 * secs
        } else {
            RECONNECT_MAX_SECS as int
        },
{
    let doubled = secs * 2;
    if doubled < RECONNECT_MAX_SECS {
        doubled
    } else {
        RECONNECT_MAX_SECS
    }
}

/// The views of a list of frames.
pub open spec fn frames_view(v: Seq<RelayFrame>) -> Seq<RelayFrameModel> {
    v.map_values(|f: RelayFrame| f@)
}

/// The stored phase of a subscription: one `REC` per stored record, in
/// the order given, then `EOSE`.
pub open spec fn backfill_spec(sub_id: Seq<char>, rows: Seq<StoredRecord>) -> Seq<RelayFrameModel> {
    rows.map_values(|r: StoredRecord| RelayFrameModel::Rec { sub_id, seq: r.seq, record: r.bytes@ }).push(
        RelayFrameModel::Eose { sub_id },
    )
}

/// The frames answering a `REQ` from the store's rows (see
/// [`backfill_spec`]).
pub fn backfill_frames(sub_id: &str, rows: &[StoredRecord]) -> (frames: Vec<RelayFrame>)
    ensures
        frames_view(frames@) == backfill_spec(sub_id@, rows@),
{
    let mut out: Vec<RelayFrame> = Vec::new();
    let mut i: usize = 0;
    while i < rows.len()
        invariant
            i <= rows.len(),
            frames_view(out@) == rows@.take(i as int).map_values(
                |r: StoredRecord| RelayFrameModel::Rec { sub_id: sub_id@, seq: r.seq, record: r.bytes@ },
            ),
        decreases rows.len() - i,
    {
        let ghost before = out@;
        out.push(RelayFrame::Rec { sub_id: own(sub_id), seq: rows[i].seq, record_bytes: rows[i].bytes.clone() });
        proof {
            assert(frames_view(out@) =~= frames_view(before).push(frames_view(out@).last()));
            assert(rows@.take(i + 1) =~= rows@.take(i as int).push(rows@[i as int]));
        }
        i = i + 1;
    }
    let ghost before = out@;
    out.push(RelayFrame::Eose { sub_id: own(sub_id) });
    proof {
        assert(rows@.take(rows@.len() as int) =~= rows@);
        assert(frames_view(out@) =~= frames_view(before).push(RelayFrameModel::Eose { sub_id: sub_id@ }));
    }
    out
}

/// A subscription's abstract content: its id and its filter.
pub type SubscriptionModel = (Seq<char>, FilterModel);

/// The subscriptions other than `sub_id`, in order.
pub open spec fn without(s: Seq<SubscriptionModel>, sub_id: Seq<char>) -> Seq<SubscriptionModel>
    decreases s.len(),
{
    if s.len() == 0 {
        s
    } else if s.last().0 == sub_id {
        without(s.drop_last(), sub_id)
    } else {
        without(s.drop_last(), sub_id).push(s.last())
    }
}

/// No two subscriptions share an id.
pub open spec fn distinct_ids(s: Seq<SubscriptionModel>) -> bool {
    forall|i: int, j: int| 0 <= i < j < s.len() ==> #[trigger] s[i].0 != #[trigger] s[j].0
}

/// One connection's subscriptions, in the order they were made.
pub struct Subscriptions {
    entries: Vec<(String, Filter)>,
}

impl View for Subscriptions {
    type V = Seq<SubscriptionModel>;

    closed spec fn view(&self) -> Seq<SubscriptionModel> {
        self.entries@.map_values(|e: (String, Filter)| (e.0@, e.1@))
    }
}

proof fn lemma_without_subset(s: Seq<SubscriptionModel>, k: Seq<char>)
    ensures
        forall|i: int|
            #![trigger without(s, k)[i]]
            0 <= i < without(s, k).len() ==> without(s, k)[i].0 != k && s.contains(without(s, k)[i]),
        without(s, k).len() <= s.len(),
    decreases s.len(),
{
    if s.len() > 0 {
        lemma_without_subset(s.drop_last(), k);
        let w = without(s.drop_last(), k);
        assert forall|i: int|
            #![trigger without(s, k)[i]]
            0 <= i < without(s, k).len() implies without(s, k)[i].0 != k && s.contains(without(s, k)[i]) by {
            if i < w.len() {
                assert(s.drop_last().contains(w[i]));
                let j = choose|j: int| 0 <= j < s.drop_last().len() && s.drop_last()[j] == w[i];
                assert(s[j] == w[i]);
            } else {
                assert(s[s.len() - 1] == s.last());
            }
        }
    }
}

proof fn lemma_without_distinct(s: Seq<SubscriptionModel>, k: Seq<char>)
    requires
        distinct_ids(s),
    ensures
        distinct_ids(without(s, k)),
    decreases s.len(),
{
    if s.len() > 0 {
        assert(distinct_ids(s.drop_last()));
        lemma_without_distinct(s.drop_last(), k);
        lemma_without_subset(s.drop_last(), k);
        let w = without(s.drop_last(), k);
        if s.last().0 != k {
            assert forall|i: int, j: int| 0 <= i < j < w.push(s.last()).len() implies #[trigger] w.push(s.last())[i].0
                != #[trigger] w.push(s.last())[j].0 by {
                if j == w.len() {
                    assert(s.drop_last().contains(w[i]));
                    let m = choose|m: int| 0 <= m < s.drop_last().len() && s.drop_last()[m] == w[i];
                    assert(s[m] == w[i]);
                    assert(s[s.len() - 1] == s.last());
                }
            }
        }
    }
}

proof fn lemma_without_absent(s: Seq<SubscriptionModel>, k: Seq<char>)
    requires
        forall|i: int| 0 <= i < s.len() ==> #[trigger] s[i].0 != k,
    ensures
        without(s, k) == s,
    decreases s.len(),
{
    if s.len() > 0 {
        lemma_without_absent(s.drop_last(), k);
        assert(s.drop_last().push(s.last()) =~= s);
    }
}

impl Subscriptions {
    /// Well-formed: no two subscriptions share an id.
    pub closed spec fn wf(&self) -> bool {
        distinct_ids(self@)
    }

    /// No subscriptions.
    pub fn new() -> (s: Subscriptions)
        ensures
            s@ == Seq::<SubscriptionModel>::empty(),
            s.wf(),
    {
        let s = Subscriptions { entries: Vec::new() };
        proof {
            assert(s@ =~= Seq::<SubscriptionModel>::empty());
        }
        s
    }

    /// The number of subscriptions.
    pub fn len(&self) -> (n: usize)
        ensures
            n == self@.len(),
    {
        self.entries.len()
    }

    /// Drop the subscription `sub_id`, if there is one (`CLOSE`).
    pub fn remove(&mut self, sub_id: &str)
        requires
            old(self).wf(),
        ensures
            final(self)@ == without(old(self)@, sub_id@),
            final(self).wf(),
    {
        let mut rest: Vec<(String, Filter)> = Vec::new();
        std::mem::swap(&mut rest, &mut self.entries);
        let ghost orig = rest@.map_values(|e: (String, Filter)| (e.0@, e.1@));
        let ghost n = rest@.len();
        proof {
            assert(orig.take(0) =~= Seq::<SubscriptionModel>::empty());
            assert(self@ =~= Seq::<SubscriptionModel>::empty());
        }
        while rest.len() > 0
            invariant
                rest@.len() <= n,
                orig.len() == n,
                rest@.map_values(|e: (String, Filter)| (e.0@, e.1@)) == orig.skip(n - rest@.len()),
                self@ == without(orig.take(n - rest@.len()), sub_id@),
            decreases rest@.len(),
        {
            let ghost k = n - rest@.len();
            let ghost before_rest = rest@;
            let e = rest.remove(0);
            proof {
                let f = |e: (String, Filter)| (e.0@, e.1@);
                assert(before_rest.map_values(f) == orig.skip(k));
                assert(e == before_rest[0]);
                assert(orig[k] == orig.skip(k)[0]);
                assert(orig[k] == (e.0@, e.1@));
                assert forall|j: int| 0 <= j < rest@.len() implies #[trigger] rest@.map_values(f)[j] == orig.skip(k + 1)[j] by {
                    assert(rest@[j] == before_rest[j + 1]);
                    assert(orig.skip(k)[j + 1] == orig[k + 1 + j]);
                }
                assert(rest@.map_values(f) =~= orig.skip(k + 1));
                assert(orig.take(k + 1).drop_last() =~= orig.take(k));
                assert(orig.take(k + 1).last() == (e.0@, e.1@));
            }
            if !str_eq(e.0.as_str(), sub_id) {
                let ghost before = self@;
                self.entries.push(e);
                proof {
                    assert(self@ =~= before.push((e.0@, e.1@)));
                }
            }
        }
        proof {
            assert(orig.take(n as int) =~= old(self)@);
            lemma_without_distinct(old(self)@, sub_id@);
        }
    }

    /// Subscribe `sub_id` with `filter` (`REQ`): a subscription with the
    /// same id is replaced, and the new one goes last.
    pub fn insert(&mut self, sub_id: String, filter: Filter)
        requires
            old(self).wf(),
        ensures
            final(self)@ == without(old(self)@, sub_id@).push((sub_id@, filter@)),
            final(self).wf(),
    {
        self.remove(sub_id.as_str());
        let ghost before = self@;
        proof {
            lemma_without_subset(old(self)@, sub_id@);
        }
        self.entries.push((sub_id, filter));
        proof {
            assert(self@ =~= before.push((sub_id@, filter@)));
            assert forall|i: int, j: int| 0 <= i < j < self@.len() implies #[trigger] self@[i].0 != #[trigger] self@[j].0 by {
                if j == before.len() {
                    assert(before[i].0 != sub_id@);
                }
            }
        }
    }

    /// The `REC` frames that deliver a newly accepted record to every
    /// subscription whose filter matches it, in subscription order.
    pub fn live_frames(&self, rec: &AcceptedRecord) -> (frames: Vec<RelayFrame>)
        ensures
            frames_view(frames@) == live_spec(self@, rec.kind, rec.author@, rec.id@, hash_seqs(rec.ref_hashes@), rec.seq, rec.bytes@),
    {
        let mut out: Vec<RelayFrame> = Vec::new();
        let mut i: usize = 0;
        while i < self.entries.len()
            invariant
                i <= self.entries.len(),
                frames_view(out@) == live_spec(self@.take(i as int), rec.kind, rec.author@, rec.id@, hash_seqs(rec.ref_hashes@), rec.seq, rec.bytes@),
            decreases self.entries.len() - i,
        {
            let e = &self.entries[i];
            proof {
                assert(self@.take(i + 1).drop_last() =~= self@.take(i as int));
                assert(self@.take(i + 1).last() == (e.0@, e.1@));
            }
            if e.1.matches(rec.kind, &rec.author, &rec.id, rec.ref_hashes.as_slice(), rec.seq) {
                let ghost before = out@;
                out.push(RelayFrame::Rec { sub_id: e.0.clone(), seq: rec.seq, record_bytes: rec.bytes.clone() });
                proof {
                    assert(frames_view(out@) =~= frames_view(before).push(RelayFrameModel::Rec { sub_id: e.0@, seq: rec.seq, record: rec.bytes@ }));
                }
            }
            i = i + 1;
        }
        proof {
            assert(self@.take(self@.len() as int) =~= self@);
        }
        out
    }
}

/// The `REC` frames that deliver a record to the subscriptions `subs`.
pub open spec fn live_spec(
    subs: Seq<SubscriptionModel>,
    kind: u64,
    author: Seq<u8>,
    id: Seq<u8>,
    refs: Seq<Seq<u8>>,
    seq: u64,
    bytes: Seq<u8>,
) -> Seq<RelayFrameModel>
    decreases subs.len(),
{
    if subs.len() == 0 {
        Seq::empty()
    } else {
        let w = live_spec(subs.drop_last(), kind, author, id, refs, seq, bytes);
        if spec_matches(subs.last().1, kind, author, id, refs, seq) {
            w.push(RelayFrameModel::Rec { sub_id: subs.last().0, seq, record: bytes })
        } else {
            w
        }
    }
}

/// Every frame delivered to `subs` names one of its subscriptions.
proof fn lemma_live_sub_ids(
    subs: Seq<SubscriptionModel>,
    kind: u64,
    author: Seq<u8>,
    id: Seq<u8>,
    refs: Seq<Seq<u8>>,
    seq: u64,
    bytes: Seq<u8>,
)
    ensures
        forall|i: int|
            #![trigger live_spec(subs, kind, author, id, refs, seq, bytes)[i]]
            0 <= i < live_spec(subs, kind, author, id, refs, seq, bytes).len() ==> exists|j: int|
                0 <= j < subs.len() && live_spec(subs, kind, author, id, refs, seq, bytes)[i]
                    == (RelayFrameModel::Rec { sub_id: #[trigger] subs[j].0, seq, record: bytes }),
    decreases subs.len(),
{
    if subs.len() > 0 {
        let p = subs.drop_last();
        lemma_live_sub_ids(p, kind, author, id, refs, seq, bytes);
        let l = live_spec(subs, kind, author, id, refs, seq, bytes);
        let w = live_spec(p, kind, author, id, refs, seq, bytes);
        assert forall|i: int|
            #![trigger l[i]]
            0 <= i < l.len() implies exists|j: int|
                0 <= j < subs.len() && l[i] == (RelayFrameModel::Rec { sub_id: #[trigger] subs[j].0, seq, record: bytes }) by {
            if i < w.len() {
                assert(l[i] == w[i]);
                let j = choose|j: int| 0 <= j < p.len() && w[i] == (RelayFrameModel::Rec { sub_id: #[trigger] p[j].0, seq, record: bytes });
                assert(subs[j] == p[j]);
            } else {
                assert(subs[subs.len() - 1] == subs.last());
            }
        }
    }
}

/// Once a subscription is closed, no live record is delivered to it:
/// none of the frames for the remaining subscriptions carries its id.
pub proof fn lemma_closed_subscription_gets_nothing(
    subs: Seq<SubscriptionModel>,
    sub_id: Seq<char>,
    kind: u64,
    author: Seq<u8>,
    id: Seq<u8>,
    refs: Seq<Seq<u8>>,
    seq: u64,
    bytes: Seq<u8>,
)
    ensures
        forall|i: int|
            0 <= i < live_spec(without(subs, sub_id), kind, author, id, refs, seq, bytes).len() ==> #[trigger] live_spec(
                without(subs, sub_id),
                kind,
                author,
                id,
                refs,
                seq,
                bytes,
            )[i]->Rec_sub_id != sub_id,
{
    let w = without(subs, sub_id);
    lemma_live_sub_ids(w, kind, author, id, refs, seq, bytes);
    lemma_without_subset(subs, sub_id);
    assert forall|i: int|
        0 <= i < live_spec(w, kind, author, id, refs, seq, bytes).len() implies #[trigger] live_spec(
            w,
            kind,
            author,
            id,
            refs,
            seq,
            bytes,
        )[i]->Rec_sub_id != sub_id by {
        let l = live_spec(w, kind, author, id, refs, seq, bytes);
        let j = choose|j: int| 0 <= j < w.len() && l[i] == (RelayFrameModel::Rec { sub_id: #[trigger] w[j].0, seq, record: bytes });
        assert(w[j].0 != sub_id);
    }
}

} // verus!
