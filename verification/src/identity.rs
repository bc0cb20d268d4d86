//! The identity rotation log: rotation bodies, genesis and rotation
//! records, and chain verification with fork resolution.

use vstd::prelude::*;
use crate::codec::{Value, Model, model_list, model_entries, lemma_model_list, lemma_model_entries};
use crate::access::spec_map_get;
use crate::record::{Record, RecordModel, RecordBuilder, Ref, SIG_ALG_ED25519, sig_message, spec_record_id, signed_record, BuilderModel, sig_valid};
use crate::crypto::{ed25519_accepts, ed25519_public_key};
use crate::keys::Keypair;
use crate::ids::{IdentityId, RecordId};
use crate::error::Error;
use crate::order::{lex_lt, bytes_lt};
use crate::codec::canon_ok;
use crate::text::{bytes_eq, bytes_to_vec};

verus! {

/// Kind id of `rotation` records.
pub const KIND_ROTATION: u64 = 1;

/// A `(key_alg, public_key)` pair, as used for recovery keys.
pub type AlgKey = (u64, Vec<u8>);

/// Parsed body of a rotation record.
#[derive(Debug, Clone, PartialEq, Eq)]
pub struct RotationBody {
    /// New signing public key.
    pub key: Vec<u8>,
    /// Algorithm of `key`.
    pub key_alg: u64,
    /// Declared recovery keys.
    pub recovery: Vec<AlgKey>,
    /// Contest window in seconds; 0 disables recovery precedence.
    pub contest_window: u64,
}

/// The abstract content of a rotation body.
pub struct RotationModel {
    pub key: Seq<u8>,
    pub key_alg: u64,
    pub recovery: Seq<(u64, Seq<u8>)>,
    pub contest_window: u64,
}

/// Recovery keys as byte sequences.
pub open spec fn alg_keys(v: Seq<AlgKey>) -> Seq<(u64, Seq<u8>)> {
    v.map_values(|p: AlgKey| (p.0, p.1@))
}

impl View for RotationBody {
    type V = RotationModel;

    open spec fn view(&self) -> RotationModel {
        RotationModel {
            key: self.key@,
            key_alg: self.key_alg,
            recovery: alg_keys(self.recovery@),
            contest_window: self.contest_window,
        }
    }
}

pub open spec fn k_key() -> Seq<char> {
    seq!['k', 'e', 'y']
}

pub open spec fn k_key_alg() -> Seq<char> {
    seq!['k', 'e', 'y', '_', 'a', 'l', 'g']
}

pub open spec fn k_contest_window() -> Seq<char> {
    seq!['c', 'o', 'n', 't', 'e', 's', 't', '_', 'w', 'i', 'n', 'd', 'o', 'w']
}

pub open spec fn k_recovery() -> Seq<char> {
    seq!['r', 'e', 'c', 'o', 'v', 'e', 'r', 'y']
}

/// A recovery entry `[alg, key]`.
pub open spec fn recovery_entry(m: Model) -> Option<(u64, Seq<u8>)> {
    match m {
        Model::Array(items) => if items.len() == 2 && items[0] is Uint && items[1] is Bytes {
            Some((items[0]->Uint_0, items[1]->Bytes_0))
        } else {
            None
        },
        _ => None,
    }
}

/// The recovery keys of an array of entries, when every entry is one.
pub open spec fn recovery_list(items: Seq<Model>) -> Option<Seq<(u64, Seq<u8>)>> {
    if forall|i: int| 0 <= i < items.len() ==> (#[trigger] recovery_entry(items[i])) is Some {
        Some(Seq::new(items.len(), |i: int| recovery_entry(items[i])->0))
    } else {
        None
    }
}

/// Why an entry is not a recovery entry.
pub open spec fn entry_error(m: Model) -> Error {
    match m {
        Model::Array(items) => if items.len() != 2 {
            Error::Identity("recovery entry must be [alg, key]")
        } else if !(items[0] is Uint) {
            Error::Identity("recovery alg must be uint")
        } else {
            Error::Identity("recovery key must be bytes")
        },
        _ => Error::Identity("recovery entry must be array"),
    }
}

/// The index of the first entry that is not a recovery entry.
pub open spec fn first_bad_entry(items: Seq<Model>) -> int {
    choose|i: int| 0 <= i < items.len() && recovery_entry(items[i]) is None && forall|k: int|
        0 <= k < i ==> (#[trigger] recovery_entry(items[k])) is Some
}

/// Why a record is not a well-formed rotation (when it is not): the
/// first check it fails.
pub open spec fn rotation_error(r: RecordModel) -> Error {
    let b = r.body;
    if r.kind != KIND_ROTATION {
        Error::Identity("not a rotation record")
    } else if !(spec_map_get(b, Model::Text(k_key())) matches Some(Model::Bytes(_))) {
        Error::Identity("rotation body missing key")
    } else if !(spec_map_get(b, Model::Text(k_key_alg())) matches Some(Model::Uint(_))) {
        Error::Identity("rotation body missing key_alg")
    } else if !(spec_map_get(b, Model::Text(k_contest_window())) matches Some(Model::Uint(_))) {
        Error::Identity("rotation body missing contest_window")
    } else if !(spec_map_get(b, Model::Text(k_recovery())) matches Some(Model::Array(_))) {
        Error::Identity("rotation body missing recovery")
    } else {
        let items = spec_map_get(b, Model::Text(k_recovery()))->0->Array_0;
        entry_error(items[first_bad_entry(items)])
    }
}

/// The rotation body of a record, when it is a well-formed rotation.
pub open spec fn rotation_of(r: RecordModel) -> Option<RotationModel> {
    if r.kind != KIND_ROTATION {
        None
    } else {
        let b = r.body;
        match (
            spec_map_get(b, Model::Text(k_key())),
            spec_map_get(b, Model::Text(k_key_alg())),
            spec_map_get(b, Model::Text(k_contest_window())),
            spec_map_get(b, Model::Text(k_recovery())),
        ) {
            (Some(Model::Bytes(key)), Some(Model::Uint(alg)), Some(Model::Uint(cw)), Some(Model::Array(items))) => {
                match recovery_list(items) {
                    Some(rec) => Some(RotationModel { key, key_alg: alg, recovery: rec, contest_window: cw }),
                    None => None,
                }
            },
            _ => None,
        }
    }
}

/// The body value a rotation is written as.
pub open spec fn rotation_value(b: RotationModel) -> Model {
    Model::Dict(
        seq![
            (Model::Text(k_contest_window()), Model::Uint(b.contest_window)),
            (Model::Text(k_key()), Model::Bytes(b.key)),
            (Model::Text(k_key_alg()), Model::Uint(b.key_alg)),
            (
                Model::Text(k_recovery()),
                Model::Array(
                    Seq::new(
                        b.recovery.len(),
                        |i: int| Model::Array(seq![Model::Uint(b.recovery[i].0), Model::Bytes(b.recovery[i].1)]),
                    ),
                ),
            ),
        ],
    )
}

proof fn lemma_first_bad(ms: Seq<Model>, i: int)
    requires
        0 <= i < ms.len(),
        recovery_entry(ms[i]) is None,
        forall|k: int| 0 <= k < i ==> (#[trigger] recovery_entry(ms[k])) is Some,
    ensures
        first_bad_entry(ms) == i,
{
    let j = first_bad_entry(ms);
    assert(0 <= j < ms.len() && recovery_entry(ms[j]) is None && forall|k: int|
        0 <= k < j ==> (#[trigger] recovery_entry(ms[k])) is Some);
    if j < i {
        assert(recovery_entry(ms[j]) is Some);
    } else if j > i {
        assert(recovery_entry(ms[i]) is Some);
    }
}

fn parse_recovery(items: &[Value]) -> (res: Result<Vec<AlgKey>, Error>)
    ensures
        match recovery_list(model_list(items@)) {
            Some(rec) => res matches Ok(v) && alg_keys(v@) == rec,
            None => res == Err::<Vec<AlgKey>, Error>(entry_error(model_list(items@)[first_bad_entry(model_list(items@))])),
        },
{
    proof {
        lemma_model_list(items@);
    }
    let ghost ms = model_list(items@);
    let mut out: Vec<AlgKey> = Vec::new();
    let mut i: usize = 0;
    while i < items.len()
        invariant
            i <= items.len(),
            out.len() == i,
            ms == model_list(items@),
            ms.len() == items.len(),
            forall|k: int| 0 <= k < items.len() ==> #[trigger] ms[k] == items@[k]@,
            forall|k: int| 0 <= k < i ==> #[trigger] recovery_entry(ms[k]) == Some((out@[k].0, out@[k].1@)),
        decreases items.len() - i,
    {
        let pair = match items[i].as_array() {
            Some(p) => p,
            None => {
                proof {
                    lemma_first_bad(ms, i as int);
                }
                return Err(Error::Identity("recovery entry must be array"));
            },
        };
        proof {
            lemma_model_list(pair@);
        }
        if pair.len() != 2 {
            proof {
                lemma_first_bad(ms, i as int);
            }
            return Err(Error::Identity("recovery entry must be [alg, key]"));
        }
        let alg = match pair[0].as_u64() {
            Some(a) => a,
            None => {
                proof {
                    lemma_first_bad(ms, i as int);
                }
                return Err(Error::Identity("recovery alg must be uint"));
            },
        };
        let key = match pair[1].as_bytes() {
            Some(b) => bytes_to_vec(b),
            None => {
                proof {
                    lemma_first_bad(ms, i as int);
                }
                return Err(Error::Identity("recovery key must be bytes"));
            },
        };
        out.push((alg, key));
        i = i + 1;
    }
    proof {
        let rec = recovery_list(ms);
        assert(rec is Some);
        assert(alg_keys(out@) =~= rec->0);
    }
    Ok(out)
}

impl RotationBody {
    /// The body value: a map with `contest_window`, `key`, `key_alg`
    /// and `recovery`.
    fn to_value(&self) -> (v: Value)
        ensures
            v@ == rotation_value(self@),
    {
        proof {
            reveal_strlit("contest_window");
            reveal_strlit("key");
            reveal_strlit("key_alg");
            reveal_strlit("recovery");
            assert("contest_window"@ =~= k_contest_window());
            assert("key"@ =~= k_key());
            assert("key_alg"@ =~= k_key_alg());
            assert("recovery"@ =~= k_recovery());
        }
        let mut rec: Vec<Value> = Vec::new();
        let mut i: usize = 0;
        while i < self.recovery.len()
            invariant
                i <= self.recovery.len(),
                rec.len() == i,
                forall|k: int|
                    0 <= k < i ==> #[trigger] rec@[k]@ == Model::Array(
                        seq![Model::Uint(self.recovery@[k].0), Model::Bytes(self.recovery@[k].1@)],
                    ),
            decreases self.recovery.len() - i,
        {
            let pair = Value::Array(vec![Value::Uint(self.recovery[i].0), Value::Bytes(self.recovery[i].1.clone())]);
            proof {
                lemma_model_list(pair->Array_0@);
                assert(model_list(pair->Array_0@) =~= seq![Model::Uint(self.recovery@[i as int].0), Model::Bytes(self.recovery@[i as int].1@)]);
            }
            rec.push(pair);
            i = i + 1;
        }
        let recv = Value::Array(rec);
        let v = Value::Dict(vec![
            (Value::Text("contest_window".to_string()), Value::Uint(self.contest_window)),
            (Value::Text("key".to_string()), Value::Bytes(self.key.clone())),
            (Value::Text("key_alg".to_string()), Value::Uint(self.key_alg)),
            (Value::Text("recovery".to_string()), recv),
        ]);
        proof {
            lemma_model_list(recv->Array_0@);
            let want = rotation_value(self@)->Dict_0[3].1->Array_0;
            assert(model_list(recv->Array_0@) =~= want) by {
                assert forall|k: int| 0 <= k < want.len() implies #[trigger] model_list(recv->Array_0@)[k] == want[k] by {
                    assert(model_list(recv->Array_0@)[k] == recv->Array_0@[k]@);
                }
            }
            lemma_model_entries(v->Dict_0@);
            assert(model_entries(v->Dict_0@) =~= rotation_value(self@)->Dict_0);
        }
        v
    }

    /// Parse and validate the body of a rotation record.
    pub fn parse(record: &Record) -> (res: Result<RotationBody, Error>)
        ensures
            match rotation_of(record@) {
                Some(m) => res matches Ok(b) && b@ == m,
                None => res == Err::<RotationBody, Error>(rotation_error(record@)),
            },
    {
        if record.kind() != KIND_ROTATION {
            return Err(Error::Identity("not a rotation record"));
        }
        proof {
            reveal_strlit("contest_window");
            reveal_strlit("key");
            reveal_strlit("key_alg");
            reveal_strlit("recovery");
            assert("contest_window"@ =~= k_contest_window());
            assert("key"@ =~= k_key());
            assert("key_alg"@ =~= k_key_alg());
            assert("recovery"@ =~= k_recovery());
        }
        let body = record.body();
        let key = match body.map_get("key") {
            Some(v) => match v.as_bytes() {
                Some(b) => bytes_to_vec(b),
                None => {
                    return Err(Error::Identity("rotation body missing key"));
                },
            },
            None => {
                return Err(Error::Identity("rotation body missing key"));
            },
        };
        let key_alg = match body.map_get("key_alg") {
            Some(v) => match v.as_u64() {
                Some(a) => a,
                None => {
                    return Err(Error::Identity("rotation body missing key_alg"));
                },
            },
            None => {
                return Err(Error::Identity("rotation body missing key_alg"));
            },
        };
        let contest_window = match body.map_get("contest_window") {
            Some(v) => match v.as_u64() {
                Some(a) => a,
                None => {
                    return Err(Error::Identity("rotation body missing contest_window"));
                },
            },
            None => {
                return Err(Error::Identity("rotation body missing contest_window"));
            },
        };
        let recovery_v = match body.map_get("recovery") {
            Some(v) => match v.as_array() {
                Some(a) => a,
                None => {
                    return Err(Error::Identity("rotation body missing recovery"));
                },
            },
            None => {
                return Err(Error::Identity("rotation body missing recovery"));
            },
        };
        let recovery = match parse_recovery(recovery_v) {
            Ok(r) => r,
            Err(e) => {
                return Err(e);
            },
        };
        Ok(RotationBody { key, key_alg, recovery, contest_window })
    }
}

/// The verified current state of an identity.
#[derive(Debug, Clone, PartialEq, Eq)]
pub struct IdentityState {
    /// The identity's stable identifier.
    pub identity_id: IdentityId,
    /// Current signing key.
    pub signing_key: Vec<u8>,
    /// Algorithm of `signing_key`.
    pub key_alg: u64,
    /// Current recovery key set.
    pub recovery: Vec<AlgKey>,
    /// Current contest window (seconds).
    pub contest_window: u64,
    /// Record id of the chain head (latest applied rotation).
    pub head: RecordId,
    /// Number of rotations applied after genesis.
    pub depth: u64,
}

/// The abstract content of an identity state.
pub struct StateModel {
    pub identity_id: Seq<u8>,
    pub signing_key: Seq<u8>,
    pub key_alg: u64,
    pub recovery: Seq<(u64, Seq<u8>)>,
    pub contest_window: u64,
    pub head: Seq<u8>,
    pub depth: u64,
}

impl View for IdentityState {
    type V = StateModel;

    open spec fn view(&self) -> StateModel {
        StateModel {
            identity_id: self.identity_id.0@,
            signing_key: self.signing_key@,
            key_alg: self.key_alg,
            recovery: alg_keys(self.recovery@),
            contest_window: self.contest_window,
            head: self.head.0@,
            depth: self.depth,
        }
    }
}

/// Whether `(alg, key)` is one of the recovery keys.
pub open spec fn has_recovery(rec: Seq<(u64, Seq<u8>)>, alg: u64, key: Seq<u8>) -> bool {
    exists|i: int| 0 <= i < rec.len() && rec[i].0 == alg && rec[i].1 == key
}

impl IdentityState {
    /// True if `key` (with `alg`) is the current signing key.
    pub fn is_signing_key(&self, alg: u64, key: &[u8]) -> (b: bool)
        ensures
            b == (self.key_alg == alg && self.signing_key@ == key@),
    {
        self.key_alg == alg && bytes_eq(self.signing_key.as_slice(), key)
    }

    /// True if `key` (with `alg`) is a current recovery key.
    pub fn is_recovery_key(&self, alg: u64, key: &[u8]) -> (b: bool)
        ensures
            b == has_recovery(self@.recovery, alg, key@),
    {
        let mut i: usize = 0;
        while i < self.recovery.len()
            invariant
                i <= self.recovery.len(),
                forall|k: int| 0 <= k < i ==> !(self.recovery@[k].0 == alg && self.recovery@[k].1@ == key@),
            decreases self.recovery.len() - i,
        {
            if self.recovery[i].0 == alg && bytes_eq(self.recovery[i].1.as_slice(), key) {
                proof {
                    assert(alg_keys(self.recovery@)[i as int] == (alg, key@));
                }
                return true;
            }
            i = i + 1;
        }
        proof {
            if has_recovery(self@.recovery, alg, key@) {
                let k = choose|k: int| 0 <= k < alg_keys(self.recovery@).len() && alg_keys(self.recovery@)[k].0 == alg && alg_keys(self.recovery@)[k].1 == key@;
                assert(alg_keys(self.recovery@)[k] == (self.recovery@[k].0, self.recovery@[k].1@));
            }
        }
        false
    }
}

// ---------------------------------------------------------------------
// Chain semantics
// ---------------------------------------------------------------------

/// The all-zero identity id carried by genesis records.
pub open spec fn zero32() -> Seq<u8> {
    Seq::new(32, |i: int| 0u8)
}

/// A valid genesis: a rotation with no refs and the zero identity id,
/// signed by the key it declares, under the algorithm it declares.
pub open spec fn genesis_ok(r: RecordModel) -> bool {
    &&& r.kind == KIND_ROTATION
    &&& r.refs.len() == 0
    &&& r.identity_id == zero32()
    &&& rotation_of(r) matches Some(b) && r.signing_key == b.key && r.sig_alg == b.key_alg
    &&& sig_valid(r)
}

/// A validly signed rotation of the identity with a single record ref
/// (its parent).
pub open spec fn candidate(r: RecordModel, identity: Seq<u8>) -> bool {
    &&& r.kind == KIND_ROTATION
    &&& r.refs.len() == 1
    &&& r.refs[0].ref_type == 0
    &&& r.identity_id == identity
    &&& sig_valid(r)
}

/// The elapsed time `now - seen`, saturating at the `i64` range.
pub open spec fn sat_sub(now: i64, seen: i64) -> int {
    let d = now - seen;
    if d > i64::MAX {
        i64::MAX as int
    } else if d < i64::MIN {
        i64::MIN as int
    } else {
        d
    }
}

/// Whether a rotation observed at `seen` is final at `now`: observed
/// strictly longer ago than the contest window.
pub open spec fn is_final(seen: Option<i64>, now: i64, window: u64) -> bool {
    match seen {
        Some(s) => sat_sub(now, s) >= 0 && sat_sub(now, s) > window,
        None => false,
    }
}

/// Classes of children: 0 signing, 1 recovery, 2 final signing.
pub open spec fn in_class(rs: Seq<RecordModel>, obs: Seq<Option<i64>>, now: i64, st: StateModel, cls: int, i: int) -> bool {
    class_of(rs[i], obs[i], now, st, cls)
}

/// Whether one record, observed at `seen`, is a child of the state's
/// head in class `cls`.
pub open spec fn class_of(r: RecordModel, seen: Option<i64>, now: i64, st: StateModel, cls: int) -> bool {
    let child = candidate(r, st.identity_id) && r.refs[0].hash@ == st.head && rotation_of(r) is Some;
    let signing = child && st.key_alg == r.sig_alg && st.signing_key == r.signing_key;
    let recovery = child && !signing && has_recovery(st.recovery, r.sig_alg, r.signing_key);
    if cls == 0 {
        signing
    } else if cls == 1 {
        recovery
    } else {
        signing && is_final(seen, now, st.contest_window)
    }
}

/// The first record among the first `n` with the lowest id in a class.
pub open spec fn best_of(rs: Seq<RecordModel>, obs: Seq<Option<i64>>, now: i64, st: StateModel, cls: int, n: int) -> Option<int>
    decreases n,
{
    if n <= 0 {
        None
    } else {
        let b = best_of(rs, obs, now, st, cls, n - 1);
        if in_class(rs, obs, now, st, cls, n - 1) && (b is None || lex_lt(
            spec_record_id(rs[n - 1]),
            spec_record_id(rs[b->0]),
        )) {
            Some(n - 1)
        } else {
            b
        }
    }
}

/// The child a state advances to: with recovery precedence disabled,
/// the lowest id among signing and recovery children (signing first on
/// a tie); otherwise the lowest final signing child, else the lowest
/// recovery child, else the lowest signing child.
pub open spec fn next_child(rs: Seq<RecordModel>, obs: Seq<Option<i64>>, now: i64, st: StateModel) -> Option<int> {
    let n = rs.len() as int;
    let s = best_of(rs, obs, now, st, 0, n);
    let r = best_of(rs, obs, now, st, 1, n);
    let f = best_of(rs, obs, now, st, 2, n);
    if st.contest_window == 0 {
        match (s, r) {
            (Some(a), Some(b)) => if lex_lt(spec_record_id(rs[b]), spec_record_id(rs[a])) {
                Some(b)
            } else {
                Some(a)
            },
            (Some(a), None) => Some(a),
            (None, x) => x,
        }
    } else if f is Some {
        f
    } else if r is Some {
        r
    } else {
        s
    }
}

/// The state after applying a rotation.
pub open spec fn advance(st: StateModel, r: RecordModel) -> StateModel {
    let b = rotation_of(r)->0;
    StateModel {
        signing_key: b.key,
        key_alg: b.key_alg,
        recovery: b.recovery,
        contest_window: b.contest_window,
        head: spec_record_id(r),
        depth: (st.depth + 1) as u64,
        ..st
    }
}

/// Walk the chain from a state, at most `fuel` steps.
pub open spec fn walk(rs: Seq<RecordModel>, obs: Seq<Option<i64>>, now: i64, st: StateModel, fuel: nat) -> StateModel
    decreases fuel,
{
    if fuel == 0 {
        st
    } else {
        match next_child(rs, obs, now, st) {
            None => st,
            Some(i) => walk(rs, obs, now, advance(st, rs[i]), (fuel - 1) as nat),
        }
    }
}

/// The number of valid genesis records among the first `n`.
pub open spec fn genesis_count(rs: Seq<RecordModel>, n: int) -> nat
    decreases n,
{
    if n <= 0 {
        0
    } else {
        genesis_count(rs, n - 1) + if genesis_ok(rs[n - 1]) {
            1nat
        } else {
            0nat
        }
    }
}

/// The index of the first valid genesis among the first `n`.
pub open spec fn first_genesis(rs: Seq<RecordModel>, n: int) -> int
    decreases n,
{
    if n <= 0 {
        -1
    } else if genesis_count(rs, n - 1) == 0 && genesis_ok(rs[n - 1]) {
        n - 1
    } else {
        first_genesis(rs, n - 1)
    }
}

/// The state at genesis.
pub open spec fn genesis_state(g: RecordModel) -> StateModel {
    let b = rotation_of(g)->0;
    StateModel {
        identity_id: spec_record_id(g),
        signing_key: b.key,
        key_alg: b.key_alg,
        recovery: b.recovery,
        contest_window: b.contest_window,
        head: spec_record_id(g),
        depth: 0,
    }
}

/// The outcome of verifying a chain: an error unless exactly one valid
/// genesis is present; otherwise the state reached walking from it.
pub open spec fn chain_result(rs: Seq<RecordModel>, obs: Seq<Option<i64>>, now: i64) -> Result<StateModel, Error> {
    let c = genesis_count(rs, rs.len() as int);
    if c >= 2 {
        Err(Error::Identity("multiple genesis records in input"))
    } else if c == 0 {
        Err(Error::Identity("no valid genesis"))
    } else {
        Ok(walk(rs, obs, now, genesis_state(rs[first_genesis(rs, rs.len() as int)]), rs.len()))
    }
}

/// The models of a list of records.
pub open spec fn record_models(v: Seq<Record>) -> Seq<RecordModel> {
    v.map_values(|r: Record| r@)
}

pub open spec fn opt_int(o: Option<usize>) -> Option<int> {
    match o {
        Some(x) => Some(x as int),
        None => None,
    }
}

fn is_zero_id(id: &[u8; 32]) -> (b: bool)
    ensures
        b == (id@ == zero32()),
{
    let z = [0u8; 32];
    proof {
        assert(z@ =~= zero32());
    }
    bytes_eq(id, &z)
}

fn verifies(r: &Record) -> (b: bool)
    ensures
        b == sig_valid(r@),
{
    r.verify().is_ok()
}

/// Whether a record is a valid genesis.
fn is_genesis(r: &Record) -> (b: bool)
    ensures
        b == genesis_ok(r@),
{
    if r.kind() != KIND_ROTATION || r.refs().len() != 0 {
        return false;
    }
    if !is_zero_id(&r.author().identity_id.0) {
        return false;
    }
    let body = match RotationBody::parse(r) {
        Ok(b) => b,
        Err(_) => {
            return false;
        },
    };
    if !bytes_eq(r.author().signing_key.as_slice(), body.key.as_slice()) || r.sig_alg() != body.key_alg {
        return false;
    }
    verifies(r)
}

/// Whether a record is a candidate rotation of the identity.
fn is_candidate(r: &Record, identity: &[u8; 32]) -> (b: bool)
    ensures
        b == candidate(r@, identity@),
{
    if r.kind() != KIND_ROTATION || r.refs().len() != 1 {
        return false;
    }
    if r.refs()[0].ref_type != 0 {
        return false;
    }
    if !bytes_eq(&r.author().identity_id.0, identity) {
        return false;
    }
    verifies(r)
}

/// Whether a rotation observed at `seen` is final at `now`.
fn final_at(seen: Option<i64>, now: i64, window: u64) -> (b: bool)
    ensures
        b == is_final(seen, now, window),
{
    match seen {
        Some(s) => {
            let d: i128 = now as i128 - s as i128;
            let sat: i128 = if d > i64::MAX as i128 {
                i64::MAX as i128
            } else if d < i64::MIN as i128 {
                i64::MIN as i128
            } else {
                d
            };
            sat >= 0 && sat > window as i128
        },
        None => false,
    }
}

/// The classes a record falls in relative to a state: signing,
/// recovery, final signing.
fn classify(r: &Record, seen: Option<i64>, now: i64, st: &IdentityState) -> (c: (bool, bool, bool))
    ensures
        c.0 == class_of(r@, seen, now, st@, 0),
        c.1 == class_of(r@, seen, now, st@, 1),
        c.2 == class_of(r@, seen, now, st@, 2),
{
    if !is_candidate(r, &st.identity_id.0) {
        return (false, false, false);
    }
    if !bytes_eq(&r.refs()[0].hash, &st.head.0) {
        return (false, false, false);
    }
    match RotationBody::parse(r) {
        Ok(_) => {},
        Err(_) => {
            return (false, false, false);
        },
    }
    let a = r.author();
    if st.is_signing_key(r.sig_alg(), a.signing_key.as_slice()) {
        (true, false, final_at(seen, now, st.contest_window))
    } else if st.is_recovery_key(r.sig_alg(), a.signing_key.as_slice()) {
        (false, true, false)
    } else {
        (false, false, false)
    }
}

/// Update a running best of a class with record `i`.
fn better(cand: bool, i: usize, id: &[u8; 32], best: Option<usize>, best_id: &[u8; 32]) -> (r: (Option<usize>, [u8; 32]))
    ensures
        (cand && (best is None || lex_lt(id@, best_id@))) ==> r.0 == Some(i) && r.1@ == id@,
        !(cand && (best is None || lex_lt(id@, best_id@))) ==> r.0 == best && r.1@ == best_id@,
{
    if cand && (best.is_none() || bytes_lt(id, best_id)) {
        (Some(i), *id)
    } else {
        (best, *best_id)
    }
}

/// The child the state advances to (see [`next_child`]).
fn find_next(records: &[Record], observed: &[Option<i64>], now: i64, st: &IdentityState) -> (r: Option<usize>)
    requires
        observed@.len() == records@.len(),
    ensures
        opt_int(r) == next_child(record_models(records@), observed@, now, st@),
        r matches Some(i) ==> i < records@.len(),
{
    let ghost rs = record_models(records@);
    let ghost obs = observed@;
    let mut bs: Option<usize> = None;
    let mut br: Option<usize> = None;
    let mut bf: Option<usize> = None;
    let mut ids: [u8; 32] = [0u8; 32];
    let mut idr: [u8; 32] = [0u8; 32];
    let mut idf: [u8; 32] = [0u8; 32];
    let mut i: usize = 0;
    while i < records.len()
        invariant
            i <= records.len(),
            observed@.len() == records@.len(),
            rs == record_models(records@),
            obs == observed@,
            opt_int(bs) == best_of(rs, obs, now, st@, 0, i as int),
            opt_int(br) == best_of(rs, obs, now, st@, 1, i as int),
            opt_int(bf) == best_of(rs, obs, now, st@, 2, i as int),
            bs matches Some(k) ==> k < i && ids@ == spec_record_id(rs[k as int]),
            br matches Some(k) ==> k < i && idr@ == spec_record_id(rs[k as int]),
            bf matches Some(k) ==> k < i && idf@ == spec_record_id(rs[k as int]),
        decreases records.len() - i,
    {
        let c = classify(&records[i], observed[i], now, st);
        let id = records[i].id();
        proof {
            assert(rs[i as int] == records@[i as int]@);
        }
        let (a, a_id) = better(c.0, i, &id.0, bs, &ids);
        let (b, b_id) = better(c.1, i, &id.0, br, &idr);
        let (f, f_id) = better(c.2, i, &id.0, bf, &idf);
        bs = a;
        ids = a_id;
        br = b;
        idr = b_id;
        bf = f;
        idf = f_id;
        i = i + 1;
    }
    if st.contest_window == 0 {
        match (bs, br) {
            (Some(a), Some(b)) => {
                if bytes_lt(&idr, &ids) {
                    Some(b)
                } else {
                    Some(a)
                }
            },
            (Some(a), None) => Some(a),
            (None, x) => x,
        }
    } else if bf.is_some() {
        bf
    } else if br.is_some() {
        br
    } else {
        bs
    }
}

/// Verify a rotation chain given the time each record was first
/// observed (`observed[i]` for `records[i]`; `None` = just observed),
/// and compute the current state.
///
/// Exactly one valid genesis must be present. The walk from it takes,
/// at each head, the child chosen by the fork rules (see
/// [`next_child`]) and stops when the head has no authorized child. It
/// applies at most as many rotations as there are records: a longer
/// walk would revisit a record, which takes a hash cycle.
pub fn verify_chain_observed(records: &[Record], observed: &[Option<i64>], now: i64) -> (res: Result<IdentityState, Error>)
    requires
        observed@.len() == records@.len(),
    ensures
        match chain_result(record_models(records@), observed@, now) {
            Ok(sm) => res matches Ok(s) && s@ == sm,
            Err(e) => res == Err::<IdentityState, Error>(e),
        },
{
    let ghost rs = record_models(records@);
    let mut found: Option<usize> = None;
    let mut i: usize = 0;
    while i < records.len()
        invariant
            i <= records.len(),
            rs == record_models(records@),
            genesis_count(rs, i as int) <= 1,
            found is None <==> genesis_count(rs, i as int) == 0,
            found matches Some(g) ==> g == first_genesis(rs, i as int) && g < i,
        decreases records.len() - i,
    {
        proof {
            assert(rs[i as int] == records@[i as int]@);
        }
        if is_genesis(&records[i]) {
            if found.is_some() {
                proof {
                    assert(genesis_count(rs, i + 1) == 2);
                    lemma_genesis_count_mono(rs, i + 1, rs.len() as int);
                }
                return Err(Error::Identity("multiple genesis records in input"));
            }
            found = Some(i);
        }
        i = i + 1;
    }
    let g = match found {
        Some(g) => g,
        None => {
            return Err(Error::Identity("no valid genesis"));
        },
    };
    let genesis = &records[g];
    proof {
        lemma_first_genesis_ok(rs, rs.len() as int);
        assert(rs[g as int] == records@[g as int]@);
    }
    let body = match RotationBody::parse(genesis) {
        Ok(b) => b,
        Err(e) => {
            return Err(e);
        },
    };
    let gid = genesis.id();
    let mut state = IdentityState {
        identity_id: IdentityId(gid.0),
        signing_key: body.key,
        key_alg: body.key_alg,
        recovery: body.recovery,
        contest_window: body.contest_window,
        head: gid,
        depth: 0,
    };
    let ghost target = walk(rs, observed@, now, state@, rs.len());
    proof {
        assert(state@ == genesis_state(rs[g as int]));
        assert(chain_result(rs, observed@, now) == Ok::<StateModel, Error>(target));
    }
    let mut steps: usize = 0;
    while steps < records.len()
        invariant
            steps <= records.len(),
            observed@.len() == records@.len(),
            rs == record_models(records@),
            state.depth == steps,
            chain_result(rs, observed@, now) == Ok::<StateModel, Error>(target),
            target == walk(rs, observed@, now, state@, (rs.len() - steps) as nat),
        decreases records.len() - steps,
    {
        let next = find_next(records, observed, now, &state);
        match next {
            None => {
                return Ok(state);
            },
            Some(c) => {
                let child = &records[c];
                proof {
                    assert(rs[c as int] == records@[c as int]@);
                }
                let cb = match RotationBody::parse(child) {
                    Ok(b) => b,
                    Err(e) => {
                        proof {
                            lemma_next_child_parses(rs, observed@, now, state@);
                        }
                        return Err(e);
                    },
                };
                state.signing_key = cb.key;
                state.key_alg = cb.key_alg;
                state.recovery = cb.recovery;
                state.contest_window = cb.contest_window;
                state.head = child.id();
                state.depth = state.depth + 1;
            },
        }
        steps = steps + 1;
    }
    Ok(state)
}

/// Whether `obs` holds, for each record in turn, a value that
/// `observed_at` may return for that record's id.
pub open spec fn observations<F: Fn(&RecordId) -> Option<i64>>(observed_at: F, records: Seq<Record>, obs: Seq<Option<i64>>) -> bool {
    &&& obs.len() == records.len()
    &&& forall|i: int| 0 <= i < obs.len() ==> may_observe(observed_at, spec_record_id(records[i]@), #[trigger] obs[i])
}

/// Whether `observed_at` may return `o` for the record id `rid`.
pub open spec fn may_observe<F: Fn(&RecordId) -> Option<i64>>(observed_at: F, rid: Seq<u8>, o: Option<i64>) -> bool {
    exists|id: RecordId| #![trigger call_ensures(observed_at, (&id,), o)] id.0@ == rid && call_ensures(observed_at, (&id,), o)
}

/// The record a builder with the given fields signs as `identity`.
pub open spec fn rotation_record(
    secret: Seq<u8>,
    identity: Seq<u8>,
    refs: Seq<Ref>,
    body: RotationModel,
    created_at: i64,
) -> RecordModel {
    signed_record(
        BuilderModel { kind: KIND_ROTATION, created_at, refs, body: rotation_value(body) },
        secret,
        identity,
    )
}

fn copy_alg_keys(v: &[AlgKey]) -> (r: Vec<AlgKey>)
    ensures
        alg_keys(r@) == alg_keys(v@),
{
    let mut out: Vec<AlgKey> = Vec::new();
    let mut i: usize = 0;
    while i < v.len()
        invariant
            i <= v.len(),
            out.len() == i,
            forall|k: int| 0 <= k < i ==> #[trigger] out@[k].0 == v@[k].0 && out@[k].1@ == v@[k].1@,
        decreases v.len() - i,
    {
        out.push((v[i].0, bytes_to_vec(v[i].1.as_slice())));
        i = i + 1;
    }
    assert(alg_keys(out@) =~= alg_keys(v@));
    out
}

/// Identity operations: genesis, rotation, chain verification.
pub struct Identity;

impl Identity {
    /// Create a new identity. Returns the identifier (the genesis
    /// record's id) and the genesis rotation record to publish: signed
    /// by `keypair` under the zero identity, declaring its public key,
    /// the recovery keys and the contest window.
    pub fn genesis(keypair: &Keypair, recovery: &[AlgKey], contest_window: u64, created_at: i64) -> (res: Result<(IdentityId, Record), Error>)
        ensures
            res is Ok <==> canon_ok(rotation_value(RotationModel {
                key: ed25519_public_key(keypair@),
                key_alg: SIG_ALG_ED25519,
                recovery: alg_keys(recovery@),
                contest_window,
            })),
            res matches Ok((id, r)) ==> {
                &&& r@ == rotation_record(
                    keypair@,
                    zero32(),
                    Seq::empty(),
                    RotationModel {
                        key: ed25519_public_key(keypair@),
                        key_alg: SIG_ALG_ED25519,
                        recovery: alg_keys(recovery@),
                        contest_window,
                    },
                    created_at,
                )
                &&& id.0@ == spec_record_id(r@)
            },
    {
        let body = RotationBody {
            key: bytes_to_vec(&keypair.public_key_bytes()),
            key_alg: SIG_ALG_ED25519,
            recovery: copy_alg_keys(recovery),
            contest_window,
        };
        let zero = IdentityId::zero();
        proof {
            assert(zero.0@ =~= zero32());
        }
        let record = match RecordBuilder::new(KIND_ROTATION).created_at(created_at).body(body.to_value()).sign_as(keypair, zero) {
            Ok(r) => r,
            Err(e) => {
                return Err(e);
            },
        };
        let id = IdentityId(record.id().0);
        Ok((id, record))
    }

    /// Build a rotation record: a rotation of `identity` whose one ref is
    /// the parent `prev`, declaring the new key, recovery keys and
    /// contest window, signed by `signer`. Whether the signer is
    /// authorized is decided by the chain at verification time.
    pub fn rotate(
        identity: IdentityId,
        prev: RecordId,
        new_key: &[u8],
        new_key_alg: u64,
        recovery: &[AlgKey],
        contest_window: u64,
        created_at: i64,
        signer: &Keypair,
    ) -> (res: Result<Record, Error>)
        ensures
            res is Ok <==> canon_ok(rotation_value(RotationModel {
                key: new_key@,
                key_alg: new_key_alg,
                recovery: alg_keys(recovery@),
                contest_window,
            })),
            res matches Ok(r) ==> r@ == rotation_record(
                signer@,
                identity.0@,
                seq![Ref { ref_type: 0, hash: prev.0 }],
                RotationModel {
                    key: new_key@,
                    key_alg: new_key_alg,
                    recovery: alg_keys(recovery@),
                    contest_window,
                },
                created_at,
            ),
    {
        let body = RotationBody {
            key: bytes_to_vec(new_key),
            key_alg: new_key_alg,
            recovery: copy_alg_keys(recovery),
            contest_window,
        };
        let b = RecordBuilder::new(KIND_ROTATION).created_at(created_at).add_ref(Ref::record(prev)).body(body.to_value());
        proof {
            assert(b@.refs =~= seq![Ref { ref_type: 0, hash: prev.0 }]);
        }
        b.sign_as(signer, identity)
    }

    /// Verify a rotation chain and compute the current state.
    ///
    /// `records` is any set of records; non-rotations and rotations for
    /// other identities are ignored. `observed_at` reports when this
    /// verifier first saw a record (`None` = just observed, so not
    /// final); `now` is the verifier's clock. Both drive only
    /// contest-window finality. The result is that of
    /// [`verify_chain_observed`] on the values `observed_at` gave.
    pub fn verify_chain<F: Fn(&RecordId) -> Option<i64>>(records: &[Record], observed_at: &F, now: i64) -> (res: Result<IdentityState, Error>)
        requires
            forall|id: &RecordId| call_requires(*observed_at, (id,)),
        ensures
            exists|obs: Seq<Option<i64>>| {
                &&& observations(*observed_at, records@, obs)
                &&& match chain_result(record_models(records@), obs, now) {
                    Ok(sm) => res matches Ok(s) && s@ == sm,
                    Err(e) => res == Err::<IdentityState, Error>(e),
                }
            },
    {
        let mut obs: Vec<Option<i64>> = Vec::new();
        let mut i: usize = 0;
        while i < records.len()
            invariant
                i <= records.len(),
                obs.len() == i,
                forall|id: &RecordId| call_requires(*observed_at, (id,)),
                forall|k: int| 0 <= k < i ==> may_observe(*observed_at, spec_record_id(records@[k]@), #[trigger] obs@[k]),
            decreases records.len() - i,
        {
            let id = records[i].id();
            let o = observed_at(&id);
            let ghost prev = obs@;
            obs.push(o);
            proof {
                assert(call_ensures(*observed_at, (&id,), o));
                assert(may_observe(*observed_at, spec_record_id(records@[i as int]@), o));
                assert forall|k: int| 0 <= k <= i implies may_observe(*observed_at, spec_record_id(records@[k]@), #[trigger] obs@[k]) by {
                    if k < i {
                        assert(obs@[k] == prev[k]);
                    } else {
                        assert(obs@[k] == o);
                    }
                }
            }
            i = i + 1;
        }
        let res = verify_chain_observed(records, obs.as_slice(), now);
        proof {
            assert(observations(*observed_at, records@, obs@));
        }
        res
    }
}

proof fn lemma_genesis_count_mono(rs: Seq<RecordModel>, a: int, b: int)
    requires
        0 <= a <= b,
    ensures
        genesis_count(rs, a) <= genesis_count(rs, b),
    decreases b - a,
{
    if a < b {
        lemma_genesis_count_mono(rs, a, b - 1);
    }
}

pub(crate) proof fn lemma_first_genesis_ok(rs: Seq<RecordModel>, n: int)
    requires
        genesis_count(rs, n) > 0,
    ensures
        0 <= first_genesis(rs, n) < n,
        genesis_ok(rs[first_genesis(rs, n)]),
    decreases n,
{
    if n > 0 && !(genesis_count(rs, n - 1) == 0 && genesis_ok(rs[n - 1])) {
        lemma_first_genesis_ok(rs, n - 1);
    }
}

proof fn lemma_best_in_class(rs: Seq<RecordModel>, obs: Seq<Option<i64>>, now: i64, st: StateModel, cls: int, n: int)
    requires
        best_of(rs, obs, now, st, cls, n) is Some,
    ensures
        0 <= best_of(rs, obs, now, st, cls, n)->0 < n,
        in_class(rs, obs, now, st, cls, best_of(rs, obs, now, st, cls, n)->0),
    decreases n,
{
    if n > 0 {
        let b = best_of(rs, obs, now, st, cls, n - 1);
        if !(in_class(rs, obs, now, st, cls, n - 1) && (b is None || lex_lt(
            spec_record_id(rs[n - 1]),
            spec_record_id(rs[b->0]),
        ))) {
            lemma_best_in_class(rs, obs, now, st, cls, n - 1);
        }
    }
}

/// The chosen child always has a well-formed rotation body.
proof fn lemma_next_child_parses(rs: Seq<RecordModel>, obs: Seq<Option<i64>>, now: i64, st: StateModel)
    requires
        next_child(rs, obs, now, st) is Some,
    ensures
        rotation_of(rs[next_child(rs, obs, now, st)->0]) is Some,
{
    let n = rs.len() as int;
    if best_of(rs, obs, now, st, 0, n) is Some {
        lemma_best_in_class(rs, obs, now, st, 0, n);
    }
    if best_of(rs, obs, now, st, 1, n) is Some {
        lemma_best_in_class(rs, obs, now, st, 1, n);
    }
    if best_of(rs, obs, now, st, 2, n) is Some {
        lemma_best_in_class(rs, obs, now, st, 2, n);
    }
}

} // verus!
