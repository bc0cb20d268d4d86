//! Typed field access on record bodies, shared by every kind.
//!
//! A present field of the wrong type makes the record kind-invalid, as
//! does a missing required field; unknown keys are never looked at.
//! Each spec function below gives, for a body model and a key, `None`
//! when the field is invalid and otherwise what the field holds (an
//! inner `None` for an absent optional field).

use vstd::prelude::*;
use vstd::utf8::encode_utf8;
use crate::codec::{Value, Model, model_list, lemma_model_list, model_entries};
use crate::access::{spec_map_get, int_of};
use crate::error::Error;
use crate::ids::{BlobId, IdentityId, RecordId};
use crate::record::{Record, Ref, array32};
use crate::text::bytes_to_vec;

verus! {

/// The strings held by optional string fields.
pub open spec fn opt_text(o: Option<String>) -> Option<Seq<char>> {
    match o {
        Some(s) => Some(s@),
        None => None,
    }
}

/// The bytes held by optional byte fields.
pub open spec fn opt_bytes(o: Option<Vec<u8>>) -> Option<Seq<u8>> {
    match o {
        Some(b) => Some(b@),
        None => None,
    }
}

/// The bytes of an optional blob id.
pub open spec fn opt_blob(o: Option<BlobId>) -> Option<Seq<u8>> {
    match o {
        Some(b) => Some(b.0@),
        None => None,
    }
}

/// The bytes of an optional fixed 32-byte array.
pub open spec fn opt_arr(o: Option<[u8; 32]>) -> Option<Seq<u8>> {
    match o {
        Some(b) => Some(b@),
        None => None,
    }
}

/// The strings of a list of strings.
pub open spec fn texts(v: Seq<String>) -> Seq<Seq<char>> {
    v.map_values(|s: String| s@)
}

/// The bytes of a list of blob ids.
pub open spec fn blobs(v: Seq<BlobId>) -> Seq<Seq<u8>> {
    v.map_values(|b: BlobId| b.0@)
}

/// The bytes of a list of record ids.
pub open spec fn record_ids(v: Seq<RecordId>) -> Seq<Seq<u8>> {
    v.map_values(|b: RecordId| b.0@)
}

/// A text field of at most `max` UTF-8 bytes.
pub open spec fn text_at(b: Model, k: Seq<char>, max: int) -> Option<Option<Seq<char>>> {
    match spec_map_get(b, Model::Text(k)) {
        None => Some(None),
        Some(Model::Text(s)) => if encode_utf8(s).len() <= max {
            Some(Some(s))
        } else {
            None
        },
        Some(_) => None,
    }
}

/// A required text field of at most `max` bytes.
pub open spec fn req_text(b: Model, k: Seq<char>, max: int) -> Option<Seq<char>> {
    match text_at(b, k, max) {
        Some(Some(s)) => Some(s),
        _ => None,
    }
}

/// A required non-empty text field of at most `max` bytes.
pub open spec fn req_nonempty_text(b: Model, k: Seq<char>, max: int) -> Option<Seq<char>> {
    match req_text(b, k, max) {
        Some(s) => if s.len() > 0 {
            Some(s)
        } else {
            None
        },
        None => None,
    }
}

/// An unsigned integer field.
pub open spec fn u64_at(b: Model, k: Seq<char>) -> Option<Option<u64>> {
    match spec_map_get(b, Model::Text(k)) {
        None => Some(None),
        Some(Model::Uint(n)) => Some(Some(n)),
        Some(_) => None,
    }
}

/// A required unsigned integer field.
pub open spec fn req_u64(b: Model, k: Seq<char>) -> Option<u64> {
    match u64_at(b, k) {
        Some(Some(n)) => Some(n),
        _ => None,
    }
}

/// A signed integer field in the `i64` range.
pub open spec fn i64_at(b: Model, k: Seq<char>) -> Option<Option<i64>> {
    match spec_map_get(b, Model::Text(k)) {
        None => Some(None),
        Some(m) => match int_of(m) {
            Some(x) => if i64::MIN <= x <= i64::MAX {
                Some(Some(x as i64))
            } else {
                None
            },
            None => None,
        },
    }
}

/// A boolean field.
pub open spec fn bool_at(b: Model, k: Seq<char>) -> Option<Option<bool>> {
    match spec_map_get(b, Model::Text(k)) {
        None => Some(None),
        Some(Model::Bool(x)) => Some(Some(x)),
        Some(_) => None,
    }
}

/// A boolean field with a default when absent.
pub open spec fn bool_or_at(b: Model, k: Seq<char>, d: bool) -> Option<bool> {
    match bool_at(b, k) {
        Some(Some(x)) => Some(x),
        Some(None) => Some(d),
        None => None,
    }
}

/// A required boolean field.
pub open spec fn req_bool(b: Model, k: Seq<char>) -> Option<bool> {
    match bool_at(b, k) {
        Some(Some(x)) => Some(x),
        _ => None,
    }
}

/// A byte-string field.
pub open spec fn bytes_at(b: Model, k: Seq<char>) -> Option<Option<Seq<u8>>> {
    match spec_map_get(b, Model::Text(k)) {
        None => Some(None),
        Some(Model::Bytes(x)) => Some(Some(x)),
        Some(_) => None,
    }
}

/// A required byte-string field.
pub open spec fn req_bytes(b: Model, k: Seq<char>) -> Option<Seq<u8>> {
    match bytes_at(b, k) {
        Some(Some(x)) => Some(x),
        _ => None,
    }
}

/// A byte-string field of exactly 32 bytes.
pub open spec fn bytes32_at(b: Model, k: Seq<char>) -> Option<Option<Seq<u8>>> {
    match spec_map_get(b, Model::Text(k)) {
        None => Some(None),
        Some(Model::Bytes(x)) => if x.len() == 32 {
            Some(Some(x))
        } else {
            None
        },
        Some(_) => None,
    }
}

/// A required byte-string field of exactly 32 bytes.
pub open spec fn req_bytes32(b: Model, k: Seq<char>) -> Option<Seq<u8>> {
    match bytes32_at(b, k) {
        Some(Some(x)) => Some(x),
        _ => None,
    }
}

/// An array field.
pub open spec fn array_at(b: Model, k: Seq<char>) -> Option<Option<Seq<Model>>> {
    match spec_map_get(b, Model::Text(k)) {
        None => Some(None),
        Some(Model::Array(x)) => Some(Some(x)),
        Some(_) => None,
    }
}

/// A required array field.
pub open spec fn req_array(b: Model, k: Seq<char>) -> Option<Seq<Model>> {
    match array_at(b, k) {
        Some(Some(x)) => Some(x),
        _ => None,
    }
}

/// Whether a model is a 32-byte byte string.
pub open spec fn is_id32(m: Model) -> bool {
    m matches Model::Bytes(x) && x.len() == 32
}

/// The ids of an array whose every item is a 32-byte byte string.
pub open spec fn id_list(items: Seq<Model>) -> Option<Seq<Seq<u8>>> {
    if forall|i: int| 0 <= i < items.len() ==> is_id32(#[trigger] items[i]) {
        Some(items.map_values(|m: Model| m->Bytes_0))
    } else {
        None
    }
}

/// An optional array of 32-byte ids; empty when absent.
pub open spec fn id_array_at(b: Model, k: Seq<char>) -> Option<Seq<Seq<u8>>> {
    match array_at(b, k) {
        None => None,
        Some(None) => Some(Seq::empty()),
        Some(Some(items)) => id_list(items),
    }
}

/// Whether a model is a text of at most `max` bytes.
pub open spec fn is_short_text(m: Model, max: int) -> bool {
    m matches Model::Text(s) && encode_utf8(s).len() <= max
}

/// The strings of an array whose every item is a text of at most `max`
/// bytes.
pub open spec fn text_list(items: Seq<Model>, max: int) -> Option<Seq<Seq<char>>> {
    if forall|i: int| 0 <= i < items.len() ==> is_short_text(#[trigger] items[i], max) {
        Some(items.map_values(|m: Model| m->Text_0))
    } else {
        None
    }
}

/// An optional array of texts of at most `max` bytes each; empty when
/// absent.
pub open spec fn text_array_at(b: Model, k: Seq<char>, max: int) -> Option<Seq<Seq<char>>> {
    match array_at(b, k) {
        None => None,
        Some(None) => Some(Seq::empty()),
        Some(Some(items)) => text_list(items, max),
    }
}

/// The items of an array whose every item `f` accepts, as `f` reads
/// them.
pub open spec fn items_of<T>(items: Seq<Model>, f: spec_fn(Model) -> Option<T>) -> Option<Seq<T>> {
    if forall|i: int| 0 <= i < items.len() ==> (#[trigger] f(items[i])) is Some {
        Some(items.map_values(|m: Model| f(m)->0))
    } else {
        None
    }
}

/// An optional array field whose every item `f` accepts; empty when
/// absent.
pub open spec fn items_at<T>(b: Model, k: Seq<char>, f: spec_fn(Model) -> Option<T>) -> Option<Seq<T>> {
    match array_at(b, k) {
        None => None,
        Some(None) => Some(Seq::empty()),
        Some(Some(items)) => items_of(items, f),
    }
}

/// Appends an entry when `c` holds.
pub open spec fn push_if(s: Seq<(Model, Model)>, c: bool, e: (Model, Model)) -> Seq<(Model, Model)> {
    if c {
        s.push(e)
    } else {
        s
    }
}

/// No byte limit on a text field.
pub open spec fn unbounded() -> int {
    usize::MAX as int
}

/// A license token: 1 to 64 bytes.
pub open spec fn license_ok(s: Seq<char>) -> bool {
    0 < encode_utf8(s).len() <= 64
}

/// The record id of a record ref.
pub open spec fn ref_id(r: Ref) -> Option<Seq<u8>> {
    if r.ref_type == 0 {
        Some(r.hash@)
    } else {
        None
    }
}

/// Copies a string slice.
pub(crate) fn own(s: &str) -> (r: String)
    ensures
        r@ == s@,
{
    s.to_string()
}

/// A text value.
pub(crate) fn text_value(s: &str) -> (v: Value)
    ensures
        v@ == Model::Text(s@),
{
    Value::Text(own(s))
}

/// Appends a map entry.
pub(crate) fn push_entry(e: &mut Vec<(Value, Value)>, k: Value, v: Value)
    ensures
        model_entries(final(e)@) == model_entries(old(e)@).push((k@, v@)),
{
    let ghost before = e@;
    e.push((k, v));
    assert(e@.drop_last() =~= before);
}

/// The array value of a list of strings.
pub open spec fn strings_value(ts: Seq<Seq<char>>) -> Model {
    Model::Array(ts.map_values(|t: Seq<char>| Model::Text(t)))
}

/// The array value of a list of 32-byte ids.
pub open spec fn ids_value(ids: Seq<Seq<u8>>) -> Model {
    Model::Array(ids.map_values(|b: Seq<u8>| Model::Bytes(b)))
}

/// Writes a list of strings.
pub(crate) fn strings_to_value(v: &Vec<String>) -> (r: Value)
    ensures
        r@ == strings_value(texts(v@)),
{
    let mut out: Vec<Value> = Vec::new();
    let mut i: usize = 0;
    while i < v.len()
        invariant
            i <= v.len(),
            out.len() == i,
            forall|k: int| 0 <= k < i ==> #[trigger] out@[k]@ == Model::Text(v@[k]@),
        decreases v.len() - i,
    {
        out.push(Value::Text(v[i].clone()));
        i = i + 1;
    }
    proof {
        lemma_model_list(out@);
        let want = texts(v@).map_values(|t: Seq<char>| Model::Text(t));
        assert forall|k: int| 0 <= k < out@.len() implies #[trigger] model_list(out@)[k] == want[k] by {
            assert(model_list(out@)[k] == out@[k]@);
        }
        assert(model_list(out@) =~= want);
    }
    Value::Array(out)
}

/// Writes a list of blob ids.
pub(crate) fn blobs_to_value(v: &Vec<BlobId>) -> (r: Value)
    ensures
        r@ == ids_value(blobs(v@)),
{
    let mut out: Vec<Value> = Vec::new();
    let mut i: usize = 0;
    while i < v.len()
        invariant
            i <= v.len(),
            out.len() == i,
            forall|k: int| 0 <= k < i ==> #[trigger] out@[k]@ == Model::Bytes(v@[k].0@),
        decreases v.len() - i,
    {
        out.push(Value::Bytes(bytes_to_vec(v[i].as_bytes())));
        i = i + 1;
    }
    proof {
        lemma_model_list(out@);
        let want = blobs(v@).map_values(|b: Seq<u8>| Model::Bytes(b));
        assert forall|k: int| 0 <= k < out@.len() implies #[trigger] model_list(out@)[k] == want[k] by {
            assert(model_list(out@)[k] == out@[k]@);
        }
        assert(model_list(out@) =~= want);
    }
    Value::Array(out)
}

/// Look up a text field, enforcing `max_len` bytes.
pub(crate) fn text_field(body: &Value, key: &str, max_len: usize, msg: &'static str) -> (res: Result<Option<String>, Error>)
    ensures
        match text_at(body@, key@, max_len as int) {
            None => res == Err::<Option<String>, Error>(Error::Kind(msg)),
            Some(o) => res matches Ok(x) && opt_text(x) == o,
        },
{
    match body.map_get(key) {
        None => Ok(None),
        Some(v) => match v.as_text() {
            None => Err(Error::Kind(msg)),
            Some(s) => {
                if s.as_bytes().len() > max_len {
                    return Err(Error::Kind(msg));
                }
                Ok(Some(own(s)))
            },
        },
    }
}

/// A required text field.
pub(crate) fn required_text(body: &Value, key: &str, max_len: usize, msg: &'static str) -> (res: Result<String, Error>)
    ensures
        match req_text(body@, key@, max_len as int) {
            None => res == Err::<String, Error>(Error::Kind(msg)),
            Some(s) => res matches Ok(x) && x@ == s,
        },
{
    match text_field(body, key, max_len, msg) {
        Ok(Some(s)) => Ok(s),
        _ => Err(Error::Kind(msg)),
    }
}

/// A required non-empty text field.
pub(crate) fn required_nonempty_text(body: &Value, key: &str, max_len: usize, msg: &'static str) -> (res: Result<String, Error>)
    ensures
        match req_nonempty_text(body@, key@, max_len as int) {
            None => res == Err::<String, Error>(Error::Kind(msg)),
            Some(s) => res matches Ok(x) && x@ == s,
        },
{
    match required_text(body, key, max_len, msg) {
        Ok(s) => {
            if s.as_str().as_bytes().len() == 0 {
                proof {
                    assert(s@.len() == 0) by {
                        if s@.len() > 0 {
                            vstd::utf8::encode_utf8_first_scalar(s@);
                        }
                    }
                }
                return Err(Error::Kind(msg));
            }
            proof {
                if s@.len() == 0 {
                    assert(encode_utf8(s@) =~= Seq::<u8>::empty());
                }
            }
            Ok(s)
        },
        Err(e) => Err(e),
    }
}

/// Look up an unsigned integer field.
pub(crate) fn u64_field(body: &Value, key: &str, msg: &'static str) -> (res: Result<Option<u64>, Error>)
    ensures
        match u64_at(body@, key@) {
            None => res == Err::<Option<u64>, Error>(Error::Kind(msg)),
            Some(o) => res == Ok::<Option<u64>, Error>(o),
        },
{
    match body.map_get(key) {
        None => Ok(None),
        Some(v) => match v.as_u64() {
            Some(n) => Ok(Some(n)),
            None => Err(Error::Kind(msg)),
        },
    }
}

/// A required unsigned integer field.
pub(crate) fn required_u64(body: &Value, key: &str, msg: &'static str) -> (res: Result<u64, Error>)
    ensures
        match req_u64(body@, key@) {
            None => res == Err::<u64, Error>(Error::Kind(msg)),
            Some(n) => res == Ok::<u64, Error>(n),
        },
{
    match u64_field(body, key, msg) {
        Ok(Some(n)) => Ok(n),
        _ => Err(Error::Kind(msg)),
    }
}

/// Look up a signed integer field in the `i64` range.
pub(crate) fn i64_field(body: &Value, key: &str, msg: &'static str) -> (res: Result<Option<i64>, Error>)
    ensures
        match i64_at(body@, key@) {
            None => res == Err::<Option<i64>, Error>(Error::Kind(msg)),
            Some(o) => res == Ok::<Option<i64>, Error>(o),
        },
{
    match body.map_get(key) {
        None => Ok(None),
        Some(v) => match v.as_i64() {
            Some(n) => Ok(Some(n)),
            None => Err(Error::Kind(msg)),
        },
    }
}

/// Look up a boolean field.
pub(crate) fn bool_field(body: &Value, key: &str, msg: &'static str) -> (res: Result<Option<bool>, Error>)
    ensures
        match bool_at(body@, key@) {
            None => res == Err::<Option<bool>, Error>(Error::Kind(msg)),
            Some(o) => res == Ok::<Option<bool>, Error>(o),
        },
{
    match body.map_get(key) {
        None => Ok(None),
        Some(v) => match v.as_bool() {
            Some(x) => Ok(Some(x)),
            None => Err(Error::Kind(msg)),
        },
    }
}

/// A boolean field with a default when absent.
pub(crate) fn bool_or(body: &Value, key: &str, default: bool, msg: &'static str) -> (res: Result<bool, Error>)
    ensures
        match bool_or_at(body@, key@, default) {
            None => res == Err::<bool, Error>(Error::Kind(msg)),
            Some(x) => res == Ok::<bool, Error>(x),
        },
{
    match bool_field(body, key, msg) {
        Ok(Some(x)) => Ok(x),
        Ok(None) => Ok(default),
        Err(e) => Err(e),
    }
}

/// A required boolean field.
pub(crate) fn required_bool(body: &Value, key: &str, msg: &'static str) -> (res: Result<bool, Error>)
    ensures
        match req_bool(body@, key@) {
            None => res == Err::<bool, Error>(Error::Kind(msg)),
            Some(x) => res == Ok::<bool, Error>(x),
        },
{
    match bool_field(body, key, msg) {
        Ok(Some(x)) => Ok(x),
        _ => Err(Error::Kind(msg)),
    }
}

/// Look up a byte-string field.
pub(crate) fn bytes_field(body: &Value, key: &str, msg: &'static str) -> (res: Result<Option<Vec<u8>>, Error>)
    ensures
        match bytes_at(body@, key@) {
            None => res == Err::<Option<Vec<u8>>, Error>(Error::Kind(msg)),
            Some(o) => res matches Ok(x) && opt_bytes(x) == o,
        },
{
    match body.map_get(key) {
        None => Ok(None),
        Some(v) => match v.as_bytes() {
            Some(b) => Ok(Some(bytes_to_vec(b))),
            None => Err(Error::Kind(msg)),
        },
    }
}

/// A required byte-string field.
pub(crate) fn required_bytes(body: &Value, key: &str, msg: &'static str) -> (res: Result<Vec<u8>, Error>)
    ensures
        match req_bytes(body@, key@) {
            None => res == Err::<Vec<u8>, Error>(Error::Kind(msg)),
            Some(b) => res matches Ok(x) && x@ == b,
        },
{
    match bytes_field(body, key, msg) {
        Ok(Some(b)) => Ok(b),
        _ => Err(Error::Kind(msg)),
    }
}

/// Look up a fixed 32-byte field.
pub(crate) fn bytes32_field(body: &Value, key: &str, msg: &'static str) -> (res: Result<Option<[u8; 32]>, Error>)
    ensures
        match bytes32_at(body@, key@) {
            None => res == Err::<Option<[u8; 32]>, Error>(Error::Kind(msg)),
            Some(o) => res matches Ok(x) && opt_arr(x) == o,
        },
{
    match body.map_get(key) {
        None => Ok(None),
        Some(v) => match v.as_bytes() {
            Some(b) => {
                if b.len() != 32 {
                    return Err(Error::Kind(msg));
                }
                Ok(Some(array32(b)))
            },
            None => Err(Error::Kind(msg)),
        },
    }
}

/// A required fixed 32-byte field.
pub(crate) fn required_bytes32(body: &Value, key: &str, msg: &'static str) -> (res: Result<[u8; 32], Error>)
    ensures
        match req_bytes32(body@, key@) {
            None => res == Err::<[u8; 32], Error>(Error::Kind(msg)),
            Some(b) => res matches Ok(x) && x@ == b,
        },
{
    match bytes32_field(body, key, msg) {
        Ok(Some(b)) => Ok(b),
        _ => Err(Error::Kind(msg)),
    }
}

/// Look up a blob id field.
pub(crate) fn blob_id_field(body: &Value, key: &str, msg: &'static str) -> (res: Result<Option<BlobId>, Error>)
    ensures
        match bytes32_at(body@, key@) {
            None => res == Err::<Option<BlobId>, Error>(Error::Kind(msg)),
            Some(o) => res matches Ok(x) && opt_blob(x) == o,
        },
{
    match bytes32_field(body, key, msg) {
        Ok(Some(b)) => Ok(Some(BlobId(b))),
        Ok(None) => Ok(None),
        Err(e) => Err(e),
    }
}

/// A required blob id field.
pub(crate) fn required_blob_id(body: &Value, key: &str, msg: &'static str) -> (res: Result<BlobId, Error>)
    ensures
        match req_bytes32(body@, key@) {
            None => res == Err::<BlobId, Error>(Error::Kind(msg)),
            Some(b) => res matches Ok(x) && x.0@ == b,
        },
{
    match required_bytes32(body, key, msg) {
        Ok(b) => Ok(BlobId(b)),
        Err(e) => Err(e),
    }
}

/// A required identity id field.
pub(crate) fn required_identity_id(body: &Value, key: &str, msg: &'static str) -> (res: Result<IdentityId, Error>)
    ensures
        match req_bytes32(body@, key@) {
            None => res == Err::<IdentityId, Error>(Error::Kind(msg)),
            Some(b) => res matches Ok(x) && x.0@ == b,
        },
{
    match required_bytes32(body, key, msg) {
        Ok(b) => Ok(IdentityId(b)),
        Err(e) => Err(e),
    }
}

/// Look up an array field.
pub(crate) fn array_field<'a>(body: &'a Value, key: &str, msg: &'static str) -> (res: Result<Option<&'a [Value]>, Error>)
    ensures
        match array_at(body@, key@) {
            None => res == Err::<Option<&'a [Value]>, Error>(Error::Kind(msg)),
            Some(None) => res == Ok::<Option<&'a [Value]>, Error>(None),
            Some(Some(items)) => res matches Ok(Some(a)) && model_list(a@) == items,
        },
{
    match body.map_get(key) {
        None => Ok(None),
        Some(v) => match v.as_array() {
            Some(a) => Ok(Some(a)),
            None => Err(Error::Kind(msg)),
        },
    }
}

/// A required array field.
pub(crate) fn required_array<'a>(body: &'a Value, key: &str, msg: &'static str) -> (res: Result<&'a [Value], Error>)
    ensures
        match req_array(body@, key@) {
            None => res == Err::<&'a [Value], Error>(Error::Kind(msg)),
            Some(items) => res matches Ok(a) && model_list(a@) == items,
        },
{
    match array_field(body, key, msg) {
        Ok(Some(a)) => Ok(a),
        _ => Err(Error::Kind(msg)),
    }
}

/// Reads an array of 32-byte ids.
pub(crate) fn id_items(arr: &[Value], msg: &'static str) -> (res: Result<Vec<[u8; 32]>, Error>)
    ensures
        match id_list(model_list(arr@)) {
            None => res == Err::<Vec<[u8; 32]>, Error>(Error::Kind(msg)),
            Some(ids) => res matches Ok(v) && v@.map_values(|a: [u8; 32]| a@) == ids,
        },
{
    proof {
        lemma_model_list(arr@);
    }
    let ghost ms = model_list(arr@);
    let mut out: Vec<[u8; 32]> = Vec::new();
    let mut i: usize = 0;
    while i < arr.len()
        invariant
            i <= arr.len(),
            out.len() == i,
            ms == model_list(arr@),
            ms.len() == arr.len(),
            forall|k: int| 0 <= k < arr.len() ==> #[trigger] ms[k] == arr@[k]@,
            forall|k: int| 0 <= k < i ==> is_id32(#[trigger] ms[k]) && ms[k]->Bytes_0 == out@[k]@,
        decreases arr.len() - i,
    {
        let b = match arr[i].as_bytes() {
            Some(b) => b,
            None => {
                assert(!is_id32(ms[i as int]));
                return Err(Error::Kind(msg));
            },
        };
        if b.len() != 32 {
            assert(!is_id32(ms[i as int]));
            return Err(Error::Kind(msg));
        }
        out.push(array32(b));
        i = i + 1;
    }
    assert(out@.map_values(|a: [u8; 32]| a@) =~= ms.map_values(|m: Model| m->Bytes_0));
    Ok(out)
}

/// An optional array of blob ids; empty when absent.
pub(crate) fn blob_id_array(body: &Value, key: &str, msg: &'static str) -> (res: Result<Vec<BlobId>, Error>)
    ensures
        match id_array_at(body@, key@) {
            None => res == Err::<Vec<BlobId>, Error>(Error::Kind(msg)),
            Some(ids) => res matches Ok(v) && blobs(v@) == ids,
        },
{
    match array_field(body, key, msg) {
        Err(e) => Err(e),
        Ok(None) => {
            let v: Vec<BlobId> = Vec::new();
            assert(blobs(v@) =~= Seq::<Seq<u8>>::empty());
            Ok(v)
        },
        Ok(Some(arr)) => {
            let ids = match id_items(arr, msg) {
                Ok(ids) => ids,
                Err(e) => {
                    return Err(e);
                },
            };
            let mut out: Vec<BlobId> = Vec::new();
            let mut i: usize = 0;
            while i < ids.len()
                invariant
                    i <= ids.len(),
                    out.len() == i,
                    forall|k: int| 0 <= k < i ==> #[trigger] out@[k].0@ == ids@[k]@,
                decreases ids.len() - i,
            {
                out.push(BlobId(ids[i]));
                i = i + 1;
            }
            assert(blobs(out@) =~= ids@.map_values(|a: [u8; 32]| a@));
            Ok(out)
        },
    }
}

/// An optional array of texts of at most `max_item_len` bytes each;
/// empty when absent.
pub(crate) fn text_array(body: &Value, key: &str, max_item_len: usize, msg: &'static str) -> (res: Result<Vec<String>, Error>)
    ensures
        match text_array_at(body@, key@, max_item_len as int) {
            None => res == Err::<Vec<String>, Error>(Error::Kind(msg)),
            Some(ts) => res matches Ok(v) && texts(v@) == ts,
        },
{
    let arr = match array_field(body, key, msg) {
        Err(e) => {
            return Err(e);
        },
        Ok(None) => {
            let v: Vec<String> = Vec::new();
            assert(texts(v@) =~= Seq::<Seq<char>>::empty());
            return Ok(v);
        },
        Ok(Some(arr)) => arr,
    };
    proof {
        lemma_model_list(arr@);
    }
    let ghost ms = model_list(arr@);
    let mut out: Vec<String> = Vec::new();
    let mut i: usize = 0;
    while i < arr.len()
        invariant
            i <= arr.len(),
            out.len() == i,
            ms == model_list(arr@),
            ms.len() == arr.len(),
            forall|k: int| 0 <= k < arr.len() ==> #[trigger] ms[k] == arr@[k]@,
            forall|k: int| 0 <= k < i ==> is_short_text(#[trigger] ms[k], max_item_len as int) && ms[k]->Text_0 == out@[k]@,
            text_array_at(body@, key@, max_item_len as int) == text_list(ms, max_item_len as int),
        decreases arr.len() - i,
    {
        let s = match arr[i].as_text() {
            Some(s) => s,
            None => {
                assert(!is_short_text(ms[i as int], max_item_len as int));
                return Err(Error::Kind(msg));
            },
        };
        if s.as_bytes().len() > max_item_len {
            assert(!is_short_text(ms[i as int], max_item_len as int));
            return Err(Error::Kind(msg));
        }
        out.push(own(s));
        i = i + 1;
    }
    assert(texts(out@) =~= ms.map_values(|m: Model| m->Text_0));
    Ok(out)
}

/// The refs must be empty.
pub(crate) fn refs_empty(record: &Record, msg: &'static str) -> (res: Result<(), Error>)
    ensures
        res is Ok <==> record@.refs.len() == 0,
        res is Err ==> res == Err::<(), Error>(Error::Kind(msg)),
{
    if record.refs().len() == 0 {
        Ok(())
    } else {
        Err(Error::Kind(msg))
    }
}

/// The refs must have exactly `n` entries.
pub(crate) fn refs_exact(record: &Record, n: usize, msg: &'static str) -> (res: Result<(), Error>)
    ensures
        res is Ok <==> record@.refs.len() == n,
        res is Err ==> res == Err::<(), Error>(Error::Kind(msg)),
{
    if record.refs().len() == n {
        Ok(())
    } else {
        Err(Error::Kind(msg))
    }
}

/// The refs must have at least `n` entries.
pub(crate) fn refs_min(record: &Record, n: usize, msg: &'static str) -> (res: Result<(), Error>)
    ensures
        res is Ok <==> record@.refs.len() >= n,
        res is Err ==> res == Err::<(), Error>(Error::Kind(msg)),
{
    if record.refs().len() >= n {
        Ok(())
    } else {
        Err(Error::Kind(msg))
    }
}

/// A ref must be a record ref; gives its id.
pub(crate) fn ref_record_id(r: &Ref, msg: &'static str) -> (res: Result<RecordId, Error>)
    ensures
        match ref_id(*r) {
            None => res == Err::<RecordId, Error>(Error::Kind(msg)),
            Some(h) => res matches Ok(id) && id.0@ == h,
        },
{
    if r.is_record() {
        Ok(RecordId(r.hash))
    } else {
        Err(Error::Kind(msg))
    }
}

/// A license token must be 1 to 64 bytes. The field is free text: the
/// token is not checked against any list.
pub(crate) fn validate_license(s: &str) -> (res: Result<(), Error>)
    ensures
        res is Ok <==> license_ok(s@),
        res is Err ==> res == Err::<(), Error>(Error::Kind("license must be 1-64 bytes")),
{
    let n = s.as_bytes().len();
    if n == 0 || n > 64 {
        Err(Error::Kind("license must be 1-64 bytes"))
    } else {
        Ok(())
    }
}

} // verus!
