//! Reading the relay configuration from JSON text. Every field is
//! optional: a missing field takes its default, an unknown one is
//! ignored, and a present field of the wrong type, or a number out of
//! its field's range, rejects the whole document. The text is parsed
//! by `serde_json` into a JSON tree; the rules that turn the tree into
//! a configuration are this module's own.

use vstd::prelude::*;
use std::collections::BTreeMap;
use crate::codec::Model;
use serde_json::Value as JsonValue;
use crate::json::{int_key, try_parse_int_key};
use crate::text::{str_chars, str_eq};
use crate::config::{
    RelayConfig, RateConfig, RetentionConfig, BlobConfig, DEFAULT_RECORDS_PER_MINUTE, DEFAULT_RETENTION_DAYS,
    DEFAULT_MAX_BLOB_BYTES, default_listen_addr, default_db_path, default_name,
};

verus! {

#[verifier::external_type_specification]
#[verifier::external_body]
pub struct ExJsonValue(JsonValue);

/// A parsed JSON document. Numbers are kept as unsigned or negative
/// integers; any other number (fractional, or out of the 64-bit range)
/// is only marked as such.
#[derive(Debug)]
pub enum JsonTree {
    Null,
    Bool(bool),
    UInt(u64),
    NegInt(i64),
    Fractional,
    Str(String),
    Array(Vec<JsonTree>),
    Object(Vec<(String, JsonTree)>),
}

/// The mathematical model of a [`JsonTree`].
pub enum JsonModel {
    Null,
    Bool(bool),
    UInt(u64),
    NegInt(i64),
    Fractional,
    Str(Seq<char>),
    Array(Seq<JsonModel>),
    Object(Seq<(Seq<char>, JsonModel)>),
}

pub open spec fn jmodel(t: JsonTree) -> JsonModel
    decreases t,
{
    match t {
        JsonTree::Null => JsonModel::Null,
        JsonTree::Bool(b) => JsonModel::Bool(b),
        JsonTree::UInt(n) => JsonModel::UInt(n),
        JsonTree::NegInt(n) => JsonModel::NegInt(n),
        JsonTree::Fractional => JsonModel::Fractional,
        JsonTree::Str(s) => JsonModel::Str(s@),
        JsonTree::Array(items) => JsonModel::Array(jmodel_list(items@)),
        JsonTree::Object(es) => JsonModel::Object(jmodel_entries(es@)),
    }
}

pub open spec fn jmodel_list(s: Seq<JsonTree>) -> Seq<JsonModel>
    decreases s,
{
    if s.len() == 0 {
        Seq::empty()
    } else {
        jmodel_list(s.drop_last()).push(jmodel(s.last()))
    }
}

pub open spec fn jmodel_entries(s: Seq<(String, JsonTree)>) -> Seq<(Seq<char>, JsonModel)>
    decreases s,
{
    if s.len() == 0 {
        Seq::empty()
    } else {
        jmodel_entries(s.drop_last()).push((s.last().0@, jmodel(s.last().1)))
    }
}

proof fn lemma_jmodel_list(s: Seq<JsonTree>)
    ensures
        jmodel_list(s).len() == s.len(),
        forall|j: int| 0 <= j < s.len() ==> #[trigger] jmodel_list(s)[j] == jmodel(s[j]),
    decreases s.len(),
{
    if s.len() > 0 {
        lemma_jmodel_list(s.drop_last());
    }
}

proof fn lemma_jmodel_entries(s: Seq<(String, JsonTree)>)
    ensures
        jmodel_entries(s).len() == s.len(),
        forall|j: int| 0 <= j < s.len() ==> #[trigger] jmodel_entries(s)[j] == (s[j].0@, jmodel(s[j].1)),
    decreases s.len(),
{
    if s.len() > 0 {
        lemma_jmodel_entries(s.drop_last());
    }
}

/// What `serde_json` parses a text into, when it is a JSON document.
pub uninterp spec fn json_document(text: Seq<char>) -> Option<JsonModel>;

/// Trusted: `serde_json::from_str::<serde_json::Value>`. The contract
/// names its result (`json_document`); a text it refuses gives `None`.
/// What the parse accepts and builds is not stated here.
#[verifier::external_body]
fn parse_json(text: &str) -> (r: Option<JsonTree>)
    ensures
        match json_document(text@) {
            Some(m) => r matches Some(t) && jmodel(t) == m,
            None => r is None,
        },
{
    match serde_json::from_str::<JsonValue>(text) {
        Ok(v) => Some(json_tree(v)),
        Err(_) => None,
    }
}

/// Trusted conversion of a `serde_json::Value` into a [`JsonTree`],
/// variant for variant (the number accessors `as_u64` and `as_i64`
/// sort numbers into the three kinds); used by [`parse_json`] only.
#[verifier::external_body]
fn json_tree(v: JsonValue) -> JsonTree {
    match v {
        JsonValue::Null => JsonTree::Null,
        JsonValue::Bool(b) => JsonTree::Bool(b),
        JsonValue::Number(n) => match (n.as_u64(), n.as_i64()) {
            (Some(u), _) => JsonTree::UInt(u),
            (None, Some(i)) => JsonTree::NegInt(i),
            _ => JsonTree::Fractional,
        },
        JsonValue::String(s) => JsonTree::Str(s),
        JsonValue::Array(a) => JsonTree::Array(a.into_iter().map(json_tree).collect()),
        JsonValue::Object(o) => JsonTree::Object(o.into_iter().map(|(k, x)| (k, json_tree(x))).collect()),
    }
}

// ---------------------------------------------------------------------
// The configuration a JSON model stands for
// ---------------------------------------------------------------------

/// The value of key `k` in an object's entries (the last one given).
pub open spec fn entry_of(es: Seq<(Seq<char>, JsonModel)>, k: Seq<char>) -> Option<JsonModel>
    decreases es.len(),
{
    if es.len() == 0 {
        None
    } else if es.last().0 == k {
        Some(es.last().1)
    } else {
        entry_of(es.drop_last(), k)
    }
}

/// A `u32` field: the default when absent; `None` when it is not an
/// unsigned integer within range.
pub open spec fn u32_field(o: Option<JsonModel>, d: u32) -> Option<u32> {
    match o {
        None => Some(d),
        Some(JsonModel::UInt(n)) => if n <= u32::MAX {
            Some(n as u32)
        } else {
            None
        },
        _ => None,
    }
}

/// A `u64` field.
pub open spec fn u64_field(o: Option<JsonModel>, d: u64) -> Option<u64> {
    match o {
        None => Some(d),
        Some(JsonModel::UInt(n)) => Some(n),
        _ => None,
    }
}

/// A boolean field.
pub open spec fn bool_field(o: Option<JsonModel>, d: bool) -> Option<bool> {
    match o {
        None => Some(d),
        Some(JsonModel::Bool(b)) => Some(b),
        _ => None,
    }
}

/// A text field.
pub open spec fn str_field(o: Option<JsonModel>, d: Seq<char>) -> Option<Seq<char>> {
    match o {
        None => Some(d),
        Some(JsonModel::Str(s)) => Some(s),
        _ => None,
    }
}

/// A list of texts.
pub open spec fn strs_of(items: Seq<JsonModel>) -> Option<Seq<Seq<char>>>
    decreases items.len(),
{
    if items.len() == 0 {
        Some(Seq::empty())
    } else {
        match (strs_of(items.drop_last()), items.last()) {
            (Some(l), JsonModel::Str(s)) => Some(l.push(s)),
            _ => None,
        }
    }
}

/// The peers field: empty when absent.
pub open spec fn peers_field(o: Option<JsonModel>) -> Option<Seq<Seq<char>>> {
    match o {
        None => Some(Seq::empty()),
        Some(JsonModel::Array(items)) => strs_of(items),
        _ => None,
    }
}

/// Per-kind retention: each key a canonical decimal kind id, each value
/// a `u32`; a later key overrides an earlier equal one.
pub open spec fn kind_days(es: Seq<(Seq<char>, JsonModel)>) -> Option<Map<u64, u32>>
    decreases es.len(),
{
    if es.len() == 0 {
        Some(Map::empty())
    } else {
        match (kind_days(es.drop_last()), kind_entry_of(es.last().0, es.last().1)) {
            (Some(m), Some((k, d))) => Some(m.insert(k, d)),
            _ => None,
        }
    }
}

/// One per-kind entry: a canonical decimal kind id and a `u32`.
pub open spec fn kind_entry_of(k: Seq<char>, v: JsonModel) -> Option<(u64, u32)> {
    match (int_key(k), v) {
        (Some(Model::Uint(kind)), JsonModel::UInt(d)) => if d <= u32::MAX {
            Some((kind, d as u32))
        } else {
            None
        },
        _ => None,
    }
}

pub open spec fn kind_days_field(o: Option<JsonModel>) -> Option<Map<u64, u32>> {
    match o {
        None => Some(Map::empty()),
        Some(JsonModel::Object(es)) => kind_days(es),
        _ => None,
    }
}

/// The flat content of a configuration.
pub struct ConfigModel {
    pub listen_addr: Seq<char>,
    pub db_path: Seq<char>,
    pub name: Seq<char>,
    pub pow_min_bits: u32,
    pub records_per_minute_per_key: u32,
    pub default_days: u32,
    pub by_kind_days: Map<u64, u32>,
    pub blob_enabled: bool,
    pub blob_dir: Seq<char>,
    pub max_bytes: u64,
    pub peers: Seq<Seq<char>>,
}

pub open spec fn config_view(c: RelayConfig) -> ConfigModel {
    ConfigModel {
        listen_addr: c.listen_addr@,
        db_path: c.db_path@,
        name: c.name@,
        pow_min_bits: c.pow_min_bits,
        records_per_minute_per_key: c.rate.records_per_minute_per_key,
        default_days: c.retention.default_days,
        by_kind_days: c.retention.by_kind_days@,
        blob_enabled: c.blob.enabled,
        blob_dir: c.blob.dir@,
        max_bytes: c.blob.max_bytes,
        peers: c.peers@.map_values(|p: String| p@),
    }
}

/// A nested section: its entries, empty when absent; `None` when it is
/// not an object.
pub open spec fn section(o: Option<JsonModel>) -> Option<Seq<(Seq<char>, JsonModel)>> {
    match o {
        None => Some(Seq::empty()),
        Some(JsonModel::Object(es)) => Some(es),
        _ => None,
    }
}

/// The configuration a JSON document stands for, if any: it must be an
/// object, and each field present must have its type.
pub open spec fn config_of(m: JsonModel) -> Option<ConfigModel> {
    match m {
        JsonModel::Object(es) => {
            let listen = str_field(entry_of(es, "listen_addr"@), default_listen_addr());
            let db = str_field(entry_of(es, "db_path"@), default_db_path());
            let name = str_field(entry_of(es, "name"@), default_name());
            let pow = u32_field(entry_of(es, "pow_min_bits"@), 0);
            let rate = section(entry_of(es, "rate"@));
            let ret = section(entry_of(es, "retention"@));
            let blob = section(entry_of(es, "blob"@));
            let peers = peers_field(entry_of(es, "peers"@));
            if listen is None || db is None || name is None || pow is None || rate is None || ret is None
                || blob is None || peers is None {
                None
            } else {
                let rpm = u32_field(entry_of(rate->0, "records_per_minute_per_key"@), DEFAULT_RECORDS_PER_MINUTE);
                let dd = u32_field(entry_of(ret->0, "default_days"@), DEFAULT_RETENTION_DAYS);
                let bk = kind_days_field(entry_of(ret->0, "by_kind_days"@));
                let en = bool_field(entry_of(blob->0, "enabled"@), false);
                let dir = str_field(entry_of(blob->0, "dir"@), "./blobs"@);
                let mb = u64_field(entry_of(blob->0, "max_bytes"@), DEFAULT_MAX_BLOB_BYTES);
                if rpm is None || dd is None || bk is None || en is None || dir is None || mb is None {
                    None
                } else {
                    Some(
                        ConfigModel {
                            listen_addr: listen->0,
                            db_path: db->0,
                            name: name->0,
                            pow_min_bits: pow->0,
                            records_per_minute_per_key: rpm->0,
                            default_days: dd->0,
                            by_kind_days: bk->0,
                            blob_enabled: en->0,
                            blob_dir: dir->0,
                            max_bytes: mb->0,
                            peers: peers->0,
                        },
                    )
                }
            }
        },
        _ => None,
    }
}

/// Why a configuration was refused.
#[derive(Debug, Clone, PartialEq, Eq)]
pub enum ConfigError {
    /// The text is not a JSON document.
    Malformed,
    /// The document is not an object, or the named field has the wrong
    /// type or is out of range.
    Invalid(&'static str),
}

// ---------------------------------------------------------------------
// Reading the fields
// ---------------------------------------------------------------------

/// The value of key `k` among the entries (the last one given).
fn find_entry<'a>(es: &'a Vec<(String, JsonTree)>, k: &str) -> (r: Option<&'a JsonTree>)
    ensures
        match entry_of(jmodel_entries(es@), k@) {
            Some(m) => r matches Some(t) && jmodel(*t) == m,
            None => r is None,
        },
{
    proof {
        lemma_jmodel_entries(es@);
    }
    let ghost ms = jmodel_entries(es@);
    let mut i = es.len();
    assert(ms.subrange(0, i as int) =~= ms);
    while i > 0
        invariant
            i <= es.len(),
            ms == jmodel_entries(es@),
            ms.len() == es.len(),
            forall|j: int| 0 <= j < es.len() ==> #[trigger] ms[j] == (es@[j].0@, jmodel(es@[j].1)),
            entry_of(ms, k@) == entry_of(ms.subrange(0, i as int), k@),
        decreases i,
    {
        let ghost pre = ms.subrange(0, i as int);
        assert(pre.drop_last() =~= ms.subrange(0, i - 1));
        assert(pre.last() == ms[i - 1]);
        if str_eq(es[i - 1].0.as_str(), k) {
            return Some(&es[i - 1].1);
        }
        i = i - 1;
    }
    assert(ms.subrange(0, 0) =~= Seq::<(Seq<char>, JsonModel)>::empty());
    None
}

fn u32_of(o: Option<&JsonTree>, d: u32) -> (r: Option<u32>)
    ensures
        r == u32_field(
            match o {
                Some(t) => Some(jmodel(*t)),
                None => None,
            },
            d,
        ),
{
    match o {
        None => Some(d),
        Some(JsonTree::UInt(n)) => if *n <= 4294967295u64 {
            Some(*n as u32)
        } else {
            None
        },
        Some(_) => None,
    }
}

fn u64_of(o: Option<&JsonTree>, d: u64) -> (r: Option<u64>)
    ensures
        r == u64_field(
            match o {
                Some(t) => Some(jmodel(*t)),
                None => None,
            },
            d,
        ),
{
    match o {
        None => Some(d),
        Some(JsonTree::UInt(n)) => Some(*n),
        Some(_) => None,
    }
}

fn bool_of(o: Option<&JsonTree>, d: bool) -> (r: Option<bool>)
    ensures
        r == bool_field(
            match o {
                Some(t) => Some(jmodel(*t)),
                None => None,
            },
            d,
        ),
{
    match o {
        None => Some(d),
        Some(JsonTree::Bool(b)) => Some(*b),
        Some(_) => None,
    }
}

fn str_of(o: Option<&JsonTree>, d: &str) -> (r: Option<String>)
    ensures
        match str_field(
            match o {
                Some(t) => Some(jmodel(*t)),
                None => None,
            },
            d@,
        ) {
            Some(s) => r matches Some(x) && x@ == s,
            None => r is None,
        },
{
    match o {
        None => Some(d.to_string()),
        Some(JsonTree::Str(s)) => Some(s.clone()),
        Some(_) => None,
    }
}

fn section_of<'a>(o: Option<&'a JsonTree>) -> (r: Option<Option<&'a Vec<(String, JsonTree)>>>)
    ensures
        match section(
            match o {
                Some(t) => Some(jmodel(*t)),
                None => None,
            },
        ) {
            Some(es) => r matches Some(x) && match x {
                Some(v) => jmodel_entries(v@) == es,
                None => es.len() == 0,
            },
            None => r is None,
        },
{
    match o {
        None => Some(None),
        Some(JsonTree::Object(es)) => Some(Some(es)),
        Some(_) => None,
    }
}

fn peers_of(o: Option<&JsonTree>) -> (r: Option<Vec<String>>)
    ensures
        match peers_field(
            match o {
                Some(t) => Some(jmodel(*t)),
                None => None,
            },
        ) {
            Some(l) => r matches Some(v) && v@.map_values(|p: String| p@) == l,
            None => r is None,
        },
{
    let items = match o {
        None => {
            let v: Vec<String> = Vec::new();
            assert(v@.map_values(|p: String| p@) =~= Seq::<Seq<char>>::empty());
            return Some(v);
        },
        Some(JsonTree::Array(items)) => items,
        Some(_) => {
            return None;
        },
    };
    proof {
        lemma_jmodel_list(items@);
    }
    let ghost ms = jmodel_list(items@);
    let mut out: Vec<String> = Vec::new();
    let mut i: usize = 0;
    assert(ms.subrange(0, 0) =~= Seq::<JsonModel>::empty());
    assert(out@.map_values(|p: String| p@) =~= Seq::<Seq<char>>::empty());
    while i < items.len()
        invariant
            i <= items.len(),
            ms == jmodel_list(items@),
            ms.len() == items.len(),
            forall|j: int| 0 <= j < items.len() ==> #[trigger] ms[j] == jmodel(items@[j]),
            strs_of(ms.subrange(0, i as int)) == Some(out@.map_values(|p: String| p@)),
            o matches Some(t) && jmodel(*t) == JsonModel::Array(ms),
        decreases items.len() - i,
    {
        let ghost pre = ms.subrange(0, i + 1);
        assert(pre.drop_last() =~= ms.subrange(0, i as int));
        assert(pre.last() == ms[i as int]);
        match &items[i] {
            JsonTree::Str(s) => {
                let ghost before = out@;
                out.push(s.clone());
                assert(out@.map_values(|p: String| p@) =~= before.map_values(|p: String| p@).push(s@));
            },
            _ => {
                proof {
                    assert(ms[i as int] == jmodel(items@[i as int]));
                    assert(strs_of(pre) is None);
                    lemma_strs_none_after(ms, i as int + 1);
                    assert(ms.subrange(0, ms.len() as int) =~= ms);
                }
                return None;
            },
        }
        i = i + 1;
    }
    assert(ms.subrange(0, ms.len() as int) =~= ms);
    Some(out)
}

/// Once a prefix fails, every longer prefix fails.
proof fn lemma_strs_none_after(ms: Seq<JsonModel>, n: int)
    requires
        0 < n <= ms.len(),
        strs_of(ms.subrange(0, n)) is None,
    ensures
        strs_of(ms.subrange(0, ms.len() as int)) is None,
    decreases ms.len() - n,
{
    if n < ms.len() {
        let pre = ms.subrange(0, n + 1);
        assert(pre.drop_last() =~= ms.subrange(0, n));
        lemma_strs_none_after(ms, n + 1);
    }
}

proof fn lemma_kind_days_none_after(es: Seq<(Seq<char>, JsonModel)>, n: int)
    requires
        0 < n <= es.len(),
        kind_days(es.subrange(0, n)) is None,
    ensures
        kind_days(es.subrange(0, es.len() as int)) is None,
    decreases es.len() - n,
{
    if n < es.len() {
        let pre = es.subrange(0, n + 1);
        assert(pre.drop_last() =~= es.subrange(0, n));
        lemma_kind_days_none_after(es, n + 1);
    }
}

/// Sets the retention of one kind.
fn put_days(m: &mut BTreeMap<u64, u32>, k: u64, d: u32)
    ensures
        final(m)@ == old(m)@.insert(k, d),
{
    broadcast use vstd::laws_cmp::group_laws_cmp;

    m.insert(k, d);
}

fn kind_entry(key: &String, v: &JsonTree) -> (r: Option<(u64, u32)>)
    ensures
        r == kind_entry_of(key@, jmodel(*v)),
{
    let chars = str_chars(key.as_str());
    let k = match try_parse_int_key(&chars) {
        Some(crate::codec::Value::Uint(k)) => k,
        _ => {
            return None;
        },
    };
    match v {
        JsonTree::UInt(d) => if *d <= 4294967295u64 {
            Some((k, *d as u32))
        } else {
            None
        },
        _ => None,
    }
}

fn kind_days_of(o: Option<&JsonTree>) -> (r: Option<BTreeMap<u64, u32>>)
    ensures
        match kind_days_field(
            match o {
                Some(t) => Some(jmodel(*t)),
                None => None,
            },
        ) {
            Some(m) => r matches Some(x) && x@ == m,
            None => r is None,
        },
{
    let es = match o {
        None => {
            return Some(BTreeMap::new());
        },
        Some(JsonTree::Object(es)) => es,
        Some(_) => {
            return None;
        },
    };
    proof {
        lemma_jmodel_entries(es@);
    }
    let ghost ms = jmodel_entries(es@);
    let mut out: BTreeMap<u64, u32> = BTreeMap::new();
    assert(ms.subrange(0, 0) =~= Seq::<(Seq<char>, JsonModel)>::empty());
    let mut i: usize = 0;
    while i < es.len()
        invariant
            i <= es.len(),
            ms == jmodel_entries(es@),
            ms.len() == es.len(),
            forall|j: int| 0 <= j < es.len() ==> #[trigger] ms[j] == (es@[j].0@, jmodel(es@[j].1)),
            kind_days(ms.subrange(0, i as int)) == Some(out@),
            o matches Some(t) && jmodel(*t) == JsonModel::Object(ms),
        decreases es.len() - i,
    {
        let ghost pre = ms.subrange(0, i + 1);
        assert(pre.drop_last() =~= ms.subrange(0, i as int));
        assert(pre.last() == ms[i as int]);
        let (k, d) = match kind_entry(&es[i].0, &es[i].1) {
            Some(e) => e,
            None => {
                proof {
                    assert(ms[i as int] == (es@[i as int].0@, jmodel(es@[i as int].1)));
                    assert(kind_days(pre) is None);
                    lemma_kind_days_none_after(ms, i as int + 1);
                    assert(ms.subrange(0, ms.len() as int) =~= ms);
                }
                return None;
            },
        };
        proof {
            assert(ms[i as int] == (es@[i as int].0@, jmodel(es@[i as int].1)));
        }
        put_days(&mut out, k, d);
        i = i + 1;
    }
    assert(ms.subrange(0, ms.len() as int) =~= ms);
    Some(out)
}

fn entry_in<'a>(sec: Option<&'a Vec<(String, JsonTree)>>, k: &str) -> (r: Option<&'a JsonTree>)
    ensures
        match sec {
            Some(v) => match entry_of(jmodel_entries(v@), k@) {
                Some(m) => r matches Some(t) && jmodel(*t) == m,
                None => r is None,
            },
            None => r is None,
        },
{
    match sec {
        Some(v) => find_entry(v, k),
        None => None,
    }
}

impl RelayConfig {
    /// The configuration a parsed JSON document stands for (see
    /// [`config_of`]).
    pub fn from_tree(t: &JsonTree) -> (res: Result<RelayConfig, ConfigError>)
        ensures
            match config_of(jmodel(*t)) {
                Some(c) => res matches Ok(r) && config_view(r) == c,
                None => res is Err,
            },
    {
        proof {
            reveal_strlit("listen_addr");
            reveal_strlit("db_path");
            reveal_strlit("name");
            reveal_strlit("pow_min_bits");
            reveal_strlit("rate");
            reveal_strlit("retention");
            reveal_strlit("blob");
            reveal_strlit("peers");
            reveal_strlit("127.0.0.1:8787");
            reveal_strlit("evermesh-relay.sqlite3");
            reveal_strlit("evermesh-relay");
            assert("127.0.0.1:8787"@ =~= default_listen_addr());
            assert("evermesh-relay.sqlite3"@ =~= default_db_path());
            assert("evermesh-relay"@ =~= default_name());
        }
        let es = match t {
            JsonTree::Object(es) => es,
            _ => {
                return Err(ConfigError::Invalid("configuration is not an object"));
            },
        };
        let listen_addr = match str_of(find_entry(es, "listen_addr"), "127.0.0.1:8787") {
            Some(s) => s,
            None => {
                return Err(ConfigError::Invalid("listen_addr"));
            },
        };
        let db_path = match str_of(find_entry(es, "db_path"), "evermesh-relay.sqlite3") {
            Some(s) => s,
            None => {
                return Err(ConfigError::Invalid("db_path"));
            },
        };
        let name = match str_of(find_entry(es, "name"), "evermesh-relay") {
            Some(s) => s,
            None => {
                return Err(ConfigError::Invalid("name"));
            },
        };
        let pow_min_bits = match u32_of(find_entry(es, "pow_min_bits"), 0) {
            Some(n) => n,
            None => {
                return Err(ConfigError::Invalid("pow_min_bits"));
            },
        };
        let rate = match section_of(find_entry(es, "rate")) {
            Some(s) => s,
            None => {
                return Err(ConfigError::Invalid("rate"));
            },
        };
        let ret = match section_of(find_entry(es, "retention")) {
            Some(s) => s,
            None => {
                return Err(ConfigError::Invalid("retention"));
            },
        };
        let blob = match section_of(find_entry(es, "blob")) {
            Some(s) => s,
            None => {
                return Err(ConfigError::Invalid("blob"));
            },
        };
        let peers = match peers_of(find_entry(es, "peers")) {
            Some(p) => p,
            None => {
                return Err(ConfigError::Invalid("peers"));
            },
        };
        proof {
            reveal_strlit("records_per_minute_per_key");
            reveal_strlit("default_days");
            reveal_strlit("by_kind_days");
            reveal_strlit("enabled");
            reveal_strlit("dir");
            reveal_strlit("max_bytes");
            reveal_strlit("./blobs");
            assert(entry_of(Seq::<(Seq<char>, JsonModel)>::empty(), "records_per_minute_per_key"@) is None);
            assert(entry_of(Seq::<(Seq<char>, JsonModel)>::empty(), "default_days"@) is None);
            assert(entry_of(Seq::<(Seq<char>, JsonModel)>::empty(), "by_kind_days"@) is None);
            assert(entry_of(Seq::<(Seq<char>, JsonModel)>::empty(), "enabled"@) is None);
            assert(entry_of(Seq::<(Seq<char>, JsonModel)>::empty(), "dir"@) is None);
            assert(entry_of(Seq::<(Seq<char>, JsonModel)>::empty(), "max_bytes"@) is None);
        }
        let rpm = match u32_of(entry_in(rate, "records_per_minute_per_key"), DEFAULT_RECORDS_PER_MINUTE) {
            Some(n) => n,
            None => {
                return Err(ConfigError::Invalid("rate.records_per_minute_per_key"));
            },
        };
        let default_days = match u32_of(entry_in(ret, "default_days"), DEFAULT_RETENTION_DAYS) {
            Some(n) => n,
            None => {
                return Err(ConfigError::Invalid("retention.default_days"));
            },
        };
        let by_kind_days = match kind_days_of(entry_in(ret, "by_kind_days")) {
            Some(m) => m,
            None => {
                return Err(ConfigError::Invalid("retention.by_kind_days"));
            },
        };
        let enabled = match bool_of(entry_in(blob, "enabled"), false) {
            Some(b) => b,
            None => {
                return Err(ConfigError::Invalid("blob.enabled"));
            },
        };
        let dir = match str_of(entry_in(blob, "dir"), "./blobs") {
            Some(s) => s,
            None => {
                return Err(ConfigError::Invalid("blob.dir"));
            },
        };
        let max_bytes = match u64_of(entry_in(blob, "max_bytes"), DEFAULT_MAX_BLOB_BYTES) {
            Some(n) => n,
            None => {
                return Err(ConfigError::Invalid("blob.max_bytes"));
            },
        };
        Ok(RelayConfig {
            listen_addr,
            db_path,
            name,
            pow_min_bits,
            rate: RateConfig { records_per_minute_per_key: rpm },
            retention: RetentionConfig { default_days, by_kind_days },
            blob: BlobConfig { enabled, dir, max_bytes },
            peers,
        })
    }

    /// Parse a configuration from JSON text: `Malformed` when the text
    /// is not a JSON document, else as [`RelayConfig::from_tree`].
    pub fn from_json(text: &str) -> (res: Result<RelayConfig, ConfigError>)
        ensures
            match json_document(text@) {
                None => res == Err::<RelayConfig, ConfigError>(ConfigError::Malformed),
                Some(m) => match config_of(m) {
                    Some(c) => res matches Ok(r) && config_view(r) == c,
                    None => res is Err,
                },
            },
    {
        match parse_json(text) {
            None => Err(ConfigError::Malformed),
            Some(t) => RelayConfig::from_tree(&t),
        }
    }
}

} // verus!
