//! Subscription filters.
//!
//! A filter is a CBOR map with UTF-8 text keys. All present conditions
//! AND together; each list condition matches any element (OR within the
//! list). An empty filter matches everything.

use vstd::prelude::*;
use crate::codec::Model;
use crate::frames::{Value, fmodel_list, fmodel_entries, lemma_fmodel_list, lemma_fmodel_entries, lemma_fentries_push};
use crate::text::{bytes_eq, bytes_to_vec, str_eq};

verus! {

/// A parsed subscription filter.
#[derive(Debug, Clone, PartialEq, Eq)]
pub struct Filter {
    /// Match records whose `kind` is in this list.
    pub kinds: Option<Vec<u64>>,
    /// Match records whose `author.identity_id` is in this list.
    pub authors: Option<Vec<[u8; 32]>>,
    /// Match records with at least one ref hash in this list.
    pub refs: Option<Vec<[u8; 32]>>,
    /// Match records whose id is in this list.
    pub ids: Option<Vec<[u8; 32]>>,
    /// Match records with relay-local `seq` strictly greater than this.
    pub since: Option<u64>,
    /// Stored-phase cap: at most this many stored records are sent,
    /// most-recent-first, before `EOSE`. Not a per-record match
    /// condition.
    pub limit: Option<u64>,
}

/// Everything that can go wrong turning a decoded frame value into a
/// filter.
#[derive(Debug, Clone, PartialEq, Eq)]
pub enum FilterError {
    /// The filter value was not a CBOR map.
    NotAMap,
    /// `kinds` was present but not an array of unsigned integers.
    BadKinds,
    /// `authors` was present but not an array of 32-byte strings.
    BadAuthors,
    /// `refs` was present but not an array of 32-byte strings.
    BadRefs,
    /// `ids` was present but not an array of 32-byte strings.
    BadIds,
    /// `since` was present but not an unsigned integer.
    BadSince,
    /// `limit` was present but not an unsigned integer.
    BadLimit,
}

/// The abstract content of a filter; hashes as byte sequences.
pub struct FilterModel {
    pub kinds: Option<Seq<u64>>,
    pub authors: Option<Seq<Seq<u8>>>,
    pub refs: Option<Seq<Seq<u8>>>,
    pub ids: Option<Seq<Seq<u8>>>,
    pub since: Option<u64>,
    pub limit: Option<u64>,
}

/// A list of hashes as byte sequences.
pub open spec fn hash_seqs(v: Seq<[u8; 32]>) -> Seq<Seq<u8>> {
    v.map_values(|a: [u8; 32]| a@)
}

pub open spec fn opt_hashes(o: Option<Vec<[u8; 32]>>) -> Option<Seq<Seq<u8>>> {
    match o {
        Some(v) => Some(hash_seqs(v@)),
        None => None,
    }
}

pub open spec fn opt_uints(o: Option<Vec<u64>>) -> Option<Seq<u64>> {
    match o {
        Some(v) => Some(v@),
        None => None,
    }
}

impl View for Filter {
    type V = FilterModel;

    open spec fn view(&self) -> FilterModel {
        FilterModel {
            kinds: opt_uints(self.kinds),
            authors: opt_hashes(self.authors),
            refs: opt_hashes(self.refs),
            ids: opt_hashes(self.ids),
            since: self.since,
            limit: self.limit,
        }
    }
}

/// The empty filter: no conditions.
pub open spec fn empty_filter() -> FilterModel {
    FilterModel { kinds: None, authors: None, refs: None, ids: None, since: None, limit: None }
}

impl Default for Filter {
    fn default() -> (f: Filter)
        ensures
            f@ == empty_filter(),
    {
        Filter { kinds: None, authors: None, refs: None, ids: None, since: None, limit: None }
    }
}

// Key names.
pub open spec fn key_kinds() -> Seq<char> {
    seq!['k', 'i', 'n', 'd', 's']
}

pub open spec fn key_authors() -> Seq<char> {
    seq!['a', 'u', 't', 'h', 'o', 'r', 's']
}

pub open spec fn key_refs() -> Seq<char> {
    seq!['r', 'e', 'f', 's']
}

pub open spec fn key_ids() -> Seq<char> {
    seq!['i', 'd', 's']
}

pub open spec fn key_since() -> Seq<char> {
    seq!['s', 'i', 'n', 'c', 'e']
}

pub open spec fn key_limit() -> Seq<char> {
    seq!['l', 'i', 'm', 'i', 't']
}

/// The integers of an array of unsigned integers.
pub open spec fn uint_list(m: Model) -> Option<Seq<u64>> {
    match m {
        Model::Array(items) => if forall|i: int| 0 <= i < items.len() ==> #[trigger] items[i] is Uint {
            Some(items.map_values(|x: Model| x->Uint_0))
        } else {
            None
        },
        _ => None,
    }
}

/// The byte strings of an array of 32-byte strings.
pub open spec fn bytes32_list(m: Model) -> Option<Seq<Seq<u8>>> {
    match m {
        Model::Array(items) => if forall|i: int|
            0 <= i < items.len() ==> #[trigger] items[i] is Bytes && items[i]->Bytes_0.len() == 32 {
            Some(items.map_values(|x: Model| x->Bytes_0))
        } else {
            None
        },
        _ => None,
    }
}

/// The filter after reading one map entry.
pub open spec fn apply_entry(f: FilterModel, key: Model, val: Model) -> Result<FilterModel, FilterError> {
    if key == Model::Text(key_kinds()) {
        match uint_list(val) {
            Some(l) => Ok(FilterModel { kinds: Some(l), ..f }),
            None => Err(FilterError::BadKinds),
        }
    } else if key == Model::Text(key_authors()) {
        match bytes32_list(val) {
            Some(l) => Ok(FilterModel { authors: Some(l), ..f }),
            None => Err(FilterError::BadAuthors),
        }
    } else if key == Model::Text(key_refs()) {
        match bytes32_list(val) {
            Some(l) => Ok(FilterModel { refs: Some(l), ..f }),
            None => Err(FilterError::BadRefs),
        }
    } else if key == Model::Text(key_ids()) {
        match bytes32_list(val) {
            Some(l) => Ok(FilterModel { ids: Some(l), ..f }),
            None => Err(FilterError::BadIds),
        }
    } else if key == Model::Text(key_since()) {
        match val {
            Model::Uint(n) => Ok(FilterModel { since: Some(n), ..f }),
            _ => Err(FilterError::BadSince),
        }
    } else if key == Model::Text(key_limit()) {
        match val {
            Model::Uint(n) => Ok(FilterModel { limit: Some(n), ..f }),
            _ => Err(FilterError::BadLimit),
        }
    } else {
        Ok(f)
    }
}

/// The filter read from map entries, in order; the first bad value
/// decides the error.
pub open spec fn filter_of_entries(es: Seq<(Model, Model)>) -> Result<FilterModel, FilterError>
    decreases es.len(),
{
    if es.len() == 0 {
        Ok(empty_filter())
    } else {
        match filter_of_entries(es.drop_last()) {
            Ok(f) => apply_entry(f, es.last().0, es.last().1),
            Err(e) => Err(e),
        }
    }
}

/// Once a prefix of the entries fails, the whole list fails the same way.
pub proof fn lemma_filter_err_sticky(es: Seq<(Model, Model)>, i: int)
    requires
        0 <= i <= es.len(),
        filter_of_entries(es.take(i)) is Err,
    ensures
        filter_of_entries(es) == filter_of_entries(es.take(i)),
    decreases es.len() - i,
{
    if i < es.len() {
        let t = es.take(i + 1);
        assert(t.drop_last() =~= es.take(i));
        lemma_filter_err_sticky(es, i + 1);
    } else {
        assert(es.take(i) =~= es);
    }
}

/// The filter a frame value stands for.
pub open spec fn filter_of(m: Model) -> Result<FilterModel, FilterError> {
    match m {
        Model::Dict(es) => filter_of_entries(es),
        _ => Err(FilterError::NotAMap),
    }
}

/// Unsigned integers as models.
pub open spec fn uint_models(l: Seq<u64>) -> Seq<Model> {
    Seq::new(l.len(), |i: int| Model::Uint(l[i]))
}

/// Byte strings as models.
pub open spec fn bytes_models(l: Seq<Seq<u8>>) -> Seq<Model> {
    Seq::new(l.len(), |i: int| Model::Bytes(l[i]))
}

pub open spec fn fe_ids(f: FilterModel) -> Seq<(Model, Model)> {
    match f.ids {
        Some(l) => Seq::empty().push((Model::Text(key_ids()), Model::Array(bytes_models(l)))),
        None => Seq::empty(),
    }
}

pub open spec fn fe_refs(f: FilterModel) -> Seq<(Model, Model)> {
    match f.refs {
        Some(l) => fe_ids(f).push((Model::Text(key_refs()), Model::Array(bytes_models(l)))),
        None => fe_ids(f),
    }
}

pub open spec fn fe_kinds(f: FilterModel) -> Seq<(Model, Model)> {
    match f.kinds {
        Some(l) => fe_refs(f).push((Model::Text(key_kinds()), Model::Array(uint_models(l)))),
        None => fe_refs(f),
    }
}

pub open spec fn fe_limit(f: FilterModel) -> Seq<(Model, Model)> {
    match f.limit {
        Some(n) => fe_kinds(f).push((Model::Text(key_limit()), Model::Uint(n))),
        None => fe_kinds(f),
    }
}

pub open spec fn fe_since(f: FilterModel) -> Seq<(Model, Model)> {
    match f.since {
        Some(n) => fe_limit(f).push((Model::Text(key_since()), Model::Uint(n))),
        None => fe_limit(f),
    }
}

/// The entries a filter is written as: the present conditions in the
/// bytewise order of their encoded keys (ids, refs, kinds, limit,
/// since, authors), so the map is already in canonical order.
pub open spec fn filter_entries(f: FilterModel) -> Seq<(Model, Model)> {
    match f.authors {
        Some(l) => fe_since(f).push((Model::Text(key_authors()), Model::Array(bytes_models(l)))),
        None => fe_since(f),
    }
}

/// Whether some element of `v` equals `x`.
pub open spec fn has_elem<T>(v: Seq<T>, x: T) -> bool {
    exists|i: int| 0 <= i < v.len() && v[i] == x
}

/// Whether a record with these properties matches the filter.
pub open spec fn spec_matches(
    f: FilterModel,
    kind: u64,
    author: Seq<u8>,
    id: Seq<u8>,
    ref_hashes: Seq<Seq<u8>>,
    seq: u64,
) -> bool {
    &&& (f.kinds matches Some(l) ==> has_elem(l, kind))
    &&& (f.authors matches Some(l) ==> has_elem(l, author))
    &&& (f.ids matches Some(l) ==> has_elem(l, id))
    &&& (f.refs matches Some(l) ==> exists|i: int| 0 <= i < l.len() && has_elem(ref_hashes, #[trigger] l[i]))
    &&& (f.since matches Some(s) ==> seq > s)
}

fn parse_uint_list(v: &Value) -> (r: Option<Vec<u64>>)
    ensures
        match r {
            Some(l) => uint_list(v@) == Some(l@),
            None => uint_list(v@) is None,
        },
{
    let items = match v.as_array() {
        Some(a) => a,
        None => {
            return None;
        },
    };
    proof {
        lemma_fmodel_list(items@);
    }
    let ghost ms = fmodel_list(items@);
    let mut out: Vec<u64> = Vec::new();
    let mut i: usize = 0;
    while i < items.len()
        invariant
            i <= items.len(),
            out.len() == i,
            ms == fmodel_list(items@),
            ms.len() == items.len(),
            v@ == Model::Array(ms),
            forall|k: int| 0 <= k < items.len() ==> #[trigger] ms[k] == items@[k]@,
            forall|k: int| 0 <= k < i ==> #[trigger] ms[k] is Uint && ms[k]->Uint_0 == out@[k],
        decreases items.len() - i,
    {
        match items[i].as_uint() {
            Some(n) => out.push(n),
            None => {
                assert(!(ms[i as int] is Uint));
                return None;
            },
        }
        i = i + 1;
    }
    proof {
        assert(ms.map_values(|x: Model| x->Uint_0) =~= out@);
    }
    Some(out)
}

fn parse_bytes32_list(v: &Value) -> (r: Option<Vec<[u8; 32]>>)
    ensures
        match r {
            Some(l) => bytes32_list(v@) == Some(hash_seqs(l@)),
            None => bytes32_list(v@) is None,
        },
{
    let items = match v.as_array() {
        Some(a) => a,
        None => {
            return None;
        },
    };
    proof {
        lemma_fmodel_list(items@);
    }
    let ghost ms = fmodel_list(items@);
    let mut out: Vec<[u8; 32]> = Vec::new();
    let mut i: usize = 0;
    while i < items.len()
        invariant
            i <= items.len(),
            out.len() == i,
            ms == fmodel_list(items@),
            ms.len() == items.len(),
            v@ == Model::Array(ms),
            forall|k: int| 0 <= k < items.len() ==> #[trigger] ms[k] == items@[k]@,
            forall|k: int|
                0 <= k < i ==> #[trigger] ms[k] is Bytes && ms[k]->Bytes_0.len() == 32 && ms[k]->Bytes_0
                    == out@[k]@,
        decreases items.len() - i,
    {
        match items[i].as_bytes32() {
            Some(b) => out.push(b),
            None => {
                assert(!(ms[i as int] is Bytes && ms[i as int]->Bytes_0.len() == 32));
                return None;
            },
        }
        i = i + 1;
    }
    proof {
        assert(ms.map_values(|x: Model| x->Bytes_0) =~= hash_seqs(out@));
    }
    Some(out)
}

fn uint_array(l: &Vec<u64>) -> (v: Value)
    ensures
        v@ == Model::Array(uint_models(l@)),
{
    let mut items: Vec<Value> = Vec::new();
    let mut i: usize = 0;
    while i < l.len()
        invariant
            i <= l.len(),
            items.len() == i,
            forall|k: int| 0 <= k < i ==> #[trigger] items@[k]@ == Model::Uint(l@[k]),
        decreases l.len() - i,
    {
        items.push(Value::Uint(l[i]));
        i = i + 1;
    }
    proof {
        lemma_fmodel_list(items@);
        assert forall|k: int| 0 <= k < l@.len() implies #[trigger] fmodel_list(items@)[k] == uint_models(l@)[k] by {
            assert(fmodel_list(items@)[k] == items@[k]@);
        }
        assert(fmodel_list(items@) =~= uint_models(l@));
    }
    Value::Array(items)
}

fn bytes_array(l: &Vec<[u8; 32]>) -> (v: Value)
    ensures
        v@ == Model::Array(bytes_models(hash_seqs(l@))),
{
    let mut items: Vec<Value> = Vec::new();
    let mut i: usize = 0;
    while i < l.len()
        invariant
            i <= l.len(),
            items.len() == i,
            forall|k: int| 0 <= k < i ==> #[trigger] items@[k]@ == Model::Bytes(l@[k]@),
        decreases l.len() - i,
    {
        items.push(Value::Bytes(bytes_to_vec(&l[i])));
        i = i + 1;
    }
    proof {
        lemma_fmodel_list(items@);
        assert forall|k: int| 0 <= k < l@.len() implies #[trigger] fmodel_list(items@)[k] == bytes_models(hash_seqs(l@))[k] by {
            assert(fmodel_list(items@)[k] == items@[k]@);
        }
        assert(fmodel_list(items@) =~= bytes_models(hash_seqs(l@)));
    }
    Value::Array(items)
}

fn text_value(s: &str) -> (v: Value)
    ensures
        v@ == Model::Text(s@),
{
    Value::Text(s.to_string())
}

/// Whether `x` occurs in `v`.
fn contains_u64(v: &Vec<u64>, x: u64) -> (b: bool)
    ensures
        b == has_elem(v@, x),
{
    let mut i: usize = 0;
    while i < v.len()
        invariant
            i <= v.len(),
            forall|k: int| 0 <= k < i ==> v@[k] != x,
        decreases v.len() - i,
    {
        if v[i] == x {
            return true;
        }
        i = i + 1;
    }
    false
}

/// Whether the 32-byte hash `x` occurs in `v`.
fn contains_hash(v: &[[u8; 32]], x: &[u8; 32]) -> (b: bool)
    ensures
        b == has_elem(hash_seqs(v@), x@),
{
    let mut i: usize = 0;
    while i < v.len()
        invariant
            i <= v.len(),
            forall|k: int| 0 <= k < i ==> v@[k]@ != x@,
        decreases v.len() - i,
    {
        if bytes_eq(&v[i], x) {
            assert(hash_seqs(v@)[i as int] == x@);
            return true;
        }
        i = i + 1;
    }
    proof {
        if has_elem(hash_seqs(v@), x@) {
            let k = choose|k: int| 0 <= k < hash_seqs(v@).len() && hash_seqs(v@)[k] == x@;
            assert(v@[k]@ == x@);
        }
    }
    false
}

/// Whether some hash of `refs` occurs in `ref_hashes`.
fn any_overlap(refs: &[[u8; 32]], ref_hashes: &[[u8; 32]]) -> (b: bool)
    ensures
        b == exists|i: int| 0 <= i < refs@.len() && has_elem(hash_seqs(ref_hashes@), #[trigger] hash_seqs(refs@)[i]),
{
    let mut i: usize = 0;
    while i < refs.len()
        invariant
            i <= refs.len(),
            forall|k: int| 0 <= k < i ==> !has_elem(hash_seqs(ref_hashes@), #[trigger] hash_seqs(refs@)[k]),
        decreases refs.len() - i,
    {
        let hit = contains_hash(ref_hashes, &refs[i]);
        proof {
            assert(hash_seqs(refs@)[i as int] == refs@[i as int]@);
        }
        if hit {
            return true;
        }
        i = i + 1;
    }
    false
}

/// Append one entry to a list of map entries.
fn push_entry(pairs: &mut Vec<(Value, Value)>, k: Value, v: Value)
    ensures
        fmodel_entries(final(pairs)@) == fmodel_entries(old(pairs)@).push((k@, v@)),
{
    proof {
        lemma_fentries_push(pairs@, k, v);
    }
    pairs.push((k, v));
}

impl Filter {
    /// Parse a filter from a decoded CBOR map. Unknown keys are ignored;
    /// a known key with a value of the wrong shape is an error.
    pub fn from_value(v: &Value) -> (res: Result<Filter, FilterError>)
        ensures
            match filter_of(v@) {
                Ok(fm) => res matches Ok(f) && f@ == fm,
                Err(e) => res == Err::<Filter, FilterError>(e),
            },
    {
        let pairs = match v.as_map() {
            Some(p) => p,
            None => {
                return Err(FilterError::NotAMap);
            },
        };
        proof {
            lemma_fmodel_entries(pairs@);
            reveal_strlit("kinds");
            assert("kinds"@ =~= key_kinds());
            reveal_strlit("authors");
            assert("authors"@ =~= key_authors());
            reveal_strlit("refs");
            assert("refs"@ =~= key_refs());
            reveal_strlit("ids");
            assert("ids"@ =~= key_ids());
            reveal_strlit("since");
            assert("since"@ =~= key_since());
            reveal_strlit("limit");
            assert("limit"@ =~= key_limit());
        }
        let ghost es = fmodel_entries(pairs@);
        let mut f = Filter::default();
        let mut i: usize = 0;
        while i < pairs.len()
            invariant
                i <= pairs.len(),
                es == fmodel_entries(pairs@),
                es.len() == pairs.len(),
                v@ == Model::Dict(es),
                forall|k: int| 0 <= k < pairs.len() ==> #[trigger] es[k] == (pairs@[k].0@, pairs@[k].1@),
                filter_of_entries(es.take(i as int)) == Ok::<FilterModel, FilterError>(f@),
                "kinds"@ == key_kinds(),
                "authors"@ == key_authors(),
                "refs"@ == key_refs(),
                "ids"@ == key_ids(),
                "since"@ == key_since(),
                "limit"@ == key_limit(),
            decreases pairs.len() - i,
        {
            let ghost before = f@;
            let key = &pairs[i].0;
            let val = &pairs[i].1;
            proof {
                let t = es.take(i + 1);
                assert(t.drop_last() =~= es.take(i as int));
                assert(t.last() == es[i as int]);
            }
            match key.as_text() {
                Some(k) => {
                    if str_eq(k, "kinds") {
                        match parse_uint_list(val) {
                            Some(l) => f.kinds = Some(l),
                            None => {
                                proof {
                                    lemma_filter_err_sticky(es, i + 1);
                                }
                                return Err(FilterError::BadKinds);
                            },
                        }
                    } else if str_eq(k, "authors") {
                        match parse_bytes32_list(val) {
                            Some(l) => f.authors = Some(l),
                            None => {
                                proof {
                                    lemma_filter_err_sticky(es, i + 1);
                                }
                                return Err(FilterError::BadAuthors);
                            },
                        }
                    } else if str_eq(k, "refs") {
                        match parse_bytes32_list(val) {
                            Some(l) => f.refs = Some(l),
                            None => {
                                proof {
                                    lemma_filter_err_sticky(es, i + 1);
                                }
                                return Err(FilterError::BadRefs);
                            },
                        }
                    } else if str_eq(k, "ids") {
                        match parse_bytes32_list(val) {
                            Some(l) => f.ids = Some(l),
                            None => {
                                proof {
                                    lemma_filter_err_sticky(es, i + 1);
                                }
                                return Err(FilterError::BadIds);
                            },
                        }
                    } else if str_eq(k, "since") {
                        match val.as_uint() {
                            Some(n) => f.since = Some(n),
                            None => {
                                proof {
                                    lemma_filter_err_sticky(es, i + 1);
                                }
                                return Err(FilterError::BadSince);
                            },
                        }
                    } else if str_eq(k, "limit") {
                        match val.as_uint() {
                            Some(n) => f.limit = Some(n),
                            None => {
                                proof {
                                    lemma_filter_err_sticky(es, i + 1);
                                }
                                return Err(FilterError::BadLimit);
                            },
                        }
                    }
                },
                None => {},
            }
            i = i + 1;
        }
        proof {
            assert(es.take(pairs.len() as int) =~= es);
        }
        Ok(f)
    }

    /// Encode this filter as a frame value: a map with the present
    /// conditions in canonical key order (ids, refs, kinds, limit,
    /// since, authors).
    pub fn to_value(&self) -> (v: Value)
        ensures
            v@ == Model::Dict(filter_entries(self@)),
    {
        proof {
            reveal_strlit("kinds");
            assert("kinds"@ =~= key_kinds());
            reveal_strlit("authors");
            assert("authors"@ =~= key_authors());
            reveal_strlit("refs");
            assert("refs"@ =~= key_refs());
            reveal_strlit("ids");
            assert("ids"@ =~= key_ids());
            reveal_strlit("since");
            assert("since"@ =~= key_since());
            reveal_strlit("limit");
            assert("limit"@ =~= key_limit());
        }
        let mut pairs: Vec<(Value, Value)> = Vec::new();
        assert(fmodel_entries(pairs@) =~= Seq::<(Model, Model)>::empty());
        self.push_lists(&mut pairs);
        self.push_scalars(&mut pairs);
        Value::Dict(pairs)
    }

    fn push_lists(&self, pairs: &mut Vec<(Value, Value)>)
        requires
            fmodel_entries(old(pairs)@) == Seq::<(Model, Model)>::empty(),
        ensures
            fmodel_entries(final(pairs)@) == fe_kinds(self@),
    {
        proof {
            reveal_strlit("kinds");
            assert("kinds"@ =~= key_kinds());
            reveal_strlit("refs");
            assert("refs"@ =~= key_refs());
            reveal_strlit("ids");
            assert("ids"@ =~= key_ids());
        }
        match &self.ids {
            Some(r) => {
                push_entry(pairs, text_value("ids"), bytes_array(r));
            },
            None => {},
        }
        assert(fmodel_entries(pairs@) == fe_ids(self@));
        match &self.refs {
            Some(r) => {
                push_entry(pairs, text_value("refs"), bytes_array(r));
            },
            None => {},
        }
        assert(fmodel_entries(pairs@) == fe_refs(self@));
        match &self.kinds {
            Some(kinds) => {
                push_entry(pairs, text_value("kinds"), uint_array(kinds));
            },
            None => {},
        }
        assert(fmodel_entries(pairs@) == fe_kinds(self@));
    }

    fn push_scalars(&self, pairs: &mut Vec<(Value, Value)>)
        requires
            fmodel_entries(old(pairs)@) == fe_kinds(self@),
        ensures
            fmodel_entries(final(pairs)@) == filter_entries(self@),
    {
        proof {
            reveal_strlit("since");
            assert("since"@ =~= key_since());
            reveal_strlit("limit");
            assert("limit"@ =~= key_limit());
            reveal_strlit("authors");
            assert("authors"@ =~= key_authors());
        }
        match self.limit {
            Some(n) => {
                push_entry(pairs, text_value("limit"), Value::Uint(n));
            },
            None => {},
        }
        assert(fmodel_entries(pairs@) == fe_limit(self@));
        match self.since {
            Some(n) => {
                push_entry(pairs, text_value("since"), Value::Uint(n));
            },
            None => {},
        }
        assert(fmodel_entries(pairs@) == fe_since(self@));
        match &self.authors {
            Some(a) => {
                push_entry(pairs, text_value("authors"), bytes_array(a));
            },
            None => {},
        }
        assert(fmodel_entries(pairs@) == filter_entries(self@));
    }

    /// Whether a record with the given properties matches this filter.
    /// `seq` is the record's relay-local receipt sequence. `limit` is
    /// not a per-record condition and is not consulted.
    pub fn matches(
        &self,
        kind: u64,
        author: &[u8; 32],
        id: &[u8; 32],
        ref_hashes: &[[u8; 32]],
        seq: u64,
    ) -> (b: bool)
        ensures
            b == spec_matches(self@, kind, author@, id@, hash_seqs(ref_hashes@), seq),
            ((self@.kinds matches Some(l) && !l.contains(kind)) ==> !b),
            ((self@.authors matches Some(l) && !l.contains(author@)) ==> !b),
            ((self@.ids matches Some(l) && !l.contains(id@)) ==> !b),
            ((self@.refs matches Some(l) && (forall|h: Seq<u8>| #[trigger] l.contains(h) ==> !hash_seqs(ref_hashes@).contains(h))) ==> !b),
            ((self@.since matches Some(s) && seq <= s) ==> !b),
    {
        let b = self.check_each(kind, author, id, ref_hashes, seq);
        proof {
            lemma_matches_each_condition(self@, kind, author@, id@, hash_seqs(ref_hashes@), seq);
        }
        b
    }

    /// Checks each present condition in turn (see [`spec_matches`]).
    fn check_each(
        &self,
        kind: u64,
        author: &[u8; 32],
        id: &[u8; 32],
        ref_hashes: &[[u8; 32]],
        seq: u64,
    ) -> (b: bool)
        ensures
            b == spec_matches(self@, kind, author@, id@, hash_seqs(ref_hashes@), seq),
    {
        match &self.kinds {
            Some(kinds) => {
                if !contains_u64(kinds, kind) {
                    return false;
                }
            },
            None => {},
        }
        match &self.authors {
            Some(authors) => {
                if !contains_hash(authors.as_slice(), author) {
                    return false;
                }
            },
            None => {},
        }
        match &self.ids {
            Some(ids) => {
                if !contains_hash(ids.as_slice(), id) {
                    return false;
                }
            },
            None => {},
        }
        match &self.refs {
            Some(refs) => {
                if !any_overlap(refs.as_slice(), ref_hashes) {
                    return false;
                }
            },
            None => {},
        }
        match self.since {
            Some(since) => {
                if seq <= since {
                    return false;
                }
            },
            None => {},
        }
        assert(self@.kinds matches Some(l) ==> has_elem(l, kind));
        assert(self@.authors matches Some(l) ==> has_elem(l, author@));
        assert(self@.ids matches Some(l) ==> has_elem(l, id@));
        assert(self@.refs matches Some(l) ==> exists|i: int| 0 <= i < l.len() && has_elem(hash_seqs(ref_hashes@), #[trigger] l[i]));
        true
    }
}

/// Every hash list of a filter holds 32-byte hashes.
pub open spec fn hashes_ok(f: FilterModel) -> bool {
    &&& (f.authors matches Some(l) ==> forall|i: int| 0 <= i < l.len() ==> (#[trigger] l[i]).len() == 32)
    &&& (f.refs matches Some(l) ==> forall|i: int| 0 <= i < l.len() ==> (#[trigger] l[i]).len() == 32)
    &&& (f.ids matches Some(l) ==> forall|i: int| 0 <= i < l.len() ==> (#[trigger] l[i]).len() == 32)
}

proof fn lemma_lists_read_back(l: Seq<u64>, h: Seq<Seq<u8>>)
    requires
        forall|i: int| 0 <= i < h.len() ==> (#[trigger] h[i]).len() == 32,
    ensures
        uint_list(Model::Array(uint_models(l))) == Some(l),
        bytes32_list(Model::Array(bytes_models(h))) == Some(h),
{
    let um = uint_models(l);
    assert(forall|i: int| 0 <= i < um.len() ==> #[trigger] um[i] is Uint);
    assert(um.map_values(|x: Model| x->Uint_0) =~= l);
    let bm = bytes_models(h);
    assert(forall|i: int| 0 <= i < bm.len() ==> #[trigger] bm[i] is Bytes && bm[i]->Bytes_0.len() == 32);
    assert(bm.map_values(|x: Model| x->Bytes_0) =~= h);
}

proof fn lemma_keys_distinct()
    ensures
        key_kinds() != key_authors(),
        key_kinds() != key_refs(),
        key_kinds() != key_ids(),
        key_kinds() != key_since(),
        key_kinds() != key_limit(),
        key_authors() != key_refs(),
        key_authors() != key_ids(),
        key_authors() != key_since(),
        key_authors() != key_limit(),
        key_refs() != key_ids(),
        key_refs() != key_since(),
        key_refs() != key_limit(),
        key_ids() != key_since(),
        key_ids() != key_limit(),
        key_since() != key_limit(),
{
    assert(key_kinds().len() != key_authors().len());
    assert(key_kinds()[0] != key_refs()[0]);
    assert(key_kinds()[0] != key_ids()[0]);
    assert(key_kinds()[0] != key_since()[0]);
    assert(key_kinds()[0] != key_limit()[0]);
    assert(key_authors().len() != key_refs().len());
    assert(key_authors().len() != key_ids().len());
    assert(key_authors().len() != key_since().len());
    assert(key_authors().len() != key_limit().len());
    assert(key_refs().len() != key_ids().len());
    assert(key_refs().len() != key_since().len());
    assert(key_refs().len() != key_limit().len());
    assert(key_ids().len() != key_since().len());
    assert(key_ids().len() != key_limit().len());
    assert(key_since()[0] != key_limit()[0]);
}

/// Filter round trip: reading back the value a filter is written as
/// gives the same filter.
pub proof fn lemma_filter_round_trip(f: FilterModel)
    requires
        hashes_ok(f),
    ensures
        filter_of(Model::Dict(filter_entries(f))) == Ok::<FilterModel, FilterError>(f),
{
    lemma_keys_distinct();
    let e = empty_filter();
    let f1 = FilterModel { ids: f.ids, ..e };
    let f2 = FilterModel { refs: f.refs, ..f1 };
    let f3 = FilterModel { kinds: f.kinds, ..f2 };
    let f4 = FilterModel { limit: f.limit, ..f3 };
    let f5 = FilterModel { since: f.since, ..f4 };
    let f6 = FilterModel { authors: f.authors, ..f5 };
    assert(filter_of_entries(Seq::empty()) == Ok::<FilterModel, FilterError>(e));
    match f.ids {
        Some(l) => {
            lemma_lists_read_back(Seq::empty(), l);
            assert(fe_ids(f).drop_last() =~= Seq::<(Model, Model)>::empty());
        },
        None => {},
    }
    assert(filter_of_entries(fe_ids(f)) == Ok::<FilterModel, FilterError>(f1));
    match f.refs {
        Some(l) => {
            lemma_lists_read_back(Seq::empty(), l);
            assert(fe_refs(f).drop_last() == fe_ids(f));
        },
        None => {},
    }
    assert(filter_of_entries(fe_refs(f)) == Ok::<FilterModel, FilterError>(f2));
    match f.kinds {
        Some(l) => {
            lemma_lists_read_back(l, Seq::empty());
            assert(fe_kinds(f).drop_last() == fe_refs(f));
        },
        None => {},
    }
    assert(filter_of_entries(fe_kinds(f)) == Ok::<FilterModel, FilterError>(f3));
    match f.limit {
        Some(n) => {
            assert(fe_limit(f).drop_last() == fe_kinds(f));
        },
        None => {},
    }
    assert(filter_of_entries(fe_limit(f)) == Ok::<FilterModel, FilterError>(f4));
    match f.since {
        Some(n) => {
            assert(fe_since(f).drop_last() == fe_limit(f));
        },
        None => {},
    }
    assert(filter_of_entries(fe_since(f)) == Ok::<FilterModel, FilterError>(f5));
    match f.authors {
        Some(l) => {
            lemma_lists_read_back(Seq::empty(), l);
            assert(filter_entries(f).drop_last() == fe_since(f));
        },
        None => {},
    }
    assert(f6 == f);
}

/// A filter matches exactly when each of its present conditions holds
/// on its own: any one present condition that fails rules the record
/// out, whatever the other fields say, and a record meeting all present
/// conditions matches (so an empty filter matches every record).
pub proof fn lemma_matches_each_condition(
    f: FilterModel,
    kind: u64,
    author: Seq<u8>,
    id: Seq<u8>,
    ref_hashes: Seq<Seq<u8>>,
    seq: u64,
)
    ensures
        ((f.kinds matches Some(l) && !l.contains(kind)) ==> !spec_matches(f, kind, author, id, ref_hashes, seq)),
        ((f.authors matches Some(l) && !l.contains(author)) ==> !spec_matches(f, kind, author, id, ref_hashes, seq)),
        ((f.ids matches Some(l) && !l.contains(id)) ==> !spec_matches(f, kind, author, id, ref_hashes, seq)),
        ((f.refs matches Some(l) && (forall|h: Seq<u8>| #[trigger] l.contains(h) ==> !ref_hashes.contains(h))) ==> !spec_matches(f, kind, author, id, ref_hashes, seq)),
        ((f.since matches Some(s) && seq <= s) ==> !spec_matches(f, kind, author, id, ref_hashes, seq)),
        (((f.kinds matches Some(l) ==> l.contains(kind)) && (f.authors matches Some(l) ==> l.contains(author))
            && (f.ids matches Some(l) ==> l.contains(id)) && (f.refs matches Some(l) ==> exists|h: Seq<u8>|
            #[trigger] l.contains(h) && ref_hashes.contains(h)) && (f.since matches Some(s) ==> seq > s)) ==> spec_matches(f, kind, author, id, ref_hashes, seq)),
{
    if let Some(l) = f.refs {
        if exists|h: Seq<u8>| #[trigger] l.contains(h) && ref_hashes.contains(h) {
            let h = choose|h: Seq<u8>| #[trigger] l.contains(h) && ref_hashes.contains(h);
            let i = choose|i: int| 0 <= i < l.len() && l[i] == h;
            assert(has_elem(ref_hashes, l[i]));
        }
        if exists|i: int| 0 <= i < l.len() && has_elem(ref_hashes, #[trigger] l[i]) {
            let i = choose|i: int| 0 <= i < l.len() && has_elem(ref_hashes, #[trigger] l[i]);
            assert(l.contains(l[i]));
            assert(ref_hashes.contains(l[i]));
        }
    }
}

} // verus!
