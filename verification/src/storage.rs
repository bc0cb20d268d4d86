//! The relay store's statements: the SQL text and bound parameters that
//! answer a subscription's stored phase and that expire old records.
//! Values are always bound as parameters, never written into the text.
//! Running them against the database is the application's part.

use vstd::prelude::*;
use crate::filter::{Filter, FilterModel};
use crate::text::{concat, bytes_to_vec};

verus! {

/// A value bound to a statement parameter.
#[derive(Debug, Clone, PartialEq, Eq)]
pub enum SqlParam {
    Int(i64),
    Blob(Vec<u8>),
}

/// The abstract content of a parameter.
pub enum SqlParamModel {
    Int(i64),
    Blob(Seq<u8>),
}

impl View for SqlParam {
    type V = SqlParamModel;

    open spec fn view(&self) -> SqlParamModel {
        match self {
            SqlParam::Int(v) => SqlParamModel::Int(*v),
            SqlParam::Blob(b) => SqlParamModel::Blob(b@),
        }
    }
}

/// The views of a parameter list.
pub open spec fn params_view(v: Seq<SqlParam>) -> Seq<SqlParamModel> {
    v.map_values(|p: SqlParam| p@)
}

/// A number as a signed 64-bit column value, clamped at `i64::MAX`.
pub open spec fn spec_sql_int(v: u64) -> i64 {
    if v <= i64::MAX {
        v as i64
    } else {
        i64::MAX
    }
}

/// A number as a signed 64-bit column value, clamped at `i64::MAX`
/// (ids, sequences and times are far smaller in practice).
pub fn u64_to_sql(v: u64) -> (r: i64)
    ensures
        r == spec_sql_int(v),
{
    if v <= i64::MAX as u64 {
        v as i64
    } else {
        i64::MAX
    }
}

/// `n` comma-separated `?` placeholders.
pub open spec fn placeholders(n: nat) -> Seq<char>
    decreases n,
{
    if n == 0 {
        Seq::empty()
    } else if n == 1 {
        seq!['?']
    } else {
        placeholders((n - 1) as nat) + seq![',', '?']
    }
}

/// ` AND <column> IN (?,...)` for `n` values.
pub open spec fn in_clause(column: Seq<char>, n: nat) -> Seq<char> {
    " AND "@ + column + " IN ("@ + placeholders(n) + ")"@
}

/// The `kind` condition of a filter's query, if it has one.
pub open spec fn kinds_clause(f: FilterModel) -> Seq<char> {
    match f.kinds {
        Some(k) => in_clause("kind"@, k.len()),
        None => Seq::empty(),
    }
}

/// The `author` condition of a filter's query, if it has one.
pub open spec fn authors_clause(f: FilterModel) -> Seq<char> {
    match f.authors {
        Some(a) => in_clause("author"@, a.len()),
        None => Seq::empty(),
    }
}

/// The `id` condition of a filter's query, if it has one.
pub open spec fn ids_clause(f: FilterModel) -> Seq<char> {
    match f.ids {
        Some(i) => in_clause("id"@, i.len()),
        None => Seq::empty(),
    }
}

/// The ref condition of a filter's query, if it has one.
pub open spec fn refs_clause(f: FilterModel) -> Seq<char> {
    match f.refs {
        Some(r) => " AND id IN (SELECT record_id FROM refs WHERE hash IN ("@ + placeholders(r.len()) + "))"@,
        None => Seq::empty(),
    }
}

/// The `since` condition of a filter's query, if it has one.
pub open spec fn since_clause(f: FilterModel) -> Seq<char> {
    match f.since {
        Some(_) => " AND seq > ?"@,
        None => Seq::empty(),
    }
}

/// The text of a stored-phase query for a filter.
pub open spec fn query_sql(f: FilterModel) -> Seq<char> {
    "SELECT seq, bytes FROM records WHERE 1=1"@ + kinds_clause(f) + authors_clause(f) + ids_clause(f) + refs_clause(f)
        + since_clause(f) + " ORDER BY seq DESC LIMIT ?"@
}

/// Integer parameters, one per number.
pub open spec fn int_params(v: Seq<u64>) -> Seq<SqlParamModel> {
    v.map_values(|x: u64| SqlParamModel::Int(spec_sql_int(x)))
}

/// Blob parameters, one per hash.
pub open spec fn blob_params(v: Seq<Seq<u8>>) -> Seq<SqlParamModel> {
    v.map_values(|x: Seq<u8>| SqlParamModel::Blob(x))
}

/// Integer parameters of an optional list.
pub open spec fn opt_ints(v: Option<Seq<u64>>) -> Seq<SqlParamModel> {
    match v {
        Some(k) => int_params(k),
        None => Seq::empty(),
    }
}

/// Blob parameters of an optional list.
pub open spec fn opt_blobs(v: Option<Seq<Seq<u8>>>) -> Seq<SqlParamModel> {
    match v {
        Some(k) => blob_params(k),
        None => Seq::empty(),
    }
}

/// The parameters of a stored-phase query, in the order of the text:
/// kinds, authors, ids, ref hashes, `since`, and the limit (the
/// filter's own, else `default_limit`).
pub open spec fn query_params(f: FilterModel, default_limit: u64) -> Seq<SqlParamModel> {
    let limit = match f.limit {
        Some(l) => l,
        None => default_limit,
    };
    opt_ints(f.kinds) + opt_blobs(f.authors) + opt_blobs(f.ids) + opt_blobs(f.refs) + (match f.since {
        Some(s) => seq![SqlParamModel::Int(spec_sql_int(s))],
        None => Seq::empty(),
    }) + seq![SqlParamModel::Int(spec_sql_int(limit))]
}

/// Whether a filter lists no value at all for some condition: an empty
/// alternative can never match, so nothing is queried.
pub open spec fn matches_nothing(f: FilterModel) -> bool {
    ||| f.kinds matches Some(k) && k.len() == 0
    ||| f.authors matches Some(a) && a.len() == 0
    ||| f.ids matches Some(i) && i.len() == 0
    ||| f.refs matches Some(r) && r.len() == 0
}

/// Appends `n` placeholders.
fn push_placeholders(sql: String, n: usize) -> (r: String)
    ensures
        r@ == sql@ + placeholders(n as nat),
{
    let mut s = sql;
    let mut i: usize = 0;
    proof {
        assert(s@ =~= sql@ + placeholders(0));
    }
    while i < n
        invariant
            i <= n,
            s@ == sql@ + placeholders(i as nat),
        decreases n - i,
    {
        if i == 0 {
            s = concat(s.as_str(), "?");
            proof {
                reveal_strlit("?");
                assert(s@ =~= sql@ + placeholders(1));
            }
        } else {
            s = concat(s.as_str(), ",?");
            proof {
                reveal_strlit(",?");
                assert(s@ =~= sql@ + placeholders((i + 1) as nat));
            }
        }
        i = i + 1;
    }
    s
}

/// Appends ` AND <column> IN (?,...)`.
fn push_in_clause(sql: String, column: &str, n: usize) -> (r: String)
    ensures
        r@ == sql@ + in_clause(column@, n as nat),
{
    let s = concat(sql.as_str(), " AND ");
    let s = concat(s.as_str(), column);
    let s = concat(s.as_str(), " IN (");
    let s = push_placeholders(s, n);
    concat(s.as_str(), ")")
}

/// Appends integer parameters.
fn push_ints(params: &mut Vec<SqlParam>, v: &Vec<u64>)
    ensures
        params_view(final(params)@) == params_view(old(params)@) + int_params(v@),
{
    let ghost start = params_view(params@);
    let mut i: usize = 0;
    while i < v.len()
        invariant
            i <= v.len(),
            params_view(params@) == start + int_params(v@.take(i as int)),
        decreases v.len() - i,
    {
        let ghost before = params@;
        params.push(SqlParam::Int(u64_to_sql(v[i])));
        proof {
            assert(params_view(params@) =~= params_view(before).push(SqlParamModel::Int(spec_sql_int(v@[i as int]))));
            assert(int_params(v@.take(i + 1)) =~= int_params(v@.take(i as int)).push(
                SqlParamModel::Int(spec_sql_int(v@[i as int])),
            ));
        }
        i = i + 1;
    }
    proof {
        assert(v@.take(v@.len() as int) =~= v@);
    }
}

/// Appends blob parameters.
fn push_blobs(params: &mut Vec<SqlParam>, v: &Vec<[u8; 32]>)
    ensures
        params_view(final(params)@) == params_view(old(params)@) + blob_params(v@.map_values(|a: [u8; 32]| a@)),
{
    let ghost start = params_view(params@);
    let ghost hs = v@.map_values(|a: [u8; 32]| a@);
    let mut i: usize = 0;
    while i < v.len()
        invariant
            i <= v.len(),
            hs == v@.map_values(|a: [u8; 32]| a@),
            params_view(params@) == start + blob_params(hs.take(i as int)),
        decreases v.len() - i,
    {
        let ghost before = params@;
        params.push(SqlParam::Blob(bytes_to_vec(&v[i])));
        proof {
            assert(params_view(params@) =~= params_view(before).push(SqlParamModel::Blob(hs[i as int])));
            assert(blob_params(hs.take(i + 1)) =~= blob_params(hs.take(i as int)).push(SqlParamModel::Blob(hs[i as int])));
        }
        i = i + 1;
    }
    proof {
        assert(hs.take(hs.len() as int) =~= hs);
    }
}

/// Appends the condition on `column` for an optional list.
fn push_opt_in(sql: String, column: &str, n: Option<usize>) -> (r: String)
    ensures
        r@ == sql@ + match n {
            Some(k) => in_clause(column@, k as nat),
            None => Seq::empty(),
        },
{
    match n {
        Some(k) => push_in_clause(sql, column, k),
        None => {
            proof {
                assert(sql@ =~= sql@ + Seq::<char>::empty());
            }
            sql
        },
    }
}

/// The length of an optional list.
fn opt_len<T>(v: &Option<Vec<T>>) -> (n: Option<usize>)
    ensures
        match *v {
            Some(x) => n matches Some(m) && m == x.len() && m as nat == x@.len(),
            None => n is None,
        },
{
    match v {
        Some(x) => Some(x.len()),
        None => None,
    }
}

/// The text of the stored-phase query (see [`query_sql`]).
fn query_text(filter: &Filter) -> (r: String)
    ensures
        r@ == query_sql(filter@),
{
    proof {
        reveal_strlit("SELECT seq, bytes FROM records WHERE 1=1");
        reveal_strlit("");
    }
    let head = concat("SELECT seq, bytes FROM records WHERE 1=1", "");
    proof {
        assert(head@ =~= "SELECT seq, bytes FROM records WHERE 1=1"@);
    }
    let s1 = push_opt_in(head, "kind", opt_len(&filter.kinds));
    let s2 = push_opt_in(s1, "author", opt_len(&filter.authors));
    let s3 = push_opt_in(s2, "id", opt_len(&filter.ids));
    let s4 = push_refs_clause(s3, filter);
    let s5 = match filter.since {
        Some(_) => concat(s4.as_str(), " AND seq > ?"),
        None => {
            proof {
                assert(s4@ =~= s4@ + Seq::<char>::empty());
            }
            s4
        },
    };
    let s6 = concat(s5.as_str(), " ORDER BY seq DESC LIMIT ?");
    proof {
        reveal_strlit("kind");
        reveal_strlit("author");
        reveal_strlit("id");
        reveal_strlit(" AND seq > ?");
        reveal_strlit(" ORDER BY seq DESC LIMIT ?");
        let f = filter@;
        assert(s1@ =~= head@ + kinds_clause(f));
        assert(s2@ =~= s1@ + authors_clause(f));
        assert(s3@ =~= s2@ + ids_clause(f));
        assert(s5@ =~= s4@ + since_clause(f));
        assert(s6@ =~= query_sql(filter@));
    }
    s6
}

/// Appends the ref condition (see [`refs_clause`]).
fn push_refs_clause(sql: String, filter: &Filter) -> (r: String)
    ensures
        r@ == sql@ + refs_clause(filter@),
{
    match &filter.refs {
        Some(v) => {
            let s = concat(sql.as_str(), " AND id IN (SELECT record_id FROM refs WHERE hash IN (");
            let s = push_placeholders(s, v.len());
            concat(s.as_str(), "))")
        },
        None => {
            proof {
                assert(sql@ =~= sql@ + Seq::<char>::empty());
            }
            sql
        },
    }
}

/// The parameters of the stored-phase query (see [`query_params`]).
fn query_values(filter: &Filter, default_limit: u64) -> (r: Vec<SqlParam>)
    ensures
        params_view(r@) == query_params(filter@, default_limit),
{
    let mut params: Vec<SqlParam> = Vec::new();
    match &filter.kinds {
        Some(v) => push_ints(&mut params, v),
        None => {},
    }
    let ghost p1 = params_view(params@);
    match &filter.authors {
        Some(v) => push_blobs(&mut params, v),
        None => {},
    }
    let ghost p2 = params_view(params@);
    match &filter.ids {
        Some(v) => push_blobs(&mut params, v),
        None => {},
    }
    let ghost p3 = params_view(params@);
    match &filter.refs {
        Some(v) => push_blobs(&mut params, v),
        None => {},
    }
    let ghost p4 = params_view(params@);
    match filter.since {
        Some(s) => params.push(SqlParam::Int(u64_to_sql(s))),
        None => {},
    }
    let ghost p5 = params_view(params@);
    let limit = match filter.limit {
        Some(l) => l,
        None => default_limit,
    };
    params.push(SqlParam::Int(u64_to_sql(limit)));
    proof {
        let f = filter@;
        assert(p1 =~= opt_ints(f.kinds));
        assert(p2 =~= p1 + opt_blobs(f.authors));
        assert(p3 =~= p2 + opt_blobs(f.ids));
        assert(p4 =~= p3 + opt_blobs(f.refs));
        assert(p5 =~= p4 + (match f.since {
            Some(s) => seq![SqlParamModel::Int(spec_sql_int(s))],
            None => Seq::<SqlParamModel>::empty(),
        }));
        assert(params_view(params@) =~= query_params(f, default_limit));
    }
    params
}

/// The statement answering a subscription's stored phase: its matching
/// records, most recent first, at most the filter's `limit` (else
/// `default_limit`) of them; `None` when the filter can match nothing.
pub fn query_plan(filter: &Filter, default_limit: u64) -> (r: Option<(String, Vec<SqlParam>)>)
    ensures
        matches_nothing(filter@) ==> r is None,
        !matches_nothing(filter@) ==> (r matches Some((sql, params)) && sql@ == query_sql(filter@)
            && params_view(params@) == query_params(filter@, default_limit)),
        r matches Some((sql, _)) ==> " ORDER BY seq DESC LIMIT ?"@.is_suffix_of(sql@),
{
    proof {
        lemma_query_most_recent_first(filter@, default_limit);
    }
    let kinds_empty = match &filter.kinds {
        Some(v) => v.len() == 0,
        None => false,
    };
    let authors_empty = match &filter.authors {
        Some(v) => v.len() == 0,
        None => false,
    };
    let ids_empty = match &filter.ids {
        Some(v) => v.len() == 0,
        None => false,
    };
    let refs_empty = match &filter.refs {
        Some(v) => v.len() == 0,
        None => false,
    };
    if kinds_empty || authors_empty || ids_empty || refs_empty {
        return None;
    }
    Some((query_text(filter), query_values(filter, default_limit)))
}

/// The oldest receipt time kept by a retention of `days` days at time
/// `now` (seconds).
pub fn retention_cutoff(now: i64, days: u32) -> (c: i64)
    requires
        now - days * 86400 >= i64::MIN,
    ensures
        c == now - days * 86400,
{
    now - (days as i64) * 86400
}

/// The statement expiring records of every kind without a retention of
/// its own: those received before `cutoff` whose kind is not one of
/// `override_kinds`.
pub fn default_expiry_plan(override_kinds: &Vec<u64>, cutoff: i64) -> (r: (String, Vec<SqlParam>))
    ensures
        override_kinds@.len() == 0 ==> r.0@ == "DELETE FROM records WHERE received_at < ?1"@,
        override_kinds@.len() > 0 ==> r.0@ == "DELETE FROM records WHERE received_at < ? AND kind NOT IN ("@
            + placeholders(override_kinds@.len()) + ")"@,
        params_view(r.1@) == seq![SqlParamModel::Int(cutoff)] + if override_kinds@.len() == 0 {
            Seq::empty()
        } else {
            int_params(override_kinds@)
        },
{
    let mut params: Vec<SqlParam> = Vec::new();
    params.push(SqlParam::Int(cutoff));
    proof {
        assert(params_view(params@) =~= seq![SqlParamModel::Int(cutoff)]);
    }
    if override_kinds.len() == 0 {
        proof {
            reveal_strlit("DELETE FROM records WHERE received_at < ?1");
            reveal_strlit("");
        }
        let sql = concat("DELETE FROM records WHERE received_at < ?1", "");
        proof {
            assert(sql@ =~= "DELETE FROM records WHERE received_at < ?1"@);
            assert(params_view(params@) =~= seq![SqlParamModel::Int(cutoff)] + Seq::empty());
        }
        return (sql, params);
    }
    proof {
        reveal_strlit("DELETE FROM records WHERE received_at < ? AND kind NOT IN (");
        reveal_strlit("");
        reveal_strlit(")");
    }
    let sql = concat("DELETE FROM records WHERE received_at < ? AND kind NOT IN (", "");
    proof {
        assert(sql@ =~= "DELETE FROM records WHERE received_at < ? AND kind NOT IN ("@);
    }
    let sql = push_placeholders(sql, override_kinds.len());
    let sql = concat(sql.as_str(), ")");
    push_ints(&mut params, override_kinds);
    (sql, params)
}

/// The stored-phase query answers most recent first, capped: its text
/// selects from the records table and ends by ordering on `seq`
/// descending with a bound limit, and the last bound parameter is the
/// filter's limit, or the default when the filter gives none.
pub proof fn lemma_query_most_recent_first(f: FilterModel, default_limit: u64)
    ensures
        "SELECT seq, bytes FROM records WHERE 1=1"@.is_prefix_of(query_sql(f)),
        " ORDER BY seq DESC LIMIT ?"@.is_suffix_of(query_sql(f)),
        query_params(f, default_limit).len() > 0,
        query_params(f, default_limit).last() == SqlParamModel::Int(spec_sql_int(
            match f.limit {
                Some(l) => l,
                None => default_limit,
            },
        )),
{
    let head = "SELECT seq, bytes FROM records WHERE 1=1"@;
    let tail = " ORDER BY seq DESC LIMIT ?"@;
    let mid = kinds_clause(f) + authors_clause(f) + ids_clause(f) + refs_clause(f) + since_clause(f);
    let q = query_sql(f);
    assert(q =~= head + mid + tail);
    assert(q.subrange(0, head.len() as int) =~= head);
    assert(q.subrange(q.len() - tail.len(), q.len() as int) =~= tail);
}

} // verus!
