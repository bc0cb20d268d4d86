//! Chain verification does not depend on the order of its input: a set
//! of rotation records, each paired with the time it was observed,
//! resolves to the same outcome whatever order it is supplied in.

use vstd::prelude::*;
use crate::record::{RecordModel, spec_record_id};
use crate::order::{lex_lt, lemma_lex_total, lemma_lex_irreflexive};
use crate::identity::{
    StateModel, genesis_ok, genesis_count, first_genesis, chain_result, best_of, in_class, class_of, next_child, walk,
};

verus! {

/// The records, each with its observation time.
pub open spec fn observed(rs: Seq<RecordModel>, obs: Seq<Option<i64>>) -> Seq<(RecordModel, Option<i64>)> {
    Seq::new(rs.len(), |i: int| (rs[i], obs[i]))
}

/// Two records that differ at most in their signatures.
pub open spec fn alike(a: RecordModel, b: RecordModel) -> bool {
    RecordModel { sig: a.sig, ..b } == a
}

/// Records of the list that share an id differ at most in their
/// signatures (the id covers everything else).
pub open spec fn ids_determine_content(rs: Seq<RecordModel>) -> bool {
    forall|i: int, j: int|
        0 <= i < rs.len() && 0 <= j < rs.len() && spec_record_id(#[trigger] rs[i]) == spec_record_id(#[trigger] rs[j])
            ==> alike(rs[i], rs[j])
}

/// The step that counts valid genesis records.
pub open spec fn genesis_counter() -> spec_fn(nat, (RecordModel, Option<i64>)) -> nat {
    |acc: nat, p: (RecordModel, Option<i64>)| acc + if genesis_ok(p.0) {
        1nat
    } else {
        0nat
    }
}

proof fn lemma_count_fold(rs: Seq<RecordModel>, obs: Seq<Option<i64>>, n: int)
    requires
        0 <= n <= rs.len(),
        rs.len() == obs.len(),
    ensures
        genesis_count(rs, n) == observed(rs, obs).subrange(0, n).fold_left(0nat, genesis_counter()),
    decreases n,
{
    let f = genesis_counter();
    if n > 0 {
        lemma_count_fold(rs, obs, n - 1);
        let s = observed(rs, obs).subrange(0, n);
        assert(s.drop_last() =~= observed(rs, obs).subrange(0, n - 1));
        assert(s.last() == (rs[n - 1], obs[n - 1]));
    } else {
        assert(observed(rs, obs).subrange(0, 0) =~= Seq::<(RecordModel, Option<i64>)>::empty());
    }
}

/// The number of valid genesis records does not depend on the order.
proof fn lemma_count_same(rs1: Seq<RecordModel>, obs1: Seq<Option<i64>>, rs2: Seq<RecordModel>, obs2: Seq<Option<i64>>)
    requires
        rs1.len() == obs1.len(),
        rs2.len() == obs2.len(),
        observed(rs1, obs1).to_multiset() == observed(rs2, obs2).to_multiset(),
    ensures
        genesis_count(rs1, rs1.len() as int) == genesis_count(rs2, rs2.len() as int),
{
    let f = genesis_counter();
    lemma_count_fold(rs1, obs1, rs1.len() as int);
    lemma_count_fold(rs2, obs2, rs2.len() as int);
    assert(observed(rs1, obs1).subrange(0, rs1.len() as int) =~= observed(rs1, obs1));
    assert(observed(rs2, obs2).subrange(0, rs2.len() as int) =~= observed(rs2, obs2));
    assert(vstd::seq_lib::commutative_foldl(f));
    vstd::seq_lib::lemma_fold_left_permutation(observed(rs1, obs1), observed(rs2, obs2), f, 0nat);
}

/// Two valid genesis records at different places make the count at
/// least two.
proof fn lemma_two_genesis(rs: Seq<RecordModel>, i: int, j: int, n: int)
    requires
        0 <= i < j < n <= rs.len(),
        genesis_ok(rs[i]),
        genesis_ok(rs[j]),
    ensures
        genesis_count(rs, n) >= 2,
    decreases n,
{
    if j < n - 1 {
        lemma_two_genesis(rs, i, j, n - 1);
    } else {
        lemma_one_genesis(rs, i, n - 1);
    }
}

proof fn lemma_one_genesis(rs: Seq<RecordModel>, i: int, n: int)
    requires
        0 <= i < n <= rs.len(),
        genesis_ok(rs[i]),
    ensures
        genesis_count(rs, n) >= 1,
    decreases n,
{
    if i < n - 1 {
        lemma_one_genesis(rs, i, n - 1);
    }
}

/// With a single valid genesis, the first one is the only one.
proof fn lemma_first_is_only(rs: Seq<RecordModel>, k: int, n: int)
    requires
        0 <= k < n <= rs.len(),
        genesis_ok(rs[k]),
        genesis_count(rs, n) == 1,
    ensures
        first_genesis(rs, n) == k,
    decreases n,
{
    if k < n - 1 {
        if genesis_ok(rs[n - 1]) {
            lemma_two_genesis(rs, k, n - 1, n);
        }
        lemma_first_is_only(rs, k, n - 1);
    } else {
        if genesis_count(rs, n - 1) > 0 {
            crate::identity::lemma_first_genesis_ok(rs, n - 1);
            lemma_two_genesis(rs, first_genesis(rs, n - 1), k, n);
        }
    }
}

/// What the best record of a class is: none when the class is empty,
/// else one of the class with no lower id in it.
proof fn lemma_best_of(rs: Seq<RecordModel>, obs: Seq<Option<i64>>, now: i64, st: StateModel, cls: int, n: int)
    requires
        0 <= n <= rs.len(),
        rs.len() == obs.len(),
    ensures
        best_of(rs, obs, now, st, cls, n) is None ==> forall|k: int| 0 <= k < n ==> !#[trigger] in_class(rs, obs, now, st, cls, k),
        best_of(rs, obs, now, st, cls, n) matches Some(b) ==> {
            &&& 0 <= b < n
            &&& in_class(rs, obs, now, st, cls, b)
            &&& forall|k: int|
                0 <= k < n && #[trigger] in_class(rs, obs, now, st, cls, k) ==> !lex_lt(
                    spec_record_id(rs[k]),
                    spec_record_id(rs[b]),
                )
        },
    decreases n,
{
    if n > 0 {
        lemma_best_of(rs, obs, now, st, cls, n - 1);
        let b = best_of(rs, obs, now, st, cls, n - 1);
        let r = best_of(rs, obs, now, st, cls, n);
        if let Some(x) = r {
            if x == n - 1 && b is Some {
                assert forall|k: int|
                    0 <= k < n && #[trigger] in_class(rs, obs, now, st, cls, k) implies !lex_lt(
                    spec_record_id(rs[k]),
                    spec_record_id(rs[x]),
                ) by {
                    if k < n - 1 {
                        if lex_lt(spec_record_id(rs[k]), spec_record_id(rs[x])) {
                            crate::order::lemma_lex_transitive(
                                spec_record_id(rs[k]),
                                spec_record_id(rs[x]),
                                spec_record_id(rs[b->0]),
                            );
                        }
                    } else {
                        lemma_lex_irreflexive(spec_record_id(rs[x]));
                    }
                }
            } else if x == n - 1 {
                lemma_lex_irreflexive(spec_record_id(rs[x]));
            } else {
                assert forall|k: int|
                    0 <= k < n && #[trigger] in_class(rs, obs, now, st, cls, k) implies !lex_lt(
                    spec_record_id(rs[k]),
                    spec_record_id(rs[x]),
                ) by {
                    if k == n - 1 {
                    }
                }
            }
        }
    }
}

/// Class membership moves with its record and observation.
proof fn lemma_class_moves(
    rs1: Seq<RecordModel>,
    obs1: Seq<Option<i64>>,
    rs2: Seq<RecordModel>,
    obs2: Seq<Option<i64>>,
    now: i64,
    st: StateModel,
    cls: int,
    k: int,
) -> (k2: int)
    requires
        rs1.len() == obs1.len(),
        rs2.len() == obs2.len(),
        observed(rs1, obs1).to_multiset() == observed(rs2, obs2).to_multiset(),
        0 <= k < rs1.len(),
    ensures
        0 <= k2 < rs2.len(),
        rs2[k2] == rs1[k],
        in_class(rs1, obs1, now, st, cls, k) == in_class(rs2, obs2, now, st, cls, k2),
{
    broadcast use vstd::seq_lib::group_to_multiset_ensures;

    let a = observed(rs1, obs1);
    let b = observed(rs2, obs2);
    assert(a[k] == (rs1[k], obs1[k]));
    assert(a.contains(a[k]));
    assert(a.to_multiset().count(a[k]) > 0);
    assert(b.contains(a[k]));
    let k2 = choose|j: int| 0 <= j < b.len() && b[j] == a[k];
    assert(b[k2] == (rs2[k2], obs2[k2]));
    k2
}

/// The best record of a class is the same record in either order.
proof fn lemma_best_same(
    rs1: Seq<RecordModel>,
    obs1: Seq<Option<i64>>,
    rs2: Seq<RecordModel>,
    obs2: Seq<Option<i64>>,
    now: i64,
    st: StateModel,
    cls: int,
)
    requires
        rs1.len() == obs1.len(),
        rs2.len() == obs2.len(),
        observed(rs1, obs1).to_multiset() == observed(rs2, obs2).to_multiset(),
        ids_determine_content(rs1),
    ensures
        best_of(rs1, obs1, now, st, cls, rs1.len() as int) is None <==> best_of(
            rs2,
            obs2,
            now,
            st,
            cls,
            rs2.len() as int,
        ) is None,
        best_of(rs1, obs1, now, st, cls, rs1.len() as int) matches Some(x) ==> (best_of(
            rs2,
            obs2,
            now,
            st,
            cls,
            rs2.len() as int,
        ) matches Some(y) && alike(rs1[x], rs2[y]) && spec_record_id(rs1[x]) == spec_record_id(rs2[y])),
{
    let n1 = rs1.len() as int;
    let n2 = rs2.len() as int;
    lemma_best_of(rs1, obs1, now, st, cls, n1);
    lemma_best_of(rs2, obs2, now, st, cls, n2);
    let b1 = best_of(rs1, obs1, now, st, cls, n1);
    let b2 = best_of(rs2, obs2, now, st, cls, n2);
    if let Some(x) = b1 {
        let k2 = lemma_class_moves(rs1, obs1, rs2, obs2, now, st, cls, x);
        assert(in_class(rs2, obs2, now, st, cls, k2));
    }
    if let Some(y) = b2 {
        let k1 = lemma_class_moves(rs2, obs2, rs1, obs1, now, st, cls, y);
        assert(in_class(rs1, obs1, now, st, cls, k1));
    }
    if let (Some(x), Some(y)) = (b1, b2) {
        let k2 = lemma_class_moves(rs1, obs1, rs2, obs2, now, st, cls, x);
        let k1 = lemma_class_moves(rs2, obs2, rs1, obs1, now, st, cls, y);
        assert(!lex_lt(spec_record_id(rs2[k2]), spec_record_id(rs2[y])));
        assert(!lex_lt(spec_record_id(rs1[k1]), spec_record_id(rs1[x])));
        lemma_lex_total(spec_record_id(rs1[x]), spec_record_id(rs2[y]));
        assert(spec_record_id(rs1[k1]) == spec_record_id(rs1[x]));
        assert(alike(rs1[k1], rs1[x]));
    }
}

/// The next child is the same record in either order.
proof fn lemma_next_same(
    rs1: Seq<RecordModel>,
    obs1: Seq<Option<i64>>,
    rs2: Seq<RecordModel>,
    obs2: Seq<Option<i64>>,
    now: i64,
    st: StateModel,
)
    requires
        rs1.len() == obs1.len(),
        rs2.len() == obs2.len(),
        observed(rs1, obs1).to_multiset() == observed(rs2, obs2).to_multiset(),
        ids_determine_content(rs1),
    ensures
        next_child(rs1, obs1, now, st) is None <==> next_child(rs2, obs2, now, st) is None,
        next_child(rs1, obs1, now, st) matches Some(x) ==> (next_child(rs2, obs2, now, st) matches Some(y)
            && alike(rs1[x], rs2[y]) && spec_record_id(rs1[x]) == spec_record_id(rs2[y])),
{
    lemma_best_same(rs1, obs1, rs2, obs2, now, st, 0);
    lemma_best_same(rs1, obs1, rs2, obs2, now, st, 1);
    lemma_best_same(rs1, obs1, rs2, obs2, now, st, 2);
}

/// The walk reaches the same state in either order.
proof fn lemma_walk_same(
    rs1: Seq<RecordModel>,
    obs1: Seq<Option<i64>>,
    rs2: Seq<RecordModel>,
    obs2: Seq<Option<i64>>,
    now: i64,
    st: StateModel,
    fuel: nat,
)
    requires
        rs1.len() == obs1.len(),
        rs2.len() == obs2.len(),
        observed(rs1, obs1).to_multiset() == observed(rs2, obs2).to_multiset(),
        ids_determine_content(rs1),
    ensures
        walk(rs1, obs1, now, st, fuel) == walk(rs2, obs2, now, st, fuel),
    decreases fuel,
{
    if fuel > 0 {
        lemma_next_same(rs1, obs1, rs2, obs2, now, st);
        if let Some(x) = next_child(rs1, obs1, now, st) {
            let y = next_child(rs2, obs2, now, st)->0;
            assert(crate::identity::advance(st, rs1[x]) == crate::identity::advance(st, rs2[y]));
            lemma_walk_same(rs1, obs1, rs2, obs2, now, crate::identity::advance(st, rs1[x]), (fuel - 1) as nat);
        }
    }
}

proof fn lemma_len_same(rs1: Seq<RecordModel>, obs1: Seq<Option<i64>>, rs2: Seq<RecordModel>, obs2: Seq<Option<i64>>)
    requires
        rs1.len() == obs1.len(),
        rs2.len() == obs2.len(),
        observed(rs1, obs1).to_multiset() == observed(rs2, obs2).to_multiset(),
    ensures
        rs1.len() == rs2.len(),
{
    broadcast use vstd::seq_lib::group_to_multiset_ensures;

    assert(observed(rs1, obs1).to_multiset().len() == observed(rs1, obs1).len());
    assert(observed(rs2, obs2).to_multiset().len() == observed(rs2, obs2).len());
}

/// Chain verification is independent of input order: the same records,
/// each with the same observation time, in any order, give the same
/// outcome (the same error, or the same identity state), provided
/// records that share an id differ at most in their signatures.
pub proof fn lemma_chain_order_independent(
    rs1: Seq<RecordModel>,
    obs1: Seq<Option<i64>>,
    rs2: Seq<RecordModel>,
    obs2: Seq<Option<i64>>,
    now: i64,
)
    requires
        rs1.len() == obs1.len(),
        rs2.len() == obs2.len(),
        observed(rs1, obs1).to_multiset() == observed(rs2, obs2).to_multiset(),
        ids_determine_content(rs1),
    ensures
        chain_result(rs1, obs1, now) == chain_result(rs2, obs2, now),
{
    lemma_count_same(rs1, obs1, rs2, obs2);
    lemma_len_same(rs1, obs1, rs2, obs2);
    let n = rs1.len() as int;
    let c = genesis_count(rs1, n);
    if c == 1 {
        crate::identity::lemma_first_genesis_ok(rs1, n);
        let g1 = first_genesis(rs1, n);
        let k2 = lemma_class_moves(rs1, obs1, rs2, obs2, now, crate::identity::genesis_state(rs1[g1]), 0, g1);
        lemma_first_is_only(rs2, k2, n);
        lemma_walk_same(rs1, obs1, rs2, obs2, now, crate::identity::genesis_state(rs1[g1]), rs1.len());
    }
}

/// A signing or recovery child of the state's head.
pub open spec fn signing_or_recovery(rs: Seq<RecordModel>, obs: Seq<Option<i64>>, now: i64, st: StateModel, i: int) -> bool {
    in_class(rs, obs, now, st, 0, i) || in_class(rs, obs, now, st, 1, i)
}

/// With a contest window of 0 recovery has no precedence: the chain
/// moves to a signing or recovery child of the head whose id is no
/// greater than that of any other signing or recovery child, and it
/// stops only where the head has no such child.
#[verifier::spinoff_prover]
#[verifier::rlimit(60)]
pub proof fn lemma_window_zero_lowest_id(rs: Seq<RecordModel>, obs: Seq<Option<i64>>, now: i64, st: StateModel)
    requires
        rs.len() == obs.len(),
        st.contest_window == 0,
    ensures
        next_child(rs, obs, now, st) is None <==> forall|j: int|
            0 <= j < rs.len() ==> !#[trigger] signing_or_recovery(rs, obs, now, st, j),
        next_child(rs, obs, now, st) matches Some(c) ==> {
            &&& 0 <= c < rs.len()
            &&& signing_or_recovery(rs, obs, now, st, c)
            &&& forall|j: int|
                0 <= j < rs.len() && #[trigger] signing_or_recovery(rs, obs, now, st, j) ==> !lex_lt(
                    spec_record_id(rs[j]),
                    spec_record_id(rs[c]),
                )
        },
{
    let n = rs.len() as int;
    lemma_best_of(rs, obs, now, st, 0, n);
    lemma_best_of(rs, obs, now, st, 1, n);
    let sb = best_of(rs, obs, now, st, 0, n);
    let rb = best_of(rs, obs, now, st, 1, n);
    if let Some(a) = sb {
        assert(signing_or_recovery(rs, obs, now, st, a));
    }
    if let Some(b) = rb {
        assert(signing_or_recovery(rs, obs, now, st, b));
    }
    if sb is None && rb is None {
        assert forall|j: int| 0 <= j < rs.len() implies !#[trigger] signing_or_recovery(rs, obs, now, st, j) by {
            assert(!in_class(rs, obs, now, st, 0, j));
            assert(!in_class(rs, obs, now, st, 1, j));
        }
    }
    if let (Some(a), Some(b)) = (sb, rb) {
        let ia = spec_record_id(rs[a]);
        let ib = spec_record_id(rs[b]);
        lemma_lex_total(ia, ib);
        assert forall|j: int| 0 <= j < rs.len() && #[trigger] signing_or_recovery(rs, obs, now, st, j) implies !lex_lt(
            spec_record_id(rs[j]),
            spec_record_id(rs[next_child(rs, obs, now, st)->0]),
        ) by {
            let ij = spec_record_id(rs[j]);
            if lex_lt(ib, ia) {
                if in_class(rs, obs, now, st, 0, j) && lex_lt(ij, ib) {
                    crate::order::lemma_lex_transitive(ij, ib, ia);
                }
            } else {
                if in_class(rs, obs, now, st, 1, j) && lex_lt(ij, ia) {
                    if ia == ib {
                    } else {
                        crate::order::lemma_lex_transitive(ij, ia, ib);
                    }
                }
            }
        }
    }
}

/// With a positive contest window, precedence goes by class: a final
/// signing child if there is one, else a recovery child, else a signing
/// child, each time one with the lowest id of its class.
pub proof fn lemma_window_precedence(rs: Seq<RecordModel>, obs: Seq<Option<i64>>, now: i64, st: StateModel)
    requires
        rs.len() == obs.len(),
        st.contest_window != 0,
    ensures
        next_child(rs, obs, now, st) matches Some(c) ==> exists|cls: int| {
            &&& 0 <= cls <= 2
            &&& 0 <= c < rs.len()
            &&& in_class(rs, obs, now, st, cls, c)
            &&& (forall|j: int| 0 <= j < rs.len() && #[trigger] in_class(rs, obs, now, st, cls, j) ==> !lex_lt(
                spec_record_id(rs[j]),
                spec_record_id(rs[c]),
            ))
            &&& (cls != 2 ==> forall|j: int| 0 <= j < rs.len() ==> !#[trigger] in_class(rs, obs, now, st, 2, j))
            &&& (cls == 0 ==> forall|j: int| 0 <= j < rs.len() ==> !#[trigger] in_class(rs, obs, now, st, 1, j))
        },
        next_child(rs, obs, now, st) is None ==> forall|j: int| 0 <= j < rs.len() ==> !#[trigger] in_class(
            rs,
            obs,
            now,
            st,
            0,
            j,
        ) && !in_class(rs, obs, now, st, 1, j),
{
    let n = rs.len() as int;
    lemma_best_of(rs, obs, now, st, 0, n);
    lemma_best_of(rs, obs, now, st, 1, n);
    lemma_best_of(rs, obs, now, st, 2, n);
    if let Some(c) = next_child(rs, obs, now, st) {
        if best_of(rs, obs, now, st, 2, n) is Some {
            assert(in_class(rs, obs, now, st, 2, c));
        } else if best_of(rs, obs, now, st, 1, n) is Some {
            assert(in_class(rs, obs, now, st, 1, c));
        } else {
            assert(in_class(rs, obs, now, st, 0, c));
        }
    }
}

} // verus!
