//! Bytewise (lexicographic) order on byte strings, and sorting of keyed
//! entries by that order.

use vstd::prelude::*;

verus! {

/// Strict lexicographic order on byte strings (a proper prefix sorts
/// first), the order Rust's `<` gives on byte slices.
pub open spec fn lex_lt(a: Seq<u8>, b: Seq<u8>) -> bool
    decreases a.len(),
{
    if a.len() == 0 {
        b.len() > 0
    } else if b.len() == 0 {
        false
    } else if a[0] != b[0] {
        a[0] < b[0]
    } else {
        lex_lt(a.drop_first(), b.drop_first())
    }
}

/// `lex_lt` is irreflexive.
pub proof fn lemma_lex_irreflexive(a: Seq<u8>)
    ensures
        !lex_lt(a, a),
    decreases a.len(),
{
    if a.len() > 0 {
        lemma_lex_irreflexive(a.drop_first());
    }
}

/// `lex_lt` is transitive.
pub proof fn lemma_lex_transitive(a: Seq<u8>, b: Seq<u8>, c: Seq<u8>)
    requires
        lex_lt(a, b),
        lex_lt(b, c),
    ensures
        lex_lt(a, c),
    decreases a.len(),
{
    if a.len() > 0 && b.len() > 0 && c.len() > 0 && a[0] == b[0] && b[0] == c[0] {
        lemma_lex_transitive(a.drop_first(), b.drop_first(), c.drop_first());
    }
}

/// `lex_lt` is total on distinct sequences and asymmetric.
pub proof fn lemma_lex_total(a: Seq<u8>, b: Seq<u8>)
    ensures
        a != b ==> (lex_lt(a, b) || lex_lt(b, a)),
        !(lex_lt(a, b) && lex_lt(b, a)),
    decreases a.len(),
{
    if a.len() > 0 && b.len() > 0 && a[0] == b[0] {
        lemma_lex_total(a.drop_first(), b.drop_first());
        if a != b {
            assert(a =~= seq![a[0]] + a.drop_first());
            assert(b =~= seq![b[0]] + b.drop_first());
        }
    } else if a.len() == 0 && b.len() == 0 {
        assert(a =~= b);
    }
}

/// Whether `a` sorts strictly before `b`.
pub fn bytes_lt(a: &[u8], b: &[u8]) -> (res: bool)
    ensures
        res == lex_lt(a@, b@),
{
    let mut i: usize = 0;
    assert(a@.skip(0) =~= a@);
    assert(b@.skip(0) =~= b@);
    while i < a.len() && i < b.len() && a[i] == b[i]
        invariant
            i <= a.len(),
            i <= b.len(),
            lex_lt(a@, b@) == lex_lt(a@.skip(i as int), b@.skip(i as int)),
        decreases a.len() - i,
    {
        proof {
            assert(a@.skip(i as int).drop_first() =~= a@.skip(i + 1));
            assert(b@.skip(i as int).drop_first() =~= b@.skip(i + 1));
        }
        i = i + 1;
    }
    if i == a.len() {
        i < b.len()
    } else if i == b.len() {
        false
    } else {
        a[i] < b[i]
    }
}

/// Insert `p` into `s` after every entry whose key is not greater than
/// `p`'s key.
pub open spec fn insert_by_key<T>(p: (Seq<u8>, T), s: Seq<(Seq<u8>, T)>) -> Seq<(Seq<u8>, T)>
    decreases s.len(),
{
    if s.len() == 0 {
        seq![p]
    } else if lex_lt(p.0, s[0].0) {
        seq![p] + s
    } else {
        seq![s[0]] + insert_by_key(p, s.drop_first())
    }
}

/// Stable insertion sort of entries by key.
pub open spec fn sort_by_key<T>(s: Seq<(Seq<u8>, T)>) -> Seq<(Seq<u8>, T)>
    decreases s.len(),
{
    if s.len() == 0 {
        Seq::empty()
    } else {
        insert_by_key(s.last(), sort_by_key(s.drop_last()))
    }
}

/// Keys in non-decreasing order.
pub open spec fn sorted_by_key<T>(s: Seq<(Seq<u8>, T)>) -> bool {
    forall|i: int, j: int| 0 <= i < j < s.len() ==> !lex_lt(#[trigger] s[j].0, #[trigger] s[i].0)
}

/// Keys in strictly increasing order (so all keys are distinct).
pub open spec fn strictly_increasing<T>(s: Seq<(Seq<u8>, T)>) -> bool {
    forall|i: int, j: int| 0 <= i < j < s.len() ==> lex_lt(#[trigger] s[i].0, #[trigger] s[j].0)
}

/// The payloads of keyed entries, in order.
pub open spec fn payloads<T>(s: Seq<(Seq<u8>, T)>) -> Seq<T> {
    s.map_values(|p: (Seq<u8>, T)| p.1)
}

/// The keys of keyed entries, in order.
pub open spec fn keys_of<T>(s: Seq<(Seq<u8>, T)>) -> Seq<Seq<u8>> {
    s.map_values(|p: (Seq<u8>, T)| p.0)
}

/// Keyed entries with every payload replaced by its image under `f`.
pub open spec fn map_payload<T, U>(s: Seq<(Seq<u8>, T)>, f: spec_fn(T) -> U) -> Seq<(Seq<u8>, U)> {
    s.map_values(|p: (Seq<u8>, T)| (p.0, f(p.1)))
}

/// Inserting at the first position whose key is greater.
pub proof fn lemma_insert_at<T>(p: (Seq<u8>, T), s: Seq<(Seq<u8>, T)>, j: int)
    requires
        0 <= j <= s.len(),
        forall|i: int| 0 <= i < j ==> !lex_lt(p.0, #[trigger] s[i].0),
        j < s.len() ==> lex_lt(p.0, s[j].0),
    ensures
        insert_by_key(p, s) == s.take(j).push(p) + s.skip(j),
    decreases s.len(),
{
    if s.len() == 0 {
        assert(s.take(j).push(p) + s.skip(j) =~= seq![p]);
    } else if j == 0 {
        assert(s.take(j).push(p) + s.skip(j) =~= seq![p] + s);
    } else {
        let t = s.drop_first();
        assert forall|i: int| 0 <= i < j - 1 implies !lex_lt(p.0, #[trigger] t[i].0) by {
            assert(t[i] == s[i + 1]);
        }
        lemma_insert_at(p, t, j - 1);
        assert(seq![s[0]] + (t.take(j - 1).push(p) + t.skip(j - 1)) =~= s.take(j).push(p)
            + s.skip(j));
    }
}

/// Inserting into a sorted sequence keeps it sorted and adds exactly one
/// entry.
pub proof fn lemma_insert_sorted<T>(p: (Seq<u8>, T), s: Seq<(Seq<u8>, T)>)
    requires
        sorted_by_key(s),
    ensures
        sorted_by_key(insert_by_key(p, s)),
        insert_by_key(p, s).len() == s.len() + 1,
    decreases s.len(),
{
    let r = insert_by_key(p, s);
    if s.len() == 0 {
    } else if lex_lt(p.0, s[0].0) {
        assert forall|i: int, j: int| 0 <= i < j < r.len() implies !lex_lt(
            #[trigger] r[j].0,
            #[trigger] r[i].0,
        ) by {
            if i == 0 {
                lemma_lex_total(p.0, s[j - 1].0);
                if j - 1 > 0 {
                    if lex_lt(s[j - 1].0, p.0) {
                        lemma_lex_transitive(s[j - 1].0, p.0, s[0].0);
                        assert(!lex_lt(s[j - 1].0, s[0].0));
                    }
                }
            } else {
                assert(r[i] == s[i - 1]);
                assert(r[j] == s[j - 1]);
            }
        }
    } else {
        let t = s.drop_first();
        assert(sorted_by_key(t)) by {
            assert forall|i: int, j: int| 0 <= i < j < t.len() implies !lex_lt(
                #[trigger] t[j].0,
                #[trigger] t[i].0,
            ) by {
                assert(t[i] == s[i + 1] && t[j] == s[j + 1]);
            }
        }
        lemma_insert_sorted(p, t);
        let q = insert_by_key(p, t);
        assert(r =~= seq![s[0]] + q);
        assert forall|i: int, j: int| 0 <= i < j < r.len() implies !lex_lt(
            #[trigger] r[j].0,
            #[trigger] r[i].0,
        ) by {
            if i == 0 {
                // every entry of q is either p or an entry of t
                lemma_insert_member(p, t, j - 1);
                if r[j] == p {
                    lemma_lex_total(p.0, s[0].0);
                } else {
                    let k = choose|k: int| 0 <= k < t.len() && t[k] == r[j];
                    assert(s[k + 1] == t[k]);
                }
            } else {
                assert(r[i] == q[i - 1] && r[j] == q[j - 1]);
            }
        }
    }
}

/// Every entry of an insertion result is the inserted entry or an old
/// entry.
pub proof fn lemma_insert_member<T>(p: (Seq<u8>, T), s: Seq<(Seq<u8>, T)>, i: int)
    requires
        0 <= i < insert_by_key(p, s).len(),
    ensures
        insert_by_key(p, s).len() == s.len() + 1,
        insert_by_key(p, s)[i] == p || exists|k: int| 0 <= k < s.len() && s[k] == insert_by_key(p, s)[i],
    decreases s.len(),
{
    lemma_insert_len(p, s);
    if s.len() == 0 {
    } else if lex_lt(p.0, s[0].0) {
        if i > 0 {
            assert(s[i - 1] == insert_by_key(p, s)[i]);
        }
    } else {
        let t = s.drop_first();
        if i == 0 {
            assert(s[0] == insert_by_key(p, s)[i]);
        } else {
            lemma_insert_member(p, t, i - 1);
            if insert_by_key(p, t)[i - 1] != p {
                let k = choose|k: int| 0 <= k < t.len() && t[k] == insert_by_key(p, t)[i - 1];
                assert(s[k + 1] == t[k]);
            }
        }
    }
}

/// Insertion adds exactly one entry.
pub proof fn lemma_insert_len<T>(p: (Seq<u8>, T), s: Seq<(Seq<u8>, T)>)
    ensures
        insert_by_key(p, s).len() == s.len() + 1,
    decreases s.len(),
{
    if s.len() > 0 && !lex_lt(p.0, s[0].0) {
        lemma_insert_len(p, s.drop_first());
    }
}

/// The sort yields a sorted sequence of the same length.
pub proof fn lemma_sort_sorted<T>(s: Seq<(Seq<u8>, T)>)
    ensures
        sorted_by_key(sort_by_key(s)),
        sort_by_key(s).len() == s.len(),
    decreases s.len(),
{
    if s.len() > 0 {
        lemma_sort_sorted(s.drop_last());
        lemma_insert_sorted(s.last(), sort_by_key(s.drop_last()));
    }
}

/// Every entry of the sorted sequence is an entry of the input.
pub proof fn lemma_sort_member<T>(s: Seq<(Seq<u8>, T)>, i: int)
    requires
        0 <= i < sort_by_key(s).len(),
    ensures
        exists|k: int| 0 <= k < s.len() && s[k] == sort_by_key(s)[i],
    decreases s.len(),
{
    let d = s.drop_last();
    lemma_insert_member(s.last(), sort_by_key(d), i);
    if sort_by_key(s)[i] == s.last() {
        assert(s[s.len() - 1] == sort_by_key(s)[i]);
    } else {
        let k = choose|k: int| 0 <= k < sort_by_key(d).len() && sort_by_key(d)[k] == sort_by_key(s)[i];
        lemma_sort_member(d, k);
        let k2 = choose|k2: int| 0 <= k2 < d.len() && d[k2] == sort_by_key(d)[k];
        assert(s[k2] == d[k2]);
    }
}

/// Sorting a strictly increasing sequence leaves it unchanged.
pub proof fn lemma_sort_identity<T>(s: Seq<(Seq<u8>, T)>)
    requires
        strictly_increasing(s),
    ensures
        sort_by_key(s) == s,
    decreases s.len(),
{
    if s.len() > 0 {
        let d = s.drop_last();
        assert(strictly_increasing(d)) by {
            assert forall|i: int, j: int| 0 <= i < j < d.len() implies lex_lt(
                #[trigger] d[i].0,
                #[trigger] d[j].0,
            ) by {
                assert(d[i] == s[i] && d[j] == s[j]);
            }
        }
        lemma_sort_identity(d);
        assert forall|i: int| 0 <= i < d.len() implies !lex_lt(s.last().0, #[trigger] d[i].0) by {
            assert(d[i] == s[i]);
            lemma_lex_total(s[i].0, s.last().0);
        }
        lemma_insert_at(s.last(), d, d.len() as int);
        assert(d.take(d.len() as int).push(s.last()) + d.skip(d.len() as int) =~= s);
    }
}

/// Sorting only looks at keys: mapping the payloads commutes with it.
pub proof fn lemma_sort_map_payload<T, U>(s: Seq<(Seq<u8>, T)>, f: spec_fn(T) -> U)
    ensures
        sort_by_key(map_payload(s, f)) == map_payload(sort_by_key(s), f),
    decreases s.len(),
{
    if s.len() > 0 {
        let m = map_payload(s, f);
        assert(m.drop_last() =~= map_payload(s.drop_last(), f));
        lemma_sort_map_payload(s.drop_last(), f);
        lemma_insert_map_payload(s.last(), sort_by_key(s.drop_last()), f);
    }
}

proof fn lemma_insert_map_payload<T, U>(p: (Seq<u8>, T), s: Seq<(Seq<u8>, T)>, f: spec_fn(T) -> U)
    ensures
        insert_by_key((p.0, f(p.1)), map_payload(s, f)) == map_payload(insert_by_key(p, s), f),
    decreases s.len(),
{
    let m = map_payload(s, f);
    if s.len() == 0 {
        assert(map_payload(insert_by_key(p, s), f) =~= seq![(p.0, f(p.1))]);
    } else if lex_lt(p.0, s[0].0) {
        assert(map_payload(insert_by_key(p, s), f) =~= seq![(p.0, f(p.1))] + m);
    } else {
        assert(m.drop_first() =~= map_payload(s.drop_first(), f));
        lemma_insert_map_payload(p, s.drop_first(), f);
        assert(map_payload(insert_by_key(p, s), f) =~= seq![m[0]] + map_payload(
            insert_by_key(p, s.drop_first()),
            f,
        ));
    }
}

/// The keys of entries given as owned byte vectors, as sequences.
pub open spec fn key_view<T>(s: Seq<(Vec<u8>, T)>) -> Seq<(Seq<u8>, T)> {
    s.map_values(|p: (Vec<u8>, T)| (p.0@, p.1))
}

/// Stable insertion sort of entries by the bytewise order of their keys.
pub fn sort_entries<T>(v: Vec<(Vec<u8>, T)>) -> (r: Vec<(Vec<u8>, T)>)
    ensures
        key_view(r@) == sort_by_key(key_view(v@)),
{
    let ghost orig = v@;
    let mut rest = v;
    let mut out: Vec<(Vec<u8>, T)> = Vec::new();
    let mut n: usize = 0;
    let total = rest.len();
    while rest.len() > 0
        invariant
            total == orig.len(),
            n <= orig.len(),
            rest@ == orig.skip(n as int),
            key_view(out@) == sort_by_key(key_view(orig.take(n as int))),
        decreases rest.len(),
    {
        assert(n < orig.len());
        let p = rest.remove(0);
        let mut j: usize = 0;
        while j < out.len() && !bytes_lt(p.0.as_slice(), out[j].0.as_slice())
            invariant
                j <= out.len(),
                forall|i: int| 0 <= i < j ==> !lex_lt(p.0@, #[trigger] out@[i].0@),
            decreases out.len() - j,
        {
            j = j + 1;
        }
        let ghost kv_out = key_view(out@);
        proof {
            assert forall|i: int| 0 <= i < j implies !lex_lt(p.0@, #[trigger] kv_out[i].0) by {
                assert(kv_out[i].0 == out@[i].0@);
            }
            lemma_insert_at((p.0@, p.1), kv_out, j as int);
            let t = key_view(orig.take(n + 1));
            assert(t.drop_last() =~= key_view(orig.take(n as int)));
            assert(t.last() == (p.0@, p.1));
        }
        out.insert(j, p);
        proof {
            assert(key_view(out@) =~= kv_out.take(j as int).push((p.0@, p.1)) + kv_out.skip(
                j as int,
            ));
        }
        n = n + 1;
        proof {
            assert(rest@ =~= orig.skip(n as int));
        }
    }
    proof {
        assert(orig.take(n as int) =~= orig);
    }
    out
}

} // verus!
