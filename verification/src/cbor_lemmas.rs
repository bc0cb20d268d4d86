//! Facts about the CBOR head encoding and the value encoding: every
//! encoding is non-empty, its first byte names the value's major type,
//! and no encoding is a proper prefix of another (so a byte string
//! holds at most one encoded value at any position).

use vstd::prelude::*;
use vstd::utf8::*;
use crate::codec::{Model, head, be2, be4, be8, enc, enc_list, enc_entries};
use crate::text::lemma_encode_utf8_injective;

verus! {

/// `p` occurs in `s` starting at index `i`.
pub open spec fn prefix_at(p: Seq<u8>, s: Seq<u8>, i: int) -> bool {
    0 <= i && i + p.len() <= s.len() && s.subrange(i, i + p.len()) == p
}

/// The value of two big-endian bytes.
pub open spec fn be2_val(b0: u8, b1: u8) -> int {
    b0 as int * 0x100 + b1 as int
}

/// The value of four big-endian bytes.
pub open spec fn be4_val(b: Seq<u8>) -> int {
    b[0] as int * 0x1000000 + b[1] as int * 0x10000 + b[2] as int * 0x100 + b[3] as int
}

/// The value of eight big-endian bytes.
pub open spec fn be8_val(b: Seq<u8>) -> int {
    b[0] as int * 0x100000000000000 + b[1] as int * 0x1000000000000 + b[2] as int
        * 0x10000000000 + b[3] as int * 0x100000000 + b[4] as int * 0x1000000 + b[5] as int
        * 0x10000 + b[6] as int * 0x100 + b[7] as int
}

pub proof fn lemma_be2(x: int)
    requires
        0 <= x <= 0xffff,
    ensures
        be2_val(be2(x)[0], be2(x)[1]) == x,
        be2(x).len() == 2,
{
}

pub proof fn lemma_be2_bytes(b0: u8, b1: u8)
    ensures
        be2(be2_val(b0, b1)) == seq![b0, b1],
        0 <= be2_val(b0, b1) <= 0xffff,
{
    assert(be2(be2_val(b0, b1)) =~= seq![b0, b1]);
}

pub proof fn lemma_be4(x: int)
    requires
        0 <= x <= 0xffff_ffff,
    ensures
        be4_val(be4(x)) == x,
        be4(x).len() == 4,
{
}

pub proof fn lemma_be4_bytes(b: Seq<u8>)
    requires
        b.len() == 4,
    ensures
        be4(be4_val(b)) == b,
        0 <= be4_val(b) <= 0xffff_ffff,
{
    let (b0, b1, b2, b3) = (b[0], b[1], b[2], b[3]);
    assert({
        &&& ((b0 as u64) * 0x1000000 + (b1 as u64) * 0x10000 + (b2 as u64) * 0x100 + (b3 as u64))
            / 0x1000000 == b0 as u64
        &&& (((b0 as u64) * 0x1000000 + (b1 as u64) * 0x10000 + (b2 as u64) * 0x100 + (b3 as u64))
            / 0x10000) % 0x100 == b1 as u64
        &&& (((b0 as u64) * 0x1000000 + (b1 as u64) * 0x10000 + (b2 as u64) * 0x100 + (b3 as u64))
            / 0x100) % 0x100 == b2 as u64
        &&& ((b0 as u64) * 0x1000000 + (b1 as u64) * 0x10000 + (b2 as u64) * 0x100 + (b3 as u64))
            % 0x100 == b3 as u64
    }) by (bit_vector);
    assert(be4(be4_val(b)) =~= b);
}

pub proof fn lemma_be8(x: int)
    requires
        0 <= x <= 0xffff_ffff_ffff_ffff,
    ensures
        be8_val(be8(x)) == x,
        be8(x).len() == 8,
{
    let y = x as u64;
    assert((y / 0x100000000000000) * 0x100000000000000 + ((y / 0x1000000000000) % 0x100)
        * 0x1000000000000 + ((y / 0x10000000000) % 0x100) * 0x10000000000 + ((y / 0x100000000)
        % 0x100) * 0x100000000 + ((y / 0x1000000) % 0x100) * 0x1000000 + ((y / 0x10000) % 0x100)
        * 0x10000 + ((y / 0x100) % 0x100) * 0x100 + (y % 0x100) == y) by (bit_vector);
}

pub open spec fn bv8_val(b0: u8, b1: u8, b2: u8, b3: u8, b4: u8, b5: u8, b6: u8, b7: u8) -> u64 {
    ((b0 as u64) * 0x100000000000000 + (b1 as u64) * 0x1000000000000 + (b2 as u64)
        * 0x10000000000 + (b3 as u64) * 0x100000000 + (b4 as u64) * 0x1000000 + (b5 as u64)
        * 0x10000 + (b6 as u64) * 0x100 + (b7 as u64)) as u64
}

pub proof fn lemma_be8_bytes(b: Seq<u8>)
    requires
        b.len() == 8,
    ensures
        be8(be8_val(b)) == b,
        0 <= be8_val(b) <= 0xffff_ffff_ffff_ffff,
{
    let (b0, b1, b2, b3, b4, b5, b6, b7) = (b[0], b[1], b[2], b[3], b[4], b[5], b[6], b[7]);
    assert(be8_val(b) == (b0 as u64) * 0x100000000000000 + (b1 as u64) * 0x1000000000000 + (b2 as u64)
        * 0x10000000000 + (b3 as u64) * 0x100000000 + (b4 as u64) * 0x1000000 + (b5 as u64)
        * 0x10000 + (b6 as u64) * 0x100 + (b7 as u64));
    assert((b0 as u64) * 0x100000000000000 + (b1 as u64) * 0x1000000000000 + (b2 as u64)
        * 0x10000000000 + (b3 as u64) * 0x100000000 + (b4 as u64) * 0x1000000 + (b5 as u64)
        * 0x10000 + (b6 as u64) * 0x100 + (b7 as u64) <= 0xffff_ffff_ffff_ffff) by (bit_vector);
    let v = bv8_val(b0, b1, b2, b3, b4, b5, b6, b7);
    assert({
        &&& v / 0x100000000000000 == b0 as u64
        &&& (v / 0x1000000000000) % 0x100 == b1 as u64
        &&& (v / 0x10000000000) % 0x100 == b2 as u64
        &&& (v / 0x100000000) % 0x100 == b3 as u64
        &&& (v / 0x1000000) % 0x100 == b4 as u64
        &&& (v / 0x10000) % 0x100 == b5 as u64
        &&& (v / 0x100) % 0x100 == b6 as u64
        &&& v % 0x100 == b7 as u64
    }) by (bit_vector)
        requires
            v == bv8_val(b0, b1, b2, b3, b4, b5, b6, b7),
    ;
    assert(be8(be8_val(b)) =~= b);
}


/// Every length in the model fits the 64-bit CBOR argument.
pub open spec fn sized(m: Model) -> bool
    decreases m,
{
    match m {
        Model::Bytes(b) => b.len() <= u64::MAX,
        Model::Text(t) => encode_utf8(t).len() <= u64::MAX,
        Model::Array(items) => items.len() <= u64::MAX && forall|i: int|
            0 <= i < items.len() ==> sized(#[trigger] items[i]),
        Model::Dict(es) => es.len() <= u64::MAX && forall|i: int|
            0 <= i < es.len() ==> sized(#[trigger] es[i].0) && sized(es[i].1),
        _ => true,
    }
}

/// The additional-info bits the shortest head uses for an argument.
pub open spec fn head_low(arg: u64) -> u8 {
    if arg < 24 {
        arg as u8
    } else if arg <= 0xff {
        24
    } else if arg <= 0xffff {
        25
    } else if arg <= 0xffff_ffff {
        26
    } else {
        27
    }
}

/// The length of the shortest head for an argument.
pub open spec fn head_len(arg: u64) -> int {
    if arg < 24 {
        1
    } else if arg <= 0xff {
        2
    } else if arg <= 0xffff {
        3
    } else if arg <= 0xffff_ffff {
        5
    } else {
        9
    }
}

pub proof fn lemma_head_shape(major: u8, arg: u64)
    requires
        major < 8,
    ensures
        head(major, arg).len() == head_len(arg),
        head(major, arg)[0] == major * 32 + head_low(arg),
        head_low(arg) < 28,
{
}

/// Two shortest heads found at the same place are the same head.
pub proof fn lemma_head_unique(m1: u8, a1: u64, m2: u8, a2: u64, s: Seq<u8>, i: int)
    requires
        m1 < 8,
        m2 < 8,
        prefix_at(head(m1, a1), s, i),
        prefix_at(head(m2, a2), s, i),
    ensures
        m1 == m2,
        a1 == a2,
{
    lemma_head_shape(m1, a1);
    lemma_head_shape(m2, a2);
    let h1 = head(m1, a1);
    let h2 = head(m2, a2);
    assert(h1[0] == s[i] && h2[0] == s[i]) by {
        assert(s.subrange(i, i + h1.len())[0] == s[i]);
        assert(s.subrange(i, i + h2.len())[0] == s[i]);
    }
    assert(m1 == m2 && head_low(a1) == head_low(a2));
    if a1 < 24 {
    } else if a1 <= 0xff {
        assert(h1[1] == s[i + 1] && h2[1] == s[i + 1]) by {
            assert(s.subrange(i, i + h1.len())[1] == s[i + 1]);
            assert(s.subrange(i, i + h2.len())[1] == s[i + 1]);
        }
    } else if a1 <= 0xffff {
        assert(h1.subrange(1, 3) == s.subrange(i + 1, i + 3)) by {
            assert(h1.subrange(1, 3) =~= s.subrange(i, i + 3).subrange(1, 3));
            assert(s.subrange(i, i + 3).subrange(1, 3) =~= s.subrange(i + 1, i + 3));
        }
        assert(h2.subrange(1, 3) == s.subrange(i + 1, i + 3)) by {
            assert(h2.subrange(1, 3) =~= s.subrange(i, i + 3).subrange(1, 3));
            assert(s.subrange(i, i + 3).subrange(1, 3) =~= s.subrange(i + 1, i + 3));
        }
        assert(h1.subrange(1, 3) =~= be2(a1 as int));
        assert(h2.subrange(1, 3) =~= be2(a2 as int));
        lemma_be2(a1 as int);
        lemma_be2(a2 as int);
    } else if a1 <= 0xffff_ffff {
        assert(h1.subrange(1, 5) == s.subrange(i + 1, i + 5)) by {
            assert(h1.subrange(1, 5) =~= s.subrange(i, i + 5).subrange(1, 5));
            assert(s.subrange(i, i + 5).subrange(1, 5) =~= s.subrange(i + 1, i + 5));
        }
        assert(h2.subrange(1, 5) == s.subrange(i + 1, i + 5)) by {
            assert(h2.subrange(1, 5) =~= s.subrange(i, i + 5).subrange(1, 5));
            assert(s.subrange(i, i + 5).subrange(1, 5) =~= s.subrange(i + 1, i + 5));
        }
        assert(h1.subrange(1, 5) =~= be4(a1 as int));
        assert(h2.subrange(1, 5) =~= be4(a2 as int));
        lemma_be4(a1 as int);
        lemma_be4(a2 as int);
    } else {
        assert(h1.subrange(1, 9) == s.subrange(i + 1, i + 9)) by {
            assert(h1.subrange(1, 9) =~= s.subrange(i, i + 9).subrange(1, 9));
            assert(s.subrange(i, i + 9).subrange(1, 9) =~= s.subrange(i + 1, i + 9));
        }
        assert(h2.subrange(1, 9) == s.subrange(i + 1, i + 9)) by {
            assert(h2.subrange(1, 9) =~= s.subrange(i, i + 9).subrange(1, 9));
            assert(s.subrange(i, i + 9).subrange(1, 9) =~= s.subrange(i + 1, i + 9));
        }
        assert(h1.subrange(1, 9) =~= be8(a1 as int));
        assert(h2.subrange(1, 9) =~= be8(a2 as int));
        lemma_be8(a1 as int);
        lemma_be8(a2 as int);
    }
}

/// The major type a model's encoding announces in its first byte
/// (7 for booleans and null).
pub open spec fn major_of(m: Model) -> u8 {
    match m {
        Model::Uint(_) => 0,
        Model::Nint(_) => 1,
        Model::Bytes(_) => 2,
        Model::Text(_) => 3,
        Model::Array(_) => 4,
        Model::Dict(_) => 5,
        _ => 7,
    }
}

/// The argument of a model's head (for majors 0 to 5).
pub open spec fn arg_of(m: Model) -> u64 {
    match m {
        Model::Uint(n) => n,
        Model::Nint(n) => n,
        Model::Bytes(b) => b.len() as u64,
        Model::Text(t) => encode_utf8(t).len() as u64,
        Model::Array(items) => items.len() as u64,
        Model::Dict(es) => es.len() as u64,
        _ => 0,
    }
}

/// The bytes after a model's head.
pub open spec fn body_of(m: Model) -> Seq<u8> {
    match m {
        Model::Bytes(b) => b,
        Model::Text(t) => encode_utf8(t),
        Model::Array(items) => enc_list(items),
        Model::Dict(es) => enc_entries(es),
        _ => Seq::empty(),
    }
}

/// A model's encoding is its head followed by its body (or a single
/// simple-value byte for booleans and null).
pub proof fn lemma_enc_shape(m: Model)
    ensures
        major_of(m) < 6 ==> enc(m) == head(major_of(m), arg_of(m)) + body_of(m),
        major_of(m) == 7 ==> enc(m).len() == 1 && (enc(m)[0] == 0xf4 || enc(m)[0] == 0xf5 || enc(
            m,
        )[0] == 0xf6),
        m == Model::Null <==> (major_of(m) == 7 && enc(m)[0] == 0xf6),
        m == Model::Bool(false) <==> (major_of(m) == 7 && enc(m)[0] == 0xf4),
        m == Model::Bool(true) <==> (major_of(m) == 7 && enc(m)[0] == 0xf5),
        enc(m).len() >= 1,
        major_of(m) < 6 ==> enc(m)[0] == major_of(m) * 32 + head_low(arg_of(m)),
{
    if major_of(m) < 6 {
        lemma_head_shape(major_of(m), arg_of(m));
    }
}

/// A list's encoding is its first element's followed by the rest's.
pub proof fn lemma_enc_list_front(l: Seq<Model>)
    requires
        l.len() > 0,
    ensures
        enc_list(l) == enc(l[0]) + enc_list(l.drop_first()),
    decreases l.len(),
{
    if l.len() == 1 {
        assert(l.drop_first() =~= Seq::<Model>::empty());
        assert(l.drop_last() =~= Seq::<Model>::empty());
        assert(enc_list(l.drop_last()) =~= Seq::<u8>::empty());
        assert(l.last() == l[0]);
        assert(enc_list(l) =~= enc(l[0]));
        assert(enc_list(l.drop_first()) =~= Seq::<u8>::empty());
    } else {
        lemma_enc_list_front(l.drop_last());
        assert(l.drop_last().drop_first() =~= l.drop_first().drop_last());
        assert(l.drop_first().last() == l.last());
        assert(enc_list(l) =~= enc(l[0]) + enc_list(l.drop_first()));
    }
}

/// An entry list's encoding is its first entry's key and value followed
/// by the rest's.
pub proof fn lemma_enc_entries_front(l: Seq<(Model, Model)>)
    requires
        l.len() > 0,
    ensures
        enc_entries(l) == enc(l[0].0) + enc(l[0].1) + enc_entries(l.drop_first()),
    decreases l.len(),
{
    if l.len() == 1 {
        assert(l.drop_first() =~= Seq::<(Model, Model)>::empty());
        assert(l.drop_last() =~= Seq::<(Model, Model)>::empty());
        assert(enc_entries(l.drop_last()) =~= Seq::<u8>::empty());
        assert(l.last() == l[0]);
        assert(enc_entries(l) =~= enc(l[0].0) + enc(l[0].1));
        assert(enc_entries(l.drop_first()) =~= Seq::<u8>::empty());
    } else {
        lemma_enc_entries_front(l.drop_last());
        assert(l.drop_last().drop_first() =~= l.drop_first().drop_last());
        assert(l.drop_first().last() == l.last());
        assert(enc_entries(l) =~= enc(l[0].0) + enc(l[0].1) + enc_entries(l.drop_first()));
    }
}

/// A list's encoding splits at any index.
pub proof fn lemma_enc_list_split(l: Seq<Model>, k: int)
    requires
        0 <= k <= l.len(),
    ensures
        enc_list(l) == enc_list(l.take(k)) + enc_list(l.skip(k)),
    decreases l.len(),
{
    if k == l.len() {
        assert(l.take(k) =~= l);
        assert(l.skip(k) =~= Seq::<Model>::empty());
        assert(enc_list(l) =~= enc_list(l.take(k)) + enc_list(l.skip(k)));
    } else {
        lemma_enc_list_split(l.drop_last(), k);
        assert(l.drop_last().take(k) =~= l.take(k));
        assert(l.skip(k).drop_last() =~= l.drop_last().skip(k));
        assert(l.skip(k).last() == l.last());
        assert(enc_list(l) =~= enc_list(l.take(k)) + enc_list(l.skip(k)));
    }
}

/// An entry list's encoding splits at any index.
pub proof fn lemma_enc_entries_split(l: Seq<(Model, Model)>, k: int)
    requires
        0 <= k <= l.len(),
    ensures
        enc_entries(l) == enc_entries(l.take(k)) + enc_entries(l.skip(k)),
    decreases l.len(),
{
    if k == l.len() {
        assert(l.take(k) =~= l);
        assert(l.skip(k) =~= Seq::<(Model, Model)>::empty());
        assert(enc_entries(l) =~= enc_entries(l.take(k)) + enc_entries(l.skip(k)));
    } else {
        lemma_enc_entries_split(l.drop_last(), k);
        assert(l.drop_last().take(k) =~= l.take(k));
        assert(l.skip(k).drop_last() =~= l.drop_last().skip(k));
        assert(l.skip(k).last() == l.last());
        assert(enc_entries(l) =~= enc_entries(l.take(k)) + enc_entries(l.skip(k)));
    }
}

pub proof fn lemma_prefix_split(a: Seq<u8>, b: Seq<u8>, s: Seq<u8>, i: int)
    requires
        prefix_at(a + b, s, i),
    ensures
        prefix_at(a, s, i),
        prefix_at(b, s, i + a.len()),
{
    let w = s.subrange(i, i + (a + b).len());
    assert(w == a + b);
    assert(s.subrange(i, i + a.len()) =~= w.subrange(0, a.len() as int));
    assert(w.subrange(0, a.len() as int) =~= a);
    assert(s.subrange(i + a.len(), i + a.len() + b.len()) =~= w.subrange(
        a.len() as int,
        w.len() as int,
    ));
    assert(w.subrange(a.len() as int, w.len() as int) =~= b);
}

/// The input from `i` on is a proper beginning of `p`: `p` was cut
/// short by the end of the input.
pub open spec fn cut_at(p: Seq<u8>, s: Seq<u8>, i: int) -> bool {
    0 <= i <= s.len() && s.len() < i + p.len() && s.subrange(i, s.len() as int) == p.subrange(0, s.len() - i)
}

/// Where `a + b` is cut short, either `a` is, or `a` is whole and `b`
/// is cut short.
pub proof fn lemma_cut_split(a: Seq<u8>, b: Seq<u8>, s: Seq<u8>, i: int)
    requires
        cut_at(a + b, s, i),
    ensures
        cut_at(a, s, i) || (prefix_at(a, s, i) && cut_at(b, s, i + a.len())),
{
    let w = s.subrange(i, s.len() as int);
    if s.len() < i + a.len() {
        assert((a + b).subrange(0, s.len() - i) =~= a.subrange(0, s.len() - i));
    } else {
        assert(s.subrange(i, i + a.len()) =~= w.subrange(0, a.len() as int));
        assert((a + b).subrange(0, s.len() - i).subrange(0, a.len() as int) =~= a);
        assert(s.subrange(i + a.len(), s.len() as int) =~= w.subrange(a.len() as int, w.len() as int));
        assert((a + b).subrange(0, s.len() - i).subrange(a.len() as int, s.len() - i) =~= b.subrange(
            0,
            s.len() - i - a.len(),
        ));
    }
}

/// The first byte of what is cut short is there.
pub proof fn lemma_cut_first(p: Seq<u8>, s: Seq<u8>, i: int)
    requires
        cut_at(p, s, i),
        i < s.len(),
    ensures
        s[i] == p[0],
{
    assert(s.subrange(i, s.len() as int)[0] == s[i]);
}

/// No encoding is a proper prefix of another: two encodings found at
/// the same place encode the same model.
pub proof fn lemma_enc_unique(a: Model, b: Model, s: Seq<u8>, i: int)
    requires
        sized(a),
        sized(b),
        prefix_at(enc(a), s, i),
        prefix_at(enc(b), s, i),
    ensures
        a == b,
    decreases a,
{
    lemma_enc_shape(a);
    lemma_enc_shape(b);
    assert(enc(a)[0] == s[i] && enc(b)[0] == s[i]) by {
        assert(s.subrange(i, i + enc(a).len())[0] == s[i]);
        assert(s.subrange(i, i + enc(b).len())[0] == s[i]);
    }
    if major_of(a) == 7 || major_of(b) == 7 {
        return;
    }
    let ha = head(major_of(a), arg_of(a));
    let hb = head(major_of(b), arg_of(b));
    lemma_prefix_split(ha, body_of(a), s, i);
    lemma_prefix_split(hb, body_of(b), s, i);
    lemma_head_unique(major_of(a), arg_of(a), major_of(b), arg_of(b), s, i);
    lemma_head_shape(major_of(a), arg_of(a));
    let j = i + ha.len();
    match a {
        Model::Bytes(x) => {
            let y = b->Bytes_0;
            assert(x =~= y);
        },
        Model::Text(x) => {
            let y = b->Text_0;
            assert(encode_utf8(x) =~= encode_utf8(y));
            lemma_encode_utf8_injective(x, y);
        },
        Model::Array(x) => {
            let y = b->Array_0;
            lemma_enc_list_unique(x, y, s, j);
        },
        Model::Dict(x) => {
            let y = b->Dict_0;
            lemma_enc_entries_unique(x, y, s, j);
        },
        _ => {},
    }
}

/// Two lists of the same length whose encodings are found at the same
/// place are equal.
pub proof fn lemma_enc_list_unique(x: Seq<Model>, y: Seq<Model>, s: Seq<u8>, j: int)
    requires
        x.len() == y.len(),
        forall|k: int| 0 <= k < x.len() ==> sized(#[trigger] x[k]),
        forall|k: int| 0 <= k < y.len() ==> sized(#[trigger] y[k]),
        prefix_at(enc_list(x), s, j),
        prefix_at(enc_list(y), s, j),
    ensures
        x == y,
    decreases x,
{
    if x.len() == 0 {
        assert(x =~= y);
    } else {
        lemma_enc_list_front(x);
        lemma_enc_list_front(y);
        lemma_prefix_split(enc(x[0]), enc_list(x.drop_first()), s, j);
        lemma_prefix_split(enc(y[0]), enc_list(y.drop_first()), s, j);
        assert(decreases_to!(x => x[0]));
        lemma_enc_unique(x[0], y[0], s, j);
        assert(forall|k: int| 0 <= k < x.drop_first().len() ==> #[trigger] x.drop_first()[k] == x[k + 1]);
        assert(forall|k: int| 0 <= k < y.drop_first().len() ==> #[trigger] y.drop_first()[k] == y[k + 1]);
        assert(decreases_to!(x => x.drop_first()));
        lemma_enc_list_unique(x.drop_first(), y.drop_first(), s, j + enc(x[0]).len());
        assert(x =~= y) by {
            assert(forall|k: int| 1 <= k < x.len() ==> x[k] == x.drop_first()[k - 1]);
            assert(forall|k: int| 1 <= k < y.len() ==> y[k] == y.drop_first()[k - 1]);
        }
    }
}

/// Two entry lists of the same length whose encodings are found at the
/// same place are equal.
pub proof fn lemma_enc_entries_unique(x: Seq<(Model, Model)>, y: Seq<(Model, Model)>, s: Seq<u8>, j: int)
    requires
        x.len() == y.len(),
        forall|k: int| 0 <= k < x.len() ==> sized(#[trigger] x[k].0) && sized(x[k].1),
        forall|k: int| 0 <= k < y.len() ==> sized(#[trigger] y[k].0) && sized(y[k].1),
        prefix_at(enc_entries(x), s, j),
        prefix_at(enc_entries(y), s, j),
    ensures
        x == y,
    decreases x,
{
    if x.len() == 0 {
        assert(x =~= y);
    } else {
        lemma_enc_entries_front(x);
        lemma_enc_entries_front(y);
        lemma_prefix_split(enc(x[0].0) + enc(x[0].1), enc_entries(x.drop_first()), s, j);
        lemma_prefix_split(enc(y[0].0) + enc(y[0].1), enc_entries(y.drop_first()), s, j);
        lemma_prefix_split(enc(x[0].0), enc(x[0].1), s, j);
        lemma_prefix_split(enc(y[0].0), enc(y[0].1), s, j);
        assert(decreases_to!(x => x[0].0));
        assert(decreases_to!(x => x[0].1));
        assert(sized(x[0].0) && sized(y[0].0));
        lemma_enc_unique(x[0].0, y[0].0, s, j);
        lemma_enc_unique(x[0].1, y[0].1, s, j + enc(x[0].0).len());
        assert(forall|k: int| 0 <= k < x.drop_first().len() ==> #[trigger] x.drop_first()[k] == x[k + 1]);
        assert(forall|k: int| 0 <= k < y.drop_first().len() ==> #[trigger] y.drop_first()[k] == y[k + 1]);
        assert(decreases_to!(x => x.drop_first()));
        lemma_enc_entries_unique(
            x.drop_first(),
            y.drop_first(),
            s,
            j + enc(x[0].0).len() + enc(x[0].1).len(),
        );
        assert(x =~= y) by {
            assert(forall|k: int| 1 <= k < x.len() ==> x[k] == x.drop_first()[k - 1]);
            assert(forall|k: int| 1 <= k < y.len() ==> y[k] == y.drop_first()[k - 1]);
        }
    }
}


/// The argument announced by a head whose first byte, at `i`, has the
/// additional-info bits `low`, read from the bytes that follow it.
pub open spec fn arg_at(s: Seq<u8>, i: int, low: u8) -> int {
    if low < 24 {
        low as int
    } else if low == 24 {
        s[i + 1] as int
    } else if low == 25 {
        be2_val(s[i + 1], s[i + 2])
    } else if low == 26 {
        be4_val(s.subrange(i + 1, i + 5))
    } else {
        be8_val(s.subrange(i + 1, i + 9))
    }
}

/// The length of a head whose first byte has the additional-info bits `low`.
pub open spec fn len_of_low(low: u8) -> int {
    if low < 24 {
        1
    } else if low == 24 {
        2
    } else if low == 25 {
        3
    } else if low == 26 {
        5
    } else {
        9
    }
}

/// What a shortest head found at `i` says about the bytes there.
pub proof fn lemma_head_at(major: u8, a: u64, s: Seq<u8>, i: int)
    requires
        major < 8,
        prefix_at(head(major, a), s, i),
    ensures
        s[i] == major * 32 + head_low(a),
        len_of_low(head_low(a)) == head_len(a),
        i + head_len(a) <= s.len(),
        a == arg_at(s, i, head_low(a)),
{
    lemma_head_shape(major, a);
    let h = head(major, a);
    let w = s.subrange(i, i + h.len());
    assert(w[0] == s[i]);
    if a < 24 {
    } else if a <= 0xff {
        assert(w[1] == s[i + 1]);
    } else if a <= 0xffff {
        assert(w[1] == s[i + 1] && w[2] == s[i + 2]);
        lemma_be2(a as int);
    } else if a <= 0xffff_ffff {
        assert(h.subrange(1, 5) =~= be4(a as int));
        assert(s.subrange(i + 1, i + 5) =~= w.subrange(1, 5));
        lemma_be4(a as int);
    } else {
        assert(h.subrange(1, 9) =~= be8(a as int));
        assert(s.subrange(i + 1, i + 9) =~= w.subrange(1, 9));
        lemma_be8(a as int);
    }
}

/// A head whose first byte and argument bytes are in `s` at `i`, and
/// whose argument uses the shortest form, is the shortest head there.
pub proof fn lemma_head_from_bytes(major: u8, low: u8, v: u64, s: Seq<u8>, i: int)
    requires
        major < 8,
        low < 28,
        0 <= i,
        i + len_of_low(low) <= s.len(),
        s[i] == major * 32 + low,
        v == arg_at(s, i, low),
        head_low(v) == low,
    ensures
        prefix_at(head(major, v), s, i),
        head_len(v) == len_of_low(low),
{
    lemma_head_shape(major, v);
    let h = head(major, v);
    if low < 24 {
        assert(s.subrange(i, i + 1) =~= h);
    } else if low == 24 {
        assert(s.subrange(i, i + 2) =~= h);
    } else if low == 25 {
        lemma_be2_bytes(s[i + 1], s[i + 2]);
        assert(s.subrange(i, i + 3) =~= h);
    } else if low == 26 {
        lemma_be4_bytes(s.subrange(i + 1, i + 5));
        assert(s.subrange(i, i + 5) =~= h);
    } else {
        lemma_be8_bytes(s.subrange(i + 1, i + 9));
        assert(s.subrange(i, i + 9) =~= h);
    }
}

} // verus!
