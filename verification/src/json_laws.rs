//! The JSON interchange form is a bijection: reading back the text a
//! value is written as gives that value again, for every value the text
//! form can carry (see [`json_ok`]).

use vstd::prelude::*;
use crate::codec::Model;
use crate::ids::{hex_char, spec_hex};
use crate::json::{
    dec_digits, dec_value, digit_char, canonical_digits, is_digit, digits_end, p_number, int_key,
    lemma_dec_digits_plain, escape, escape_char, lemma_escape_append, plain_char, p_string, p_escape, hex4, hex_val,
    prefixed, string_value, text_json, bytes_json, hex_decode, lower_hex, tagged, has_prefix, hex_tag, txt_tag,
    key_json, key_value, json_of, json_items, json_entries, quoted, skip_ws, is_ws, p_value, p_array, p_items, p_object,
    p_entries, p_literal, has_key, spec_from_json,
};

verus! {

/// `t` occurs in `s` at `p`.
pub open spec fn at(s: Seq<char>, p: int, t: Seq<char>) -> bool {
    0 <= p && p + t.len() <= s.len() && s.subrange(p, p + t.len()) == t
}

/// Position `e` ends a value: the end of the text, or a separator.
pub open spec fn delim(s: Seq<char>, e: int) -> bool {
    e == s.len() || (0 <= e < s.len() && (s[e] == ',' || s[e] == ']' || s[e] == '}'))
}

proof fn lemma_at_split(s: Seq<char>, p: int, a: Seq<char>, b: Seq<char>)
    requires
        at(s, p, a + b),
    ensures
        at(s, p, a),
        at(s, p + a.len(), b),
{
    let w = s.subrange(p, p + (a + b).len());
    assert(w == a + b);
    assert(s.subrange(p, p + a.len()) =~= w.subrange(0, a.len() as int));
    assert(w.subrange(0, a.len() as int) =~= a);
    assert(s.subrange(p + a.len(), p + a.len() + b.len()) =~= w.subrange(a.len() as int, (a + b).len() as int));
    assert(w.subrange(a.len() as int, (a + b).len() as int) =~= b);
}

proof fn lemma_at_index(s: Seq<char>, p: int, t: Seq<char>, i: int)
    requires
        at(s, p, t),
        0 <= i < t.len(),
    ensures
        s[p + i] == t[i],
{
    assert(s.subrange(p, p + t.len())[i] == s[p + i]);
}

proof fn lemma_digit_char(x: int)
    requires
        0 <= x <= 9,
    ensures
        digit_char(x) as u32 == 48 + x,
{
}

/// The digits of a number are canonical and read back as the number.
proof fn lemma_dec_digits_value(n: nat)
    ensures
        dec_value(dec_digits(n)) == n,
        canonical_digits(dec_digits(n)),
        dec_digits(n)[0] == '0' <==> n == 0,
        dec_digits(n).len() > 1 ==> n >= 10,
    decreases n,
{
    lemma_dec_digits_plain(n);
    let d = dec_digits(n);
    if n >= 10 {
        lemma_dec_digits_value(n / 10);
        let p = dec_digits(n / 10);
        lemma_dec_digits_plain(n / 10);
        assert(d == p.push(digit_char((n % 10) as int)));
        assert(d.drop_last() =~= p);
        assert(d[0] == p[0]);
        assert(d.last() == digit_char((n % 10) as int));
        lemma_digit_char((n % 10) as int);
        assert(dec_value(d) == dec_value(p) * 10 + ((d.last() as u32) - 48) as nat);
    } else {
        assert(d == seq![digit_char(n as int)]);
        assert(d.drop_last() =~= Seq::<char>::empty());
        lemma_digit_char(n as int);
        assert(dec_value(d) == dec_value(d.drop_last()) * 10 + ((d.last() as u32) - 48) as nat);
    }
}

/// A run of digits followed by a non-digit ends where it should.
proof fn lemma_digits_end(s: Seq<char>, p: int, d: Seq<char>)
    requires
        at(s, p, d),
        forall|i: int| 0 <= i < d.len() ==> is_digit(#[trigger] d[i]),
        p + d.len() == s.len() || !is_digit(s[p + d.len()]),
    ensures
        digits_end(s, p) == p + d.len(),
    decreases d.len(),
{
    if d.len() > 0 {
        lemma_at_index(s, p, d, 0);
        assert(at(s, p + 1, d.drop_first())) by {
            assert(s.subrange(p + 1, p + 1 + d.drop_first().len()) =~= d.drop_first());
        }
        lemma_digits_end(s, p + 1, d.drop_first());
    }
}

/// A non-negative number reads back from its digits.
proof fn lemma_p_number_uint(s: Seq<char>, p: int, n: u64)
    requires
        at(s, p, dec_digits(n as nat)),
        delim(s, p + dec_digits(n as nat).len()),
    ensures
        p_number(s, p) == Some((Model::Uint(n), p + dec_digits(n as nat).len())),
{
    let d = dec_digits(n as nat);
    lemma_dec_digits_value(n as nat);
    lemma_dec_digits_plain(n as nat);
    lemma_at_index(s, p, d, 0);
    lemma_digits_end(s, p, d);
    assert(s.subrange(p, p + d.len()) == d);
}

/// A negative number reads back from `-` and the digits of its
/// magnitude, when it fits 64 signed bits.
proof fn lemma_p_number_nint(s: Seq<char>, p: int, n: u64)
    requires
        n < 0x8000_0000_0000_0000u64,
        at(s, p, seq!['-'] + dec_digits(n as nat + 1)),
        delim(s, p + 1 + dec_digits(n as nat + 1).len()),
    ensures
        p_number(s, p) == Some((Model::Nint(n), p + 1 + dec_digits(n as nat + 1).len())),
{
    let d = dec_digits(n as nat + 1);
    lemma_dec_digits_value(n as nat + 1);
    lemma_dec_digits_plain(n as nat + 1);
    lemma_at_split(s, p, seq!['-'], d);
    lemma_at_index(s, p, seq!['-'] + d, 0);
    lemma_digits_end(s, p + 1, d);
    assert(s.subrange(p + 1, p + 1 + d.len()) == d);
    assert(d != seq!['0']) by {
        if d == seq!['0'] {
            assert(d[0] == '0');
        }
    }
}

/// The integer keys read back from their digits.
proof fn lemma_int_key_uint(n: u64)
    ensures
        int_key(dec_digits(n as nat)) == Some(Model::Uint(n)),
{
    lemma_dec_digits_value(n as nat);
    lemma_dec_digits_plain(n as nat);
}

proof fn lemma_int_key_nint(n: u64)
    ensures
        int_key(seq!['-'] + dec_digits(n as nat + 1)) == Some(Model::Nint(n)),
{
    let d = dec_digits(n as nat + 1);
    lemma_dec_digits_value(n as nat + 1);
    lemma_dec_digits_plain(n as nat + 1);
    let s = seq!['-'] + d;
    assert(s.drop_first() =~= d);
    assert(d != seq!['0']) by {
        if d == seq!['0'] {
            assert(d[0] == '0');
        }
    }
}

proof fn lemma_escape_front(t: Seq<char>)
    requires
        t.len() > 0,
    ensures
        escape(t) == escape_char(t[0]) + escape(t.drop_first()),
{
    let c = seq![t[0]];
    assert(t =~= c + t.drop_first());
    lemma_escape_append(c, t.drop_first());
    assert(c.drop_last() =~= Seq::<char>::empty());
    assert(c.last() == t[0]);
    assert(escape(Seq::<char>::empty()) =~= Seq::<char>::empty());
    assert(escape(c) == escape(c.drop_last()) + escape_char(c.last()));
    assert(escape(c) =~= escape_char(t[0]));
}

proof fn lemma_hex_char(k: int)
    requires
        0 <= k < 16,
    ensures
        hex_val(hex_char(k)) == Some(k),
        '0' <= hex_char(k) <= '9' || 'a' <= hex_char(k) <= 'f',
{
}

/// One escaped character reads back as that character.
proof fn lemma_p_string_char(s: Seq<char>, p: int, c: char)
    requires
        at(s, p, escape_char(c)),
        p + escape_char(c).len() < s.len(),
    ensures
        p_string(s, p) == prefixed(seq![c], p_string(s, p + escape_char(c).len())),
{
    let e = escape_char(c);
    lemma_at_index(s, p, e, 0);
    if e.len() >= 2 {
        lemma_at_index(s, p, e, 1);
    }
    if c == '"' || c == '\\' || c == '\n' || c == '\r' || c == '\t' || c == '\u{08}' || c == '\u{0c}' {
        assert(p_escape(s, p + 1) == Some((c, p + 2)));
    } else if (c as u32) < 0x20 {
        let hi = (c as u32 / 16) as int;
        let lo = (c as u32 % 16) as int;
        lemma_hex_char(hi);
        lemma_hex_char(lo);
        lemma_at_index(s, p, e, 2);
        lemma_at_index(s, p, e, 3);
        lemma_at_index(s, p, e, 4);
        lemma_at_index(s, p, e, 5);
        assert(hex_val('0') == Some(0int));
        assert(hex4(s, p + 2) == Some(c as u32 as int));
        assert((c as u32 as int) as char == c);
        assert(p_escape(s, p + 1) == Some((c, p + 6)));
    } else {
        assert(e == seq![c]);
    }
}

/// An escaped string and its closing quote read back as the string.
proof fn lemma_p_string(s: Seq<char>, p: int, t: Seq<char>)
    requires
        at(s, p, escape(t) + seq!['"']),
    ensures
        p_string(s, p) == Some((t, p + escape(t).len() + 1)),
    decreases t.len(),
{
    if t.len() == 0 {
        assert(escape(t) =~= Seq::<char>::empty());
        lemma_at_index(s, p, escape(t) + seq!['"'], 0);
    } else {
        let c = t[0];
        let r = t.drop_first();
        lemma_escape_front(t);
        assert(escape(t) + seq!['"'] =~= escape_char(c) + (escape(r) + seq!['"']));
        lemma_at_split(s, p, escape_char(c), escape(r) + seq!['"']);
        lemma_p_string(s, p + escape_char(c).len(), r);
        lemma_p_string_char(s, p, c);
        assert(seq![c] + r =~= t);
    }
}

/// Text reads back from its JSON string form.
proof fn lemma_text_value(t: Seq<char>)
    ensures
        string_value(text_json(t)) == Some(Model::Text(t)),
{
    if tagged(t) {
        let u = txt_tag() + t;
        assert(u.subrange(0, 4) =~= txt_tag());
        assert(u[0] == 't');
        assert(!has_prefix(u, hex_tag())) by {
            if has_prefix(u, hex_tag()) {
                assert(u.subrange(0, 4)[0] == 'h');
            }
        }
        assert(u.skip(4) =~= t);
    }
}

/// Bytes read back from their `hex:` string form.
proof fn lemma_bytes_value(b: Seq<u8>)
    ensures
        string_value(bytes_json(b)) == Some(Model::Bytes(b)),
{
    let u = bytes_json(b);
    let h = spec_hex(b);
    assert(u.subrange(0, 4) =~= hex_tag());
    assert(u.skip(4) =~= h);
    assert forall|i: int| 0 <= i < h.len() implies ('0' <= #[trigger] h[i] <= '9' || 'a' <= h[i] <= 'f') by {
        let byte = b[i / 2];
        if i % 2 == 0 {
            lemma_hex_char((byte / 16) as int);
        } else {
            lemma_hex_char((byte % 16) as int);
        }
    }
    assert(lower_hex(h));
    let d = hex_decode(h)->0;
    assert forall|i: int| 0 <= i < b.len() implies #[trigger] d[i] == b[i] by {
        let byte = b[i];
        assert(h[2 * i] == hex_char((byte / 16) as int));
        assert(h[2 * i + 1] == hex_char((byte % 16) as int));
        lemma_hex_char((byte / 16) as int);
        lemma_hex_char((byte % 16) as int);
    }
    assert(d =~= b);
}

/// Whether a model can be a JSON object key.
pub open spec fn key_kind(k: Model) -> bool {
    k is Uint || k is Nint || k is Bytes || k is Text
}

/// A key reads back from its JSON key string.
proof fn lemma_key_value(k: Model)
    requires
        key_kind(k),
    ensures
        key_value(key_json(k)) == Some(k),
{
    match k {
        Model::Uint(n) => {
            lemma_int_key_uint(n);
        },
        Model::Nint(n) => {
            lemma_int_key_nint(n);
        },
        Model::Bytes(b) => {
            let u = bytes_json(b);
            assert(u[0] == 'h');
            assert(!canonical_digits(u)) by {
                assert(!is_digit(u[0]));
            }
            assert(int_key(u) is None);
            lemma_bytes_value(b);
        },
        Model::Text(t) => {
            if tagged(t) || int_key(t) is Some {
                let u = txt_tag() + t;
                assert(u[0] == 't');
                assert(!canonical_digits(u)) by {
                    assert(!is_digit(u[0]));
                }
                assert(int_key(u) is None);
                assert(u.subrange(0, 4) =~= txt_tag());
                assert(!has_prefix(u, hex_tag())) by {
                    if has_prefix(u, hex_tag()) {
                        assert(u.subrange(0, 4)[0] == 'h');
                    }
                }
                assert(u.skip(4) =~= t);
            }
        },
        _ => {},
    }
}

/// The text of one object entry: the quoted key, `:`, the value.
pub open spec fn entry_json(e: (Model, Model)) -> Seq<char> {
    quoted(key_json(e.0)) + seq![':'] + json_of(e.1)
}

proof fn lemma_items_front(ms: Seq<Model>)
    requires
        ms.len() >= 1,
    ensures
        ms.len() == 1 ==> json_items(ms) == json_of(ms[0]),
        ms.len() >= 2 ==> json_items(ms) == json_of(ms[0]) + seq![','] + json_items(ms.drop_first()),
    decreases ms.len(),
{
    if ms.len() == 2 {
        assert(ms.drop_last().len() == 1);
        assert(json_items(ms.drop_last()) == json_of(ms[0]));
        assert(ms.drop_first().len() == 1);
        assert(json_items(ms.drop_first()) == json_of(ms[1]));
    } else if ms.len() > 2 {
        let dl = ms.drop_last();
        lemma_items_front(dl);
        assert(dl.drop_first() =~= ms.drop_first().drop_last());
        assert(ms.drop_first().last() == ms.last());
        assert(json_items(ms.drop_first()) == json_items(ms.drop_first().drop_last()) + seq![','] + json_of(
            ms.drop_first().last(),
        ));
        assert(json_items(ms) =~= json_of(ms[0]) + seq![','] + json_items(ms.drop_first()));
    }
}

proof fn lemma_entries_front(es: Seq<(Model, Model)>)
    requires
        es.len() >= 1,
    ensures
        es.len() == 1 ==> json_entries(es) == entry_json(es[0]),
        es.len() >= 2 ==> json_entries(es) == entry_json(es[0]) + seq![','] + json_entries(es.drop_first()),
    decreases es.len(),
{
    if es.len() == 1 {
        assert(json_entries(es) =~= entry_json(es[0]));
    } else if es.len() == 2 {
        assert(es.drop_last().len() == 1);
        assert(json_entries(es.drop_last()) =~= entry_json(es[0]));
        assert(es.drop_first().len() == 1);
        assert(json_entries(es.drop_first()) =~= entry_json(es[1]));
        assert(json_entries(es) =~= entry_json(es[0]) + seq![','] + json_entries(es.drop_first()));
    } else {
        let dl = es.drop_last();
        lemma_entries_front(dl);
        assert(dl.drop_first() =~= es.drop_first().drop_last());
        assert(es.drop_first().last() == es.last());
        assert(json_entries(es.drop_first()) =~= json_entries(es.drop_first().drop_last()) + seq![','] + entry_json(
            es.drop_first().last(),
        ));
        assert(json_entries(es) =~= entry_json(es[0]) + seq![','] + json_entries(es.drop_first()));
    }
}

/// What a value's text starts with: never whitespace, a closing
/// bracket, or a separator.
pub open spec fn opener(c: char) -> bool {
    is_digit(c) || c == '-' || c == '"' || c == '[' || c == '{' || c == 't' || c == 'f' || c == 'n'
}

proof fn lemma_json_first(m: Model)
    ensures
        json_of(m).len() > 0,
        opener(json_of(m)[0]),
        m is Uint ==> is_digit(json_of(m)[0]),
{
    match m {
        Model::Uint(n) => {
            lemma_dec_digits_plain(n as nat);
        },
        Model::Nint(n) => {},
        Model::Bytes(b) => {},
        Model::Text(t) => {},
        Model::Array(items) => {},
        Model::Dict(es) => {},
        Model::Bool(b) => {},
        Model::Null => {},
    }
}

proof fn lemma_skip_at(s: Seq<char>, p: int)
    requires
        0 <= p < s.len(),
        !is_ws(s[p]),
    ensures
        skip_ws(s, p) == p,
{
}

/// The values the JSON form carries: nesting at most 64 deep below
/// `depth`, negative plain numbers that fit 64 signed bits, and maps
/// whose keys are numbers, bytes or text, pairwise distinct.
pub open spec fn json_ok(m: Model, depth: int) -> bool
    decreases m,
{
    0 <= depth <= 64 && match m {
        Model::Nint(n) => n < 0x8000_0000_0000_0000u64,
        Model::Array(items) => forall|i: int| 0 <= i < items.len() ==> json_ok(#[trigger] items[i], depth + 1),
        Model::Dict(es) => (forall|i: int| 0 <= i < es.len() ==> key_kind(#[trigger] es[i].0) && json_ok(es[i].1, depth + 1))
            && (forall|i: int, j: int| 0 <= i < j < es.len() ==> #[trigger] es[i].0 != #[trigger] es[j].0),
        _ => true,
    }
}

#[verifier::spinoff_prover]
#[verifier::rlimit(40)]
proof fn lemma_value(m: Model, s: Seq<char>, p: int, depth: int)
    requires
        json_ok(m, depth),
        at(s, p, json_of(m)),
        delim(s, p + json_of(m).len()),
    ensures
        p_value(s, p, depth) == Some((m, p + json_of(m).len())),
    decreases m, 0int,
{
    let j = json_of(m);
    lemma_json_first(m);
    lemma_at_index(s, p, j, 0);
    lemma_skip_at(s, p);
    match m {
        Model::Uint(n) => {
            lemma_p_number_uint(s, p, n);
        },
        Model::Nint(n) => {
            lemma_p_number_nint(s, p, n);
        },
        Model::Bytes(b) => {
            let t = bytes_json(b);
            assert(j =~= seq!['"'] + (escape(t) + seq!['"']));
            lemma_at_split(s, p, seq!['"'], escape(t) + seq!['"']);
            lemma_p_string(s, p + 1, t);
            lemma_bytes_value(b);
        },
        Model::Text(x) => {
            let t = text_json(x);
            assert(j =~= seq!['"'] + (escape(t) + seq!['"']));
            lemma_at_split(s, p, seq!['"'], escape(t) + seq!['"']);
            lemma_p_string(s, p + 1, t);
            lemma_text_value(x);
        },
        Model::Array(items) => {
            assert(j =~= seq!['['] + (json_items(items) + seq![']']));
            lemma_at_split(s, p, seq!['['], json_items(items) + seq![']']);
            if items.len() == 0 {
                assert(json_items(items) =~= Seq::<char>::empty());
                lemma_at_index(s, p + 1, json_items(items) + seq![']'], 0);
                lemma_skip_at(s, p + 1);
                assert(items =~= Seq::<Model>::empty());
            } else {
                lemma_items_front(items);
                lemma_json_first(items[0]);
                assert(json_items(items)[0] == json_of(items[0])[0]);
                lemma_at_index(s, p + 1, json_items(items) + seq![']'], 0);
                lemma_skip_at(s, p + 1);
                assert(items.skip(0) =~= items);
                assert(items.take(0) =~= Seq::<Model>::empty());
                lemma_items(items, 0, s, p + 1, depth);
            }
        },
        Model::Dict(es) => {
            assert(j =~= seq!['{'] + (json_entries(es) + seq!['}']));
            lemma_at_split(s, p, seq!['{'], json_entries(es) + seq!['}']);
            if es.len() == 0 {
                assert(json_entries(es) =~= Seq::<char>::empty());
                lemma_at_index(s, p + 1, json_entries(es) + seq!['}'], 0);
                lemma_skip_at(s, p + 1);
                assert(es =~= Seq::<(Model, Model)>::empty());
            } else {
                lemma_entries_front(es);
                assert(json_entries(es)[0] == '"');
                lemma_at_index(s, p + 1, json_entries(es) + seq!['}'], 0);
                lemma_skip_at(s, p + 1);
                assert(es.skip(0) =~= es);
                assert(es.take(0) =~= Seq::<(Model, Model)>::empty());
                lemma_entries(es, 0, s, p + 1, depth);
            }
        },
        Model::Bool(b) => {},
        Model::Null => {},
    }
}

proof fn lemma_items(items: Seq<Model>, k: int, s: Seq<char>, p: int, depth: int)
    requires
        0 <= k < items.len(),
        0 <= depth,
        forall|i: int| 0 <= i < items.len() ==> json_ok(#[trigger] items[i], depth + 1),
        at(s, p, json_items(items.skip(k)) + seq![']']),
    ensures
        p_items(s, p, depth, items.take(k)) == Some((Model::Array(items), p + json_items(items.skip(k)).len() + 1)),
    decreases items, items.len() - k,
{
    let r = items.skip(k);
    let v = items[k];
    let jv = json_of(v);
    lemma_items_front(r);
    assert(r[0] == v);
    assert(json_ok(v, depth + 1));
    if r.len() == 1 {
        assert(json_items(r) + seq![']'] =~= jv + seq![']']);
        lemma_at_split(s, p, jv, seq![']']);
        lemma_at_index(s, p + jv.len(), seq![']'], 0);
        lemma_value(v, s, p, depth + 1);
        lemma_skip_at(s, p + jv.len());
        assert(items.take(k).push(v) =~= items);
    } else {
        let rest = r.drop_first();
        assert(rest =~= items.skip(k + 1));
        assert(json_items(r) + seq![']'] =~= jv + (seq![','] + (json_items(rest) + seq![']'])));
        lemma_at_split(s, p, jv, seq![','] + (json_items(rest) + seq![']']));
        lemma_at_split(s, p + jv.len(), seq![','], json_items(rest) + seq![']']);
        lemma_at_index(s, p + jv.len(), seq![','], 0);
        lemma_value(v, s, p, depth + 1);
        lemma_skip_at(s, p + jv.len());
        lemma_items_front(rest);
        lemma_json_first(rest[0]);
        assert(json_items(rest)[0] == json_of(rest[0])[0]);
        lemma_at_index(s, p + jv.len() + 1, json_items(rest) + seq![']'], 0);
        lemma_skip_at(s, p + jv.len() + 1);
        assert(items.take(k).push(v) =~= items.take(k + 1));
        lemma_items(items, k + 1, s, p + jv.len() + 1, depth);
    }
}

/// One object entry reads back as its key and value, up to the
/// separator after it.
proof fn lemma_entry(e: (Model, Model), s: Seq<char>, p: int, depth: int)
    requires
        key_kind(e.0),
        json_ok(e.1, depth + 1),
        0 <= depth,
        at(s, p, entry_json(e)),
        p + entry_json(e).len() < s.len(),
        s[p + entry_json(e).len()] == ',' || s[p + entry_json(e).len()] == '}',
    ensures
        skip_ws(s, p) == p,
        s[p] == '"',
        p_string(s, p + 1) == Some((key_json(e.0), p + quoted(key_json(e.0)).len())),
        key_value(key_json(e.0)) == Some(e.0),
        skip_ws(s, p + quoted(key_json(e.0)).len()) == p + quoted(key_json(e.0)).len(),
        s[p + quoted(key_json(e.0)).len()] == ':',
        p_value(s, p + quoted(key_json(e.0)).len() + 1, depth + 1) == Some((e.1, p + entry_json(e).len())),
        skip_ws(s, p + entry_json(e).len()) == p + entry_json(e).len(),
    decreases e, 1int,
{
    let kj = key_json(e.0);
    let esc = escape(kj);
    let q = quoted(kj);
    let jv = json_of(e.1);
    assert(entry_json(e) == (q + seq![':']) + jv);
    lemma_at_split(s, p, q + seq![':'], jv);
    lemma_at_split(s, p, q, seq![':']);
    lemma_at_index(s, p + q.len(), seq![':'], 0);
    assert(q =~= seq!['"'] + (esc + seq!['"']));
    lemma_at_split(s, p, seq!['"'], esc + seq!['"']);
    lemma_at_index(s, p, seq!['"'], 0);
    lemma_skip_at(s, p);
    lemma_p_string(s, p + 1, kj);
    lemma_key_value(e.0);
    lemma_skip_at(s, p + q.len());
    lemma_value(e.1, s, p + q.len() + 1, depth + 1);
    lemma_skip_at(s, p + entry_json(e).len());
}

proof fn lemma_entries(es: Seq<(Model, Model)>, k: int, s: Seq<char>, p: int, depth: int)
    requires
        0 <= k < es.len(),
        0 <= depth,
        forall|i: int| 0 <= i < es.len() ==> key_kind(#[trigger] es[i].0) && json_ok(es[i].1, depth + 1),
        forall|i: int, j: int| 0 <= i < j < es.len() ==> #[trigger] es[i].0 != #[trigger] es[j].0,
        at(s, p, json_entries(es.skip(k)) + seq!['}']),
    ensures
        p_entries(s, p, depth, es.take(k)) == Some((Model::Dict(es), p + json_entries(es.skip(k)).len() + 1)),
    decreases es, es.len() - k,
{
    let r = es.skip(k);
    let e = es[k];
    let ej = entry_json(e);
    lemma_entries_front(r);
    assert(r[0] == e);
    assert(key_kind(e.0) && json_ok(e.1, depth + 1));
    let tail = if r.len() == 1 {
        seq!['}']
    } else {
        seq![','] + (json_entries(r.drop_first()) + seq!['}'])
    };
    assert(json_entries(r) + seq!['}'] =~= ej + tail);
    lemma_at_split(s, p, ej, tail);
    lemma_at_index(s, p + ej.len(), tail, 0);
    lemma_entry(e, s, p, depth);
    assert(!has_key(es.take(k), e.0)) by {
        if has_key(es.take(k), e.0) {
            let i = choose|i: int| 0 <= i < es.take(k).len() && es.take(k)[i].0 == e.0;
            assert(es[i].0 != es[k].0);
        }
    }
    assert(es.take(k).push((e.0, e.1)) =~= es.take(k + 1));
    if r.len() == 1 {
        assert(es.take(k + 1) =~= es);
    } else {
        let rest = r.drop_first();
        assert(rest =~= es.skip(k + 1));
        lemma_at_split(s, p + ej.len(), seq![','], json_entries(rest) + seq!['}']);
        lemma_entries(es, k + 1, s, p + ej.len() + 1, depth);
    }
}

/// Reading back the JSON text a value is written as gives the value
/// again, for every value the JSON form carries (see [`json_ok`]).
pub proof fn lemma_json_round_trip(m: Model)
    requires
        json_ok(m, 0),
    ensures
        spec_from_json(json_of(m)) == Some(m),
{
    let s = json_of(m);
    assert(at(s, 0, s)) by {
        assert(s.subrange(0, s.len() as int) =~= s);
    }
    lemma_value(m, s, 0, 0);
}

/// A record's JSON form reads back as that record: its text parses to
/// the record's envelope, which is already canonical and is the wire
/// form of that record and no other (for every record whose envelope
/// the JSON form carries, see [`json_ok`]).
pub proof fn lemma_record_json_round_trip(r: crate::record::RecordModel)
    requires
        crate::record::model_ok(r),
        crate::decode::decodable(crate::record::envelope(r, true), 0),
        json_ok(crate::record::envelope(r, true), 0),
    ensures
        spec_from_json(json_of(crate::record::envelope(r, true))) == Some(crate::record::envelope(r, true)),
        crate::codec::spec_encode_canonical(crate::record::envelope(r, true)) == Some(
            crate::codec::enc(crate::record::envelope(r, true)),
        ),
        crate::record::record_of_bytes(crate::codec::enc(crate::record::envelope(r, true))) == Some(r),
{
    let e = crate::record::envelope(r, true);
    lemma_json_round_trip(e);
    crate::decode::lemma_canonical_round_trip(e);
    crate::record::lemma_record_of_bytes(crate::codec::enc(e), r);
}

} // verus!

