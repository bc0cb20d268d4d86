//! The JSON interchange form of values.
//!
//! Integers become JSON integers, byte strings `"hex:<lowercase hex>"`,
//! text, arrays, maps, booleans and null map naturally. Map keys are
//! JSON strings: integer keys as decimal digits, byte keys as
//! `"hex:..."`, text keys as themselves. Text whose content starts with
//! `hex:` or `txt:` gets an extra `txt:` prefix, and so does a text key
//! that would read back as an integer key, so that every value the
//! protocol uses reads back as itself.

use vstd::prelude::*;
use crate::codec::{Value, Model, model_list, lemma_model_list, model_entries, lemma_model_entries};
use crate::ids::{hex_char, spec_hex};
use crate::error::Error;
use crate::text::{string_push, str_chars, char_from_u32};
use crate::debug_form::{debug_of, debug_string};
use vstd::string::StrSliceExecFns;

verus! {

// ---------------------------------------------------------------------
// The rendering
// ---------------------------------------------------------------------

/// The decimal digit character of `d` in `0..10`.
pub open spec fn digit_char(d: int) -> char {
    (48 + d) as char
}

/// The decimal digits of `n`, without leading zeros.
pub open spec fn dec_digits(n: nat) -> Seq<char>
    decreases n,
{
    if n < 10 {
        seq![digit_char(n as int)]
    } else {
        dec_digits(n / 10).push(digit_char((n % 10) as int))
    }
}

/// `hex:`.
pub open spec fn hex_tag() -> Seq<char> {
    seq!['h', 'e', 'x', ':']
}

/// `txt:`.
pub open spec fn txt_tag() -> Seq<char> {
    seq!['t', 'x', 't', ':']
}

/// Whether `s` starts with `p`.
pub open spec fn has_prefix(s: Seq<char>, p: Seq<char>) -> bool {
    s.len() >= p.len() && s.subrange(0, p.len() as int) == p
}

/// Whether a text needs the `txt:` escape as a plain value.
pub open spec fn tagged(s: Seq<char>) -> bool {
    has_prefix(s, hex_tag()) || has_prefix(s, txt_tag())
}

/// A text value's string content.
pub open spec fn text_json(s: Seq<char>) -> Seq<char> {
    if tagged(s) {
        txt_tag() + s
    } else {
        s
    }
}

/// A byte string's string content.
pub open spec fn bytes_json(b: Seq<u8>) -> Seq<char> {
    hex_tag() + spec_hex(b)
}

/// Whether a character is a decimal digit.
pub open spec fn is_digit(c: char) -> bool {
    '0' <= c <= '9'
}

/// The number a non-empty string of decimal digits spells.
pub open spec fn dec_value(d: Seq<char>) -> nat
    decreases d.len(),
{
    if d.len() == 0 {
        0
    } else {
        dec_value(d.drop_last()) * 10 + ((d.last() as u32) - 48) as nat
    }
}

/// Whether `d` is a canonical decimal: non-empty digits, no leading
/// zero.
pub open spec fn canonical_digits(d: Seq<char>) -> bool {
    &&& d.len() > 0
    &&& forall|i: int| 0 <= i < d.len() ==> is_digit(#[trigger] d[i])
    &&& !(d.len() > 1 && d[0] == '0')
}

/// The integer key a map-key string spells: canonical decimal digits,
/// optionally negative (not `-0`), within the range of `Uint` and
/// `Nint`.
pub open spec fn int_key(s: Seq<char>) -> Option<Model> {
    let neg = s.len() > 0 && s[0] == '-';
    let d = if neg {
        s.drop_first()
    } else {
        s
    };
    if !canonical_digits(d) || (neg && d == seq!['0']) {
        None
    } else if neg {
        if dec_value(d) > u64::MAX as nat + 1 {
            None
        } else {
            Some(Model::Nint((dec_value(d) - 1) as u64))
        }
    } else if dec_value(d) > u64::MAX as nat {
        None
    } else {
        Some(Model::Uint(dec_value(d) as u64))
    }
}

/// `unsupported-key:`.
pub open spec fn unsupported_tag() -> Seq<char> {
    seq!['u', 'n', 's', 'u', 'p', 'p', 'o', 'r', 't', 'e', 'd', '-', 'k', 'e', 'y', ':']
}

/// A map key's string content.
pub open spec fn key_json(k: Model) -> Seq<char> {
    match k {
        Model::Uint(n) => dec_digits(n as nat),
        Model::Nint(n) => seq!['-'] + dec_digits(n as nat + 1),
        Model::Bytes(b) => bytes_json(b),
        Model::Text(s) => if tagged(s) || int_key(s) is Some {
            txt_tag() + s
        } else {
            s
        },
        _ => unsupported_tag() + debug_of(k),
    }
}

/// The JSON escape of one character.
pub open spec fn escape_char(c: char) -> Seq<char> {
    if c == '"' {
        seq!['\\', '"']
    } else if c == '\\' {
        seq!['\\', '\\']
    } else if c == '\n' {
        seq!['\\', 'n']
    } else if c == '\r' {
        seq!['\\', 'r']
    } else if c == '\t' {
        seq!['\\', 't']
    } else if c == '\u{08}' {
        seq!['\\', 'b']
    } else if c == '\u{0c}' {
        seq!['\\', 'f']
    } else if (c as u32) < 0x20 {
        seq!['\\', 'u', '0', '0', hex_char((c as u32 / 16) as int), hex_char((c as u32 % 16) as int)]
    } else {
        seq![c]
    }
}

/// The JSON escape of a string's content.
pub open spec fn escape(s: Seq<char>) -> Seq<char>
    decreases s.len(),
{
    if s.len() == 0 {
        Seq::empty()
    } else {
        escape(s.drop_last()) + escape_char(s.last())
    }
}

/// A JSON string literal.
pub open spec fn quoted(s: Seq<char>) -> Seq<char> {
    seq!['"'] + escape(s) + seq!['"']
}

/// The JSON rendering of a value.
pub open spec fn json_of(m: Model) -> Seq<char>
    decreases m,
{
    match m {
        Model::Uint(n) => dec_digits(n as nat),
        Model::Nint(n) => seq!['-'] + dec_digits(n as nat + 1),
        Model::Bytes(b) => quoted(bytes_json(b)),
        Model::Text(t) => quoted(text_json(t)),
        Model::Array(items) => seq!['['] + json_items(items) + seq![']'],
        Model::Dict(es) => seq!['{'] + json_entries(es) + seq!['}'],
        Model::Bool(b) => if b {
            seq!['t', 'r', 'u', 'e']
        } else {
            seq!['f', 'a', 'l', 's', 'e']
        },
        Model::Null => seq!['n', 'u', 'l', 'l'],
    }
}

/// The renderings of array items, comma-separated.
pub open spec fn json_items(s: Seq<Model>) -> Seq<char>
    decreases s,
{
    if s.len() == 0 {
        Seq::empty()
    } else if s.len() == 1 {
        json_of(s[0])
    } else {
        json_items(s.drop_last()) + seq![','] + json_of(s.last())
    }
}

/// The renderings of map entries, comma-separated.
pub open spec fn json_entries(s: Seq<(Model, Model)>) -> Seq<char>
    decreases s,
{
    if s.len() == 0 {
        Seq::empty()
    } else if s.len() == 1 {
        quoted(key_json(s[0].0)) + seq![':'] + json_of(s[0].1)
    } else {
        json_entries(s.drop_last()) + seq![','] + quoted(key_json(s.last().0)) + seq![':'] + json_of(s.last().1)
    }
}

// ---------------------------------------------------------------------
// Rendering, executable
// ---------------------------------------------------------------------

fn push_str(out: &mut String, s: &str)
    ensures
        final(out)@ == old(out)@ + s@,
{
    let mut i: usize = 0;
    let n = s.unicode_len();
    while i < n
        invariant
            i <= n,
            n == s@.len(),
            out@ == old(out)@ + s@.subrange(0, i as int),
        decreases n - i,
    {
        let c = s.get_char(i);
        string_push(out, c);
        assert(s@.subrange(0, i + 1) =~= s@.subrange(0, i as int).push(c));
        i = i + 1;
    }
    assert(s@.subrange(0, n as int) =~= s@);
}

fn push_chars(out: &mut String, cs: &Vec<char>)
    ensures
        final(out)@ == old(out)@ + cs@,
{
    let mut i: usize = 0;
    while i < cs.len()
        invariant
            i <= cs.len(),
            out@ == old(out)@ + cs@.subrange(0, i as int),
        decreases cs.len() - i,
    {
        string_push(out, cs[i]);
        assert(cs@.subrange(0, i + 1) =~= cs@.subrange(0, i as int).push(cs@[i as int]));
        i = i + 1;
    }
    assert(cs@.subrange(0, cs.len() as int) =~= cs@);
}

proof fn lemma_dec_digits_step(n: nat)
    requires
        n >= 10,
    ensures
        dec_digits(n) == dec_digits(n / 10).push(digit_char((n % 10) as int)),
{
}

/// The decimal digits of `n`.
pub(crate) fn decimal(n: u128) -> (r: Vec<char>)
    ensures
        r@ == dec_digits(n as nat),
{
    let mut rev: Vec<char> = Vec::new();
    let mut m: u128 = n;
    let ghost mut suffix: Seq<char> = Seq::empty();
    while m >= 10
        invariant
            dec_digits(n as nat) == dec_digits(m as nat) + suffix,
            rev@ == suffix.reverse(),
        decreases m,
    {
        let d = m % 10;
        let c = ((48 + d) as u8) as char;
        rev.push(c);
        proof {
            lemma_dec_digits_step(m as nat);
            assert(dec_digits(n as nat) =~= dec_digits((m / 10) as nat) + (seq![c] + suffix));
            suffix = seq![c] + suffix;
            assert(rev@ =~= suffix.reverse());
        }
        m = m / 10;
    }
    let c = ((48 + m) as u8) as char;
    rev.push(c);
    proof {
        assert(dec_digits(m as nat) == seq![digit_char(m as int)]);
        assert(dec_digits(n as nat) =~= seq![c] + suffix);
        suffix = seq![c] + suffix;
        assert(rev@ =~= suffix.reverse());
    }
    let mut out: Vec<char> = Vec::new();
    let mut i: usize = rev.len();
    while i > 0
        invariant
            i <= rev.len(),
            rev@ == suffix.reverse(),
            out@ == suffix.subrange(0, (rev.len() - i) as int),
            suffix.len() == rev.len(),
        decreases i,
    {
        i = i - 1;
        out.push(rev[i]);
        assert(out@ =~= suffix.subrange(0, (rev.len() - i) as int));
    }
    assert(out@ =~= suffix);
    out
}


pub(crate) proof fn lemma_escape_append(a: Seq<char>, b: Seq<char>)
    ensures
        escape(a + b) == escape(a) + escape(b),
    decreases b.len(),
{
    if b.len() == 0 {
        assert(a + b =~= a);
        assert(escape(b) =~= Seq::<char>::empty());
        assert(escape(a) + escape(b) =~= escape(a));
    } else {
        lemma_escape_append(a, b.drop_last());
        assert((a + b).drop_last() =~= a + b.drop_last());
        assert((a + b).last() == b.last());
        assert(escape(a) + escape(b) =~= escape(a) + escape(b.drop_last()) + escape_char(b.last()));
    }
}

/// Whether a character is written as itself.
pub open spec fn plain_char(c: char) -> bool {
    (c as u32) >= 0x20 && c != '"' && c != '\\'
}

pub(crate) proof fn lemma_escape_plain(s: Seq<char>)
    requires
        forall|i: int| 0 <= i < s.len() ==> plain_char(#[trigger] s[i]),
    ensures
        escape(s) == s,
    decreases s.len(),
{
    if s.len() > 0 {
        lemma_escape_plain(s.drop_last());
        assert(plain_char(s[s.len() - 1]));
        assert(escape(s) =~= s.drop_last().push(s.last()));
        assert(s.drop_last().push(s.last()) =~= s);
    }
}

fn push_escaped_char(out: &mut String, c: char)
    ensures
        final(out)@ == old(out)@ + escape_char(c),
{
    if c == '"' {
        string_push(out, '\\');
        string_push(out, '"');
    } else if c == '\\' {
        string_push(out, '\\');
        string_push(out, '\\');
    } else if c == '\n' {
        string_push(out, '\\');
        string_push(out, 'n');
    } else if c == '\r' {
        string_push(out, '\\');
        string_push(out, 'r');
    } else if c == '\t' {
        string_push(out, '\\');
        string_push(out, 't');
    } else if c == '\u{08}' {
        string_push(out, '\\');
        string_push(out, 'b');
    } else if c == '\u{0c}' {
        string_push(out, '\\');
        string_push(out, 'f');
    } else if (c as u32) < 0x20 {
        let x = c as u32;
        string_push(out, '\\');
        string_push(out, 'u');
        string_push(out, '0');
        string_push(out, '0');
        string_push(out, crate::ids::hex_digit_char((x / 16) as u8));
        string_push(out, crate::ids::hex_digit_char((x % 16) as u8));
    } else {
        string_push(out, c);
    }
    proof {
        assert(final(out)@ =~= old(out)@ + escape_char(c));
    }
}

/// Appends the escape of `s`.
fn push_escaped(out: &mut String, s: &str)
    ensures
        final(out)@ == old(out)@ + escape(s@),
{
    let cs = str_chars(s);
    push_escaped_chars(out, &cs);
}

/// Appends the escape of a character sequence.
fn push_escaped_chars(out: &mut String, cs: &Vec<char>)
    ensures
        final(out)@ == old(out)@ + escape(cs@),
{
    let mut i: usize = 0;
    while i < cs.len()
        invariant
            i <= cs.len(),
            out@ == old(out)@ + escape(cs@.subrange(0, i as int)),
        decreases cs.len() - i,
    {
        let c = cs[i];
        push_escaped_char(out, c);
        proof {
            let p = cs@.subrange(0, i + 1);
            assert(p.drop_last() =~= cs@.subrange(0, i as int));
            assert(p.last() == c);
        }
        i = i + 1;
    }
    assert(cs@.subrange(0, cs.len() as int) =~= cs@);
}

/// Whether a character sequence starts with `hex:` or `txt:`.
fn is_tagged(s: &Vec<char>) -> (b: bool)
    ensures
        b == tagged(s@),
{
    if s.len() < 4 {
        return false;
    }
    let r = (s[0] == 'h' && s[1] == 'e' && s[2] == 'x' && s[3] == ':') || (s[0] == 't' && s[1] == 'x' && s[2] == 't' && s[3]
        == ':');
    proof {
        let p = s@.subrange(0, 4);
        if r {
            assert(p =~= hex_tag() || p =~= txt_tag());
        } else {
            assert(p != hex_tag()) by {
                if p == hex_tag() {
                    assert(p[0] == 'h' && p[1] == 'e' && p[2] == 'x' && p[3] == ':');
                }
            }
            assert(p != txt_tag()) by {
                if p == txt_tag() {
                    assert(p[0] == 't' && p[1] == 'x' && p[2] == 't' && p[3] == ':');
                }
            }
        }
    }
    r
}

proof fn lemma_dec_value_prefix_mono(d: Seq<char>, k: int)
    requires
        0 <= k <= d.len(),
        forall|i: int| 0 <= i < d.len() ==> is_digit(#[trigger] d[i]),
    ensures
        dec_value(d) >= dec_value(d.subrange(0, k)),
    decreases d.len() - k,
{
    if k < d.len() {
        lemma_dec_value_prefix_mono(d, k + 1);
        let p = d.subrange(0, k + 1);
        assert(p.drop_last() =~= d.subrange(0, k));
        assert(is_digit(d[k]));
    } else {
        assert(d.subrange(0, k) =~= d);
    }
}

/// The value of a digit string, when it is at most `limit`.
fn digits_value(d: &Vec<char>, limit: u128) -> (r: Option<u128>)
    requires
        forall|i: int| 0 <= i < d@.len() ==> is_digit(#[trigger] d@[i]),
        limit < 0x1_0000_0000_0000_0000_0000,
    ensures
        match r {
            Some(v) => v == dec_value(d@) && dec_value(d@) <= limit,
            None => dec_value(d@) > limit,
        },
{
    let mut v: u128 = 0;
    let mut i: usize = 0;
    while i < d.len()
        invariant
            i <= d.len(),
            limit < 0x1_0000_0000_0000_0000_0000,
            forall|k: int| 0 <= k < d@.len() ==> is_digit(#[trigger] d@[k]),
            v == dec_value(d@.subrange(0, i as int)),
            v <= limit,
        decreases d.len() - i,
    {
        let c = d[i];
        let dv = (c as u32 - 48) as u128;
        proof {
            let p = d@.subrange(0, i + 1);
            assert(p.drop_last() =~= d@.subrange(0, i as int));
            assert(is_digit(d@[i as int]));
        }
        let nv = v * 10 + dv;
        if nv > limit {
            proof {
                lemma_dec_value_prefix_mono(d@, i as int + 1);
            }
            return None;
        }
        v = nv;
        i = i + 1;
    }
    assert(d@.subrange(0, d.len() as int) =~= d@);
    Some(v)
}


pub(crate) proof fn lemma_dec_digits_plain(n: nat)
    ensures
        forall|i: int| 0 <= i < dec_digits(n).len() ==> is_digit(#[trigger] dec_digits(n)[i]),
        dec_digits(n).len() > 0,
    decreases n,
{
    if n >= 10 {
        lemma_dec_digits_plain(n / 10);
    }
}

proof fn lemma_digits_plain(s: Seq<char>)
    requires
        forall|i: int| 0 <= i < s.len() ==> is_digit(#[trigger] s[i]),
    ensures
        escape(s) == s,
{
    assert forall|i: int| 0 <= i < s.len() implies plain_char(#[trigger] s[i]) by {
        assert(is_digit(s[i]));
    }
    lemma_escape_plain(s);
}

proof fn lemma_hex_plain(b: Seq<u8>)
    ensures
        escape(hex_tag() + spec_hex(b)) == hex_tag() + spec_hex(b),
{
    let h = hex_tag() + spec_hex(b);
    assert forall|i: int| 0 <= i < h.len() implies plain_char(#[trigger] h[i]) by {
        if i >= 4 {
            let j = i - 4;
            assert(h[i] == spec_hex(b)[j]);
            let byte = b[j / 2];
            assert(byte / 16 < 16 && byte % 16 < 16);
        }
    }
    lemma_escape_plain(h);
}

proof fn lemma_tag_plain(t: Seq<char>, s: Seq<char>)
    requires
        t == txt_tag() || t == unsupported_tag(),
    ensures
        escape(t + s) == t + escape(s),
{
    lemma_escape_append(t, s);
    assert forall|i: int| 0 <= i < t.len() implies plain_char(#[trigger] t[i]) by {}
    lemma_escape_plain(t);
}

/// Appends chars that are written as themselves.
fn push_plain(out: &mut String, cs: &Vec<char>)
    requires
        forall|i: int| 0 <= i < cs@.len() ==> plain_char(#[trigger] cs@[i]),
    ensures
        final(out)@ == old(out)@ + escape(cs@),
{
    proof {
        lemma_escape_plain(cs@);
    }
    push_chars(out, cs);
}

/// Appends the lowercase hex of bytes.
fn push_hex(out: &mut String, b: &[u8])
    ensures
        final(out)@ == old(out)@ + spec_hex(b@),
{
    let mut i: usize = 0;
    while i < b.len()
        invariant
            i <= b.len(),
            out@ == old(out)@ + spec_hex(b@.subrange(0, i as int)),
        decreases b.len() - i,
    {
        let x = b[i];
        string_push(out, crate::ids::hex_digit_char(x / 16));
        string_push(out, crate::ids::hex_digit_char(x % 16));
        proof {
            assert(spec_hex(b@.subrange(0, i + 1)) =~= spec_hex(b@.subrange(0, i as int)).push(
                hex_char((x / 16) as int),
            ).push(hex_char((x % 16) as int)));
        }
        i = i + 1;
    }
    assert(b@.subrange(0, b.len() as int) =~= b@);
}

proof fn lemma_nonzero_digits(d: Seq<char>)
    requires
        canonical_digits(d),
        d != seq!['0'],
    ensures
        dec_value(d) >= 1,
{
    lemma_dec_value_prefix_mono(d, 1);
    let p = d.subrange(0, 1);
    assert(p.drop_last() =~= Seq::<char>::empty());
    if d.len() == 1 {
        assert(d =~= seq![d[0]]);
    }
    assert(d[0] != '0');
    assert(is_digit(d[0]));
}

/// The integer key a map-key string spells (see [`int_key`]).
pub(crate) fn try_parse_int_key(s: &Vec<char>) -> (r: Option<Value>)
    ensures
        match int_key(s@) {
            Some(m) => r matches Some(v) && v@ == m,
            None => r is None,
        },
{
    let n = s.len();
    let neg = n > 0 && s[0] == '-';
    let start: usize = if neg {
        1
    } else {
        0
    };
    let ghost dspec = if neg {
        s@.drop_first()
    } else {
        s@
    };
    let mut d: Vec<char> = Vec::new();
    let mut i: usize = start;
    while i < n
        invariant
            start <= i <= n,
            n == s@.len(),
            start == (if neg { 1int } else { 0int }),
            neg == (s@.len() > 0 && s@[0] == '-'),
            dspec == (if neg { s@.drop_first() } else { s@ }),
            dspec == s@.subrange(start as int, n as int),
            d@ == dspec.subrange(0, i - start),
            forall|k: int| 0 <= k < d@.len() ==> is_digit(#[trigger] d@[k]),
        decreases n - i,
    {
        let c = s[i];
        if !('0' <= c && c <= '9') {
            assert(dspec[i - start] == c);
            assert(!is_digit(dspec[i - start]));
            assert(!canonical_digits(dspec));
            return None;
        }
        d.push(c);
        assert(d@ =~= dspec.subrange(0, i + 1 - start));
        i = i + 1;
    }
    assert(d@ =~= dspec);
    if d.len() == 0 {
        return None;
    }
    if d.len() > 1 && d[0] == '0' {
        return None;
    }
    if neg && d.len() == 1 && d[0] == '0' {
        assert(dspec =~= seq!['0']);
        return None;
    }
    proof {
        if neg {
            assert(dspec != seq!['0']);
            lemma_nonzero_digits(dspec);
        }
    }
    if neg {
        match digits_value(&d, 0x1_0000_0000_0000_0000) {
            Some(m) => Some(Value::Nint((m - 1) as u64)),
            None => None,
        }
    } else {
        match digits_value(&d, 0xffff_ffff_ffff_ffff) {
            Some(m) => Some(Value::Uint(m as u64)),
            None => None,
        }
    }
}

/// Appends the escaped string content of a map key.
fn push_key(out: &mut String, k: &Value)
    ensures
        final(out)@ == old(out)@ + escape(key_json(k@)),
{
    match k {
        Value::Uint(n) => {
            let d = decimal(*n as u128);
            proof {
                lemma_dec_digits_plain(*n as nat);
                lemma_digits_plain(d@);
            }
            push_chars(out, &d);
        },
        Value::Nint(n) => {
            let d = decimal(*n as u128 + 1);
            proof {
                lemma_dec_digits_plain(*n as nat + 1);
                lemma_escape_append(seq!['-'], d@);
                lemma_digits_plain(d@);
                lemma_escape_plain(seq!['-']);
            }
            string_push(out, '-');
            push_chars(out, &d);
            proof {
                assert(final(out)@ =~= old(out)@ + escape(seq!['-'] + d@));
            }
        },
        Value::Bytes(b) => {
            proof {
                lemma_hex_plain(b@);
            }
            push_str(out, "hex:");
            proof {
                reveal_strlit("hex:");
            }
            push_hex(out, b.as_slice());
            proof {
                assert(final(out)@ =~= old(out)@ + (hex_tag() + spec_hex(b@)));
            }
        },
        Value::Text(t) => {
            let cs = str_chars(t.as_str());
            if is_tagged(&cs) || try_parse_int_key(&cs).is_some() {
                proof {
                    reveal_strlit("txt:");
                    lemma_tag_plain(txt_tag(), t@);
                }
                push_str(out, "txt:");
                push_escaped(out, t.as_str());
                proof {
                    assert(final(out)@ =~= old(out)@ + (txt_tag() + escape(t@)));
                }
            } else {
                push_escaped(out, t.as_str());
            }
        },
        _ => {
            let dbg = debug_string(k);
            proof {
                reveal_strlit("unsupported-key:");
                lemma_tag_plain(unsupported_tag(), dbg@);
            }
            push_str(out, "unsupported-key:");
            push_escaped(out, dbg.as_str());
            proof {
                assert(final(out)@ =~= old(out)@ + (unsupported_tag() + escape(dbg@)));
            }
        },
    }
}


proof fn lemma_items_step(ms: Seq<Model>, i: int)
    requires
        0 <= i < ms.len(),
    ensures
        json_items(ms.subrange(0, i + 1)) == json_items(ms.subrange(0, i)) + (if i > 0 {
            seq![',']
        } else {
            Seq::empty()
        }) + json_of(ms[i]),
{
    let p = ms.subrange(0, i + 1);
    assert(p.drop_last() =~= ms.subrange(0, i));
    assert(p.last() == ms[i]);
    if i == 0 {
        assert(p[0] == ms[0]);
        assert(json_items(ms.subrange(0, 0)) =~= Seq::<char>::empty());
        assert(json_items(p) =~= Seq::<char>::empty() + Seq::<char>::empty() + json_of(ms[0]));
    }
}

proof fn lemma_entries_step(es: Seq<(Model, Model)>, i: int)
    requires
        0 <= i < es.len(),
    ensures
        json_entries(es.subrange(0, i + 1)) == json_entries(es.subrange(0, i)) + (if i > 0 {
            seq![',']
        } else {
            Seq::empty()
        }) + quoted(key_json(es[i].0)) + seq![':'] + json_of(es[i].1),
{
    let p = es.subrange(0, i + 1);
    assert(p.drop_last() =~= es.subrange(0, i));
    assert(p.last() == es[i]);
    if i == 0 {
        assert(p[0] == es[0]);
        assert(json_entries(es.subrange(0, 0)) =~= Seq::<char>::empty());
        assert(json_entries(p) =~= Seq::<char>::empty() + Seq::<char>::empty() + quoted(key_json(es[0].0)) + seq![':']
            + json_of(es[0].1));
    }
}

/// Appends the rendering of a text or byte string.
fn string_to_json(v: &Value, out: &mut String)
    requires
        v is Text || v is Bytes,
    ensures
        final(out)@ == old(out)@ + json_of(v@),
{
    match v {
        Value::Bytes(b) => {
            proof {
                lemma_hex_plain(b@);
                reveal_strlit("hex:");
            }
            string_push(out, '"');
            push_str(out, "hex:");
            push_hex(out, b.as_slice());
            string_push(out, '"');
            proof {
                assert(final(out)@ =~= old(out)@ + quoted(bytes_json(b@)));
            }
        },
        Value::Text(t) => {
            string_push(out, '"');
            let cs = str_chars(t.as_str());
            if is_tagged(&cs) {
                proof {
                    reveal_strlit("txt:");
                    lemma_tag_plain(txt_tag(), t@);
                }
                push_str(out, "txt:");
                push_escaped(out, t.as_str());
            } else {
                push_escaped(out, t.as_str());
            }
            string_push(out, '"');
            proof {
                assert(final(out)@ =~= old(out)@ + quoted(text_json(t@)));
            }
        },
        _ => {},
    }
}

/// Appends the rendering of an integer, boolean or null.
fn scalar_to_json(v: &Value, out: &mut String)
    requires
        v is Uint || v is Nint || v is Bool || v is Null,
    ensures
        final(out)@ == old(out)@ + json_of(v@),
{
    match v {
        Value::Uint(n) => {
            let d = decimal(*n as u128);
            push_chars(out, &d);
        },
        Value::Nint(n) => {
            let d = decimal(*n as u128 + 1);
            string_push(out, '-');
            push_chars(out, &d);
            proof {
                assert(final(out)@ =~= old(out)@ + (seq!['-'] + d@));
            }
        },
        Value::Bool(b) => {
            if *b {
                push_str(out, "true");
                proof {
                    reveal_strlit("true");
                    assert(final(out)@ =~= old(out)@ + json_of(v@));
                }
            } else {
                push_str(out, "false");
                proof {
                    reveal_strlit("false");
                    assert(final(out)@ =~= old(out)@ + json_of(v@));
                }
            }
        },
        Value::Null => {
            push_str(out, "null");
            proof {
                reveal_strlit("null");
                assert(final(out)@ =~= old(out)@ + json_of(v@));
            }
        },
        _ => {},
    }
}

/// Appends the rendering of a value.
fn value_to_json(v: &Value, out: &mut String)
    ensures
        final(out)@ == old(out)@ + json_of(v@),
    decreases v,
{
    match v {
        Value::Array(items) => {
            proof {
                assert(decreases_to!(*v => *items));
            }
            items_to_json(items, out);
        },
        Value::Dict(entries) => {
            proof {
                assert(decreases_to!(*v => *entries));
            }
            entries_to_json(entries, out);
        },
        Value::Text(_) | Value::Bytes(_) => string_to_json(v, out),
        _ => scalar_to_json(v, out),
    }
}

/// Appends the rendering of an array.
#[verifier::loop_isolation(false)]
#[verifier::spinoff_prover]
fn items_to_json(items: &Vec<Value>, out: &mut String)
    ensures
        final(out)@ == old(out)@ + json_of(Model::Array(model_list(items@))),
    decreases items,
{
    proof {
        lemma_model_list(items@);
    }
    let ghost ms = model_list(items@);
    let ghost start = out@;
    string_push(out, '[');
    let mut i: usize = 0;
    while i < items.len()
        invariant
            i <= items.len(),
            ms == model_list(items@),
            ms.len() == items.len(),
            forall|k: int| 0 <= k < items.len() ==> #[trigger] ms[k] == items@[k]@,
            out@ == start + seq!['['] + json_items(ms.subrange(0, i as int)),
        decreases items.len() - i,
    {
        proof {
            assert(decreases_to!(*items => items@[i as int]));
            lemma_items_step(ms, i as int);
        }
        if i > 0 {
            string_push(out, ',');
        }
        value_to_json(&items[i], out);
        i = i + 1;
    }
    string_push(out, ']');
    proof {
        assert(ms.subrange(0, items.len() as int) =~= ms);
        assert(final(out)@ =~= old(out)@ + json_of(Model::Array(ms)));
    }
}

/// Appends the rendering of a map.
#[verifier::loop_isolation(false)]
#[verifier::spinoff_prover]
#[verifier::rlimit(40)]
fn entries_to_json(entries: &Vec<(Value, Value)>, out: &mut String)
    ensures
        final(out)@ == old(out)@ + json_of(Model::Dict(model_entries(entries@))),
    decreases entries,
{
    proof {
        lemma_model_entries(entries@);
    }
    let ghost es = model_entries(entries@);
    let ghost start = out@;
    string_push(out, '{');
    let mut i: usize = 0;
    while i < entries.len()
        invariant
            i <= entries.len(),
            es == model_entries(entries@),
            es.len() == entries.len(),
            forall|k: int| 0 <= k < entries.len() ==> #[trigger] es[k] == (entries@[k].0@, entries@[k].1@),
            out@ == start + seq!['{'] + json_entries(es.subrange(0, i as int)),
        decreases entries.len() - i,
    {
        proof {
            assert(decreases_to!(*entries => entries@[i as int].1));
            lemma_entries_step(es, i as int);
        }
        if i > 0 {
            string_push(out, ',');
        }
        string_push(out, '"');
        push_key(out, &entries[i].0);
        string_push(out, '"');
        string_push(out, ':');
        value_to_json(&entries[i].1, out);
        i = i + 1;
    }
    string_push(out, '}');
    proof {
        assert(es.subrange(0, entries.len() as int) =~= es);
        assert(final(out)@ =~= old(out)@ + json_of(Model::Dict(es)));
    }
}

/// The JSON interchange form of a value (see [`json_of`]).
pub fn to_json(v: &Value) -> (s: String)
    ensures
        s@ == json_of(v@),
{
    let mut out = String::new();
    value_to_json(v, &mut out);
    proof {
        assert(out@ =~= json_of(v@));
    }
    out
}


// ---------------------------------------------------------------------
// Reading
// ---------------------------------------------------------------------

/// JSON whitespace.
pub open spec fn is_ws(c: char) -> bool {
    c == ' ' || c == '\t' || c == '\n' || c == '\r'
}

/// The first position at or after `pos` that is not whitespace.
pub open spec fn skip_ws(s: Seq<char>, pos: int) -> int
    decreases s.len() - pos,
{
    if 0 <= pos < s.len() && is_ws(s[pos]) {
        skip_ws(s, pos + 1)
    } else {
        pos
    }
}

pub proof fn lemma_skip_ws(s: Seq<char>, pos: int)
    ensures
        skip_ws(s, pos) >= pos,
        pos <= s.len() ==> skip_ws(s, pos) <= s.len(),
        0 <= pos ==> (skip_ws(s, pos) < s.len() ==> !is_ws(s[skip_ws(s, pos)])),
    decreases s.len() - pos,
{
    if 0 <= pos < s.len() && is_ws(s[pos]) {
        lemma_skip_ws(s, pos + 1);
    }
}

/// The value of a hex digit of either case.
pub open spec fn hex_val(c: char) -> Option<int> {
    if '0' <= c <= '9' {
        Some(c as int - 48)
    } else if 'a' <= c <= 'f' {
        Some(c as int - 87)
    } else if 'A' <= c <= 'F' {
        Some(c as int - 55)
    } else {
        None
    }
}

/// Four hex digits at `pos`.
pub open spec fn hex4(s: Seq<char>, pos: int) -> Option<int> {
    if 0 <= pos && pos + 4 <= s.len() && hex_val(s[pos]) is Some && hex_val(s[pos + 1]) is Some && hex_val(
        s[pos + 2],
    ) is Some && hex_val(s[pos + 3]) is Some {
        Some(
            ((hex_val(s[pos])->0 * 16 + hex_val(s[pos + 1])->0) * 16 + hex_val(s[pos + 2])->0) * 16 + hex_val(
                s[pos + 3],
            )->0,
        )
    } else {
        None
    }
}

/// The character an escape after a backslash at `pos - 1` stands for,
/// and where the string goes on.
pub open spec fn p_escape(s: Seq<char>, pos: int) -> Option<(char, int)> {
    if pos < 0 || pos >= s.len() {
        None
    } else {
        let e = s[pos];
        if e == '"' {
            Some(('"', pos + 1))
        } else if e == '\\' {
            Some(('\\', pos + 1))
        } else if e == '/' {
            Some(('/', pos + 1))
        } else if e == 'b' {
            Some(('\u{08}', pos + 1))
        } else if e == 'f' {
            Some(('\u{0c}', pos + 1))
        } else if e == 'n' {
            Some(('\n', pos + 1))
        } else if e == 'r' {
            Some(('\r', pos + 1))
        } else if e == 't' {
            Some(('\t', pos + 1))
        } else if e == 'u' {
            match hex4(s, pos + 1) {
                None => None,
                Some(cp) => if 0xD800 <= cp <= 0xDBFF {
                    if pos + 6 < s.len() && s[pos + 5] == '\\' && s[pos + 6] == 'u' {
                        match hex4(s, pos + 7) {
                            Some(low) => if 0xDC00 <= low <= 0xDFFF {
                                Some(((0x10000 + (cp - 0xD800) * 1024 + (low - 0xDC00)) as char, pos + 11))
                            } else {
                                None
                            },
                            None => None,
                        }
                    } else {
                        None
                    }
                } else if 0xDC00 <= cp <= 0xDFFF {
                    None
                } else {
                    Some((cp as char, pos + 5))
                },
            }
        } else {
            None
        }
    }
}

/// `r` with `t` in front of its string.
pub open spec fn prefixed(t: Seq<char>, r: Option<(Seq<char>, int)>) -> Option<(Seq<char>, int)> {
    match r {
        Some((x, e)) => Some((t + x, e)),
        None => None,
    }
}

/// The content of a string literal whose opening quote is before
/// `pos`, and the position after its closing quote.
pub open spec fn p_string(s: Seq<char>, pos: int) -> Option<(Seq<char>, int)>
    decreases s.len() - pos,
{
    if pos < 0 || pos >= s.len() {
        None
    } else {
        let c = s[pos];
        if c == '"' {
            Some((Seq::empty(), pos + 1))
        } else if c == '\\' {
            match p_escape(s, pos + 1) {
                Some((ch, next)) => if pos < next {
                    prefixed(seq![ch], p_string(s, next))
                } else {
                    None
                },
                None => None,
            }
        } else if (c as u32) < 0x20 {
            None
        } else {
            prefixed(seq![c], p_string(s, pos + 1))
        }
    }
}

pub proof fn lemma_p_string_advances(s: Seq<char>, pos: int)
    requires
        p_string(s, pos) is Some,
    ensures
        (p_string(s, pos)->0).1 > pos,
    decreases s.len() - pos,
{
    let c = s[pos];
    if c == '\\' {
        let (ch, next) = p_escape(s, pos + 1)->0;
        lemma_p_string_advances(s, next);
    } else if c != '"' {
        lemma_p_string_advances(s, pos + 1);
    }
}

/// Whether every character is a lowercase hex digit.
pub open spec fn lower_hex(h: Seq<char>) -> bool {
    forall|i: int| 0 <= i < h.len() ==> ('0' <= #[trigger] h[i] <= '9' || 'a' <= h[i] <= 'f')
}

/// The bytes spelled by lowercase hex of even length.
pub open spec fn hex_decode(h: Seq<char>) -> Option<Seq<u8>> {
    if h.len() % 2 == 0 && lower_hex(h) {
        Some(Seq::new(h.len() / 2, |i: int| (hex_val(h[2 * i])->0 * 16 + hex_val(h[2 * i + 1])->0) as u8))
    } else {
        None
    }
}

/// The value a JSON string stands for: `hex:` is bytes, `txt:` is
/// stripped, anything else is text.
pub open spec fn string_value(raw: Seq<char>) -> Option<Model> {
    if has_prefix(raw, hex_tag()) {
        match hex_decode(raw.skip(4)) {
            Some(b) => Some(Model::Bytes(b)),
            None => None,
        }
    } else if has_prefix(raw, txt_tag()) {
        Some(Model::Text(raw.skip(4)))
    } else {
        Some(Model::Text(raw))
    }
}

/// The key a JSON object key string stands for.
pub open spec fn key_value(raw: Seq<char>) -> Option<Model> {
    match int_key(raw) {
        Some(k) => Some(k),
        None => string_value(raw),
    }
}

/// The first position at or after `pos` that is not a digit.
pub open spec fn digits_end(s: Seq<char>, pos: int) -> int
    decreases s.len() - pos,
{
    if 0 <= pos < s.len() && is_digit(s[pos]) {
        digits_end(s, pos + 1)
    } else {
        pos
    }
}

/// A JSON integer at `pos`: no leading zero, no `-0`, no fraction or
/// exponent; positive values fit `u64`, negative values `i64`.
pub open spec fn p_number(s: Seq<char>, pos: int) -> Option<(Model, int)> {
    let neg = 0 <= pos < s.len() && s[pos] == '-';
    let ds = if neg {
        pos + 1
    } else {
        pos
    };
    let de = digits_end(s, ds);
    let d = s.subrange(ds, de);
    if de <= ds {
        None
    } else if de < s.len() && (s[de] == '.' || s[de] == 'e' || s[de] == 'E') {
        None
    } else if d.len() > 1 && d[0] == '0' {
        None
    } else if neg {
        if d =~= seq!['0'] || dec_value(d) > 0x8000_0000_0000_0000 {
            None
        } else {
            Some((Model::Nint((dec_value(d) - 1) as u64), de))
        }
    } else if dec_value(d) > u64::MAX as nat {
        None
    } else {
        Some((Model::Uint(dec_value(d) as u64), de))
    }
}

/// A literal word at `pos`.
pub open spec fn p_literal(s: Seq<char>, pos: int, lit: Seq<char>, m: Model) -> Option<(Model, int)> {
    if 0 <= pos && pos + lit.len() <= s.len() && s.subrange(pos, pos + lit.len() as int) == lit {
        Some((m, pos + lit.len()))
    } else {
        None
    }
}

/// Whether a key occurs among map entries.
pub open spec fn has_key(es: Seq<(Model, Model)>, k: Model) -> bool {
    exists|i: int| 0 <= i < es.len() && es[i].0 == k
}

/// The JSON value at `pos` (after whitespace), nested `depth` deep,
/// and the position after it.
pub open spec fn p_value(s: Seq<char>, pos: int, depth: int) -> Option<(Model, int)>
    decreases s.len() - pos, 0int,
{
    if depth > 64 || pos < 0 || pos > s.len() {
        None
    } else {
        let p = skip_ws(s, pos);
        proof {
            lemma_skip_ws(s, pos);
        }
        if p >= s.len() {
            None
        } else {
            let c = s[p];
            if c == '{' {
                p_object(s, p + 1, depth)
            } else if c == '[' {
                p_array(s, p + 1, depth)
            } else if c == '"' {
                match p_string(s, p + 1) {
                    Some((raw, e)) => match string_value(raw) {
                        Some(m) => Some((m, e)),
                        None => None,
                    },
                    None => None,
                }
            } else if c == '-' || is_digit(c) {
                p_number(s, p)
            } else if c == 't' {
                p_literal(s, p, seq!['t', 'r', 'u', 'e'], Model::Bool(true))
            } else if c == 'f' {
                p_literal(s, p, seq!['f', 'a', 'l', 's', 'e'], Model::Bool(false))
            } else if c == 'n' {
                p_literal(s, p, seq!['n', 'u', 'l', 'l'], Model::Null)
            } else {
                None
            }
        }
    }
}

/// The array whose `[` is before `pos`.
pub open spec fn p_array(s: Seq<char>, pos: int, depth: int) -> Option<(Model, int)>
    decreases s.len() - pos, 2int,
{
    if pos < 0 || pos > s.len() {
        None
    } else {
        let q = skip_ws(s, pos);
        proof {
            lemma_skip_ws(s, pos);
        }
        if q < s.len() && s[q] == ']' {
            Some((Model::Array(Seq::empty()), q + 1))
        } else {
            p_items(s, q, depth, Seq::empty())
        }
    }
}

/// The rest of an array from an item at `pos`, after the items `acc`.
pub open spec fn p_items(s: Seq<char>, pos: int, depth: int, acc: Seq<Model>) -> Option<(Model, int)>
    decreases s.len() - pos, 1int,
{
    if pos < 0 || pos > s.len() {
        None
    } else {
        match p_value(s, pos, depth + 1) {
            None => None,
            Some((v, p2)) => {
                let p3 = skip_ws(s, p2);
                if 0 <= p3 < s.len() && s[p3] == ',' {
                    let p4 = skip_ws(s, p3 + 1);
                    proof {
                        lemma_skip_ws(s, p3 + 1);
                    }
                    if p4 <= pos {
                        None
                    } else {
                        p_items(s, p4, depth, acc.push(v))
                    }
                } else if 0 <= p3 < s.len() && s[p3] == ']' {
                    Some((Model::Array(acc.push(v)), p3 + 1))
                } else {
                    None
                }
            },
        }
    }
}

/// The object whose `{` is before `pos`.
pub open spec fn p_object(s: Seq<char>, pos: int, depth: int) -> Option<(Model, int)>
    decreases s.len() - pos, 2int,
{
    if pos < 0 || pos > s.len() {
        None
    } else {
        let q = skip_ws(s, pos);
        proof {
            lemma_skip_ws(s, pos);
        }
        if q < s.len() && s[q] == '}' {
            Some((Model::Dict(Seq::empty()), q + 1))
        } else {
            p_entries(s, q, depth, Seq::empty())
        }
    }
}

/// The rest of an object from an entry at `pos`, after the entries
/// `acc`. A key that occurs twice is refused.
pub open spec fn p_entries(s: Seq<char>, pos: int, depth: int, acc: Seq<(Model, Model)>) -> Option<(Model, int)>
    decreases s.len() - pos, 1int,
{
    if pos < 0 || pos > s.len() {
        None
    } else {
        let q = skip_ws(s, pos);
        proof {
            lemma_skip_ws(s, pos);
        }
        if !(q < s.len() && s[q] == '"') {
            None
        } else {
            match p_string(s, q + 1) {
                None => None,
                Some((raw, p1)) => match key_value(raw) {
                    None => None,
                    Some(key) => {
                        let p2 = skip_ws(s, p1);
                        proof {
                            lemma_p_string_advances(s, q + 1);
                            lemma_skip_ws(s, p1);
                        }
                        if !(p2 < s.len() && s[p2] == ':') {
                            None
                        } else {
                            match p_value(s, p2 + 1, depth + 1) {
                                None => None,
                                Some((v, p3)) => if has_key(acc, key) {
                                    None
                                } else {
                                    let p4 = skip_ws(s, p3);
                                    if 0 <= p4 < s.len() && s[p4] == ',' {
                                        if p4 + 1 <= pos {
                                            None
                                        } else {
                                            p_entries(s, p4 + 1, depth, acc.push((key, v)))
                                        }
                                    } else if 0 <= p4 < s.len() && s[p4] == '}' {
                                        Some((Model::Dict(acc.push((key, v))), p4 + 1))
                                    } else {
                                        None
                                    }
                                },
                            }
                        }
                    },
                },
            }
        }
    }
}

/// The value a whole JSON text stands for: one value, then only
/// whitespace.
pub open spec fn spec_from_json(s: Seq<char>) -> Option<Model> {
    match p_value(s, 0, 0) {
        Some((m, e)) => if skip_ws(s, e) < s.len() {
            None
        } else {
            Some(m)
        },
        None => None,
    }
}


fn skip_ws_at(s: &Vec<char>, pos: usize) -> (r: usize)
    ensures
        r == skip_ws(s@, pos as int),
        pos <= r,
        pos <= s@.len() ==> r <= s@.len(),
{
    let mut p = pos;
    while p < s.len() && (s[p] == ' ' || s[p] == '\t' || s[p] == '\n' || s[p] == '\r')
        invariant
            pos <= p,
            pos <= s@.len() ==> p <= s@.len(),
            skip_ws(s@, pos as int) == skip_ws(s@, p as int),
        decreases s@.len() - p,
    {
        p = p + 1;
    }
    p
}

fn hex_val_of(c: char) -> (r: Option<u32>)
    ensures
        match hex_val(c) {
            Some(v) => r == Some(v as u32),
            None => r is None,
        },
{
    let x = c as u32;
    if '0' <= c && c <= '9' {
        Some(x - 48)
    } else if 'a' <= c && c <= 'f' {
        Some(x - 87)
    } else if 'A' <= c && c <= 'F' {
        Some(x - 55)
    } else {
        None
    }
}

fn read_hex4(s: &Vec<char>, pos: usize) -> (r: Option<u32>)
    ensures
        match hex4(s@, pos as int) {
            Some(v) => r == Some(v as u32),
            None => r is None,
        },
{
    if pos > s.len() || s.len() - pos < 4 {
        return None;
    }
    let a = match hex_val_of(s[pos]) {
        Some(v) => v,
        None => {
            return None;
        },
    };
    let b = match hex_val_of(s[pos + 1]) {
        Some(v) => v,
        None => {
            return None;
        },
    };
    let c = match hex_val_of(s[pos + 2]) {
        Some(v) => v,
        None => {
            return None;
        },
    };
    let d = match hex_val_of(s[pos + 3]) {
        Some(v) => v,
        None => {
            return None;
        },
    };
    Some(((a * 16 + b) * 16 + c) * 16 + d)
}

fn parse_escape(s: &Vec<char>, pos: usize) -> (r: Result<(char, usize), Error>)
    requires
        pos <= s@.len(),
    ensures
        match p_escape(s@, pos as int) {
            Some((c, e)) => r == Ok::<(char, usize), Error>((c, e as usize)),
            None => r matches Err(x) && x is Cbor,
        },
{
    if pos >= s.len() {
        return Err(Error::Cbor("json: unterminated escape"));
    }
    let e = s[pos];
    if e == '"' {
        Ok(('"', pos + 1))
    } else if e == '\\' {
        Ok(('\\', pos + 1))
    } else if e == '/' {
        Ok(('/', pos + 1))
    } else if e == 'b' {
        Ok(('\u{08}', pos + 1))
    } else if e == 'f' {
        Ok(('\u{0c}', pos + 1))
    } else if e == 'n' {
        Ok(('\n', pos + 1))
    } else if e == 'r' {
        Ok(('\r', pos + 1))
    } else if e == 't' {
        Ok(('\t', pos + 1))
    } else if e == 'u' {
        let cp = match read_hex4(s, pos + 1) {
            Some(v) => v,
            None => {
                return Err(Error::Cbor("json: invalid unicode escape"));
            },
        };
        if 0xD800 <= cp && cp <= 0xDBFF {
            if !(s.len() - pos > 6 && s[pos + 5] == '\\' && s[pos + 6] == 'u') {
                return Err(Error::Cbor("json: lone surrogate"));
            }
            let low = match read_hex4(s, pos + 7) {
                Some(v) => v,
                None => {
                    return Err(Error::Cbor("json: invalid unicode escape"));
                },
            };
            if !(0xDC00 <= low && low <= 0xDFFF) {
                return Err(Error::Cbor("json: invalid surrogate pair"));
            }
            let combined: u32 = 0x10000 + ((cp - 0xD800) * 1024) + (low - 0xDC00);
            match char_from_u32(combined) {
                Some(ch) => Ok((ch, pos + 11)),
                None => Err(Error::Cbor("json: invalid unicode scalar")),
            }
        } else if 0xDC00 <= cp && cp <= 0xDFFF {
            Err(Error::Cbor("json: lone surrogate"))
        } else {
            match char_from_u32(cp) {
                Some(ch) => Ok((ch, pos + 5)),
                None => Err(Error::Cbor("json: invalid unicode scalar")),
            }
        }
    } else {
        Err(Error::Cbor("json: invalid escape sequence"))
    }
}

/// Reads a string literal whose opening quote is before `pos`.
fn parse_string(s: &Vec<char>, pos: usize) -> (r: Result<(Vec<char>, usize), Error>)
    requires
        pos <= s@.len(),
    ensures
        match p_string(s@, pos as int) {
            Some((t, e)) => r matches Ok((v, e2)) && v@ == t && e2 == e,
            None => r matches Err(x) && x is Cbor,
        },
{
    let mut out: Vec<char> = Vec::new();
    let mut p = pos;
    while p < s.len()
        invariant
            pos <= p <= s@.len(),
            p_string(s@, pos as int) == prefixed(out@, p_string(s@, p as int)),
        decreases s@.len() - p,
    {
        let c = s[p];
        if c == '"' {
            proof {
                assert(out@ + Seq::<char>::empty() =~= out@);
            }
            return Ok((out, p + 1));
        } else if c == '\\' {
            let (ch, next) = match parse_escape(s, p + 1) {
                Ok(x) => x,
                Err(e) => {
                    return Err(e);
                },
            };
            proof {
                assert(p_string(s@, p as int) == prefixed(seq![ch], p_string(s@, next as int)));
                let r = p_string(s@, next as int);
                if r is Some {
                    assert(out@ + (seq![ch] + (r->0).0) =~= out@.push(ch) + (r->0).0);
                }
            }
            out.push(ch);
            p = next;
        } else if (c as u32) < 0x20 {
            return Err(Error::Cbor("json: control character in string"));
        } else {
            proof {
                let r = p_string(s@, p + 1);
                if r is Some {
                    assert(out@ + (seq![c] + (r->0).0) =~= out@.push(c) + (r->0).0);
                }
            }
            out.push(c);
            p = p + 1;
        }
    }
    Err(Error::Cbor("json: unterminated string"))
}

pub(crate) fn chars_to_string(cs: &Vec<char>, from: usize) -> (r: String)
    requires
        from <= cs@.len(),
    ensures
        r@ == cs@.skip(from as int),
{
    let mut out = String::new();
    let mut i: usize = from;
    while i < cs.len()
        invariant
            from <= i <= cs.len(),
            out@ == cs@.subrange(from as int, i as int),
        decreases cs.len() - i,
    {
        string_push(&mut out, cs[i]);
        assert(cs@.subrange(from as int, i + 1) =~= cs@.subrange(from as int, i as int).push(cs@[i as int]));
        i = i + 1;
    }
    assert(cs@.subrange(from as int, cs.len() as int) =~= cs@.skip(from as int));
    out
}

fn lower_hex_val(c: char) -> (r: Option<u8>)
    ensures
        r is Some <==> ('0' <= c <= '9' || 'a' <= c <= 'f'),
        r matches Some(v) ==> v == hex_val(c)->0 && v < 16,
{
    if '0' <= c && c <= '9' {
        Some((c as u32 - 48) as u8)
    } else if 'a' <= c && c <= 'f' {
        Some((c as u32 - 87) as u8)
    } else {
        None
    }
}

/// Decodes lowercase hex from position `from`.
fn decode_hex_from(cs: &Vec<char>, from: usize) -> (r: Result<Vec<u8>, Error>)
    requires
        from <= cs@.len(),
    ensures
        match hex_decode(cs@.skip(from as int)) {
            Some(b) => r matches Ok(v) && v@ == b,
            None => r matches Err(x) && x is Cbor,
        },
{
    let ghost h = cs@.skip(from as int);
    let n = cs.len() - from;
    if n % 2 != 0 {
        return Err(Error::Cbor("json: odd-length hex string"));
    }
    let mut out: Vec<u8> = Vec::new();
    let mut i: usize = 0;
    while i < n / 2
        invariant
            n == h.len(),
            n % 2 == 0,
            h == cs@.skip(from as int),
            from + n == cs@.len(),
            from + n == cs.len(),
            i <= n / 2,
            out.len() == i,
            forall|k: int| 0 <= k < 2 * i ==> ('0' <= #[trigger] h[k] <= '9' || 'a' <= h[k] <= 'f'),
            forall|k: int| 0 <= k < i ==> #[trigger] out@[k] == (hex_val(h[2 * k])->0 * 16 + hex_val(h[2 * k + 1])->0) as u8,
        decreases n / 2 - i,
    {
        let a = match lower_hex_val(cs[from + 2 * i]) {
            Some(v) => v,
            None => {
                assert(h[2 * i as int] == cs@[from + 2 * i]);
                return Err(Error::Cbor("json: invalid hex digit"));
            },
        };
        let b = match lower_hex_val(cs[from + 2 * i + 1]) {
            Some(v) => v,
            None => {
                assert(h[2 * i + 1] == cs@[from + 2 * i + 1]);
                return Err(Error::Cbor("json: invalid hex digit"));
            },
        };
        proof {
            assert(h[2 * i as int] == cs@[from + 2 * i]);
            assert(h[2 * i + 1] == cs@[from + 2 * i + 1]);
        }
        out.push(a * 16 + b);
        i = i + 1;
    }
    proof {
        assert(lower_hex(h));
        assert(out@ =~= hex_decode(h)->0);
    }
    Ok(out)
}

/// The value a JSON string stands for (see [`string_value`]).
fn string_value_of(raw: &Vec<char>) -> (r: Result<Value, Error>)
    ensures
        match string_value(raw@) {
            Some(m) => r matches Ok(v) && v@ == m,
            None => r matches Err(x) && x is Cbor,
        },
{
    let is_hex = raw.len() >= 4 && raw[0] == 'h' && raw[1] == 'e' && raw[2] == 'x' && raw[3] == ':';
    let is_txt = raw.len() >= 4 && raw[0] == 't' && raw[1] == 'x' && raw[2] == 't' && raw[3] == ':';
    proof {
        if raw@.len() >= 4 {
            let p = raw@.subrange(0, 4);
            assert(is_hex ==> p =~= hex_tag());
            assert(is_txt ==> p =~= txt_tag());
            assert(p == hex_tag() ==> is_hex) by {
                if p == hex_tag() {
                    assert(p[0] == 'h' && p[1] == 'e' && p[2] == 'x' && p[3] == ':');
                }
            }
            assert(p == txt_tag() ==> is_txt) by {
                if p == txt_tag() {
                    assert(p[0] == 't' && p[1] == 'x' && p[2] == 't' && p[3] == ':');
                }
            }
        }
    }
    if is_hex {
        match decode_hex_from(raw, 4) {
            Ok(b) => Ok(Value::Bytes(b)),
            Err(e) => Err(e),
        }
    } else if is_txt {
        Ok(Value::Text(chars_to_string(raw, 4)))
    } else {
        let t = chars_to_string(raw, 0);
        assert(raw@.skip(0) =~= raw@);
        Ok(Value::Text(t))
    }
}

/// The key a JSON object key string stands for (see [`key_value`]).
fn key_value_of(raw: &Vec<char>) -> (r: Result<Value, Error>)
    ensures
        match key_value(raw@) {
            Some(m) => r matches Ok(v) && v@ == m && is_key(m),
            None => r matches Err(x) && x is Cbor,
        },
{
    match try_parse_int_key(raw) {
        Some(v) => Ok(v),
        None => string_value_of(raw),
    }
}

/// The kinds of value a JSON object key stands for.
pub open spec fn is_key(m: Model) -> bool {
    m is Uint || m is Nint || m is Bytes || m is Text
}

fn key_eq(a: &Value, b: &Value) -> (r: bool)
    requires
        is_key(a@),
        is_key(b@),
    ensures
        r == (a@ == b@),
{
    match (a, b) {
        (Value::Uint(x), Value::Uint(y)) => *x == *y,
        (Value::Nint(x), Value::Nint(y)) => *x == *y,
        (Value::Bytes(x), Value::Bytes(y)) => crate::text::bytes_eq(x.as_slice(), y.as_slice()),
        (Value::Text(x), Value::Text(y)) => crate::text::str_eq(x.as_str(), y.as_str()),
        _ => false,
    }
}

fn find_key(es: &Vec<(Value, Value)>, k: &Value) -> (r: bool)
    requires
        is_key(k@),
        forall|i: int| 0 <= i < es@.len() ==> is_key(#[trigger] es@[i].0@),
    ensures
        r == has_key(model_entries(es@), k@),
{
    proof {
        lemma_model_entries(es@);
    }
    let mut i: usize = 0;
    while i < es.len()
        invariant
            i <= es.len(),
            is_key(k@),
            forall|j: int| 0 <= j < es@.len() ==> is_key(#[trigger] es@[j].0@),
            model_entries(es@).len() == es@.len(),
            forall|j: int| 0 <= j < es@.len() ==> #[trigger] model_entries(es@)[j] == (es@[j].0@, es@[j].1@),
            forall|j: int| 0 <= j < i ==> es@[j].0@ != k@,
        decreases es.len() - i,
    {
        if key_eq(&es[i].0, k) {
            assert(model_entries(es@)[i as int].0 == k@);
            return true;
        }
        i = i + 1;
    }
    proof {
        if has_key(model_entries(es@), k@) {
            let j = choose|j: int| 0 <= j < model_entries(es@).len() && model_entries(es@)[j].0 == k@;
            assert(model_entries(es@)[j] == (es@[j].0@, es@[j].1@));
        }
    }
    false
}

fn parse_number(s: &Vec<char>, pos: usize) -> (r: Result<(Value, usize), Error>)
    requires
        pos < s.len(),
    ensures
        match p_number(s@, pos as int) {
            Some((m, e)) => r matches Ok((v, e2)) && v@ == m && e2 == e,
            None => r matches Err(x) && x is Cbor,
        },
{
    let neg = s[pos] == '-';
    let ds: usize = if neg {
        pos + 1
    } else {
        pos
    };
    let mut d: Vec<char> = Vec::new();
    let mut de = ds;
    while de < s.len() && '0' <= s[de] && s[de] <= '9'
        invariant
            ds <= de <= s@.len(),
            digits_end(s@, ds as int) == digits_end(s@, de as int),
            d@ == s@.subrange(ds as int, de as int),
            forall|k: int| 0 <= k < d@.len() ==> is_digit(#[trigger] d@[k]),
        decreases s@.len() - de,
    {
        d.push(s[de]);
        de = de + 1;
        assert(d@ =~= s@.subrange(ds as int, de as int));
    }
    if de <= ds {
        return Err(Error::Cbor("json: invalid number"));
    }
    if de < s.len() && (s[de] == '.' || s[de] == 'e' || s[de] == 'E') {
        return Err(Error::Cbor("json: fractional or exponential numbers are not supported"));
    }
    if d.len() > 1 && d[0] == '0' {
        return Err(Error::Cbor("json: leading zero in number"));
    }
    if neg {
        if d.len() == 1 && d[0] == '0' {
            assert(d@ =~= seq!['0']);
            return Err(Error::Cbor("json: negative zero not allowed"));
        }
        proof {
            assert(!(d@ =~= seq!['0']));
            lemma_nonzero_digits(d@);
        }
        match digits_value(&d, 0x8000_0000_0000_0000) {
            Some(m) => Ok((Value::Nint((m - 1) as u64), de)),
            None => Err(Error::Cbor("json: integer out of range")),
        }
    } else {
        match digits_value(&d, 0xffff_ffff_ffff_ffff) {
            Some(m) => Ok((Value::Uint(m as u64), de)),
            None => Err(Error::Cbor("json: integer out of range")),
        }
    }
}

fn parse_literal(s: &Vec<char>, pos: usize, lit: &str, v: Value) -> (r: Result<(Value, usize), Error>)
    requires
        pos <= s@.len(),
    ensures
        match p_literal(s@, pos as int, lit@, v@) {
            Some((m, e)) => r matches Ok((x, e2)) && x@ == m && e2 == e,
            None => r matches Err(x) && x is Cbor,
        },
{
    let l = str_chars(lit);
    if s.len() - pos < l.len() {
        return Err(Error::Cbor("json: invalid literal"));
    }
    let mut i: usize = 0;
    while i < l.len()
        invariant
            i <= l@.len(),
            pos + l@.len() <= s.len(),
            l@ == lit@,
            forall|k: int| 0 <= k < i ==> s@[pos + k] == l@[k],
        decreases l.len() - i,
    {
        if s[pos + i] != l[i] {
            assert(s@.subrange(pos as int, pos + l@.len())[i as int] != lit@[i as int]);
            return Err(Error::Cbor("json: invalid literal"));
        }
        i = i + 1;
    }
    assert(s@.subrange(pos as int, pos + l@.len()) =~= lit@);
    Ok((v, pos + l.len()))
}


/// Reads the JSON value at `pos` (see [`p_value`]).
fn parse_value(s: &Vec<char>, pos: usize, depth: u32) -> (r: Result<(Value, usize), Error>)
    requires
        pos <= s@.len(),
    ensures
        match p_value(s@, pos as int, depth as int) {
            Some((m, e)) => r matches Ok((v, e2)) && v@ == m && e2 == e,
            None => r matches Err(x) && x is Cbor,
        },
    decreases s@.len() - pos, 0int,
{
    if depth > 64 {
        return Err(Error::Cbor("json: nesting depth exceeds limit"));
    }
    let p = skip_ws_at(s, pos);
    if p >= s.len() {
        return Err(Error::Cbor("json: unexpected character or end of input"));
    }
    let c = s[p];
    if c == '{' {
        parse_object(s, p + 1, depth)
    } else if c == '[' {
        parse_array(s, p + 1, depth)
    } else if c == '"' {
        let (raw, e) = match parse_string(s, p + 1) {
            Ok(x) => x,
            Err(e) => {
                return Err(e);
            },
        };
        match string_value_of(&raw) {
            Ok(v) => Ok((v, e)),
            Err(e) => Err(e),
        }
    } else if c == '-' || ('0' <= c && c <= '9') {
        parse_number(s, p)
    } else if c == 't' {
        proof {
            reveal_strlit("true");
            assert("true"@ =~= seq!['t', 'r', 'u', 'e']);
        }
        parse_literal(s, p, "true", Value::Bool(true))
    } else if c == 'f' {
        proof {
            reveal_strlit("false");
            assert("false"@ =~= seq!['f', 'a', 'l', 's', 'e']);
        }
        parse_literal(s, p, "false", Value::Bool(false))
    } else if c == 'n' {
        proof {
            reveal_strlit("null");
            assert("null"@ =~= seq!['n', 'u', 'l', 'l']);
        }
        parse_literal(s, p, "null", Value::Null)
    } else {
        Err(Error::Cbor("json: unexpected character or end of input"))
    }
}

/// Reads the array whose `[` is before `pos` (see [`p_array`]).
fn parse_array(s: &Vec<char>, pos: usize, depth: u32) -> (r: Result<(Value, usize), Error>)
    requires
        pos <= s@.len(),
        depth <= 64,
    ensures
        match p_array(s@, pos as int, depth as int) {
            Some((m, e)) => r matches Ok((v, e2)) && v@ == m && e2 == e,
            None => r matches Err(x) && x is Cbor,
        },
    decreases s@.len() - pos, 2int,
{
    let q = skip_ws_at(s, pos);
    if q < s.len() && s[q] == ']' {
        let v = Value::Array(Vec::new());
        proof {
            assert(model_list(Seq::<Value>::empty()) =~= Seq::<Model>::empty());
        }
        return Ok((v, q + 1));
    }
    let mut items: Vec<Value> = Vec::new();
    let mut cur = q;
    proof {
        assert(model_list(items@) =~= Seq::<Model>::empty());
    }
    loop
        invariant
            pos <= cur <= s@.len(),
            depth <= 64,
            p_array(s@, pos as int, depth as int) == p_items(s@, cur as int, depth as int, model_list(items@)),
        decreases s@.len() - cur,
    {
        let (v, p2) = match parse_value(s, cur, depth + 1) {
            Ok(x) => x,
            Err(e) => {
                return Err(e);
            },
        };
        let p3 = skip_ws_at(s, p2);
        if p3 < s.len() && s[p3] == ',' {
            let p4 = skip_ws_at(s, p3 + 1);
            if p4 <= cur {
                return Err(Error::Cbor("json: expected ',' or ']'"));
            }
            let ghost before = items@;
            items.push(v);
            proof {
                assert(items@.drop_last() =~= before);
            }
            cur = p4;
        } else if p3 < s.len() && s[p3] == ']' {
            let ghost before = items@;
            items.push(v);
            proof {
                assert(items@.drop_last() =~= before);
            }
            return Ok((Value::Array(items), p3 + 1));
        } else {
            return Err(Error::Cbor("json: expected ',' or ']'"));
        }
    }
}

/// Reads the object whose `{` is before `pos` (see [`p_object`]).
fn parse_object(s: &Vec<char>, pos: usize, depth: u32) -> (r: Result<(Value, usize), Error>)
    requires
        pos <= s@.len(),
        depth <= 64,
    ensures
        match p_object(s@, pos as int, depth as int) {
            Some((m, e)) => r matches Ok((v, e2)) && v@ == m && e2 == e,
            None => r matches Err(x) && x is Cbor,
        },
    decreases s@.len() - pos, 2int,
{
    let q = skip_ws_at(s, pos);
    if q < s.len() && s[q] == '}' {
        let v = Value::Dict(Vec::new());
        proof {
            assert(model_entries(Seq::<(Value, Value)>::empty()) =~= Seq::<(Model, Model)>::empty());
        }
        return Ok((v, q + 1));
    }
    let mut entries: Vec<(Value, Value)> = Vec::new();
    let mut cur = q;
    proof {
        assert(model_entries(entries@) =~= Seq::<(Model, Model)>::empty());
    }
    loop
        invariant
            pos <= cur <= s@.len(),
            depth <= 64,
            forall|i: int| 0 <= i < entries@.len() ==> is_key(#[trigger] entries@[i].0@),
            p_object(s@, pos as int, depth as int) == p_entries(s@, cur as int, depth as int, model_entries(entries@)),
        decreases s@.len() - cur,
    {
        let k0 = skip_ws_at(s, cur);
        if !(k0 < s.len() && s[k0] == '"') {
            return Err(Error::Cbor("json: unexpected character"));
        }
        let (raw, p1) = match parse_string(s, k0 + 1) {
            Ok(x) => x,
            Err(e) => {
                return Err(e);
            },
        };
        let key = match key_value_of(&raw) {
            Ok(k) => k,
            Err(e) => {
                return Err(e);
            },
        };
        proof {
            lemma_p_string_advances(s@, k0 + 1);
        }
        let p2 = skip_ws_at(s, p1);
        if !(p2 < s.len() && s[p2] == ':') {
            return Err(Error::Cbor("json: unexpected character"));
        }
        let (v, p3) = match parse_value(s, p2 + 1, depth + 1) {
            Ok(x) => x,
            Err(e) => {
                return Err(e);
            },
        };
        if find_key(&entries, &key) {
            return Err(Error::Cbor("json: duplicate object key"));
        }
        let p4 = skip_ws_at(s, p3);
        if p4 < s.len() && s[p4] == ',' {
            if p4 + 1 <= cur {
                return Err(Error::Cbor("json: expected ',' or '}'"));
            }
            let ghost before = entries@;
            entries.push((key, v));
            proof {
                assert(entries@.drop_last() =~= before);
            }
            cur = p4 + 1;
        } else if p4 < s.len() && s[p4] == '}' {
            let ghost before = entries@;
            entries.push((key, v));
            proof {
                assert(entries@.drop_last() =~= before);
            }
            return Ok((Value::Dict(entries), p4 + 1));
        } else {
            return Err(Error::Cbor("json: expected ',' or '}'"));
        }
    }
}

/// Reads a JSON text: one value, then only whitespace (see
/// [`spec_from_json`]). Integers only; numbers must fit `u64`
/// (positive) or `i64` (negative); nesting at most 64 deep; a key that
/// occurs twice in an object is refused.
pub fn from_json(s: &str) -> (res: Result<Value, Error>)
    ensures
        match spec_from_json(s@) {
            Some(m) => res matches Ok(v) && v@ == m,
            None => res matches Err(e) && e is Cbor,
        },
{
    let cs = str_chars(s);
    let (v, e) = match parse_value(&cs, 0, 0) {
        Ok(x) => x,
        Err(e) => {
            return Err(e);
        },
    };
    let t = skip_ws_at(&cs, e);
    if t < cs.len() {
        return Err(Error::Cbor("json: trailing data after value"));
    }
    Ok(v)
}

} // verus!
