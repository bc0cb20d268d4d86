//! The debug form of a value: its variant name and contents, as in
//! `Uint(5)`, `Bytes([1, 2])`, `Text("a")`, `Array([Null])`,
//! `Map([(Uint(1), Bool(true))])`. The JSON form uses it for map keys
//! that have no JSON rendering of their own.

use vstd::prelude::*;
use crate::codec::{Value, Model, model_list, lemma_model_list, model_entries, lemma_model_entries};
use crate::json::{dec_digits, decimal};
use crate::text::{string_push, str_debug, str_debug_text};

verus! {

/// The text of a boolean.
pub open spec fn bool_text(b: bool) -> Seq<char> {
    if b {
        "true"@
    } else {
        "false"@
    }
}

/// Bytes in decimal, separated by `, `.
pub open spec fn debug_bytes(b: Seq<u8>) -> Seq<char>
    decreases b.len(),
{
    if b.len() == 0 {
        Seq::empty()
    } else if b.len() == 1 {
        dec_digits(b.last() as nat)
    } else {
        debug_bytes(b.drop_last()) + ", "@ + dec_digits(b.last() as nat)
    }
}

/// The debug form of a model.
pub open spec fn debug_of(m: Model) -> Seq<char>
    decreases m,
{
    match m {
        Model::Uint(n) => "Uint("@ + dec_digits(n as nat) + ")"@,
        Model::Nint(n) => "Nint("@ + dec_digits(n as nat) + ")"@,
        Model::Bytes(b) => "Bytes(["@ + debug_bytes(b) + "])"@,
        Model::Text(t) => "Text("@ + str_debug_text(t) + ")"@,
        Model::Array(items) => "Array(["@ + debug_items(items) + "])"@,
        Model::Dict(es) => "Map(["@ + debug_entries(es) + "])"@,
        Model::Bool(b) => "Bool("@ + bool_text(b) + ")"@,
        Model::Null => "Null"@,
    }
}

/// The debug forms of items, separated by `, `.
pub open spec fn debug_items(s: Seq<Model>) -> Seq<char>
    decreases s,
{
    if s.len() == 0 {
        Seq::empty()
    } else if s.len() == 1 {
        debug_of(s.last())
    } else {
        debug_items(s.drop_last()) + ", "@ + debug_of(s.last())
    }
}

/// The debug forms of entries, each `(key, value)`, separated by `, `.
pub open spec fn debug_entries(s: Seq<(Model, Model)>) -> Seq<char>
    decreases s,
{
    if s.len() == 0 {
        Seq::empty()
    } else if s.len() == 1 {
        "("@ + debug_of(s.last().0) + ", "@ + debug_of(s.last().1) + ")"@
    } else {
        debug_entries(s.drop_last()) + ", "@ + "("@ + debug_of(s.last().0) + ", "@ + debug_of(s.last().1) + ")"@
    }
}

fn push_str(out: &mut String, s: &str)
    ensures
        final(out)@ == old(out)@ + s@,
{
    let cs = crate::text::str_chars(s);
    push_chars(out, &cs);
}

fn push_chars(out: &mut String, cs: &Vec<char>)
    ensures
        final(out)@ == old(out)@ + cs@,
{
    let ghost start = out@;
    let mut i: usize = 0;
    while i < cs.len()
        invariant
            i <= cs.len(),
            out@ == start + cs@.subrange(0, i as int),
        decreases cs.len() - i,
    {
        string_push(out, cs[i]);
        assert(cs@.subrange(0, i + 1) =~= cs@.subrange(0, i as int).push(cs@[i as int]));
        i = i + 1;
    }
    assert(cs@.subrange(0, cs.len() as int) =~= cs@);
}

fn push_bytes(out: &mut String, b: &Vec<u8>)
    ensures
        final(out)@ == old(out)@ + debug_bytes(b@),
{
    let ghost start = out@;
    let mut i: usize = 0;
    assert(debug_bytes(b@.subrange(0, 0)) =~= Seq::<char>::empty());
    while i < b.len()
        invariant
            i <= b.len(),
            out@ == start + debug_bytes(b@.subrange(0, i as int)),
        decreases b.len() - i,
    {
        let ghost p = b@.subrange(0, i + 1);
        assert(p.drop_last() =~= b@.subrange(0, i as int));
        assert(p.last() == b@[i as int]);
        if i > 0 {
            push_str(out, ", ");
        } else {
            assert(debug_bytes(b@.subrange(0, 0)) =~= Seq::<char>::empty());
        }
        let d = decimal(b[i] as u128);
        push_chars(out, &d);
        proof {
            if i == 0 {
                assert(out@ =~= start + debug_bytes(p));
            } else {
                assert(out@ =~= start + debug_bytes(p));
            }
        }
        i = i + 1;
    }
    assert(b@.subrange(0, b.len() as int) =~= b@);
}

/// Appends the debug form of a value.
fn push_debug(v: &Value, out: &mut String)
    ensures
        final(out)@ == old(out)@ + debug_of(v@),
    decreases v,
{
    match v {
        Value::Uint(n) => {
            push_str(out, "Uint(");
            let d = decimal(*n as u128);
            push_chars(out, &d);
            push_str(out, ")");
        },
        Value::Nint(n) => {
            push_str(out, "Nint(");
            let d = decimal(*n as u128);
            push_chars(out, &d);
            push_str(out, ")");
        },
        Value::Bytes(b) => {
            push_str(out, "Bytes([");
            push_bytes(out, b);
            push_str(out, "])");
        },
        Value::Text(t) => {
            push_str(out, "Text(");
            let q = str_debug(t.as_str());
            push_str(out, q.as_str());
            push_str(out, ")");
        },
        Value::Array(items) => {
            proof {
                assert(decreases_to!(*v => *items));
            }
            push_str(out, "Array([");
            push_items(items, out);
            push_str(out, "])");
        },
        Value::Dict(entries) => {
            proof {
                assert(decreases_to!(*v => *entries));
            }
            push_str(out, "Map([");
            push_entries(entries, out);
            push_str(out, "])");
        },
        Value::Bool(b) => {
            push_str(out, "Bool(");
            if *b {
                push_str(out, "true");
            } else {
                push_str(out, "false");
            }
            push_str(out, ")");
        },
        Value::Null => {
            push_str(out, "Null");
        },
    }
}

#[verifier::loop_isolation(false)]
#[verifier::spinoff_prover]
fn push_items(items: &Vec<Value>, out: &mut String)
    ensures
        final(out)@ == old(out)@ + debug_items(model_list(items@)),
    decreases items,
{
    proof {
        lemma_model_list(items@);
    }
    let ghost ms = model_list(items@);
    let ghost start = out@;
    let mut i: usize = 0;
    assert(debug_items(ms.subrange(0, 0)) =~= Seq::<char>::empty());
    while i < items.len()
        invariant
            i <= items.len(),
            ms == model_list(items@),
            ms.len() == items.len(),
            forall|k: int| 0 <= k < items.len() ==> #[trigger] ms[k] == items@[k]@,
            out@ == start + debug_items(ms.subrange(0, i as int)),
        decreases items.len() - i,
    {
        proof {
            assert(decreases_to!(*items => items@[i as int]));
        }
        let ghost p = ms.subrange(0, i + 1);
        assert(p.drop_last() =~= ms.subrange(0, i as int));
        assert(p.last() == ms[i as int]);
        if i > 0 {
            push_str(out, ", ");
        }
        push_debug(&items[i], out);
        proof {
            if i == 0 {
                assert(out@ =~= start + debug_items(p));
            } else {
                assert(out@ =~= start + debug_items(p));
            }
        }
        i = i + 1;
    }
    assert(ms.subrange(0, items.len() as int) =~= ms);
}

#[verifier::loop_isolation(false)]
#[verifier::spinoff_prover]
fn push_entries(entries: &Vec<(Value, Value)>, out: &mut String)
    ensures
        final(out)@ == old(out)@ + debug_entries(model_entries(entries@)),
    decreases entries,
{
    proof {
        lemma_model_entries(entries@);
    }
    let ghost es = model_entries(entries@);
    let ghost start = out@;
    let mut i: usize = 0;
    assert(debug_entries(es.subrange(0, 0)) =~= Seq::<char>::empty());
    while i < entries.len()
        invariant
            i <= entries.len(),
            es == model_entries(entries@),
            es.len() == entries.len(),
            forall|k: int| 0 <= k < entries.len() ==> #[trigger] es[k] == (entries@[k].0@, entries@[k].1@),
            out@ == start + debug_entries(es.subrange(0, i as int)),
        decreases entries.len() - i,
    {
        proof {
            assert(decreases_to!(*entries => entries@[i as int].0));
            assert(decreases_to!(*entries => entries@[i as int].1));
        }
        let ghost p = es.subrange(0, i + 1);
        assert(p.drop_last() =~= es.subrange(0, i as int));
        assert(p.last() == es[i as int]);
        if i > 0 {
            push_str(out, ", ");
        }
        push_str(out, "(");
        push_debug(&entries[i].0, out);
        push_str(out, ", ");
        push_debug(&entries[i].1, out);
        push_str(out, ")");
        proof {
            if i == 0 {
                assert(out@ =~= start + debug_entries(p));
            } else {
                assert(out@ =~= start + debug_entries(p));
            }
        }
        i = i + 1;
    }
    assert(es.subrange(0, entries.len() as int) =~= es);
}

/// The debug form of a value (see [`debug_of`]).
pub fn debug_string(v: &Value) -> (s: String)
    ensures
        s@ == debug_of(v@),
{
    let mut out = String::new();
    push_debug(v, &mut out);
    proof {
        assert(out@ =~= debug_of(v@));
    }
    out
}

} // verus!
