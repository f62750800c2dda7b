//! The canonical text of a tree: no whitespace, strings with the escapes that
//! the parser decodes, numbers as their literal.
use vstd::prelude::*;
use crate::value::{Json, JsonValue, model_of, items_model, entries_model, lemma_array_model, lemma_object_model};
use crate::text::string_from;

verus! {

broadcast use {vstd::std_specs::vec::axiom_vec_index_decreases, vstd::seq::axiom_seq_index_decreases};

/// How a character is written inside a string literal.
pub open spec fn escaped(c: char) -> Seq<char> {
    if c == '"' {
        seq!['\\', '"']
    } else if c == '\\' {
        seq!['\\', '\\']
    } else if c == '\n' {
        seq!['\\', 'n']
    } else if c == '\r' {
        seq!['\\', 'r']
    } else if c == '\t' {
        seq!['\\', 't']
    } else if c == '\u{8}' {
        seq!['\\', 'b']
    } else if c == '\u{c}' {
        seq!['\\', 'f']
    } else {
        seq![c]
    }
}

pub open spec fn escape_text(t: Seq<char>) -> Seq<char>
    decreases t.len(),
{
    if t.len() == 0 {
        Seq::empty()
    } else {
        escape_text(t.drop_last()) + escaped(t.last())
    }
}

pub open spec fn quoted(t: Seq<char>) -> Seq<char> {
    seq!['"'] + escape_text(t) + seq!['"']
}

/// The canonical texts of the elements from `k` on, comma-separated.
pub open spec fn items_from(items: Seq<Json>, k: int) -> Seq<char>
    decreases items, items.len() - k,
{
    if k < 0 || k >= items.len() {
        Seq::empty()
    } else if k == items.len() - 1 {
        serialize(items[k])
    } else {
        serialize(items[k]) + seq![','] + items_from(items, k + 1)
    }
}

/// The canonical texts of the entries from `k` on, comma-separated.
pub open spec fn entries_from(m: Seq<(Seq<char>, Json)>, k: int) -> Seq<char>
    decreases m, m.len() - k,
{
    if k < 0 || k >= m.len() {
        Seq::empty()
    } else if k == m.len() - 1 {
        quoted(m[k].0) + seq![':'] + serialize(m[k].1)
    } else {
        quoted(m[k].0) + seq![':'] + serialize(m[k].1) + seq![','] + entries_from(m, k + 1)
    }
}

/// The canonical text of a tree.
pub open spec fn serialize(j: Json) -> Seq<char>
    decreases j, 0int,
{
    match j {
        Json::Null => seq!['n', 'u', 'l', 'l'],
        Json::Boolean(b) => if b {
            seq!['t', 'r', 'u', 'e']
        } else {
            seq!['f', 'a', 'l', 's', 'e']
        },
        Json::Number(t) => t,
        Json::Str(t) => quoted(t),
        Json::Array(items) => seq!['['] + items_from(items, 0) + seq![']'],
        Json::Object(m) => seq!['{'] + entries_from(m, 0) + seq!['}'],
    }
}

fn push_all(out: &mut Vec<char>, w: &Vec<char>)
    ensures
        final(out)@ == old(out)@ + w@,
{
    let mut k: usize = 0;
    while k < w.len()
        invariant
            k <= w.len(),
            out@ == old(out)@ + w@.subrange(0, k as int),
        decreases w.len() - k,
    {
        out.push(w[k]);
        k = k + 1;
        assert(out@ =~= old(out)@ + w@.subrange(0, k as int));
    }
    assert(w@.subrange(0, w.len() as int) =~= w@);
}

fn write_escaped(out: &mut Vec<char>, c: char)
    ensures
        final(out)@ == old(out)@ + escaped(c),
{
    let e: Option<char> = if c == '"' {
        Some('"')
    } else if c == '\\' {
        Some('\\')
    } else if c == '\n' {
        Some('n')
    } else if c == '\r' {
        Some('r')
    } else if c == '\t' {
        Some('t')
    } else if c == '\u{8}' {
        Some('b')
    } else if c == '\u{c}' {
        Some('f')
    } else {
        None
    };
    match e {
        Some(x) => {
            out.push('\\');
            out.push(x);
        },
        None => {
            out.push(c);
        },
    }
    assert(out@ =~= old(out)@ + escaped(c));
}

fn write_quoted(out: &mut Vec<char>, t: &String)
    ensures
        final(out)@ == old(out)@ + quoted(t@),
{
    let cs = crate::text::chars_of(t.as_str());
    out.push('"');
    let mut k: usize = 0;
    while k < cs.len()
        invariant
            k <= cs.len(),
            cs@ == t@,
            out@ == old(out)@ + seq!['"'] + escape_text(cs@.subrange(0, k as int)),
        decreases cs.len() - k,
    {
        let ghost before = out@;
        write_escaped(out, cs[k]);
        proof {
            assert(cs@.subrange(0, k + 1).drop_last() =~= cs@.subrange(0, k as int));
        }
        k = k + 1;
        assert(out@ =~= old(out)@ + seq!['"'] + escape_text(cs@.subrange(0, k as int)));
    }
    out.push('"');
    assert(cs@.subrange(0, cs.len() as int) =~= cs@);
    assert(out@ =~= old(out)@ + quoted(t@));
}

/// The canonical texts of the first `n` elements, comma-separated.
pub open spec fn items_upto(items: Seq<Json>, n: int) -> Seq<char>
    decreases n,
{
    if n <= 0 || n > items.len() {
        Seq::empty()
    } else if n == 1 {
        serialize(items[0])
    } else {
        items_upto(items, n - 1) + seq![','] + serialize(items[n - 1])
    }
}

/// The canonical texts of the first `n` entries, comma-separated.
pub open spec fn entries_upto(m: Seq<(Seq<char>, Json)>, n: int) -> Seq<char>
    decreases n,
{
    if n <= 0 || n > m.len() {
        Seq::empty()
    } else if n == 1 {
        quoted(m[0].0) + seq![':'] + serialize(m[0].1)
    } else {
        entries_upto(m, n - 1) + seq![','] + quoted(m[n - 1].0) + seq![':'] + serialize(m[n - 1].1)
    }
}

proof fn lemma_items_split(items: Seq<Json>, k: int)
    requires
        1 <= k <= items.len(),
    ensures
        items_upto(items, k) + (if k < items.len() {
            seq![','] + items_from(items, k)
        } else {
            Seq::empty()
        }) == items_from(items, 0),
    decreases k,
{
    if k > 1 {
        lemma_items_split(items, k - 1);
        let a = items_upto(items, k - 1);
        let b = serialize(items[k - 1]);
        if k < items.len() {
            let c = items_from(items, k);
            assert(items_from(items, k - 1) == b + seq![','] + c);
            assert((a + seq![','] + b) + (seq![','] + c) =~= a + (seq![','] + (b + seq![','] + c)));
        } else {
            assert(items_from(items, k - 1) == b);
            assert((a + seq![','] + b) + Seq::<char>::empty() =~= a + (seq![','] + b));
        }
    } else {
        if k < items.len() {
            assert(items_from(items, 0) == serialize(items[0]) + seq![','] + items_from(items, 1));
        } else {
            assert(serialize(items[0]) + Seq::<char>::empty() =~= serialize(items[0]));
        }
    }
}

proof fn lemma_entries_split(m: Seq<(Seq<char>, Json)>, k: int)
    requires
        1 <= k <= m.len(),
    ensures
        entries_upto(m, k) + (if k < m.len() {
            seq![','] + entries_from(m, k)
        } else {
            Seq::empty()
        }) == entries_from(m, 0),
    decreases k,
{
    if k > 1 {
        lemma_entries_split(m, k - 1);
        let a = entries_upto(m, k - 1);
        let b = quoted(m[k - 1].0) + seq![':'] + serialize(m[k - 1].1);
        if k < m.len() {
            let c = entries_from(m, k);
            assert(entries_from(m, k - 1) == b + seq![','] + c);
            assert(entries_upto(m, k) =~= a + seq![','] + b);
            assert((a + seq![','] + b) + (seq![','] + c) =~= a + (seq![','] + (b + seq![','] + c)));
        } else {
            assert(entries_from(m, k - 1) == b);
            assert(entries_upto(m, k) =~= a + seq![','] + b);
            assert((a + seq![','] + b) + Seq::<char>::empty() =~= a + (seq![','] + b));
        }
    } else {
        let b = quoted(m[0].0) + seq![':'] + serialize(m[0].1);
        if k < m.len() {
            assert(entries_from(m, 0) == b + seq![','] + entries_from(m, 1));
        } else {
            assert(b + Seq::<char>::empty() =~= b);
        }
    }
}

proof fn lemma_item_smaller(ms: Seq<Json>, k: int)
    requires
        0 <= k < ms.len(),
    ensures
        decreases_to!(Json::Array(ms) => ms[k]),
{
    let j = Json::Array(ms);
    assert(decreases_to!(j => j->Array_0));
    assert(decreases_to!(ms => ms[k]));
}

proof fn lemma_entry_smaller(ms: Seq<(Seq<char>, Json)>, k: int)
    requires
        0 <= k < ms.len(),
    ensures
        decreases_to!(Json::Object(ms) => ms[k].1),
{
    let j = Json::Object(ms);
    assert(decreases_to!(j => j->Object_0));
    assert(decreases_to!(ms => ms[k]));
    assert(decreases_to!(ms[k] => ms[k].1));
}

fn write_value(out: &mut Vec<char>, v: &JsonValue)
    ensures
        final(out)@ == old(out)@ + serialize(model_of(*v)),
    decreases model_of(*v),
{
    match v {
        JsonValue::Null => {
            push_all(out, &vec!['n', 'u', 'l', 'l']);
        },
        JsonValue::Boolean(b) => {
            if *b {
                push_all(out, &vec!['t', 'r', 'u', 'e']);
            } else {
                push_all(out, &vec!['f', 'a', 'l', 's', 'e']);
            }
        },
        JsonValue::Number(t) => {
            let cs = crate::text::chars_of(t.as_str());
            push_all(out, &cs);
        },
        JsonValue::String(t) => {
            write_quoted(out, t);
        },
        JsonValue::Array(items) => {
            proof {
                lemma_array_model(*items);
            }
            let ghost ms = items_model(*items);
            out.push('[');
            let mut k: usize = 0;
            while k < items.len()
                invariant
                    k <= items.len(),
                    ms == items_model(*items),
                    *v == JsonValue::Array(*items),
                    model_of(*v) == Json::Array(ms),
                    out@ == old(out)@ + seq!['['] + items_upto(ms, k as int),
                decreases items.len() - k,
            {
                if k > 0 {
                    out.push(',');
                }
                proof {
                    lemma_item_smaller(ms, k as int);
                    assert(ms[k as int] == model_of(items[k as int]));
                }
                write_value(out, &items[k]);
                k = k + 1;
                assert(out@ =~= old(out)@ + seq!['['] + items_upto(ms, k as int));
            }
            out.push(']');
            proof {
                if ms.len() > 0 {
                    lemma_items_split(ms, ms.len() as int);
                }
            }
            assert(out@ =~= old(out)@ + serialize(model_of(*v)));
        },
        JsonValue::Object(entries) => {
            proof {
                lemma_object_model(*entries);
            }
            let ghost ms = entries_model(*entries);
            out.push('{');
            let mut k: usize = 0;
            while k < entries.len()
                invariant
                    k <= entries.len(),
                    ms == entries_model(*entries),
                    *v == JsonValue::Object(*entries),
                    model_of(*v) == Json::Object(ms),
                    out@ == old(out)@ + seq!['{'] + entries_upto(ms, k as int),
                decreases entries.len() - k,
            {
                if k > 0 {
                    out.push(',');
                }
                write_quoted(out, &entries[k].0);
                out.push(':');
                proof {
                    lemma_entry_smaller(ms, k as int);
                    assert(ms[k as int].1 == model_of(entries[k as int].1));
                }
                write_value(out, &entries[k].1);
                k = k + 1;
                assert(out@ =~= old(out)@ + seq!['{'] + entries_upto(ms, k as int));
            }
            out.push('}');
            proof {
                if ms.len() > 0 {
                    lemma_entries_split(ms, ms.len() as int);
                }
            }
            assert(out@ =~= old(out)@ + serialize(model_of(*v)));
        },
    }
}

/// The canonical text of a tree.
pub fn to_text(v: &JsonValue) -> (r: String)
    ensures
        r@ == serialize(model_of(*v)),
{
    let mut out: Vec<char> = Vec::new();
    write_value(&mut out, v);
    assert(out@ =~= serialize(model_of(*v)));
    string_from(out.as_slice())
}

} // verus!
