//! Parsing the canonical text of a tree gives the tree back.
use vstd::prelude::*;
use crate::value::Json;
use crate::text::number_fits;
use crate::grammar::{
    is_ws, is_digit, skip_ws, digits_end, digit_at, char_at, exponent_end, number_end, escape_of,
    escape_rule, string_body, string_rule, null_rule, bool_rule, number_rule, value_rule, array_rule,
    array_items, object_rule, object_entries, insert_entry, keys_unique, document, word_at,
    lemma_skip_ws, lemma_digits_end,
};
use crate::canonical::{escaped, escape_text, quoted, serialize, items_from, entries_from};

verus! {

broadcast use vstd::seq::axiom_seq_index_decreases;

/// A complete numeric literal that serde_json's range check accepts.
pub open spec fn number_literal(t: Seq<char>) -> bool {
    number_end(t, 0) == Some(t.len() as int) && number_fits(t)
}

/// What a parse with nesting limit `d` can give: numbers are complete
/// literals, object keys are unique, arrays and objects nest at most `d` deep.
pub open spec fn well_formed(j: Json, d: nat) -> bool
    decreases j,
{
    match j {
        Json::Number(t) => number_literal(t),
        Json::Array(items) => d > 0 && forall|k: int|
            0 <= k < items.len() ==> well_formed(#[trigger] items[k], (d - 1) as nat),
        Json::Object(m) => d > 0 && keys_unique(m) && forall|k: int|
            0 <= k < m.len() ==> well_formed(#[trigger] m[k].1, (d - 1) as nat),
        _ => true,
    }
}

/// Nothing at `p` could continue a numeric literal.
pub open spec fn blocked(b: Seq<char>, p: int) -> bool {
    p >= b.len() || !(is_digit(b[p]) || b[p] == '.' || b[p] == 'e' || b[p] == 'E')
}

/// `a` from `ia` and `b` from `ib` hold the same `n` characters.
pub open spec fn same_run(a: Seq<char>, ia: int, b: Seq<char>, ib: int, n: int) -> bool {
    0 <= n && 0 <= ia && ia + n <= a.len() && 0 <= ib && ib + n <= b.len() && a.subrange(ia, ia + n)
        == b.subrange(ib, ib + n)
}

proof fn lemma_run_at(a: Seq<char>, ia: int, b: Seq<char>, ib: int, n: int, q: int)
    requires
        same_run(a, ia, b, ib, n),
        0 <= q < n,
    ensures
        a[ia + q] == b[ib + q],
{
    assert(a.subrange(ia, ia + n)[q] == b.subrange(ib, ib + n)[q]);
}

proof fn lemma_digits_frame(a: Seq<char>, ia: int, b: Seq<char>, ib: int, n: int, x: int, y: int)
    requires
        same_run(a, ia, b, ib, n),
        0 <= x <= y <= n,
        digits_end(a, ia + x) == ia + y,
        y < n || blocked(b, ib + n),
    ensures
        digits_end(b, ib + x) == ib + y,
    decreases y - x,
{
    if x < y {
        lemma_digits_end(a, ia + x + 1);
        lemma_run_at(a, ia, b, ib, n, x);
        lemma_digits_frame(a, ia, b, ib, n, x + 1, y);
    } else if y < n {
        lemma_digits_end(a, ia + y + 1);
        lemma_run_at(a, ia, b, ib, n, y);
    }
}

proof fn lemma_exponent_frame(a: Seq<char>, ia: int, b: Seq<char>, ib: int, n: int, x: int)
    requires
        same_run(a, ia, b, ib, n),
        0 <= x <= n,
        exponent_end(a, ia + x) == ia + n,
        blocked(b, ib + n),
    ensures
        exponent_end(b, ib + x) == ib + n,
{
    let m = ia + x;
    let e = if char_at(a, m + 1, '+') || char_at(a, m + 1, '-') {
        m + 2
    } else {
        m + 1
    };
    if (char_at(a, m, 'e') || char_at(a, m, 'E')) && digit_at(a, e) {
        lemma_digits_end(a, e + 1);
        assert(digits_end(a, e) == digits_end(a, e + 1));
        lemma_run_at(a, ia, b, ib, n, x);
        lemma_run_at(a, ia, b, ib, n, x + 1);
        lemma_run_at(a, ia, b, ib, n, e - ia);
        lemma_digits_frame(a, ia, b, ib, n, e - ia, n);
    }
}

proof fn lemma_number_frame(a: Seq<char>, ia: int, b: Seq<char>, ib: int, n: int)
    requires
        same_run(a, ia, b, ib, n),
        number_end(a, ia) == Some(ia + n),
        blocked(b, ib + n),
    ensures
        number_end(b, ib) == Some(ib + n),
{
    let ja = if char_at(a, ia, '-') {
        ia + 1
    } else {
        ia
    };
    lemma_digits_end(a, ja + 1);
    assert(digits_end(a, ja) == digits_end(a, ja + 1));
    let ka = if a[ja] == '0' {
        ja + 1
    } else {
        digits_end(a, ja)
    };
    if char_at(a, ka, '.') && digit_at(a, ka + 1) {
        lemma_digits_end(a, ka + 2);
        assert(digits_end(a, ka + 1) == digits_end(a, ka + 2));
        let m = digits_end(a, ka + 1);
        lemma_exponent_bound(a, m);
        lemma_run_at(a, ia, b, ib, n, 0);
        lemma_run_at(a, ia, b, ib, n, ja - ia);
        lemma_run_at(a, ia, b, ib, n, ka - ia);
        lemma_run_at(a, ia, b, ib, n, ka + 1 - ia);
        if a[ja] != '0' {
            lemma_digits_frame(a, ia, b, ib, n, ja - ia, ka - ia);
        }
        lemma_digits_frame(a, ia, b, ib, n, ka + 1 - ia, m - ia);
        lemma_exponent_frame(a, ia, b, ib, n, m - ia);
    } else if char_at(a, ka, '.') {
        lemma_run_at(a, ia, b, ib, n, 0);
        lemma_run_at(a, ia, b, ib, n, ja - ia);
        if a[ja] != '0' {
            lemma_digits_frame(a, ia, b, ib, n, ja - ia, ka - ia);
        }
    } else {
        lemma_exponent_bound(a, ka);
        lemma_run_at(a, ia, b, ib, n, 0);
        lemma_run_at(a, ia, b, ib, n, ja - ia);
        if ka < ia + n {
            lemma_run_at(a, ia, b, ib, n, ka - ia);
        }
        if a[ja] != '0' {
            lemma_digits_frame(a, ia, b, ib, n, ja - ia, ka - ia);
        }
        lemma_exponent_frame(a, ia, b, ib, n, ka - ia);
    }
}

proof fn lemma_exponent_bound(a: Seq<char>, m: int)
    requires
        0 <= m <= a.len(),
    ensures
        m <= exponent_end(a, m) <= a.len(),
        exponent_end(a, m) == m || m < a.len(),
{
    if char_at(a, m, 'e') || char_at(a, m, 'E') {
        let e = if char_at(a, m + 1, '+') || char_at(a, m + 1, '-') {
            m + 2
        } else {
            m + 1
        };
        if digit_at(a, e) {
            lemma_digits_end(a, e);
        }
    }
}

proof fn lemma_escape_front(c: char, u: Seq<char>)
    ensures
        escape_text(seq![c] + u) == escaped(c) + escape_text(u),
    decreases u.len(),
{
    if u.len() == 0 {
        assert(seq![c] + u =~= seq![c]);
        assert(seq![c].drop_last() =~= Seq::<char>::empty());
        assert(escape_text(seq![c]) == escape_text(Seq::<char>::empty()) + escaped(c));
        assert(Seq::<char>::empty() + escaped(c) =~= escaped(c));
        assert(escaped(c) + escape_text(u) =~= escaped(c));
    } else {
        lemma_escape_front(c, u.drop_last());
        let w = seq![c] + u;
        assert(w.drop_last() =~= seq![c] + u.drop_last());
        assert(w.last() == u.last());
        assert(escape_text(w) == escape_text(w.drop_last()) + escaped(w.last()));
        assert(escape_text(u) == escape_text(u.drop_last()) + escaped(u.last()));
        assert((escaped(c) + escape_text(u.drop_last())) + escaped(u.last()) =~= escaped(c) + (
        escape_text(u.drop_last()) + escaped(u.last())));
    }
}

/// `s` holds `x` at `p`, followed by `y`.
proof fn lemma_split(s: Seq<char>, p: int, x: Seq<char>, y: Seq<char>)
    requires
        0 <= p,
        p + x.len() + y.len() <= s.len(),
        s.subrange(p, p + x.len() + y.len()) == x + y,
    ensures
        s.subrange(p, p + x.len()) == x,
        s.subrange(p + x.len(), p + x.len() + y.len()) == y,
{
    assert(s.subrange(p, p + x.len()) =~= (x + y).subrange(0, x.len() as int));
    assert(s.subrange(p + x.len(), p + x.len() + y.len()) =~= (x + y).subrange(
        x.len() as int,
        (x.len() + y.len()) as int,
    ));
    assert((x + y).subrange(0, x.len() as int) =~= x);
    assert((x + y).subrange(x.len() as int, (x.len() + y.len()) as int) =~= y);
}

proof fn lemma_char_in(s: Seq<char>, p: int, x: Seq<char>, q: int)
    requires
        0 <= p,
        p + x.len() <= s.len(),
        s.subrange(p, p + x.len()) == x,
        0 <= q < x.len(),
    ensures
        s[p + q] == x[q],
{
    assert(s.subrange(p, p + x.len())[q] == x[q]);
}

proof fn lemma_string_text(s: Seq<char>, p: int, u: Seq<char>, acc: Seq<char>)
    requires
        0 <= p,
        p + escape_text(u).len() < s.len(),
        s.subrange(p, p + escape_text(u).len()) == escape_text(u),
        s[p + escape_text(u).len()] == '"',
    ensures
        string_body(s, p, acc) == Ok::<(Seq<char>, int), crate::value::ParseError>(
            (acc + u, p + escape_text(u).len() + 1),
        ),
    decreases u.len(),
{
    if u.len() == 0 {
        assert(acc + u =~= acc);
    } else {
        let c = u[0];
        let rest = u.drop_first();
        assert(u =~= seq![c] + rest);
        lemma_escape_front(c, rest);
        let x = escaped(c);
        let y = escape_text(rest);
        lemma_split(s, p, x, y);
        lemma_char_in(s, p, x, 0);
        if x.len() == 2 {
            lemma_char_in(s, p, x, 1);
        }
        lemma_string_text(s, p + x.len(), rest, acc.push(c));
        assert(acc.push(c) + rest =~= acc + u);
    }
}

/// The text of a well-formed tree is not empty, and starts with a character
/// that picks its kind.
proof fn lemma_first_char(j: Json, d: nat)
    requires
        well_formed(j, d),
    ensures
        serialize(j).len() > 0,
        !is_ws(serialize(j)[0]),
        serialize(j)[0] != ',' && serialize(j)[0] != ']' && serialize(j)[0] != '}' && serialize(j)[0]
            != ':',
        j is Null ==> serialize(j)[0] == 'n',
        j is Boolean ==> serialize(j)[0] == 't' || serialize(j)[0] == 'f',
        j is Number ==> serialize(j)[0] == '-' || is_digit(serialize(j)[0]),
        j is Str ==> serialize(j)[0] == '"',
        j is Array ==> serialize(j)[0] == '[',
        j is Object ==> serialize(j)[0] == '{',
{
    match j {
        Json::Number(t) => {
            lemma_number_start(t);
        },
        _ => {},
    }
}

proof fn lemma_number_start(t: Seq<char>)
    requires
        number_end(t, 0) == Some(t.len() as int),
    ensures
        t.len() > 0,
        t[0] == '-' || is_digit(t[0]),
{
}

/// Nothing follows at `e`, or a character that closes or separates.
pub open spec fn stop_at(s: Seq<char>, e: int) -> bool {
    e == s.len() || (0 <= e < s.len() && (s[e] == ',' || s[e] == ']' || s[e] == '}'))
}

proof fn lemma_value_text(s: Seq<char>, i: int, j: Json, d: nat)
    requires
        well_formed(j, d),
        0 <= i,
        i + serialize(j).len() <= s.len(),
        s.subrange(i, i + serialize(j).len()) == serialize(j),
        stop_at(s, i + serialize(j).len()),
    ensures
        value_rule(s, i, d) == Ok::<(Json, int), crate::value::ParseError>(
            (j, i + serialize(j).len()),
        ),
    decreases j, 0int,
{
    let t = serialize(j);
    let e = i + t.len();
    lemma_first_char(j, d);
    lemma_char_in(s, i, t, 0);
    assert(skip_ws(s, i) == i);
    assert(skip_ws(s, e) == e);
    match j {
        Json::Null => {
            assert(t.len() == 4);
            assert(s[i] == 'n');
            assert(word_at(s, i, seq!['n', 'u', 'l', 'l']));
            assert(null_rule(s, i) == Ok::<(Json, int), crate::value::ParseError>((j, e)));
        },
        Json::Boolean(b) => {
            if b {
                assert(word_at(s, i, seq!['t', 'r', 'u', 'e']));
            } else {
                assert(s[i] == 'f');
                assert(!word_at(s, i, seq!['t', 'r', 'u', 'e'])) by {
                    if word_at(s, i, seq!['t', 'r', 'u', 'e']) {
                        assert(s.subrange(i, i + 4)[0] == 't');
                    }
                }
                assert(word_at(s, i, seq!['f', 'a', 'l', 's', 'e']));
            }
        },
        Json::Number(u) => {
            assert(u.subrange(0, u.len() as int) =~= u);
            lemma_number_frame(u, 0, s, i, u.len() as int);
            assert(number_rule(s, i) == Ok::<(Json, int), crate::value::ParseError>((j, e)));
        },
        Json::Str(u) => {
            let x = seq!['"'] + escape_text(u);
            assert(t == x + seq!['"']);
            lemma_split(s, i, x, seq!['"']);
            lemma_char_in(s, i + x.len(), seq!['"'], 0);
            lemma_split(s, i, seq!['"'], escape_text(u));
            lemma_string_text(s, i + 1, u, Seq::empty());
            assert(Seq::<char>::empty() + u =~= u);
        },
        Json::Array(items) => {
            let body = items_from(items, 0);
            let x = seq!['['] + body;
            assert(t == x + seq![']']);
            lemma_split(s, i, x, seq![']']);
            lemma_char_in(s, i + x.len(), seq![']'], 0);
            lemma_split(s, i, seq!['['], body);
            if items.len() == 0 {
                assert(items =~= Seq::<Json>::empty());
                assert(skip_ws(s, i + 1) == i + 1);
            } else {
                lemma_items_body(items, 0, (d - 1) as nat);
                lemma_char_in(s, i + 1, body, 0);
                assert(skip_ws(s, i + 1) == i + 1);
                lemma_items_text(s, i + 1, items, 0, (d - 1) as nat);
                assert(items.take(0) =~= Seq::<Json>::empty());
            }
        },
        Json::Object(m) => {
            let body = entries_from(m, 0);
            let x = seq!['{'] + body;
            assert(t == x + seq!['}']);
            lemma_split(s, i, x, seq!['}']);
            lemma_char_in(s, i + x.len(), seq!['}'], 0);
            lemma_split(s, i, seq!['{'], body);
            if m.len() == 0 {
                assert(m =~= Seq::<(Seq<char>, Json)>::empty());
                assert(skip_ws(s, i + 1) == i + 1);
            } else {
                lemma_entries_body(m, 0);
                lemma_char_in(s, i + 1, body, 0);
                assert(skip_ws(s, i + 1) == i + 1);
                lemma_entries_text(s, i + 1, m, 0, (d - 1) as nat);
                assert(m.take(0) =~= Seq::<(Seq<char>, Json)>::empty());
            }
        },
    }
}

proof fn lemma_items_body(items: Seq<Json>, k: int, e: nat)
    requires
        0 <= k < items.len(),
        forall|q: int| 0 <= q < items.len() ==> well_formed(#[trigger] items[q], e),
    ensures
        items_from(items, k).len() > 0,
        items_from(items, k)[0] == serialize(items[k])[0],
        !is_ws(items_from(items, k)[0]),
        items_from(items, k)[0] != ']',
{
    lemma_first_char(items[k], e);
}

proof fn lemma_entries_body(m: Seq<(Seq<char>, Json)>, k: int)
    requires
        0 <= k < m.len(),
    ensures
        entries_from(m, k).len() > 0,
        entries_from(m, k)[0] == '"',
{
}

proof fn lemma_items_text(s: Seq<char>, p: int, items: Seq<Json>, k: int, e: nat)
    requires
        0 <= k < items.len(),
        forall|q: int| 0 <= q < items.len() ==> well_formed(#[trigger] items[q], e),
        0 <= p,
        p + items_from(items, k).len() < s.len(),
        s.subrange(p, p + items_from(items, k).len()) == items_from(items, k),
        s[p + items_from(items, k).len()] == ']',
    ensures
        array_items(s, p, e, items.take(k)) == Ok::<(Seq<Json>, int), crate::value::ParseError>(
            (items, p + items_from(items, k).len() + 1),
        ),
    decreases items, items.len() - k, 
{
    let x = serialize(items[k]);
    lemma_first_char(items[k], e);
    if k == items.len() - 1 {
        lemma_value_text(s, p, items[k], e);
        assert(items.take(k).push(items[k]) =~= items);
    } else {
        let rest = items_from(items, k + 1);
        assert(items_from(items, k) == x + seq![','] + rest);
        lemma_split(s, p, x + seq![','], rest);
        lemma_split(s, p, x, seq![',']);
        lemma_char_in(s, p + x.len(), seq![','], 0);
        lemma_value_text(s, p, items[k], e);
        lemma_items_body(items, k + 1, e);
        lemma_char_in(s, p + x.len() + 1, rest, 0);
        assert(skip_ws(s, p + x.len() + 1) == p + x.len() + 1);
        lemma_items_text(s, p + x.len() + 1, items, k + 1, e);
        assert(items.take(k).push(items[k]) =~= items.take(k + 1));
    }
}

proof fn lemma_unique_take(m: Seq<(Seq<char>, Json)>, k: int)
    requires
        keys_unique(m),
        0 <= k < m.len(),
    ensures
        insert_entry(m.take(k), m[k].0, m[k].1) == m.take(k + 1),
{
    let a = m.take(k);
    assert(!exists|q: int| 0 <= q < a.len() && a[q].0 == m[k].0);
    assert(a.push((m[k].0, m[k].1)) =~= m.take(k + 1));
}

proof fn lemma_entries_text(s: Seq<char>, p: int, m: Seq<(Seq<char>, Json)>, k: int, e: nat)
    requires
        0 <= k < m.len(),
        keys_unique(m),
        forall|q: int| 0 <= q < m.len() ==> well_formed(#[trigger] m[q].1, e),
        0 <= p,
        p + entries_from(m, k).len() < s.len(),
        s.subrange(p, p + entries_from(m, k).len()) == entries_from(m, k),
        s[p + entries_from(m, k).len()] == '}',
    ensures
        object_entries(s, p, e, m.take(k)) == Ok::<(Seq<(Seq<char>, Json)>, int), crate::value::ParseError>(
            (m, p + entries_from(m, k).len() + 1),
        ),
    decreases m, m.len() - k, 
{
    let key = quoted(m[k].0);
    let x = serialize(m[k].1);
    let head = key + seq![':'] + x;
    lemma_first_char(m[k].1, e);
    lemma_unique_take(m, k);
    let tail = if k == m.len() - 1 {
        Seq::<char>::empty()
    } else {
        seq![','] + entries_from(m, k + 1)
    };
    assert(entries_from(m, k) =~= head + tail);
    lemma_split(s, p, head, tail);
    lemma_split(s, p, key + seq![':'], x);
    lemma_split(s, p, key, seq![':']);
    lemma_char_in(s, p + key.len(), seq![':'], 0);
    // the key
    let y = seq!['"'] + escape_text(m[k].0);
    assert(key == y + seq!['"']);
    lemma_split(s, p, y, seq!['"']);
    lemma_char_in(s, p + y.len(), seq!['"'], 0);
    lemma_split(s, p, seq!['"'], escape_text(m[k].0));
    lemma_char_in(s, p, seq!['"'], 0);
    lemma_string_text(s, p + 1, m[k].0, Seq::empty());
    assert(Seq::<char>::empty() + m[k].0 =~= m[k].0);
    assert(string_rule(s, p) == Ok::<(Seq<char>, int), crate::value::ParseError>((m[k].0, p + key.len())));
    assert(skip_ws(s, p + key.len()) == p + key.len());
    let c = p + key.len();
    if k == m.len() - 1 {
        assert(head.len() == entries_from(m, k).len());
        lemma_value_text(s, c + 1, m[k].1, e);
        assert(m.take(k + 1) =~= m);
    } else {
        let rest = entries_from(m, k + 1);
        lemma_split(s, p + head.len(), seq![','], rest);
        lemma_char_in(s, p + head.len(), seq![','], 0);
        lemma_value_text(s, c + 1, m[k].1, e);
        lemma_entries_body(m, k + 1);
        lemma_char_in(s, p + head.len() + 1, rest, 0);
        assert(skip_ws(s, p + head.len() + 1) == p + head.len() + 1);
        lemma_entries_text(s, p + head.len() + 1, m, k + 1, e);
    }
}

proof fn lemma_number_bound(s: Seq<char>, i: int)
    requires
        0 <= i <= s.len(),
    ensures
        number_end(s, i) matches Some(e) ==> i < e <= s.len(),
{
    let j = if char_at(s, i, '-') {
        i + 1
    } else {
        i
    };
    if digit_at(s, j) {
        lemma_digits_end(s, j + 1);
        let k = if s[j] == '0' {
            j + 1
        } else {
            digits_end(s, j)
        };
        if char_at(s, k, '.') && digit_at(s, k + 1) {
            lemma_digits_end(s, k + 1);
            lemma_exponent_bound(s, digits_end(s, k + 1));
        } else {
            lemma_exponent_bound(s, k);
        }
    }
}

proof fn lemma_insert_well_formed(m: Seq<(Seq<char>, Json)>, k: Seq<char>, v: Json, e: nat)
    requires
        forall|q: int| 0 <= q < m.len() ==> well_formed(#[trigger] m[q].1, e),
        well_formed(v, e),
    ensures
        forall|q: int|
            0 <= q < insert_entry(m, k, v).len() ==> well_formed(#[trigger] insert_entry(m, k, v)[q].1, e),
{
    let r = insert_entry(m, k, v);
    if exists|j: int| 0 <= j < m.len() && m[j].0 == k {
        assert forall|q: int| 0 <= q < r.len() implies well_formed(#[trigger] r[q].1, e) by {
            assert(r[q] == (k, v) || r[q] == m[q]);
        }
    } else {
        assert forall|q: int| 0 <= q < r.len() implies well_formed(#[trigger] r[q].1, e) by {
            if q < m.len() {
                assert(r[q] == m[q]);
            }
        }
    }
}

proof fn lemma_string_bound(s: Seq<char>, i: int, acc: Seq<char>)
    requires
        0 <= i,
    ensures
        string_body(s, i, acc) matches Ok((_, e)) ==> i < e <= s.len(),
    decreases s.len() - i,
{
    if 0 <= i < s.len() && s[i] != '"' {
        if s[i] == '\\' {
            if let Ok((c, _)) = escape_rule(s, i) {
                lemma_string_bound(s, i + 2, acc.push(c));
            }
        } else {
            lemma_string_bound(s, i + 1, acc.push(s[i]));
        }
    }
}

proof fn lemma_value_well_formed(s: Seq<char>, i: int, d: nat)
    requires
        0 <= i <= s.len(),
        value_rule(s, i, d) is Ok,
    ensures
        well_formed(value_rule(s, i, d)->Ok_0.0, d),
        i < value_rule(s, i, d)->Ok_0.1 <= s.len(),
    decreases d, 1int, 0int,
{
    let p = skip_ws(s, i);
    lemma_skip_ws(s, i);
    if s[p] == 'n' {
        lemma_skip_ws(s, p + 4);
    } else if s[p] == 't' || s[p] == 'f' {
        if word_at(s, p, seq!['t', 'r', 'u', 'e']) {
            lemma_skip_ws(s, p + 4);
        } else {
            lemma_skip_ws(s, p + 5);
        }
    } else if s[p] == '-' || is_digit(s[p]) {
        lemma_number_bound(s, p);
        let e = number_end(s, p)->Some_0;
        let t = s.subrange(p, e);
        assert(t.subrange(0, t.len() as int) =~= t);
        lemma_number_frame(s, p, t, 0, e - p);
        lemma_skip_ws(s, e);
    } else if s[p] == '"' {
        lemma_string_bound(s, p + 1, Seq::empty());
        lemma_skip_ws(s, string_rule(s, p)->Ok_0.1);
    } else if s[p] == '[' {
        lemma_array_well_formed(s, i, d);
    } else {
        lemma_object_well_formed(s, i, d);
    }
}

proof fn lemma_array_well_formed(s: Seq<char>, i: int, d: nat)
    requires
        0 <= i <= s.len(),
        array_rule(s, i, d) is Ok,
    ensures
        well_formed(array_rule(s, i, d)->Ok_0.0, d),
        i < array_rule(s, i, d)->Ok_0.1 <= s.len(),
    decreases d, 0int, 0int,
{
    let p = skip_ws(s, i);
    lemma_skip_ws(s, i);
    let q = skip_ws(s, p + 1);
    lemma_skip_ws(s, p + 1);
    if char_at(s, q, ']') {
        lemma_skip_ws(s, q + 1);
    } else {
        lemma_items_well_formed(s, q, (d - 1) as nat, Seq::empty());
        lemma_skip_ws(s, array_items(s, q, (d - 1) as nat, Seq::empty())->Ok_0.1);
    }
}

proof fn lemma_items_well_formed(s: Seq<char>, i: int, e: nat, acc: Seq<Json>)
    requires
        0 <= i <= s.len(),
        forall|q: int| 0 <= q < acc.len() ==> well_formed(#[trigger] acc[q], e),
        array_items(s, i, e, acc) is Ok,
    ensures
        forall|q: int|
            0 <= q < array_items(s, i, e, acc)->Ok_0.0.len() ==> well_formed(
                #[trigger] array_items(s, i, e, acc)->Ok_0.0[q],
                e,
            ),
        i < array_items(s, i, e, acc)->Ok_0.1 <= s.len(),
    decreases e, 2int, s.len() - i,
{
    lemma_value_well_formed(s, i, e);
    let (v, j) = value_rule(s, i, e)->Ok_0;
    let acc2 = acc.push(v);
    assert forall|q: int| 0 <= q < acc2.len() implies well_formed(#[trigger] acc2[q], e) by {
        if q < acc.len() {
            assert(acc2[q] == acc[q]);
        }
    }
    if !char_at(s, j, ']') {
        let k = skip_ws(s, j + 1);
        lemma_items_well_formed(s, k, e, acc2);
    }
}

proof fn lemma_object_well_formed(s: Seq<char>, i: int, d: nat)
    requires
        0 <= i <= s.len(),
        object_rule(s, i, d) is Ok,
    ensures
        well_formed(object_rule(s, i, d)->Ok_0.0, d),
        i < object_rule(s, i, d)->Ok_0.1 <= s.len(),
    decreases d, 0int, 0int,
{
    let p = skip_ws(s, i);
    lemma_skip_ws(s, i);
    let q = skip_ws(s, p + 1);
    lemma_skip_ws(s, p + 1);
    if char_at(s, q, '}') {
        lemma_skip_ws(s, q + 1);
    } else {
        lemma_entries_well_formed(s, q, (d - 1) as nat, Seq::empty());
        lemma_skip_ws(s, object_entries(s, q, (d - 1) as nat, Seq::empty())->Ok_0.1);
    }
}

proof fn lemma_entries_well_formed(s: Seq<char>, i: int, e: nat, acc: Seq<(Seq<char>, Json)>)
    requires
        0 <= i <= s.len(),
        keys_unique(acc),
        forall|q: int| 0 <= q < acc.len() ==> well_formed(#[trigger] acc[q].1, e),
        object_entries(s, i, e, acc) is Ok,
    ensures
        keys_unique(object_entries(s, i, e, acc)->Ok_0.0),
        forall|q: int|
            0 <= q < object_entries(s, i, e, acc)->Ok_0.0.len() ==> well_formed(
                #[trigger] object_entries(s, i, e, acc)->Ok_0.0[q].1,
                e,
            ),
        i < object_entries(s, i, e, acc)->Ok_0.1 <= s.len(),
    decreases e, 2int, s.len() - i,
{
    let (key, j) = string_rule(s, i)->Ok_0;
    lemma_string_bound(s, i + 1, Seq::empty());
    let c = skip_ws(s, j);
    lemma_skip_ws(s, j);
    lemma_value_well_formed(s, c + 1, e);
    let (v, k) = value_rule(s, c + 1, e)->Ok_0;
    let m = insert_entry(acc, key, v);
    crate::parser::lemma_insert_unique(acc, key, v);
    lemma_insert_well_formed(acc, key, v, e);
    if !char_at(s, k, '}') {
        let n = skip_ws(s, k + 1);
        lemma_entries_well_formed(s, n, e, m);
    }
}

/// Parsing the canonical text of a well-formed tree gives back that tree and
/// leaves no text over.
pub proof fn lemma_parse_canonical(j: Json, d: nat)
    requires
        well_formed(j, d),
    ensures
        document(serialize(j), d) == Ok::<(Json, Seq<char>), crate::value::ParseError>(
            (j, Seq::empty()),
        ),
{
    let t = serialize(j);
    assert(t.subrange(0, t.len() as int) =~= t);
    lemma_value_text(t, 0, j, d);
    assert(t.subrange(t.len() as int, t.len() as int) =~= Seq::<char>::empty());
}

/// Every tree that parsing a document gives is well formed.
pub proof fn lemma_parsed_well_formed(s: Seq<char>, d: nat)
    requires
        document(s, d) is Ok,
    ensures
        well_formed(document(s, d)->Ok_0.0, d),
{
    lemma_value_well_formed(s, 0, d);
}

/// Round trip: the tree that a document parses to, written as canonical text
/// and parsed again, is the same tree, with nothing left over.
pub proof fn lemma_round_trip(s: Seq<char>, d: nat)
    requires
        document(s, d) is Ok,
    ensures
        document(serialize(document(s, d)->Ok_0.0), d) == Ok::<(Json, Seq<char>), crate::value::ParseError>(
            (document(s, d)->Ok_0.0, Seq::empty()),
        ),
{
    lemma_parsed_well_formed(s, d);
    lemma_parse_canonical(document(s, d)->Ok_0.0, d);
}

/// Idempotence: parsing the canonical text of a parsed tree succeeds, and the
/// canonical text of what it gives is that same text.
pub proof fn lemma_canonical_idempotent(s: Seq<char>, d: nat)
    requires
        document(s, d) is Ok,
    ensures
        document(serialize(document(s, d)->Ok_0.0), d) is Ok,
        serialize(document(serialize(document(s, d)->Ok_0.0), d)->Ok_0.0) == serialize(
            document(s, d)->Ok_0.0,
        ),
{
    lemma_round_trip(s, d);
}

} // verus!
