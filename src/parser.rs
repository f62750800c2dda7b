//! The executable parser. Each rule is proved to compute exactly what the
//! rule of the same name in `grammar` describes.
use vstd::prelude::*;
use vstd::slice::slice_subrange;
use crate::value::{Json, JsonValue, ErrorKind, ParseError, model_of, items_model, entries_model, lemma_array_model, lemma_object_model};
use crate::grammar::{Outcome, skip_ws, digits_end, word_at, char_at, digit_at, exponent_end, number_end, escape_of, escape_rule, string_body, string_rule, null_rule, bool_rule, number_rule, value_rule, array_rule, array_items, object_rule, object_entries, insert_entry, keys_unique, document};
use crate::text::{chars_of, string_from, literal_fits};

verus! {

/// How deeply arrays and objects may nest under `parse`.
pub const DEFAULT_MAX_DEPTH: usize = 128;

/// The executable result `r` is the outcome `g` of a grammar rule.
pub open spec fn agrees(r: Result<(JsonValue, usize), ParseError>, g: Outcome<Json>) -> bool {
    match r {
        Ok((v, j)) => g == Ok::<(Json, int), ParseError>((model_of(v), j as int)),
        Err(e) => g == Err::<(Json, int), ParseError>(e),
    }
}

/// A successful result ends after `i`, within the input.
pub open spec fn advances<T>(r: Result<(T, usize), ParseError>, i: usize, n: nat) -> bool {
    match r {
        Ok((_, j)) => i < j <= n,
        Err(_) => true,
    }
}

fn error<T>(kind: ErrorKind, pos: usize) -> (r: Result<T, ParseError>)
    ensures
        r == Err::<T, ParseError>(ParseError { kind, pos }),
{
    Err(ParseError { kind, pos })
}

/// The first position at or after `i` that holds no whitespace.
pub fn skip_whitespace(s: &Vec<char>, i: usize) -> (r: usize)
    requires
        i <= s.len(),
    ensures
        r == skip_ws(s@, i as int),
        i <= r <= s.len(),
{
    let mut k = i;
    while k < s.len() && (s[k] == ' ' || s[k] == '\t' || s[k] == '\n' || s[k] == '\r')
        invariant
            i <= k <= s.len(),
            skip_ws(s@, i as int) == skip_ws(s@, k as int),
        decreases s.len() - k,
    {
        k = k + 1;
    }
    k
}

fn skip_digits(s: &Vec<char>, i: usize) -> (r: usize)
    requires
        i <= s.len(),
    ensures
        r == digits_end(s@, i as int),
        i <= r <= s.len(),
        digit_at(s@, i as int) ==> i < r,
{
    let mut k = i;
    while k < s.len() && '0' <= s[k] && s[k] <= '9'
        invariant
            i <= k <= s.len(),
            digits_end(s@, i as int) == digits_end(s@, k as int),
        decreases s.len() - k,
    {
        k = k + 1;
    }
    k
}

fn word_here(s: &Vec<char>, i: usize, w: &Vec<char>) -> (r: bool)
    requires
        i <= s.len(),
    ensures
        r == word_at(s@, i as int, w@),
{
    if w.len() > s.len() - i {
        return false;
    }
    let mut k: usize = 0;
    while k < w.len()
        invariant
            k <= w.len(),
            i + w.len() <= s.len(),
            s@.subrange(i as int, i + k) =~= w@.subrange(0, k as int),
        decreases w.len() - k,
    {
        if s[i + k] != w[k] {
            assert(s@.subrange(i as int, i + w.len())[k as int] != w@[k as int]);
            return false;
        }
        k = k + 1;
        assert(s@.subrange(i as int, i + k) =~= w@.subrange(0, k as int));
    }
    assert(w@.subrange(0, w.len() as int) =~= w@);
    true
}

fn char_is(s: &Vec<char>, i: usize, c: char) -> (r: bool)
    ensures
        r == char_at(s@, i as int, c),
{
    i < s.len() && s[i] == c
}

fn digit_is(s: &Vec<char>, i: usize) -> (r: bool)
    ensures
        r == digit_at(s@, i as int),
{
    i < s.len() && '0' <= s[i] && s[i] <= '9'
}

/// The keyword `null`, with optional whitespace before and after it.
pub fn parse_null(s: &Vec<char>, i: usize) -> (r: Result<(JsonValue, usize), ParseError>)
    requires
        i <= s.len(),
    ensures
        agrees(r, null_rule(s@, i as int)),
        advances(r, i, s.len() as nat),
{
    let p = skip_whitespace(s, i);
    let w = vec!['n', 'u', 'l', 'l'];
    assert(w@ =~= seq!['n', 'u', 'l', 'l']);
    if word_here(s, p, &w) {
        Ok((JsonValue::Null, skip_whitespace(s, p + 4)))
    } else {
        error(ErrorKind::LiteralMismatch, p)
    }
}

/// The keyword `true` or `false`, with optional whitespace before and after it.
pub fn parse_bool(s: &Vec<char>, i: usize) -> (r: Result<(JsonValue, usize), ParseError>)
    requires
        i <= s.len(),
    ensures
        agrees(r, bool_rule(s@, i as int)),
        advances(r, i, s.len() as nat),
{
    let p = skip_whitespace(s, i);
    let t = vec!['t', 'r', 'u', 'e'];
    let f = vec!['f', 'a', 'l', 's', 'e'];
    assert(t@ =~= seq!['t', 'r', 'u', 'e']);
    assert(f@ =~= seq!['f', 'a', 'l', 's', 'e']);
    if word_here(s, p, &t) {
        Ok((JsonValue::Boolean(true), skip_whitespace(s, p + 4)))
    } else if word_here(s, p, &f) {
        Ok((JsonValue::Boolean(false), skip_whitespace(s, p + 5)))
    } else {
        error(ErrorKind::LiteralMismatch, p)
    }
}

fn scan_exponent(s: &Vec<char>, m: usize) -> (r: usize)
    requires
        m <= s.len(),
    ensures
        r == exponent_end(s@, m as int),
        m <= r <= s.len(),
{
    if char_is(s, m, 'e') || char_is(s, m, 'E') {
        let e = if char_is(s, m + 1, '+') || char_is(s, m + 1, '-') {
            m + 2
        } else {
            m + 1
        };
        if digit_is(s, e) {
            skip_digits(s, e)
        } else {
            m
        }
    } else {
        m
    }
}

/// The end of the longest numeric literal that starts at `i`, or `None` where
/// none starts there or its integer part has a leading zero.
pub fn scan_number(s: &Vec<char>, i: usize) -> (r: Option<usize>)
    requires
        i <= s.len(),
    ensures
        match r {
            Some(e) => number_end(s@, i as int) == Some(e as int) && i < e <= s.len(),
            None => number_end(s@, i as int) is None,
        },
{
    let j = if char_is(s, i, '-') {
        i + 1
    } else {
        i
    };
    if !digit_is(s, j) {
        return None;
    }
    let k = if s[j] == '0' {
        j + 1
    } else {
        skip_digits(s, j)
    };
    if s[j] == '0' && digit_is(s, k) {
        None
    } else if char_is(s, k, '.') && digit_is(s, k + 1) {
        Some(scan_exponent(s, skip_digits(s, k + 1)))
    } else if char_is(s, k, '.') {
        Some(k)
    } else {
        Some(scan_exponent(s, k))
    }
}

/// The result of the number rule once the literal that starts at `i` has been
/// scanned and its range checked: `fits` tells whether serde_json's range
/// check accepted it, and `e` is where the rule ends.
pub fn number_outcome(lexeme: String, i: usize, e: usize, fits: bool) -> (r: Result<(JsonValue, usize), ParseError>)
    ensures
        fits ==> r == Ok::<(JsonValue, usize), ParseError>((JsonValue::Number(lexeme), e)),
        !fits ==> r == Err::<(JsonValue, usize), ParseError>(
            ParseError { kind: ErrorKind::NumericConversionFailure, pos: i },
        ),
{
    if fits {
        Ok((JsonValue::Number(lexeme), e))
    } else {
        error(ErrorKind::NumericConversionFailure, i)
    }
}

/// A numeric literal, with optional whitespace before and after it; its value
/// must pass serde_json's range check.
pub fn parse_number(s: &Vec<char>, i: usize) -> (r: Result<(JsonValue, usize), ParseError>)
    requires
        i <= s.len(),
    ensures
        agrees(r, number_rule(s@, i as int)),
        advances(r, i, s.len() as nat),
{
    let p = skip_whitespace(s, i);
    match scan_number(s, p) {
        None => error(ErrorKind::InvalidNumericLiteral, p),
        Some(e) => {
            let lexeme = string_from(slice_subrange(s.as_slice(), p, e));
            let fits = literal_fits(lexeme.as_str());
            number_outcome(lexeme, p, skip_whitespace(s, e), fits)
        },
    }
}

fn escape_char(c: char) -> (r: Option<char>)
    ensures
        r == escape_of(c),
{
    if c == '"' {
        Some('"')
    } else if c == '\\' {
        Some('\\')
    } else if c == '/' {
        Some('/')
    } else if c == 'n' {
        Some('\n')
    } else if c == 'r' {
        Some('\r')
    } else if c == 't' {
        Some('\t')
    } else if c == 'b' {
        Some('\u{8}')
    } else if c == 'f' {
        Some('\u{c}')
    } else {
        None
    }
}

/// The escape sequence at `i`: the character it stands for, and the position
/// after its two characters. A backslash with nothing after it is an invalid
/// escape sequence.
pub fn parse_escaped_char(s: &Vec<char>, i: usize) -> (r: Result<(char, usize), ParseError>)
    requires
        i <= s.len(),
    ensures
        match r {
            Ok((c, j)) => escape_rule(s@, i as int) == Ok::<(char, int), ParseError>((c, j as int)),
            Err(e) => escape_rule(s@, i as int) == Err::<(char, int), ParseError>(e),
        },
        advances(r, i, s.len() as nat),
{
    if !char_is(s, i, '\\') || i + 1 >= s.len() {
        error(ErrorKind::InvalidEscapeSequence, i)
    } else {
        match escape_char(s[i + 1]) {
            Some(c) => Ok((c, i + 2)),
            None => error(ErrorKind::InvalidEscapeSequence, i),
        }
    }
}

/// A string literal whose opening quote is at `i`, decoded.
pub fn parse_string(s: &Vec<char>, i: usize) -> (r: Result<(String, usize), ParseError>)
    requires
        i <= s.len(),
    ensures
        match r {
            Ok((t, j)) => string_rule(s@, i as int) == Ok::<(Seq<char>, int), ParseError>((t@, j as int)),
            Err(e) => string_rule(s@, i as int) == Err::<(Seq<char>, int), ParseError>(e),
        },
        advances(r, i, s.len() as nat),
{
    if !char_is(s, i, '"') {
        return error(ErrorKind::NoMatchingRule, i);
    }
    let mut acc: Vec<char> = Vec::new();
    let mut k = i + 1;
    loop
        invariant
            i < k <= s.len(),
            string_rule(s@, i as int) == string_body(s@, k as int, acc@),
        decreases s.len() - k,
    {
        if k >= s.len() {
            return error(ErrorKind::UnterminatedString, s.len());
        }
        let c = s[k];
        if c == '"' {
            let t = string_from(acc.as_slice());
            return Ok((t, k + 1));
        } else if c == '\\' {
            match parse_escaped_char(s, k) {
                Ok((d, n)) => {
                    acc.push(d);
                    k = n;
                },
                Err(e) => {
                    return Err(e);
                },
            }
        } else {
            acc.push(c);
            k = k + 1;
        }
    }
}

/// Inserting keeps keys unique.
pub proof fn lemma_insert_unique(m: Seq<(Seq<char>, Json)>, k: Seq<char>, v: Json)
    requires
        keys_unique(m),
    ensures
        keys_unique(insert_entry(m, k, v)),
{
}

/// Adds an entry last-wins: a key already present keeps its place and takes
/// the new value; a new key goes to the end.
pub fn insert_entry_into(entries: &mut Vec<(String, JsonValue)>, key: String, v: JsonValue)
    requires
        keys_unique(entries_model(*old(entries))),
    ensures
        entries_model(*final(entries)) == insert_entry(entries_model(*old(entries)), key@, model_of(v)),
        keys_unique(entries_model(*final(entries))),
{
    let ghost m = entries_model(*entries);
    let mut j: usize = 0;
    while j < entries.len()
        invariant
            j <= entries.len(),
            m == entries_model(*entries),
            m == entries_model(*old(entries)),
            keys_unique(m),
            forall|q: int| 0 <= q < j ==> m[q].0 != key@,
        decreases entries.len() - j,
    {
        if entries[j].0 == key {
            let ghost kv = key@;
            let ghost mv = model_of(v);
            assert(m[j as int].0 == kv);
            entries[j] = (key, v);
            proof {
                assert(exists|c: int| 0 <= c < m.len() && m[c].0 == kv);
                let c = choose|c: int| 0 <= c < m.len() && m[c].0 == kv;
                assert(c == j);
                assert(insert_entry(m, kv, mv) == m.update(j as int, (kv, mv)));
                assert(entries_model(*entries) =~= m.update(j as int, (kv, mv)));
                lemma_insert_unique(m, kv, mv);
            }
            return;
        }
        j = j + 1;
    }
    let ghost kv = key@;
    let ghost mv = model_of(v);
    entries.push((key, v));
    proof {
        assert(entries_model(*entries) =~= m.push((kv, mv)));
        lemma_insert_unique(m, kv, mv);
    }
}

/// A value at `i`: whitespace, one of the six kinds chosen by its first
/// character, whitespace. `depth` is how many arrays and objects may still nest.
pub fn parse_primary(s: &Vec<char>, i: usize, depth: usize) -> (r: Result<(JsonValue, usize), ParseError>)
    requires
        i <= s.len(),
    ensures
        agrees(r, value_rule(s@, i as int, depth as nat)),
        advances(r, i, s.len() as nat),
    decreases depth, 1int,
{
    let p = skip_whitespace(s, i);
    if p >= s.len() {
        error(ErrorKind::NoMatchingRule, p)
    } else if s[p] == 'n' {
        parse_null(s, i)
    } else if s[p] == 't' || s[p] == 'f' {
        parse_bool(s, i)
    } else if s[p] == '-' || ('0' <= s[p] && s[p] <= '9') {
        parse_number(s, i)
    } else if s[p] == '"' {
        match parse_string(s, p) {
            Ok((t, j)) => Ok((JsonValue::String(t), skip_whitespace(s, j))),
            Err(e) => Err(e),
        }
    } else if s[p] == '[' {
        parse_array(s, i, depth)
    } else if s[p] == '{' {
        parse_object(s, i, depth)
    } else {
        error(ErrorKind::NoMatchingRule, p)
    }
}

/// An array: `[`, comma-separated values, `]`, with optional whitespace
/// before and after each bracket.
pub fn parse_array(s: &Vec<char>, i: usize, depth: usize) -> (r: Result<(JsonValue, usize), ParseError>)
    requires
        i <= s.len(),
    ensures
        agrees(r, array_rule(s@, i as int, depth as nat)),
        advances(r, i, s.len() as nat),
    decreases depth, 0int,
{
    let p = skip_whitespace(s, i);
    if !char_is(s, p, '[') {
        return error(ErrorKind::NoMatchingRule, p);
    }
    if depth == 0 {
        return error(ErrorKind::NestingTooDeep, p);
    }
    let q = skip_whitespace(s, p + 1);
    let mut items: Vec<JsonValue> = Vec::new();
    if char_is(s, q, ']') {
        proof {
            lemma_array_model(items);
            assert(items_model(items) =~= Seq::<Json>::empty());
        }
        return Ok((JsonValue::Array(items), skip_whitespace(s, q + 1)));
    }
    let ghost e = (depth - 1) as nat;
    let mut k = q;
    proof {
        assert(items_model(items) =~= Seq::<Json>::empty());
    }
    loop
        invariant
            i < k <= s.len(),
            depth > 0,
            e == depth - 1,
            array_rule(s@, i as int, depth as nat) == match array_items(s@, k as int, e, items_model(items)) {
                Ok((m, j)) => Ok::<(Json, int), ParseError>((Json::Array(m), skip_ws(s@, j))),
                Err(x) => Err(x),
            },
        decreases s.len() - k,
    {
        if k >= s.len() {
            return error(ErrorKind::UnterminatedArray, k);
        }
        match parse_primary(s, k, depth - 1) {
            Err(x) => {
                return Err(x);
            },
            Ok((v, j)) => {
                let ghost before = items_model(items);
                items.push(v);
                proof {
                    assert(items_model(items) =~= before.push(model_of(v)));
                }
                if char_is(s, j, ']') {
                    proof {
                        lemma_array_model(items);
                    }
                    return Ok((JsonValue::Array(items), skip_whitespace(s, j + 1)));
                } else if char_is(s, j, ',') {
                    k = skip_whitespace(s, j + 1);
                } else {
                    return error(ErrorKind::UnterminatedArray, j);
                }
            },
        }
    }
}

/// An object: `{`, comma-separated `key: value` entries, `}`, with optional
/// whitespace before and after each brace. Entries with equal keys are merged
/// last-wins.
pub fn parse_object(s: &Vec<char>, i: usize, depth: usize) -> (r: Result<(JsonValue, usize), ParseError>)
    requires
        i <= s.len(),
    ensures
        agrees(r, object_rule(s@, i as int, depth as nat)),
        advances(r, i, s.len() as nat),
    decreases depth, 0int,
{
    let p = skip_whitespace(s, i);
    if !char_is(s, p, '{') {
        return error(ErrorKind::NoMatchingRule, p);
    }
    if depth == 0 {
        return error(ErrorKind::NestingTooDeep, p);
    }
    let q = skip_whitespace(s, p + 1);
    let mut entries: Vec<(String, JsonValue)> = Vec::new();
    if char_is(s, q, '}') {
        proof {
            lemma_object_model(entries);
            assert(entries_model(entries) =~= Seq::<(Seq<char>, Json)>::empty());
        }
        return Ok((JsonValue::Object(entries), skip_whitespace(s, q + 1)));
    }
    let ghost e = (depth - 1) as nat;
    let mut k = q;
    proof {
        assert(entries_model(entries) =~= Seq::<(Seq<char>, Json)>::empty());
    }
    loop
        invariant
            i < k <= s.len(),
            depth > 0,
            e == depth - 1,
            keys_unique(entries_model(entries)),
            object_rule(s@, i as int, depth as nat) == match object_entries(s@, k as int, e, entries_model(entries)) {
                Ok((m, j)) => Ok::<(Json, int), ParseError>((Json::Object(m), skip_ws(s@, j))),
                Err(x) => Err(x),
            },
        decreases s.len() - k,
    {
        if k >= s.len() {
            return error(ErrorKind::UnterminatedObject, k);
        }
        if s[k] != '"' {
            return error(ErrorKind::NonStringKey, k);
        }
        let (key, j) = match parse_string(s, k) {
            Ok(kj) => kj,
            Err(x) => {
                return Err(x);
            },
        };
        let c = skip_whitespace(s, j);
        if !char_is(s, c, ':') {
            return error(ErrorKind::UnterminatedObject, c);
        }
        let (v, n) = match parse_primary(s, c + 1, depth - 1) {
            Ok(vn) => vn,
            Err(x) => {
                return Err(x);
            },
        };
        insert_entry_into(&mut entries, key, v);
        if char_is(s, n, '}') {
            proof {
                lemma_object_model(entries);
            }
            return Ok((JsonValue::Object(entries), skip_whitespace(s, n + 1)));
        } else if char_is(s, n, ',') {
            k = skip_whitespace(s, n + 1);
        } else {
            return error(ErrorKind::UnterminatedObject, n);
        }
    }
}

/// Parses a whole document, arrays and objects nesting at most `max_depth`
/// deep, and gives the value with the text left after it.
pub fn parse_document(text: &str, max_depth: usize) -> (r: Result<(JsonValue, String), ParseError>)
    ensures
        match r {
            Ok((v, rest)) => document(text@, max_depth as nat) == Ok::<(Json, Seq<char>), ParseError>((model_of(v), rest@)),
            Err(e) => document(text@, max_depth as nat) == Err::<(Json, Seq<char>), ParseError>(e),
        },
{
    let s = chars_of(text);
    match parse_primary(&s, 0, max_depth) {
        Ok((v, j)) => {
            let rest = string_from(slice_subrange(s.as_slice(), j, s.len()));
            Ok((v, rest))
        },
        Err(e) => Err(e),
    }
}

/// Parses a whole document with the default nesting limit.
pub fn parse(text: &str) -> (r: Result<(JsonValue, String), ParseError>)
    ensures
        match r {
            Ok((v, rest)) => document(text@, DEFAULT_MAX_DEPTH as nat) == Ok::<(Json, Seq<char>), ParseError>((model_of(v), rest@)),
            Err(e) => document(text@, DEFAULT_MAX_DEPTH as nat) == Err::<(Json, Seq<char>), ParseError>(e),
        },
{
    parse_document(text, DEFAULT_MAX_DEPTH)
}

} // verus!
