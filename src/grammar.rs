//! The grammar, as spec functions over a character sequence `s` and a
//! position `i` in it. Each rule gives either the value matched together with
//! the position just after it, or the error at which matching stopped.
use vstd::prelude::*;
use crate::value::{Json, ErrorKind, ParseError};
use crate::text::number_fits;

verus! {

/// A rule's outcome: the value and the position after it, or the error.
pub type Outcome<T> = Result<(T, int), ParseError>;

pub open spec fn fail<T>(kind: ErrorKind, i: int) -> Outcome<T> {
    Err(ParseError { kind, pos: i as usize })
}

pub open spec fn is_ws(c: char) -> bool {
    c == ' ' || c == '\t' || c == '\n' || c == '\r'
}

pub open spec fn is_digit(c: char) -> bool {
    '0' <= c && c <= '9'
}

/// The first position at or after `i` that holds no whitespace.
pub open spec fn skip_ws(s: Seq<char>, i: int) -> int
    decreases s.len() - i,
{
    if 0 <= i < s.len() && is_ws(s[i]) {
        skip_ws(s, i + 1)
    } else {
        i
    }
}

/// The first position at or after `i` that holds no decimal digit.
pub open spec fn digits_end(s: Seq<char>, i: int) -> int
    decreases s.len() - i,
{
    if 0 <= i < s.len() && is_digit(s[i]) {
        digits_end(s, i + 1)
    } else {
        i
    }
}

pub open spec fn digit_at(s: Seq<char>, i: int) -> bool {
    0 <= i < s.len() && is_digit(s[i])
}

pub open spec fn char_at(s: Seq<char>, i: int, c: char) -> bool {
    0 <= i < s.len() && s[i] == c
}

/// Whether the word `w` stands in `s` at `i`.
pub open spec fn word_at(s: Seq<char>, i: int, w: Seq<char>) -> bool {
    0 <= i && i + w.len() <= s.len() && s.subrange(i, i + w.len()) == w
}

/// The end of the exponent part that may start at `m`: `e` or `E`, an
/// optional sign, at least one digit. Where no such part stands at `m`, the
/// literal ends at `m`.
pub open spec fn exponent_end(s: Seq<char>, m: int) -> int {
    if char_at(s, m, 'e') || char_at(s, m, 'E') {
        let e = if char_at(s, m + 1, '+') || char_at(s, m + 1, '-') {
            m + 2
        } else {
            m + 1
        };
        if digit_at(s, e) {
            digits_end(s, e)
        } else {
            m
        }
    } else {
        m
    }
}

/// The end of the longest numeric literal that starts at `i`: an optional
/// minus, an integer part without leading zeros, an optional fraction (`.`
/// and at least one digit), an optional exponent. A `.` without a digit after
/// it, or an exponent without digits, is not part of the literal. `None`
/// where no literal starts at `i`, and where the integer part is a `0`
/// followed by another digit.
pub open spec fn number_end(s: Seq<char>, i: int) -> Option<int> {
    let j = if char_at(s, i, '-') {
        i + 1
    } else {
        i
    };
    if !digit_at(s, j) {
        None
    } else {
        let k = if s[j] == '0' {
            j + 1
        } else {
            digits_end(s, j)
        };
        if s[j] == '0' && digit_at(s, k) {
            None
        } else if char_at(s, k, '.') && digit_at(s, k + 1) {
            Some(exponent_end(s, digits_end(s, k + 1)))
        } else if char_at(s, k, '.') {
            Some(k)
        } else {
            Some(exponent_end(s, k))
        }
    }
}

/// The character that an escape sequence `\c` stands for.
pub open spec fn escape_of(c: char) -> Option<char> {
    if c == '"' {
        Some('"')
    } else if c == '\\' {
        Some('\\')
    } else if c == '/' {
        Some('/')
    } else if c == 'n' {
        Some('\n')
    } else if c == 'r' {
        Some('\r')
    } else if c == 't' {
        Some('\t')
    } else if c == 'b' {
        Some('\u{8}')
    } else if c == 'f' {
        Some('\u{c}')
    } else {
        None
    }
}

/// The escape sequence at `i`: the decoded character, and the position after
/// it. A backslash with nothing after it is an invalid escape sequence too.
pub open spec fn escape_rule(s: Seq<char>, i: int) -> Outcome<char> {
    if !char_at(s, i, '\\') || i + 1 >= s.len() {
        fail(ErrorKind::InvalidEscapeSequence, i)
    } else {
        match escape_of(s[i + 1]) {
            Some(c) => Ok((c, i + 2)),
            None => fail(ErrorKind::InvalidEscapeSequence, i),
        }
    }
}

/// The rest of a string literal from `i` (after the opening quote), where
/// `acc` holds what was decoded before `i`.
pub open spec fn string_body(s: Seq<char>, i: int, acc: Seq<char>) -> Outcome<Seq<char>>
    decreases s.len() - i,
{
    if i < 0 || i >= s.len() {
        fail(ErrorKind::UnterminatedString, s.len() as int)
    } else if s[i] == '"' {
        Ok((acc, i + 1))
    } else if s[i] == '\\' {
        match escape_rule(s, i) {
            Ok((c, _)) => string_body(s, i + 2, acc.push(c)),
            Err(e) => Err(e),
        }
    } else {
        string_body(s, i + 1, acc.push(s[i]))
    }
}

/// The keyword `null`, with optional whitespace before and after it.
pub open spec fn null_rule(s: Seq<char>, i: int) -> Outcome<Json> {
    let p = skip_ws(s, i);
    if word_at(s, p, seq!['n', 'u', 'l', 'l']) {
        Ok((Json::Null, skip_ws(s, p + 4)))
    } else {
        fail(ErrorKind::LiteralMismatch, p)
    }
}

/// The keyword `true` or `false`, with optional whitespace before and after it.
pub open spec fn bool_rule(s: Seq<char>, i: int) -> Outcome<Json> {
    let p = skip_ws(s, i);
    if word_at(s, p, seq!['t', 'r', 'u', 'e']) {
        Ok((Json::Boolean(true), skip_ws(s, p + 4)))
    } else if word_at(s, p, seq!['f', 'a', 'l', 's', 'e']) {
        Ok((Json::Boolean(false), skip_ws(s, p + 5)))
    } else {
        fail(ErrorKind::LiteralMismatch, p)
    }
}

/// A numeric literal, with optional whitespace before and after it; its
/// value must pass serde_json's range check.
pub open spec fn number_rule(s: Seq<char>, i: int) -> Outcome<Json> {
    let p = skip_ws(s, i);
    match number_end(s, p) {
        None => fail(ErrorKind::InvalidNumericLiteral, p),
        Some(e) => if number_fits(s.subrange(p, e)) {
            Ok((Json::Number(s.subrange(p, e)), skip_ws(s, e)))
        } else {
            fail(ErrorKind::NumericConversionFailure, p)
        },
    }
}

/// A string literal whose opening quote is at `i`.
pub open spec fn string_rule(s: Seq<char>, i: int) -> Outcome<Seq<char>> {
    if char_at(s, i, '"') {
        string_body(s, i + 1, Seq::empty())
    } else {
        fail(ErrorKind::NoMatchingRule, i)
    }
}

/// Entries are inserted last-wins: a key already present keeps its place and
/// takes the new value.
pub open spec fn insert_entry(m: Seq<(Seq<char>, Json)>, k: Seq<char>, v: Json) -> Seq<
    (Seq<char>, Json),
> {
    if exists|j: int| 0 <= j < m.len() && m[j].0 == k {
        let j = choose|j: int| 0 <= j < m.len() && m[j].0 == k;
        m.update(j, (k, v))
    } else {
        m.push((k, v))
    }
}

pub open spec fn keys_unique(m: Seq<(Seq<char>, Json)>) -> bool {
    forall|a: int, b: int| 0 <= a < m.len() && 0 <= b < m.len() && a != b ==> m[a].0 != m[b].0
}

/// A value: whitespace, one of the six kinds chosen by its first character,
/// whitespace. Each kind's rule trims the whitespace itself; a string literal
/// is trimmed here. `d` is how many arrays and objects may still nest.
pub open spec fn value_rule(s: Seq<char>, i: int, d: nat) -> Outcome<Json>
    decreases d, 1int, 0int,
{
    let p = skip_ws(s, i);
    if p < 0 || p >= s.len() {
        fail(ErrorKind::NoMatchingRule, p)
    } else if s[p] == 'n' {
        null_rule(s, i)
    } else if s[p] == 't' || s[p] == 'f' {
        bool_rule(s, i)
    } else if s[p] == '-' || is_digit(s[p]) {
        number_rule(s, i)
    } else if s[p] == '"' {
        match string_rule(s, p) {
            Ok((t, j)) => Ok((Json::Str(t), skip_ws(s, j))),
            Err(e) => Err(e),
        }
    } else if s[p] == '[' {
        array_rule(s, i, d)
    } else if s[p] == '{' {
        object_rule(s, i, d)
    } else {
        fail(ErrorKind::NoMatchingRule, p)
    }
}

/// An array, with optional whitespace before and after each bracket.
pub open spec fn array_rule(s: Seq<char>, i: int, d: nat) -> Outcome<Json>
    decreases d, 0int, 0int,
{
    let p = skip_ws(s, i);
    if !char_at(s, p, '[') {
        fail(ErrorKind::NoMatchingRule, p)
    } else if d == 0 {
        fail(ErrorKind::NestingTooDeep, p)
    } else {
        let q = skip_ws(s, p + 1);
        if char_at(s, q, ']') {
            Ok((Json::Array(Seq::empty()), skip_ws(s, q + 1)))
        } else {
            match array_items(s, q, (d - 1) as nat, Seq::empty()) {
                Ok((items, j)) => Ok((Json::Array(items), skip_ws(s, j))),
                Err(e) => Err(e),
            }
        }
    }
}

/// The elements of an array from `i`, where an element is due; `acc` holds
/// the elements before it.
pub open spec fn array_items(s: Seq<char>, i: int, d: nat, acc: Seq<Json>) -> Outcome<Seq<Json>>
    decreases d, 2int, s.len() - i,
{
    if i < 0 || i >= s.len() {
        fail(ErrorKind::UnterminatedArray, i)
    } else {
        match value_rule(s, i, d) {
            Err(e) => Err(e),
            Ok((v, j)) => if char_at(s, j, ']') {
                Ok((acc.push(v), j + 1))
            } else if char_at(s, j, ',') {
                let k = skip_ws(s, j + 1);
                if k <= i || k > s.len() {
                    fail(ErrorKind::UnterminatedArray, j)
                } else {
                    array_items(s, k, d, acc.push(v))
                }
            } else {
                fail(ErrorKind::UnterminatedArray, j)
            },
        }
    }
}

/// An object, with optional whitespace before and after each brace.
pub open spec fn object_rule(s: Seq<char>, i: int, d: nat) -> Outcome<Json>
    decreases d, 0int, 0int,
{
    let p = skip_ws(s, i);
    if !char_at(s, p, '{') {
        fail(ErrorKind::NoMatchingRule, p)
    } else if d == 0 {
        fail(ErrorKind::NestingTooDeep, p)
    } else {
        let q = skip_ws(s, p + 1);
        if char_at(s, q, '}') {
            Ok((Json::Object(Seq::empty()), skip_ws(s, q + 1)))
        } else {
            match object_entries(s, q, (d - 1) as nat, Seq::empty()) {
                Ok((m, j)) => Ok((Json::Object(m), skip_ws(s, j))),
                Err(e) => Err(e),
            }
        }
    }
}

/// The entries of an object from `i`, where a key is due; `acc` holds the
/// entries before it.
pub open spec fn object_entries(
    s: Seq<char>,
    i: int,
    d: nat,
    acc: Seq<(Seq<char>, Json)>,
) -> Outcome<Seq<(Seq<char>, Json)>>
    decreases d, 2int, s.len() - i,
{
    if i < 0 || i >= s.len() {
        fail(ErrorKind::UnterminatedObject, i)
    } else if s[i] != '"' {
        fail(ErrorKind::NonStringKey, i)
    } else {
        match string_rule(s, i) {
            Err(e) => Err(e),
            Ok((key, j)) => {
                let c = skip_ws(s, j);
                if !char_at(s, c, ':') {
                    fail(ErrorKind::UnterminatedObject, c)
                } else {
                    match value_rule(s, c + 1, d) {
                        Err(e) => Err(e),
                        Ok((v, k)) => {
                            let m = insert_entry(acc, key, v);
                            if char_at(s, k, '}') {
                                Ok((m, k + 1))
                            } else if char_at(s, k, ',') {
                                let n = skip_ws(s, k + 1);
                                if n <= i || n > s.len() {
                                    fail(ErrorKind::UnterminatedObject, k)
                                } else {
                                    object_entries(s, n, d, m)
                                }
                            } else {
                                fail(ErrorKind::UnterminatedObject, k)
                            }
                        },
                    }
                }
            },
        }
    }
}

/// A whole document: a value from the start, and the text left after it.
pub open spec fn document(s: Seq<char>, d: nat) -> Result<(Json, Seq<char>), ParseError> {
    match value_rule(s, 0, d) {
        Ok((v, j)) => Ok((v, s.subrange(j, s.len() as int))),
        Err(e) => Err(e),
    }
}

pub proof fn lemma_skip_ws(s: Seq<char>, i: int)
    requires
        0 <= i <= s.len(),
    ensures
        i <= skip_ws(s, i) <= s.len(),
        skip_ws(s, i) < s.len() ==> !is_ws(s[skip_ws(s, i)]),
    decreases s.len() - i,
{
    if i < s.len() && is_ws(s[i]) {
        lemma_skip_ws(s, i + 1);
    }
}

pub proof fn lemma_digits_end(s: Seq<char>, i: int)
    requires
        0 <= i <= s.len(),
    ensures
        i <= digits_end(s, i) <= s.len(),
    decreases s.len() - i,
{
    if i < s.len() && is_digit(s[i]) {
        lemma_digits_end(s, i + 1);
    }
}

} // verus!
