//! Conversions between text and character sequences, and the range check of
//! numeric literals, which relies on serde_json.
use vstd::prelude::*;
use vstd::std_specs::iter::IteratorSpec;

verus! {

/// Whether serde_json's range check accepts a JSON numeric literal: its
/// approximation of the value as a double is finite.
pub uninterp spec fn number_fits(lexeme: Seq<char>) -> bool;

/// The characters of the text, in order.
pub fn chars_of(text: &str) -> (r: Vec<char>)
    ensures
        r@ == text@,
{
    broadcast use {vstd::string::axiom_spec_iter, vstd::string::next_postcondition};

    let mut it = text.chars();
    let mut v: Vec<char> = Vec::new();
    loop
        invariant
            v@ + IteratorSpec::remaining(&it) == text@,
            it.obeys_prophetic_iter_laws(),
            IteratorSpec::decrease(&it) is Some,
        ensures
            v@ == text@,
        decreases IteratorSpec::decrease(&it)->0,
    {
        match it.next() {
            Some(c) => {
                v.push(c);
                assert(v@ + IteratorSpec::remaining(&it) =~= text@);
            },
            None => {
                assert(v@ =~= text@);
                break;
            },
        }
    }
    v
}

/// Relies on `String: FromIterator<char>`: the string of these characters.
#[verifier::external_body]
pub(crate) fn string_from(chars: &[char]) -> (r: String)
    ensures
        r@ == chars@,
{
    chars.iter().collect()
}

/// Relies on `serde_json::Number`'s `FromStr`: it accepts a whole JSON number
/// and fails with "number out of range" where its approximation of the value
/// as a double is not finite. The result depends on the text alone.
#[verifier::external_body]
pub(crate) fn literal_fits(lexeme: &str) -> (r: bool)
    ensures
        r == number_fits(lexeme@),
{
    lexeme.parse::<serde_json::Number>().is_ok()
}

} // verus!
