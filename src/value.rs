//! The tree that the parser builds, its mathematical model, and the errors.
use vstd::prelude::*;

verus! {

broadcast use vstd::std_specs::vec::axiom_vec_index_decreases;

/// The mathematical model of a JSON tree.
pub enum Json {
    Null,
    Boolean(bool),
    /// The numeric literal as written in the document.
    Number(Seq<char>),
    Str(Seq<char>),
    Array(Seq<Json>),
    /// Entries in order of first insertion, keys unique.
    Object(Seq<(Seq<char>, Json)>),
}

/// A parsed JSON tree.
///
/// A number keeps its literal text: the literal has been checked against the
/// JSON number grammar and passed serde_json's range check.
#[derive(Debug, PartialEq)]
pub enum JsonValue {
    Null,
    Boolean(bool),
    Number(String),
    String(String),
    Array(Vec<JsonValue>),
    Object(Vec<(String, JsonValue)>),
}

/// What went wrong while matching.
#[derive(Clone, Copy, Debug, PartialEq, Eq, Structural)]
pub enum ErrorKind {
    NoMatchingRule,
    LiteralMismatch,
    InvalidNumericLiteral,
    NumericConversionFailure,
    UnterminatedString,
    InvalidEscapeSequence,
    UnterminatedArray,
    UnterminatedObject,
    NonStringKey,
    NestingTooDeep,
}

/// A failure, with the position (in characters) where it was detected.
#[derive(Clone, Copy, Debug, PartialEq, Eq, Structural)]
pub struct ParseError {
    pub kind: ErrorKind,
    pub pos: usize,
}

/// The model of the elements of an array.
pub open spec fn items_model(v: Vec<JsonValue>) -> Seq<Json> {
    Seq::new(v.len() as nat, |i: int| model_of(v[i]))
}

/// The model of the entries of an object.
pub open spec fn entries_model(v: Vec<(String, JsonValue)>) -> Seq<(Seq<char>, Json)> {
    Seq::new(v.len() as nat, |i: int| (v[i].0@, model_of(v[i].1)))
}

/// The model of a tree.
pub open spec fn model_of(j: JsonValue) -> Json
    decreases j,
{
    match j {
        JsonValue::Null => Json::Null,
        JsonValue::Boolean(b) => Json::Boolean(b),
        JsonValue::Number(t) => Json::Number(t@),
        JsonValue::String(t) => Json::Str(t@),
        JsonValue::Array(v) => Json::Array(
            Seq::new(
                v.len() as nat,
                |i: int|
                    if 0 <= i < v.len() {
                        model_of(v[i])
                    } else {
                        Json::Null
                    },
            ),
        ),
        JsonValue::Object(v) => Json::Object(
            Seq::new(
                v.len() as nat,
                |i: int|
                    if 0 <= i < v.len() {
                        (v[i].0@, model_of(v[i].1))
                    } else {
                        (Seq::empty(), Json::Null)
                    },
            ),
        ),
    }
}

/// The model of an array tree is the array of the models of its elements.
pub proof fn lemma_array_model(v: Vec<JsonValue>)
    ensures
        model_of(JsonValue::Array(v)) == Json::Array(items_model(v)),
{
    assert(items_model(v) =~= match model_of(JsonValue::Array(v)) {
        Json::Array(m) => m,
        _ => Seq::empty(),
    });
}

/// The model of an object tree is the object of the models of its entries.
pub proof fn lemma_object_model(v: Vec<(String, JsonValue)>)
    ensures
        model_of(JsonValue::Object(v)) == Json::Object(entries_model(v)),
{
    assert(entries_model(v) =~= match model_of(JsonValue::Object(v)) {
        Json::Object(m) => m,
        _ => Seq::empty(),
    });
}

} // verus!
