//! A recursive-descent JSON parser with machine-checked contracts.
//!
//! The grammar is stated once as a family of spec functions (`grammar`), the
//! executable parser (`parser`) is proved to compute exactly what those
//! functions describe. `canonical` writes a tree as canonical text, and
//! `round_trip` proves that parsing that text gives the tree back.
use vstd::prelude::*;

pub mod value;
pub mod text;
pub mod grammar;
pub mod parser;
pub mod canonical;
pub mod round_trip;

pub use value::{Json, JsonValue, ErrorKind, ParseError};
pub use parser::{parse, parse_document, DEFAULT_MAX_DEPTH};
pub use canonical::to_text;
