use json_descent::parser::{number_outcome, parse_array, parse_bool, parse_number, parse_escaped_char, parse_null, parse_object, parse_string, scan_number, skip_whitespace};
use json_descent::{parse, parse_document, to_text, ErrorKind, JsonValue};

fn chars(s: &str) -> Vec<char> {
    s.chars().collect()
}

fn num(t: &str) -> JsonValue {
    JsonValue::Number(t.to_string())
}

fn text(t: &str) -> JsonValue {
    JsonValue::String(t.to_string())
}

fn value_of(doc: &str) -> JsonValue {
    let (v, rest) = parse(doc).unwrap();
    assert!(rest.trim().is_empty());
    v
}

fn kind_of(doc: &str) -> ErrorKind {
    parse(doc).unwrap_err().kind
}

fn as_f64(v: &JsonValue) -> f64 {
    match v {
        JsonValue::Number(t) => t.parse::<f64>().unwrap(),
        _ => panic!("not a number: {:?}", v),
    }
}

#[test]
fn null_literal() {
    assert_eq!(parse("null").unwrap(), (JsonValue::Null, String::new()));
}

#[test]
fn true_with_padding() {
    assert_eq!(parse("  true  ").unwrap(), (JsonValue::Boolean(true), String::new()));
    assert_eq!(value_of("false"), JsonValue::Boolean(false));
}

#[test]
fn truncated_null_fails() {
    assert_eq!(kind_of("nul"), ErrorKind::LiteralMismatch);
}

#[test]
fn literals_are_case_sensitive() {
    assert_eq!(kind_of("NULL"), ErrorKind::NoMatchingRule);
    assert_eq!(kind_of("True"), ErrorKind::NoMatchingRule);
    assert_eq!(kind_of("tru"), ErrorKind::LiteralMismatch);
}

#[test]
fn decimal_number() {
    let v = value_of("123.45");
    assert_eq!(v, num("123.45"));
    assert_eq!(as_f64(&v), 123.45);
}

#[test]
fn negative_exponent_number() {
    let v = value_of("-0.5e2");
    assert_eq!(v, num("-0.5e2"));
    assert_eq!(as_f64(&v), -50.0);
}

#[test]
fn malformed_numbers_fail() {
    assert_eq!(kind_of("01"), ErrorKind::InvalidNumericLiteral);
    assert_eq!(kind_of("-"), ErrorKind::InvalidNumericLiteral);
    assert_eq!(kind_of("-x"), ErrorKind::InvalidNumericLiteral);
    assert_eq!(kind_of(".5"), ErrorKind::NoMatchingRule);
}

#[test]
fn number_takes_longest_prefix() {
    assert_eq!(parse("1.").unwrap(), (num("1"), ".".to_string()));
    assert_eq!(parse("0.").unwrap(), (num("0"), ".".to_string()));
    assert_eq!(parse("1.e5").unwrap(), (num("1"), ".e5".to_string()));
    assert_eq!(parse("1e").unwrap(), (num("1"), "e".to_string()));
    assert_eq!(parse("1e+").unwrap(), (num("1"), "e+".to_string()));
    assert_eq!(parse("2.5E-").unwrap(), (num("2.5"), "E-".to_string()));
    assert_eq!(parse("7E+2x").unwrap(), (num("7E+2"), "x".to_string()));
    assert_eq!(kind_of("[1.]"), ErrorKind::UnterminatedArray);
}

#[test]
fn out_of_range_number_fails() {
    let e = parse(" 1e400").unwrap_err();
    assert_eq!(e.kind, ErrorKind::NumericConversionFailure);
    assert_eq!(e.pos, 1);
    assert_eq!(value_of("1e300"), num("1e300"));
}

#[test]
fn number_scan_ends() {
    assert_eq!(scan_number(&chars("12.5e-3,"), 0), Some(7));
    assert_eq!(scan_number(&chars("0]"), 0), Some(1));
    assert_eq!(scan_number(&chars("-x"), 0), None);
    assert_eq!(scan_number(&chars("00"), 0), None);
    assert_eq!(scan_number(&chars("1.x"), 0), Some(1));
    assert_eq!(scan_number(&chars("2e+"), 0), Some(1));
    assert_eq!(scan_number(&chars("3.5e"), 0), Some(3));
}

#[test]
fn newline_escape() {
    assert_eq!(value_of("\"a\\nb\""), text("a\nb"));
}

#[test]
fn all_escapes_decode() {
    assert_eq!(
        value_of(r#""\"\\\/\n\r\t\b\f""#),
        text("\"\\/\n\r\t\u{8}\u{c}")
    );
}

#[test]
fn unknown_escape_fails() {
    assert_eq!(kind_of("\"\\q\""), ErrorKind::InvalidEscapeSequence);
    assert_eq!(kind_of("\"\\u0041\""), ErrorKind::InvalidEscapeSequence);
}

#[test]
fn escape_decoder() {
    assert_eq!(parse_escaped_char(&chars("\\t"), 0).unwrap(), ('\t', 2));
    assert_eq!(parse_escaped_char(&chars("\\x"), 0).unwrap_err().kind, ErrorKind::InvalidEscapeSequence);
    let e = parse_escaped_char(&chars("ab\\"), 2).unwrap_err();
    assert_eq!((e.kind, e.pos), (ErrorKind::InvalidEscapeSequence, 2));
}

#[test]
fn unterminated_string_fails() {
    assert_eq!(kind_of("\"abc"), ErrorKind::UnterminatedString);
    assert_eq!(kind_of("\"abc\\"), ErrorKind::InvalidEscapeSequence);
}

#[test]
fn string_rule_alone() {
    assert_eq!(parse_string(&chars("\"hi\" rest"), 0).unwrap(), ("hi".to_string(), 4));
    assert_eq!(parse_string(&chars("hi"), 0).unwrap_err().kind, ErrorKind::NoMatchingRule);
}

#[test]
fn array_of_numbers() {
    assert_eq!(value_of("[1, 2, 3]"), JsonValue::Array(vec![num("1"), num("2"), num("3")]));
}

#[test]
fn trailing_comma_in_array_fails() {
    assert!(parse("[1, 2,]").is_err());
    assert_eq!(kind_of("[1, 2,]"), ErrorKind::NoMatchingRule);
}

#[test]
fn empty_containers() {
    assert_eq!(value_of("[]"), JsonValue::Array(vec![]));
    assert_eq!(value_of("{ }"), JsonValue::Object(vec![]));
    assert_eq!(value_of("[ [ ] ]"), JsonValue::Array(vec![JsonValue::Array(vec![])]));
}

#[test]
fn duplicate_keys_last_wins() {
    assert_eq!(
        value_of("{\"a\": 1, \"a\": 2}"),
        JsonValue::Object(vec![("a".to_string(), num("2"))])
    );
    assert_eq!(
        value_of("{\"a\": 1, \"b\": true, \"a\": null}"),
        JsonValue::Object(vec![("a".to_string(), JsonValue::Null), ("b".to_string(), JsonValue::Boolean(true))])
    );
}

#[test]
fn unterminated_containers_fail() {
    assert_eq!(kind_of("{"), ErrorKind::UnterminatedObject);
    assert_eq!(kind_of("["), ErrorKind::UnterminatedArray);
    assert_eq!(kind_of("[1 2]"), ErrorKind::UnterminatedArray);
    assert_eq!(kind_of("{\"a\" 1}"), ErrorKind::UnterminatedObject);
    assert_eq!(kind_of("{\"a\": 1"), ErrorKind::UnterminatedObject);
}

#[test]
fn non_string_key_fails() {
    let e = parse("{1: 2}").unwrap_err();
    assert_eq!(e.kind, ErrorKind::NonStringKey);
    assert_eq!(e.pos, 1);
}

#[test]
fn nested_failure_propagates() {
    assert_eq!(kind_of("[1, {\"a\": \"\\q\"}]"), ErrorKind::InvalidEscapeSequence);
}

#[test]
fn empty_input_fails() {
    assert_eq!(kind_of(""), ErrorKind::NoMatchingRule);
    assert_eq!(kind_of("   "), ErrorKind::NoMatchingRule);
}

#[test]
fn nesting_limit() {
    assert_eq!(parse_document("[[1]]", 1).unwrap_err().kind, ErrorKind::NestingTooDeep);
    assert_eq!(parse_document("{\"a\": {}}", 1).unwrap_err().kind, ErrorKind::NestingTooDeep);
    assert!(parse_document("[[1]]", 2).is_ok());
    assert_eq!(parse_document("7", 0).unwrap().0, num("7"));
}

#[test]
fn trailing_input_is_returned() {
    assert_eq!(parse("1 x y").unwrap(), (num("1"), "x y".to_string()));
    assert_eq!(parse("[true]]").unwrap(), (JsonValue::Array(vec![JsonValue::Boolean(true)]), "]".to_string()));
}

#[test]
fn rules_at_positions() {
    let s = chars("  null");
    assert_eq!(skip_whitespace(&s, 0), 2);
    assert_eq!(parse_null(&s, 2).unwrap(), (JsonValue::Null, 6));
    assert_eq!(parse_array(&chars("[1]"), 0, 1).unwrap(), (JsonValue::Array(vec![num("1")]), 3));
    assert_eq!(parse_object(&chars("x"), 0, 1).unwrap_err().kind, ErrorKind::NoMatchingRule);
}

#[test]
fn rules_trim_surrounding_whitespace() {
    assert_eq!(parse_null(&chars("  null  "), 0).unwrap(), (JsonValue::Null, 8));
    assert_eq!(parse_null(&chars("null "), 0).unwrap(), (JsonValue::Null, 5));
    assert_eq!(parse_bool(&chars(" false \n"), 0).unwrap(), (JsonValue::Boolean(false), 8));
    assert_eq!(parse_bool(&chars("true "), 0).unwrap(), (JsonValue::Boolean(true), 5));
    assert_eq!(parse_number(&chars(" 1"), 0).unwrap(), (num("1"), 2));
    assert_eq!(parse_number(&chars(" 123.45 "), 0).unwrap(), (num("123.45"), 8));
    assert_eq!(parse_array(&chars(" [ ] "), 0, 1).unwrap(), (JsonValue::Array(vec![]), 5));
    assert_eq!(parse_array(&chars(" [1] x"), 0, 1).unwrap(), (JsonValue::Array(vec![num("1")]), 5));
    assert_eq!(parse_object(&chars(" {} "), 0, 1).unwrap(), (JsonValue::Object(vec![]), 4));
    assert_eq!(parse_null(&chars("  nul"), 0).unwrap_err().pos, 2);
    assert_eq!(parse_number(&chars("  x"), 0).unwrap_err().kind, ErrorKind::InvalidNumericLiteral);
}

#[test]
fn canonical_text() {
    assert_eq!(to_text(&value_of(" [ 1 , { \"k\" : null } ] ")), "[1,{\"k\":null}]");
    assert_eq!(to_text(&text("a\"b\n")), "\"a\\\"b\\n\"");
    assert_eq!(to_text(&JsonValue::Boolean(false)), "false");
}

const SAMPLE: &str = r#"
{
    "name": "John\nDoe",
    "age": 30,
    "is_student": false,
    "courses": ["Math", "Science", "History"],
    "address": {"street": "123 Main St", "city": "New York", "state": "NY"},
    "balance": 1000.50,
    "null_value": null,
    "escaped_string": "a newline\\n and a tab\\t here / \b\f",
    "empty_array": [],
    "empty_object": {},
    "nested_array": [[1, 2, 3], [4, 5, 6]],
    "complex_value": {"array": [{"key1": "value1"}, {"key2": -2.5E-3}]}
}
"#;

#[test]
fn round_trip_sample() {
    let v = value_of(SAMPLE);
    let t = to_text(&v);
    let (w, rest) = parse(&t).unwrap();
    assert_eq!(w, v);
    assert_eq!(rest, "");
}

#[test]
fn canonical_text_is_idempotent() {
    for doc in ["{\"a\": 1, \"a\": [true, \"x\\ty\"]}", " [ ] ", "\"\\\\\"", "-0"] {
        let v = value_of(doc);
        let t = to_text(&v);
        let w = value_of(&t);
        assert_eq!(w, v);
        assert_eq!(to_text(&w), t);
    }
}

#[test]
fn number_outcome_by_range() {
    assert_eq!(number_outcome("12".to_string(), 3, 5, true).unwrap(), (num("12"), 5));
    let e = number_outcome("1e999".to_string(), 3, 8, false).unwrap_err();
    assert_eq!((e.kind, e.pos), (ErrorKind::NumericConversionFailure, 3));
}
