use json_proc::{parse, parse_bytes, ErrorKind, JsonValue};

fn number(text: &str) -> JsonValue {
    JsonValue::Number(String::from(text))
}

fn string(text: &str) -> JsonValue {
    JsonValue::String(String::from(text))
}

#[test]
fn test_parse_scalars() {
    assert_eq!(parse("null").unwrap(), JsonValue::Null);
    assert_eq!(parse("true").unwrap(), JsonValue::Bool(true));
    assert_eq!(parse("false").unwrap(), JsonValue::Bool(false));
    assert_eq!(parse("\"hi\"").unwrap(), string("hi"));
    assert_eq!(parse("123").unwrap(), number("123"));
}

#[test]
fn test_parse_numbers() {
    assert_eq!(parse("0").unwrap(), number("0"));
    assert_eq!(parse("-42").unwrap(), number("-42"));
    assert_eq!(parse("3.14e-10").unwrap(), number("3.14e-10"));
    assert_eq!(parse("-0.5").unwrap(), number("-0.5"));
    assert_eq!(parse("1.").unwrap(), number("1."));
    assert_eq!(parse("-.5").unwrap(), number("-.5"));
    assert_eq!(parse("1e999").unwrap(), number("1e999"));
    assert_eq!(parse("1E+3").unwrap(), number("1E+3"));
}

#[test]
fn test_invalid_numbers() {
    assert_eq!(parse("1.2.3").unwrap_err().kind, ErrorKind::InvalidNumber);
    assert_eq!(parse("-").unwrap_err().kind, ErrorKind::InvalidNumber);
    assert_eq!(parse("1e").unwrap_err().kind, ErrorKind::InvalidNumber);
    assert_eq!(parse("1e+").unwrap_err().kind, ErrorKind::InvalidNumber);
    assert_eq!(parse("--5").unwrap_err().kind, ErrorKind::InvalidNumber);
    // a dot alone is not even dispatched as a number
    assert!(matches!(
        parse(".5").unwrap_err().kind,
        ErrorKind::UnexpectedChar(_)
    ));
}

#[test]
fn test_parse_arrays() {
    let v = parse("[null, true, 1, \"x\"]").unwrap();
    assert_eq!(
        v,
        JsonValue::Array(vec![
            JsonValue::Null,
            JsonValue::Bool(true),
            number("1"),
            string("x"),
        ])
    );
}

#[test]
fn test_parse_nested() {
    let v = parse("{\"key\": [1, {\"inner\": false}]}").unwrap();
    let inner = JsonValue::Object(vec![(String::from("inner"), JsonValue::Bool(false))]);
    let expected = JsonValue::Object(vec![(
        String::from("key"),
        JsonValue::Array(vec![number("1"), inner]),
    )]);
    assert_eq!(v, expected);
}

#[test]
fn test_object_keys_sorted() {
    // entries come back sorted by key, not in insertion order
    let v = parse("{\"b\":1,\"a\":2}").unwrap();
    let expected = JsonValue::Object(vec![
        (String::from("a"), number("2")),
        (String::from("b"), number("1")),
    ]);
    assert_eq!(v, expected);
}

#[test]
fn test_idempotence_of_whitespace() {
    assert_eq!(parse(" {\"a\":1} ").unwrap(), parse("{\"a\":1}").unwrap());
    assert_eq!(parse("\t[1,\r\n 2]\n").unwrap(), parse("[1,2]").unwrap());
}

#[test]
fn test_empty_containers() {
    assert_eq!(parse("{}").unwrap(), JsonValue::Object(Vec::new()));
    assert_eq!(parse("[]").unwrap(), JsonValue::Array(Vec::new()));
    assert_eq!(parse("[ ]").unwrap(), JsonValue::Array(Vec::new()));
    assert_eq!(parse("{ }").unwrap(), JsonValue::Object(Vec::new()));
}

#[test]
fn test_duplicate_keys_overwrite() {
    let v = parse("{\"a\":1,\"a\":2}").unwrap();
    assert_eq!(
        v,
        JsonValue::Object(vec![(String::from("a"), number("2"))])
    );
}

#[test]
fn test_error_locality() {
    // the error points at the `}` that stands where a value was required
    let e = parse("{\"a\": }").unwrap_err();
    assert_eq!(e.kind, ErrorKind::UnexpectedChar(b'}'));
    let loc = e.loc.unwrap();
    assert_eq!(loc.line, 1);
    assert_eq!(loc.col, 7);
}

#[test]
fn test_error_locality_second_line() {
    let e = parse("[1,\n ;]").unwrap_err();
    assert_eq!(e.kind, ErrorKind::UnexpectedChar(b';'));
    let loc = e.loc.unwrap();
    assert_eq!(loc.line, 2);
    assert_eq!(loc.col, 2);
}

#[test]
fn test_trailing_characters() {
    let e = parse("123 abc").unwrap_err();
    assert_eq!(e.kind, ErrorKind::TrailingChars);
    assert_eq!(e.message(), "trailing characters");
    let loc = e.loc.unwrap();
    assert_eq!(loc.line, 1);
    assert_eq!(loc.col, 5);
}

#[test]
fn test_unexpected_eof() {
    let e = parse("").unwrap_err();
    assert_eq!(e.kind, ErrorKind::UnexpectedEof);
    assert!(e.loc.is_none());
    assert_eq!(e.message(), "unexpected EOF");
}

#[test]
fn test_invalid_literal() {
    assert_eq!(parse("nul").unwrap_err().kind, ErrorKind::InvalidLiteral);
    assert_eq!(parse("tru").unwrap_err().kind, ErrorKind::InvalidLiteral);
    assert_eq!(parse("fals").unwrap_err().kind, ErrorKind::InvalidLiteral);
    assert_eq!(parse("nul").unwrap_err().message(), "unexpected tokens");
}

#[test]
fn test_unterminated_string() {
    let e = parse("\"abc").unwrap_err();
    assert_eq!(e.kind, ErrorKind::UnterminatedString);
    assert_eq!(e.message(), "unterminated string");
}

#[test]
fn test_array_errors() {
    assert_eq!(
        parse("[1;2]").unwrap_err().kind,
        ErrorKind::UnexpectedCharInArray(b';')
    );
    assert_eq!(parse("[1").unwrap_err().kind, ErrorKind::UnterminatedArray);
    assert_eq!(
        parse("[1;2]").unwrap_err().message(),
        "unexpected character ; in array"
    );
    // no trailing comma: after a comma an element is required
    assert_eq!(
        parse("[1,]").unwrap_err().kind,
        ErrorKind::UnexpectedChar(b']')
    );
}

#[test]
fn test_object_errors() {
    assert_eq!(parse("{1:2}").unwrap_err().kind, ErrorKind::InvalidKey);
    assert_eq!(
        parse("{\"a\" 1}").unwrap_err().kind,
        ErrorKind::ExpectedColon
    );
    assert_eq!(
        parse("{\"a\":1;}").unwrap_err().kind,
        ErrorKind::UnexpectedCharInObject(b';')
    );
    assert_eq!(
        parse("{\"a\":1").unwrap_err().kind,
        ErrorKind::UnterminatedObject
    );
    assert_eq!(
        parse("{\"a\":1,}").unwrap_err().kind,
        ErrorKind::InvalidKey
    );
}

#[test]
fn test_invalid_utf8_in_string() {
    let bytes: Vec<u8> = vec![b'"', 0xff, b'"'];
    let e = parse_bytes(&bytes).unwrap_err();
    assert_eq!(e.kind, ErrorKind::InvalidUtf8);
}

#[test]
fn test_string_no_escape_processing() {
    // a backslash before a quote still ends the string: a documented limitation
    let v = parse("\"a\\nb\"").unwrap();
    assert_eq!(v, string("a\\nb"));
}

#[test]
fn test_parser_type_surface() {
    let p = json_proc::JsonParser::new("  42 ");
    assert_eq!(p.parse().unwrap(), number("42"));
    let q = json_proc::JsonParser::from_bytes(b"[true]");
    assert_eq!(
        q.parse().unwrap(),
        JsonValue::Array(vec![JsonValue::Bool(true)])
    );
}

#[test]
fn test_error_describe() {
    let e = parse("123 abc").unwrap_err();
    assert_eq!(e.describe(), "trailing characters at line 1 column 5");
    let eof = parse("").unwrap_err();
    assert_eq!(eof.describe(), "unexpected EOF");
}
