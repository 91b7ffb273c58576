use json_proc::{
    json_array_text, json_object_text, json_string_text, parse, JsonValue, ToJson,
};
use std::collections::VecDeque;

#[test]
fn test_integer_formatting() {
    assert_eq!(0u8.to_json_string(), "0");
    assert_eq!(7u16.to_json_string(), "7");
    assert_eq!(255u8.to_json_string(), "255");
    assert_eq!(1000000007u64.to_json_string(), "1000000007");
    assert_eq!((-42i32).to_json_string(), "-42");
    assert_eq!(i64::MIN.to_json_string(), "-9223372036854775808");
    assert_eq!(i64::MAX.to_json_string(), "9223372036854775807");
    assert_eq!(u128::MAX.to_json_string(), "340282366920938463463374607431768211455");
    assert_eq!(i128::MIN.to_json_string(), "-170141183460469231731687303715884105728");
    assert_eq!(0usize.to_json_string(), "0");
    assert_eq!((-1isize).to_json_string(), "-1");
}

#[test]
fn test_scalar_shapes() {
    assert_eq!(true.to_json_string(), "true");
    assert_eq!(false.to_json_string(), "false");
    assert_eq!(().to_json_string(), "null");
    assert_eq!('x'.to_json_string(), "\"x\"");
    assert_eq!('"'.to_json_string(), "\"\\\"\"");
    assert_eq!(String::from("hey").to_json_string(), "\"hey\"");
}

#[test]
fn test_option_and_result() {
    assert_eq!(Some(3i32).to_json_string(), "3");
    assert_eq!(None::<i32>.to_json_string(), "null");
    let ok: Result<i32, String> = Ok(5);
    let err: Result<i32, String> = Err(String::from("boom"));
    // both branches render their payload; they are not distinguished
    assert_eq!(ok.to_json_string(), "5");
    assert_eq!(err.to_json_string(), "\"boom\"");
}

#[test]
fn test_string_escaping() {
    assert_eq!(
        String::from("a\"b\\c").to_json_string(),
        "\"a\\\"b\\\\c\""
    );
    assert_eq!(
        String::from("line1\nline2\tx\r").to_json_string(),
        "\"line1\\nline2\\tx\\r\""
    );
    assert_eq!(String::from("\u{1}").to_json_string(), "\"\\u0001\"");
    assert_eq!(String::from("\u{1f}").to_json_string(), "\"\\u001f\"");
}

#[test]
fn test_sequences() {
    let v: Vec<i32> = vec![1, 2, 3];
    assert_eq!(v.to_json_string(), "[1,2,3]");
    let empty: Vec<i32> = Vec::new();
    assert_eq!(empty.to_json_string(), "[]");
    let nested: Vec<Vec<u8>> = vec![vec![1], vec![], vec![2, 3]];
    assert_eq!(nested.to_json_string(), "[[1],[],[2,3]]");
    let mut dq: VecDeque<bool> = VecDeque::new();
    dq.push_back(true);
    dq.push_front(false);
    assert_eq!(dq.to_json_string(), "[false,true]");
}

#[test]
fn test_tuples() {
    assert_eq!((1i32, String::from("two")).to_json_string(), "[1,\"two\"]");
    assert_eq!((1u8, 2u8, 3u8).to_json_string(), "[1,2,3]");
    assert_eq!(
        (1u8, 2u8, 3u8, 4u8, 5u8, 6u8, 7u8, 8u8, 9u8, 10u8, 11u8, 12u8).to_json_string(),
        "[1,2,3,4,5,6,7,8,9,10,11,12]"
    );
}

#[test]
fn test_record_shapes() {
    // a record with named fields: an object in declaration order
    let pairs = vec![
        (String::from("x"), 1i32.to_json_string()),
        (String::from("y"), 2i32.to_json_string()),
    ];
    assert_eq!(json_object_text(&pairs), "{\"x\":1,\"y\":2}");
    // a record with several unnamed fields: an array in declaration order
    let items = vec![1i32.to_json_string(), String::from("s").to_json_string()];
    assert_eq!(json_array_text(&items), "[1,\"s\"]");
    // a record with no fields: its name, quoted
    assert_eq!(json_string_text("Unit"), "\"Unit\"");
}

#[test]
fn test_variant_single_unnamed_field() {
    // a variant with one unnamed string payload delegates to the payload:
    // exactly the string's own JSON text, no wrapping array or object
    let payload = String::from("this is Hello");
    let rendered = payload.to_json_string();
    assert_eq!(rendered, "\"this is Hello\"");
    assert!(!rendered.starts_with('['));
    assert!(!rendered.starts_with('{'));
}

#[test]
fn test_variant_multiple_unnamed_fields() {
    // a variant with several unnamed fields: an array of the fields' texts
    let fields = vec![
        String::from("this is 2").to_json_string(),
        2u8.to_json_string(),
    ];
    assert_eq!(json_array_text(&fields), "[\"this is 2\",2]");
}

#[test]
fn test_value_model_serializer() {
    let v = parse("{\"b\":[1,true,null],\"a\":\"s\"}").unwrap();
    // keys re-serialize in key order
    assert_eq!(v.to_json_string(), "{\"a\":\"s\",\"b\":[1,true,null]}");
}

#[test]
fn test_basic_key_value_pairs() {
    let pairs = vec![
        (String::from("name"), json_string_text("John Doe")),
        (String::from("age"), 30i32.to_json_string()),
        (String::from("active"), true.to_json_string()),
    ];
    let text = json_object_text(&pairs);
    assert_eq!(text, "{\"name\":\"John Doe\",\"age\":30,\"active\":true}");
    let v = parse(&text).unwrap();
    let expected = JsonValue::Object(vec![
        (String::from("active"), JsonValue::Bool(true)),
        (String::from("age"), JsonValue::Number(String::from("30"))),
        (
            String::from("name"),
            JsonValue::String(String::from("John Doe")),
        ),
    ]);
    assert_eq!(v, expected);
}

#[test]
fn test_string_from() {
    let pairs = vec![(
        String::from("greeting"),
        String::from("Hello, world!").to_json_string(),
    )];
    assert_eq!(json_object_text(&pairs), "{\"greeting\":\"Hello, world!\"}");
}

#[test]
fn test_nested_json() {
    let user = json_object_text(&vec![
        (String::from("name"), json_string_text("Jane Doe")),
        (String::from("age"), 25i32.to_json_string()),
    ]);
    let text = json_object_text(&vec![
        (String::from("user"), user),
        (String::from("is_admin"), false.to_json_string()),
    ]);
    assert_eq!(
        text,
        "{\"user\":{\"name\":\"Jane Doe\",\"age\":25},\"is_admin\":false}"
    );
    let v = parse(&text).unwrap();
    let expected_user = JsonValue::Object(vec![
        (String::from("age"), JsonValue::Number(String::from("25"))),
        (
            String::from("name"),
            JsonValue::String(String::from("Jane Doe")),
        ),
    ]);
    let expected = JsonValue::Object(vec![
        (String::from("is_admin"), JsonValue::Bool(false)),
        (String::from("user"), expected_user),
    ]);
    assert_eq!(v, expected);
}

#[test]
fn test_json_with_escape_characters() {
    let pairs = vec![
        (
            String::from("message"),
            String::from("This is a \"quoted\" word.").to_json_string(),
        ),
        (
            String::from("newline"),
            String::from("First line.\nSecond line.").to_json_string(),
        ),
    ];
    let text = json_object_text(&pairs);
    assert_eq!(
        text,
        "{\"message\":\"This is a \\\"quoted\\\" word.\",\"newline\":\"First line.\\nSecond line.\"}"
    );
}

#[test]
fn test_empty_json() {
    let pairs: Vec<(String, String)> = Vec::new();
    assert_eq!(json_object_text(&pairs), "{}");
    let items: Vec<String> = Vec::new();
    assert_eq!(json_array_text(&items), "[]");
}

#[test]
fn test_complex_expressions() {
    let number = 42i32;
    let pairs = vec![
        (String::from("answer"), number.to_json_string()),
        (
            String::from("text"),
            String::from("The answer is").to_json_string(),
        ),
    ];
    assert_eq!(
        json_object_text(&pairs),
        "{\"answer\":42,\"text\":\"The answer is\"}"
    );
}

#[test]
fn test_slices_and_arrays() {
    let arr: [u8; 3] = [9, 8, 7];
    assert_eq!(arr.to_json_string(), "[9,8,7]");
    let slice: &[u8] = &arr;
    assert_eq!(slice.to_json_string(), "[9,8,7]");
    assert_eq!("raw".to_json_string(), "\"raw\"");
}
