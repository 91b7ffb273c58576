use json_proc::{insert_entry, parse, value_eq, JsonValue, ToJson};

fn number(text: &str) -> JsonValue {
    JsonValue::Number(String::from(text))
}

fn string(text: &str) -> JsonValue {
    JsonValue::String(String::from(text))
}

#[test]
fn test_round_trip_scalars() {
    for v in [
        JsonValue::Null,
        JsonValue::Bool(true),
        JsonValue::Bool(false),
        number("42"),
        number("-3.5e2"),
        string("plain text"),
        string(""),
    ] {
        let text = v.to_json_string();
        assert_eq!(parse(&text).unwrap(), v);
    }
}

#[test]
fn test_round_trip_containers() {
    let arr = JsonValue::Array(vec![
        JsonValue::Null,
        number("1"),
        JsonValue::Array(vec![]),
        string("deep"),
    ]);
    assert_eq!(parse(&arr.to_json_string()).unwrap(), arr);

    // object entries must stand in key order for the value to be well-formed
    let obj = JsonValue::Object(vec![
        (String::from("alpha"), number("1")),
        (String::from("beta"), JsonValue::Array(vec![number("2")])),
        (String::from("gamma"), JsonValue::Object(vec![])),
    ]);
    assert_eq!(parse(&obj.to_json_string()).unwrap(), obj);
}

#[test]
fn test_round_trip_unicode() {
    let v = string("caf\u{e9} \u{2764} \u{1f600}");
    let text = v.to_json_string();
    assert_eq!(parse(&text).unwrap(), v);
}

#[test]
fn test_round_trip_of_parsed_text() {
    let text = "{\"a\":[1,2.5,null],\"b\":{\"c\":\"x\"},\"d\":true}";
    let v = parse(text).unwrap();
    let again = v.to_json_string();
    assert_eq!(again, text);
    assert_eq!(parse(&again).unwrap(), v);
}

#[test]
fn test_insert_entry_builds_sorted_objects() {
    let mut entries: Vec<(String, JsonValue)> = Vec::new();
    insert_entry(&mut entries, String::from("b"), number("2"));
    insert_entry(&mut entries, String::from("a"), number("1"));
    insert_entry(&mut entries, String::from("c"), number("3"));
    // overwrite
    insert_entry(&mut entries, String::from("b"), number("20"));
    let obj = JsonValue::Object(entries);
    assert_eq!(obj.to_json_string(), "{\"a\":1,\"b\":20,\"c\":3}");
    assert_eq!(parse(&obj.to_json_string()).unwrap(), obj);
}

#[test]
fn test_value_eq_distinguishes() {
    assert!(value_eq(&number("1"), &number("1")));
    assert!(!value_eq(&number("1"), &number("1.0")));
    assert!(!value_eq(&JsonValue::Null, &JsonValue::Bool(false)));
    assert!(!value_eq(
        &JsonValue::Array(vec![number("1")]),
        &JsonValue::Array(vec![number("1"), number("2")])
    ));
}
