use codex_local_access::json::{json_bytes, parse_json, JsonValue};

#[test]
fn documents_are_read_and_written() {
    let document = parse_json(
        br#" {"b":[true,null,-3,18446744073709551615,"t"],"a":{"c":1.5},"b2":{}} "#,
    )
    .unwrap();
    let list = match document.get("b").unwrap() {
        JsonValue::Array(items) => items,
        other => panic!("{:?}", other),
    };
    assert_eq!(list[0].as_bool(), Some(true));
    assert!(list[1].is_null());
    assert_eq!(list[2].as_i64(), Some(-3));
    assert_eq!(list[2].as_u64(), None);
    assert_eq!(list[3].as_u64(), Some(u64::MAX));
    assert_eq!(list[3].as_i64(), None);
    assert_eq!(list[4].as_str(), Some("t"));
    let fraction = document.get("a").unwrap().get("c").unwrap();
    assert_eq!(fraction.as_u64(), None);
    assert_eq!(fraction.as_i64(), None);
    assert!(document.get("z").is_none());
    assert!(list[0].get("x").is_none());
}

#[test]
fn what_is_no_document_is_not_read() {
    assert!(parse_json(b"").is_none());
    assert!(parse_json(b"{").is_none());
    assert!(parse_json(b"{} x").is_none());
    assert!(parse_json(b"\"\xff\"").is_none());
}

#[test]
fn written_documents_can_be_read_again() {
    let value = JsonValue::Object(vec![
        ("z".to_string(), JsonValue::Unsigned(7)),
        ("a".to_string(), JsonValue::Array(vec![JsonValue::Bool(false), JsonValue::Null])),
        ("q".to_string(), JsonValue::Text("\"\n".to_string())),
        ("n".to_string(), JsonValue::Signed(-9)),
    ]);
    let bytes = json_bytes(&value).unwrap();
    assert_eq!(
        String::from_utf8(bytes.clone()).unwrap(),
        r#"{"a":[false,null],"n":-9,"q":"\"\n","z":7}"#
    );
    let again = parse_json(&bytes).unwrap();
    assert_eq!(again.get("z").unwrap().as_u64(), Some(7));
    assert_eq!(again.get("n").unwrap().as_i64(), Some(-9));
    assert_eq!(again.get("q").unwrap().as_str(), Some("\"\n"));
}

#[test]
fn the_last_of_equal_keys_counts() {
    let twice = JsonValue::Object(vec![
        ("k".to_string(), JsonValue::Unsigned(1)),
        ("k".to_string(), JsonValue::Unsigned(2)),
    ]);
    assert_eq!(twice.get("k").unwrap().as_u64(), Some(2));
    assert_eq!(json_bytes(&twice).unwrap(), br#"{"k":2}"#);
    let read = parse_json(br#"{"k":1,"k":2}"#).unwrap();
    assert_eq!(read.get("k").unwrap().as_u64(), Some(2));
}

#[test]
fn members_that_nothing_hides_are_written() {
    let mixed = JsonValue::Object(vec![
        ("a".to_string(), JsonValue::Unsigned(1)),
        ("k".to_string(), JsonValue::Unsigned(2)),
        ("b".to_string(), JsonValue::Unsigned(3)),
        ("k".to_string(), JsonValue::Unsigned(4)),
        ("a".to_string(), JsonValue::Unsigned(5)),
    ]);
    assert_eq!(json_bytes(&mixed).unwrap(), br#"{"a":5,"b":3,"k":4}"#);
}

#[test]
fn documents_can_be_nested_up_to_a_depth() {
    let nested = |depth: usize| {
        let mut value = JsonValue::Unsigned(1);
        for _ in 0..depth {
            value = JsonValue::Array(vec![value]);
        }
        json_bytes(&value).unwrap()
    };
    assert!(parse_json(&nested(127)).is_some());
    assert!(parse_json(&nested(128)).is_none());
}
