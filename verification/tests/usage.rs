use codex_local_access::json::JsonValue;
use codex_local_access::usage::{
    extract_response_id, extract_usage_capture, non_null_child, usage_number,
};

fn number(n: u64) -> JsonValue {
    JsonValue::Unsigned(n)
}

fn text(s: &str) -> JsonValue {
    JsonValue::Text(s.to_string())
}

fn object(members: Vec<(&str, JsonValue)>) -> JsonValue {
    JsonValue::Object(
        members
            .into_iter()
            .map(|(key, value)| (key.to_string(), value))
            .collect(),
    )
}

#[test]
fn extracts_usage_from_codex_response_completed_payload() {
    let payload = object(vec![
        ("type", text("response.completed")),
        (
            "response",
            object(vec![(
                "usage",
                object(vec![
                    ("input_tokens", number(16)),
                    (
                        "input_tokens_details",
                        object(vec![("cached_tokens", number(3))]),
                    ),
                    ("output_tokens", number(5)),
                    (
                        "output_tokens_details",
                        object(vec![("reasoning_tokens", number(2))]),
                    ),
                    ("total_tokens", number(21)),
                ]),
            )]),
        ),
    ]);

    let usage = extract_usage_capture(&payload).expect("usage should be parsed");
    assert_eq!(usage.input_tokens, 16);
    assert_eq!(usage.output_tokens, 5);
    assert_eq!(usage.cached_tokens, 3);
    assert_eq!(usage.reasoning_tokens, 2);
    assert_eq!(usage.total_tokens, 21);
}

#[test]
fn extracts_usage_from_openai_prompt_and_completion_details() {
    let payload = object(vec![(
        "usage",
        object(vec![
            ("prompt_tokens", number(8)),
            (
                "prompt_tokens_details",
                object(vec![("cached_tokens", number(1))]),
            ),
            ("completion_tokens", number(4)),
            (
                "completion_tokens_details",
                object(vec![("reasoning_tokens", number(2))]),
            ),
        ]),
    )]);

    let usage = extract_usage_capture(&payload).expect("usage should be parsed");
    assert_eq!(usage.input_tokens, 8);
    assert_eq!(usage.output_tokens, 4);
    assert_eq!(usage.cached_tokens, 1);
    assert_eq!(usage.reasoning_tokens, 2);
    assert_eq!(usage.total_tokens, 14);
}

#[test]
fn usage_metadata_of_other_vendors_counts_too() {
    let payload = object(vec![(
        "response",
        object(vec![(
            "usageMetadata",
            object(vec![
                ("promptTokenCount", number(7)),
                ("candidatesTokenCount", number(2)),
                ("cachedContentTokenCount", number(1)),
                ("thoughtsTokenCount", number(3)),
                ("totalTokenCount", number(0)),
            ]),
        )]),
    )]);
    let usage = extract_usage_capture(&payload).unwrap();
    assert_eq!(usage.input_tokens, 7);
    assert_eq!(usage.output_tokens, 2);
    assert_eq!(usage.cached_tokens, 1);
    assert_eq!(usage.reasoning_tokens, 3);
    assert_eq!(usage.total_tokens, 12);
}

#[test]
fn null_usage_gives_way_to_the_response_part() {
    let payload = object(vec![
        ("usage", JsonValue::Null),
        (
            "response",
            object(vec![("usage", object(vec![("input_tokens", number(4))]))]),
        ),
    ]);
    assert_eq!(extract_usage_capture(&payload).unwrap().input_tokens, 4);
    assert!(extract_usage_capture(&object(vec![("usage", JsonValue::Null)])).is_none());
    assert!(extract_usage_capture(&JsonValue::Array(vec![])).is_none());
}

#[test]
fn totals_stop_at_the_largest_number() {
    let payload = object(vec![(
        "usage",
        object(vec![
            ("input_tokens", number(u64::MAX)),
            ("output_tokens", number(5)),
        ]),
    )]);
    assert_eq!(
        extract_usage_capture(&payload).unwrap().total_tokens,
        u64::MAX
    );
}

#[test]
fn only_whole_numbers_from_zero_on_are_counts() {
    assert_eq!(usage_number(Some(&number(9))), Some(9));
    assert_eq!(usage_number(Some(&JsonValue::Signed(9))), Some(9));
    assert_eq!(usage_number(Some(&JsonValue::Signed(-1))), None);
    assert_eq!(usage_number(Some(&JsonValue::Fraction)), None);
    assert_eq!(usage_number(Some(&text("9"))), None);
    assert_eq!(usage_number(None), None);
}

#[test]
fn null_children_are_missing() {
    let value = object(vec![("a", JsonValue::Null), ("b", number(1))]);
    assert!(non_null_child(&value, "a").is_none());
    assert!(non_null_child(&value, "b").is_some());
    assert!(non_null_child(&value, "c").is_none());
}

#[test]
fn response_ids_are_found_and_trimmed() {
    let own = object(vec![("id", text(" resp_1 "))]);
    assert_eq!(extract_response_id(&own).as_deref(), Some("resp_1"));
    let nested = object(vec![
        ("id", number(3)),
        ("response", object(vec![("id", text("resp_2"))])),
    ]);
    assert_eq!(extract_response_id(&nested).as_deref(), Some("resp_2"));
    assert_eq!(extract_response_id(&object(vec![("id", text("  "))])), None);
}
