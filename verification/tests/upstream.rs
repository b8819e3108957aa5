use codex_local_access::account::{
    CodexAccount, CodexApiProviderMode, CodexAuthMode, CodexTokens,
};
use codex_local_access::clock::RetryDelay;
use codex_local_access::http::ParsedRequest;
use codex_local_access::json::parse_json;
use codex_local_access::table::Table;
use codex_local_access::upstream::{
    build_cooldown_unavailable_message, build_request_routing_hint, build_upstream_request,
    extract_local_api_key, extract_upstream_error_message, format_retry_after_duration,
    forward_headers, is_stream_request, normalize_model_key, parse_codex_retry_after,
    parse_codex_retry_after_at, parse_request_body_json, retry_after_in, send_upstream_request,
    should_try_next_account, summarize_upstream_error,
};

fn headers(pairs: &[(&str, &str)]) -> Table<String> {
    let mut table = Table::new();
    for (name, value) in pairs {
        table.insert(name.to_string(), value.to_string());
    }
    table
}

fn account(token: &str, account_id: Option<&str>) -> CodexAccount {
    CodexAccount {
        id: "acc".to_string(),
        email: "a@example.com".to_string(),
        auth_mode: CodexAuthMode::OAuth,
        openai_api_key: None,
        api_provider_mode: CodexApiProviderMode::OpenaiBuiltin,
        api_base_url: None,
        api_provider_id: None,
        api_provider_name: None,
        plan_type: None,
        auth_file_plan_type: None,
        account_id: account_id.map(|id| id.to_string()),
        account_name: None,
        tokens: CodexTokens {
            id_token: String::new(),
            access_token: token.to_string(),
            refresh_token: None,
        },
        quota: None,
    }
}

#[test]
fn parses_codex_retry_after_from_usage_limit_payload() {
    let wait = parse_codex_retry_after(
        429,
        r#"{"error":{"type":"usage_limit_reached","resets_in_seconds":12}}"#,
    )
    .expect("retry after should be parsed");

    assert_eq!(wait, RetryDelay::from_secs(12));
}

#[test]
fn builds_routing_hint_from_previous_response_id_and_model() {
    let request = ParsedRequest {
        method: "POST".to_string(),
        target: "/v1/responses".to_string(),
        headers: Table::new(),
        body: br#"{"model":"GPT-5.4-mini","previous_response_id":"resp_prev"}"#.to_vec(),
    };

    let hint = build_request_routing_hint(&request);
    assert_eq!(hint.model_key, "gpt-5.4-mini");
    assert_eq!(hint.previous_response_id.as_deref(), Some("resp_prev"));
}

#[test]
fn a_request_without_a_document_hints_at_nothing() {
    for body in [&b""[..], &b"no json"[..], &br#"{"model":5,"previous_response_id":"  "}"#[..]] {
        let hint = build_request_routing_hint(&ParsedRequest {
            method: "POST".to_string(),
            target: "/v1/responses".to_string(),
            headers: Table::new(),
            body: body.to_vec(),
        });
        assert_eq!(hint.model_key, "");
        assert_eq!(hint.previous_response_id, None);
    }
    assert!(parse_request_body_json(b"").is_none());
    assert_eq!(normalize_model_key("  GPT-5 "), "gpt-5");
}

#[test]
fn a_point_in_time_goes_before_a_number_of_seconds() {
    let body = r#"{"error":{"type":" usage_limit_reached ","resets_at":1030,"resets_in_seconds":12}}"#;
    assert_eq!(
        parse_codex_retry_after_at(429, body, 1000),
        Some(RetryDelay::from_secs(30))
    );
    assert_eq!(
        parse_codex_retry_after_at(429, body, 1030),
        Some(RetryDelay::from_secs(12))
    );
    let far = r#"{"error":{"type":"usage_limit_reached","resets_at":32503680000}}"#;
    assert!(parse_codex_retry_after(429, far).unwrap().millis > 1_000_000);
}

#[test]
fn refusals_without_a_limit_say_nothing_about_waiting() {
    let limit = r#"{"error":{"type":"usage_limit_reached","resets_in_seconds":12}}"#;
    assert_eq!(parse_codex_retry_after_at(503, limit, 0), None);
    assert_eq!(parse_codex_retry_after_at(429, "  ", 0), None);
    assert_eq!(parse_codex_retry_after_at(429, "oops", 0), None);
    assert_eq!(parse_codex_retry_after_at(429, "{}", 0), None);
    assert_eq!(
        parse_codex_retry_after_at(429, r#"{"error":{"type":"other","resets_in_seconds":1}}"#, 0),
        None
    );
    assert_eq!(
        parse_codex_retry_after_at(
            429,
            r#"{"error":{"type":"usage_limit_reached","resets_in_seconds":0}}"#,
            0
        ),
        None
    );
    let document = parse_json(br#"{"error":{"type":"usage_limit_reached","resets_at":5}}"#).unwrap();
    assert_eq!(retry_after_in(&document, 9), None);
    assert_eq!(retry_after_in(&document, 3), Some(RetryDelay::from_secs(2)));
}

#[test]
fn streams_are_asked_for_by_header_or_body() {
    assert!(is_stream_request(&headers(&[("accept", "Text/Event-Stream")]), b""));
    assert!(is_stream_request(&headers(&[]), br#"{"stream":true}"#));
    assert!(!is_stream_request(&headers(&[("accept", "*/*")]), br#"{"stream":"true"}"#));
    assert!(!is_stream_request(&headers(&[]), b"{"));
}

#[test]
fn client_keys_come_from_two_headers() {
    let key = |pairs: &[(&str, &str)]| extract_local_api_key(&headers(pairs));
    assert_eq!(key(&[("authorization", " Bearer  k1 ")]).as_deref(), Some("k1"));
    assert_eq!(key(&[("authorization", "bearer k2")]).as_deref(), Some("k2"));
    assert_eq!(
        key(&[("authorization", "Basic x"), ("x-api-key", " k3 ")]).as_deref(),
        Some("k3")
    );
    assert_eq!(
        key(&[("authorization", "Bearer "), ("x-api-key", "k4")]).as_deref(),
        Some("k4")
    );
    assert_eq!(key(&[("authorization", "BEARER k5")]), None);
    assert_eq!(key(&[("x-api-key", "  ")]), None);
    assert_eq!(key(&[]), None);
}

#[test]
fn reasons_of_refusals_are_found() {
    let reason = |body: &str| extract_upstream_error_message(body);
    assert_eq!(
        reason(r#"{"error":{"message":" a "},"message":"b"}"#).as_deref(),
        Some("a")
    );
    assert_eq!(reason(r#"{"detail":{"message":"c"}}"#).as_deref(), Some("c"));
    assert_eq!(
        reason(r#"{"error":{"message":" "},"message":"b"}"#).as_deref(),
        Some("b")
    );
    assert_eq!(reason(r#"{"error":"plain"}"#).as_deref(), Some("plain"));
    assert_eq!(reason(r#"{"error":7}"#), None);
    assert_eq!(reason("text"), None);
}

#[test]
fn refusals_are_summed_up_in_a_line() {
    assert_eq!(
        summarize_upstream_error(429, r#"{"error":{"message":"slow down"}}"#),
        "429: slow down"
    );
    assert_eq!(summarize_upstream_error(500, " boom \n"), "500: boom");
    assert_eq!(
        summarize_upstream_error(502, "  "),
        "502: 上游接口返回状态 502"
    );
}

#[test]
fn limits_are_worth_another_account() {
    assert!(should_try_next_account(401, ""));
    assert!(should_try_next_account(429, "Usage_Limit_Reached"));
    assert!(should_try_next_account(403, "INSUFFICIENT_QUOTA"));
    assert!(should_try_next_account(429, "The model is at capacity"));
    assert!(should_try_next_account(429, "Quota exceeded"));
    assert!(should_try_next_account(403, "limit reached"));
    assert!(!should_try_next_account(429, "slow down"));
    assert!(!should_try_next_account(500, "usage_limit_reached"));
}

#[test]
fn waiting_times_are_told_in_whole_seconds() {
    assert_eq!(format_retry_after_duration(RetryDelay::from_millis(1)), "1 秒");
    assert_eq!(format_retry_after_duration(RetryDelay::from_millis(2999)), "2 秒");
    assert_eq!(
        build_cooldown_unavailable_message(" ", RetryDelay::from_secs(7)),
        "当前 API 服务账号均在冷却中，请 7 秒 后重试"
    );
    assert_eq!(
        build_cooldown_unavailable_message("gpt-5", RetryDelay::from_secs(70)),
        "模型 gpt-5 的可用账号均在冷却中，请 70 秒 后重试"
    );
}

#[test]
fn requests_to_the_upstream_carry_the_token_of_the_account() {
    let call = send_upstream_request(
        "POST",
        "/responses",
        &headers(&[
            ("authorization", "Bearer local"),
            ("x-api-key", "local"),
            ("host", "127.0.0.1"),
            ("content-length", "2"),
            ("connection", "close"),
            ("accept-encoding", "gzip"),
            ("openai-beta", "x"),
        ]),
        br#"{"stream":true}"#,
        &account(" tok ", None),
        Some("org".to_string()),
    )
    .unwrap();
    assert_eq!(call.method, "POST");
    assert_eq!(call.url, "https://chatgpt.com/backend-api/codex/responses");
    let pairs: Vec<(&str, &str)> = call
        .headers
        .iter()
        .map(|(n, v)| (n.as_str(), v.as_str()))
        .collect();
    assert_eq!(
        pairs,
        vec![
            ("openai-beta", "x"),
            ("authorization", "Bearer tok"),
            (
                "user-agent",
                "codex-tui/0.118.0 (Mac OS 26.3.1; arm64) iTerm.app/3.6.9 (codex-tui; 0.118.0)"
            ),
            ("Originator", "codex-tui"),
            ("ChatGPT-Account-Id", "org"),
            ("accept", "text/event-stream"),
            ("Connection", "Keep-Alive"),
            ("content-type", "application/json"),
        ]
    );
    assert_eq!(call.body.as_deref(), Some(&br#"{"stream":true}"#[..]));
}

#[test]
fn headers_of_the_client_are_not_doubled() {
    let call = build_upstream_request(
        "get",
        "/models",
        &headers(&[
            ("user-agent", "me"),
            ("originator", "o"),
            ("accept", "text/plain"),
            ("content-type", "text/plain"),
        ]),
        b"",
        &account("t", Some("own")),
        None,
        false,
    )
    .unwrap();
    let names: Vec<&str> = call.headers.iter().map(|(n, _)| n.as_str()).collect();
    assert_eq!(
        names,
        vec![
            "user-agent",
            "originator",
            "accept",
            "content-type",
            "authorization",
            "ChatGPT-Account-Id",
            "Connection"
        ]
    );
    assert!(call.body.is_none());
}

#[test]
fn faulty_requests_are_not_sent() {
    let send = |method: &str, pairs: &[(&str, &str)]| {
        send_upstream_request(
            method,
            "/x",
            &headers(pairs),
            b"",
            &account("t", None),
            None,
        )
        .unwrap_err()
    };
    assert_eq!(send("BAD METHOD", &[]), "不支持的请求方法: invalid HTTP method");
    assert_eq!(send("", &[]), "不支持的请求方法: invalid HTTP method");
    assert_eq!(
        send("GET", &[("bad name", "v")]),
        "无效请求头 bad name: invalid HTTP header name"
    );
    assert_eq!(
        send("GET", &[("x", "a\u{1}b")]),
        "无效请求头值 x: failed to parse header value"
    );
    assert_eq!(
        forward_headers(&headers(&[("x", "a\tb"), ("host", "\u{1}")])).unwrap(),
        vec![("x".to_string(), "a\tb".to_string())]
    );
    assert_eq!(
        forward_headers(&headers(&[("x", "é")])).unwrap(),
        vec![("x".to_string(), "é".to_string())]
    );
}

#[test]
fn every_token_byte_may_stand_in_a_method_and_no_other() {
    for b in 0u8..128 {
        let c = b as char;
        let expected = c.is_ascii_alphanumeric() || "!#$%&'*+-.^_`|~".contains(c);
        let method = format!("X{}", c);
        let built = send_upstream_request(
            &method,
            "/x",
            &headers(&[]),
            b"",
            &account("t", None),
            None,
        );
        assert_eq!(built.is_ok(), expected);
        let name = format!("x{}", c.to_ascii_lowercase());
        assert_eq!(forward_headers(&headers(&[(&name, "v")])).is_ok(), expected);
        let value = format!("x{}", c);
        assert_eq!(
            forward_headers(&headers(&[("n", &value)])).is_ok(),
            (b >= 32 && b != 127) || b == 9
        );
    }
    let longest = "a".repeat(65535);
    assert!(forward_headers(&headers(&[(&longest, "v")])).is_ok());
    let too_long = "a".repeat(65536);
    assert!(forward_headers(&headers(&[(&too_long, "v")])).is_err());
}
