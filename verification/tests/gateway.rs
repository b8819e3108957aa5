use codex_local_access::capture::ResponseCapture;
use codex_local_access::collection::{initial_collection, FreshValues};
use codex_local_access::dispatch::{ProxyDispatchError, ProxyDispatchSuccess};
use codex_local_access::gateway::{
    failure_response, handle_connection, record_failure, record_failure_at, record_success,
    record_success_at, route_request, Handling,
};
use codex_local_access::http::parse_http_request;
use codex_local_access::runtime::{
    adopt_collection, mark_started, resolve_affinity_account_at, GatewayRuntime,
};
use codex_local_access::usage::UsageCapture;

const NOW: i64 = 1_700_000_000_000;

fn running() -> GatewayRuntime {
    let mut runtime = GatewayRuntime::default();
    let mut settings = initial_collection(&FreshValues {
        port: 4000,
        api_key: "secret".to_string(),
        created_at: 1,
        updated_at: 1,
    });
    settings.enabled = true;
    settings.account_ids = vec!["a".to_string()];
    adopt_collection(&mut runtime, settings);
    mark_started(&mut runtime, 4000);
    runtime
}

fn answer(raw: &str, runtime: &GatewayRuntime) -> (String, String) {
    match handle_connection(raw.as_bytes(), runtime) {
        Ok(Handling::Respond { response, failure }) => {
            (String::from_utf8(response).unwrap(), failure)
        }
        other => panic!("{:?}", other),
    }
}

fn refusal(raw: &str, runtime: &GatewayRuntime) -> (String, String) {
    let (response, failure) = answer(raw, runtime);
    assert_eq!(failure, "写入错误响应失败: ");
    let line = response.lines().next().unwrap().to_string();
    let body = response.split("\r\n\r\n").nth(1).unwrap().to_string();
    (line, body)
}

#[test]
fn browsers_may_ask_without_a_key() {
    let (response, failure) = answer("options /v1/x HTTP/1.1\r\n\r\n", &GatewayRuntime::default());
    assert!(response.starts_with("HTTP/1.1 200 OK\r\nContent-Type: text/plain"));
    assert_eq!(failure, "写入 OPTIONS 响应失败: ");
}

#[test]
fn requests_are_refused_step_by_step() {
    let runtime = running();
    assert_eq!(
        refusal("PUT /v1/x HTTP/1.1\r\n\r\n", &runtime),
        (
            "HTTP/1.1 405 Method Not Allowed".to_string(),
            r#"{"error":"Only GET and POST are allowed"}"#.to_string()
        )
    );
    assert_eq!(
        refusal("GET /v2/x HTTP/1.1\r\n\r\n", &runtime),
        (
            "HTTP/1.1 404 Not Found".to_string(),
            r#"{"error":"Not Found"}"#.to_string()
        )
    );
    assert_eq!(
        refusal("GET /v1/x HTTP/1.1\r\n\r\n", &runtime),
        (
            "HTTP/1.1 401 Unauthorized".to_string(),
            r#"{"error":"缺少 Authorization Bearer 或 X-API-Key"}"#.to_string()
        )
    );
    assert_eq!(
        refusal("GET /v1/x HTTP/1.1\r\nx-api-key: wrong\r\n\r\n", &runtime),
        (
            "HTTP/1.1 401 Unauthorized".to_string(),
            r#"{"error":"本地访问秘钥无效"}"#.to_string()
        )
    );
    assert_eq!(
        refusal(
            "GET /v1/x HTTP/1.1\r\nx-api-key: secret\r\n\r\n",
            &GatewayRuntime::default()
        ),
        (
            "HTTP/1.1 503 Service Unavailable".to_string(),
            r#"{"error":"本地接入集合尚未创建"}"#.to_string()
        )
    );
    let mut off = running();
    off.running = false;
    assert_eq!(
        refusal("GET /v1/x HTTP/1.1\r\nx-api-key: secret\r\n\r\n", &off).1,
        r#"{"error":"本地接入服务未启用"}"#
    );
    let mut off = running();
    off.collection.as_mut().unwrap().enabled = false;
    assert_eq!(
        refusal("GET /v1/x HTTP/1.1\r\nx-api-key: secret\r\n\r\n", &off).1,
        r#"{"error":"本地接入服务未启用"}"#
    );
}

#[test]
fn models_are_listed_if_there_is_an_account() {
    let mut runtime = running();
    let raw = "GET /v1/models HTTP/1.1\r\nAuthorization: Bearer secret\r\n\r\n";
    let (response, failure) = answer(raw, &runtime);
    assert!(response.starts_with("HTTP/1.1 200 OK\r\n"));
    assert!(response.ends_with(r#""object":"list"}"#));
    assert_eq!(failure, "写入模型响应失败: ");
    runtime.collection.as_mut().unwrap().account_ids.clear();
    assert_eq!(
        refusal(raw, &runtime).1,
        r#"{"error":"本地接入集合暂无账号"}"#
    );
}

#[test]
fn requests_with_the_key_are_forwarded() {
    let raw = "POST http://127.0.0.1:4000/v1/responses?x=1 HTTP/1.1\r\nAuthorization: Bearer secret\r\n\r\n{\"stream\":true}";
    match handle_connection(raw.as_bytes(), &running()).unwrap() {
        Handling::Forward {
            request,
            settings,
            request_is_stream,
        } => {
            assert_eq!(request.method, "POST");
            assert_eq!(request.target, "/v1/responses?x=1");
            assert_eq!(request.body, b"{\"stream\":true}");
            assert_eq!(settings.port, 4000);
            assert!(request_is_stream);
        }
        other => panic!("{:?}", other),
    }
}

#[test]
fn requests_that_cannot_be_parsed_get_no_answer() {
    assert_eq!(
        handle_connection(b"nonsense", &running()).unwrap_err(),
        "缺少 HTTP 头结束标记"
    );
    assert_eq!(
        handle_connection(b"GET :x HTTP/1.1\r\n\r\n", &running()).unwrap_err(),
        "解析请求路径失败: invalid port number"
    );
    let request = parse_http_request(b"GET /v1/x HTTP/1.1\r\n\r\n").unwrap();
    assert_eq!(
        route_request(request, Err("why".to_string()), &running()).unwrap_err(),
        "why"
    );
}

#[test]
fn failures_are_answered_with_their_status() {
    for (status, reason) in [
        (400, "Bad Request"),
        (401, "Unauthorized"),
        (404, "Not Found"),
        (405, "Method Not Allowed"),
        (429, "Too Many Requests"),
        (502, "Bad Gateway"),
        (500, "Service Unavailable"),
        (503, "Service Unavailable"),
    ] {
        let response = failure_response(&ProxyDispatchError {
            status,
            message: "m".to_string(),
            account_id: None,
            account_email: None,
        });
        let response = String::from_utf8(response).unwrap();
        assert!(response.starts_with(&format!("HTTP/1.1 {} {}\r\n", status, reason)));
        assert!(response.ends_with("\r\n\r\n{\"error\":\"m\"}"));
    }
}

#[test]
fn successes_are_remembered_and_counted() {
    let mut runtime = running();
    let success = ProxyDispatchSuccess {
        account_id: "a".to_string(),
        account_email: "a@x".to_string(),
    };
    let capture = ResponseCapture {
        usage: Some(UsageCapture {
            input_tokens: 1,
            output_tokens: 2,
            total_tokens: 3,
            cached_tokens: 0,
            reasoning_tokens: 0,
        }),
        response_id: Some("r".to_string()),
    };
    record_success_at(&mut runtime, &success, &capture, 12, NOW, NOW, NOW);
    assert_eq!(
        resolve_affinity_account_at(&mut runtime, "r", NOW + 1).as_deref(),
        Some("a")
    );
    assert_eq!(runtime.stats.totals.success_count, 1);
    assert_eq!(runtime.stats.totals.total_tokens, 3);
    assert_eq!(runtime.stats.accounts[0].email, "a@x");
    record_success(
        &mut runtime,
        &success,
        &ResponseCapture {
            usage: None,
            response_id: None,
        },
        1,
    );
    assert_eq!(runtime.stats.totals.success_count, 2);
    assert_eq!(runtime.stats.totals.total_tokens, 3);
}

#[test]
fn failures_are_counted() {
    let mut runtime = running();
    let error = ProxyDispatchError {
        status: 429,
        message: "m".to_string(),
        account_id: Some("a".to_string()),
        account_email: None,
    };
    record_failure_at(&mut runtime, &error, 12, NOW, NOW);
    record_failure(&mut runtime, &error, 1);
    assert_eq!(runtime.stats.totals.failure_count, 2);
    assert_eq!(runtime.stats.accounts[0].usage.failure_count, 2);
    assert_eq!(runtime.stats.totals.total_latency_ms, 13);
}
