use codex_local_access::json::json_bytes;
use codex_local_access::target::{
    build_local_models_response, default_codex_models, is_local_models_request,
    normalize_proxy_target, resolve_upstream_target, target_from_parts,
};

#[test]
fn targets_lose_scheme_and_host() {
    assert_eq!(
        normalize_proxy_target("/v1/responses").as_deref(),
        Ok("/v1/responses")
    );
    assert_eq!(
        normalize_proxy_target("/v1/responses?a=1&b=2#frag").as_deref(),
        Ok("/v1/responses?a=1&b=2")
    );
    assert_eq!(
        normalize_proxy_target("http://127.0.0.1:8080/v1/models?x").as_deref(),
        Ok("/v1/models?x")
    );
    assert_eq!(
        normalize_proxy_target("https://example.com").as_deref(),
        Ok("/")
    );
    assert_eq!(
        normalize_proxy_target("/v1/../v1/a b").as_deref(),
        Ok("/v1/a%20b")
    );
}

#[test]
fn addresses_that_cannot_be_read_are_reported() {
    let absolute = normalize_proxy_target("http://").unwrap_err();
    assert_eq!(absolute, "解析请求地址失败: empty host");
    let relative = normalize_proxy_target(":x").unwrap_err();
    assert_eq!(relative, "解析请求路径失败: invalid port number");
}

#[test]
fn targets_are_put_together_from_their_parts() {
    assert_eq!(
        target_from_parts(Ok(("/p".to_string(), Some("q=1".to_string()))), true).as_deref(),
        Ok("/p?q=1")
    );
    assert_eq!(
        target_from_parts(Ok(("/p".to_string(), None)), false).as_deref(),
        Ok("/p")
    );
    assert_eq!(
        target_from_parts(Err("why".to_string()), true),
        Err("解析请求地址失败: why".to_string())
    );
    assert_eq!(
        target_from_parts(Err("why".to_string()), false),
        Err("解析请求路径失败: why".to_string())
    );
}

#[test]
fn the_prefix_is_taken_off_for_the_upstream() {
    let path = |target: &str| resolve_upstream_target(target);
    assert_eq!(path("/v1/responses").as_deref(), Ok("/responses"));
    assert_eq!(path("/v1").as_deref(), Ok("/"));
    assert_eq!(path("/v1/v1/models").as_deref(), Ok("/models"));
    assert_eq!(path("/v1?x=1").as_deref(), Ok("/?x=1"));
    assert_eq!(path("/v1v1").as_deref(), Ok("/v1"));
    assert_eq!(path("/v2/x"), Err("仅支持 /v1 路径".to_string()));
}

#[test]
fn models_are_listed_by_the_gateway() {
    assert!(is_local_models_request("/v1/models"));
    assert!(is_local_models_request("/v1/models?limit=5"));
    assert!(!is_local_models_request("/v1/models/x"));
    assert!(!is_local_models_request("/v1/modelsx"));
    let list = build_local_models_response();
    assert_eq!(list.get("object").unwrap().as_str(), Some("list"));
    let written = String::from_utf8(json_bytes(&list).unwrap()).unwrap();
    assert!(written.starts_with(
        r#"{"data":[{"created":0,"id":"gpt-5-codex","object":"model","owned_by":"openai"},"#
    ));
    for name in default_codex_models() {
        assert!(written.contains(&format!("\"id\":\"{}\"", name)));
    }
    assert_eq!(default_codex_models().len(), 10);
    assert_eq!(default_codex_models()[9], "gpt-5.1-codex-mini");
}
