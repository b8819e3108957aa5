use codex_local_access::account::{
    CodexAccount, CodexApiProviderMode, CodexAuthMode, CodexTokens,
};
use codex_local_access::clock::RetryDelay;
use codex_local_access::collection::{
    initial_collection, CodexLocalAccessCollection, FreshValues,
};
use codex_local_access::dispatch::{
    CooldownChange, Dispatch, DispatchEvent, Phase, ProxyDispatchError,
};
use codex_local_access::http::ParsedRequest;
use codex_local_access::table::Table;

const LIMIT: &str = r#"{"error":{"type":"usage_limit_reached","message":"full","resets_in_seconds":2}}"#;

fn account(id: &str) -> CodexAccount {
    CodexAccount {
        id: id.to_string(),
        email: format!("{}@x", id),
        auth_mode: CodexAuthMode::OAuth,
        openai_api_key: None,
        api_provider_mode: CodexApiProviderMode::OpenaiBuiltin,
        api_base_url: None,
        api_provider_id: None,
        api_provider_name: None,
        plan_type: Some("plus".to_string()),
        auth_file_plan_type: None,
        account_id: None,
        account_name: None,
        tokens: CodexTokens {
            id_token: String::new(),
            access_token: "t".to_string(),
            refresh_token: None,
        },
        quota: None,
    }
}

fn settings(count: usize) -> CodexLocalAccessCollection {
    let mut collection = initial_collection(&FreshValues {
        port: 1,
        api_key: "k".to_string(),
        created_at: 1,
        updated_at: 1,
    });
    collection.account_ids = (0..count).map(|i| format!("a{}", i)).collect();
    collection
}

fn request(target: &str, body: &str) -> ParsedRequest {
    ParsedRequest {
        method: "POST".to_string(),
        target: target.to_string(),
        headers: Table::new(),
        body: body.as_bytes().to_vec(),
    }
}

fn begin(count: usize, body: &str) -> Dispatch {
    Dispatch::begin(&request("/v1/responses", body), &settings(count)).unwrap()
}

fn start_round(dispatch: &mut Dispatch, turn: usize) -> Vec<String> {
    dispatch.step(DispatchEvent::Turn(turn));
    let ids = match dispatch.phase() {
        Phase::Load { account_ids } => account_ids.clone(),
        other => panic!("{:?}", other),
    };
    let accounts = ids.iter().map(|id| Some(account(id))).collect();
    dispatch.step(DispatchEvent::Loaded(accounts));
    ids
}

fn prepare(dispatch: &mut Dispatch) -> String {
    let id = match dispatch.phase() {
        Phase::Cooldown { account_id } => account_id.clone(),
        other => panic!("{:?}", other),
    };
    dispatch.step(DispatchEvent::Wait(None));
    assert!(matches!(dispatch.phase(), Phase::Prepare { .. }));
    dispatch.step(DispatchEvent::Prepared(Ok(account(&id))));
    assert!(matches!(dispatch.phase(), Phase::Send { .. }));
    id
}

fn failure(dispatch: &Dispatch) -> &ProxyDispatchError {
    match dispatch.phase() {
        Phase::Failed { error } => error,
        other => panic!("{:?}", other),
    }
}

#[test]
fn an_empty_pool_serves_nobody() {
    let error = Dispatch::begin(&request("/v1/x", ""), &settings(0)).unwrap_err();
    assert_eq!(error.status, 503);
    assert_eq!(error.message, "本地接入集合暂无账号");
    let error = Dispatch::begin(&request("/x", ""), &settings(1)).unwrap_err();
    assert_eq!(error.status, 400);
    assert_eq!(error.message, "仅支持 /v1 路径");
    assert_eq!(error.account_id, None);
}

#[test]
fn the_first_account_that_answers_serves_the_request() {
    let mut dispatch = begin(3, r#"{"model":" GPT-5 "}"#);
    assert_eq!(dispatch.upstream_target(), "/responses");
    assert_eq!(dispatch.model_key(), "gpt-5");
    assert!(matches!(dispatch.phase(), Phase::Turn));
    assert_eq!(start_round(&mut dispatch, 1), vec!["a1", "a2", "a0"]);
    assert_eq!(prepare(&mut dispatch), "a1");
    match dispatch.step(DispatchEvent::Sent(Ok(204))) {
        CooldownChange::End { account_id } => assert_eq!(account_id, "a1"),
        other => panic!("{:?}", other),
    }
    match dispatch.phase() {
        Phase::Succeeded { success } => {
            assert_eq!(success.account_id, "a1");
            assert_eq!(success.account_email, "a1@x");
        }
        other => panic!("{:?}", other),
    }
}

#[test]
fn the_account_of_the_conversation_goes_first() {
    let mut dispatch = begin(3, r#"{"previous_response_id":"r"}"#);
    match dispatch.phase() {
        Phase::Affinity { response_id } => assert_eq!(response_id, "r"),
        other => panic!("{:?}", other),
    }
    dispatch.step(DispatchEvent::Affinity(Some("a2".to_string())));
    start_round(&mut dispatch, 0);
    assert_eq!(prepare(&mut dispatch), "a2");
}

#[test]
fn limits_lead_to_the_next_account_and_to_a_cooldown() {
    let mut dispatch = begin(2, r#"{"model":"m"}"#);
    start_round(&mut dispatch, 0);
    assert_eq!(prepare(&mut dispatch), "a0");
    dispatch.step(DispatchEvent::Sent(Ok(429)));
    assert!(matches!(dispatch.phase(), Phase::Read { status: 429, .. }));
    let change = dispatch.step(DispatchEvent::Body {
        content: LIMIT.to_string(),
        now_seconds: 0,
    });
    match change {
        CooldownChange::Begin {
            account_id,
            retry_after,
        } => {
            assert_eq!(account_id, "a0");
            assert_eq!(retry_after, RetryDelay::from_secs(2));
        }
        other => panic!("{:?}", other),
    }
    assert_eq!(prepare(&mut dispatch), "a1");
    dispatch.step(DispatchEvent::Sent(Err("down".to_string())));
    let error = failure(&dispatch);
    assert_eq!(error.status, 429);
    assert_eq!(error.message, "模型 m 的可用账号均在冷却中，请 2 秒 后重试");
    assert_eq!(error.account_id.as_deref(), Some("a1"));
    assert_eq!(error.account_email.as_deref(), Some("a1@x"));
}

#[test]
fn limits_without_a_time_are_told_at_the_end() {
    let mut dispatch = begin(1, "");
    start_round(&mut dispatch, 0);
    prepare(&mut dispatch);
    dispatch.step(DispatchEvent::Sent(Ok(403)));
    dispatch.step(DispatchEvent::Body {
        content: "quota exceeded".to_string(),
        now_seconds: 0,
    });
    let error = failure(&dispatch);
    assert_eq!(error.status, 403);
    assert_eq!(
        error.message,
        "账号 a0@x 当前不可用，已尝试轮转: 403: quota exceeded"
    );
}

#[test]
fn other_refusals_are_passed_on_at_once() {
    let mut dispatch = begin(3, "");
    start_round(&mut dispatch, 0);
    prepare(&mut dispatch);
    dispatch.step(DispatchEvent::Sent(Ok(500)));
    let change = dispatch.step(DispatchEvent::Body {
        content: r#"{"message":"boom"}"#.to_string(),
        now_seconds: 0,
    });
    assert!(matches!(change, CooldownChange::Unchanged));
    let error = failure(&dispatch);
    assert_eq!(error.status, 500);
    assert_eq!(error.message, "500: boom");
    assert_eq!(error.account_id.as_deref(), Some("a0"));
}

#[test]
fn expired_tokens_are_refreshed_once() {
    let mut dispatch = begin(1, "");
    start_round(&mut dispatch, 0);
    prepare(&mut dispatch);
    dispatch.step(DispatchEvent::Sent(Ok(401)));
    assert!(matches!(dispatch.phase(), Phase::Refresh { .. }));
    dispatch.step(DispatchEvent::Refreshed(Ok(())));
    assert!(matches!(dispatch.phase(), Phase::Reload { .. }));
    let mut renewed = account("a0");
    renewed.email = "new@x".to_string();
    dispatch.step(DispatchEvent::Reloaded(Some(renewed)));
    assert!(matches!(dispatch.phase(), Phase::Resend { .. }));
    dispatch.step(DispatchEvent::Sent(Ok(401)));
    let error = failure(&dispatch);
    assert_eq!(error.status, 401);
    assert_eq!(error.message, "账号 new@x 鉴权失败");
}

#[test]
fn refreshed_tokens_may_serve_the_request() {
    let mut dispatch = begin(1, "");
    start_round(&mut dispatch, 0);
    prepare(&mut dispatch);
    dispatch.step(DispatchEvent::Sent(Ok(401)));
    dispatch.step(DispatchEvent::Refreshed(Ok(())));
    dispatch.step(DispatchEvent::Reloaded(Some(account("a0"))));
    dispatch.step(DispatchEvent::Sent(Ok(200)));
    assert!(matches!(dispatch.phase(), Phase::Succeeded { .. }));
}

#[test]
fn accounts_that_fail_on_the_way_are_passed_over() {
    let mut dispatch = begin(6, "");
    start_round(&mut dispatch, 0);
    prepare(&mut dispatch);
    dispatch.step(DispatchEvent::Sent(Ok(401)));
    dispatch.step(DispatchEvent::Refreshed(Err("no refresh".to_string())));
    prepare(&mut dispatch);
    dispatch.step(DispatchEvent::Sent(Ok(401)));
    dispatch.step(DispatchEvent::Refreshed(Ok(())));
    dispatch.step(DispatchEvent::Reloaded(None));
    dispatch.step(DispatchEvent::Wait(None));
    dispatch.step(DispatchEvent::Prepared(Err("not ready".to_string())));
    dispatch.step(DispatchEvent::Wait(None));
    let mut keyed = account("a3");
    keyed.auth_mode = CodexAuthMode::ApiKey;
    dispatch.step(DispatchEvent::Prepared(Ok(keyed)));
    dispatch.step(DispatchEvent::Wait(None));
    let mut free = account("a4");
    free.plan_type = Some("free".to_string());
    dispatch.step(DispatchEvent::Prepared(Ok(free)));
    assert_eq!(prepare(&mut dispatch), "a5");
    dispatch.step(DispatchEvent::Sent(Err("unreachable".to_string())));
    let error = failure(&dispatch);
    assert_eq!(error.status, 503);
    assert_eq!(error.message, "unreachable");
    assert_eq!(error.account_id.as_deref(), Some("a5"));
}

#[test]
fn each_reason_to_pass_over_is_told() {
    let told = |event: DispatchEvent| {
        let mut dispatch = begin(1, "");
        start_round(&mut dispatch, 0);
        dispatch.step(DispatchEvent::Wait(None));
        dispatch.step(event);
        failure(&dispatch).message.clone()
    };
    let mut keyed = account("a0");
    keyed.auth_mode = CodexAuthMode::ApiKey;
    assert_eq!(
        told(DispatchEvent::Prepared(Ok(keyed))),
        "API Key 账号不支持加入本地接入"
    );
    let mut free = account("a0");
    free.plan_type = Some("Free".to_string());
    assert_eq!(
        told(DispatchEvent::Prepared(Ok(free))),
        "Free 账号不支持加入本地接入"
    );
    assert_eq!(
        told(DispatchEvent::Prepared(Err("why".to_string()))),
        "why"
    );
    let mut dispatch = begin(1, "");
    start_round(&mut dispatch, 0);
    prepare(&mut dispatch);
    dispatch.step(DispatchEvent::Sent(Ok(401)));
    dispatch.step(DispatchEvent::Refreshed(Ok(())));
    dispatch.step(DispatchEvent::Reloaded(None));
    assert_eq!(failure(&dispatch).message, "账号不存在: a0");
}

#[test]
fn a_short_cooldown_is_waited_for_once() {
    let mut dispatch = begin(2, "");
    start_round(&mut dispatch, 0);
    dispatch.step(DispatchEvent::Wait(Some(RetryDelay::from_millis(2_500))));
    dispatch.step(DispatchEvent::Wait(Some(RetryDelay::from_millis(1_500))));
    match dispatch.phase() {
        Phase::Sleep { delay } => assert_eq!(*delay, RetryDelay::from_millis(1_500)),
        other => panic!("{:?}", other),
    }
    dispatch.step(DispatchEvent::Slept);
    start_round(&mut dispatch, 1);
    dispatch.step(DispatchEvent::Wait(Some(RetryDelay::from_millis(900))));
    dispatch.step(DispatchEvent::Wait(Some(RetryDelay::from_millis(1_000))));
    let error = failure(&dispatch);
    assert_eq!(error.status, 429);
    assert_eq!(
        error.message,
        "当前 API 服务账号均在冷却中，请 1 秒 后重试"
    );
    assert_eq!(error.account_id, None);
}

#[test]
fn a_long_cooldown_is_not_waited_for() {
    let mut dispatch = begin(1, r#"{"previous_response_id":"r"}"#);
    dispatch.step(DispatchEvent::Affinity(Some("a0".to_string())));
    start_round(&mut dispatch, 0);
    dispatch.step(DispatchEvent::Wait(Some(RetryDelay::from_millis(3_001))));
    let error = failure(&dispatch);
    assert_eq!(error.status, 429);
    assert_eq!(error.account_id.as_deref(), Some("a0"));
    assert_eq!(error.account_email, None);
}

#[test]
fn at_most_eight_accounts_are_tried() {
    let mut dispatch = begin(12, "");
    start_round(&mut dispatch, 3);
    for _ in 0..8 {
        prepare(&mut dispatch);
        dispatch.step(DispatchEvent::Sent(Err("down".to_string())));
    }
    assert_eq!(failure(&dispatch).message, "down");
}

#[test]
fn accounts_that_were_not_found_are_tried_last() {
    let mut dispatch = begin(3, "");
    dispatch.step(DispatchEvent::Turn(0));
    dispatch.step(DispatchEvent::Loaded(vec![None, Some(account("a1"))]));
    assert_eq!(prepare(&mut dispatch), "a1");
}

#[test]
fn what_does_not_belong_changes_nothing() {
    let mut dispatch = begin(1, "");
    dispatch.step(DispatchEvent::Slept);
    dispatch.step(DispatchEvent::Sent(Ok(200)));
    assert!(matches!(dispatch.phase(), Phase::Turn));
    start_round(&mut dispatch, usize::MAX);
    assert!(matches!(dispatch.phase(), Phase::Cooldown { .. }));
}

#[test]
fn refusals_can_be_given_directly() {
    let mut dispatch = begin(1, "");
    let change = dispatch.after_refusal(account("a0"), 418, "tea".to_string(), None, false);
    assert!(matches!(change, CooldownChange::Unchanged));
    assert_eq!(failure(&dispatch).status, 418);
    assert_eq!(failure(&dispatch).message, "tea");
}
