use codex_local_access::account::{
    CodexAccount, CodexApiProviderMode, CodexAuthMode, CodexTokens,
};
use codex_local_access::collection::{
    ensure_local_port_available, fresh_values, generate_local_api_key, initial_collection,
    prepare_collection, prepare_collection_with, remove_local_access_account,
    rotate_local_access_api_key, sanitize_collection, sanitize_collection_with,
    save_local_access_accounts, save_local_access_accounts_with, set_local_access_enabled,
    update_local_access_port, update_local_access_routing_strategy, valid_account_ids,
    CodexLocalAccessCollection, FreshValues,
};
use codex_local_access::routing::CodexLocalAccessRoutingStrategy;

const NO_SETTINGS: &str = "本地接入集合尚未创建";

fn account(id: &str, plan: &str) -> CodexAccount {
    CodexAccount {
        id: id.to_string(),
        email: format!("{}@example.com", id),
        auth_mode: CodexAuthMode::OAuth,
        openai_api_key: None,
        api_provider_mode: CodexApiProviderMode::OpenaiBuiltin,
        api_base_url: None,
        api_provider_id: None,
        api_provider_name: None,
        plan_type: Some(plan.to_string()),
        auth_file_plan_type: None,
        account_id: None,
        account_name: None,
        tokens: CodexTokens {
            id_token: String::new(),
            access_token: String::new(),
            refresh_token: None,
        },
        quota: None,
    }
}

fn accounts() -> Vec<CodexAccount> {
    let mut keyed = account("keyed", "pro");
    keyed.auth_mode = CodexAuthMode::ApiKey;
    vec![account("pro", "pro"), account("free", "free"), keyed, account("team", "team")]
}

fn ids(names: &[&str]) -> Vec<String> {
    names.iter().map(|n| n.to_string()).collect()
}

fn fresh() -> FreshValues {
    FreshValues {
        port: 7000,
        api_key: "agt_codex_fresh".to_string(),
        created_at: 100,
        updated_at: 200,
    }
}

fn settings(names: &[&str]) -> CodexLocalAccessCollection {
    let mut collection = initial_collection(&FreshValues {
        port: 5000,
        api_key: "key".to_string(),
        created_at: 1,
        updated_at: 2,
    });
    collection.account_ids = ids(names);
    collection
}

#[test]
fn generated_keys_have_the_form_of_keys() {
    let key = generate_local_api_key();
    assert_eq!(key.len(), 42);
    assert!(key.starts_with("agt_codex_"));
    assert!(key[10..].chars().all(|c| c.is_ascii_alphanumeric()));
    assert_ne!(key, generate_local_api_key());
    assert_eq!(fresh_values(9).port, 9);
    assert!(fresh_values(9).created_at > 1_600_000_000_000);
}

#[test]
fn accounts_that_may_serve_are_listed() {
    assert_eq!(valid_account_ids(&accounts(), true), ids(&["pro", "team"]));
    assert_eq!(
        valid_account_ids(&accounts(), false),
        ids(&["pro", "free", "team"])
    );
}

#[test]
fn settings_are_repaired() {
    let mut collection = settings(&["team", "gone", "pro", "team", "free"]);
    collection.port = 0;
    collection.api_key = "  ".to_string();
    collection.created_at = 0;
    collection.updated_at = -1;
    let (changed, valid) = sanitize_collection_with(&mut collection, &fresh(), &accounts());
    assert!(changed);
    assert_eq!(valid, ids(&["pro", "team"]));
    assert_eq!(collection.port, 7000);
    assert_eq!(collection.api_key, "agt_codex_fresh");
    assert_eq!(collection.created_at, 100);
    assert_eq!(collection.updated_at, 200);
    assert_eq!(collection.account_ids, ids(&["team", "pro"]));
    let (again, _) = sanitize_collection_with(&mut collection, &fresh(), &accounts());
    assert!(!again);
    let mut other = settings(&["pro"]);
    other.api_key = String::new();
    let (changed, _) = sanitize_collection(&mut other, 1, &accounts());
    assert!(changed);
    assert!(other.api_key.starts_with("agt_codex_"));
    assert_eq!(other.port, 5000);
}

#[test]
fn the_gateway_begins_with_initial_settings() {
    let (collection, store) = prepare_collection_with(None, &fresh(), &accounts());
    assert!(store);
    assert!(!collection.enabled);
    assert!(collection.restrict_free_accounts);
    assert_eq!(collection.port, 7000);
    assert!(collection.account_ids.is_empty());
    assert_eq!(
        collection.routing_strategy,
        CodexLocalAccessRoutingStrategy::Auto
    );
    let (kept, store) = prepare_collection(Some(settings(&["pro"])), 1, &accounts());
    assert!(!store);
    assert_eq!(kept.port, 5000);
    let (_, store) = prepare_collection(Some(settings(&["free"])), 1, &accounts());
    assert!(store);
}

#[test]
fn another_pool_holds_eligible_accounts_once() {
    let saved = save_local_access_accounts_with(
        Some(settings(&["pro"])),
        ids(&["free", "x", "team", "free"]),
        false,
        &accounts(),
        &fresh(),
        50,
        60,
    );
    assert_eq!(saved.account_ids, ids(&["free", "team"]));
    assert!(!saved.restrict_free_accounts);
    assert_eq!(saved.updated_at, 50);
    let mut broken = settings(&[]);
    broken.created_at = 0;
    let saved = save_local_access_accounts_with(
        Some(broken),
        ids(&["free"]),
        true,
        &accounts(),
        &fresh(),
        50,
        60,
    );
    assert!(saved.account_ids.is_empty());
    assert_eq!(saved.updated_at, 60);
    let first = save_local_access_accounts(None, ids(&["pro"]), true, 8123, &accounts());
    assert_eq!(first.port, 8123);
    assert_eq!(first.account_ids, ids(&["pro"]));
}

#[test]
fn strategies_are_changed() {
    assert_eq!(
        update_local_access_routing_strategy(None, CodexLocalAccessRoutingStrategy::Auto)
            .unwrap_err(),
        NO_SETTINGS
    );
    assert!(update_local_access_routing_strategy(
        Some(settings(&[])),
        CodexLocalAccessRoutingStrategy::Auto
    )
    .unwrap()
    .is_none());
    let changed = update_local_access_routing_strategy(
        Some(settings(&[])),
        CodexLocalAccessRoutingStrategy::PlanLowFirst,
    )
    .unwrap()
    .unwrap();
    assert_eq!(
        changed.routing_strategy,
        CodexLocalAccessRoutingStrategy::PlanLowFirst
    );
    assert!(changed.updated_at > 2);
}

#[test]
fn accounts_are_taken_out() {
    assert!(remove_local_access_account(None, "a").is_none());
    assert!(remove_local_access_account(Some(settings(&["a"])), "b").is_none());
    let left = remove_local_access_account(Some(settings(&["a", "b", "a", "c"])), "a").unwrap();
    assert_eq!(left.account_ids, ids(&["b", "c"]));
}

#[test]
fn keys_are_rotated() {
    assert_eq!(rotate_local_access_api_key(None).unwrap_err(), NO_SETTINGS);
    let rotated = rotate_local_access_api_key(Some(settings(&["a"])))
        .unwrap()
        .unwrap();
    assert!(rotated.api_key.starts_with("agt_codex_"));
    assert_eq!(rotated.account_ids, ids(&["a"]));
    assert_eq!(rotated.created_at, 1);
}

#[test]
fn ports_are_checked_before_they_are_changed() {
    assert_eq!(
        ensure_local_port_available(0, None),
        Err("端口必须在 1 到 65535 之间".to_string())
    );
    assert_eq!(ensure_local_port_available(80, Some(80)), Ok(false));
    assert_eq!(ensure_local_port_available(81, Some(80)), Ok(true));
    assert_eq!(ensure_local_port_available(81, None), Ok(true));
    assert_eq!(update_local_access_port(None, 1, None).unwrap_err(), NO_SETTINGS);
    assert_eq!(
        update_local_access_port(Some(settings(&[])), 0, None).unwrap_err(),
        "端口必须在 1 到 65535 之间"
    );
    assert!(update_local_access_port(Some(settings(&[])), 5000, None)
        .unwrap()
        .is_none());
    assert_eq!(
        update_local_access_port(Some(settings(&[])), 6000, Some("in use")).unwrap_err(),
        "端口 6000 不可用: in use"
    );
    let moved = update_local_access_port(Some(settings(&[])), 6000, None)
        .unwrap()
        .unwrap();
    assert_eq!(moved.port, 6000);
}

#[test]
fn the_gateway_is_switched_on_and_off() {
    assert_eq!(set_local_access_enabled(None, true).unwrap_err(), NO_SETTINGS);
    let on = set_local_access_enabled(Some(settings(&["a"])), true)
        .unwrap()
        .unwrap();
    assert!(on.enabled);
    assert_eq!(on.clone().account_ids, ids(&["a"]));
}
