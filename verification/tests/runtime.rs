use codex_local_access::clock::RetryDelay;
use codex_local_access::collection::{initial_collection, FreshValues};
use codex_local_access::runtime::{
    activate_local_access_for_dir, adopt_collection, bind_response_affinity,
    bind_response_affinity_at, build_base_url, build_cooldown_key, build_state_snapshot,
    clear_local_access_stats, clear_model_cooldown, clear_model_cooldown_at,
    ensure_gateway_matches_runtime, finish_loading, finish_loading_at, get_model_cooldown_wait,
    get_model_cooldown_wait_at, mark_ended, mark_started, prune_runtime_routing_state,
    resolve_affinity_account, resolve_affinity_account_at, restore_local_access_gateway,
    set_model_cooldown, set_model_cooldown_at, stop_gateway, GatewayAction, GatewayRuntime,
    MAX_RESPONSE_AFFINITY_BINDINGS, RESPONSE_AFFINITY_TTL_MS,
};
use codex_local_access::collection::CodexLocalAccessCollection;
use codex_local_access::stats::{
    empty_stats_at, normalize_stats_at, CodexLocalAccessStats, CodexLocalAccessUsageStats,
};

const NOW: i64 = 1_700_000_000_000;

fn settings(enabled: bool) -> CodexLocalAccessCollection {
    let mut collection = initial_collection(&FreshValues {
        port: 4100,
        api_key: "key".to_string(),
        created_at: 1,
        updated_at: 2,
    });
    collection.enabled = enabled;
    collection.account_ids = vec!["a".to_string(), "b".to_string()];
    collection
}

#[test]
fn responses_are_remembered_for_a_day() {
    let mut runtime = GatewayRuntime::default();
    bind_response_affinity_at(&mut runtime, " r1 ", " a ", NOW);
    let find = |runtime: &mut GatewayRuntime, id: &str, now: i64| {
        resolve_affinity_account_at(runtime, id, now)
    };
    assert_eq!(find(&mut runtime, "r1", NOW).as_deref(), Some("a"));
    assert_eq!(find(&mut runtime, "r2", NOW), None);
    assert_eq!(
        find(&mut runtime, "r1", NOW + RESPONSE_AFFINITY_TTL_MS).as_deref(),
        Some("a")
    );
    assert_eq!(find(&mut runtime, "r1", NOW + RESPONSE_AFFINITY_TTL_MS + 1), None);
    assert_eq!(runtime.response_affinity.len(), 0);
}

#[test]
fn blank_names_are_not_remembered() {
    let mut runtime = GatewayRuntime::default();
    bind_response_affinity_at(&mut runtime, "  ", "a", NOW);
    bind_response_affinity_at(&mut runtime, "r", "  ", NOW);
    assert_eq!(runtime.response_affinity.len(), 0);
}

#[test]
fn a_response_is_bound_anew() {
    let mut runtime = GatewayRuntime::default();
    bind_response_affinity_at(&mut runtime, "r", "a", NOW);
    bind_response_affinity_at(&mut runtime, "r", "b", NOW + 1);
    assert_eq!(runtime.response_affinity.len(), 1);
    assert_eq!(
        resolve_affinity_account_at(&mut runtime, "r", NOW + 1).as_deref(),
        Some("b")
    );
}

#[test]
fn the_oldest_responses_are_forgotten_first() {
    let mut runtime = GatewayRuntime::default();
    for i in 0..MAX_RESPONSE_AFFINITY_BINDINGS as i64 + 2 {
        bind_response_affinity_at(&mut runtime, &format!("r{}", i), "a", NOW + i);
    }
    assert_eq!(runtime.response_affinity.len(), MAX_RESPONSE_AFFINITY_BINDINGS);
    let now = NOW + MAX_RESPONSE_AFFINITY_BINDINGS as i64 + 2;
    assert_eq!(resolve_affinity_account_at(&mut runtime, "r0", now), None);
    assert_eq!(resolve_affinity_account_at(&mut runtime, "r1", now), None);
    assert!(resolve_affinity_account_at(&mut runtime, "r2", now).is_some());
}

#[test]
fn cooldowns_last_and_end() {
    let mut runtime = GatewayRuntime::default();
    set_model_cooldown_at(&mut runtime, " a ", " m ", RetryDelay::from_secs(5), NOW);
    assert_eq!(
        get_model_cooldown_wait_at(&mut runtime, "a", "m", NOW + 1_000),
        Some(RetryDelay::from_millis(4_000))
    );
    assert_eq!(get_model_cooldown_wait_at(&mut runtime, "a", "n", NOW), None);
    assert_eq!(get_model_cooldown_wait_at(&mut runtime, "b", "m", NOW), None);
    assert_eq!(get_model_cooldown_wait_at(&mut runtime, "a", "m", NOW + 5_000), None);
    assert_eq!(runtime.model_cooldowns.len(), 0);
    set_model_cooldown_at(&mut runtime, "a", "m", RetryDelay::from_secs(5), NOW);
    clear_model_cooldown_at(&mut runtime, "a", "m", NOW);
    assert_eq!(get_model_cooldown_wait_at(&mut runtime, "a", "m", NOW), None);
}

#[test]
fn nothing_cools_down_without_a_model_or_a_time() {
    let mut runtime = GatewayRuntime::default();
    set_model_cooldown_at(&mut runtime, "a", "", RetryDelay::from_secs(5), NOW);
    set_model_cooldown_at(&mut runtime, "", "m", RetryDelay::from_secs(5), NOW);
    set_model_cooldown_at(&mut runtime, "a", "m", RetryDelay::from_secs(0), NOW);
    clear_model_cooldown_at(&mut runtime, "a", " ", NOW);
    assert_eq!(runtime.model_cooldowns.len(), 0);
    assert_eq!(get_model_cooldown_wait_at(&mut runtime, "a", " ", NOW), None);
}

#[test]
fn endless_cooldowns_stop_at_the_end_of_time() {
    let mut runtime = GatewayRuntime::default();
    let long = RetryDelay::from_millis(i64::MAX as u64);
    set_model_cooldown_at(&mut runtime, "a", "m", long, NOW);
    assert_eq!(
        get_model_cooldown_wait_at(&mut runtime, "a", "m", NOW),
        Some(RetryDelay::from_millis((i64::MAX - NOW) as u64))
    );
    let beyond = RetryDelay::from_millis(u64::MAX);
    set_model_cooldown_at(&mut runtime, "a", "m", beyond, NOW);
    assert_eq!(get_model_cooldown_wait_at(&mut runtime, "a", "m", NOW), None);
}

#[test]
fn memory_goes_by_the_clock() {
    let mut runtime = GatewayRuntime::default();
    bind_response_affinity(&mut runtime, "r", "a");
    assert_eq!(resolve_affinity_account(&mut runtime, "r").as_deref(), Some("a"));
    set_model_cooldown(&mut runtime, "a", "m", RetryDelay::from_secs(1_000));
    let wait = get_model_cooldown_wait(&mut runtime, "a", "m").unwrap();
    assert!(wait.millis > 900_000 && wait.millis <= 1_000_000);
    clear_model_cooldown(&mut runtime, "a", "m");
    assert_eq!(get_model_cooldown_wait(&mut runtime, "a", "m"), None);
    prune_runtime_routing_state(&mut runtime, i64::MAX);
    assert_eq!(runtime.response_affinity.len(), 0);
}

#[test]
fn cooldown_keys_join_account_and_model() {
    assert_eq!(build_cooldown_key(" a ", " m ").as_deref(), Some("a\u{1f}m"));
    assert_eq!(build_cooldown_key("a", " "), None);
    assert_eq!(build_cooldown_key("", "m"), None);
}

#[test]
fn the_gateway_follows_its_settings() {
    let mut runtime = GatewayRuntime::default();
    assert_eq!(ensure_gateway_matches_runtime(&runtime), GatewayAction::Stop);
    adopt_collection(&mut runtime, settings(false));
    assert_eq!(ensure_gateway_matches_runtime(&runtime), GatewayAction::Stop);
    adopt_collection(&mut runtime, settings(true));
    assert_eq!(
        ensure_gateway_matches_runtime(&runtime),
        GatewayAction::Listen { port: 4100 }
    );
    mark_started(&mut runtime, 4100);
    assert_eq!(ensure_gateway_matches_runtime(&runtime), GatewayAction::Keep);
    runtime.collection.as_mut().unwrap().port = 4200;
    assert_eq!(
        ensure_gateway_matches_runtime(&runtime),
        GatewayAction::Listen { port: 4200 }
    );
    assert!(!mark_ended(&mut runtime, 4200));
    assert!(runtime.running);
    assert!(mark_ended(&mut runtime, 4100));
    assert!(!runtime.running);
    mark_started(&mut runtime, 4200);
    stop_gateway(&mut runtime);
    assert_eq!(runtime.actual_port, None);
}

#[test]
fn loading_takes_over_settings_and_statistics() {
    let mut runtime = GatewayRuntime::default();
    assert!(finish_loading_at(
        &mut runtime,
        settings(true),
        CodexLocalAccessStats::default(),
        NOW
    ));
    assert!(runtime.loaded);
    assert_eq!(runtime.stats.since, NOW);
    let mut other = GatewayRuntime::default();
    assert!(!finish_loading(&mut other, settings(false), empty_stats_at(7)));
    assert_eq!(other.stats.since, 7);
    restore_local_access_gateway(&mut other, "broken".to_string());
    assert_eq!(other.last_error.as_deref(), Some("broken"));
    adopt_collection(&mut other, settings(false));
    assert_eq!(other.last_error, None);
}

#[test]
fn cleared_statistics_count_nothing() {
    let mut runtime = GatewayRuntime::default();
    adopt_collection(&mut runtime, settings(true));
    codex_local_access::stats::record_request_stats(
        &mut runtime.stats,
        Some("a"),
        Some("a@b.c"),
        true,
        5,
        None,
    );
    assert_eq!(runtime.stats.totals.request_count, 1);
    assert_eq!(runtime.stats.events.len(), 1);
    clear_local_access_stats(&mut runtime, NOW);
    assert!(runtime.collection.is_some());
    for _ in 0..2 {
        let stats = &runtime.stats;
        assert_eq!(stats.since, NOW);
        assert_eq!(stats.updated_at, NOW);
        assert_eq!(stats.totals, CodexLocalAccessUsageStats::default());
        assert!(stats.accounts.is_empty());
        assert!(stats.events.is_empty());
        for window in [&stats.daily, &stats.weekly, &stats.monthly] {
            assert_eq!(window.totals, CodexLocalAccessUsageStats::default());
            assert!(window.accounts.is_empty());
        }
        normalize_stats_at(&mut runtime.stats, NOW + 1);
    }
}

#[test]
fn the_state_shows_all_but_single_requests() {
    let mut runtime = GatewayRuntime::default();
    let blank = build_state_snapshot(&runtime);
    assert!(blank.collection.is_none());
    assert_eq!(blank.base_url, None);
    assert_eq!(blank.member_count, 0);
    adopt_collection(&mut runtime, settings(true));
    mark_started(&mut runtime, 4100);
    codex_local_access::stats::record_request_stats(
        &mut runtime.stats,
        Some("a"),
        None,
        true,
        1,
        None,
    );
    let state = build_state_snapshot(&runtime);
    assert!(state.running);
    assert_eq!(state.base_url.as_deref(), Some("http://127.0.0.1:4100/v1"));
    assert_eq!(state.member_count, 2);
    assert_eq!(state.stats.totals.request_count, 1);
    assert!(state.stats.events.is_empty());
    assert_eq!(runtime.stats.events.len(), 1);
}

#[test]
fn profiles_are_given_the_account_of_the_gateway() {
    let mut runtime = GatewayRuntime::default();
    assert_eq!(
        activate_local_access_for_dir(&build_state_snapshot(&runtime)).unwrap_err(),
        "API 服务集合尚未创建"
    );
    adopt_collection(&mut runtime, settings(true));
    let mut state = build_state_snapshot(&runtime);
    let account = activate_local_access_for_dir(&state).unwrap();
    assert_eq!(account.openai_api_key.as_deref(), Some("key"));
    assert_eq!(account.api_base_url.as_deref(), Some("http://127.0.0.1:4100/v1"));
    state.base_url = None;
    let account = activate_local_access_for_dir(&state).unwrap();
    assert_eq!(account.api_base_url.as_deref(), Some("http://127.0.0.1:4100/v1"));
    assert_eq!(build_base_url(65535), "http://127.0.0.1:65535/v1");
}
