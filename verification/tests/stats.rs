use codex_local_access::clock::{DAY_WINDOW_MS, MONTH_WINDOW_MS, WEEK_WINDOW_MS};
use codex_local_access::stats::{
    append_usage_event, apply_usage_event_to_window, apply_usage_stats, empty_stats_at,
    empty_stats_snapshot, empty_stats_window, normalize_stats, normalize_stats_at,
    recompute_time_windows, record_request_stats, record_request_stats_at, sort_usage_accounts,
    trim_recent_events, upsert_account_usage_stats, CodexLocalAccessAccountStats,
    CodexLocalAccessStats, CodexLocalAccessUsageEvent, CodexLocalAccessUsageStats,
    MAX_RECENT_USAGE_EVENTS,
};
use codex_local_access::usage::UsageCapture;

const NOW: i64 = 1_700_000_000_000;

fn capture(n: u64) -> UsageCapture {
    UsageCapture {
        input_tokens: n,
        output_tokens: n + 1,
        total_tokens: n + 2,
        cached_tokens: n + 3,
        reasoning_tokens: n + 4,
    }
}

fn event(timestamp: i64, id: &str) -> CodexLocalAccessUsageEvent {
    CodexLocalAccessUsageEvent {
        timestamp,
        account_id: id.to_string(),
        email: String::new(),
        success: true,
        latency_ms: 5,
        input_tokens: 1,
        output_tokens: 0,
        total_tokens: 1,
        cached_tokens: 0,
        reasoning_tokens: 0,
    }
}

fn entry(id: &str, requests: u64, updated_at: i64) -> CodexLocalAccessAccountStats {
    CodexLocalAccessAccountStats {
        account_id: id.to_string(),
        email: String::new(),
        usage: CodexLocalAccessUsageStats {
            request_count: requests,
            ..CodexLocalAccessUsageStats::default()
        },
        updated_at,
    }
}

fn clock_ms() -> i64 {
    std::time::SystemTime::now()
        .duration_since(std::time::UNIX_EPOCH)
        .unwrap()
        .as_millis() as i64
}

#[test]
fn requests_are_counted_as_successes_or_failures() {
    let mut usage = CodexLocalAccessUsageStats::default();
    apply_usage_stats(&mut usage, true, 10, Some(&capture(1)));
    apply_usage_stats(&mut usage, false, 5, None);
    assert_eq!(usage.request_count, 2);
    assert_eq!(usage.success_count, 1);
    assert_eq!(usage.failure_count, 1);
    assert_eq!(usage.total_latency_ms, 15);
    assert_eq!(usage.input_tokens, 1);
    assert_eq!(usage.output_tokens, 2);
    assert_eq!(usage.total_tokens, 3);
    assert_eq!(usage.cached_tokens, 4);
    assert_eq!(usage.reasoning_tokens, 5);
    usage.request_count = u64::MAX;
    usage.total_latency_ms = u64::MAX - 1;
    apply_usage_stats(&mut usage, true, 9, None);
    assert_eq!(usage.request_count, u64::MAX);
    assert_eq!(usage.total_latency_ms, u64::MAX);
}

#[test]
fn accounts_have_one_entry_each() {
    let mut accounts = Vec::new();
    upsert_account_usage_stats(&mut accounts, Some(" a "), Some(" e@x "), true, 1, None, 10);
    upsert_account_usage_stats(&mut accounts, Some("a"), Some("  "), false, 2, None, 20);
    upsert_account_usage_stats(&mut accounts, Some("b"), None, true, 3, Some(&capture(0)), 30);
    upsert_account_usage_stats(&mut accounts, Some(" "), Some("x"), true, 3, None, 40);
    upsert_account_usage_stats(&mut accounts, None, None, true, 3, None, 50);
    assert_eq!(accounts.len(), 2);
    assert_eq!(accounts[0].account_id, "a");
    assert_eq!(accounts[0].email, "e@x");
    assert_eq!(accounts[0].usage.request_count, 2);
    assert_eq!(accounts[0].usage.failure_count, 1);
    assert_eq!(accounts[0].updated_at, 20);
    assert_eq!(accounts[1].account_id, "b");
    assert_eq!(accounts[1].usage.total_tokens, 2);
}

#[test]
fn accounts_are_ranked() {
    let mut accounts = vec![
        entry("b", 1, 5),
        entry("a", 1, 5),
        entry("c", 9, 1),
        entry("d", 1, 7),
    ];
    sort_usage_accounts(&mut accounts);
    let ids: Vec<&str> = accounts.iter().map(|a| a.account_id.as_str()).collect();
    assert_eq!(ids, vec!["c", "d", "a", "b"]);
}

#[test]
fn recent_events_are_kept_in_the_order_of_time() {
    let mut events = vec![
        event(30, "x"),
        event(0, "never"),
        event(10, "y"),
        event(5, "old"),
        event(30, "z"),
    ];
    trim_recent_events(&mut events, 10);
    let ids: Vec<&str> = events.iter().map(|e| e.account_id.as_str()).collect();
    assert_eq!(ids, vec!["y", "x", "z"]);
    trim_recent_events(&mut events, -5);
    assert_eq!(events.len(), 3);
}

#[test]
fn only_so_many_events_are_kept() {
    let mut events: Vec<CodexLocalAccessUsageEvent> = (0..MAX_RECENT_USAGE_EVENTS as i64 + 3)
        .map(|i| event(i + 1, "a"))
        .collect();
    trim_recent_events(&mut events, 0);
    assert_eq!(events.len(), MAX_RECENT_USAGE_EVENTS);
    assert_eq!(events[0].timestamp, 4);
}

#[test]
fn events_hold_trimmed_names() {
    let mut events = Vec::new();
    append_usage_event(&mut events, 7, Some(" a "), None, false, 3, Some(&capture(2)));
    assert_eq!(events[0].timestamp, 7);
    assert_eq!(events[0].account_id, "a");
    assert_eq!(events[0].email, "");
    assert!(!events[0].success);
    assert_eq!(events[0].latency_ms, 3);
    assert_eq!(events[0].reasoning_tokens, 6);
}

#[test]
fn windows_count_events_one_by_one() {
    let mut window = empty_stats_window(5, 6);
    assert_eq!(window.since, 5);
    assert_eq!(window.updated_at, 6);
    apply_usage_event_to_window(&mut window, &event(4, "a"));
    assert_eq!(window.updated_at, 6);
    apply_usage_event_to_window(&mut window, &event(9, "a"));
    assert_eq!(window.updated_at, 9);
    assert_eq!(window.totals.request_count, 2);
    assert_eq!(window.accounts.len(), 1);
    assert_eq!(window.accounts[0].usage.input_tokens, 2);
}

#[test]
fn windows_hold_the_last_day_week_and_month() {
    let mut stats = empty_stats_at(NOW);
    stats.events = vec![
        event(NOW, "a"),
        event(NOW - DAY_WINDOW_MS, "a"),
        event(NOW - DAY_WINDOW_MS - 1, "b"),
        event(NOW - WEEK_WINDOW_MS - 1, "c"),
        event(NOW - MONTH_WINDOW_MS - 1, "d"),
    ];
    recompute_time_windows(&mut stats, NOW);
    assert_eq!(stats.daily.totals.request_count, 2);
    assert_eq!(stats.weekly.totals.request_count, 3);
    assert_eq!(stats.monthly.totals.request_count, 4);
    assert_eq!(stats.events.len(), 4);
    assert_eq!(stats.daily.since, NOW - DAY_WINDOW_MS);
    assert_eq!(stats.weekly.since, NOW - WEEK_WINDOW_MS);
    assert_eq!(stats.monthly.since, NOW - MONTH_WINDOW_MS);
    assert_eq!(stats.monthly.accounts[0].account_id, "a");
    assert_eq!(stats.monthly.accounts.len(), 3);
}

#[test]
fn windows_add_up_latency_and_tokens() {
    let mut stats = empty_stats_at(NOW);
    let mut older = event(NOW - DAY_WINDOW_MS - 1, "a");
    older.latency_ms = 40;
    older.output_tokens = 7;
    older.total_tokens = u64::MAX;
    older.cached_tokens = 3;
    older.reasoning_tokens = 2;
    stats.events = vec![older, event(NOW - 1, "b"), event(NOW, "a")];
    recompute_time_windows(&mut stats, NOW);
    assert_eq!(stats.daily.totals.total_latency_ms, 10);
    assert_eq!(stats.daily.totals.input_tokens, 2);
    assert_eq!(stats.daily.totals.output_tokens, 0);
    assert_eq!(stats.daily.totals.total_tokens, 2);
    assert_eq!(stats.weekly.totals.total_latency_ms, 50);
    assert_eq!(stats.weekly.totals.input_tokens, 3);
    assert_eq!(stats.weekly.totals.output_tokens, 7);
    assert_eq!(stats.weekly.totals.total_tokens, u64::MAX);
    assert_eq!(stats.monthly.totals.cached_tokens, 3);
    assert_eq!(stats.monthly.totals.reasoning_tokens, 2);
}

#[test]
fn missing_dates_are_filled_in() {
    let mut stats = CodexLocalAccessStats::default();
    stats.accounts = vec![entry("a", 1, 1), entry("b", 2, 1)];
    normalize_stats_at(&mut stats, NOW);
    assert_eq!(stats.since, NOW);
    assert_eq!(stats.updated_at, NOW);
    assert_eq!(stats.accounts[0].account_id, "b");
    let once = stats.clone();
    normalize_stats_at(&mut stats, NOW);
    assert_eq!(stats.daily.updated_at, once.daily.updated_at);
    assert_eq!(stats.accounts[1].account_id, once.accounts[1].account_id);
    let mut dated = empty_stats_at(5);
    dated.updated_at = 0;
    normalize_stats_at(&mut dated, NOW);
    assert_eq!(dated.since, 5);
    assert_eq!(dated.updated_at, 5);
}

#[test]
fn recorded_requests_show_everywhere() {
    let mut stats = empty_stats_at(NOW - 10);
    record_request_stats_at(
        &mut stats,
        Some("a"),
        Some("a@x"),
        true,
        40,
        Some(&capture(10)),
        NOW,
        NOW + 1,
    );
    record_request_stats_at(&mut stats, None, None, false, 2, None, NOW + 5, NOW + 6);
    assert_eq!(stats.totals.request_count, 2);
    assert_eq!(stats.totals.success_count, 1);
    assert_eq!(stats.totals.failure_count, 1);
    assert_eq!(stats.accounts.len(), 1);
    assert_eq!(stats.daily.totals.request_count, 2);
    assert_eq!(stats.monthly.accounts[0].usage.total_tokens, 12);
    assert_eq!(stats.updated_at, NOW + 5);
    assert_eq!(stats.since, NOW - 10);
    assert_eq!(stats.events.last().unwrap().timestamp, NOW + 5);
    let shown = stats.without_events();
    assert!(shown.events.is_empty());
    assert_eq!(shown.totals, stats.totals);
}

#[test]
fn statistics_begin_by_the_clock() {
    let before = clock_ms();
    let stats = empty_stats_snapshot();
    let mut other = CodexLocalAccessStats::default();
    normalize_stats(&mut other);
    let mut third = CodexLocalAccessStats::default();
    record_request_stats(&mut third, Some("a"), None, true, 1, None);
    let after = clock_ms();
    for since in [stats.since, other.since, third.since] {
        assert!(before <= since && since <= after);
    }
    assert_eq!(stats.daily.since, stats.since - DAY_WINDOW_MS);
    assert_eq!(stats.monthly.updated_at, stats.since);
    assert_eq!(third.daily.totals.request_count, 1);
}

#[test]
fn the_edges_of_time_do_no_harm() {
    let mut stats = CodexLocalAccessStats::default();
    normalize_stats_at(&mut stats, i64::MIN);
    assert_eq!(stats.daily.since, i64::MIN);
    recompute_time_windows(&mut stats, i64::MAX);
    assert_eq!(stats.weekly.since, i64::MAX - WEEK_WINDOW_MS);
}
