use codex_local_access::account::{
    CodexAccount, CodexApiProviderMode, CodexAuthMode, CodexQuota, CodexTokens,
};
use codex_local_access::routing::{
    apply_routing_strategy, build_ordered_account_ids, build_routing_candidates,
    compare_routing_candidates, pin_account_to_front, CodexLocalAccessRoutingStrategy,
    RoutingCandidate,
};
use std::cmp::Ordering;

fn ids(names: &[&str]) -> Vec<String> {
    names.iter().map(|n| n.to_string()).collect()
}

fn account(id: &str, plan: Option<&str>, hourly: i32, weekly: i32) -> CodexAccount {
    CodexAccount {
        id: id.to_string(),
        email: format!("{}@example.com", id),
        auth_mode: CodexAuthMode::OAuth,
        openai_api_key: None,
        api_provider_mode: CodexApiProviderMode::OpenaiBuiltin,
        api_base_url: None,
        api_provider_id: None,
        api_provider_name: None,
        plan_type: plan.map(|p| p.to_string()),
        auth_file_plan_type: None,
        account_id: None,
        account_name: None,
        tokens: CodexTokens {
            id_token: String::new(),
            access_token: "token".to_string(),
            refresh_token: None,
        },
        quota: Some(CodexQuota {
            hourly_percentage: hourly,
            hourly_window_present: None,
            weekly_percentage: weekly,
            weekly_window_present: None,
        }),
    }
}

#[test]
fn prefers_affinity_account_before_round_robin_order() {
    let ordered = build_ordered_account_ids(
        &[
            "acc-a".to_string(),
            "acc-b".to_string(),
            "acc-c".to_string(),
        ],
        1,
        Some("acc-c"),
    );

    assert_eq!(ordered, vec!["acc-c", "acc-b", "acc-a"]);
}

#[test]
fn rounds_begin_with_each_account_in_turn() {
    let pool = ids(&["a", "b", "c"]);
    assert_eq!(build_ordered_account_ids(&pool, 0, None), vec!["a", "b", "c"]);
    assert_eq!(build_ordered_account_ids(&pool, 1, None), vec!["b", "c", "a"]);
    assert_eq!(build_ordered_account_ids(&pool, 2, None), vec!["c", "a", "b"]);
    assert_eq!(build_ordered_account_ids(&pool, 3, None), vec!["a", "b", "c"]);
    assert_eq!(
        build_ordered_account_ids(&pool, usize::MAX, None).len(),
        3
    );
    assert!(build_ordered_account_ids(&[], 5, Some("a")).is_empty());
}

#[test]
fn a_round_names_no_account_twice_and_no_stranger() {
    let pool = ids(&["a", "b", "a"]);
    assert_eq!(
        build_ordered_account_ids(&pool, 1, Some("x")),
        vec!["b", "a"]
    );
}

#[test]
fn strategies_order_by_plan_and_quota() {
    let pool = ids(&["free", "plus", "pro", "unknown"]);
    let accounts = vec![
        Some(account("free", Some("free"), 90, 95)),
        Some(account("plus", Some("ChatGPT Plus"), 30, 80)),
        Some(account("pro", Some("pro"), 60, 10)),
        None,
    ];
    let order = |strategy| apply_routing_strategy(&pool, &accounts, strategy);
    assert_eq!(
        order(CodexLocalAccessRoutingStrategy::Auto),
        vec!["pro", "plus", "free", "unknown"]
    );
    assert_eq!(
        order(CodexLocalAccessRoutingStrategy::PlanHighFirst),
        vec!["pro", "plus", "free", "unknown"]
    );
    assert_eq!(
        order(CodexLocalAccessRoutingStrategy::PlanLowFirst),
        vec!["free", "plus", "pro", "unknown"]
    );
    assert_eq!(
        order(CodexLocalAccessRoutingStrategy::QuotaHighFirst),
        vec!["free", "plus", "pro", "unknown"]
    );
    assert_eq!(
        order(CodexLocalAccessRoutingStrategy::QuotaLowFirst),
        vec!["pro", "plus", "free", "unknown"]
    );
    assert_eq!(
        CodexLocalAccessRoutingStrategy::default(),
        CodexLocalAccessRoutingStrategy::Auto
    );
}

#[test]
fn equal_accounts_keep_their_order() {
    let pool = ids(&["b", "a", "c"]);
    let accounts = vec![
        Some(account("b", Some("plus"), 50, 50)),
        Some(account("a", Some("plus"), 50, 50)),
        Some(account("c", Some("plus"), 50, 50)),
    ];
    assert_eq!(
        apply_routing_strategy(&pool, &accounts, CodexLocalAccessRoutingStrategy::Auto),
        vec!["b", "a", "c"]
    );
}

#[test]
fn candidates_hold_what_is_known_of_accounts() {
    let pool = ids(&["p", "q"]);
    let candidates =
        build_routing_candidates(&pool, &[Some(account("p", Some("team"), 120, 40)), None]);
    assert_eq!(candidates.len(), 2);
    assert_eq!(candidates[0].account_id, "p");
    assert_eq!(candidates[0].plan_rank, Some(640));
    assert_eq!(candidates[0].remaining_quota, Some(40));
    assert_eq!(candidates[1].plan_rank, None);
    assert_eq!(candidates[1].remaining_quota, None);
}

#[test]
fn candidates_compare_by_strategy_then_by_place() {
    let pool = ids(&["x", "y"]);
    let candidate = |id: &str, plan_rank, remaining_quota| RoutingCandidate {
        account_id: id.to_string(),
        plan_rank,
        remaining_quota,
    };
    let auto = CodexLocalAccessRoutingStrategy::Auto;
    let high = candidate("y", Some(700), Some(1));
    let low = candidate("x", Some(300), Some(99));
    let none = candidate("z", None, None);
    assert_eq!(
        compare_routing_candidates(&high, &low, auto, &pool),
        Ordering::Less
    );
    assert_eq!(
        compare_routing_candidates(
            &high,
            &low,
            CodexLocalAccessRoutingStrategy::QuotaHighFirst,
            &pool
        ),
        Ordering::Greater
    );
    assert_eq!(
        compare_routing_candidates(&low, &none, auto, &pool),
        Ordering::Less
    );
    assert_eq!(
        compare_routing_candidates(
            &candidate("y", Some(1), None),
            &candidate("x", Some(1), None),
            auto,
            &pool
        ),
        Ordering::Greater
    );
    assert_eq!(
        compare_routing_candidates(&none, &none, auto, &pool),
        Ordering::Equal
    );
}

#[test]
fn pinning_moves_one_account_to_the_front() {
    assert_eq!(
        pin_account_to_front(ids(&["a", "b", "c"]), Some(" c ")),
        vec!["c", "a", "b"]
    );
    assert_eq!(
        pin_account_to_front(ids(&["a", "b"]), Some("x")),
        vec!["a", "b"]
    );
    assert_eq!(
        pin_account_to_front(ids(&["a", "b"]), Some("  ")),
        vec!["a", "b"]
    );
    assert_eq!(pin_account_to_front(ids(&["a", "b"]), None), vec!["a", "b"]);
}
