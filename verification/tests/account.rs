use codex_local_access::account::{
    build_runtime_account, force_refresh_gateway_account, is_free_plan_type,
    is_local_access_eligible_account, normalize_auth_file_plan_type, normalize_plan_key,
    resolve_plan_rank, resolve_remaining_quota, resolve_upstream_account_id, CodexAccount,
    CodexApiProviderMode, CodexAuthMode, CodexQuota, CodexTokens,
};

fn account(plan: Option<&str>) -> CodexAccount {
    CodexAccount {
        id: "acc".to_string(),
        email: "a@example.com".to_string(),
        auth_mode: CodexAuthMode::OAuth,
        openai_api_key: None,
        api_provider_mode: CodexApiProviderMode::OpenaiBuiltin,
        api_base_url: None,
        api_provider_id: None,
        api_provider_name: None,
        plan_type: plan.map(|p| p.to_string()),
        auth_file_plan_type: None,
        account_id: None,
        account_name: None,
        tokens: CodexTokens {
            id_token: "id".to_string(),
            access_token: "token".to_string(),
            refresh_token: None,
        },
        quota: None,
    }
}

#[test]
fn plan_names_are_reduced_to_keys() {
    for (name, key) in [
        (None, "free"),
        (Some("  "), "free"),
        (Some("ChatGPT Enterprise Team"), "enterprise"),
        (Some("Business"), "business"),
        (Some("TEAM"), "team"),
        (Some("education"), "edu"),
        (Some("Go"), "go"),
        (Some("plus"), "plus"),
        (Some("Pro Lite"), "pro"),
        (Some("free_tier"), "free"),
        (Some(" Trial "), "trial"),
    ] {
        assert_eq!(normalize_plan_key(name), key);
        assert_eq!(normalize_plan_key(Some(key)), key);
    }
}

#[test]
fn pro_variants_are_recognised_however_written() {
    assert_eq!(normalize_auth_file_plan_type(Some("Pro_Lite")), Some("prolite"));
    assert_eq!(normalize_auth_file_plan_type(Some("pro lite ")), Some("prolite"));
    assert_eq!(normalize_auth_file_plan_type(Some("PROMAX")), Some("promax"));
    assert_eq!(normalize_auth_file_plan_type(Some("pro-max")), Some("promax"));
    assert_eq!(normalize_auth_file_plan_type(Some("pro")), None);
    assert_eq!(normalize_auth_file_plan_type(None), None);
}

#[test]
fn plans_have_ranks() {
    for (plan, rank) in [
        ("enterprise", Some(700)),
        ("business", Some(650)),
        ("team", Some(640)),
        ("edu", Some(630)),
        ("pro", Some(540)),
        ("prolite", Some(520)),
        ("promax", Some(560)),
        ("plus", Some(420)),
        ("go", Some(360)),
        ("free", Some(300)),
        ("trial", None),
    ] {
        assert_eq!(resolve_plan_rank(&account(Some(plan))), rank);
    }
    assert_eq!(resolve_plan_rank(&account(None)), Some(300));
    let mut variant = account(Some("pro"));
    variant.auth_file_plan_type = Some("pro max".to_string());
    assert_eq!(resolve_plan_rank(&variant), Some(560));
}

#[test]
fn the_tighter_window_decides_on_the_quota() {
    let mut a = account(None);
    assert_eq!(resolve_remaining_quota(&a), None);
    a.quota = Some(CodexQuota {
        hourly_percentage: 140,
        hourly_window_present: None,
        weekly_percentage: 60,
        weekly_window_present: Some(true),
    });
    assert_eq!(resolve_remaining_quota(&a), Some(60));
    a.quota = Some(CodexQuota {
        hourly_percentage: -5,
        hourly_window_present: Some(true),
        weekly_percentage: 60,
        weekly_window_present: Some(false),
    });
    assert_eq!(resolve_remaining_quota(&a), Some(0));
    a.quota = Some(CodexQuota {
        hourly_percentage: 10,
        hourly_window_present: Some(false),
        weekly_percentage: 60,
        weekly_window_present: Some(false),
    });
    assert_eq!(resolve_remaining_quota(&a), None);
}

#[test]
fn free_plans_are_recognised() {
    assert!(is_free_plan_type(Some("ChatGPT Free")));
    assert!(!is_free_plan_type(Some("plus")));
    assert!(!is_free_plan_type(Some(" ")));
    assert!(!is_free_plan_type(None));
}

#[test]
fn api_keys_and_restricted_free_plans_may_not_serve() {
    let mut a = account(Some("free"));
    assert!(!is_local_access_eligible_account(&a, true));
    assert!(is_local_access_eligible_account(&a, false));
    a.auth_mode = CodexAuthMode::ApiKey;
    assert!(!is_local_access_eligible_account(&a, false));
    assert!(is_local_access_eligible_account(&account(Some("pro")), true));
}

#[test]
fn the_own_account_id_goes_before_that_of_the_token() {
    let mut a = account(None);
    assert_eq!(resolve_upstream_account_id(&a, None), None);
    assert_eq!(
        resolve_upstream_account_id(&a, Some("tok".to_string())).as_deref(),
        Some("tok")
    );
    a.account_id = Some("  ".to_string());
    assert_eq!(
        resolve_upstream_account_id(&a, Some("tok".to_string())).as_deref(),
        Some("tok")
    );
    a.account_id = Some("own".to_string());
    assert_eq!(
        resolve_upstream_account_id(&a, Some("tok".to_string())).as_deref(),
        Some("own")
    );
}

#[test]
fn tokens_are_refreshed_with_a_refresh_token_only() {
    assert_eq!(
        force_refresh_gateway_account(None, "gone"),
        Err("账号不存在: gone".to_string())
    );
    let mut a = account(None);
    let missing = Err("当前账号缺少 refresh_token，无法刷新".to_string());
    assert_eq!(force_refresh_gateway_account(Some(&a), "acc"), missing);
    a.tokens.refresh_token = Some(" ".to_string());
    assert_eq!(force_refresh_gateway_account(Some(&a), "acc"), missing);
    a.tokens.refresh_token = Some("fresh".to_string());
    assert_eq!(
        force_refresh_gateway_account(Some(&a), "acc"),
        Ok(("fresh".to_string(), "id".to_string()))
    );
}

#[test]
fn the_gateway_has_an_account_of_its_own() {
    let a = build_runtime_account("http://127.0.0.1:9/v1".to_string(), "key".to_string());
    assert_eq!(a.id, "codex_local_access_runtime");
    assert_eq!(a.email, "api-service-local");
    assert!(a.is_api_key_auth());
    assert_eq!(a.openai_api_key.as_deref(), Some("key"));
    assert_eq!(a.api_provider_mode, CodexApiProviderMode::Custom);
    assert_eq!(a.api_base_url.as_deref(), Some("http://127.0.0.1:9/v1"));
    assert_eq!(a.api_provider_id.as_deref(), Some("codex_local_access"));
    assert_eq!(a.api_provider_name.as_deref(), Some("Codex API Service"));
    assert_eq!(a.account_name.as_deref(), Some("API Service"));
    assert!(a.clone().tokens.access_token.is_empty());
}
