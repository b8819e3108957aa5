//! Accounts: their plans, their quota, and whether they may serve the gateway.

use vstd::prelude::*;
use vstd::string::*;
use crate::text;

verus! {

/// How an account signs in.
#[derive(Debug, Clone, Copy, PartialEq, Eq, Structural)]
pub enum CodexAuthMode {
    OAuth,
    ApiKey,
}

/// Who answers the requests of an account with an API key.
#[derive(Debug, Clone, Copy, PartialEq, Eq, Structural)]
pub enum CodexApiProviderMode {
    OpenaiBuiltin,
    Custom,
}

/// The tokens of an account.
#[derive(Debug)]
pub struct CodexTokens {
    pub id_token: String,
    pub access_token: String,
    pub refresh_token: Option<String>,
}

/// How much of its quota an account has left, in percent.
#[derive(Debug, Clone, Copy, PartialEq, Eq, Structural)]
pub struct CodexQuota {
    pub hourly_percentage: i32,
    pub hourly_window_present: Option<bool>,
    pub weekly_percentage: i32,
    pub weekly_window_present: Option<bool>,
}

/// An account.
#[derive(Debug)]
pub struct CodexAccount {
    pub id: String,
    pub email: String,
    pub auth_mode: CodexAuthMode,
    pub openai_api_key: Option<String>,
    pub api_provider_mode: CodexApiProviderMode,
    pub api_base_url: Option<String>,
    pub api_provider_id: Option<String>,
    pub api_provider_name: Option<String>,
    pub plan_type: Option<String>,
    pub auth_file_plan_type: Option<String>,
    pub account_id: Option<String>,
    pub account_name: Option<String>,
    pub tokens: CodexTokens,
    pub quota: Option<CodexQuota>,
}

impl Clone for CodexTokens {
    fn clone(&self) -> (copy: Self)
        ensures
            copy == *self,
    {
        CodexTokens {
            id_token: self.id_token.clone(),
            access_token: self.access_token.clone(),
            refresh_token: text::copy_option(&self.refresh_token),
        }
    }
}

impl Clone for CodexAccount {
    fn clone(&self) -> (copy: Self)
        ensures
            copy == *self,
    {
        CodexAccount {
            id: self.id.clone(),
            email: self.email.clone(),
            auth_mode: self.auth_mode,
            openai_api_key: text::copy_option(&self.openai_api_key),
            api_provider_mode: self.api_provider_mode,
            api_base_url: text::copy_option(&self.api_base_url),
            api_provider_id: text::copy_option(&self.api_provider_id),
            api_provider_name: text::copy_option(&self.api_provider_name),
            plan_type: text::copy_option(&self.plan_type),
            auth_file_plan_type: text::copy_option(&self.auth_file_plan_type),
            account_id: text::copy_option(&self.account_id),
            account_name: text::copy_option(&self.account_name),
            tokens: self.tokens.clone(),
            quota: self.quota,
        }
    }
}

impl CodexAccount {
    /// An account that signs in with an API key and has neither tokens nor a plan.
    pub fn new_api_key(
        id: String,
        email: String,
        api_key: String,
        api_provider_mode: CodexApiProviderMode,
        api_base_url: Option<String>,
        api_provider_id: Option<String>,
        api_provider_name: Option<String>,
    ) -> (account: CodexAccount)
        ensures
            account.id == id,
            account.email == email,
            account.auth_mode == CodexAuthMode::ApiKey,
            account.openai_api_key == Some(api_key),
            account.api_provider_mode == api_provider_mode,
            account.api_base_url == api_base_url,
            account.api_provider_id == api_provider_id,
            account.api_provider_name == api_provider_name,
            account.plan_type is None,
            account.auth_file_plan_type is None,
            account.account_id is None,
            account.account_name is None,
            account.tokens.id_token@.len() == 0,
            account.tokens.access_token@.len() == 0,
            account.tokens.refresh_token is None,
            account.quota is None,
    {
        CodexAccount {
            id,
            email,
            auth_mode: CodexAuthMode::ApiKey,
            openai_api_key: Some(api_key),
            api_provider_mode,
            api_base_url,
            api_provider_id,
            api_provider_name,
            plan_type: None,
            auth_file_plan_type: None,
            account_id: None,
            account_name: None,
            tokens: CodexTokens {
                id_token: String::new(),
                access_token: String::new(),
                refresh_token: None,
            },
            quota: None,
        }
    }

    /// Whether the account signs in with an API key.
    pub fn is_api_key_auth(&self) -> (yes: bool)
        ensures
            yes == (self.auth_mode == CodexAuthMode::ApiKey),
    {
        self.auth_mode == CodexAuthMode::ApiKey
    }
}

// ---------------------------------------------------------------------------------------
// Plans
// ---------------------------------------------------------------------------------------

/// An optional text, empty if there is none.
pub open spec fn text_or_empty(text: Option<Seq<char>>) -> Seq<char> {
    match text {
        Some(t) => t,
        None => Seq::empty(),
    }
}

/// The kind of a plan: the first of the known kinds that its name mentions, `free` if it has
/// no name, else the name itself.
pub open spec fn plan_key(plan_type: Option<Seq<char>>) -> Seq<char> {
    let name = text::lower(text::trimmed(text_or_empty(plan_type)));
    if name.len() == 0 {
        "free"@
    } else if text::has_part(name, "enterprise"@) {
        "enterprise"@
    } else if text::has_part(name, "business"@) {
        "business"@
    } else if text::has_part(name, "team"@) {
        "team"@
    } else if text::has_part(name, "edu"@) {
        "edu"@
    } else if text::has_part(name, "go"@) {
        "go"@
    } else if text::has_part(name, "plus"@) {
        "plus"@
    } else if text::has_part(name, "pro"@) {
        "pro"@
    } else if text::has_part(name, "free"@) {
        "free"@
    } else {
        name
    }
}

/// The kind of a plan.
pub fn normalize_plan_key(plan_type: Option<&str>) -> (key: String)
    ensures
        key@ == plan_key(text::opt_str(plan_type)),
{
    let name = match plan_type {
        Some(plan) => text::to_ascii_lowercase(text::trim(plan).as_str()),
        None => String::new(),
    };
    proof {
        if plan_type is None {
            assert(text::lower(text::trimmed(Seq::empty())) =~= Seq::empty());
        }
    }
    if name.as_str().is_empty() {
        return "free".to_owned();
    }
    if text::contains(name.as_str(), "enterprise") {
        return "enterprise".to_owned();
    }
    if text::contains(name.as_str(), "business") {
        return "business".to_owned();
    }
    if text::contains(name.as_str(), "team") {
        return "team".to_owned();
    }
    if text::contains(name.as_str(), "edu") {
        return "edu".to_owned();
    }
    if text::contains(name.as_str(), "go") {
        return "go".to_owned();
    }
    if text::contains(name.as_str(), "plus") {
        return "plus".to_owned();
    }
    if text::contains(name.as_str(), "pro") {
        return "pro".to_owned();
    }
    if text::contains(name.as_str(), "free") {
        return "free".to_owned();
    }
    name
}

/// A name that trimming and lower case leave as it is.
spec fn is_plain_name(name: Seq<char>) -> bool {
    &&& name.len() > 0
    &&& text::lower(text::trimmed(name)) == name
    &&& text::has_part(name, name)
}

proof fn lemma_plain_name(name: Seq<char>)
    requires
        name.len() > 0,
        forall|i: int| 0 <= i < name.len() ==> 'a' <= #[trigger] name[i] <= 'z',
    ensures
        is_plain_name(name),
{
    assert(text::trimmed(name) == name);
    assert(text::lower(name) =~= name);
    assert(name.subrange(0, name.len() as int) =~= name);
    assert(text::occurs_at(name, name, 0));
}

proof fn lemma_no_part(name: Seq<char>, part: Seq<char>, j: int)
    requires
        0 <= j < part.len(),
        forall|i: int| 0 <= i < name.len() ==> #[trigger] name[i] != part[j],
    ensures
        !text::has_part(name, part),
{
    assert forall|k: int| !#[trigger] text::occurs_at(name, part, k) by {
        if text::occurs_at(name, part, k) {
            assert(name[k + j] == name.subrange(k, k + part.len())[j]);
        }
    }
}

proof fn lemma_enterprise_is_kept()
    ensures
        plan_key(Some("enterprise"@)) == "enterprise"@,
{
    let name = "enterprise"@;
    assert(is_plain_name(name)) by {
        reveal_strlit("enterprise");
        assert forall|i: int| 0 <= i < name.len() implies 'a' <= #[trigger] name[i] <= 'z' by {
            assert(i == 0 || i == 1 || i == 2 || i == 3 || i == 4 || i == 5 || i == 6 || i == 7
                || i == 8 || i == 9);
        }
        lemma_plain_name(name);
    }
}

proof fn lemma_business_is_kept()
    ensures
        plan_key(Some("business"@)) == "business"@,
{
    assert(!text::has_part("business"@, "enterprise"@)) by {
        reveal_strlit("business");
        reveal_strlit("enterprise");
        lemma_no_part("business"@, "enterprise"@, 2);
    }
    assert(is_plain_name("business"@)) by {
        reveal_strlit("business");
        lemma_plain_name("business"@);
    }
}

proof fn lemma_team_is_kept()
    ensures
        plan_key(Some("team"@)) == "team"@,
{
    assert(!text::has_part("team"@, "enterprise"@)) by {
        reveal_strlit("team");
        reveal_strlit("enterprise");
        lemma_no_part("team"@, "enterprise"@, 1);
    }
    assert(!text::has_part("team"@, "business"@)) by {
        reveal_strlit("team");
        reveal_strlit("business");
        lemma_no_part("team"@, "business"@, 0);
    }
    assert(is_plain_name("team"@)) by {
        reveal_strlit("team");
        lemma_plain_name("team"@);
    }
}

proof fn lemma_edu_is_kept()
    ensures
        plan_key(Some("edu"@)) == "edu"@,
{
    assert(!text::has_part("edu"@, "enterprise"@)) by {
        reveal_strlit("edu");
        reveal_strlit("enterprise");
        lemma_no_part("edu"@, "enterprise"@, 1);
    }
    assert(!text::has_part("edu"@, "business"@)) by {
        reveal_strlit("edu");
        reveal_strlit("business");
        lemma_no_part("edu"@, "business"@, 0);
    }
    assert(!text::has_part("edu"@, "team"@)) by {
        reveal_strlit("edu");
        reveal_strlit("team");
        lemma_no_part("edu"@, "team"@, 0);
    }
    assert(is_plain_name("edu"@)) by {
        reveal_strlit("edu");
        lemma_plain_name("edu"@);
    }
}

proof fn lemma_go_is_kept()
    ensures
        plan_key(Some("go"@)) == "go"@,
{
    assert(!text::has_part("go"@, "enterprise"@)) by {
        reveal_strlit("go");
        reveal_strlit("enterprise");
        lemma_no_part("go"@, "enterprise"@, 0);
    }
    assert(!text::has_part("go"@, "business"@)) by {
        reveal_strlit("go");
        reveal_strlit("business");
        lemma_no_part("go"@, "business"@, 0);
    }
    assert(!text::has_part("go"@, "team"@)) by {
        reveal_strlit("go");
        reveal_strlit("team");
        lemma_no_part("go"@, "team"@, 0);
    }
    assert(!text::has_part("go"@, "edu"@)) by {
        reveal_strlit("go");
        reveal_strlit("edu");
        lemma_no_part("go"@, "edu"@, 0);
    }
    assert(is_plain_name("go"@)) by {
        reveal_strlit("go");
        lemma_plain_name("go"@);
    }
}

proof fn lemma_plus_is_kept()
    ensures
        plan_key(Some("plus"@)) == "plus"@,
{
    assert(!text::has_part("plus"@, "enterprise"@)) by {
        reveal_strlit("plus");
        reveal_strlit("enterprise");
        lemma_no_part("plus"@, "enterprise"@, 0);
    }
    assert(!text::has_part("plus"@, "business"@)) by {
        reveal_strlit("plus");
        reveal_strlit("business");
        lemma_no_part("plus"@, "business"@, 0);
    }
    assert(!text::has_part("plus"@, "team"@)) by {
        reveal_strlit("plus");
        reveal_strlit("team");
        lemma_no_part("plus"@, "team"@, 0);
    }
    assert(!text::has_part("plus"@, "edu"@)) by {
        reveal_strlit("plus");
        reveal_strlit("edu");
        lemma_no_part("plus"@, "edu"@, 0);
    }
    assert(!text::has_part("plus"@, "go"@)) by {
        reveal_strlit("plus");
        reveal_strlit("go");
        lemma_no_part("plus"@, "go"@, 0);
    }
    assert(is_plain_name("plus"@)) by {
        reveal_strlit("plus");
        lemma_plain_name("plus"@);
    }
}

proof fn lemma_pro_is_kept()
    ensures
        plan_key(Some("pro"@)) == "pro"@,
{
    assert(!text::has_part("pro"@, "enterprise"@)) by {
        reveal_strlit("pro");
        reveal_strlit("enterprise");
        lemma_no_part("pro"@, "enterprise"@, 0);
    }
    assert(!text::has_part("pro"@, "business"@)) by {
        reveal_strlit("pro");
        reveal_strlit("business");
        lemma_no_part("pro"@, "business"@, 0);
    }
    assert(!text::has_part("pro"@, "team"@)) by {
        reveal_strlit("pro");
        reveal_strlit("team");
        lemma_no_part("pro"@, "team"@, 0);
    }
    assert(!text::has_part("pro"@, "edu"@)) by {
        reveal_strlit("pro");
        reveal_strlit("edu");
        lemma_no_part("pro"@, "edu"@, 0);
    }
    assert(!text::has_part("pro"@, "go"@)) by {
        reveal_strlit("pro");
        reveal_strlit("go");
        lemma_no_part("pro"@, "go"@, 0);
    }
    assert(!text::has_part("pro"@, "plus"@)) by {
        reveal_strlit("pro");
        reveal_strlit("plus");
        lemma_no_part("pro"@, "plus"@, 1);
    }
    assert(is_plain_name("pro"@)) by {
        reveal_strlit("pro");
        lemma_plain_name("pro"@);
    }
}

proof fn lemma_free_is_kept()
    ensures
        plan_key(Some("free"@)) == "free"@,
{
    assert(!text::has_part("free"@, "enterprise"@)) by {
        reveal_strlit("free");
        reveal_strlit("enterprise");
        lemma_no_part("free"@, "enterprise"@, 1);
    }
    assert(!text::has_part("free"@, "business"@)) by {
        reveal_strlit("free");
        reveal_strlit("business");
        lemma_no_part("free"@, "business"@, 0);
    }
    assert(!text::has_part("free"@, "team"@)) by {
        reveal_strlit("free");
        reveal_strlit("team");
        lemma_no_part("free"@, "team"@, 0);
    }
    assert(!text::has_part("free"@, "edu"@)) by {
        reveal_strlit("free");
        reveal_strlit("edu");
        lemma_no_part("free"@, "edu"@, 1);
    }
    assert(!text::has_part("free"@, "go"@)) by {
        reveal_strlit("free");
        reveal_strlit("go");
        lemma_no_part("free"@, "go"@, 0);
    }
    assert(!text::has_part("free"@, "plus"@)) by {
        reveal_strlit("free");
        reveal_strlit("plus");
        lemma_no_part("free"@, "plus"@, 0);
    }
    assert(!text::has_part("free"@, "pro"@)) by {
        reveal_strlit("free");
        reveal_strlit("pro");
        lemma_no_part("free"@, "pro"@, 0);
    }
    assert(is_plain_name("free"@)) by {
        reveal_strlit("free");
        lemma_plain_name("free"@);
    }
}

/// The kind of a kind is that kind: looking for it once more changes nothing.
pub proof fn plan_keys_are_kept(plan_type: Option<Seq<char>>)
    ensures
        plan_key(Some(plan_key(plan_type))) == plan_key(plan_type),
{
    text::tidying_is_idempotent(text_or_empty(plan_type));
    lemma_enterprise_is_kept();
    lemma_business_is_kept();
    lemma_team_is_kept();
    lemma_edu_is_kept();
    lemma_go_is_kept();
    lemma_plus_is_kept();
    lemma_pro_is_kept();
    lemma_free_is_kept();
}

/// A dash in place of an underscore or a space.
pub open spec fn dash_char(c: char) -> char {
    if c == '_' || c == ' ' {
        '-'
    } else {
        c
    }
}

/// Dashes in place of underscores and spaces.
pub open spec fn dashed(s: Seq<char>) -> Seq<char> {
    s.map_values(|c: char| dash_char(c))
}

fn with_dashes(name: &str) -> (out: String)
    ensures
        out@ == dashed(name@),
{
    let mut out = String::new();
    for c in it: name.chars()
        invariant
            out@ == dashed(it.seq().take(it.index() as int)),
            it.seq() == name@,
    {
        let ghost before = it.seq().take(it.index() as int);
        out.push(if c == '_' || c == ' ' {
            '-'
        } else {
            c
        });
        assert(dashed(it.seq().take(it.index() + 1)) =~= dashed(before).push(dash_char(c)));
    }
    assert(name@.take(name@.len() as int) =~= name@);
    out
}

/// The variant of a professional plan that its name states, however it is spelled.
pub open spec fn pro_variant(plan_type: Option<Seq<char>>) -> Option<Seq<char>> {
    match plan_type {
        Some(plan) => {
            let name = dashed(text::lower(text::trimmed(plan)));
            if name == "prolite"@ || name == "pro-lite"@ {
                Some("prolite"@)
            } else if name == "promax"@ || name == "pro-max"@ {
                Some("promax"@)
            } else {
                None
            }
        },
        None => None,
    }
}

/// The variant of a professional plan that its name states.
pub fn normalize_auth_file_plan_type(plan_type: Option<&str>) -> (variant: Option<&'static str>)
    ensures
        text::opt_str(variant) == pro_variant(text::opt_str(plan_type)),
{
    match plan_type {
        Some(plan) => {
            let name = with_dashes(text::to_ascii_lowercase(text::trim(plan).as_str()).as_str());
            if text::same(name.as_str(), "prolite") || text::same(name.as_str(), "pro-lite") {
                Some("prolite")
            } else if text::same(name.as_str(), "promax") || text::same(name.as_str(), "pro-max") {
                Some("promax")
            } else {
                None
            }
        },
        None => None,
    }
}

/// The variant of an account's professional plan: what its auth file states or, failing
/// that, what its plan states.
pub open spec fn account_variant(account: CodexAccount) -> Option<Seq<char>> {
    match pro_variant(text::opt_text(account.auth_file_plan_type)) {
        Some(variant) => Some(variant),
        None => pro_variant(text::opt_text(account.plan_type)),
    }
}

/// How high the plan of an account ranks; `None` for plans of no known kind.
pub open spec fn plan_rank(account: CodexAccount) -> Option<i32> {
    let key = plan_key(text::opt_text(account.plan_type));
    if key == "enterprise"@ {
        Some(700i32)
    } else if key == "business"@ {
        Some(650i32)
    } else if key == "team"@ {
        Some(640i32)
    } else if key == "edu"@ {
        Some(630i32)
    } else if key == "pro"@ {
        if account_variant(account) == Some("promax"@) {
            Some(560i32)
        } else if account_variant(account) == Some("prolite"@) {
            Some(520i32)
        } else {
            Some(540i32)
        }
    } else if key == "plus"@ {
        Some(420i32)
    } else if key == "go"@ {
        Some(360i32)
    } else if key == "free"@ {
        Some(300i32)
    } else {
        None
    }
}

/// How high the plan of an account ranks.
pub fn resolve_plan_rank(account: &CodexAccount) -> (rank: Option<i32>)
    ensures
        rank == plan_rank(*account),
{
    let key = normalize_plan_key(text::option_str(&account.plan_type));
    let variant = match normalize_auth_file_plan_type(
        text::option_str(&account.auth_file_plan_type),
    ) {
        Some(variant) => Some(variant),
        None => normalize_auth_file_plan_type(text::option_str(&account.plan_type)),
    };
    if text::same(key.as_str(), "enterprise") {
        Some(700)
    } else if text::same(key.as_str(), "business") {
        Some(650)
    } else if text::same(key.as_str(), "team") {
        Some(640)
    } else if text::same(key.as_str(), "edu") {
        Some(630)
    } else if text::same(key.as_str(), "pro") {
        match variant {
            Some(name) => if text::same(name, "promax") {
                Some(560)
            } else if text::same(name, "prolite") {
                Some(520)
            } else {
                Some(540)
            },
            None => Some(540),
        }
    } else if text::same(key.as_str(), "plus") {
        Some(420)
    } else if text::same(key.as_str(), "go") {
        Some(360)
    } else if text::same(key.as_str(), "free") {
        Some(300)
    } else {
        None
    }
}

// ---------------------------------------------------------------------------------------
// Quota
// ---------------------------------------------------------------------------------------

/// A percentage brought into the range from 0 to 100.
pub open spec fn percent(n: i32) -> i32 {
    if n < 0 {
        0
    } else if n > 100 {
        100
    } else {
        n
    }
}

/// What is left in a window of the quota, unless it is marked as absent.
pub open spec fn window_left(percentage: i32, present: Option<bool>) -> Option<i32> {
    if present == Some(false) {
        None
    } else {
        Some(percent(percentage))
    }
}

/// What an account has left: the smaller of its two windows.
pub open spec fn quota_left(account: CodexAccount) -> Option<i32> {
    match account.quota {
        Some(quota) => {
            let hourly = window_left(quota.hourly_percentage, quota.hourly_window_present);
            let weekly = window_left(quota.weekly_percentage, quota.weekly_window_present);
            match (hourly, weekly) {
                (Some(h), Some(w)) => Some(
                    if h <= w {
                        h
                    } else {
                        w
                    },
                ),
                (Some(h), None) => Some(h),
                (None, w) => w,
            }
        },
        None => None,
    }
}

fn remaining_in_window(percentage: i32, present: Option<bool>) -> (left: Option<i32>)
    ensures
        left == window_left(percentage, present),
{
    let there = match present {
        Some(flag) => flag,
        None => true,
    };
    if !there {
        None
    } else if percentage < 0 {
        Some(0)
    } else if percentage > 100 {
        Some(100)
    } else {
        Some(percentage)
    }
}

/// What an account has left.
pub fn resolve_remaining_quota(account: &CodexAccount) -> (left: Option<i32>)
    ensures
        left == quota_left(*account),
{
    match &account.quota {
        Some(quota) => {
            let hourly = remaining_in_window(quota.hourly_percentage, quota.hourly_window_present);
            let weekly = remaining_in_window(quota.weekly_percentage, quota.weekly_window_present);
            match (hourly, weekly) {
                (Some(h), Some(w)) => Some(
                    if h <= w {
                        h
                    } else {
                        w
                    },
                ),
                (Some(h), None) => Some(h),
                (None, w) => w,
            }
        },
        None => None,
    }
}

// ---------------------------------------------------------------------------------------
// Eligibility
// ---------------------------------------------------------------------------------------

/// The plan's name says that it is free.
pub open spec fn is_free(plan_type: Option<Seq<char>>) -> bool {
    match plan_type {
        Some(plan) => text::has_part(text::lower(text::trimmed(plan)), "free"@),
        None => false,
    }
}

/// Whether the plan's name says that it is free.
pub fn is_free_plan_type(plan_type: Option<&str>) -> (yes: bool)
    ensures
        yes == is_free(text::opt_str(plan_type)),
{
    match plan_type {
        Some(plan) => text::contains(
            text::to_ascii_lowercase(text::trim(plan).as_str()).as_str(),
            "free",
        ),
        None => false,
    }
}

/// The account may serve the gateway: it has no API key and, where free accounts are kept
/// out, no free plan.
pub open spec fn eligible(account: CodexAccount, restrict_free_accounts: bool) -> bool {
    &&& account.auth_mode != CodexAuthMode::ApiKey
    &&& !(restrict_free_accounts && is_free(text::opt_text(account.plan_type)))
}

/// Whether the account may serve the gateway.
pub fn is_local_access_eligible_account(account: &CodexAccount, restrict_free_accounts: bool) -> (
yes: bool)
    ensures
        yes == eligible(*account, restrict_free_accounts),
{
    if account.is_api_key_auth() {
        return false;
    }
    if restrict_free_accounts && is_free_plan_type(text::option_str(&account.plan_type)) {
        return false;
    }
    true
}

// ---------------------------------------------------------------------------------------
// Accounts and the upstream
// ---------------------------------------------------------------------------------------

/// The account id that the upstream is told: the account's own unless that is blank, else
/// the one in its access token, which `token_account_id` holds.
pub open spec fn upstream_account_id(
    account_id: Option<Seq<char>>,
    token_account_id: Option<Seq<char>>,
) -> Option<Seq<char>> {
    match account_id {
        Some(id) => if text::trimmed(id).len() > 0 {
            Some(id)
        } else {
            token_account_id
        },
        None => token_account_id,
    }
}

/// The account id that the upstream is told.
pub fn resolve_upstream_account_id(
    account: &CodexAccount,
    token_account_id: Option<String>,
) -> (id: Option<String>)
    ensures
        text::opt_text(id) == upstream_account_id(
            text::opt_text(account.account_id),
            text::opt_text(token_account_id),
        ),
{
    match &account.account_id {
        Some(own) => if text::trim_non_empty(own.as_str()).is_some() {
            Some(own.clone())
        } else {
            token_account_id
        },
        None => token_account_id,
    }
}

/// What is needed to get new tokens for an account: its refresh token and its id token.
pub open spec fn refresh_tokens(found: Option<CodexAccount>, account_id: Seq<char>) -> Result<
    (Seq<char>, Seq<char>),
    Seq<char>,
> {
    match found {
        None => Err("账号不存在: "@ + account_id),
        Some(a) => match a.tokens.refresh_token {
            Some(token) => if text::trimmed(token@).len() > 0 {
                Ok((token@, a.tokens.id_token@))
            } else {
                Err("当前账号缺少 refresh_token，无法刷新"@)
            },
            None => Err("当前账号缺少 refresh_token，无法刷新"@),
        },
    }
}

/// What is needed to get new tokens for an account that was found under its id, or was not.
pub fn force_refresh_gateway_account(found: Option<&CodexAccount>, account_id: &str) -> (tokens:
    Result<(String, String), String>)
    ensures
        refresh_tokens(
            match found {
                Some(a) => Some(*a),
                None => None,
            },
            account_id@,
        ) == (match tokens {
            Ok((refresh_token, id_token)) => Ok((refresh_token@, id_token@)),
            Err(message) => Err(message@),
        }),
{
    match found {
        None => {
            let mut message = "账号不存在: ".to_owned();
            message.append(account_id);
            Err(message)
        },
        Some(a) => match &a.tokens.refresh_token {
            Some(token) => if text::trim_non_empty(token.as_str()).is_some() {
                Ok((token.clone(), a.tokens.id_token.clone()))
            } else {
                Err("当前账号缺少 refresh_token，无法刷新".to_owned())
            },
            None => Err("当前账号缺少 refresh_token，无法刷新".to_owned()),
        },
    }
}

/// The account stands for the gateway itself: it asks the gateway at `base_url` with
/// `api_key`, and has neither tokens nor a plan.
pub open spec fn stands_for_gateway(
    account: CodexAccount,
    base_url: Seq<char>,
    api_key: Seq<char>,
) -> bool {
    &&& account.id@ == "codex_local_access_runtime"@
    &&& account.email@ == "api-service-local"@
    &&& account.auth_mode == CodexAuthMode::ApiKey
    &&& text::opt_text(account.openai_api_key) == Some(api_key)
    &&& account.api_provider_mode == CodexApiProviderMode::Custom
    &&& text::opt_text(account.api_base_url) == Some(base_url)
    &&& text::opt_text(account.api_provider_id) == Some("codex_local_access"@)
    &&& text::opt_text(account.api_provider_name) == Some("Codex API Service"@)
    &&& text::opt_text(account.account_name) == Some("API Service"@)
    &&& account.plan_type is None
    &&& account.auth_file_plan_type is None
    &&& account.account_id is None
    &&& account.tokens.id_token@.len() == 0
    &&& account.tokens.access_token@.len() == 0
    &&& account.tokens.refresh_token is None
    &&& account.quota is None
}

/// The account that stands for the gateway itself in a profile.
pub fn build_runtime_account(base_url: String, api_key: String) -> (account: CodexAccount)
    ensures
        stands_for_gateway(account, base_url@, api_key@),
{
    let mut account = CodexAccount::new_api_key(
        "codex_local_access_runtime".to_owned(),
        "api-service-local".to_owned(),
        api_key,
        CodexApiProviderMode::Custom,
        Some(base_url),
        Some("codex_local_access".to_owned()),
        Some("Codex API Service".to_owned()),
    );
    account.account_name = Some("API Service".to_owned());
    account
}

/// A free plan is never of a kind that outranks the paid ones by mistake: a plan that ranks
/// as free and has a name mentions `free` in it.
pub proof fn free_rank_means_free(account: CodexAccount)
    requires
        plan_rank(account) == Some(300i32),
        text::trimmed(text_or_empty(text::opt_text(account.plan_type))).len() > 0,
    ensures
        is_free(text::opt_text(account.plan_type)),
{
    reveal_strlit("enterprise");
    reveal_strlit("business");
    reveal_strlit("team");
    reveal_strlit("edu");
    reveal_strlit("go");
    reveal_strlit("plus");
    reveal_strlit("pro");
    reveal_strlit("free");
    let name = text::lower(text::trimmed(text_or_empty(text::opt_text(account.plan_type))));
    assert("enterprise"@.len() != 4 && "business"@.len() != 4 && "edu"@.len() != 4 && "go"@.len()
        != 4 && "pro"@.len() != 4);
    assert("team"@[0] != "free"@[0]);
    assert("plus"@[0] != "free"@[0]);
    if name == "free"@ {
        assert(text::occurs_at(name, "free"@, 0)) by {
            assert(name.subrange(0, 4) =~= name);
        }
    }
}

// ---------------------------------------------------------------------------------------
// Laws
// ---------------------------------------------------------------------------------------

/// The known kinds of plans, in the order in which a name is searched for them.
pub open spec fn kinds_in_order() -> Seq<Seq<char>> {
    seq![
        "enterprise"@,
        "business"@,
        "team"@,
        "edu"@,
        "go"@,
        "plus"@,
        "pro"@,
        "free"@,
    ]
}

/// A plan is of the first kind that its name mentions, in any case; without a name it is free;
/// if its name mentions none, it is a kind of its own.
pub proof fn plans_are_of_the_kind_they_mention(plan_type: Option<Seq<char>>, i: int)
    requires
        0 <= i <= 8,
        forall|j: int|
            0 <= j < i ==> !text::has_part(
                text::lower(text::trimmed(text_or_empty(plan_type))),
                #[trigger] kinds_in_order()[j],
            ),
    ensures
        ({
            let name = text::lower(text::trimmed(text_or_empty(plan_type)));
            &&& name.len() == 0 ==> plan_key(plan_type) == "free"@
            &&& name.len() > 0 && i < 8 && text::has_part(name, kinds_in_order()[i]) ==> plan_key(
                plan_type,
            ) == kinds_in_order()[i]
            &&& name.len() > 0 && i == 8 ==> plan_key(plan_type) == name
        }),
{
    let name = text::lower(text::trimmed(text_or_empty(plan_type)));
    let kinds = kinds_in_order();
    assert(i > 0 ==> !text::has_part(name, kinds[0]));
    assert(i > 1 ==> !text::has_part(name, kinds[1]));
    assert(i > 2 ==> !text::has_part(name, kinds[2]));
    assert(i > 3 ==> !text::has_part(name, kinds[3]));
    assert(i > 4 ==> !text::has_part(name, kinds[4]));
    assert(i > 5 ==> !text::has_part(name, kinds[5]));
    assert(i > 6 ==> !text::has_part(name, kinds[6]));
    assert(i > 7 ==> !text::has_part(name, kinds[7]));
}

/// The known kinds of plans, from the lowest to the highest.
pub open spec fn plan_ladder() -> Seq<Seq<char>> {
    seq![
        "free"@,
        "go"@,
        "plus"@,
        "pro"@,
        "edu"@,
        "team"@,
        "business"@,
        "enterprise"@,
    ]
}

proof fn lemma_kinds_differ()
    ensures
        "enterprise"@.len() == 10,
        "business"@.len() == 8,
        "team"@.len() == 4,
        "edu"@.len() == 3,
        "pro"@.len() == 3,
        "plus"@.len() == 4,
        "go"@.len() == 2,
        "free"@.len() == 4,
        "team"@ != "plus"@,
        "team"@ != "free"@,
        "plus"@ != "free"@,
        "edu"@ != "pro"@,
        "promax"@ != "prolite"@,
{
    reveal_strlit("enterprise");
    reveal_strlit("business");
    reveal_strlit("team");
    reveal_strlit("edu");
    reveal_strlit("pro");
    reveal_strlit("plus");
    reveal_strlit("go");
    reveal_strlit("free");
    reveal_strlit("promax");
    reveal_strlit("prolite");
    assert("team"@[0] == 't');
    assert("plus"@[0] == 'p');
    assert("free"@[0] == 'f');
    assert("edu"@[0] == 'e');
    assert("pro"@[0] == 'p');
    assert("promax"@.len() != "prolite"@.len());
}

/// A plan of a higher kind ranks above one of a lower kind; of professional plans, the largest
/// ranks above the plain one, and that above the smallest. Other plans have no rank.
pub proof fn plans_rank_by_their_kind(a: CodexAccount, b: CodexAccount, i: int, j: int)
    requires
        0 <= i < 8,
        0 <= j < 8,
    ensures
        ({
            let x = plan_key(text::opt_text(a.plan_type));
            let y = plan_key(text::opt_text(b.plan_type));
            &&& x == plan_ladder()[i] && y == plan_ladder()[j] ==> {
                &&& plan_rank(a) is Some
                &&& plan_rank(b) is Some
                &&& i < j ==> plan_rank(a)->0 < plan_rank(b)->0
                &&& i == j && i != 3 ==> plan_rank(a) == plan_rank(b)
            }
            &&& x == "pro"@ && y == "pro"@ ==> {
                let v = account_variant(a);
                let w = account_variant(b);
                &&& v == w ==> plan_rank(a) == plan_rank(b)
                &&& v == Some("promax"@) && w is None ==> plan_rank(a)->0 > plan_rank(b)->0
                &&& v is None && w == Some("prolite"@) ==> plan_rank(a)->0 > plan_rank(b)->0
            }
            &&& !plan_ladder().contains(x) ==> plan_rank(a) is None
        }),
{
    lemma_kinds_differ();
    let ladder = plan_ladder();
    let x = plan_key(text::opt_text(a.plan_type));
    assert(ladder[0] == "free"@ && ladder[1] == "go"@ && ladder[2] == "plus"@ && ladder[3]
        == "pro"@ && ladder[4] == "edu"@ && ladder[5] == "team"@ && ladder[6] == "business"@
        && ladder[7] == "enterprise"@);
    if !ladder.contains(x) {
        assert(x != ladder[0] && x != ladder[1] && x != ladder[2] && x != ladder[3] && x
            != ladder[4] && x != ladder[5] && x != ladder[6] && x != ladder[7]);
    }
}

/// What the auth file states of a professional plan counts before what the plan states.
pub proof fn auth_files_count_first(account: CodexAccount)
    ensures
        pro_variant(text::opt_text(account.auth_file_plan_type)) is Some ==> account_variant(
            account,
        ) == pro_variant(text::opt_text(account.auth_file_plan_type)),
        pro_variant(text::opt_text(account.auth_file_plan_type)) is None ==> account_variant(
            account,
        ) == pro_variant(text::opt_text(account.plan_type)),
{
}

/// What is left in a window: its percentage, not below 0 and not above 100.
pub open spec fn is_left(percentage: i32, left: int) -> bool {
    &&& 0 <= left <= 100
    &&& 0 <= percentage <= 100 ==> left == percentage
    &&& percentage < 0 ==> left == 0
    &&& percentage > 100 ==> left == 100
}

/// An account has left what the scarcer of its windows has left; a window that is marked as
/// absent does not count, and without any window nothing is known.
pub proof fn scarcer_window_counts(account: CodexAccount)
    ensures
        account.quota is None ==> quota_left(account) is None,
        account.quota matches Some(quota) ==> {
            let hourly = quota.hourly_window_present != Some(false);
            let weekly = quota.weekly_window_present != Some(false);
            let left = quota_left(account);
            &&& left is None <==> !hourly && !weekly
            &&& hourly && !weekly ==> is_left(quota.hourly_percentage, left->0 as int)
            &&& !hourly && weekly ==> is_left(quota.weekly_percentage, left->0 as int)
            &&& hourly && weekly ==> {
                &&& quota.hourly_percentage <= quota.weekly_percentage ==> is_left(
                    quota.hourly_percentage,
                    left->0 as int,
                )
                &&& quota.weekly_percentage <= quota.hourly_percentage ==> is_left(
                    quota.weekly_percentage,
                    left->0 as int,
                )
            }
        },
{
}

/// An account that signs in with an API key never serves the gateway. Any other does, except
/// that a plan that mentions `free`, in any case, can be kept out.
pub proof fn who_may_serve(account: CodexAccount, restrict_free_accounts: bool, plan: Seq<char>)
    ensures
        account.auth_mode is ApiKey ==> !eligible(account, restrict_free_accounts),
        account.auth_mode !is ApiKey ==> eligible(account, false),
        account.auth_mode !is ApiKey && account.plan_type is None ==> eligible(
            account,
            restrict_free_accounts,
        ),
        account.auth_mode !is ApiKey && text::opt_text(account.plan_type) == Some(plan)
            ==> eligible(account, true) == !(exists|i: int|
            0 <= i && i + 4 <= text::trimmed(plan).len() && #[trigger] text::lower(
                text::trimmed(plan),
            ).subrange(i, i + 4) == "free"@),
{
    reveal_strlit("free");
    let name = text::lower(text::trimmed(plan));
    if text::has_part(name, "free"@) {
        let i = choose|i: int| text::occurs_at(name, "free"@, i);
        assert(name.subrange(i, i + 4) == "free"@);
    }
    if exists|i: int|
        0 <= i && i + 4 <= text::trimmed(plan).len() && #[trigger] name.subrange(i, i + 4)
            == "free"@ {
        let i = choose|i: int|
            0 <= i && i + 4 <= text::trimmed(plan).len() && #[trigger] name.subrange(i, i + 4)
                == "free"@;
        assert(text::occurs_at(name, "free"@, i));
    }
}

/// The upstream is told the account's own id where that is not blank, else the one in its
/// token.
pub proof fn own_ids_count_first(id: Seq<char>, token_id: Option<Seq<char>>)
    ensures
        text::trimmed(id).len() > 0 ==> upstream_account_id(Some(id), token_id) == Some(id),
        text::trimmed(id).len() == 0 ==> upstream_account_id(Some(id), token_id) == token_id,
        upstream_account_id(None, token_id) == token_id,
{
}

/// New tokens can be had exactly for an account that exists and has a refresh token that is not
/// blank; that token is used, as it stands.
pub proof fn refreshing_needs_a_token(account: CodexAccount, id: Seq<char>, token: Seq<char>)
    ensures
        refresh_tokens(None, id) is Err,
        account.tokens.refresh_token is None ==> refresh_tokens(Some(account), id) is Err,
        text::opt_text(account.tokens.refresh_token) == Some(token) ==> (if text::trimmed(
            token,
        ).len() > 0 {
            refresh_tokens(Some(account), id) == Ok::<(Seq<char>, Seq<char>), Seq<char>>(
                (token, account.tokens.id_token@),
            )
        } else {
            refresh_tokens(Some(account), id) is Err
        }),
{
}

/// The smaller and the larger professional plan are known by their names, in any case, whether
/// they are written in one word or in two.
pub proof fn variants_are_known_by_name(plan: Seq<char>)
    ensures
        ({
            let name = text::lower(text::trimmed(plan));
            &&& name == "prolite"@ || name == "pro-lite"@ || name == "pro_lite"@ || name
                == "pro lite"@ ==> pro_variant(Some(plan)) == Some("prolite"@)
            &&& name == "promax"@ || name == "pro-max"@ || name == "pro_max"@ || name == "pro max"@
                ==> pro_variant(Some(plan)) == Some("promax"@)
            &&& name.len() > 8 || name.len() < 6 ==> pro_variant(Some(plan)) is None
        }),
        pro_variant(None) is None,
{
    reveal_strlit("prolite");
    reveal_strlit("pro-lite");
    reveal_strlit("pro_lite");
    reveal_strlit("pro lite");
    reveal_strlit("promax");
    reveal_strlit("pro-max");
    reveal_strlit("pro_max");
    reveal_strlit("pro max");
    let name = text::lower(text::trimmed(plan));
    assert(dashed("prolite"@) =~= "prolite"@);
    assert(dashed("pro-lite"@) =~= "pro-lite"@);
    assert(dashed("pro_lite"@) =~= "pro-lite"@);
    assert(dashed("pro lite"@) =~= "pro-lite"@);
    assert(dashed("promax"@) =~= "promax"@);
    assert(dashed("pro-max"@) =~= "pro-max"@);
    assert(dashed("pro_max"@) =~= "pro-max"@);
    assert(dashed("pro max"@) =~= "pro-max"@);
    assert("pro-max"@ != "prolite"@) by {
        assert("pro-max"@[3] == '-');
        assert("prolite"@[3] == 'l');
    }
}

} // verus!
