//! Usage statistics: in total, by account, and over the last day, week and month.

use vstd::prelude::*;
use crate::clock;
use crate::sort;
use crate::text;
use crate::usage;
use crate::usage::UsageCapture;

verus! {

/// How many usage events are kept.
pub const MAX_RECENT_USAGE_EVENTS: usize = 5_000;

/// What requests have used.
#[derive(Debug, Clone, Copy, PartialEq, Eq, Structural)]
pub struct CodexLocalAccessUsageStats {
    pub request_count: u64,
    pub success_count: u64,
    pub failure_count: u64,
    pub total_latency_ms: u64,
    pub input_tokens: u64,
    pub output_tokens: u64,
    pub total_tokens: u64,
    pub cached_tokens: u64,
    pub reasoning_tokens: u64,
}

/// What the requests of one account have used.
#[derive(Debug)]
pub struct CodexLocalAccessAccountStats {
    pub account_id: String,
    pub email: String,
    pub usage: CodexLocalAccessUsageStats,
    pub updated_at: i64,
}

/// What the requests since some point in time have used.
#[derive(Debug)]
pub struct CodexLocalAccessStatsWindow {
    pub since: i64,
    pub updated_at: i64,
    pub totals: CodexLocalAccessUsageStats,
    pub accounts: Vec<CodexLocalAccessAccountStats>,
}

/// One request.
#[derive(Debug)]
pub struct CodexLocalAccessUsageEvent {
    pub timestamp: i64,
    pub account_id: String,
    pub email: String,
    pub success: bool,
    pub latency_ms: u64,
    pub input_tokens: u64,
    pub output_tokens: u64,
    pub total_tokens: u64,
    pub cached_tokens: u64,
    pub reasoning_tokens: u64,
}

/// All statistics.
#[derive(Debug)]
pub struct CodexLocalAccessStats {
    pub since: i64,
    pub updated_at: i64,
    pub totals: CodexLocalAccessUsageStats,
    pub accounts: Vec<CodexLocalAccessAccountStats>,
    pub daily: CodexLocalAccessStatsWindow,
    pub weekly: CodexLocalAccessStatsWindow,
    pub monthly: CodexLocalAccessStatsWindow,
    pub events: Vec<CodexLocalAccessUsageEvent>,
}

// ---------------------------------------------------------------------------------------
// Model
// ---------------------------------------------------------------------------------------

/// What the requests of one account have used, as a mathematical value.
pub struct AccountUsage {
    pub id: Seq<char>,
    pub email: Seq<char>,
    pub usage: CodexLocalAccessUsageStats,
    pub updated_at: i64,
}

/// A window as a mathematical value.
pub struct Window {
    pub since: i64,
    pub updated_at: i64,
    pub totals: CodexLocalAccessUsageStats,
    pub accounts: Seq<AccountUsage>,
}

/// One request as a mathematical value.
pub struct Event {
    pub timestamp: i64,
    pub id: Seq<char>,
    pub email: Seq<char>,
    pub success: bool,
    pub latency_ms: u64,
    pub usage: UsageCapture,
}

/// All statistics as a mathematical value.
pub struct Stats {
    pub since: i64,
    pub updated_at: i64,
    pub totals: CodexLocalAccessUsageStats,
    pub accounts: Seq<AccountUsage>,
    pub daily: Window,
    pub weekly: Window,
    pub monthly: Window,
    pub events: Seq<Event>,
}

impl View for CodexLocalAccessAccountStats {
    type V = AccountUsage;

    open spec fn view(&self) -> AccountUsage {
        AccountUsage {
            id: self.account_id@,
            email: self.email@,
            usage: self.usage,
            updated_at: self.updated_at,
        }
    }
}

/// Accounts as mathematical values.
pub open spec fn account_views(accounts: Seq<CodexLocalAccessAccountStats>) -> Seq<AccountUsage> {
    accounts.map_values(|a: CodexLocalAccessAccountStats| a@)
}

impl View for CodexLocalAccessStatsWindow {
    type V = Window;

    open spec fn view(&self) -> Window {
        Window {
            since: self.since,
            updated_at: self.updated_at,
            totals: self.totals,
            accounts: account_views(self.accounts@),
        }
    }
}

impl View for CodexLocalAccessUsageEvent {
    type V = Event;

    open spec fn view(&self) -> Event {
        Event {
            timestamp: self.timestamp,
            id: self.account_id@,
            email: self.email@,
            success: self.success,
            latency_ms: self.latency_ms,
            usage: UsageCapture {
                input_tokens: self.input_tokens,
                output_tokens: self.output_tokens,
                total_tokens: self.total_tokens,
                cached_tokens: self.cached_tokens,
                reasoning_tokens: self.reasoning_tokens,
            },
        }
    }
}

/// Events as mathematical values.
pub open spec fn event_views(events: Seq<CodexLocalAccessUsageEvent>) -> Seq<Event> {
    events.map_values(|e: CodexLocalAccessUsageEvent| e@)
}

impl View for CodexLocalAccessStats {
    type V = Stats;

    open spec fn view(&self) -> Stats {
        Stats {
            since: self.since,
            updated_at: self.updated_at,
            totals: self.totals,
            accounts: account_views(self.accounts@),
            daily: self.daily@,
            weekly: self.weekly@,
            monthly: self.monthly@,
            events: event_views(self.events@),
        }
    }
}

/// Nothing used.
pub open spec fn nothing_used() -> CodexLocalAccessUsageStats {
    CodexLocalAccessUsageStats {
        request_count: 0,
        success_count: 0,
        failure_count: 0,
        total_latency_ms: 0,
        input_tokens: 0,
        output_tokens: 0,
        total_tokens: 0,
        cached_tokens: 0,
        reasoning_tokens: 0,
    }
}

impl Default for CodexLocalAccessUsageStats {
    fn default() -> (stats: Self)
        ensures
            stats == nothing_used(),
    {
        CodexLocalAccessUsageStats {
            request_count: 0,
            success_count: 0,
            failure_count: 0,
            total_latency_ms: 0,
            input_tokens: 0,
            output_tokens: 0,
            total_tokens: 0,
            cached_tokens: 0,
            reasoning_tokens: 0,
        }
    }
}

impl Clone for CodexLocalAccessAccountStats {
    fn clone(&self) -> (copy: Self)
        ensures
            copy == *self,
    {
        CodexLocalAccessAccountStats {
            account_id: self.account_id.clone(),
            email: self.email.clone(),
            usage: self.usage,
            updated_at: self.updated_at,
        }
    }
}

fn copy_accounts(accounts: &[CodexLocalAccessAccountStats]) -> (copy: Vec<
    CodexLocalAccessAccountStats,
>)
    ensures
        copy@ == accounts@,
{
    let mut copy: Vec<CodexLocalAccessAccountStats> = Vec::new();
    let mut i: usize = 0;
    while i < accounts.len()
        invariant
            i <= accounts@.len(),
            copy@ == accounts@.take(i as int),
        decreases accounts@.len() - i,
    {
        copy.push(accounts[i].clone());
        i += 1;
        assert(copy@ =~= accounts@.take(i as int));
    }
    assert(copy@ =~= accounts@);
    copy
}

impl Clone for CodexLocalAccessStatsWindow {
    fn clone(&self) -> (copy: Self)
        ensures
            copy@ == self@,
    {
        CodexLocalAccessStatsWindow {
            since: self.since,
            updated_at: self.updated_at,
            totals: self.totals,
            accounts: copy_accounts(self.accounts.as_slice()),
        }
    }
}

impl Clone for CodexLocalAccessUsageEvent {
    fn clone(&self) -> (copy: Self)
        ensures
            copy == *self,
    {
        CodexLocalAccessUsageEvent {
            timestamp: self.timestamp,
            account_id: self.account_id.clone(),
            email: self.email.clone(),
            success: self.success,
            latency_ms: self.latency_ms,
            input_tokens: self.input_tokens,
            output_tokens: self.output_tokens,
            total_tokens: self.total_tokens,
            cached_tokens: self.cached_tokens,
            reasoning_tokens: self.reasoning_tokens,
        }
    }
}

impl CodexLocalAccessStats {
    /// A copy that holds no events.
    pub fn without_events(&self) -> (copy: CodexLocalAccessStats)
        ensures
            copy@ == (Stats { events: Seq::empty(), ..self@ }),
    {
        let copy = CodexLocalAccessStats {
            since: self.since,
            updated_at: self.updated_at,
            totals: self.totals,
            accounts: copy_accounts(self.accounts.as_slice()),
            daily: self.daily.clone(),
            weekly: self.weekly.clone(),
            monthly: self.monthly.clone(),
            events: Vec::new(),
        };
        assert(copy@.events =~= Seq::empty());
        copy
    }
}

impl Clone for CodexLocalAccessStats {
    fn clone(&self) -> (copy: Self)
        ensures
            copy@ == self@,
    {
        let mut events: Vec<CodexLocalAccessUsageEvent> = Vec::new();
        let mut i: usize = 0;
        while i < self.events.len()
            invariant
                i <= self.events@.len(),
                events@ == self.events@.take(i as int),
            decreases self.events@.len() - i,
        {
            events.push(self.events[i].clone());
            i += 1;
            assert(events@ =~= self.events@.take(i as int));
        }
        assert(events@ =~= self.events@);
        let mut copy = self.without_events();
        copy.events = events;
        copy
    }
}

/// Statistics before any date is known.
pub open spec fn undated_stats() -> Stats {
    Stats {
        since: 0,
        updated_at: 0,
        totals: nothing_used(),
        accounts: Seq::empty(),
        daily: empty_window(0, 0),
        weekly: empty_window(0, 0),
        monthly: empty_window(0, 0),
        events: Seq::empty(),
    }
}

impl Default for CodexLocalAccessStats {
    fn default() -> (stats: Self)
        ensures
            stats@ == undated_stats(),
    {
        let stats = CodexLocalAccessStats {
            since: 0,
            updated_at: 0,
            totals: CodexLocalAccessUsageStats::default(),
            accounts: Vec::new(),
            daily: empty_stats_window(0, 0),
            weekly: empty_stats_window(0, 0),
            monthly: empty_stats_window(0, 0),
            events: Vec::new(),
        };
        assert(stats@.accounts =~= Seq::empty());
        assert(stats@.events =~= Seq::empty());
        stats
    }
}

// ---------------------------------------------------------------------------------------
// One request
// ---------------------------------------------------------------------------------------

/// What has been used after one more request. Counts stay at the largest `u64` once they
/// have reached it.
pub open spec fn with_request(
    stats: CodexLocalAccessUsageStats,
    success: bool,
    latency_ms: u64,
    used: UsageCapture,
) -> CodexLocalAccessUsageStats {
    CodexLocalAccessUsageStats {
        request_count: usage::capped_sum(stats.request_count, 1),
        success_count: if success {
            usage::capped_sum(stats.success_count, 1)
        } else {
            stats.success_count
        },
        failure_count: if success {
            stats.failure_count
        } else {
            usage::capped_sum(stats.failure_count, 1)
        },
        total_latency_ms: usage::capped_sum(stats.total_latency_ms, latency_ms),
        input_tokens: usage::capped_sum(stats.input_tokens, used.input_tokens),
        output_tokens: usage::capped_sum(stats.output_tokens, used.output_tokens),
        total_tokens: usage::capped_sum(stats.total_tokens, used.total_tokens),
        cached_tokens: usage::capped_sum(stats.cached_tokens, used.cached_tokens),
        reasoning_tokens: usage::capped_sum(stats.reasoning_tokens, used.reasoning_tokens),
    }
}

/// The usage of a request, none where it is unknown.
pub open spec fn usage_or_none(used: Option<&UsageCapture>) -> UsageCapture {
    match used {
        Some(u) => *u,
        None => usage::no_usage(),
    }
}

/// Counts one more request.
pub fn apply_usage_stats(
    target: &mut CodexLocalAccessUsageStats,
    success: bool,
    latency_ms: u64,
    usage: Option<&UsageCapture>,
)
    ensures
        *final(target) == with_request(*old(target), success, latency_ms, usage_or_none(usage)),
{
    target.request_count = target.request_count.saturating_add(1);
    if success {
        target.success_count = target.success_count.saturating_add(1);
    } else {
        target.failure_count = target.failure_count.saturating_add(1);
    }
    target.total_latency_ms = target.total_latency_ms.saturating_add(latency_ms);
    if let Some(used) = usage {
        target.input_tokens = target.input_tokens.saturating_add(used.input_tokens);
        target.output_tokens = target.output_tokens.saturating_add(used.output_tokens);
        target.total_tokens = target.total_tokens.saturating_add(used.total_tokens);
        target.cached_tokens = target.cached_tokens.saturating_add(used.cached_tokens);
        target.reasoning_tokens = target.reasoning_tokens.saturating_add(used.reasoning_tokens);
    }
}

/// Every request is counted as a success or as a failure, never as both.
pub proof fn requests_succeed_or_fail(
    stats: CodexLocalAccessUsageStats,
    success: bool,
    latency_ms: u64,
    used: UsageCapture,
)
    requires
        stats.success_count + stats.failure_count == stats.request_count,
        stats.request_count < u64::MAX,
    ensures
        ({
            let next = with_request(stats, success, latency_ms, used);
            &&& next.success_count + next.failure_count == next.request_count
            &&& next.request_count == stats.request_count + 1
        }),
{
}

/// The first place at which the account with id `id` stands; the length if it stands
/// nowhere.
pub open spec fn account_place(accounts: Seq<AccountUsage>, id: Seq<char>) -> int
    decreases accounts.len(),
{
    if accounts.len() == 0 || accounts[0].id == id {
        0
    } else {
        1 + account_place(accounts.drop_first(), id)
    }
}

proof fn lemma_account_place(accounts: Seq<AccountUsage>, id: Seq<char>, k: int)
    requires
        0 <= k <= accounts.len(),
        forall|j: int| 0 <= j < k ==> (#[trigger] accounts[j]).id != id,
        k < accounts.len() ==> accounts[k].id == id,
    ensures
        account_place(accounts, id) == k,
    decreases accounts.len(),
{
    if k > 0 {
        assert(accounts[0].id != id);
        assert forall|j: int| 0 <= j < k - 1 implies (#[trigger] accounts.drop_first()[j]).id
            != id by {
            assert(accounts[j + 1].id != id);
        }
        lemma_account_place(accounts.drop_first(), id, k - 1);
    }
}

proof fn lemma_account_place_range(accounts: Seq<AccountUsage>, id: Seq<char>)
    ensures
        0 <= account_place(accounts, id) <= accounts.len(),
        account_place(accounts, id) < accounts.len() ==> accounts[account_place(accounts, id)].id
            == id,
        forall|j: int|
            0 <= j < account_place(accounts, id) ==> (#[trigger] accounts[j]).id != id,
    decreases accounts.len(),
{
    if accounts.len() > 0 && accounts[0].id != id {
        lemma_account_place_range(accounts.drop_first(), id);
        assert forall|j: int| 0 <= j < account_place(accounts, id) implies (
        #[trigger] accounts[j]).id != id by {
            if j > 0 {
                assert(accounts.drop_first()[j - 1].id != id);
            }
        }
    }
}

/// The accounts after one more request of the account with id `id`: it is added if it is
/// new, and keeps its email if the request brings none.
pub open spec fn with_account_request(
    accounts: Seq<AccountUsage>,
    id: Seq<char>,
    email: Seq<char>,
    success: bool,
    latency_ms: u64,
    used: UsageCapture,
    at: i64,
) -> Seq<AccountUsage> {
    let k = account_place(accounts, id);
    if k < accounts.len() {
        accounts.update(
            k,
            AccountUsage {
                id,
                email: if email.len() > 0 {
                    email
                } else {
                    accounts[k].email
                },
                usage: with_request(accounts[k].usage, success, latency_ms, used),
                updated_at: at,
            },
        )
    } else {
        accounts.push(
            AccountUsage {
                id,
                email,
                usage: with_request(nothing_used(), success, latency_ms, used),
                updated_at: at,
            },
        )
    }
}

/// An optional text trimmed, empty if there is none.
pub open spec fn trimmed_or_empty(content: Option<Seq<char>>) -> Seq<char> {
    match content {
        Some(t) => text::trimmed(t),
        None => Seq::empty(),
    }
}

/// The accounts after one more request: without an account id, they stay as they are.
pub open spec fn upserted(
    accounts: Seq<AccountUsage>,
    id: Option<Seq<char>>,
    email: Option<Seq<char>>,
    success: bool,
    latency_ms: u64,
    used: UsageCapture,
    at: i64,
) -> Seq<AccountUsage> {
    if trimmed_or_empty(id).len() == 0 {
        accounts
    } else {
        with_account_request(
            accounts,
            trimmed_or_empty(id),
            trimmed_or_empty(email),
            success,
            latency_ms,
            used,
            at,
        )
    }
}

fn trim_or_empty(content: Option<&str>) -> (inner: String)
    ensures
        inner@ == trimmed_or_empty(text::opt_str(content)),
{
    match content {
        Some(t) => text::trim(t),
        None => String::new(),
    }
}

/// Counts one more request of an account.
pub fn upsert_account_usage_stats(
    accounts: &mut Vec<CodexLocalAccessAccountStats>,
    account_id: Option<&str>,
    account_email: Option<&str>,
    success: bool,
    latency_ms: u64,
    usage: Option<&UsageCapture>,
    updated_at: i64,
)
    ensures
        account_views(final(accounts)@) == upserted(
            account_views(old(accounts)@),
            text::opt_str(account_id),
            text::opt_str(account_email),
            success,
            latency_ms,
            usage_or_none(usage),
            updated_at,
        ),
{
    let id = trim_or_empty(account_id);
    if id.as_str().is_empty() {
        return ;
    }
    let email = trim_or_empty(account_email);
    let ghost before = account_views(accounts@);
    let mut i: usize = 0;
    while i < accounts.len()
        invariant
            i <= accounts@.len(),
            before == account_views(accounts@),
            before == account_views(old(accounts)@),
            id@ == trimmed_or_empty(text::opt_str(account_id)),
            id@.len() > 0,
            email@ == trimmed_or_empty(text::opt_str(account_email)),
            forall|j: int| 0 <= j < i ==> (#[trigger] before[j]).id != id@,
        decreases accounts@.len() - i,
    {
        assert(before[i as int] == accounts@[i as int]@);
        if text::same(accounts[i].account_id.as_str(), id.as_str()) {
            proof {
                lemma_account_place(before, id@, i as int);
            }
            let email = if email.as_str().is_empty() {
                accounts[i].email.clone()
            } else {
                email
            };
            let mut used = accounts[i].usage;
            apply_usage_stats(&mut used, success, latency_ms, usage);
            accounts.set(
                i,
                CodexLocalAccessAccountStats { account_id: id, email, usage: used, updated_at },
            );
            assert(account_views(accounts@) =~= before.update(
                i as int,
                accounts@[i as int]@,
            ));
            return ;
        }
        i += 1;
    }
    proof {
        lemma_account_place(before, id@, i as int);
    }
    let mut used = CodexLocalAccessUsageStats::default();
    apply_usage_stats(&mut used, success, latency_ms, usage);
    let item = CodexLocalAccessAccountStats { account_id: id, email, usage: used, updated_at };
    let ghost fresh = item@;
    accounts.push(item);
    assert(account_views(accounts@) =~= before.push(fresh));
}

/// No two accounts have the same id.
pub open spec fn distinct_accounts(accounts: Seq<AccountUsage>) -> bool {
    forall|i: int, j: int|
        0 <= i < j < accounts.len() ==> (#[trigger] accounts[i]).id != (#[trigger] accounts[j]).id
}

/// Counting requests never makes two entries for one account.
pub proof fn accounts_stay_distinct(
    accounts: Seq<AccountUsage>,
    id: Option<Seq<char>>,
    email: Option<Seq<char>>,
    success: bool,
    latency_ms: u64,
    used: UsageCapture,
    at: i64,
)
    requires
        distinct_accounts(accounts),
    ensures
        distinct_accounts(upserted(accounts, id, email, success, latency_ms, used, at)),
{
    lemma_account_place_range(accounts, trimmed_or_empty(id));
}

/// Adds one request to the events.
pub fn append_usage_event(
    events: &mut Vec<CodexLocalAccessUsageEvent>,
    now: i64,
    account_id: Option<&str>,
    account_email: Option<&str>,
    success: bool,
    latency_ms: u64,
    usage: Option<&UsageCapture>,
)
    ensures
        event_views(final(events)@) == event_views(old(events)@).push(
            Event {
                timestamp: now,
                id: trimmed_or_empty(text::opt_str(account_id)),
                email: trimmed_or_empty(text::opt_str(account_email)),
                success,
                latency_ms,
                usage: usage_or_none(usage),
            },
        ),
{
    let used = match usage {
        Some(u) => *u,
        None => UsageCapture::default(),
    };
    let ghost before = events@;
    let event = CodexLocalAccessUsageEvent {
        timestamp: now,
        account_id: trim_or_empty(account_id),
        email: trim_or_empty(account_email),
        success,
        latency_ms,
        input_tokens: used.input_tokens,
        output_tokens: used.output_tokens,
        total_tokens: used.total_tokens,
        cached_tokens: used.cached_tokens,
        reasoning_tokens: used.reasoning_tokens,
    };
    let ghost fresh = event@;
    events.push(event);
    assert(event_views(events@) =~= event_views(before).push(fresh));
}

// ---------------------------------------------------------------------------------------
// Order of accounts
// ---------------------------------------------------------------------------------------

/// `a` may stand before `b`: it has more requests, or as many and is the newer one, or is as
/// new and has an id that is not behind in the dictionary.
pub open spec fn busier(a: AccountUsage, b: AccountUsage) -> bool {
    if a.usage.request_count != b.usage.request_count {
        a.usage.request_count > b.usage.request_count
    } else if a.updated_at != b.updated_at {
        a.updated_at > b.updated_at
    } else {
        text::not_behind(a.id, b.id)
    }
}

/// Accounts with many requests first.
pub open spec fn busiest_first() -> spec_fn(AccountUsage, AccountUsage) -> bool {
    |a: AccountUsage, b: AccountUsage| busier(a, b)
}

/// The accounts, those with many requests first.
pub open spec fn ranked(accounts: Seq<AccountUsage>) -> Seq<AccountUsage> {
    sort::stable_sorted(accounts, busiest_first())
}

/// Sorts the accounts, those with many requests first.
pub fn sort_usage_accounts(accounts: &mut Vec<CodexLocalAccessAccountStats>)
    ensures
        account_views(final(accounts)@) == ranked(account_views(old(accounts)@)),
{
    let mut taken: Vec<CodexLocalAccessAccountStats> = Vec::new();
    core::mem::swap(accounts, &mut taken);
    let ghost exact = |a: CodexLocalAccessAccountStats, b: CodexLocalAccessAccountStats|
        busier(a@, b@);
    let ghost f = |a: CodexLocalAccessAccountStats| a@;
    proof {
        sort::sorting_follows_map(taken@, f, exact, busiest_first());
        assert(taken@.map_values(f) =~= account_views(taken@));
    }
    let before =
        |a: &CodexLocalAccessAccountStats, b: &CodexLocalAccessAccountStats| -> (yes: bool)
        ensures
            yes == busier(a@, b@),
        {
            if a.usage.request_count != b.usage.request_count {
                a.usage.request_count > b.usage.request_count
            } else if a.updated_at != b.updated_at {
                a.updated_at > b.updated_at
            } else {
                text::in_order(a.account_id.as_str(), b.account_id.as_str())
            }
        };
    *accounts = sort::stable_sort(taken, before, Ghost(exact));
    assert(account_views(accounts@) =~= accounts@.map_values(f));
}

/// [`busiest_first`] orders any accounts.
pub proof fn ranking_is_an_order()
    ensures
        sort::total_preorder(busiest_first()),
{
    let order = busiest_first();
    assert forall|a: AccountUsage, b: AccountUsage| #[trigger] order(a, b) || order(b, a) by {
        text::dictionary_order(a.id, b.id, a.id);
    }
    assert forall|a: AccountUsage, b: AccountUsage, c: AccountUsage|
        #[trigger] order(a, b) && #[trigger] order(b, c) implies order(a, c) by {
        text::dictionary_order(a.id, b.id, c.id);
    }
}

/// Ranking puts accounts in order and neither drops nor repeats one.
pub proof fn ranking_only_reorders(accounts: Seq<AccountUsage>)
    ensures
        sort::sorted_by(ranked(accounts), busiest_first()),
        ranked(accounts).to_multiset() == accounts.to_multiset(),
        ranked(accounts).len() == accounts.len(),
        ranked(ranked(accounts)) == ranked(accounts),
{
    ranking_is_an_order();
    sort::sorting_orders_and_keeps(accounts, busiest_first());
    sort::sorting_keeps_order(ranked(accounts), busiest_first());
}

// ---------------------------------------------------------------------------------------
// Recent events
// ---------------------------------------------------------------------------------------

/// The event is dated, and not before `since`.
pub open spec fn is_recent(event: Event, since: i64) -> bool {
    event.timestamp > 0 && event.timestamp >= since
}

/// The events that are recent, as they stood.
pub open spec fn recent(events: Seq<Event>, since: i64) -> Seq<Event> {
    events.filter(|e: Event| is_recent(e, since))
}

/// Older events first.
pub open spec fn oldest_first() -> spec_fn(Event, Event) -> bool {
    |a: Event, b: Event| a.timestamp <= b.timestamp
}

/// The last `n` values.
pub open spec fn last_of<T>(s: Seq<T>, n: int) -> Seq<T> {
    if s.len() <= n {
        s
    } else {
        s.skip(s.len() - n)
    }
}

/// The events that are kept: the recent ones, in the order of time, at most
/// [`MAX_RECENT_USAGE_EVENTS`] of them.
pub open spec fn kept_events(events: Seq<Event>, since: i64) -> Seq<Event> {
    last_of(
        sort::stable_sorted(recent(events, since), oldest_first()),
        MAX_RECENT_USAGE_EVENTS as int,
    )
}

fn retain_recent(events: Vec<CodexLocalAccessUsageEvent>, since: i64) -> (kept: Vec<
    CodexLocalAccessUsageEvent,
>)
    ensures
        event_views(kept@) == recent(event_views(events@), since),
{
    let ghost source = events@;
    let ghost all = event_views(source);
    let mut kept: Vec<CodexLocalAccessUsageEvent> = Vec::new();
    proof {
        reveal(Seq::filter);
        assert(event_views(kept@) =~= recent(all.take(0), since));
    }
    for event in it: events
        invariant
            it.seq() == source,
            all == event_views(source),
            event_views(kept@) == recent(all.take(it.index() as int), since),
    {
        let ghost before = kept@;
        proof {
            reveal(Seq::filter);
            let next = all.take(it.index() + 1);
            assert(next.drop_last() =~= all.take(it.index() as int));
            assert(next.last() == event@);
        }
        if event.timestamp > 0 && event.timestamp >= since {
            let ghost fresh = event@;
            kept.push(event);
            assert(event_views(kept@) =~= event_views(before).push(fresh));
        }
    }
    assert(all.take(all.len() as int) =~= all);
    kept
}

/// Drops the events that are not recent, sorts the others by time, and keeps the last ones.
pub fn trim_recent_events(events: &mut Vec<CodexLocalAccessUsageEvent>, month_since: i64)
    ensures
        event_views(final(events)@) == kept_events(event_views(old(events)@), month_since),
{
    let mut taken: Vec<CodexLocalAccessUsageEvent> = Vec::new();
    core::mem::swap(events, &mut taken);
    let kept = retain_recent(taken, month_since);
    let ghost exact = |a: CodexLocalAccessUsageEvent, b: CodexLocalAccessUsageEvent|
        a.timestamp <= b.timestamp;
    let ghost f = |e: CodexLocalAccessUsageEvent| e@;
    proof {
        sort::sorting_follows_map(kept@, f, exact, oldest_first());
        assert(kept@.map_values(f) =~= event_views(kept@));
    }
    let before = |a: &CodexLocalAccessUsageEvent, b: &CodexLocalAccessUsageEvent| -> (yes: bool)
        ensures
            yes == (a.timestamp <= b.timestamp),
        { a.timestamp <= b.timestamp };
    let mut sorted = sort::stable_sort(kept, before, Ghost(exact));
    let ghost in_order = sorted@;
    assert(event_views(in_order) =~= in_order.map_values(f));
    if sorted.len() > MAX_RECENT_USAGE_EVENTS {
        let remove: usize = sorted.len() - MAX_RECENT_USAGE_EVENTS;
        *events = sorted.split_off(remove);
        assert(event_views(events@) =~= event_views(in_order).skip(remove as int));
    } else {
        *events = sorted;
    }
}

/// [`oldest_first`] orders any events.
pub proof fn time_is_an_order()
    ensures
        sort::total_preorder(oldest_first()),
{
}

proof fn lemma_recent(events: Seq<Event>, since: i64)
    ensures
        recent(events, since).len() <= events.len(),
        forall|i: int|
            0 <= i < recent(events, since).len() ==> is_recent(
                #[trigger] recent(events, since)[i],
                since,
            ),
        (forall|i: int| 0 <= i < events.len() ==> is_recent(#[trigger] events[i], since))
            ==> recent(events, since) == events,
    decreases events.len(),
{
    reveal(Seq::filter);
    if events.len() > 0 {
        lemma_recent(events.drop_last(), since);
        let shorter = events.drop_last();
        if forall|i: int| 0 <= i < events.len() ==> is_recent(#[trigger] events[i], since) {
            assert forall|i: int| 0 <= i < shorter.len() implies is_recent(
                #[trigger] shorter[i],
                since,
            ) by {
                assert(is_recent(events[i], since));
            }
            assert(is_recent(events[events.len() - 1], since));
            assert(shorter.push(events.last()) =~= events);
        }
    } else {
        assert(recent(events, since) =~= events);
    }
}

/// The kept events are recent, in the order of time, and not too many; keeping them once
/// more changes nothing.
pub proof fn kept_events_stay(events: Seq<Event>, since: i64)
    ensures
        kept_events(events, since).len() <= MAX_RECENT_USAGE_EVENTS,
        sort::sorted_by(kept_events(events, since), oldest_first()),
        forall|i: int|
            0 <= i < kept_events(events, since).len() ==> is_recent(
                #[trigger] kept_events(events, since)[i],
                since,
            ),
        kept_events(kept_events(events, since), since) == kept_events(events, since),
{
    broadcast use vstd::seq_lib::group_to_multiset_ensures;

    let chosen = recent(events, since);
    let order = oldest_first();
    let sorted = sort::stable_sorted(chosen, order);
    let kept = kept_events(events, since);
    lemma_recent(events, since);
    time_is_an_order();
    sort::sorting_orders_and_keeps(chosen, order);
    assert forall|i: int| 0 <= i < sorted.len() implies is_recent(#[trigger] sorted[i], since) by {
        assert(sorted.to_multiset().count(sorted[i]) > 0);
        assert(chosen.contains(sorted[i]));
    }
    let cut = sorted.len() - kept.len();
    assert forall|i: int, j: int| 0 <= i < j < kept.len() implies #[trigger] order(
        kept[i],
        kept[j],
    ) by {
        assert(order(sorted[i + cut], sorted[j + cut]));
    }
    assert forall|i: int| 0 <= i < kept.len() implies is_recent(#[trigger] kept[i], since) by {
        assert(is_recent(sorted[i + cut], since));
    }
    lemma_recent(kept, since);
    sort::sorting_keeps_order(kept, order);
}

// ---------------------------------------------------------------------------------------
// Windows
// ---------------------------------------------------------------------------------------

/// A window that counts nothing yet.
pub open spec fn empty_window(since: i64, updated_at: i64) -> Window {
    Window { since, updated_at, totals: nothing_used(), accounts: Seq::empty() }
}

/// A window that counts nothing yet.
pub fn empty_stats_window(since: i64, updated_at: i64) -> (window: CodexLocalAccessStatsWindow)
    ensures
        window@ == empty_window(since, updated_at),
{
    let window = CodexLocalAccessStatsWindow {
        since,
        updated_at,
        totals: CodexLocalAccessUsageStats::default(),
        accounts: Vec::new(),
    };
    assert(window@.accounts =~= Seq::empty());
    window
}

/// The window after it has counted one more event.
pub open spec fn with_event(window: Window, event: Event) -> Window {
    Window {
        since: window.since,
        updated_at: clock::later_of(window.updated_at, event.timestamp),
        totals: with_request(window.totals, event.success, event.latency_ms, event.usage),
        accounts: upserted(
            window.accounts,
            Some(event.id),
            Some(event.email),
            event.success,
            event.latency_ms,
            event.usage,
            event.timestamp,
        ),
    }
}

/// Counts one more event.
pub fn apply_usage_event_to_window(
    window: &mut CodexLocalAccessStatsWindow,
    event: &CodexLocalAccessUsageEvent,
)
    ensures
        final(window)@ == with_event(old(window)@, event@),
{
    let used = UsageCapture {
        input_tokens: event.input_tokens,
        output_tokens: event.output_tokens,
        total_tokens: event.total_tokens,
        cached_tokens: event.cached_tokens,
        reasoning_tokens: event.reasoning_tokens,
    };
    apply_usage_stats(&mut window.totals, event.success, event.latency_ms, Some(&used));
    upsert_account_usage_stats(
        &mut window.accounts,
        Some(event.account_id.as_str()),
        Some(event.email.as_str()),
        event.success,
        event.latency_ms,
        Some(&used),
        event.timestamp,
    );
    window.updated_at = clock::later(window.updated_at, event.timestamp);
}

/// The window after it has counted, one after the other, the events that are not before its
/// beginning.
pub open spec fn counted(window: Window, events: Seq<Event>) -> Window
    decreases events.len(),
{
    if events.len() == 0 {
        window
    } else {
        let earlier = counted(window, events.drop_last());
        if events.last().timestamp >= window.since {
            with_event(earlier, events.last())
        } else {
            earlier
        }
    }
}

/// The window that reaches back `span` milliseconds from `now`, busy accounts first.
pub open spec fn time_window(events: Seq<Event>, span: i64, updated_at: i64, now: i64) -> Window {
    let since = clock::capped(now - span);
    let window = counted(empty_window(since, clock::later_of(updated_at, since)), events);
    Window { accounts: ranked(window.accounts), ..window }
}

/// The statistics with events trimmed and all windows counted anew.
pub open spec fn recomputed(stats: Stats, now: i64) -> Stats {
    let events = kept_events(stats.events, clock::capped(now - clock::MONTH_WINDOW_MS));
    Stats {
        daily: time_window(events, clock::DAY_WINDOW_MS, stats.updated_at, now),
        weekly: time_window(events, clock::WEEK_WINDOW_MS, stats.updated_at, now),
        monthly: time_window(events, clock::MONTH_WINDOW_MS, stats.updated_at, now),
        events,
        ..stats
    }
}

/// Trims the events and counts the windows that end at `now` anew.
pub fn recompute_time_windows(stats: &mut CodexLocalAccessStats, now: i64)
    ensures
        final(stats)@ == recomputed(old(stats)@, now),
{
    let day_since = clock::saturating_sub(now, clock::DAY_WINDOW_MS);
    let week_since = clock::saturating_sub(now, clock::WEEK_WINDOW_MS);
    let month_since = clock::saturating_sub(now, clock::MONTH_WINDOW_MS);
    trim_recent_events(&mut stats.events, month_since);
    let mut daily = empty_stats_window(day_since, clock::later(stats.updated_at, day_since));
    let mut weekly = empty_stats_window(week_since, clock::later(stats.updated_at, week_since));
    let mut monthly = empty_stats_window(month_since, clock::later(stats.updated_at, month_since));
    let ghost events = event_views(stats.events@);
    let ghost first_daily = daily@;
    let ghost first_weekly = weekly@;
    let ghost first_monthly = monthly@;
    proof {
        assert(events.take(0) =~= Seq::empty());
    }
    let mut i: usize = 0;
    while i < stats.events.len()
        invariant
            i <= stats.events@.len(),
            events == event_views(stats.events@),
            first_daily.since == day_since,
            first_weekly.since == week_since,
            first_monthly.since == month_since,
            daily@ == counted(first_daily, events.take(i as int)),
            weekly@ == counted(first_weekly, events.take(i as int)),
            monthly@ == counted(first_monthly, events.take(i as int)),
        decreases stats.events@.len() - i,
    {
        proof {
            let next = events.take(i + 1);
            assert(next.drop_last() =~= events.take(i as int));
            assert(next.last() == stats.events@[i as int]@);
        }
        let event = &stats.events[i];
        if event.timestamp >= month_since {
            apply_usage_event_to_window(&mut monthly, event);
        }
        if event.timestamp >= week_since {
            apply_usage_event_to_window(&mut weekly, event);
        }
        if event.timestamp >= day_since {
            apply_usage_event_to_window(&mut daily, event);
        }
        i += 1;
    }
    assert(events.take(events.len() as int) =~= events);
    sort_usage_accounts(&mut daily.accounts);
    sort_usage_accounts(&mut weekly.accounts);
    sort_usage_accounts(&mut monthly.accounts);
    stats.daily = daily;
    stats.weekly = weekly;
    stats.monthly = monthly;
}

// ---------------------------------------------------------------------------------------
// All statistics
// ---------------------------------------------------------------------------------------

/// Statistics that begin at `now` and count nothing yet.
pub open spec fn empty_stats(now: i64) -> Stats {
    Stats {
        since: now,
        updated_at: now,
        totals: nothing_used(),
        accounts: Seq::empty(),
        daily: empty_window(clock::capped(now - clock::DAY_WINDOW_MS), now),
        weekly: empty_window(clock::capped(now - clock::WEEK_WINDOW_MS), now),
        monthly: empty_window(clock::capped(now - clock::MONTH_WINDOW_MS), now),
        events: Seq::empty(),
    }
}

/// The window counts no request.
pub open spec fn window_counts_nothing(window: Window) -> bool {
    &&& window.totals == nothing_used()
    &&& window.accounts == Seq::<AccountUsage>::empty()
}

/// The statistics count no request, in total or in a window, and hold no event.
pub open spec fn counts_nothing(stats: Stats) -> bool {
    &&& stats.totals == nothing_used()
    &&& stats.accounts == Seq::<AccountUsage>::empty()
    &&& window_counts_nothing(stats.daily)
    &&& window_counts_nothing(stats.weekly)
    &&& window_counts_nothing(stats.monthly)
    &&& stats.events == Seq::<Event>::empty()
}

/// Statistics that begin at `now` and count nothing yet.
pub fn empty_stats_at(now: i64) -> (stats: CodexLocalAccessStats)
    ensures
        stats@ == empty_stats(now),
        counts_nothing(stats@),
{
    let day_since = clock::saturating_sub(now, clock::DAY_WINDOW_MS);
    let week_since = clock::saturating_sub(now, clock::WEEK_WINDOW_MS);
    let month_since = clock::saturating_sub(now, clock::MONTH_WINDOW_MS);
    let stats = CodexLocalAccessStats {
        since: now,
        updated_at: now,
        totals: CodexLocalAccessUsageStats::default(),
        accounts: Vec::new(),
        daily: empty_stats_window(day_since, now),
        weekly: empty_stats_window(week_since, now),
        monthly: empty_stats_window(month_since, now),
        events: Vec::new(),
    };
    assert(stats@.accounts =~= Seq::empty());
    assert(stats@.events =~= Seq::empty());
    stats
}

/// Statistics that begin now and count nothing yet.
pub fn empty_stats_snapshot() -> (stats: CodexLocalAccessStats)
    ensures
        exists|now: i64| stats@ == #[trigger] empty_stats(now),
        counts_nothing(stats@),
{
    empty_stats_at(clock::now_ms())
}

/// The statistics with missing dates filled in, accounts ranked, events trimmed and windows
/// counted anew.
pub open spec fn normalized(stats: Stats, now: i64) -> Stats {
    let since = if stats.since <= 0 {
        now
    } else {
        stats.since
    };
    recomputed(
        Stats {
            since,
            updated_at: if stats.updated_at <= 0 {
                since
            } else {
                stats.updated_at
            },
            accounts: ranked(stats.accounts),
            ..stats
        },
        now,
    )
}

/// Fills in missing dates, ranks the accounts, trims the events and counts the windows that
/// end at `now` anew.
pub fn normalize_stats_at(stats: &mut CodexLocalAccessStats, now: i64)
    ensures
        final(stats)@ == normalized(old(stats)@, now),
{
    if stats.since <= 0 {
        stats.since = now;
    }
    if stats.updated_at <= 0 {
        stats.updated_at = stats.since;
    }
    sort_usage_accounts(&mut stats.accounts);
    recompute_time_windows(stats, now);
}

/// Fills in missing dates, ranks the accounts, trims the events and counts the windows that
/// end now anew.
pub fn normalize_stats(stats: &mut CodexLocalAccessStats)
    ensures
        exists|now: i64| final(stats)@ == #[trigger] normalized(old(stats)@, now),
{
    let now = clock::now_ms();
    normalize_stats_at(stats, now);
}

/// The statistics after a request that ended at `now`, brought up to date at `then_now`.
pub open spec fn recorded(
    stats: Stats,
    id: Option<Seq<char>>,
    email: Option<Seq<char>>,
    success: bool,
    latency_ms: u64,
    used: UsageCapture,
    now: i64,
    then_now: i64,
) -> Stats {
    normalized(
        Stats {
            since: if stats.since <= 0 {
                now
            } else {
                stats.since
            },
            updated_at: now,
            totals: with_request(stats.totals, success, latency_ms, used),
            accounts: upserted(stats.accounts, id, email, success, latency_ms, used, now),
            events: stats.events.push(
                Event {
                    timestamp: now,
                    id: trimmed_or_empty(id),
                    email: trimmed_or_empty(email),
                    success,
                    latency_ms,
                    usage: used,
                },
            ),
            ..stats
        },
        then_now,
    )
}

/// Adds a request that ended at `now` and brings the statistics up to date at `then_now`.
pub fn record_request_stats_at(
    stats: &mut CodexLocalAccessStats,
    account_id: Option<&str>,
    account_email: Option<&str>,
    success: bool,
    latency_ms: u64,
    usage: Option<&UsageCapture>,
    now: i64,
    then_now: i64,
)
    ensures
        final(stats)@ == recorded(
            old(stats)@,
            text::opt_str(account_id),
            text::opt_str(account_email),
            success,
            latency_ms,
            usage_or_none(usage),
            now,
            then_now,
        ),
{
    if stats.since <= 0 {
        stats.since = now;
    }
    stats.updated_at = now;
    apply_usage_stats(&mut stats.totals, success, latency_ms, usage);
    upsert_account_usage_stats(
        &mut stats.accounts,
        account_id,
        account_email,
        success,
        latency_ms,
        usage,
        now,
    );
    append_usage_event(
        &mut stats.events,
        now,
        account_id,
        account_email,
        success,
        latency_ms,
        usage,
    );
    normalize_stats_at(stats, then_now);
}

/// Adds a request that ended just now and brings the statistics up to date.
pub fn record_request_stats(
    stats: &mut CodexLocalAccessStats,
    account_id: Option<&str>,
    account_email: Option<&str>,
    success: bool,
    latency_ms: u64,
    usage: Option<&UsageCapture>,
)
    ensures
        exists|now: i64, then_now: i64|
            final(stats)@ == #[trigger] recorded(
                old(stats)@,
                text::opt_str(account_id),
                text::opt_str(account_email),
                success,
                latency_ms,
                usage_or_none(usage),
                now,
                then_now,
            ),
{
    let now = clock::now_ms();
    let then_now = clock::now_ms();
    record_request_stats_at(
        stats,
        account_id,
        account_email,
        success,
        latency_ms,
        usage,
        now,
        then_now,
    );
}

// ---------------------------------------------------------------------------------------
// Laws of all statistics
// ---------------------------------------------------------------------------------------

/// Bringing statistics up to date twice at one time is bringing them up to date once.
pub proof fn normalizing_is_idempotent(stats: Stats, now: i64)
    ensures
        normalized(normalized(stats, now), now) == normalized(stats, now),
{
    ranking_only_reorders(stats.accounts);
    kept_events_stay(stats.events, clock::capped(now - clock::MONTH_WINDOW_MS));
}

/// Statistics that count nothing still do so once they have been brought up to date.
pub proof fn nothing_stays_nothing(stats: Stats, now: i64)
    requires
        counts_nothing(stats),
    ensures
        counts_nothing(normalized(stats, now)),
{
    ranking_only_reorders(stats.accounts);
    kept_events_stay(stats.events, clock::capped(now - clock::MONTH_WINDOW_MS));
}

/// How many of the events are not before `since`.
pub open spec fn events_since(events: Seq<Event>, since: i64) -> nat
    decreases events.len(),
{
    if events.len() == 0 {
        0
    } else {
        events_since(events.drop_last(), since) + if events.last().timestamp >= since {
            1nat
        } else {
            0nat
        }
    }
}

proof fn lemma_counted(window: Window, events: Seq<Event>)
    requires
        window.totals == nothing_used(),
        distinct_accounts(window.accounts),
        events.len() < u64::MAX,
    ensures
        counted(window, events).since == window.since,
        counted(window, events).totals.request_count == events_since(events, window.since),
        counted(window, events).totals.success_count + counted(window, events).totals.failure_count
            == counted(window, events).totals.request_count,
        events_since(events, window.since) <= events.len(),
        distinct_accounts(counted(window, events).accounts),
    decreases events.len(),
{
    if events.len() > 0 {
        lemma_counted(window, events.drop_last());
        let earlier = counted(window, events.drop_last());
        let event = events.last();
        if event.timestamp >= window.since {
            accounts_stay_distinct(
                earlier.accounts,
                Some(event.id),
                Some(event.email),
                event.success,
                event.latency_ms,
                event.usage,
                event.timestamp,
            );
        }
    }
}

proof fn lemma_events_since(events: Seq<Event>, early: i64, late: i64)
    requires
        early <= late,
    ensures
        events_since(events, late) <= events_since(events, early) <= events.len(),
        (forall|i: int| 0 <= i < events.len() ==> (#[trigger] events[i]).timestamp >= early)
            ==> events_since(events, early) == events.len(),
    decreases events.len(),
{
    if events.len() > 0 {
        let shorter = events.drop_last();
        lemma_events_since(shorter, early, late);
        if forall|i: int| 0 <= i < events.len() ==> (#[trigger] events[i]).timestamp >= early {
            assert forall|i: int| 0 <= i < shorter.len() implies (#[trigger] shorter[i]).timestamp
                >= early by {
                assert(events[i].timestamp >= early);
            }
            assert(events[events.len() - 1].timestamp >= early);
        }
    }
}

/// A window counts the events of its time, each once and each as a success or a failure. The
/// last day is part of the last week, and that is part of the last month, in which every
/// kept event lies.
pub proof fn windows_count_events(stats: Stats, now: i64)
    ensures
        ({
            let s = recomputed(stats, now);
            &&& s.daily.totals.request_count == events_since(s.events, s.daily.since)
            &&& s.weekly.totals.request_count == events_since(s.events, s.weekly.since)
            &&& s.monthly.totals.request_count == s.events.len()
            &&& s.daily.totals.request_count <= s.weekly.totals.request_count
            &&& s.weekly.totals.request_count <= s.monthly.totals.request_count
            &&& s.daily.totals.success_count + s.daily.totals.failure_count
                == s.daily.totals.request_count
            &&& s.weekly.totals.success_count + s.weekly.totals.failure_count
                == s.weekly.totals.request_count
            &&& s.monthly.totals.success_count + s.monthly.totals.failure_count
                == s.monthly.totals.request_count
        }),
{
    let month_since = clock::capped(now - clock::MONTH_WINDOW_MS);
    let week_since = clock::capped(now - clock::WEEK_WINDOW_MS);
    let day_since = clock::capped(now - clock::DAY_WINDOW_MS);
    let events = kept_events(stats.events, month_since);
    kept_events_stay(stats.events, month_since);
    lemma_counted(
        empty_window(day_since, clock::later_of(stats.updated_at, day_since)),
        events,
    );
    lemma_counted(
        empty_window(week_since, clock::later_of(stats.updated_at, week_since)),
        events,
    );
    lemma_counted(
        empty_window(month_since, clock::later_of(stats.updated_at, month_since)),
        events,
    );
    lemma_events_since(events, week_since, day_since);
    lemma_events_since(events, month_since, week_since);
    assert forall|i: int| 0 <= i < events.len() implies (#[trigger] events[i]).timestamp
        >= month_since by {
        assert(is_recent(events[i], month_since));
    }
}

/// The sum of an amount over the events that are not before `since`.
pub open spec fn sum_since(
    events: Seq<Event>,
    since: i64,
    amount: spec_fn(Event) -> u64,
) -> nat
    decreases events.len(),
{
    if events.len() == 0 {
        0
    } else {
        sum_since(events.drop_last(), since, amount) + if events.last().timestamp >= since {
            amount(events.last()) as nat
        } else {
            0nat
        }
    }
}

/// A count that stops at the largest `u64`.
pub open spec fn at_most_u64(n: nat) -> u64 {
    if n > u64::MAX {
        u64::MAX
    } else {
        n as u64
    }
}

/// The totals of a window are the sums over the events since its beginning.
pub open spec fn adds_up(window: Window, events: Seq<Event>) -> bool {
    let t = window.totals;
    let since = window.since;
    &&& t.request_count == at_most_u64(sum_since(events, since, |e: Event| 1u64))
    &&& t.success_count == at_most_u64(
        sum_since(
            events,
            since,
            |e: Event|
                if e.success {
                    1u64
                } else {
                    0u64
                },
        ),
    )
    &&& t.failure_count == at_most_u64(
        sum_since(
            events,
            since,
            |e: Event|
                if e.success {
                    0u64
                } else {
                    1u64
                },
        ),
    )
    &&& t.total_latency_ms == at_most_u64(sum_since(events, since, |e: Event| e.latency_ms))
    &&& t.input_tokens == at_most_u64(sum_since(events, since, |e: Event| e.usage.input_tokens))
    &&& t.output_tokens == at_most_u64(sum_since(events, since, |e: Event| e.usage.output_tokens))
    &&& t.total_tokens == at_most_u64(sum_since(events, since, |e: Event| e.usage.total_tokens))
    &&& t.cached_tokens == at_most_u64(sum_since(events, since, |e: Event| e.usage.cached_tokens))
    &&& t.reasoning_tokens == at_most_u64(
        sum_since(events, since, |e: Event| e.usage.reasoning_tokens),
    )
}

proof fn lemma_adds_up(window: Window, events: Seq<Event>)
    requires
        window.totals == nothing_used(),
    ensures
        counted(window, events).since == window.since,
        adds_up(counted(window, events), events),
    decreases events.len(),
{
    if events.len() > 0 {
        lemma_adds_up(window, events.drop_last());
    }
}

/// The requests, the latency and the tokens of a window are the sums over the events of its
/// time, up to the largest `u64`.
pub proof fn windows_add_up_events(stats: Stats, now: i64)
    ensures
        ({
            let s = recomputed(stats, now);
            &&& adds_up(s.daily, s.events)
            &&& adds_up(s.weekly, s.events)
            &&& adds_up(s.monthly, s.events)
        }),
{
    let month_since = clock::capped(now - clock::MONTH_WINDOW_MS);
    let week_since = clock::capped(now - clock::WEEK_WINDOW_MS);
    let day_since = clock::capped(now - clock::DAY_WINDOW_MS);
    let events = kept_events(stats.events, month_since);
    lemma_adds_up(
        empty_window(day_since, clock::later_of(stats.updated_at, day_since)),
        events,
    );
    lemma_adds_up(
        empty_window(week_since, clock::later_of(stats.updated_at, week_since)),
        events,
    );
    lemma_adds_up(
        empty_window(month_since, clock::later_of(stats.updated_at, month_since)),
        events,
    );
}

proof fn lemma_ranked_distinct(accounts: Seq<AccountUsage>)
    requires
        distinct_accounts(accounts),
    ensures
        distinct_accounts(ranked(accounts)),
{
    broadcast use vstd::seq_lib::group_to_multiset_ensures;

    ranking_only_reorders(accounts);
    let order = ranked(accounts);
    assert(accounts.no_duplicates()) by {
        assert forall|i: int, j: int|
            0 <= i < accounts.len() && 0 <= j < accounts.len() && i != j implies accounts[i]
            != accounts[j] by {
            if i < j {
                assert(accounts[i].id != accounts[j].id);
            } else {
                assert(accounts[j].id != accounts[i].id);
            }
        }
    }
    accounts.lemma_multiset_has_no_duplicates();
    order.lemma_multiset_has_no_duplicates_conv();
    assert forall|i: int, j: int| 0 <= i < j < order.len() implies (#[trigger] order[i]).id != (
    #[trigger] order[j]).id by {
        assert(order.to_multiset().count(order[i]) > 0);
        assert(order.to_multiset().count(order[j]) > 0);
        assert(accounts.contains(order[i]));
        assert(accounts.contains(order[j]));
        if order[i].id == order[j].id {
            let a = choose|a: int| 0 <= a < accounts.len() && accounts[a] == order[i];
            let b = choose|b: int| 0 <= b < accounts.len() && accounts[b] == order[j];
            if a < b {
                assert(accounts[a].id != accounts[b].id);
            } else if b < a {
                assert(accounts[b].id != accounts[a].id);
            }
            assert(order[i] == order[j]);
            assert(order.no_duplicates());
        }
    }
}

/// Recording requests never makes two entries for one account, in total or in a window.
pub proof fn recording_keeps_accounts_distinct(
    stats: Stats,
    id: Option<Seq<char>>,
    email: Option<Seq<char>>,
    success: bool,
    latency_ms: u64,
    used: UsageCapture,
    now: i64,
    then_now: i64,
)
    requires
        distinct_accounts(stats.accounts),
    ensures
        ({
            let s = recorded(stats, id, email, success, latency_ms, used, now, then_now);
            &&& distinct_accounts(s.accounts)
            &&& distinct_accounts(s.daily.accounts)
            &&& distinct_accounts(s.weekly.accounts)
            &&& distinct_accounts(s.monthly.accounts)
        }),
{
    accounts_stay_distinct(stats.accounts, id, email, success, latency_ms, used, now);
    lemma_ranked_distinct(upserted(stats.accounts, id, email, success, latency_ms, used, now));
    let s = recorded(stats, id, email, success, latency_ms, used, now, then_now);
    let updated_at = s.updated_at;
    let month_since = clock::capped(then_now - clock::MONTH_WINDOW_MS);
    let week_since = clock::capped(then_now - clock::WEEK_WINDOW_MS);
    let day_since = clock::capped(then_now - clock::DAY_WINDOW_MS);
    let fresh = Event {
        timestamp: now,
        id: trimmed_or_empty(id),
        email: trimmed_or_empty(email),
        success,
        latency_ms,
        usage: used,
    };
    kept_events_stay(stats.events.push(fresh), month_since);
    let day = empty_window(day_since, clock::later_of(updated_at, day_since));
    let week = empty_window(week_since, clock::later_of(updated_at, week_since));
    let month = empty_window(month_since, clock::later_of(updated_at, month_since));
    lemma_counted(day, s.events);
    lemma_counted(week, s.events);
    lemma_counted(month, s.events);
    lemma_ranked_distinct(counted(day, s.events).accounts);
    lemma_ranked_distinct(counted(week, s.events).accounts);
    lemma_ranked_distinct(counted(month, s.events).accounts);
}

/// A request that is recorded when no event lies in the future is the newest event, and one
/// more request in total.
pub proof fn recorded_request_is_newest(
    stats: Stats,
    id: Option<Seq<char>>,
    email: Option<Seq<char>>,
    success: bool,
    latency_ms: u64,
    used: UsageCapture,
    now: i64,
    then_now: i64,
)
    requires
        now > 0,
        then_now - now <= clock::DAY_WINDOW_MS,
        forall|i: int|
            0 <= i < stats.events.len() ==> (#[trigger] stats.events[i]).timestamp <= now,
    ensures
        ({
            let s = recorded(stats, id, email, success, latency_ms, used, now, then_now);
            &&& s.events.len() > 0
            &&& s.events.last().timestamp == now
            &&& s.events.last().id == trimmed_or_empty(id)
            &&& s.events.last().email == trimmed_or_empty(email)
            &&& s.events.last().success == success
            &&& s.events.last().latency_ms == latency_ms
            &&& s.events.last().usage == used
            &&& s.daily.totals.request_count > 0
            &&& s.totals == with_request(stats.totals, success, latency_ms, used)
        }),
{
    broadcast use vstd::seq_lib::group_to_multiset_ensures;

    reveal(Seq::filter);
    let s = recorded(stats, id, email, success, latency_ms, used, now, then_now);
    let month_since = clock::capped(then_now - clock::MONTH_WINDOW_MS);
    let day_since = clock::capped(then_now - clock::DAY_WINDOW_MS);
    let fresh = Event {
        timestamp: now,
        id: trimmed_or_empty(id),
        email: trimmed_or_empty(email),
        success,
        latency_ms,
        usage: used,
    };
    let events = stats.events.push(fresh);
    assert(events.drop_last() =~= stats.events);
    let old_recent = recent(stats.events, month_since);
    assert(recent(events, month_since) == old_recent.push(fresh));
    let order = oldest_first();
    let old_sorted = sort::stable_sorted(old_recent, order);
    assert(old_recent.push(fresh).drop_last() =~= old_recent);
    time_is_an_order();
    sort::sorting_orders_and_keeps(old_recent, order);
    if old_sorted.len() > 0 {
        let last = old_sorted.last();
        assert(old_sorted.to_multiset().count(last) > 0);
        assert(old_recent.contains(last));
        stats.events.lemma_filter_contains_rev(|e: Event| is_recent(e, month_since), last);
    }
    assert(sort::stable_sorted(old_recent.push(fresh), order) == old_sorted.push(fresh));
    assert(s.events.last() == fresh);
    kept_events_stay(events, month_since);
    let day = empty_window(day_since, clock::later_of(s.updated_at, day_since));
    lemma_counted(day, s.events);
    lemma_events_since(s.events.drop_last(), day_since, day_since);
}

// ---------------------------------------------------------------------------------------
// Laws of sums
// ---------------------------------------------------------------------------------------

/// One more request adds itself, its outcome, its latency and its tokens to what has been used,
/// up to the largest `u64`.
pub proof fn one_request_adds(
    stats: CodexLocalAccessUsageStats,
    success: bool,
    latency_ms: u64,
    used: UsageCapture,
)
    ensures
        ({
            let next = with_request(stats, success, latency_ms, used);
            &&& next.request_count == at_most_u64((stats.request_count + 1) as nat)
            &&& success ==> next.success_count == at_most_u64((stats.success_count + 1) as nat)
                && next.failure_count == stats.failure_count
            &&& !success ==> next.failure_count == at_most_u64((stats.failure_count + 1) as nat)
                && next.success_count == stats.success_count
            &&& next.total_latency_ms == at_most_u64((stats.total_latency_ms + latency_ms) as nat)
            &&& next.input_tokens == at_most_u64((stats.input_tokens + used.input_tokens) as nat)
            &&& next.output_tokens == at_most_u64(
                (stats.output_tokens + used.output_tokens) as nat,
            )
            &&& next.total_tokens == at_most_u64((stats.total_tokens + used.total_tokens) as nat)
            &&& next.cached_tokens == at_most_u64(
                (stats.cached_tokens + used.cached_tokens) as nat,
            )
            &&& next.reasoning_tokens == at_most_u64(
                (stats.reasoning_tokens + used.reasoning_tokens) as nat,
            )
        }),
{
}

/// What an entry counts after one more request of its account: what it counted before, and
/// that request.
pub open spec fn counts_one_more(
    before: CodexLocalAccessUsageStats,
    after: CodexLocalAccessUsageStats,
    success: bool,
    latency_ms: u64,
    used: UsageCapture,
) -> bool {
    &&& after.request_count == at_most_u64((before.request_count + 1) as nat)
    &&& after.success_count == at_most_u64(
        (before.success_count + if success {
            1int
        } else {
            0int
        }) as nat,
    )
    &&& after.failure_count == at_most_u64(
        (before.failure_count + if success {
            0int
        } else {
            1int
        }) as nat,
    )
    &&& after.total_latency_ms == at_most_u64((before.total_latency_ms + latency_ms) as nat)
    &&& after.input_tokens == at_most_u64((before.input_tokens + used.input_tokens) as nat)
    &&& after.output_tokens == at_most_u64((before.output_tokens + used.output_tokens) as nat)
    &&& after.total_tokens == at_most_u64((before.total_tokens + used.total_tokens) as nat)
    &&& after.cached_tokens == at_most_u64((before.cached_tokens + used.cached_tokens) as nat)
    &&& after.reasoning_tokens == at_most_u64(
        (before.reasoning_tokens + used.reasoning_tokens) as nat,
    )
}

/// A request of an account adds to the entry of that account, which is made if there is none,
/// and touches no other entry. One without an account touches none.
pub proof fn requests_add_to_their_entry(
    accounts: Seq<AccountUsage>,
    id: Seq<char>,
    email: Seq<char>,
    success: bool,
    latency_ms: u64,
    used: UsageCapture,
    at: i64,
    k: int,
)
    requires
        distinct_accounts(accounts),
        0 <= k <= accounts.len(),
        k < accounts.len() ==> accounts[k].id == text::trimmed(id),
        k == accounts.len() ==> forall|i: int|
            0 <= i < accounts.len() ==> (#[trigger] accounts[i]).id != text::trimmed(id),
    ensures
        ({
            let next = upserted(accounts, Some(id), Some(email), success, latency_ms, used, at);
            &&& text::trimmed(id).len() == 0 ==> next == accounts
            &&& text::trimmed(id).len() > 0 ==> {
                &&& next.len() == if k < accounts.len() {
                    accounts.len()
                } else {
                    accounts.len() + 1
                }
                &&& next[k].id == text::trimmed(id)
                &&& next[k].updated_at == at
                &&& text::trimmed(email).len() > 0 ==> next[k].email == text::trimmed(email)
                &&& text::trimmed(email).len() == 0 && k < accounts.len() ==> next[k].email
                    == accounts[k].email
                &&& k < accounts.len() ==> counts_one_more(
                    accounts[k].usage,
                    next[k].usage,
                    success,
                    latency_ms,
                    used,
                )
                &&& k == accounts.len() ==> counts_one_more(
                    nothing_used(),
                    next[k].usage,
                    success,
                    latency_ms,
                    used,
                )
                &&& forall|i: int|
                    0 <= i < accounts.len() && i != k ==> #[trigger] next[i] == accounts[i]
            }
        }),
        upserted(accounts, None, Some(email), success, latency_ms, used, at) == accounts,
{
    assert forall|j: int| 0 <= j < k implies (#[trigger] accounts[j]).id != text::trimmed(id) by {
        if k < accounts.len() {
            assert(accounts[j].id != accounts[k].id);
        }
    }
    lemma_account_place(accounts, text::trimmed(id), k);
}

/// The event is not before `since` and is one of the account with id `id`.
pub open spec fn is_event_of(event: Event, since: i64, id: Seq<char>) -> bool {
    event.timestamp >= since && text::trimmed(event.id) == id
}

/// The sum of an amount over the events of an account that are not before `since`.
pub open spec fn sum_for(
    events: Seq<Event>,
    since: i64,
    id: Seq<char>,
    amount: spec_fn(Event) -> u64,
) -> nat
    decreases events.len(),
{
    if events.len() == 0 {
        0
    } else {
        sum_for(events.drop_last(), since, id, amount) + if is_event_of(events.last(), since, id) {
            amount(events.last()) as nat
        } else {
            0nat
        }
    }
}

/// What an entry counts are the sums over the events of its account since `since`.
pub open spec fn entry_adds_up(entry: AccountUsage, events: Seq<Event>, since: i64) -> bool {
    let u = entry.usage;
    let id = entry.id;
    &&& u.request_count == at_most_u64(sum_for(events, since, id, |e: Event| 1u64))
    &&& u.success_count == at_most_u64(
        sum_for(
            events,
            since,
            id,
            |e: Event|
                if e.success {
                    1u64
                } else {
                    0u64
                },
        ),
    )
    &&& u.failure_count == at_most_u64(
        sum_for(
            events,
            since,
            id,
            |e: Event|
                if e.success {
                    0u64
                } else {
                    1u64
                },
        ),
    )
    &&& u.total_latency_ms == at_most_u64(sum_for(events, since, id, |e: Event| e.latency_ms))
    &&& u.input_tokens == at_most_u64(
        sum_for(events, since, id, |e: Event| e.usage.input_tokens),
    )
    &&& u.output_tokens == at_most_u64(
        sum_for(events, since, id, |e: Event| e.usage.output_tokens),
    )
    &&& u.total_tokens == at_most_u64(
        sum_for(events, since, id, |e: Event| e.usage.total_tokens),
    )
    &&& u.cached_tokens == at_most_u64(
        sum_for(events, since, id, |e: Event| e.usage.cached_tokens),
    )
    &&& u.reasoning_tokens == at_most_u64(
        sum_for(events, since, id, |e: Event| e.usage.reasoning_tokens),
    )
}

/// The accounts have one entry each, for the accounts of the events since `since` and no
/// others, which add up.
pub open spec fn entries_add_up(
    accounts: Seq<AccountUsage>,
    events: Seq<Event>,
    since: i64,
) -> bool {
    &&& distinct_accounts(accounts)
    &&& forall|i: int| 0 <= i < accounts.len() ==> entry_adds_up(#[trigger] accounts[i], events, since)
    &&& forall|i: int| 0 <= i < accounts.len() ==> (#[trigger] accounts[i]).id.len() > 0
    &&& forall|m: int|
        0 <= m < events.len() && (#[trigger] events[m]).timestamp >= since && text::trimmed(
            events[m].id,
        ).len() > 0 ==> exists|i: int|
            0 <= i < accounts.len() && (#[trigger] accounts[i]).id == text::trimmed(events[m].id)
    &&& forall|i: int|
        0 <= i < accounts.len() ==> exists|m: int|
            0 <= m < events.len() && is_event_of(
                #[trigger] events[m],
                since,
                (#[trigger] accounts[i]).id,
            )
}

proof fn lemma_sum_for_nothing(
    events: Seq<Event>,
    since: i64,
    id: Seq<char>,
    amount: spec_fn(Event) -> u64,
)
    requires
        forall|m: int| 0 <= m < events.len() ==> !is_event_of(#[trigger] events[m], since, id),
    ensures
        sum_for(events, since, id, amount) == 0,
    decreases events.len(),
{
    if events.len() > 0 {
        let shorter = events.drop_last();
        assert forall|m: int| 0 <= m < shorter.len() implies !is_event_of(
            #[trigger] shorter[m],
            since,
            id,
        ) by {
            assert(!is_event_of(events[m], since, id));
        }
        assert(!is_event_of(events[events.len() - 1], since, id));
        lemma_sum_for_nothing(shorter, since, id, amount);
    }
}

proof fn lemma_entry_of_nothing(entry: AccountUsage, events: Seq<Event>, since: i64)
    requires
        entry.usage == nothing_used(),
        forall|m: int|
            0 <= m < events.len() ==> !is_event_of(#[trigger] events[m], since, entry.id),
    ensures
        entry_adds_up(entry, events, since),
{
    let id = entry.id;
    lemma_sum_for_nothing(events, since, id, |e: Event| 1u64);
    lemma_sum_for_nothing(
        events,
        since,
        id,
        |e: Event|
            if e.success {
                1u64
            } else {
                0u64
            },
    );
    lemma_sum_for_nothing(
        events,
        since,
        id,
        |e: Event|
            if e.success {
                0u64
            } else {
                1u64
            },
    );
    lemma_sum_for_nothing(events, since, id, |e: Event| e.latency_ms);
    lemma_sum_for_nothing(events, since, id, |e: Event| e.usage.input_tokens);
    lemma_sum_for_nothing(events, since, id, |e: Event| e.usage.output_tokens);
    lemma_sum_for_nothing(events, since, id, |e: Event| e.usage.total_tokens);
    lemma_sum_for_nothing(events, since, id, |e: Event| e.usage.cached_tokens);
    lemma_sum_for_nothing(events, since, id, |e: Event| e.usage.reasoning_tokens);
}

/// One more event leaves the sums of other accounts as they are.
proof fn lemma_entry_of_other(entry: AccountUsage, events: Seq<Event>, since: i64)
    requires
        events.len() > 0,
        entry_adds_up(entry, events.drop_last(), since),
        !is_event_of(events.last(), since, entry.id),
    ensures
        entry_adds_up(entry, events, since),
{
}

proof fn lemma_entry_of_one_more(
    before: AccountUsage,
    after: AccountUsage,
    events: Seq<Event>,
    since: i64,
)
    requires
        events.len() > 0,
        entry_adds_up(before, events.drop_last(), since),
        is_event_of(events.last(), since, after.id),
        before.id == after.id,
        counts_one_more(
            before.usage,
            after.usage,
            events.last().success,
            events.last().latency_ms,
            events.last().usage,
        ),
    ensures
        entry_adds_up(after, events, since),
{
}

proof fn lemma_entries_without_one_more(
    accounts: Seq<AccountUsage>,
    events: Seq<Event>,
    since: i64,
)
    requires
        events.len() > 0,
        entries_add_up(accounts, events.drop_last(), since),
        events.last().timestamp < since || text::trimmed(events.last().id).len() == 0,
    ensures
        entries_add_up(accounts, events, since),
{
    let shorter = events.drop_last();
    assert forall|i: int| 0 <= i < accounts.len() implies entry_adds_up(
        #[trigger] accounts[i],
        events,
        since,
    ) by {
        assert(accounts[i].id.len() > 0);
        assert(entry_adds_up(accounts[i], shorter, since));
        lemma_entry_of_other(accounts[i], events, since);
    }
    assert forall|i: int| 0 <= i < accounts.len() implies exists|m: int|
        0 <= m < events.len() && is_event_of(
            #[trigger] events[m],
            since,
            (#[trigger] accounts[i]).id,
        ) by {
        let m = choose|m: int|
            0 <= m < shorter.len() && is_event_of(#[trigger] shorter[m], since, accounts[i].id);
        assert(events[m] == shorter[m]);
    }
    assert forall|m: int|
        0 <= m < events.len() && (#[trigger] events[m]).timestamp >= since && text::trimmed(
            events[m].id,
        ).len() > 0 implies exists|i: int|
        0 <= i < accounts.len() && (#[trigger] accounts[i]).id == text::trimmed(events[m].id) by {
        assert(events[m] == shorter[m]);
    }
}

/// The entry that the next event adds to adds up with it.
proof fn lemma_touched_entry(
    before: Seq<AccountUsage>,
    after: AccountUsage,
    events: Seq<Event>,
    since: i64,
    k: int,
)
    requires
        events.len() > 0,
        entries_add_up(before, events.drop_last(), since),
        is_event_of(events.last(), since, after.id),
        after.id.len() > 0,
        0 <= k <= before.len(),
        k < before.len() ==> before[k].id == after.id,
        k == before.len() ==> forall|i: int|
            0 <= i < before.len() ==> (#[trigger] before[i]).id != after.id,
        counts_one_more(
            if k < before.len() {
                before[k].usage
            } else {
                nothing_used()
            },
            after.usage,
            events.last().success,
            events.last().latency_ms,
            events.last().usage,
        ),
    ensures
        entry_adds_up(after, events, since),
{
    let shorter = events.drop_last();
    if k == before.len() {
        let fresh = AccountUsage {
            id: after.id,
            email: Seq::empty(),
            usage: nothing_used(),
            updated_at: 0,
        };
        assert forall|m: int| 0 <= m < shorter.len() implies !is_event_of(
            #[trigger] shorter[m],
            since,
            fresh.id,
        ) by {
            if is_event_of(shorter[m], since, fresh.id) {
                let i = choose|i: int|
                    0 <= i < before.len() && (#[trigger] before[i]).id == text::trimmed(
                        shorter[m].id,
                    );
                assert(before[i].id == fresh.id);
            }
        }
        lemma_entry_of_nothing(fresh, shorter, since);
        lemma_entry_of_one_more(fresh, after, events, since);
    } else {
        assert(entry_adds_up(before[k], shorter, since));
        lemma_entry_of_one_more(before[k], after, events, since);
    }
}

#[verifier::rlimit(40)]
proof fn lemma_entries_with_one_more(
    before: Seq<AccountUsage>,
    after: Seq<AccountUsage>,
    events: Seq<Event>,
    since: i64,
    k: int,
)
    requires
        events.len() > 0,
        entries_add_up(before, events.drop_last(), since),
        distinct_accounts(after),
        0 <= k <= before.len(),
        k < after.len(),
        after.len() == before.len() || (k == before.len() && after.len() == before.len() + 1),
        entry_adds_up(after[k], events, since),
        is_event_of(events.last(), since, after[k].id),
        after[k].id.len() > 0,
        k < before.len() ==> before[k].id == after[k].id,
        forall|i: int| 0 <= i < before.len() && i != k ==> #[trigger] after[i] == before[i],
    ensures
        entries_add_up(after, events, since),
{
    let shorter = events.drop_last();
    let id = after[k].id;
    assert(events[events.len() - 1] == events.last());
    assert forall|i: int| 0 <= i < after.len() implies entry_adds_up(
        #[trigger] after[i],
        events,
        since,
    ) by {
        if i != k {
            assert(after[i] == before[i]);
            assert(after[i].id != id) by {
                if i < k {
                    assert(after[i].id != after[k].id);
                } else {
                    assert(after[k].id != after[i].id);
                }
            }
            assert(entry_adds_up(before[i], shorter, since));
            lemma_entry_of_other(before[i], events, since);
        }
    }
    assert forall|i: int| 0 <= i < after.len() implies (#[trigger] after[i]).id.len() > 0 by {
        if i != k {
            assert(after[i] == before[i]);
        }
    }
    assert forall|i: int| 0 <= i < after.len() implies exists|m: int|
        0 <= m < events.len() && is_event_of(
            #[trigger] events[m],
            since,
            (#[trigger] after[i]).id,
        ) by {
        if i == k {
            assert(is_event_of(events[events.len() - 1], since, after[i].id));
        } else {
            assert(after[i] == before[i]);
            let m = choose|m: int|
                0 <= m < shorter.len() && is_event_of(#[trigger] shorter[m], since, before[i].id);
            assert(events[m] == shorter[m]);
        }
    }
    assert forall|m: int|
        0 <= m < events.len() && (#[trigger] events[m]).timestamp >= since && text::trimmed(
            events[m].id,
        ).len() > 0 implies exists|i: int|
        0 <= i < after.len() && (#[trigger] after[i]).id == text::trimmed(events[m].id) by {
        if m < shorter.len() {
            assert(events[m] == shorter[m]);
            let i = choose|i: int|
                0 <= i < before.len() && (#[trigger] before[i]).id == text::trimmed(shorter[m].id);
            if i != k {
                assert(after[i] == before[i]);
            }
            assert(after[i].id == before[i].id);
        } else {
            assert(after[k].id == text::trimmed(events[m].id));
        }
    }
}

#[verifier::rlimit(30)]
proof fn lemma_entries_add_up(window: Window, events: Seq<Event>)
    requires
        window.accounts == Seq::<AccountUsage>::empty(),
    ensures
        counted(window, events).since == window.since,
        entries_add_up(counted(window, events).accounts, events, window.since),
    decreases events.len(),
{
    let since = window.since;
    if events.len() > 0 {
        let shorter = events.drop_last();
        let event = events.last();
        let id = text::trimmed(event.id);
        lemma_entries_add_up(window, shorter);
        let before = counted(window, shorter).accounts;
        let after = counted(window, events).accounts;
        if event.timestamp < since || id.len() == 0 {
            assert(after == before);
            lemma_entries_without_one_more(before, events, since);
        } else {
            lemma_account_place_range(before, id);
            let k = account_place(before, id);
            requests_add_to_their_entry(
                before,
                event.id,
                event.email,
                event.success,
                event.latency_ms,
                event.usage,
                event.timestamp,
                k,
            );
            accounts_stay_distinct(
                before,
                Some(event.id),
                Some(event.email),
                event.success,
                event.latency_ms,
                event.usage,
                event.timestamp,
            );
            lemma_touched_entry(before, after[k], events, since, k);
            lemma_entries_with_one_more(before, after, events, since, k);
        }
    }
}

proof fn lemma_ranked_holds_same(accounts: Seq<AccountUsage>, entry: AccountUsage)
    ensures
        ranked(accounts).contains(entry) == accounts.contains(entry),
{
    broadcast use vstd::seq_lib::group_to_multiset_ensures;

    ranking_only_reorders(accounts);
    assert(ranked(accounts).to_multiset().count(entry) == accounts.to_multiset().count(entry));
}

#[verifier::rlimit(30)]
proof fn lemma_ranked_entries_add_up(
    accounts: Seq<AccountUsage>,
    events: Seq<Event>,
    since: i64,
)
    requires
        entries_add_up(accounts, events, since),
    ensures
        entries_add_up(ranked(accounts), events, since),
{
    let order = ranked(accounts);
    lemma_ranked_distinct(accounts);
    assert forall|i: int| 0 <= i < order.len() implies entry_adds_up(
        #[trigger] order[i],
        events,
        since,
    ) && order[i].id.len() > 0 && exists|m: int|
        0 <= m < events.len() && is_event_of(#[trigger] events[m], since, order[i].id) by {
        assert(order.contains(order[i]));
        lemma_ranked_holds_same(accounts, order[i]);
        let k = choose|k: int| 0 <= k < accounts.len() && accounts[k] == order[i];
        assert(entry_adds_up(accounts[k], events, since));
        assert(accounts[k].id.len() > 0);
    }
    assert forall|m: int|
        0 <= m < events.len() && (#[trigger] events[m]).timestamp >= since && text::trimmed(
            events[m].id,
        ).len() > 0 implies exists|i: int|
        0 <= i < order.len() && (#[trigger] order[i]).id == text::trimmed(events[m].id) by {
        let k = choose|k: int|
            0 <= k < accounts.len() && (#[trigger] accounts[k]).id == text::trimmed(events[m].id);
        assert(accounts.contains(accounts[k]));
        lemma_ranked_holds_same(accounts, accounts[k]);
        let i = choose|i: int| 0 <= i < order.len() && order[i] == accounts[k];
        assert(order[i].id == text::trimmed(events[m].id));
    }
}

/// In every window each account that has asked in its time has one entry, and no other account
/// has one; what an entry counts are the sums over the events of its account in that time.
pub proof fn window_entries_add_up(stats: Stats, now: i64)
    ensures
        ({
            let s = recomputed(stats, now);
            &&& entries_add_up(s.daily.accounts, s.events, s.daily.since)
            &&& entries_add_up(s.weekly.accounts, s.events, s.weekly.since)
            &&& entries_add_up(s.monthly.accounts, s.events, s.monthly.since)
        }),
{
    let month_since = clock::capped(now - clock::MONTH_WINDOW_MS);
    let week_since = clock::capped(now - clock::WEEK_WINDOW_MS);
    let day_since = clock::capped(now - clock::DAY_WINDOW_MS);
    let events = kept_events(stats.events, month_since);
    let day = empty_window(day_since, clock::later_of(stats.updated_at, day_since));
    let week = empty_window(week_since, clock::later_of(stats.updated_at, week_since));
    let month = empty_window(month_since, clock::later_of(stats.updated_at, month_since));
    lemma_entries_add_up(day, events);
    lemma_entries_add_up(week, events);
    lemma_entries_add_up(month, events);
    lemma_ranked_entries_add_up(counted(day, events).accounts, events, day_since);
    lemma_ranked_entries_add_up(counted(week, events).accounts, events, week_since);
    lemma_ranked_entries_add_up(counted(month, events).accounts, events, month_since);
}

// ---------------------------------------------------------------------------------------
// Entries and totals
// ---------------------------------------------------------------------------------------

/// The sum of a count over the entries of accounts.
pub open spec fn entries_total(
    accounts: Seq<AccountUsage>,
    count: spec_fn(CodexLocalAccessUsageStats) -> u64,
) -> nat
    decreases accounts.len(),
{
    if accounts.len() == 0 {
        0
    } else {
        entries_total(accounts.drop_last(), count) + count(accounts.last().usage) as nat
    }
}

proof fn lemma_total_with_entry(
    accounts: Seq<AccountUsage>,
    count: spec_fn(CodexLocalAccessUsageStats) -> u64,
    k: int,
    entry: AccountUsage,
)
    requires
        0 <= k < accounts.len(),
    ensures
        entries_total(accounts.update(k, entry), count) + count(accounts[k].usage)
            == entries_total(accounts, count) + count(entry.usage),
        entries_total(accounts, count) >= count(accounts[k].usage),
    decreases accounts.len(),
{
    let next = accounts.update(k, entry);
    if k == accounts.len() - 1 {
        assert(next.drop_last() =~= accounts.drop_last());
    } else {
        assert(next.drop_last() =~= accounts.drop_last().update(k, entry));
        lemma_total_with_entry(accounts.drop_last(), count, k, entry);
    }
}

proof fn lemma_total_inserted(
    accounts: Seq<AccountUsage>,
    entry: AccountUsage,
    count: spec_fn(CodexLocalAccessUsageStats) -> u64,
    order: spec_fn(AccountUsage, AccountUsage) -> bool,
)
    ensures
        entries_total(sort::inserted(accounts, entry, order), count) == entries_total(
            accounts,
            count,
        ) + count(entry.usage),
    decreases accounts.len(),
{
    if accounts.len() == 0 || order(accounts.last(), entry) {
        assert(accounts.push(entry).drop_last() =~= accounts);
    } else {
        let t = sort::inserted(accounts.drop_last(), entry, order);
        lemma_total_inserted(accounts.drop_last(), entry, count, order);
        assert(t.push(accounts.last()).drop_last() =~= t);
    }
}

proof fn lemma_total_ranked(
    accounts: Seq<AccountUsage>,
    count: spec_fn(CodexLocalAccessUsageStats) -> u64,
)
    ensures
        entries_total(ranked(accounts), count) == entries_total(accounts, count),
    decreases accounts.len(),
{
    if accounts.len() > 0 {
        let shorter = accounts.drop_last();
        lemma_total_ranked(shorter, count);
        lemma_total_inserted(ranked(shorter), accounts.last(), count, busiest_first());
    }
}

/// `amount` is what an event adds to `count`.
spec fn adds_amount(
    count: spec_fn(CodexLocalAccessUsageStats) -> u64,
    amount: spec_fn(Event) -> u64,
) -> bool {
    &&& count(nothing_used()) == 0
    &&& forall|u: CodexLocalAccessUsageStats, e: Event|
        #![trigger with_request(u, e.success, e.latency_ms, e.usage)]
        count(with_request(u, e.success, e.latency_ms, e.usage)) == at_most_u64(
            (count(u) + amount(e)) as nat,
        )
}

/// Every event since `since` names an account.
pub open spec fn all_named(events: Seq<Event>, since: i64) -> bool {
    forall|m: int|
        0 <= m < events.len() && (#[trigger] events[m]).timestamp >= since ==> text::trimmed(
            events[m].id,
        ).len() > 0
}

proof fn lemma_entries_sum(
    window: Window,
    events: Seq<Event>,
    count: spec_fn(CodexLocalAccessUsageStats) -> u64,
    amount: spec_fn(Event) -> u64,
)
    requires
        window.accounts == Seq::<AccountUsage>::empty(),
        adds_amount(count, amount),
        all_named(events, window.since),
        sum_since(events, window.since, amount) <= u64::MAX,
    ensures
        entries_total(counted(window, events).accounts, count) == sum_since(
            events,
            window.since,
            amount,
        ),
    decreases events.len(),
{
    if events.len() > 0 {
        let shorter = events.drop_last();
        let event = events.last();
        assert(all_named(shorter, window.since)) by {
            assert forall|m: int|
                0 <= m < shorter.len() && (#[trigger] shorter[m]).timestamp
                    >= window.since implies text::trimmed(shorter[m].id).len() > 0 by {
                assert(events[m] == shorter[m]);
            }
        }
        lemma_entries_sum(window, shorter, count, amount);
        let before = counted(window, shorter).accounts;
        if event.timestamp >= window.since {
            assert(events[events.len() - 1] == event);
            let id = text::trimmed(event.id);
            lemma_account_place_range(before, id);
            let k = account_place(before, id);
            let after = counted(window, events).accounts;
            if k < before.len() {
                assert(after == before.update(k, after[k]));
                lemma_total_with_entry(before, count, k, after[k]);
                assert(after[k].usage == with_request(
                    before[k].usage,
                    event.success,
                    event.latency_ms,
                    event.usage,
                ));
            } else {
                assert(after.drop_last() =~= before);
                assert(after.last().usage == with_request(
                    nothing_used(),
                    event.success,
                    event.latency_ms,
                    event.usage,
                ));
            }
        }
    }
}

/// Where every event of its time names an account, the entries of a window sum up to its
/// totals, as long as `u64` holds them.
pub open spec fn entries_make_up_totals(window: Window, events: Seq<Event>) -> bool {
    let since = window.since;
    let t = window.totals;
    let a = window.accounts;
    all_named(events, since) ==> {
        &&& sum_since(events, since, |e: Event| e.latency_ms) <= u64::MAX ==> entries_total(
            a,
            |u: CodexLocalAccessUsageStats| u.total_latency_ms,
        ) == t.total_latency_ms
        &&& sum_since(events, since, |e: Event| e.usage.input_tokens) <= u64::MAX ==> entries_total(
            a,
            |u: CodexLocalAccessUsageStats| u.input_tokens,
        ) == t.input_tokens
        &&& sum_since(events, since, |e: Event| e.usage.output_tokens) <= u64::MAX
            ==> entries_total(a, |u: CodexLocalAccessUsageStats| u.output_tokens)
            == t.output_tokens
        &&& sum_since(events, since, |e: Event| e.usage.total_tokens) <= u64::MAX ==> entries_total(
            a,
            |u: CodexLocalAccessUsageStats| u.total_tokens,
        ) == t.total_tokens
        &&& sum_since(events, since, |e: Event| e.usage.cached_tokens) <= u64::MAX
            ==> entries_total(a, |u: CodexLocalAccessUsageStats| u.cached_tokens)
            == t.cached_tokens
        &&& sum_since(events, since, |e: Event| e.usage.reasoning_tokens) <= u64::MAX
            ==> entries_total(a, |u: CodexLocalAccessUsageStats| u.reasoning_tokens)
            == t.reasoning_tokens
    }
}

proof fn lemma_entries_make_up_totals(window: Window, events: Seq<Event>)
    requires
        window.accounts == Seq::<AccountUsage>::empty(),
        window.totals == nothing_used(),
    ensures
        ({
            let w = counted(window, events);
            entries_make_up_totals(Window { accounts: ranked(w.accounts), ..w }, events)
        }),
{
    let w = counted(window, events);
    let since = window.since;
    lemma_adds_up(window, events);
    if all_named(events, since) {
        let latency = |u: CodexLocalAccessUsageStats| u.total_latency_ms;
        let input = |u: CodexLocalAccessUsageStats| u.input_tokens;
        let output = |u: CodexLocalAccessUsageStats| u.output_tokens;
        let total = |u: CodexLocalAccessUsageStats| u.total_tokens;
        let cached = |u: CodexLocalAccessUsageStats| u.cached_tokens;
        let reasoning = |u: CodexLocalAccessUsageStats| u.reasoning_tokens;
        lemma_total_ranked(w.accounts, latency);
        lemma_total_ranked(w.accounts, input);
        lemma_total_ranked(w.accounts, output);
        lemma_total_ranked(w.accounts, total);
        lemma_total_ranked(w.accounts, cached);
        lemma_total_ranked(w.accounts, reasoning);
        if sum_since(events, since, |e: Event| e.latency_ms) <= u64::MAX {
            lemma_entries_sum(window, events, latency, |e: Event| e.latency_ms);
        }
        if sum_since(events, since, |e: Event| e.usage.input_tokens) <= u64::MAX {
            lemma_entries_sum(window, events, input, |e: Event| e.usage.input_tokens);
        }
        if sum_since(events, since, |e: Event| e.usage.output_tokens) <= u64::MAX {
            lemma_entries_sum(window, events, output, |e: Event| e.usage.output_tokens);
        }
        if sum_since(events, since, |e: Event| e.usage.total_tokens) <= u64::MAX {
            lemma_entries_sum(window, events, total, |e: Event| e.usage.total_tokens);
        }
        if sum_since(events, since, |e: Event| e.usage.cached_tokens) <= u64::MAX {
            lemma_entries_sum(window, events, cached, |e: Event| e.usage.cached_tokens);
        }
        if sum_since(events, since, |e: Event| e.usage.reasoning_tokens) <= u64::MAX {
            lemma_entries_sum(window, events, reasoning, |e: Event| e.usage.reasoning_tokens);
        }
    }
}

/// In every window the entries of the accounts make up the totals.
pub proof fn window_entries_make_up_totals(stats: Stats, now: i64)
    ensures
        ({
            let s = recomputed(stats, now);
            &&& entries_make_up_totals(s.daily, s.events)
            &&& entries_make_up_totals(s.weekly, s.events)
            &&& entries_make_up_totals(s.monthly, s.events)
        }),
{
    let month_since = clock::capped(now - clock::MONTH_WINDOW_MS);
    let week_since = clock::capped(now - clock::WEEK_WINDOW_MS);
    let day_since = clock::capped(now - clock::DAY_WINDOW_MS);
    let events = kept_events(stats.events, month_since);
    lemma_entries_make_up_totals(
        empty_window(day_since, clock::later_of(stats.updated_at, day_since)),
        events,
    );
    lemma_entries_make_up_totals(
        empty_window(week_since, clock::later_of(stats.updated_at, week_since)),
        events,
    );
    lemma_entries_make_up_totals(
        empty_window(month_since, clock::later_of(stats.updated_at, month_since)),
        events,
    );
}

// ---------------------------------------------------------------------------------------
// Laws of recording
// ---------------------------------------------------------------------------------------

/// A recorded request counts once in total and, if it names an account, once in the entry of
/// that account; the entries of other accounts stay as they are.
pub proof fn recording_counts_one_request(
    stats: Stats,
    id: Seq<char>,
    email: Seq<char>,
    success: bool,
    latency_ms: u64,
    used: UsageCapture,
    now: i64,
    then_now: i64,
    k: int,
    other: AccountUsage,
)
    requires
        distinct_accounts(stats.accounts),
        0 <= k <= stats.accounts.len(),
        k < stats.accounts.len() ==> stats.accounts[k].id == text::trimmed(id),
        k == stats.accounts.len() ==> forall|i: int|
            0 <= i < stats.accounts.len() ==> (#[trigger] stats.accounts[i]).id != text::trimmed(id),
        text::trimmed(id).len() > 0,
        now > 0,
    ensures
        ({
            let s = recorded(
                stats,
                Some(id),
                Some(email),
                success,
                latency_ms,
                used,
                now,
                then_now,
            );
            &&& counts_one_more(stats.totals, s.totals, success, latency_ms, used)
            &&& s.updated_at == now
            &&& s.since == if stats.since > 0 {
                stats.since
            } else {
                now
            }
            &&& exists|m: int|
                0 <= m < s.accounts.len() && (#[trigger] s.accounts[m]).id == text::trimmed(id)
                    && s.accounts[m].updated_at == now && (text::trimmed(email).len() > 0
                    ==> s.accounts[m].email == text::trimmed(email)) && counts_one_more(
                    if k < stats.accounts.len() {
                        stats.accounts[k].usage
                    } else {
                        nothing_used()
                    },
                    s.accounts[m].usage,
                    success,
                    latency_ms,
                    used,
                )
            &&& other.id != text::trimmed(id) ==> s.accounts.contains(other)
                == stats.accounts.contains(other)
        }),
{
    let next = upserted(stats.accounts, Some(id), Some(email), success, latency_ms, used, now);
    let s = recorded(stats, Some(id), Some(email), success, latency_ms, used, now, then_now);
    requests_add_to_their_entry(
        stats.accounts,
        id,
        email,
        success,
        latency_ms,
        used,
        now,
        k,
    );
    assert(s.accounts == ranked(next));
    assert(next.contains(next[k]));
    lemma_ranked_holds_same(next, next[k]);
    let m = choose|m: int| 0 <= m < s.accounts.len() && s.accounts[m] == next[k];
    assert(s.accounts[m].id == text::trimmed(id));
    lemma_ranked_holds_same(next, other);
    if other.id != text::trimmed(id) {
        if stats.accounts.contains(other) {
            let i = choose|i: int| 0 <= i < stats.accounts.len() && stats.accounts[i] == other;
            assert(next[i] == other);
        }
        if next.contains(other) {
            let i = choose|i: int| 0 <= i < next.len() && next[i] == other;
            assert(i != k);
            assert(next[i] == stats.accounts[i]);
        }
    }
}

/// A request without an account counts in total and touches no entry.
pub proof fn nameless_requests_count_in_total(
    stats: Stats,
    email: Option<Seq<char>>,
    success: bool,
    latency_ms: u64,
    used: UsageCapture,
    now: i64,
    then_now: i64,
    entry: AccountUsage,
)
    ensures
        ({
            let s = recorded(stats, None, email, success, latency_ms, used, now, then_now);
            &&& counts_one_more(stats.totals, s.totals, success, latency_ms, used)
            &&& s.accounts.contains(entry) == stats.accounts.contains(entry)
            &&& s.accounts.len() == stats.accounts.len()
        }),
{
    lemma_ranked_holds_same(stats.accounts, entry);
    ranking_only_reorders(stats.accounts);
}

/// The account with more requests stands first; of two with as many, the one that asked later;
/// of those, the one whose id comes first in the dictionary.
pub proof fn busy_accounts_stand_first(accounts: Seq<AccountUsage>, i: int, j: int)
    requires
        0 <= i < j < accounts.len(),
    ensures
        ({
            let a = ranked(accounts)[i];
            let b = ranked(accounts)[j];
            &&& a.usage.request_count >= b.usage.request_count
            &&& a.usage.request_count == b.usage.request_count ==> a.updated_at >= b.updated_at
            &&& a.usage.request_count == b.usage.request_count && a.updated_at == b.updated_at
                ==> text::not_behind(a.id, b.id)
        }),
{
    ranking_only_reorders(accounts);
    let order = busiest_first();
    assert(order(ranked(accounts)[i], ranked(accounts)[j]));
}

/// Of the events, those are kept that are dated and not before `since`; where there are more
/// than can be kept, those that go are not newer than those that stay.
pub proof fn recent_events_are_kept(events: Seq<Event>, since: i64, event: Event)
    ensures
        ({
            let kept = kept_events(events, since);
            &&& kept.contains(event) ==> events.contains(event) && event.timestamp > 0
                && event.timestamp >= since
            &&& events.contains(event) && event.timestamp > 0 && event.timestamp >= since ==> {
                ||| kept.contains(event)
                ||| kept.len() == MAX_RECENT_USAGE_EVENTS && forall|i: int|
                    0 <= i < kept.len() ==> event.timestamp <= (#[trigger] kept[i]).timestamp
            }
            &&& events.len() <= MAX_RECENT_USAGE_EVENTS && events.contains(event)
                && event.timestamp > 0 && event.timestamp >= since ==> kept.contains(event)
            &&& forall|i: int, j: int|
                0 <= i < j < kept.len() ==> (#[trigger] kept[i]).timestamp <= (
                #[trigger] kept[j]).timestamp
        }),
{
    broadcast use vstd::seq_lib::group_to_multiset_ensures;

    let pass = |e: Event| is_recent(e, since);
    let chosen = recent(events, since);
    let order = oldest_first();
    let sorted = sort::stable_sorted(chosen, order);
    let kept = kept_events(events, since);
    let cut = sorted.len() - kept.len();
    time_is_an_order();
    lemma_recent(events, since);
    sort::sorting_orders_and_keeps(chosen, order);
    kept_events_stay(events, since);
    assert forall|i: int, j: int| 0 <= i < j < kept.len() implies (#[trigger] kept[i]).timestamp <= (
    #[trigger] kept[j]).timestamp by {
        assert(order(kept[i], kept[j]));
    }
    if kept.contains(event) {
        let i = choose|i: int| 0 <= i < kept.len() && kept[i] == event;
        assert(sorted[i + cut] == event);
        assert(sorted.to_multiset().count(event) > 0);
        assert(chosen.contains(event));
        events.lemma_filter_contains_rev(pass, event);
        assert(is_recent(kept[i], since));
    }
    if events.contains(event) && event.timestamp > 0 && event.timestamp >= since {
        let k = choose|k: int| 0 <= k < events.len() && events[k] == event;
        events.lemma_filter_contains(pass, k);
        assert(chosen.contains(event));
        assert(sorted.to_multiset().count(event) > 0);
        let i = choose|i: int| 0 <= i < sorted.len() && sorted[i] == event;
        if i >= cut {
            assert(kept[i - cut] == event);
        } else {
            assert forall|j: int| 0 <= j < kept.len() implies event.timestamp <= (
            #[trigger] kept[j]).timestamp by {
                assert(order(sorted[i], sorted[j + cut]));
            }
        }
    }
}

/// The windows reach back one, seven and thirty days; bringing statistics up to date changes
/// nothing of what was counted in total, and no entry.
pub proof fn windows_reach_back(stats: Stats, now: i64, entry: AccountUsage)
    requires
        now >= 0,
    ensures
        ({
            let s = normalized(stats, now);
            &&& s.daily.since == now - 86_400_000
            &&& s.weekly.since == now - 7 * 86_400_000
            &&& s.monthly.since == now - 30 * 86_400_000
            &&& s.totals == stats.totals
            &&& s.accounts.contains(entry) == stats.accounts.contains(entry)
            &&& stats.since > 0 ==> s.since == stats.since
            &&& stats.since <= 0 ==> s.since == now
            &&& stats.updated_at > 0 ==> s.updated_at == stats.updated_at
            &&& stats.updated_at <= 0 ==> s.updated_at == s.since
        }),
{
    let month_since = clock::capped(now - clock::MONTH_WINDOW_MS);
    let week_since = clock::capped(now - clock::WEEK_WINDOW_MS);
    let day_since = clock::capped(now - clock::DAY_WINDOW_MS);
    let s = normalized(stats, now);
    lemma_ranked_holds_same(stats.accounts, entry);
    lemma_adds_up(
        empty_window(day_since, clock::later_of(s.updated_at, day_since)),
        s.events,
    );
    lemma_adds_up(
        empty_window(week_since, clock::later_of(s.updated_at, week_since)),
        s.events,
    );
    lemma_adds_up(
        empty_window(month_since, clock::later_of(s.updated_at, month_since)),
        s.events,
    );
}

/// One more event counts in a window as one more request, in total and for its account, and the
/// window is then not older than the event.
pub proof fn one_event_counts(window: Window, event: Event, k: int)
    requires
        distinct_accounts(window.accounts),
        0 <= k < window.accounts.len(),
        window.accounts[k].id == text::trimmed(event.id),
        text::trimmed(event.id).len() > 0,
    ensures
        ({
            let next = with_event(window, event);
            &&& next.since == window.since
            &&& next.updated_at >= event.timestamp
            &&& next.updated_at >= window.updated_at
            &&& next.updated_at == event.timestamp || next.updated_at == window.updated_at
            &&& counts_one_more(
                window.totals,
                next.totals,
                event.success,
                event.latency_ms,
                event.usage,
            )
            &&& counts_one_more(
                window.accounts[k].usage,
                next.accounts[k].usage,
                event.success,
                event.latency_ms,
                event.usage,
            )
            &&& next.accounts[k].updated_at == event.timestamp
            &&& text::trimmed(event.email).len() > 0 ==> next.accounts[k].email == text::trimmed(
                event.email,
            )
            &&& text::trimmed(event.email).len() == 0 ==> next.accounts[k].email
                == window.accounts[k].email
        }),
{
    requests_add_to_their_entry(
        window.accounts,
        event.id,
        event.email,
        event.success,
        event.latency_ms,
        event.usage,
        event.timestamp,
        k,
    );
}

proof fn lemma_counted_dates(window: Window, events: Seq<Event>, m: int)
    ensures
        counted(window, events).since == window.since,
        counted(window, events).updated_at >= window.updated_at,
        0 <= m < events.len() && events[m].timestamp >= window.since ==> counted(
            window,
            events,
        ).updated_at >= events[m].timestamp,
        counted(window, events).updated_at == window.updated_at || exists|i: int|
            0 <= i < events.len() && (#[trigger] events[i]).timestamp == counted(
                window,
                events,
            ).updated_at,
    decreases events.len(),
{
    if events.len() > 0 {
        let shorter = events.drop_last();
        lemma_counted_dates(window, shorter, m);
        let before = counted(window, shorter).updated_at;
        assert(events[events.len() - 1] == events.last());
        if 0 <= m < shorter.len() {
            assert(shorter[m] == events[m]);
        }
        if counted(window, events).updated_at == before && before != window.updated_at {
            let i = choose|i: int|
                0 <= i < shorter.len() && (#[trigger] shorter[i]).timestamp == before;
            assert(events[i] == shorter[i]);
        }
    }
}

/// A window is as new as the newest of its events, of the statistics and of its own beginning.
pub proof fn windows_are_as_new_as_their_events(stats: Stats, now: i64, m: int)
    ensures
        ({
            let s = recomputed(stats, now);
            &&& s.daily.updated_at >= stats.updated_at && s.daily.updated_at >= s.daily.since
            &&& s.weekly.updated_at >= stats.updated_at && s.weekly.updated_at >= s.weekly.since
            &&& s.monthly.updated_at >= stats.updated_at && s.monthly.updated_at
                >= s.monthly.since
            &&& 0 <= m < s.events.len() ==> {
                &&& s.events[m].timestamp >= s.daily.since ==> s.daily.updated_at
                    >= s.events[m].timestamp
                &&& s.events[m].timestamp >= s.weekly.since ==> s.weekly.updated_at
                    >= s.events[m].timestamp
                &&& s.events[m].timestamp >= s.monthly.since ==> s.monthly.updated_at
                    >= s.events[m].timestamp
            }
            &&& s.daily.updated_at == stats.updated_at || s.daily.updated_at == s.daily.since
                || exists|i: int|
                0 <= i < s.events.len() && (#[trigger] s.events[i]).timestamp
                    == s.daily.updated_at
        }),
{
    let month_since = clock::capped(now - clock::MONTH_WINDOW_MS);
    let week_since = clock::capped(now - clock::WEEK_WINDOW_MS);
    let day_since = clock::capped(now - clock::DAY_WINDOW_MS);
    let events = kept_events(stats.events, month_since);
    let day = empty_window(day_since, clock::later_of(stats.updated_at, day_since));
    lemma_counted_dates(day, events, m);
    if counted(day, events).updated_at != day.updated_at {
        let i = choose|i: int|
            0 <= i < events.len() && (#[trigger] events[i]).timestamp == counted(
                day,
                events,
            ).updated_at;
        assert(recomputed(stats, now).events[i].timestamp == recomputed(
            stats,
            now,
        ).daily.updated_at);
    }
    lemma_counted_dates(
        empty_window(week_since, clock::later_of(stats.updated_at, week_since)),
        events,
        m,
    );
    lemma_counted_dates(
        empty_window(month_since, clock::later_of(stats.updated_at, month_since)),
        events,
        m,
    );
}

} // verus!
