//! What a running gateway knows: its settings, its statistics, which account answered which
//! response, and which accounts are cooling down.

use vstd::prelude::*;
use vstd::string::*;
use crate::account;
use crate::account::CodexAccount;
use crate::clock;
use crate::clock::RetryDelay;
use crate::collection;
use crate::collection::{Collection, CodexLocalAccessCollection};
use crate::sort;
use crate::stats;
use crate::stats::{CodexLocalAccessStats, Stats};
use crate::table;
use crate::table::Table;
use crate::text;

verus! {

/// How long a response is remembered, in milliseconds.
pub const RESPONSE_AFFINITY_TTL_MS: i64 = 86_400_000;

/// How many responses are remembered.
pub const MAX_RESPONSE_AFFINITY_BINDINGS: usize = 4096;

/// Which account answered a response, and when.
#[derive(Debug)]
pub struct ResponseAffinityBinding {
    pub account_id: String,
    pub updated_at_ms: i64,
}

/// Which account answered a response, and when, as a mathematical value.
pub struct Binding {
    pub account_id: Seq<char>,
    pub updated_at_ms: i64,
}

impl View for ResponseAffinityBinding {
    type V = Binding;

    open spec fn view(&self) -> Binding {
        Binding { account_id: self.account_id@, updated_at_ms: self.updated_at_ms }
    }
}

/// Until when an account is not to be asked for a model.
#[derive(Debug)]
pub struct AccountModelCooldown {
    pub next_retry_at_ms: i64,
}

impl View for AccountModelCooldown {
    type V = i64;

    open spec fn view(&self) -> i64 {
        self.next_retry_at_ms
    }
}

/// What a running gateway knows.
#[derive(Debug)]
pub struct GatewayRuntime {
    pub loaded: bool,
    pub collection: Option<CodexLocalAccessCollection>,
    pub stats: CodexLocalAccessStats,
    pub response_affinity: Table<ResponseAffinityBinding>,
    pub model_cooldowns: Table<AccountModelCooldown>,
    pub running: bool,
    pub actual_port: Option<u16>,
    pub last_error: Option<String>,
}

/// What a running gateway knows, as a mathematical value.
pub struct Runtime {
    pub loaded: bool,
    pub collection: Option<Collection>,
    pub stats: Stats,
    pub response_affinity: Seq<(Seq<char>, Binding)>,
    pub model_cooldowns: Seq<(Seq<char>, i64)>,
    pub running: bool,
    pub actual_port: Option<u16>,
    pub last_error: Option<Seq<char>>,
}

impl View for GatewayRuntime {
    type V = Runtime;

    open spec fn view(&self) -> Runtime {
        Runtime {
            loaded: self.loaded,
            collection: collection::opt_collection(self.collection),
            stats: self.stats@,
            response_affinity: self.response_affinity@,
            model_cooldowns: self.model_cooldowns@,
            running: self.running,
            actual_port: self.actual_port,
            last_error: text::opt_text(self.last_error),
        }
    }
}

impl Runtime {
    /// No response and no cooldown stands twice.
    pub open spec fn well_formed(self) -> bool {
        &&& table::keys_distinct(self.response_affinity)
        &&& table::keys_distinct(self.model_cooldowns)
    }
}

/// What a gateway knows before anything is loaded.
pub open spec fn blank_runtime() -> Runtime {
    Runtime {
        loaded: false,
        collection: None,
        stats: stats::undated_stats(),
        response_affinity: Seq::empty(),
        model_cooldowns: Seq::empty(),
        running: false,
        actual_port: None,
        last_error: None,
    }
}

impl Default for GatewayRuntime {
    fn default() -> (runtime: Self)
        ensures
            runtime@ == blank_runtime(),
            runtime@.well_formed(),
    {
        GatewayRuntime {
            loaded: false,
            collection: None,
            stats: CodexLocalAccessStats::default(),
            response_affinity: Table::new(),
            model_cooldowns: Table::new(),
            running: false,
            actual_port: None,
            last_error: None,
        }
    }
}

// ---------------------------------------------------------------------------------------
// Forgetting
// ---------------------------------------------------------------------------------------

/// The binding is not too old.
pub open spec fn fresh_at(now: i64) -> spec_fn(Binding) -> bool {
    |b: Binding| clock::capped(now - b.updated_at_ms) <= RESPONSE_AFFINITY_TTL_MS
}

/// The cooldown is not over.
pub open spec fn cooling_at(now: i64) -> spec_fn(i64) -> bool {
    |at: i64| at > now
}

/// Keys and dates of bindings.
pub open spec fn stamps(entries: Seq<(Seq<char>, Binding)>) -> Seq<(Seq<char>, i64)> {
    entries.map_values(|e: (Seq<char>, Binding)| (e.0, e.1.updated_at_ms))
}

/// Older dates first.
pub open spec fn older_first() -> spec_fn((Seq<char>, i64), (Seq<char>, i64)) -> bool {
    |a: (Seq<char>, i64), b: (Seq<char>, i64)| a.1 <= b.1
}

/// Keys and dates of the `n` oldest bindings.
pub open spec fn oldest(entries: Seq<(Seq<char>, Binding)>, n: int) -> Seq<(Seq<char>, i64)> {
    sort::stable_sorted(stamps(entries), older_first()).take(n)
}

/// The entries without those under the keys of `stamps`.
pub open spec fn without_keys<T>(
    entries: Seq<(Seq<char>, T)>,
    stamps: Seq<(Seq<char>, i64)>,
) -> Seq<(Seq<char>, T)>
    decreases stamps.len(),
{
    if stamps.len() == 0 {
        entries
    } else {
        table::dropped(without_keys(entries, stamps.drop_last()), stamps.last().0)
    }
}

/// The bindings without the oldest, where there are too many.
pub open spec fn limited(entries: Seq<(Seq<char>, Binding)>) -> Seq<(Seq<char>, Binding)> {
    if entries.len() <= MAX_RESPONSE_AFFINITY_BINDINGS {
        entries
    } else {
        without_keys(entries, oldest(entries, entries.len() - MAX_RESPONSE_AFFINITY_BINDINGS))
    }
}

/// What is still known at `now`: bindings that are not too old and not too many, and
/// cooldowns that are not over.
pub open spec fn pruned(runtime: Runtime, now: i64) -> Runtime {
    Runtime {
        response_affinity: limited(table::passing(runtime.response_affinity, fresh_at(now))),
        model_cooldowns: table::passing(runtime.model_cooldowns, cooling_at(now)),
        ..runtime
    }
}

fn list_stamps(bindings: &Table<ResponseAffinityBinding>) -> (list: Vec<(String, i64)>)
    ensures
        list@.map_values(|e: (String, i64)| (e.0@, e.1)) == stamps(bindings@),
{
    let mut list: Vec<(String, i64)> = Vec::new();
    let mut i: usize = 0;
    while i < bindings.len()
        invariant
            i <= bindings@.len(),
            list@.len() == i,
            forall|k: int|
                0 <= k < i ==> (#[trigger] list@[k]).0@ == bindings@[k].0 && list@[k].1
                    == bindings@[k].1.updated_at_ms,
        decreases bindings@.len() - i,
    {
        list.push((bindings.key(i).to_owned(), bindings.value(i).updated_at_ms));
        i += 1;
    }
    assert(list@.map_values(|e: (String, i64)| (e.0@, e.1)) =~= stamps(bindings@));
    list
}

/// Forgets bindings that are too old or too many and cooldowns that are over.
pub fn prune_runtime_routing_state(runtime: &mut GatewayRuntime, now: i64)
    ensures
        final(runtime)@ == pruned(old(runtime)@, now),
{
    let fresh = |b: &ResponseAffinityBinding| -> (yes: bool)
        ensures
            yes == (clock::capped(now - b.updated_at_ms) <= RESPONSE_AFFINITY_TTL_MS),
        { clock::saturating_sub(now, b.updated_at_ms) <= RESPONSE_AFFINITY_TTL_MS };
    runtime.response_affinity.retain(fresh, Ghost(fresh_at(now)));
    let cooling = |c: &AccountModelCooldown| -> (yes: bool)
        ensures
            yes == (c.next_retry_at_ms > now),
        { c.next_retry_at_ms > now };
    runtime.model_cooldowns.retain(cooling, Ghost(cooling_at(now)));
    if runtime.response_affinity.len() <= MAX_RESPONSE_AFFINITY_BINDINGS {
        return ;
    }
    let ghost entries = runtime.response_affinity@;
    let list = list_stamps(&runtime.response_affinity);
    let ghost f = |e: (String, i64)| (e.0@, e.1);
    let ghost exact = |a: (String, i64), b: (String, i64)| a.1 <= b.1;
    proof {
        sort::sorting_follows_map(list@, f, exact, older_first());
        assert(list@.map_values(f) =~= stamps(entries));
    }
    let before = |a: &(String, i64), b: &(String, i64)| -> (yes: bool)
        ensures
            yes == (a.1 <= b.1),
        { a.1 <= b.1 };
    let sorted = sort::stable_sort(list, before, Ghost(exact));
    let ghost by_age = sort::stable_sorted(stamps(entries), older_first());
    assert(sorted@.map_values(f) == by_age);
    let remove_count: usize = runtime.response_affinity.len() - MAX_RESPONSE_AFFINITY_BINDINGS;
    proof {
        sort::sorting_orders_and_keeps(stamps(entries), older_first());
        assert(by_age.len() == entries.len());
        assert(sorted@.len() == sorted@.map_values(f).len());
        assert(without_keys(entries, by_age.take(0)) == entries);
    }
    let mut i: usize = 0;
    while i < remove_count
        invariant
            i <= remove_count <= sorted@.len(),
            by_age == sorted@.map_values(f),
            f == (|e: (String, i64)| (e.0@, e.1)),
            runtime.response_affinity@ == without_keys(entries, by_age.take(i as int)),
            runtime.loaded == old(runtime).loaded,
            runtime.collection == old(runtime).collection,
            runtime.stats == old(runtime).stats,
            runtime.running == old(runtime).running,
            runtime.actual_port == old(runtime).actual_port,
            runtime.last_error == old(runtime).last_error,
            runtime.model_cooldowns@ == table::passing(
                old(runtime).model_cooldowns@,
                cooling_at(now),
            ),
        decreases remove_count - i,
    {
        proof {
            assert(by_age.take(i + 1).drop_last() =~= by_age.take(i as int));
            assert(by_age.take(i + 1).last() == f(sorted@[i as int]));
        }
        runtime.response_affinity.remove(sorted[i].0.as_str());
        i += 1;
    }
}

// ---------------------------------------------------------------------------------------
// Responses and accounts
// ---------------------------------------------------------------------------------------

/// The account of a binding.
pub open spec fn bound_account(binding: Option<Binding>) -> Option<Seq<char>> {
    match binding {
        Some(b) => Some(b.account_id),
        None => None,
    }
}

/// The account that answered a response, as far as that is still known at `now`.
pub fn resolve_affinity_account_at(
    runtime: &mut GatewayRuntime,
    previous_response_id: &str,
    now: i64,
) -> (account: Option<String>)
    ensures
        final(runtime)@ == pruned(old(runtime)@, now),
        text::opt_text(account) == bound_account(
            table::lookup(pruned(old(runtime)@, now).response_affinity, previous_response_id@),
        ),
{
    prune_runtime_routing_state(runtime, now);
    match runtime.response_affinity.get(previous_response_id) {
        Some(binding) => Some(binding.account_id.clone()),
        None => None,
    }
}

/// The account that answered a response, as far as that is still known.
pub fn resolve_affinity_account(runtime: &mut GatewayRuntime, previous_response_id: &str) -> (account:
    Option<String>)
    ensures
        exists|now: i64|
            final(runtime)@ == #[trigger] pruned(old(runtime)@, now) && text::opt_text(account)
                == bound_account(
                table::lookup(
                    pruned(old(runtime)@, now).response_affinity,
                    previous_response_id@,
                ),
            ),
{
    let now = clock::now_ms();
    resolve_affinity_account_at(runtime, previous_response_id, now)
}

/// What is known after an account has answered a response.
pub open spec fn bound(
    runtime: Runtime,
    response_id: Seq<char>,
    account_id: Seq<char>,
    now: i64,
) -> Runtime {
    let response = text::trimmed(response_id);
    let account = text::trimmed(account_id);
    if response.len() == 0 || account.len() == 0 {
        runtime
    } else {
        let before = pruned(runtime, now);
        pruned(
            Runtime {
                response_affinity: table::put(
                    before.response_affinity,
                    response,
                    Binding { account_id: account, updated_at_ms: now },
                ),
                ..before
            },
            now,
        )
    }
}

/// Remembers which account has answered a response at `now`.
pub fn bind_response_affinity_at(
    runtime: &mut GatewayRuntime,
    response_id: &str,
    account_id: &str,
    now: i64,
)
    ensures
        final(runtime)@ == bound(old(runtime)@, response_id@, account_id@, now),
{
    let response = text::trim(response_id);
    let account = text::trim(account_id);
    if response.as_str().is_empty() || account.as_str().is_empty() {
        return ;
    }
    prune_runtime_routing_state(runtime, now);
    runtime.response_affinity.insert(
        response,
        ResponseAffinityBinding { account_id: account, updated_at_ms: now },
    );
    prune_runtime_routing_state(runtime, now);
}

/// Remembers which account has answered a response just now.
pub fn bind_response_affinity(runtime: &mut GatewayRuntime, response_id: &str, account_id: &str)
    ensures
        exists|now: i64|
            final(runtime)@ == #[trigger] bound(old(runtime)@, response_id@, account_id@, now),
{
    let now = clock::now_ms();
    bind_response_affinity_at(runtime, response_id, account_id, now);
}

// ---------------------------------------------------------------------------------------
// Cooldowns
// ---------------------------------------------------------------------------------------

/// The key under which the cooldown of an account for a model stands.
pub open spec fn cooldown_key(account_id: Seq<char>, model_key: Seq<char>) -> Option<Seq<char>> {
    let account = text::trimmed(account_id);
    let model = text::trimmed(model_key);
    if account.len() == 0 || model.len() == 0 {
        None
    } else {
        Some(account.push('\u{1f}') + model)
    }
}

/// The key under which the cooldown of an account for a model stands.
pub fn build_cooldown_key(account_id: &str, model_key: &str) -> (key: Option<String>)
    ensures
        text::opt_text(key) == cooldown_key(account_id@, model_key@),
{
    let account = text::trim(account_id);
    let model = text::trim(model_key);
    if account.as_str().is_empty() || model.as_str().is_empty() {
        return None;
    }
    let mut key = account;
    key.push('\u{1f}');
    key.append(model.as_str());
    Some(key)
}

/// What is known once an account may be asked for a model again.
pub open spec fn cleared(
    runtime: Runtime,
    account_id: Seq<char>,
    model_key: Seq<char>,
    now: i64,
) -> Runtime {
    match cooldown_key(account_id, model_key) {
        None => runtime,
        Some(key) => {
            let before = pruned(runtime, now);
            Runtime { model_cooldowns: table::dropped(before.model_cooldowns, key), ..before }
        },
    }
}

/// Ends the cooldown of an account for a model, at `now`.
pub fn clear_model_cooldown_at(
    runtime: &mut GatewayRuntime,
    account_id: &str,
    model_key: &str,
    now: i64,
)
    ensures
        final(runtime)@ == cleared(old(runtime)@, account_id@, model_key@, now),
{
    match build_cooldown_key(account_id, model_key) {
        None => {},
        Some(key) => {
            prune_runtime_routing_state(runtime, now);
            runtime.model_cooldowns.remove(key.as_str());
        },
    }
}

/// Ends the cooldown of an account for a model.
pub fn clear_model_cooldown(runtime: &mut GatewayRuntime, account_id: &str, model_key: &str)
    ensures
        exists|now: i64|
            final(runtime)@ == #[trigger] cleared(old(runtime)@, account_id@, model_key@, now),
{
    let now = clock::now_ms();
    clear_model_cooldown_at(runtime, account_id, model_key, now);
}

/// When a cooldown of `millis` milliseconds that begins at `now` is over. Of a number of
/// milliseconds that is out of the range of `i64` only the lowest 64 bits count.
pub open spec fn cooldown_end(now: i64, millis: int) -> i64 {
    clock::capped(now + clock::low_bits(millis))
}

/// What is known once an account is not to be asked for a model for a while.
pub open spec fn cooled(
    runtime: Runtime,
    account_id: Seq<char>,
    model_key: Seq<char>,
    retry_after: RetryDelay,
    now: i64,
) -> Runtime {
    match cooldown_key(account_id, model_key) {
        None => runtime,
        Some(key) => if retry_after.millis == 0 {
            runtime
        } else {
            let before = pruned(runtime, now);
            Runtime {
                model_cooldowns: table::put(
                    before.model_cooldowns,
                    key,
                    cooldown_end(now, retry_after.millis as int),
                ),
                ..before
            }
        },
    }
}

/// Begins a cooldown of an account for a model, at `now`.
pub fn set_model_cooldown_at(
    runtime: &mut GatewayRuntime,
    account_id: &str,
    model_key: &str,
    retry_after: RetryDelay,
    now: i64,
)
    ensures
        final(runtime)@ == cooled(old(runtime)@, account_id@, model_key@, retry_after, now),
{
    match build_cooldown_key(account_id, model_key) {
        None => {},
        Some(key) => {
            if retry_after.millis > 0 {
                let next_retry_at_ms = clock::saturating_add(
                    now,
                    clock::keep_low_bits(retry_after.millis),
                );
                prune_runtime_routing_state(runtime, now);
                runtime.model_cooldowns.insert(key, AccountModelCooldown { next_retry_at_ms });
            }
        },
    }
}

/// Begins a cooldown of an account for a model.
pub fn set_model_cooldown(
    runtime: &mut GatewayRuntime,
    account_id: &str,
    model_key: &str,
    retry_after: RetryDelay,
)
    ensures
        exists|now: i64|
            final(runtime)@ == #[trigger] cooled(
                old(runtime)@,
                account_id@,
                model_key@,
                retry_after,
                now,
            ),
{
    let now = clock::now_ms();
    set_model_cooldown_at(runtime, account_id, model_key, retry_after, now);
}

/// How long an account is still not to be asked for a model, in milliseconds.
pub open spec fn cooldown_wait(
    runtime: Runtime,
    account_id: Seq<char>,
    model_key: Seq<char>,
    now: i64,
) -> Option<int> {
    match cooldown_key(account_id, model_key) {
        None => None,
        Some(key) => match table::lookup(pruned(runtime, now).model_cooldowns, key) {
            Some(at) if at > now => Some(clock::capped(at - now) as int),
            _ => None,
        },
    }
}

/// What is known after a cooldown was asked for.
pub open spec fn asked(
    runtime: Runtime,
    account_id: Seq<char>,
    model_key: Seq<char>,
    now: i64,
) -> Runtime {
    if cooldown_key(account_id, model_key) is Some {
        pruned(runtime, now)
    } else {
        runtime
    }
}

/// How long an account is still not to be asked for a model at `now`.
pub fn get_model_cooldown_wait_at(
    runtime: &mut GatewayRuntime,
    account_id: &str,
    model_key: &str,
    now: i64,
) -> (wait: Option<RetryDelay>)
    ensures
        final(runtime)@ == asked(old(runtime)@, account_id@, model_key@, now),
        clock::opt_millis(wait) == cooldown_wait(old(runtime)@, account_id@, model_key@, now),
{
    match build_cooldown_key(account_id, model_key) {
        None => None,
        Some(key) => {
            prune_runtime_routing_state(runtime, now);
            match runtime.model_cooldowns.get(key.as_str()) {
                None => None,
                Some(cooldown) => {
                    let wait_ms = clock::saturating_sub(cooldown.next_retry_at_ms, now);
                    if wait_ms <= 0 {
                        None
                    } else {
                        Some(RetryDelay::from_millis(wait_ms as u64))
                    }
                },
            }
        },
    }
}

/// How long an account is still not to be asked for a model.
pub fn get_model_cooldown_wait(
    runtime: &mut GatewayRuntime,
    account_id: &str,
    model_key: &str,
) -> (wait: Option<RetryDelay>)
    ensures
        exists|now: i64|
            final(runtime)@ == #[trigger] asked(old(runtime)@, account_id@, model_key@, now)
                && clock::opt_millis(wait) == cooldown_wait(
                old(runtime)@,
                account_id@,
                model_key@,
                now,
            ),
{
    let now = clock::now_ms();
    get_model_cooldown_wait_at(runtime, account_id, model_key, now)
}

// ---------------------------------------------------------------------------------------
// Laws of what is remembered
// ---------------------------------------------------------------------------------------

proof fn lemma_dropped_len<T>(entries: Seq<(Seq<char>, T)>, key: Seq<char>)
    requires
        table::keys_distinct(entries),
    ensures
        dropped_len(entries, key) == entries.len() - if table::lookup(entries, key) is Some {
            1int
        } else {
            0int
        },
    decreases entries.len(),
{
    if entries.len() > 0 {
        let shorter = entries.drop_last();
        assert forall|i: int, j: int| 0 <= i < j < shorter.len() implies (
        #[trigger] shorter[i]).0 != (#[trigger] shorter[j]).0 by {
            assert(entries[i].0 != entries[j].0);
        }
        lemma_dropped_len(shorter, key);
        assert(entries =~= shorter.push(entries.last()));
        table::lookup_push(shorter, entries.last(), key);
        if entries.last().0 == key {
            if table::lookup(shorter, key) is Some {
                table::lookup_is_entry(shorter, key);
                let i = choose|i: int|
                    0 <= i < shorter.len() && (#[trigger] shorter[i]).0 == key && Some(shorter[i].1)
                        == table::lookup(shorter, key);
                assert(entries[i].0 != entries[entries.len() - 1].0);
            }
        }
    }
}

spec fn dropped_len<T>(entries: Seq<(Seq<char>, T)>, key: Seq<char>) -> int {
    table::dropped(entries, key).len() as int
}

/// The stamps have keys that differ from each other.
spec fn stamps_distinct(s: Seq<(Seq<char>, i64)>) -> bool {
    forall|i: int, j: int| 0 <= i < j < s.len() ==> (#[trigger] s[i]).0 != (#[trigger] s[j]).0
}

proof fn lemma_without_keys<T>(
    entries: Seq<(Seq<char>, T)>,
    s: Seq<(Seq<char>, i64)>,
    key: Seq<char>,
)
    requires
        table::keys_distinct(entries),
        stamps_distinct(s),
        forall|i: int|
            0 <= i < s.len() ==> table::lookup(entries, (#[trigger] s[i]).0) is Some,
    ensures
        table::keys_distinct(without_keys(entries, s)),
        without_keys(entries, s).len() == entries.len() - s.len(),
        table::lookup(without_keys(entries, s), key) == (if exists|i: int|
            0 <= i < s.len() && (#[trigger] s[i]).0 == key {
            None
        } else {
            table::lookup(entries, key)
        }),
    decreases s.len(),
{
    if s.len() > 0 {
        let shorter = s.drop_last();
        let last = s.last().0;
        assert(stamps_distinct(shorter)) by {
            assert forall|i: int, j: int| 0 <= i < j < shorter.len() implies (
            #[trigger] shorter[i]).0 != (#[trigger] shorter[j]).0 by {
                assert(s[i].0 != s[j].0);
            }
        }
        assert forall|i: int| 0 <= i < shorter.len() implies table::lookup(
            entries,
            (#[trigger] shorter[i]).0,
        ) is Some by {
            assert(table::lookup(entries, s[i].0) is Some);
        }
        lemma_without_keys(entries, shorter, key);
        lemma_without_keys(entries, shorter, last);
        let before = without_keys(entries, shorter);
        assert(!exists|i: int| 0 <= i < shorter.len() && (#[trigger] shorter[i]).0 == last) by {
            assert forall|i: int| 0 <= i < shorter.len() implies (#[trigger] shorter[i]).0
                != last by {
                assert(s[i].0 != s[s.len() - 1].0);
            }
        }
        assert(table::lookup(entries, s[s.len() - 1].0) is Some);
        lemma_dropped_len(before, last);
        if before.len() > 0 {
            table::keys_stay_distinct(before, last, before[0].1, |v: T| true);
        }
        table::lookup_after_drop(before, last, key);
        if exists|i: int| 0 <= i < s.len() && (#[trigger] s[i]).0 == key {
            let i = choose|i: int| 0 <= i < s.len() && (#[trigger] s[i]).0 == key;
            if i < shorter.len() {
                assert(shorter[i].0 == key);
            }
        } else {
            assert(s[s.len() - 1].0 != key);
            assert forall|i: int| 0 <= i < shorter.len() implies (#[trigger] shorter[i]).0
                != key by {
                assert(s[i].0 != key);
            }
        }
    }
}

proof fn lemma_by_age(entries: Seq<(Seq<char>, Binding)>)
    requires
        table::keys_distinct(entries),
    ensures
        ({
            let by_age = sort::stable_sorted(stamps(entries), older_first());
            &&& by_age.len() == entries.len()
            &&& stamps_distinct(by_age)
            &&& sort::sorted_by(by_age, older_first())
            &&& forall|i: int|
                0 <= i < by_age.len() ==> (table::lookup(entries, (#[trigger] by_age[i]).0) matches Some(
                    b,
                ) && b.updated_at_ms == by_age[i].1)
            &&& forall|k: int|
                0 <= k < entries.len() ==> by_age.contains(
                    ((#[trigger] entries[k]).0, entries[k].1.updated_at_ms),
                )
        }),
{
    broadcast use vstd::seq_lib::group_to_multiset_ensures;

    let all = stamps(entries);
    let by_age = sort::stable_sorted(all, older_first());
    sort::sorting_orders_and_keeps(all, older_first());
    assert(all.no_duplicates()) by {
        assert forall|i: int, j: int|
            0 <= i < all.len() && 0 <= j < all.len() && i != j implies all[i] != all[j] by {
            if i < j {
                assert(entries[i].0 != entries[j].0);
            } else {
                assert(entries[j].0 != entries[i].0);
            }
        }
    }
    all.lemma_multiset_has_no_duplicates();
    by_age.lemma_multiset_has_no_duplicates_conv();
    assert forall|i: int| 0 <= i < by_age.len() implies (table::lookup(
        entries,
        (#[trigger] by_age[i]).0,
    ) matches Some(b) && b.updated_at_ms == by_age[i].1) by {
        assert(by_age.to_multiset().count(by_age[i]) > 0);
        assert(all.contains(by_age[i]));
        let k = choose|k: int| 0 <= k < all.len() && all[k] == by_age[i];
        table::distinct_entry_is_found(entries, k);
    }
    assert forall|i: int, j: int| 0 <= i < j < by_age.len() implies (#[trigger] by_age[i]).0 != (
    #[trigger] by_age[j]).0 by {
        if by_age[i].0 == by_age[j].0 {
            assert(table::lookup(entries, by_age[i].0) is Some);
            assert(table::lookup(entries, by_age[j].0) is Some);
            assert(by_age[i] == by_age[j]);
        }
    }
    assert forall|k: int| 0 <= k < entries.len() implies by_age.contains(
        ((#[trigger] entries[k]).0, entries[k].1.updated_at_ms),
    ) by {
        assert(all[k] == (entries[k].0, entries[k].1.updated_at_ms));
        assert(all.to_multiset().count(all[k]) > 0);
        assert(by_age.to_multiset().count(all[k]) > 0);
    }
}

/// At most [`MAX_RESPONSE_AFFINITY_BINDINGS`] bindings are kept, none that is left out is
/// newer than one that is kept, and what is kept is unchanged.
pub proof fn oldest_bindings_go_first(
    entries: Seq<(Seq<char>, Binding)>,
    kept: Seq<char>,
    left_out: Seq<char>,
)
    requires
        table::keys_distinct(entries),
    ensures
        table::keys_distinct(limited(entries)),
        limited(entries).len() <= MAX_RESPONSE_AFFINITY_BINDINGS,
        entries.len() > MAX_RESPONSE_AFFINITY_BINDINGS ==> limited(entries).len()
            == MAX_RESPONSE_AFFINITY_BINDINGS,
        table::lookup(limited(entries), kept) is Some ==> table::lookup(limited(entries), kept)
            == table::lookup(entries, kept),
        table::lookup(limited(entries), kept) is Some && table::lookup(entries, left_out) is Some
            && table::lookup(limited(entries), left_out) is None ==> table::lookup(
            entries,
            left_out,
        )->0.updated_at_ms <= table::lookup(entries, kept)->0.updated_at_ms,
{
    if entries.len() > MAX_RESPONSE_AFFINITY_BINDINGS {
        let n = entries.len() - MAX_RESPONSE_AFFINITY_BINDINGS;
        let by_age = sort::stable_sorted(stamps(entries), older_first());
        let gone = oldest(entries, n);
        lemma_by_age(entries);
        assert forall|i: int, j: int| 0 <= i < j < gone.len() implies (#[trigger] gone[i]).0 != (
        #[trigger] gone[j]).0 by {
            assert(by_age[i].0 != by_age[j].0);
        }
        assert forall|i: int| 0 <= i < gone.len() implies table::lookup(
            entries,
            (#[trigger] gone[i]).0,
        ) is Some by {
            assert(table::lookup(entries, by_age[i].0) is Some);
        }
        lemma_without_keys(entries, gone, kept);
        lemma_without_keys(entries, gone, left_out);
        if table::lookup(limited(entries), kept) is Some && table::lookup(entries, left_out) is Some
            && table::lookup(limited(entries), left_out) is None {
            let i = choose|i: int| 0 <= i < gone.len() && (#[trigger] gone[i]).0 == left_out;
            table::lookup_is_entry(entries, kept);
            let k = choose|k: int|
                0 <= k < entries.len() && (#[trigger] entries[k]).0 == kept && Some(entries[k].1)
                    == table::lookup(entries, kept);
            let stamp = (entries[k].0, entries[k].1.updated_at_ms);
            let j = choose|j: int| 0 <= j < by_age.len() && by_age[j] == stamp;
            if j < n {
                assert(gone[j].0 == kept);
            }
            let order = older_first();
            assert(order(by_age[i], by_age[j]));
            assert(table::lookup(entries, by_age[i].0) is Some);
        }
    }
}

/// Forgetting makes nothing stand twice.
pub proof fn pruning_keeps_form(runtime: Runtime, now: i64)
    requires
        runtime.well_formed(),
    ensures
        pruned(runtime, now).well_formed(),
        pruned(runtime, now).response_affinity.len() <= MAX_RESPONSE_AFFINITY_BINDINGS,
{
    lemma_passing_distinct(runtime.response_affinity, fresh_at(now));
    lemma_passing_distinct(runtime.model_cooldowns, cooling_at(now));
    oldest_bindings_go_first(
        table::passing(runtime.response_affinity, fresh_at(now)),
        Seq::empty(),
        Seq::empty(),
    );
}

proof fn lemma_passing_distinct<T>(entries: Seq<(Seq<char>, T)>, pass: spec_fn(T) -> bool)
    requires
        table::keys_distinct(entries),
    ensures
        table::keys_distinct(table::passing(entries, pass)),
{
    if entries.len() > 0 {
        table::keys_stay_distinct(entries, entries[0].0, entries[0].1, pass);
    }
}

/// No operation makes anything stand twice, and never are more than
/// [`MAX_RESPONSE_AFFINITY_BINDINGS`] responses remembered.
pub proof fn memory_keeps_form(
    runtime: Runtime,
    response_id: Seq<char>,
    account_id: Seq<char>,
    model_key: Seq<char>,
    retry_after: RetryDelay,
    now: i64,
)
    requires
        runtime.well_formed(),
        runtime.response_affinity.len() <= MAX_RESPONSE_AFFINITY_BINDINGS,
    ensures
        ({
            let next = bound(runtime, response_id, account_id, now);
            next.well_formed() && next.response_affinity.len() <= MAX_RESPONSE_AFFINITY_BINDINGS
        }),
        ({
            let next = cooled(runtime, account_id, model_key, retry_after, now);
            next.well_formed() && next.response_affinity.len() <= MAX_RESPONSE_AFFINITY_BINDINGS
        }),
        ({
            let next = cleared(runtime, account_id, model_key, now);
            next.well_formed() && next.response_affinity.len() <= MAX_RESPONSE_AFFINITY_BINDINGS
        }),
        ({
            let next = asked(runtime, account_id, model_key, now);
            next.well_formed() && next.response_affinity.len() <= MAX_RESPONSE_AFFINITY_BINDINGS
        }),
{
    let before = pruned(runtime, now);
    pruning_keeps_form(runtime, now);
    let response = text::trimmed(response_id);
    let binding = Binding { account_id: text::trimmed(account_id), updated_at_ms: now };
    table::keys_stay_distinct(before.response_affinity, response, binding, |b: Binding| true);
    let next = Runtime {
        response_affinity: table::put(before.response_affinity, response, binding),
        ..before
    };
    pruning_keeps_form(next, now);
    if let Some(key) = cooldown_key(account_id, model_key) {
        table::keys_stay_distinct(
            before.model_cooldowns,
            key,
            cooldown_end(now, retry_after.millis as int),
            |at: i64| true,
        );
    }
}

/// A response is answered for by the account that it was bound to, for as long as responses
/// are remembered, if no binding is dated later than the new one.
pub proof fn binding_is_remembered(
    runtime: Runtime,
    response_id: Seq<char>,
    account_id: Seq<char>,
    now: i64,
    then_now: i64,
)
    requires
        runtime.well_formed(),
        text::trimmed(response_id).len() > 0,
        text::trimmed(account_id).len() > 0,
        then_now - now <= RESPONSE_AFFINITY_TTL_MS,
        forall|i: int|
            0 <= i < runtime.response_affinity.len() ==> (
            #[trigger] runtime.response_affinity[i]).1.updated_at_ms <= now,
    ensures
        bound_account(
            table::lookup(
                pruned(
                    bound(runtime, response_id, account_id, now),
                    then_now,
                ).response_affinity,
                text::trimmed(response_id),
            ),
        ) == Some(text::trimmed(account_id)),
{
    let response = text::trimmed(response_id);
    let binding = Binding { account_id: text::trimmed(account_id), updated_at_ms: now };
    let first = table::passing(runtime.response_affinity, fresh_at(now));
    lemma_passing_distinct(runtime.response_affinity, fresh_at(now));
    lemma_passing_dates(runtime.response_affinity, fresh_at(now), now);
    let before = limited(first);
    oldest_bindings_go_first(first, response, response);
    let with_new = table::put(before, response, binding);
    table::keys_stay_distinct(before, response, binding, |b: Binding| true);
    table::lookup_after_put(before, response, binding, response);
    let second = table::passing(with_new, fresh_at(now));
    table::lookup_after_passing(with_new, fresh_at(now), response);
    assert(fresh_at(now)(binding));
    lemma_passing_distinct(with_new, fresh_at(now));
    assert(table::lookup(limited(second), response) == Some(binding)) by {
        if second.len() > MAX_RESPONSE_AFFINITY_BINDINGS {
            assert(second.len() == MAX_RESPONSE_AFFINITY_BINDINGS + 1);
            assert(table::lookup(before, response) is None);
            lemma_all_pass(with_new, fresh_at(now));
            table::new_key_comes_last(before, response, binding);
            lemma_limited_dates(first, now);
            lemma_new_binding_stays(before, response, binding);
        }
    }
    let third = table::passing(limited(second), fresh_at(then_now));
    oldest_bindings_go_first(second, response, response);
    table::lookup_after_passing(limited(second), fresh_at(then_now), response);
    assert(fresh_at(then_now)(binding));
    assert(limited(third) == third);
}

/// All bindings are dated `now` or before.
spec fn dated_by(entries: Seq<(Seq<char>, Binding)>, now: i64) -> bool {
    forall|i: int| 0 <= i < entries.len() ==> (#[trigger] entries[i]).1.updated_at_ms <= now
}

proof fn lemma_limited_dates(entries: Seq<(Seq<char>, Binding)>, now: i64)
    requires
        table::keys_distinct(entries),
        dated_by(entries, now),
    ensures
        dated_by(limited(entries), now),
{
    let kept = limited(entries);
    assert forall|i: int| 0 <= i < kept.len() implies (#[trigger] kept[i]).1.updated_at_ms
        <= now by {
        oldest_bindings_go_first(entries, kept[i].0, kept[i].0);
        table::distinct_entry_is_found(kept, i);
        table::lookup_is_entry(entries, kept[i].0);
    }
}

proof fn lemma_new_binding_stays(
    before: Seq<(Seq<char>, Binding)>,
    response: Seq<char>,
    binding: Binding,
)
    requires
        table::keys_distinct(before),
        before.len() == MAX_RESPONSE_AFFINITY_BINDINGS,
        table::lookup(before, response) is None,
        dated_by(before, binding.updated_at_ms),
    ensures
        table::lookup(limited(before.push((response, binding))), response) == Some(binding),
{
    let entry = (response, binding);
    let all = before.push(entry);
    let order = older_first();
    let stamp = (response, binding.updated_at_ms);
    table::lookup_push(before, entry, response);
    table::new_key_comes_last(before, response, binding);
    table::keys_stay_distinct(before, response, binding, |b: Binding| true);
    lemma_by_age(before);
    lemma_by_age(all);
    let old_by_age = sort::stable_sorted(stamps(before), order);
    let by_age = sort::stable_sorted(stamps(all), order);
    assert(stamps(all).drop_last() =~= stamps(before));
    assert(stamps(all).last() == stamp);
    assert(by_age == old_by_age.push(stamp)) by {
        let last = old_by_age.last();
        assert(table::lookup(before, old_by_age[old_by_age.len() - 1].0) is Some);
        table::lookup_is_entry(before, last.0);
        assert(order(last, stamp));
    }
    let gone = oldest(all, 1);
    assert(gone[0] == old_by_age[0]);
    assert(table::lookup(before, old_by_age[0].0) is Some);
    assert(table::lookup(all, by_age[0].0) is Some);
    assert forall|i: int| 0 <= i < gone.len() implies table::lookup(
        all,
        (#[trigger] gone[i]).0,
    ) is Some by {
    }
    lemma_without_keys(all, gone, response);
}

proof fn lemma_passing_dates(
    entries: Seq<(Seq<char>, Binding)>,
    pass: spec_fn(Binding) -> bool,
    now: i64,
)
    requires
        dated_by(entries, now),
    ensures
        dated_by(table::passing(entries, pass), now),
    decreases entries.len(),
{
    if entries.len() > 0 {
        let shorter = entries.drop_last();
        assert forall|i: int| 0 <= i < shorter.len() implies (
        #[trigger] shorter[i]).1.updated_at_ms <= now by {
            assert(entries[i].1.updated_at_ms <= now);
        }
        lemma_passing_dates(shorter, pass, now);
        assert(entries[entries.len() - 1].1.updated_at_ms <= now);
    }
}

proof fn lemma_all_pass<T>(entries: Seq<(Seq<char>, T)>, pass: spec_fn(T) -> bool)
    requires
        table::passing(entries, pass).len() == entries.len(),
    ensures
        table::passing(entries, pass) == entries,
    decreases entries.len(),
{
    lemma_passing_len(entries, pass);
    if entries.len() > 0 {
        lemma_passing_len(entries.drop_last(), pass);
        lemma_all_pass(entries.drop_last(), pass);
        assert(entries.drop_last().push(entries.last()) =~= entries);
    } else {
        assert(table::passing(entries, pass) =~= entries);
    }
}

proof fn lemma_passing_len<T>(entries: Seq<(Seq<char>, T)>, pass: spec_fn(T) -> bool)
    ensures
        table::passing(entries, pass).len() <= entries.len(),
    decreases entries.len(),
{
    if entries.len() > 0 {
        lemma_passing_len(entries.drop_last(), pass);
    }
}

/// An account that was told to wait is not asked again before its time is over: at
/// `then_now` it has to wait for the rest of it.
pub proof fn cooldown_lasts(
    runtime: Runtime,
    account_id: Seq<char>,
    model_key: Seq<char>,
    retry_after: RetryDelay,
    now: i64,
    then_now: i64,
)
    requires
        runtime.well_formed(),
        cooldown_key(account_id, model_key) is Some,
        0 < retry_after.millis,
        now + retry_after.millis <= i64::MAX,
        retry_after.millis <= i64::MAX,
        0 <= now <= then_now,
    ensures
        then_now < now + retry_after.millis ==> cooldown_wait(
            cooled(runtime, account_id, model_key, retry_after, now),
            account_id,
            model_key,
            then_now,
        ) == Some(now + retry_after.millis - then_now),
        then_now >= now + retry_after.millis ==> cooldown_wait(
            cooled(runtime, account_id, model_key, retry_after, now),
            account_id,
            model_key,
            then_now,
        ) is None,
{
    let key = cooldown_key(account_id, model_key)->0;
    let before = pruned(runtime, now);
    let end = cooldown_end(now, retry_after.millis as int);
    assert(clock::low_bits(retry_after.millis as int) == retry_after.millis) by {
        vstd::arithmetic::div_mod::lemma_small_mod(
            retry_after.millis as nat,
            0x1_0000_0000_0000_0000,
        );
    }
    pruning_keeps_form(runtime, now);
    table::keys_stay_distinct(before.model_cooldowns, key, end, |at: i64| true);
    table::lookup_after_put(before.model_cooldowns, key, end, key);
    table::lookup_after_passing(
        table::put(before.model_cooldowns, key, end),
        cooling_at(then_now),
        key,
    );
}

/// An account whose cooldown was ended may be asked at once.
pub proof fn cleared_cooldown_is_over(
    runtime: Runtime,
    account_id: Seq<char>,
    model_key: Seq<char>,
    now: i64,
    then_now: i64,
)
    requires
        runtime.well_formed(),
    ensures
        cooldown_wait(
            cleared(runtime, account_id, model_key, now),
            account_id,
            model_key,
            then_now,
        ) is None,
{
    if let Some(key) = cooldown_key(account_id, model_key) {
        let before = pruned(runtime, now);
        pruning_keeps_form(runtime, now);
        let rest = table::dropped(before.model_cooldowns, key);
        table::keys_stay_distinct(before.model_cooldowns, key, 0i64, |at: i64| true);
        table::lookup_after_drop(before.model_cooldowns, key, key);
        table::lookup_after_passing(rest, cooling_at(then_now), key);
    }
}

/// A cooldown of one account and model touches no other one: their keys differ, if no
/// account id has the separator in it.
pub proof fn cooldown_keys_differ(
    account_a: Seq<char>,
    model_a: Seq<char>,
    account_b: Seq<char>,
    model_b: Seq<char>,
)
    requires
        cooldown_key(account_a, model_a) is Some,
        !account_a.contains('\u{1f}'),
        !account_b.contains('\u{1f}'),
        cooldown_key(account_a, model_a) == cooldown_key(account_b, model_b),
    ensures
        text::trimmed(account_a) == text::trimmed(account_b),
        text::trimmed(model_a) == text::trimmed(model_b),
{
    let a = text::trimmed(account_a);
    let b = text::trimmed(account_b);
    let key_a = a.push('\u{1f}') + text::trimmed(model_a);
    let key_b = b.push('\u{1f}') + text::trimmed(model_b);
    text::trimmed_is_part(account_a);
    text::trimmed_is_part(account_b);
    assert(key_a == key_b);
    assert(key_a[a.len() as int] == '\u{1f}');
    assert(key_b[b.len() as int] == '\u{1f}');
    if a.len() < b.len() {
        assert(key_b[a.len() as int] == b[a.len() as int]);
        assert(b.contains('\u{1f}'));
    }
    if b.len() < a.len() {
        assert(key_a[b.len() as int] == a[b.len() as int]);
        assert(a.contains('\u{1f}'));
    }
    assert(a =~= key_a.take(a.len() as int));
    assert(b =~= key_b.take(b.len() as int));
    assert(text::trimmed(model_a) =~= key_a.skip(a.len() as int + 1));
    assert(text::trimmed(model_b) =~= key_b.skip(b.len() as int + 1));
}

// ---------------------------------------------------------------------------------------
// Loading and settings
// ---------------------------------------------------------------------------------------

/// What is known once settings and statistics are loaded.
pub open spec fn loaded_with(
    runtime: Runtime,
    settings: Collection,
    loaded_stats: Stats,
    now: i64,
) -> Runtime {
    Runtime {
        loaded: true,
        collection: Some(settings),
        stats: stats::normalized(loaded_stats, now),
        ..runtime
    }
}

/// Takes over loaded settings and statistics. Says whether the gateway is to be started.
pub fn finish_loading_at(
    runtime: &mut GatewayRuntime,
    settings: CodexLocalAccessCollection,
    loaded_stats: CodexLocalAccessStats,
    now: i64,
) -> (start: bool)
    ensures
        final(runtime)@ == loaded_with(old(runtime)@, settings@, loaded_stats@, now),
        start == settings.enabled,
{
    let start = settings.enabled;
    let mut loaded_stats = loaded_stats;
    stats::normalize_stats_at(&mut loaded_stats, now);
    runtime.loaded = true;
    runtime.collection = Some(settings);
    runtime.stats = loaded_stats;
    start
}

/// Takes over loaded settings and statistics. Says whether the gateway is to be started.
pub fn finish_loading(
    runtime: &mut GatewayRuntime,
    settings: CodexLocalAccessCollection,
    loaded_stats: CodexLocalAccessStats,
) -> (start: bool)
    ensures
        exists|now: i64|
            final(runtime)@ == #[trigger] loaded_with(
                old(runtime)@,
                settings@,
                loaded_stats@,
                now,
            ),
        start == settings.enabled,
{
    let now = clock::now_ms();
    finish_loading_at(runtime, settings, loaded_stats, now)
}

/// Takes over settings that have been stored.
pub fn adopt_collection(runtime: &mut GatewayRuntime, settings: CodexLocalAccessCollection)
    ensures
        final(runtime)@ == (Runtime {
            loaded: true,
            collection: Some(settings@),
            last_error: None,
            ..old(runtime)@
        }),
{
    runtime.loaded = true;
    runtime.collection = Some(settings);
    runtime.last_error = None;
}

/// Lets the statistics begin anew at `now`: they count nothing then, whatever they counted
/// before.
pub fn clear_local_access_stats(runtime: &mut GatewayRuntime, now: i64)
    ensures
        final(runtime)@ == (Runtime { stats: stats::empty_stats(now), ..old(runtime)@ }),
        stats::counts_nothing(final(runtime)@.stats),
{
    runtime.stats = stats::empty_stats_at(now);
}

/// Notes that loading has failed.
pub fn restore_local_access_gateway(runtime: &mut GatewayRuntime, error: String)
    ensures
        final(runtime)@ == (Runtime {
            loaded: true,
            last_error: Some(error@),
            ..old(runtime)@
        }),
{
    runtime.loaded = true;
    runtime.last_error = Some(error);
}

// ---------------------------------------------------------------------------------------
// Starting and stopping
// ---------------------------------------------------------------------------------------

/// What has to be done so that the gateway matches its settings.
#[derive(Debug, Clone, Copy, PartialEq, Eq, Structural)]
pub enum GatewayAction {
    /// Stop listening.
    Stop,
    /// Go on as before.
    Keep,
    /// Stop listening, then listen on the port.
    Listen { port: u16 },
}

/// What has to be done so that the gateway matches its settings.
pub open spec fn action_for(runtime: Runtime) -> GatewayAction {
    match runtime.collection {
        None => GatewayAction::Stop,
        Some(c) => if !c.enabled {
            GatewayAction::Stop
        } else if runtime.running && runtime.actual_port == Some(c.port) {
            GatewayAction::Keep
        } else {
            GatewayAction::Listen { port: c.port }
        },
    }
}

/// What has to be done so that the gateway matches its settings.
pub fn ensure_gateway_matches_runtime(runtime: &GatewayRuntime) -> (action: GatewayAction)
    ensures
        action == action_for(runtime@),
{
    match &runtime.collection {
        None => GatewayAction::Stop,
        Some(c) => {
            if !c.enabled {
                return GatewayAction::Stop;
            }
            if runtime.running {
                if let Some(port) = runtime.actual_port {
                    if port == c.port {
                        return GatewayAction::Keep;
                    }
                }
            }
            GatewayAction::Listen { port: c.port }
        },
    }
}

/// What is known once the gateway listens on `port`.
pub open spec fn listening(runtime: Runtime, port: u16) -> Runtime {
    Runtime { running: true, actual_port: Some(port), last_error: None, ..runtime }
}

/// Notes that the gateway listens on `port`.
pub fn mark_started(runtime: &mut GatewayRuntime, port: u16)
    ensures
        final(runtime)@ == listening(old(runtime)@, port),
{
    runtime.running = true;
    runtime.actual_port = Some(port);
    runtime.last_error = None;
}

/// What is known once the gateway listens no longer.
pub open spec fn stopped(runtime: Runtime) -> Runtime {
    Runtime { running: false, actual_port: None, ..runtime }
}

/// Notes that the gateway listens no longer.
pub fn stop_gateway(runtime: &mut GatewayRuntime)
    ensures
        final(runtime)@ == stopped(old(runtime)@),
{
    runtime.running = false;
    runtime.actual_port = None;
}

/// Notes that the listener on `port` has ended, unless another one has taken its place. Says
/// whether it was noted.
pub fn mark_ended(runtime: &mut GatewayRuntime, port: u16) -> (noted: bool)
    ensures
        noted == (old(runtime).actual_port == Some(port)),
        final(runtime)@ == (if old(runtime).actual_port == Some(port) {
            stopped(old(runtime)@)
        } else {
            old(runtime)@
        }),
{
    if let Some(actual) = runtime.actual_port {
        if actual == port {
            stop_gateway(runtime);
            return true;
        }
    }
    false
}

/// Doing what has to be done makes the gateway match its settings: nothing more has to be
/// done than to keep it so.
pub proof fn gateway_comes_to_match(runtime: Runtime)
    ensures
        action_for(runtime) matches GatewayAction::Listen { port } ==> action_for(
            listening(stopped(runtime), port),
        ) == GatewayAction::Keep,
        action_for(runtime) == GatewayAction::Stop ==> action_for(stopped(runtime))
            == GatewayAction::Stop && !stopped(runtime).running,
{
}

/// A gateway that is switched off does not listen; one that is switched on listens on the
/// port of its settings.
pub proof fn switch_and_port_decide(known: Runtime, settings: Collection)
    requires
        known.collection == Some(settings),
    ensures
        !settings.enabled <==> action_for(known) == GatewayAction::Stop,
        settings.enabled && known.actual_port != Some(settings.port) ==> action_for(known)
            == (GatewayAction::Listen { port: settings.port }),
        action_for(known) == GatewayAction::Keep ==> known.running && known.actual_port == Some(
            settings.port,
        ),
{
}

// ---------------------------------------------------------------------------------------
// The state that is shown
// ---------------------------------------------------------------------------------------

/// What is shown of a gateway.
#[derive(Debug)]
pub struct CodexLocalAccessState {
    pub collection: Option<CodexLocalAccessCollection>,
    pub running: bool,
    pub base_url: Option<String>,
    pub last_error: Option<String>,
    pub member_count: usize,
    pub stats: CodexLocalAccessStats,
}

/// What is shown of a gateway, as a mathematical value.
pub struct State {
    pub collection: Option<Collection>,
    pub running: bool,
    pub base_url: Option<Seq<char>>,
    pub last_error: Option<Seq<char>>,
    pub member_count: nat,
    pub stats: Stats,
}

impl View for CodexLocalAccessState {
    type V = State;

    open spec fn view(&self) -> State {
        State {
            collection: collection::opt_collection(self.collection),
            running: self.running,
            base_url: text::opt_text(self.base_url),
            last_error: text::opt_text(self.last_error),
            member_count: self.member_count as nat,
            stats: self.stats@,
        }
    }
}

/// The address of a gateway that listens on `port`.
pub open spec fn base_url(port: u16) -> Seq<char> {
    "http://127.0.0.1:"@ + text::decimal(port as nat) + "/v1"@
}

/// The address of a gateway that listens on `port`.
pub fn build_base_url(port: u16) -> (url: String)
    ensures
        url@ == base_url(port),
{
    let mut url = "http://127.0.0.1:".to_owned();
    url.append(text::decimal_text(port as u128).as_str());
    url.append("/v1");
    url
}

/// What is shown of a gateway: all but its single requests.
pub open spec fn shown(runtime: Runtime) -> State {
    State {
        collection: runtime.collection,
        running: runtime.running,
        base_url: match runtime.collection {
            Some(c) => Some(base_url(c.port)),
            None => None,
        },
        last_error: runtime.last_error,
        member_count: match runtime.collection {
            Some(c) => c.account_ids.len(),
            None => 0,
        },
        stats: Stats { events: Seq::empty(), ..runtime.stats },
    }
}

/// What is shown of a gateway.
pub fn build_state_snapshot(runtime: &GatewayRuntime) -> (state: CodexLocalAccessState)
    ensures
        state@ == shown(runtime@),
{
    let (settings, url, member_count) = match &runtime.collection {
        Some(c) => (Some(c.clone()), Some(build_base_url(c.port)), c.account_ids.len()),
        None => (None, None, 0),
    };
    CodexLocalAccessState {
        collection: settings,
        running: runtime.running,
        base_url: url,
        last_error: text::copy_option(&runtime.last_error),
        member_count,
        stats: runtime.stats.without_events(),
    }
}

/// The account that a profile is given so that it asks the gateway.
pub fn activate_local_access_for_dir(state: &CodexLocalAccessState) -> (account: Result<
    CodexAccount,
    String,
>)
    ensures
        match account {
            Ok(a) => {
                &&& state.collection is Some
                &&& account::stands_for_gateway(
                    a,
                    match state@.base_url {
                        Some(url) => url,
                        None => base_url(state@.collection->0.port),
                    },
                    state@.collection->0.api_key,
                )
            },
            Err(message) => state.collection is None && message@ == "API 服务集合尚未创建"@,
        },
{
    match &state.collection {
        None => Err("API 服务集合尚未创建".to_owned()),
        Some(c) => {
            let url = match &state.base_url {
                Some(url) => url.clone(),
                None => build_base_url(c.port),
            };
            Ok(account::build_runtime_account(url, c.api_key.clone()))
        },
    }
}

// ---------------------------------------------------------------------------------------
// Laws of single entries
// ---------------------------------------------------------------------------------------

/// A response is remembered for one day, as long as there are not too many of them, and
/// forgotten then; a cooldown is remembered until it is over.
pub proof fn entries_live_for_their_time(
    runtime: Runtime,
    response: Seq<char>,
    key: Seq<char>,
    now: i64,
)
    requires
        runtime.well_formed(),
        now >= 0,
    ensures
        ({
            let after = pruned(runtime, now);
            let binding = table::lookup(runtime.response_affinity, response);
            let at = table::lookup(runtime.model_cooldowns, key);
            &&& binding is None ==> table::lookup(after.response_affinity, response) is None
            &&& binding is Some && binding->0.updated_at_ms >= 0 && now - binding->0.updated_at_ms
                > 86_400_000 ==> table::lookup(after.response_affinity, response) is None
            &&& binding is Some && binding->0.updated_at_ms >= 0 && now - binding->0.updated_at_ms
                <= 86_400_000 && runtime.response_affinity.len() <= 4096 ==> table::lookup(
                after.response_affinity,
                response,
            ) == binding
            &&& table::lookup(after.model_cooldowns, key) == (if at is Some && at->0 > now {
                at
            } else {
                None
            })
        }),
{
    let fresh = fresh_at(now);
    let first = table::passing(runtime.response_affinity, fresh);
    lemma_passing_distinct(runtime.response_affinity, fresh);
    table::lookup_after_passing(runtime.response_affinity, fresh, response);
    oldest_bindings_go_first(first, response, response);
    table::lookup_after_passing(runtime.model_cooldowns, cooling_at(now), key);
}

/// Remembering a response or a cooldown, ending a cooldown and asking for one change nothing
/// else of what is known; nor does a response or an account without a name change anything.
pub proof fn memory_touches_nothing_else(
    runtime: Runtime,
    response_id: Seq<char>,
    account_id: Seq<char>,
    model_key: Seq<char>,
    retry_after: RetryDelay,
    now: i64,
)
    ensures
        same_but_memory(bound(runtime, response_id, account_id, now), runtime),
        same_but_memory(cooled(runtime, account_id, model_key, retry_after, now), runtime),
        same_but_memory(cleared(runtime, account_id, model_key, now), runtime),
        same_but_memory(asked(runtime, account_id, model_key, now), runtime),
        same_but_memory(pruned(runtime, now), runtime),
        text::trimmed(response_id).len() == 0 || text::trimmed(account_id).len() == 0 ==> bound(
            runtime,
            response_id,
            account_id,
            now,
        ) == runtime,
        text::trimmed(model_key).len() == 0 || text::trimmed(account_id).len() == 0 ==> cooled(
            runtime,
            account_id,
            model_key,
            retry_after,
            now,
        ) == runtime && cleared(runtime, account_id, model_key, now) == runtime && cooldown_wait(
            runtime,
            account_id,
            model_key,
            now,
        ) is None,
        retry_after.millis == 0 ==> cooled(runtime, account_id, model_key, retry_after, now)
            == runtime,
{
}

/// The two differ at most in what is remembered of responses and cooldowns.
pub open spec fn same_but_memory(a: Runtime, b: Runtime) -> bool {
    &&& a.loaded == b.loaded
    &&& a.collection == b.collection
    &&& a.stats == b.stats
    &&& a.running == b.running
    &&& a.actual_port == b.actual_port
    &&& a.last_error == b.last_error
}

/// An account has to wait for what is left of its cooldown for the model, and not at all
/// without one or when it is over.
pub proof fn waits_are_what_is_left(
    runtime: Runtime,
    account_id: Seq<char>,
    model_key: Seq<char>,
    now: i64,
)
    requires
        runtime.well_formed(),
        text::trimmed(account_id).len() > 0,
        text::trimmed(model_key).len() > 0,
        now >= 0,
    ensures
        cooldown_key(account_id, model_key) is Some,
        ({
            let at = table::lookup(
                runtime.model_cooldowns,
                cooldown_key(account_id, model_key)->0,
            );
            &&& at is Some && at->0 > now ==> cooldown_wait(runtime, account_id, model_key, now)
                == Some(at->0 - now)
            &&& at is None || at->0 <= now ==> cooldown_wait(
                runtime,
                account_id,
                model_key,
                now,
            ) is None
        }),
{
    entries_live_for_their_time(
        runtime,
        Seq::empty(),
        cooldown_key(account_id, model_key)->0,
        now,
    );
}

/// A cooldown of one account and model, and its end, change nothing of how long another one has
/// to wait.
pub proof fn other_cooldowns_stay(
    runtime: Runtime,
    account_id: Seq<char>,
    model_key: Seq<char>,
    retry_after: RetryDelay,
    other_account: Seq<char>,
    other_model: Seq<char>,
    now: i64,
    then_now: i64,
)
    requires
        runtime.well_formed(),
        cooldown_key(account_id, model_key) != cooldown_key(other_account, other_model),
        0 <= now <= then_now,
    ensures
        cooldown_wait(
            cooled(runtime, account_id, model_key, retry_after, now),
            other_account,
            other_model,
            then_now,
        ) == cooldown_wait(runtime, other_account, other_model, then_now),
        cooldown_wait(
            cleared(runtime, account_id, model_key, now),
            other_account,
            other_model,
            then_now,
        ) == cooldown_wait(runtime, other_account, other_model, then_now),
{
    if let Some(other) = cooldown_key(other_account, other_model) {
        if let Some(key) = cooldown_key(account_id, model_key) {
            let before = pruned(runtime, now);
            let end = cooldown_end(now, retry_after.millis as int);
            pruning_keeps_form(runtime, now);
            entries_live_for_their_time(runtime, Seq::empty(), other, now);
            entries_live_for_their_time(runtime, Seq::empty(), other, then_now);
            table::keys_stay_distinct(before.model_cooldowns, key, end, |at: i64| true);
            table::lookup_after_put(before.model_cooldowns, key, end, other);
            table::lookup_after_drop(before.model_cooldowns, key, other);
            let with_new = cooled(runtime, account_id, model_key, retry_after, now);
            let without_old = cleared(runtime, account_id, model_key, now);
            entries_live_for_their_time(with_new, Seq::empty(), other, then_now);
            entries_live_for_their_time(without_old, Seq::empty(), other, then_now);
        }
    }
}

/// Remembering which account has answered one response changes nothing of what is remembered
/// of another, as long as there is room for both.
pub proof fn other_responses_stay(
    runtime: Runtime,
    response_id: Seq<char>,
    account_id: Seq<char>,
    other: Seq<char>,
    now: i64,
)
    requires
        runtime.well_formed(),
        runtime.response_affinity.len() < 4096,
        other != text::trimmed(response_id),
        now >= 0,
    ensures
        bound_account(
            table::lookup(
                pruned(bound(runtime, response_id, account_id, now), now).response_affinity,
                other,
            ),
        ) == bound_account(table::lookup(pruned(runtime, now).response_affinity, other)),
{
    let response = text::trimmed(response_id);
    let account = text::trimmed(account_id);
    if response.len() > 0 && account.len() > 0 {
        let fresh = fresh_at(now);
        let binding = Binding { account_id: account, updated_at_ms: now };
        let first = table::passing(runtime.response_affinity, fresh);
        lemma_passing_distinct(runtime.response_affinity, fresh);
        lemma_passing_len(runtime.response_affinity, fresh);
        table::lookup_after_passing(runtime.response_affinity, fresh, other);
        let with_new = table::put(first, response, binding);
        table::lookup_after_put(first, response, binding, other);
        table::keys_stay_distinct(first, response, binding, |b: Binding| true);
        let second = table::passing(with_new, fresh);
        table::lookup_after_passing(with_new, fresh, other);
        lemma_passing_len(with_new, fresh);
        lemma_passing_distinct(with_new, fresh);
        let third = table::passing(second, fresh);
        table::lookup_after_passing(second, fresh, other);
        lemma_passing_len(second, fresh);
    } else {
        let fresh = fresh_at(now);
        lemma_passing_len(runtime.response_affinity, fresh);
    }
}

/// A gateway without settings or switched off is to stop; one that runs on its port goes on;
/// any other is to listen on its port. What has been noted of that touches nothing else.
pub proof fn gateway_follows_settings(runtime: Runtime, settings: Collection, port: u16)
    ensures
        runtime.collection is None ==> action_for(runtime) == GatewayAction::Stop,
        runtime.collection == Some(settings) && settings.enabled && runtime.running
            && runtime.actual_port == Some(settings.port) ==> action_for(runtime)
            == GatewayAction::Keep,
        runtime.collection == Some(settings) && settings.enabled && !(runtime.running
            && runtime.actual_port == Some(settings.port)) ==> action_for(runtime)
            == (GatewayAction::Listen { port: settings.port }),
        ({
            let on = listening(runtime, port);
            let off = stopped(runtime);
            &&& on.running && on.actual_port == Some(port) && on.last_error is None
            &&& !off.running && off.actual_port is None && off.last_error == runtime.last_error
            &&& on.loaded == runtime.loaded && off.loaded == runtime.loaded
            &&& on.collection == runtime.collection && off.collection == runtime.collection
            &&& on.stats == runtime.stats && off.stats == runtime.stats
            &&& on.response_affinity == runtime.response_affinity
            &&& off.response_affinity == runtime.response_affinity
            &&& on.model_cooldowns == runtime.model_cooldowns
            &&& off.model_cooldowns == runtime.model_cooldowns
        }),
{
}

/// What is shown of a gateway are its settings, whether it runs, under which address, how many
/// accounts it has, its last error and its counts, but no single request.
pub proof fn state_shows_the_gateway(runtime: Runtime, settings: Collection)
    ensures
        ({
            let state = shown(runtime);
            &&& state.collection == runtime.collection
            &&& state.running == runtime.running
            &&& state.last_error == runtime.last_error
            &&& state.stats.totals == runtime.stats.totals
            &&& state.stats.accounts == runtime.stats.accounts
            &&& state.stats.daily == runtime.stats.daily
            &&& state.stats.weekly == runtime.stats.weekly
            &&& state.stats.monthly == runtime.stats.monthly
            &&& state.stats.since == runtime.stats.since
            &&& state.stats.updated_at == runtime.stats.updated_at
            &&& state.stats.events.len() == 0
            &&& runtime.collection is None ==> state.base_url is None && state.member_count == 0
            &&& runtime.collection == Some(settings) ==> state.member_count
                == settings.account_ids.len() && state.base_url == Some(
                "http://127.0.0.1:"@ + text::decimal(settings.port as nat) + "/v1"@,
            )
        }),
{
}

/// Loading takes over the settings and what was counted before, and forgets nothing that is
/// remembered.
pub proof fn loading_takes_over(
    runtime: Runtime,
    settings: Collection,
    loaded_stats: Stats,
    now: i64,
)
    ensures
        ({
            let after = loaded_with(runtime, settings, loaded_stats, now);
            &&& after.loaded
            &&& after.collection == Some(settings)
            &&& after.stats.totals == loaded_stats.totals
            &&& after.response_affinity == runtime.response_affinity
            &&& after.model_cooldowns == runtime.model_cooldowns
            &&& after.running == runtime.running
            &&& after.actual_port == runtime.actual_port
            &&& after.last_error == runtime.last_error
        }),
{
}

} // verus!
