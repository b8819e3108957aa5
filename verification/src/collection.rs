//! The settings of the gateway: its port, its key and its pool of accounts.

use vstd::prelude::*;
use vstd::string::*;
use crate::account;
use crate::account::CodexAccount;
use crate::clock;
use crate::routing;
use crate::routing::CodexLocalAccessRoutingStrategy;
use crate::text;

verus! {

/// The settings of the gateway.
#[derive(Debug)]
pub struct CodexLocalAccessCollection {
    pub enabled: bool,
    pub port: u16,
    pub api_key: String,
    pub routing_strategy: CodexLocalAccessRoutingStrategy,
    pub restrict_free_accounts: bool,
    pub account_ids: Vec<String>,
    pub created_at: i64,
    pub updated_at: i64,
}

/// The settings as a mathematical value.
pub struct Collection {
    pub enabled: bool,
    pub port: u16,
    pub api_key: Seq<char>,
    pub routing_strategy: CodexLocalAccessRoutingStrategy,
    pub restrict_free_accounts: bool,
    pub account_ids: Seq<Seq<char>>,
    pub created_at: i64,
    pub updated_at: i64,
}

impl View for CodexLocalAccessCollection {
    type V = Collection;

    open spec fn view(&self) -> Collection {
        Collection {
            enabled: self.enabled,
            port: self.port,
            api_key: self.api_key@,
            routing_strategy: self.routing_strategy,
            restrict_free_accounts: self.restrict_free_accounts,
            account_ids: text::texts(self.account_ids@),
            created_at: self.created_at,
            updated_at: self.updated_at,
        }
    }
}

/// Settings, if there are any, as a mathematical value.
pub open spec fn opt_collection(collection: Option<CodexLocalAccessCollection>) -> Option<
    Collection,
> {
    match collection {
        Some(c) => Some(c@),
        None => None,
    }
}

impl Clone for CodexLocalAccessCollection {
    fn clone(&self) -> (copy: Self)
        ensures
            copy@ == self@,
    {
        CodexLocalAccessCollection {
            enabled: self.enabled,
            port: self.port,
            api_key: self.api_key.clone(),
            routing_strategy: self.routing_strategy,
            restrict_free_accounts: self.restrict_free_accounts,
            account_ids: text::copy_strings(self.account_ids.as_slice()),
            created_at: self.created_at,
            updated_at: self.updated_at,
        }
    }
}

// ---------------------------------------------------------------------------------------
// Keys
// ---------------------------------------------------------------------------------------

/// A letter or a digit of ASCII.
pub open spec fn is_alphanumeric(c: char) -> bool {
    ('a' <= c && c <= 'z') || ('A' <= c && c <= 'Z') || ('0' <= c && c <= '9')
}

/// Calls `rand::Rng::sample_iter` on `rand::thread_rng` with `rand::distributions::Alphanumeric`
/// and takes `n` samples: `n` characters by chance, each a letter or a digit of ASCII.
#[verifier::external_body]
fn random_alphanumeric(n: usize) -> (text: String)
    ensures
        text@.len() == n,
        forall|i: int| 0 <= i < n ==> is_alphanumeric(#[trigger] text@[i]),
{
    rand::Rng::sample_iter(rand::thread_rng(), &rand::distributions::Alphanumeric)
        .take(n)
        .map(char::from)
        .collect()
}

/// `agt_codex_` and 32 letters or digits.
pub open spec fn is_local_api_key(key: Seq<char>) -> bool {
    &&& key.len() == 42
    &&& key.take(10) == "agt_codex_"@
    &&& forall|i: int| 10 <= i < 42 ==> is_alphanumeric(#[trigger] key[i])
}

/// A new key.
pub fn generate_local_api_key() -> (key: String)
    ensures
        is_local_api_key(key@),
{
    let suffix = random_alphanumeric(32);
    let mut key = "agt_codex_".to_owned();
    key.append(suffix.as_str());
    proof {
        reveal_strlit("agt_codex_");
        assert(key@.take(10) =~= "agt_codex_"@);
        assert forall|i: int| 10 <= i < 42 implies is_alphanumeric(#[trigger] key@[i]) by {
            assert(key@[i] == suffix@[i - 10]);
        }
    }
    key
}

/// A generated key is not blank.
pub proof fn local_api_keys_are_not_blank(key: Seq<char>)
    requires
        is_local_api_key(key),
    ensures
        text::trimmed(key) == key,
        key.len() > 0,
{
    reveal_strlit("agt_codex_");
    assert(key[0] == key.take(10)[0]);
    assert(text::trim_start(key) == key);
    assert(is_alphanumeric(key[41]));
    assert(key.last() == key[41]);
}

// ---------------------------------------------------------------------------------------
// Fresh values
// ---------------------------------------------------------------------------------------

/// What is filled in where settings lack something.
#[derive(Debug)]
pub struct FreshValues {
    pub port: u16,
    pub api_key: String,
    pub created_at: i64,
    pub updated_at: i64,
}

/// Fresh values as a mathematical value.
pub struct Fresh {
    pub port: u16,
    pub api_key: Seq<char>,
    pub created_at: i64,
    pub updated_at: i64,
}

impl View for FreshValues {
    type V = Fresh;

    open spec fn view(&self) -> Fresh {
        Fresh {
            port: self.port,
            api_key: self.api_key@,
            created_at: self.created_at,
            updated_at: self.updated_at,
        }
    }
}

/// Values that may have been made for `port`.
pub open spec fn made_for(fresh: Fresh, port: u16) -> bool {
    fresh.port == port && is_local_api_key(fresh.api_key)
}

/// Fresh values with a new key and the present time.
pub fn fresh_values(port: u16) -> (fresh: FreshValues)
    ensures
        made_for(fresh@, port),
{
    FreshValues {
        port,
        api_key: generate_local_api_key(),
        created_at: clock::now_ms(),
        updated_at: clock::now_ms(),
    }
}

/// The settings of a gateway that nobody has set up yet.
pub open spec fn initial(fresh: Fresh) -> Collection {
    Collection {
        enabled: false,
        port: fresh.port,
        api_key: fresh.api_key,
        routing_strategy: CodexLocalAccessRoutingStrategy::Auto,
        restrict_free_accounts: true,
        account_ids: Seq::empty(),
        created_at: fresh.created_at,
        updated_at: fresh.updated_at,
    }
}

/// The settings of a gateway that nobody has set up yet.
pub fn initial_collection(fresh: &FreshValues) -> (collection: CodexLocalAccessCollection)
    ensures
        collection@ == initial(fresh@),
{
    let collection = CodexLocalAccessCollection {
        enabled: false,
        port: fresh.port,
        api_key: fresh.api_key.clone(),
        routing_strategy: CodexLocalAccessRoutingStrategy::default(),
        restrict_free_accounts: true,
        account_ids: Vec::new(),
        created_at: fresh.created_at,
        updated_at: fresh.updated_at,
    };
    assert(collection@.account_ids =~= Seq::empty());
    collection
}

// ---------------------------------------------------------------------------------------
// The pool
// ---------------------------------------------------------------------------------------

/// The ids of the accounts that may serve the gateway.
pub open spec fn eligible_ids(accounts: Seq<CodexAccount>, restrict_free_accounts: bool) -> Seq<
    Seq<char>,
>
    decreases accounts.len(),
{
    if accounts.len() == 0 {
        Seq::empty()
    } else {
        let before = eligible_ids(accounts.drop_last(), restrict_free_accounts);
        if account::eligible(accounts.last(), restrict_free_accounts) {
            before.push(accounts.last().id@)
        } else {
            before
        }
    }
}

/// The ids of the accounts that may serve the gateway, none of them twice.
pub open spec fn valid_ids(accounts: Seq<CodexAccount>, restrict_free_accounts: bool) -> Seq<
    Seq<char>,
> {
    routing::firsts(eligible_ids(accounts, restrict_free_accounts))
}

/// The ids of the accounts that may serve the gateway, none of them twice.
pub fn valid_account_ids(accounts: &[CodexAccount], restrict_free_accounts: bool) -> (ids: Vec<
    String,
>)
    ensures
        text::texts(ids@) == valid_ids(accounts@, restrict_free_accounts),
{
    let mut ids: Vec<String> = Vec::new();
    let mut i: usize = 0;
    assert(text::texts(ids@) =~= valid_ids(accounts@.take(0), restrict_free_accounts));
    while i < accounts.len()
        invariant
            i <= accounts@.len(),
            text::texts(ids@) == valid_ids(accounts@.take(i as int), restrict_free_accounts),
        decreases accounts@.len() - i,
    {
        let ghost before = ids@;
        let ghost shorter = eligible_ids(accounts@.take(i as int), restrict_free_accounts);
        proof {
            let next = accounts@.take(i + 1);
            assert(next.drop_last() =~= accounts@.take(i as int));
            assert(next.last() == accounts@[i as int]);
            assert(shorter.push(accounts@[i as int].id@).drop_last() =~= shorter);
        }
        if account::is_local_access_eligible_account(&accounts[i], restrict_free_accounts)
            && !text::is_member(ids.as_slice(), accounts[i].id.as_str()) {
            ids.push(accounts[i].id.clone());
            assert(text::texts(ids@) =~= text::texts(before).push(accounts@[i as int].id@));
        }
        i += 1;
    }
    assert(accounts@.take(accounts@.len() as int) =~= accounts@);
    ids
}

/// The ids that are among `valid`.
pub open spec fn usable(ids: Seq<Seq<char>>, valid: Seq<Seq<char>>) -> Seq<Seq<char>>
    decreases ids.len(),
{
    if ids.len() == 0 {
        Seq::empty()
    } else if valid.contains(ids.last()) {
        usable(ids.drop_last(), valid).push(ids.last())
    } else {
        usable(ids.drop_last(), valid)
    }
}

/// The ids that are among `valid`, each only where it stands first.
pub open spec fn selected(ids: Seq<Seq<char>>, valid: Seq<Seq<char>>) -> Seq<Seq<char>> {
    routing::firsts(usable(ids, valid))
}

/// The ids that are among `valid`, each only where it stands first.
pub fn select_account_ids(ids: &[String], valid: &[String]) -> (chosen: Vec<String>)
    ensures
        text::texts(chosen@) == selected(text::texts(ids@), text::texts(valid@)),
{
    let ghost all = text::texts(ids@);
    let ghost allowed = text::texts(valid@);
    let mut chosen: Vec<String> = Vec::new();
    let mut i: usize = 0;
    assert(text::texts(chosen@) =~= selected(all.take(0), allowed));
    while i < ids.len()
        invariant
            i <= ids@.len(),
            all == text::texts(ids@),
            allowed == text::texts(valid@),
            text::texts(chosen@) == selected(all.take(i as int), allowed),
        decreases ids@.len() - i,
    {
        let ghost before = chosen@;
        let ghost shorter = usable(all.take(i as int), allowed);
        proof {
            let next = all.take(i + 1);
            assert(next.drop_last() =~= all.take(i as int));
            assert(next.last() == ids@[i as int]@);
            assert(shorter.push(ids@[i as int]@).drop_last() =~= shorter);
        }
        if text::is_member(valid, ids[i].as_str()) && !text::is_member(
            chosen.as_slice(),
            ids[i].as_str(),
        ) {
            chosen.push(ids[i].clone());
            assert(text::texts(chosen@) =~= text::texts(before).push(ids@[i as int]@));
        }
        i += 1;
    }
    assert(all.take(all.len() as int) =~= all);
    chosen
}

proof fn lemma_firsts_len<T>(s: Seq<T>)
    ensures
        routing::firsts(s).len() <= s.len(),
        routing::firsts(s).len() == s.len() ==> routing::firsts(s) == s,
        s.no_duplicates() ==> routing::firsts(s) == s,
    decreases s.len(),
{
    if s.len() > 0 {
        let shorter = s.drop_last();
        lemma_firsts_len(shorter);
        assert(shorter.push(s.last()) =~= s);
        if s.no_duplicates() {
            assert(shorter.no_duplicates());
            assert forall|k: int| 0 <= k < shorter.len() implies shorter[k] != s.last() by {
                assert(s[k] != s[s.len() - 1]);
            }
            assert(!shorter.contains(s.last()));
        }
    } else {
        assert(routing::firsts(s) =~= s);
    }
}

proof fn lemma_usable(ids: Seq<Seq<char>>, valid: Seq<Seq<char>>)
    ensures
        usable(ids, valid).len() <= ids.len(),
        usable(ids, valid).len() == ids.len() ==> usable(ids, valid) == ids,
        forall|i: int|
            0 <= i < usable(ids, valid).len() ==> valid.contains(#[trigger] usable(ids, valid)[i])
                && ids.contains(usable(ids, valid)[i]),
        (forall|i: int| 0 <= i < ids.len() ==> valid.contains(#[trigger] ids[i])) ==> usable(
            ids,
            valid,
        ) == ids,
    decreases ids.len(),
{
    if ids.len() > 0 {
        let shorter = ids.drop_last();
        lemma_usable(shorter, valid);
        assert(shorter.push(ids.last()) =~= ids);
        let chosen = usable(ids, valid);
        assert forall|i: int| 0 <= i < chosen.len() implies valid.contains(#[trigger] chosen[i])
            && ids.contains(chosen[i]) by {
            let before = usable(shorter, valid);
            if i < before.len() {
                assert(chosen[i] == before[i]);
                let k = choose|k: int| 0 <= k < shorter.len() && shorter[k] == before[i];
                assert(ids[k] == chosen[i]);
            } else {
                assert(ids[ids.len() - 1] == chosen[i]);
            }
        }
        if forall|i: int| 0 <= i < ids.len() ==> valid.contains(#[trigger] ids[i]) {
            assert forall|i: int| 0 <= i < shorter.len() implies valid.contains(
                #[trigger] shorter[i],
            ) by {
                assert(valid.contains(ids[i]));
            }
            assert(valid.contains(ids[ids.len() - 1]));
        }
    } else {
        assert(usable(ids, valid) =~= ids);
    }
}

/// A selection holds valid ids, none of them twice; it is the ids as they stand where
/// nothing had to go, and shorter otherwise; selecting once more changes nothing.
pub proof fn selecting_drops_what_is_invalid(ids: Seq<Seq<char>>, valid: Seq<Seq<char>>)
    ensures
        selected(ids, valid).no_duplicates(),
        forall|i: int|
            0 <= i < selected(ids, valid).len() ==> valid.contains(
                #[trigger] selected(ids, valid)[i],
            ) && ids.contains(selected(ids, valid)[i]),
        selected(ids, valid).len() <= ids.len(),
        selected(ids, valid).len() == ids.len() ==> selected(ids, valid) == ids,
        selected(selected(ids, valid), valid) == selected(ids, valid),
{
    let among = usable(ids, valid);
    let chosen = selected(ids, valid);
    lemma_usable(ids, valid);
    lemma_firsts_len(among);
    routing::firsts_are_distinct(among);
    assert forall|i: int| 0 <= i < chosen.len() implies valid.contains(#[trigger] chosen[i])
        && ids.contains(chosen[i]) by {
        assert(chosen.contains(chosen[i]));
        assert(among.contains(chosen[i]));
        let k = choose|k: int| 0 <= k < among.len() && among[k] == chosen[i];
        assert(valid.contains(among[k]) && ids.contains(among[k]));
    }
    lemma_usable(chosen, valid);
    lemma_firsts_len(chosen);
}

// ---------------------------------------------------------------------------------------
// Repair
// ---------------------------------------------------------------------------------------

/// The settings with what they lack filled in, and with the accounts that may serve the
/// gateway only.
pub open spec fn sanitized(
    collection: Collection,
    fresh: Fresh,
    accounts: Seq<CodexAccount>,
) -> Collection {
    Collection {
        port: if collection.port == 0 {
            fresh.port
        } else {
            collection.port
        },
        api_key: if text::trimmed(collection.api_key).len() == 0 {
            fresh.api_key
        } else {
            collection.api_key
        },
        created_at: if collection.created_at <= 0 {
            fresh.created_at
        } else {
            collection.created_at
        },
        updated_at: if collection.updated_at <= 0 {
            fresh.updated_at
        } else {
            collection.updated_at
        },
        account_ids: selected(
            collection.account_ids,
            valid_ids(accounts, collection.restrict_free_accounts),
        ),
        ..collection
    }
}

/// Whether the settings lack something or name an account that may not serve the gateway.
pub open spec fn needs_repair(collection: Collection, accounts: Seq<CodexAccount>) -> bool {
    ||| collection.port == 0
    ||| text::trimmed(collection.api_key).len() == 0
    ||| collection.created_at <= 0
    ||| collection.updated_at <= 0
    ||| selected(
        collection.account_ids,
        valid_ids(accounts, collection.restrict_free_accounts),
    ) != collection.account_ids
}

/// Fills in what the settings lack, from `fresh`, and drops accounts that may not serve the
/// gateway or stand twice. Says whether that changed anything, and which accounts may serve
/// the gateway.
pub fn sanitize_collection_with(
    collection: &mut CodexLocalAccessCollection,
    fresh: &FreshValues,
    accounts: &[CodexAccount],
) -> (outcome: (bool, Vec<String>))
    ensures
        final(collection)@ == sanitized(old(collection)@, fresh@, accounts@),
        outcome.0 == needs_repair(old(collection)@, accounts@),
        text::texts(outcome.1@) == valid_ids(accounts@, old(collection).restrict_free_accounts),
{
    let mut changed = false;
    if collection.port == 0 {
        collection.port = fresh.port;
        changed = true;
    }
    if text::trim(collection.api_key.as_str()).as_str().is_empty() {
        collection.api_key = fresh.api_key.clone();
        changed = true;
    }
    if collection.created_at <= 0 {
        collection.created_at = fresh.created_at;
        changed = true;
    }
    if collection.updated_at <= 0 {
        collection.updated_at = fresh.updated_at;
        changed = true;
    }
    let valid = valid_account_ids(accounts, collection.restrict_free_accounts);
    let chosen = select_account_ids(collection.account_ids.as_slice(), valid.as_slice());
    proof {
        selecting_drops_what_is_invalid(
            text::texts(collection.account_ids@),
            text::texts(valid@),
        );
    }
    if chosen.len() != collection.account_ids.len() {
        collection.account_ids = chosen;
        changed = true;
    }
    (changed, valid)
}

/// Fills in what the settings lack and drops accounts that may not serve the gateway or stand
/// twice. `fresh_port` is a port that is free.
pub fn sanitize_collection(
    collection: &mut CodexLocalAccessCollection,
    fresh_port: u16,
    accounts: &[CodexAccount],
) -> (outcome: (bool, Vec<String>))
    ensures
        exists|fresh: Fresh| #[trigger]
            made_for(fresh, fresh_port) && final(collection)@ == sanitized(
                old(collection)@,
                fresh,
                accounts@,
            ),
        outcome.0 == needs_repair(old(collection)@, accounts@),
        text::texts(outcome.1@) == valid_ids(accounts@, old(collection).restrict_free_accounts),
{
    let fresh = fresh_values(fresh_port);
    sanitize_collection_with(collection, &fresh, accounts)
}

/// Repaired settings have a port, a key and dates, and need no more repair.
pub proof fn repair_is_lasting(
    collection: Collection,
    fresh: Fresh,
    accounts: Seq<CodexAccount>,
    later: Fresh,
)
    requires
        is_local_api_key(fresh.api_key),
        fresh.port != 0,
        fresh.created_at > 0,
        fresh.updated_at > 0,
    ensures
        ({
            let c = sanitized(collection, fresh, accounts);
            &&& c.port != 0
            &&& text::trimmed(c.api_key).len() > 0
            &&& c.created_at > 0
            &&& c.updated_at > 0
            &&& !needs_repair(c, accounts)
            &&& sanitized(c, later, accounts) == c
        }),
{
    let c = sanitized(collection, fresh, accounts);
    local_api_keys_are_not_blank(fresh.api_key);
    selecting_drops_what_is_invalid(
        collection.account_ids,
        valid_ids(accounts, collection.restrict_free_accounts),
    );
}

/// Settings that need no repair are left as they are.
pub proof fn sound_settings_stay(
    collection: Collection,
    fresh: Fresh,
    accounts: Seq<CodexAccount>,
)
    requires
        !needs_repair(collection, accounts),
    ensures
        sanitized(collection, fresh, accounts) == collection,
{
}

proof fn lemma_eligible_ids(
    accounts: Seq<CodexAccount>,
    restrict_free_accounts: bool,
    id: Seq<char>,
)
    requires
        eligible_ids(accounts, restrict_free_accounts).contains(id),
    ensures
        exists|i: int|
            0 <= i < accounts.len() && (#[trigger] accounts[i]).id@ == id && account::eligible(
                accounts[i],
                restrict_free_accounts,
            ),
    decreases accounts.len(),
{
    if accounts.len() > 0 {
        let shorter = accounts.drop_last();
        let ids = eligible_ids(accounts, restrict_free_accounts);
        let k = choose|k: int| 0 <= k < ids.len() && ids[k] == id;
        let before = eligible_ids(shorter, restrict_free_accounts);
        if k < before.len() {
            assert(before[k] == id);
            assert(before.contains(id));
            lemma_eligible_ids(shorter, restrict_free_accounts, id);
            let i = choose|i: int|
                0 <= i < shorter.len() && (#[trigger] shorter[i]).id@ == id && account::eligible(
                    shorter[i],
                    restrict_free_accounts,
                );
            assert(accounts[i] == shorter[i]);
        } else {
            assert(accounts[accounts.len() - 1].id@ == id);
        }
    }
}

/// After a repair the pool holds no account twice, and only accounts that may serve the
/// gateway: none with an API key, and none of a free plan where those are kept out.
pub proof fn pool_is_eligible(
    collection: Collection,
    fresh: Fresh,
    accounts: Seq<CodexAccount>,
    k: int,
)
    requires
        0 <= k < sanitized(collection, fresh, accounts).account_ids.len(),
    ensures
        sanitized(collection, fresh, accounts).account_ids.no_duplicates(),
        exists|i: int|
            0 <= i < accounts.len() && (#[trigger] accounts[i]).id@ == sanitized(
                collection,
                fresh,
                accounts,
            ).account_ids[k] && account::eligible(accounts[i], collection.restrict_free_accounts),
{
    let restrict = collection.restrict_free_accounts;
    let valid = valid_ids(accounts, restrict);
    let chosen = sanitized(collection, fresh, accounts).account_ids;
    selecting_drops_what_is_invalid(collection.account_ids, valid);
    assert(valid.contains(chosen[k]));
    routing::firsts_are_distinct(eligible_ids(accounts, restrict));
    assert(eligible_ids(accounts, restrict).contains(chosen[k]));
    lemma_eligible_ids(accounts, restrict, chosen[k]);
}

// ---------------------------------------------------------------------------------------
// Loading
// ---------------------------------------------------------------------------------------

/// The stored settings, or the initial ones where none are stored.
pub open spec fn or_initial(stored: Option<Collection>, fresh: Fresh) -> Collection {
    match stored {
        Some(c) => c,
        None => initial(fresh),
    }
}

fn collection_or_initial(
    stored: Option<CodexLocalAccessCollection>,
    fresh: &FreshValues,
) -> (collection: CodexLocalAccessCollection)
    ensures
        collection@ == or_initial(opt_collection(stored), fresh@),
{
    match stored {
        Some(c) => c,
        None => initial_collection(fresh),
    }
}

/// The settings with which the gateway begins, and whether they have to be stored.
pub fn prepare_collection_with(
    stored: Option<CodexLocalAccessCollection>,
    fresh: &FreshValues,
    accounts: &[CodexAccount],
) -> (outcome: (CodexLocalAccessCollection, bool))
    ensures
        outcome.0@ == sanitized(or_initial(opt_collection(stored), fresh@), fresh@, accounts@),
        outcome.1 == (stored is None || needs_repair(
            or_initial(opt_collection(stored), fresh@),
            accounts@,
        )),
{
    let missing = stored.is_none();
    let mut collection = collection_or_initial(stored, fresh);
    let (changed, _) = sanitize_collection_with(&mut collection, fresh, accounts);
    (collection, missing || changed)
}

/// The settings with which the gateway begins, and whether they have to be stored.
/// `fresh_port` is a port that is free.
pub fn prepare_collection(
    stored: Option<CodexLocalAccessCollection>,
    fresh_port: u16,
    accounts: &[CodexAccount],
) -> (outcome: (CodexLocalAccessCollection, bool))
    ensures
        exists|fresh: Fresh| #[trigger]
            made_for(fresh, fresh_port) && outcome.0@ == sanitized(
                or_initial(opt_collection(stored), fresh),
                fresh,
                accounts@,
            ) && outcome.1 == (stored is None || needs_repair(
                or_initial(opt_collection(stored), fresh),
                accounts@,
            )),
{
    let fresh = fresh_values(fresh_port);
    prepare_collection_with(stored, &fresh, accounts)
}

// ---------------------------------------------------------------------------------------
// Changes
// ---------------------------------------------------------------------------------------

/// A change of the settings: an error, nothing to change, or new settings.
pub type Change = Result<Option<CodexLocalAccessCollection>, String>;

/// A change as a mathematical value.
pub open spec fn change_view(change: Change) -> Result<Option<Collection>, Seq<char>> {
    match change {
        Ok(c) => Ok(opt_collection(c)),
        Err(message) => Err(message@),
    }
}

/// The settings with another pool.
pub open spec fn with_accounts(
    stored: Option<Collection>,
    ids: Seq<Seq<char>>,
    restrict_free_accounts: bool,
    accounts: Seq<CodexAccount>,
    fresh: Fresh,
    now: i64,
    then_now: i64,
) -> Collection {
    let next = Collection {
        restrict_free_accounts,
        account_ids: selected(ids, valid_ids(accounts, restrict_free_accounts)),
        updated_at: now,
        ..or_initial(stored, fresh)
    };
    if needs_repair(next, accounts) {
        Collection { updated_at: then_now, ..sanitized(next, fresh, accounts) }
    } else {
        next
    }
}

/// The settings with another pool: the accounts of `account_ids` that may serve the gateway.
pub fn save_local_access_accounts_with(
    stored: Option<CodexLocalAccessCollection>,
    account_ids: Vec<String>,
    restrict_free_accounts: bool,
    accounts: &[CodexAccount],
    fresh: &FreshValues,
    now: i64,
    then_now: i64,
) -> (collection: CodexLocalAccessCollection)
    ensures
        collection@ == with_accounts(
            opt_collection(stored),
            text::texts(account_ids@),
            restrict_free_accounts,
            accounts@,
            fresh@,
            now,
            then_now,
        ),
{
    let mut collection = collection_or_initial(stored, fresh);
    let valid = valid_account_ids(accounts, restrict_free_accounts);
    collection.restrict_free_accounts = restrict_free_accounts;
    collection.account_ids = select_account_ids(account_ids.as_slice(), valid.as_slice());
    collection.updated_at = now;
    let (changed, _) = sanitize_collection_with(&mut collection, fresh, accounts);
    if changed {
        collection.updated_at = then_now;
    }
    collection
}

/// The settings with another pool: the accounts of `account_ids` that may serve the gateway.
/// `fresh_port` is a port that is free.
pub fn save_local_access_accounts(
    stored: Option<CodexLocalAccessCollection>,
    account_ids: Vec<String>,
    restrict_free_accounts: bool,
    fresh_port: u16,
    accounts: &[CodexAccount],
) -> (collection: CodexLocalAccessCollection)
    ensures
        exists|fresh: Fresh, now: i64, then_now: i64|
            made_for(fresh, fresh_port) && collection@ == #[trigger] with_accounts(
                opt_collection(stored),
                text::texts(account_ids@),
                restrict_free_accounts,
                accounts@,
                fresh,
                now,
                then_now,
            ),
{
    let fresh = fresh_values(fresh_port);
    let now = clock::now_ms();
    let then_now = clock::now_ms();
    save_local_access_accounts_with(
        stored,
        account_ids,
        restrict_free_accounts,
        accounts,
        &fresh,
        now,
        then_now,
    )
}

/// The change to another strategy.
pub open spec fn strategy_change(
    stored: Option<Collection>,
    strategy: CodexLocalAccessRoutingStrategy,
    now: i64,
) -> Result<Option<Collection>, Seq<char>> {
    match stored {
        None => Err("本地接入集合尚未创建"@),
        Some(c) => if c.routing_strategy == strategy {
            Ok(None)
        } else {
            Ok(Some(Collection { routing_strategy: strategy, updated_at: now, ..c }))
        },
    }
}

/// The change to another strategy, dated `now`.
pub fn update_local_access_routing_strategy_at(
    stored: Option<CodexLocalAccessCollection>,
    strategy: CodexLocalAccessRoutingStrategy,
    now: i64,
) -> (change: Change)
    ensures
        change_view(change) == strategy_change(opt_collection(stored), strategy, now),
{
    match stored {
        None => Err("本地接入集合尚未创建".to_owned()),
        Some(c) => {
            let mut collection = c;
            if collection.routing_strategy == strategy {
                return Ok(None);
            }
            collection.routing_strategy = strategy;
            collection.updated_at = now;
            Ok(Some(collection))
        },
    }
}

/// The change to another strategy.
pub fn update_local_access_routing_strategy(
    stored: Option<CodexLocalAccessCollection>,
    strategy: CodexLocalAccessRoutingStrategy,
) -> (change: Change)
    ensures
        exists|now: i64|
            change_view(change) == #[trigger] strategy_change(
                opt_collection(stored),
                strategy,
                now,
            ),
{
    let now = clock::now_ms();
    update_local_access_routing_strategy_at(stored, strategy, now)
}

/// The change that takes an account out of the pool.
pub open spec fn removal(stored: Option<Collection>, id: Seq<char>, now: i64) -> Option<Collection> {
    match stored {
        None => None,
        Some(c) => if c.account_ids.contains(id) {
            Some(
                Collection {
                    account_ids: routing::without(c.account_ids, id),
                    updated_at: now,
                    ..c
                },
            )
        } else {
            None
        },
    }
}

/// The change that takes an account out of the pool, dated `now`.
pub fn remove_local_access_account_at(
    stored: Option<CodexLocalAccessCollection>,
    account_id: &str,
    now: i64,
) -> (change: Option<CodexLocalAccessCollection>)
    ensures
        opt_collection(change) == removal(opt_collection(stored), account_id@, now),
{
    match stored {
        None => None,
        Some(c) => {
            let mut collection = c;
            if !text::is_member(collection.account_ids.as_slice(), account_id) {
                return None;
            }
            collection.account_ids = routing::remove_id(collection.account_ids.as_slice(), account_id);
            collection.updated_at = now;
            Some(collection)
        },
    }
}

/// The change that takes an account out of the pool.
pub fn remove_local_access_account(
    stored: Option<CodexLocalAccessCollection>,
    account_id: &str,
) -> (change: Option<CodexLocalAccessCollection>)
    ensures
        exists|now: i64|
            opt_collection(change) == #[trigger] removal(
                opt_collection(stored),
                account_id@,
                now,
            ),
{
    let now = clock::now_ms();
    remove_local_access_account_at(stored, account_id, now)
}

/// The change to another key.
pub open spec fn key_change(stored: Option<Collection>, key: Seq<char>, now: i64) -> Result<
    Option<Collection>,
    Seq<char>,
> {
    match stored {
        None => Err("本地接入集合尚未创建"@),
        Some(c) => Ok(Some(Collection { api_key: key, updated_at: now, ..c })),
    }
}

/// The change to the key `key`, dated `now`.
pub fn rotate_local_access_api_key_with(
    stored: Option<CodexLocalAccessCollection>,
    key: String,
    now: i64,
) -> (change: Change)
    ensures
        change_view(change) == key_change(opt_collection(stored), key@, now),
{
    match stored {
        None => Err("本地接入集合尚未创建".to_owned()),
        Some(c) => {
            let mut collection = c;
            collection.api_key = key;
            collection.updated_at = now;
            Ok(Some(collection))
        },
    }
}

/// The change to a new key.
pub fn rotate_local_access_api_key(stored: Option<CodexLocalAccessCollection>) -> (change: Change)
    ensures
        exists|key: Seq<char>, now: i64|
            is_local_api_key(key) && change_view(change) == #[trigger] key_change(
                opt_collection(stored),
                key,
                now,
            ),
{
    let key = generate_local_api_key();
    let now = clock::now_ms();
    rotate_local_access_api_key_with(stored, key, now)
}

/// Whether a port can be used. It has to be tried out where the answer is `Ok(true)`.
pub fn ensure_local_port_available(port: u16, current_port: Option<u16>) -> (check: Result<
    bool,
    String,
>)
    ensures
        check is Err <==> port == 0,
        check matches Err(message) ==> message@ == "端口必须在 1 到 65535 之间"@,
        check matches Ok(untried) ==> untried == (current_port != Some(port)),
{
    if port == 0 {
        return Err("端口必须在 1 到 65535 之间".to_owned());
    }
    match current_port {
        Some(current) => Ok(current != port),
        None => Ok(true),
    }
}

/// What is said of a port that could not be opened.
pub open spec fn port_taken(port: u16, reason: Seq<char>) -> Seq<char> {
    "端口 "@ + text::decimal(port as nat) + " 不可用: "@ + reason
}

/// The change to another port. `reason` says why the port could not be opened when it was
/// tried out.
pub open spec fn port_change(
    stored: Option<Collection>,
    port: u16,
    reason: Option<Seq<char>>,
    now: i64,
) -> Result<Option<Collection>, Seq<char>> {
    match stored {
        None => Err("本地接入集合尚未创建"@),
        Some(c) => if port == 0 {
            Err("端口必须在 1 到 65535 之间"@)
        } else if c.port == port {
            Ok(None)
        } else {
            match reason {
                Some(r) => Err(port_taken(port, r)),
                None => Ok(Some(Collection { port, updated_at: now, ..c })),
            }
        },
    }
}

/// The change to another port, dated `now`. `reason` says why the port could not be opened
/// when it was tried out.
pub fn update_local_access_port_at(
    stored: Option<CodexLocalAccessCollection>,
    port: u16,
    reason: Option<&str>,
    now: i64,
) -> (change: Change)
    ensures
        change_view(change) == port_change(
            opt_collection(stored),
            port,
            text::opt_str(reason),
            now,
        ),
{
    match stored {
        None => Err("本地接入集合尚未创建".to_owned()),
        Some(c) => {
            let mut collection = c;
            match ensure_local_port_available(port, Some(collection.port)) {
                Err(message) => {
                    return Err(message);
                },
                Ok(untried) => {
                    if !untried {
                        return Ok(None);
                    }
                },
            }
            match reason {
                Some(r) => {
                    let mut message = "端口 ".to_owned();
                    message.append(text::decimal_text(port as u128).as_str());
                    message.append(" 不可用: ");
                    message.append(r);
                    Err(message)
                },
                None => {
                    collection.port = port;
                    collection.updated_at = now;
                    Ok(Some(collection))
                },
            }
        },
    }
}

/// The change to another port. `reason` says why the port could not be opened when it was
/// tried out.
pub fn update_local_access_port(
    stored: Option<CodexLocalAccessCollection>,
    port: u16,
    reason: Option<&str>,
) -> (change: Change)
    ensures
        exists|now: i64|
            change_view(change) == #[trigger] port_change(
                opt_collection(stored),
                port,
                text::opt_str(reason),
                now,
            ),
{
    let now = clock::now_ms();
    update_local_access_port_at(stored, port, reason, now)
}

/// The change that switches the gateway on or off.
pub open spec fn enabled_change(stored: Option<Collection>, enabled: bool, now: i64) -> Result<
    Option<Collection>,
    Seq<char>,
> {
    match stored {
        None => Err("本地接入集合尚未创建"@),
        Some(c) => Ok(Some(Collection { enabled, updated_at: now, ..c })),
    }
}

/// The change that switches the gateway on or off, dated `now`.
pub fn set_local_access_enabled_at(
    stored: Option<CodexLocalAccessCollection>,
    enabled: bool,
    now: i64,
) -> (change: Change)
    ensures
        change_view(change) == enabled_change(opt_collection(stored), enabled, now),
{
    match stored {
        None => Err("本地接入集合尚未创建".to_owned()),
        Some(c) => {
            let mut collection = c;
            collection.enabled = enabled;
            collection.updated_at = now;
            Ok(Some(collection))
        },
    }
}

/// The change that switches the gateway on or off.
pub fn set_local_access_enabled(
    stored: Option<CodexLocalAccessCollection>,
    enabled: bool,
) -> (change: Change)
    ensures
        exists|now: i64|
            change_view(change) == #[trigger] enabled_change(
                opt_collection(stored),
                enabled,
                now,
            ),
{
    let now = clock::now_ms();
    set_local_access_enabled_at(stored, enabled, now)
}

/// An account that was taken out of the pool is no longer in it, and no other account has
/// left or come.
pub proof fn removal_takes_out_one(c: Collection, id: Seq<char>, now: i64, other: Seq<char>)
    requires
        c.account_ids.contains(id),
    ensures
        removal(Some(c), id, now) is Some,
        !removal(Some(c), id, now)->0.account_ids.contains(id),
        other != id ==> removal(Some(c), id, now)->0.account_ids.contains(other)
            == c.account_ids.contains(other),
        removal(removal(Some(c), id, now), id, now) is None,
{
    routing::lemma_without(c.account_ids, id);
}

/// Settings that need no repair still need none when an account is taken out, the strategy
/// or the key changes, or the gateway is switched on or off.
pub proof fn changes_need_no_repair(
    c: Collection,
    accounts: Seq<CodexAccount>,
    id: Seq<char>,
    strategy: CodexLocalAccessRoutingStrategy,
    key: Seq<char>,
    enabled: bool,
    now: i64,
)
    requires
        !needs_repair(c, accounts),
        is_local_api_key(key),
        now > 0,
    ensures
        removal(Some(c), id, now) matches Some(d) ==> !needs_repair(d, accounts),
        strategy_change(Some(c), strategy, now) matches Ok(Some(d)) ==> !needs_repair(d, accounts),
        key_change(Some(c), key, now) matches Ok(Some(d)) ==> !needs_repair(d, accounts),
        enabled_change(Some(c), enabled, now) matches Ok(Some(d)) ==> !needs_repair(d, accounts),
{
    local_api_keys_are_not_blank(key);
    let valid = valid_ids(accounts, c.restrict_free_accounts);
    selecting_drops_what_is_invalid(c.account_ids, valid);
    if c.account_ids.contains(id) {
        let rest = routing::without(c.account_ids, id);
        routing::lemma_without(c.account_ids, id);
        assert forall|i: int| 0 <= i < rest.len() implies valid.contains(#[trigger] rest[i]) by {
            assert(rest.contains(rest[i]));
            let k = choose|k: int| 0 <= k < c.account_ids.len() && c.account_ids[k] == rest[i];
            assert(valid.contains(selected(c.account_ids, valid)[k]));
        }
        lemma_usable(rest, valid);
        lemma_firsts_len(rest);
    }
}

// ---------------------------------------------------------------------------------------
// Laws of the pool and of changes
// ---------------------------------------------------------------------------------------

proof fn lemma_usable_holds(ids: Seq<Seq<char>>, valid: Seq<Seq<char>>, id: Seq<char>)
    ensures
        usable(ids, valid).contains(id) == (ids.contains(id) && valid.contains(id)),
    decreases ids.len(),
{
    if ids.len() > 0 {
        let shorter = ids.drop_last();
        lemma_usable_holds(shorter, valid, id);
        let before = usable(shorter, valid);
        let chosen = usable(ids, valid);
        if ids.contains(id) && valid.contains(id) {
            let k = choose|k: int| 0 <= k < ids.len() && ids[k] == id;
            if k < shorter.len() {
                assert(shorter[k] == id);
                let m = choose|m: int| 0 <= m < before.len() && before[m] == id;
                assert(chosen[m] == id);
            } else {
                assert(chosen[before.len() as int] == id);
            }
        }
        if chosen.contains(id) {
            let m = choose|m: int| 0 <= m < chosen.len() && chosen[m] == id;
            if m < before.len() {
                assert(before[m] == id);
                assert(before.contains(id));
                let k = choose|k: int| 0 <= k < shorter.len() && shorter[k] == id;
                assert(ids[k] == id);
            } else {
                assert(ids[ids.len() - 1] == id);
            }
        }
    }
}

/// A selection holds exactly the ids that are valid.
pub proof fn valid_ids_are_selected(ids: Seq<Seq<char>>, valid: Seq<Seq<char>>, id: Seq<char>)
    ensures
        selected(ids, valid).contains(id) == (ids.contains(id) && valid.contains(id)),
{
    lemma_usable_holds(ids, valid, id);
    routing::firsts_are_distinct(usable(ids, valid));
}

proof fn lemma_usable_keeps_order(
    ids: Seq<Seq<char>>,
    valid: Seq<Seq<char>>,
    a: Seq<char>,
    b: Seq<char>,
)
    requires
        routing::stands_before(ids, a, b),
        valid.contains(a),
        valid.contains(b),
    ensures
        routing::stands_before(usable(ids, valid), a, b),
    decreases ids.len(),
{
    let (p, q) = choose|p: int, q: int|
        0 <= p < q < ids.len() && #[trigger] ids[p] == a && #[trigger] ids[q] == b;
    let shorter = ids.drop_last();
    let before = usable(shorter, valid);
    let chosen = usable(ids, valid);
    assert(shorter[p] == a);
    if q < shorter.len() {
        assert(shorter[q] == b);
        lemma_usable_keeps_order(shorter, valid, a, b);
        let (m, n) = choose|m: int, n: int|
            0 <= m < n < before.len() && #[trigger] before[m] == a && #[trigger] before[n] == b;
        assert(chosen[m] == a && chosen[n] == b);
    } else {
        assert(shorter.contains(a));
        lemma_usable_holds(shorter, valid, a);
        let m = choose|m: int| 0 <= m < before.len() && before[m] == a;
        assert(chosen[m] == a && chosen[before.len() as int] == b);
    }
}

/// A selection keeps the order in which accounts without repetitions were given.
pub proof fn selecting_keeps_the_order(
    ids: Seq<Seq<char>>,
    valid: Seq<Seq<char>>,
    a: Seq<char>,
    b: Seq<char>,
)
    requires
        ids.no_duplicates(),
        routing::stands_before(ids, a, b),
        valid.contains(a),
        valid.contains(b),
    ensures
        routing::stands_before(selected(ids, valid), a, b),
{
    lemma_usable_keeps_order(ids, valid, a, b);
    lemma_usable_distinct(ids, valid);
    lemma_firsts_len(usable(ids, valid));
}

proof fn lemma_usable_distinct(ids: Seq<Seq<char>>, valid: Seq<Seq<char>>)
    requires
        ids.no_duplicates(),
    ensures
        usable(ids, valid).no_duplicates(),
    decreases ids.len(),
{
    if ids.len() > 0 {
        let shorter = ids.drop_last();
        assert(shorter.no_duplicates());
        lemma_usable_distinct(shorter, valid);
        lemma_usable_holds(shorter, valid, ids.last());
        if shorter.contains(ids.last()) {
            let k = choose|k: int| 0 <= k < shorter.len() && shorter[k] == ids.last();
            assert(ids[k] == ids[ids.len() - 1]);
        }
        let before = usable(shorter, valid);
        let chosen = usable(ids, valid);
        assert(!before.contains(ids.last()));
        assert forall|i: int, j: int|
            0 <= i < chosen.len() && 0 <= j < chosen.len() && i != j implies chosen[i]
            != chosen[j] by {
            if i < before.len() && j < before.len() {
                assert(before[i] != before[j]);
            } else if i < before.len() {
                assert(before.contains(before[i]));
            } else {
                assert(before.contains(before[j]));
            }
        }
    }
}

/// Every account that may serve the gateway can be chosen: it signs in without an API key and,
/// where free accounts are kept out, is not of a free plan.
pub proof fn eligible_accounts_are_valid(
    accounts: Seq<CodexAccount>,
    restrict_free_accounts: bool,
    k: int,
)
    requires
        0 <= k < accounts.len(),
        accounts[k].auth_mode !is ApiKey,
        restrict_free_accounts ==> !account::is_free(text::opt_text(accounts[k].plan_type)),
    ensures
        valid_ids(accounts, restrict_free_accounts).contains(accounts[k].id@),
{
    lemma_eligible_is_listed(accounts, restrict_free_accounts, k);
    routing::firsts_are_distinct(eligible_ids(accounts, restrict_free_accounts));
}

proof fn lemma_eligible_is_listed(
    accounts: Seq<CodexAccount>,
    restrict_free_accounts: bool,
    k: int,
)
    requires
        0 <= k < accounts.len(),
        account::eligible(accounts[k], restrict_free_accounts),
    ensures
        eligible_ids(accounts, restrict_free_accounts).contains(accounts[k].id@),
    decreases accounts.len(),
{
    let shorter = accounts.drop_last();
    let before = eligible_ids(shorter, restrict_free_accounts);
    let ids = eligible_ids(accounts, restrict_free_accounts);
    if k < shorter.len() {
        assert(shorter[k] == accounts[k]);
        lemma_eligible_is_listed(shorter, restrict_free_accounts, k);
        let m = choose|m: int| 0 <= m < before.len() && before[m] == accounts[k].id@;
        assert(ids[m] == accounts[k].id@);
    } else {
        assert(ids[before.len() as int] == accounts[k].id@);
    }
}

/// A repair fills in what is missing, leaves everything else as it is, and drops no account
/// that may serve the gateway.
pub proof fn repair_leaves_the_rest(
    collection: Collection,
    fresh: Fresh,
    accounts: Seq<CodexAccount>,
    k: int,
)
    ensures
        ({
            let c = sanitized(collection, fresh, accounts);
            &&& c.enabled == collection.enabled
            &&& c.routing_strategy == collection.routing_strategy
            &&& c.restrict_free_accounts == collection.restrict_free_accounts
            &&& collection.port != 0 ==> c.port == collection.port
            &&& collection.port == 0 ==> c.port == fresh.port
            &&& text::trimmed(collection.api_key).len() > 0 ==> c.api_key == collection.api_key
            &&& text::trimmed(collection.api_key).len() == 0 ==> c.api_key == fresh.api_key
            &&& collection.created_at > 0 ==> c.created_at == collection.created_at
            &&& collection.created_at <= 0 ==> c.created_at == fresh.created_at
            &&& collection.updated_at > 0 ==> c.updated_at == collection.updated_at
            &&& collection.updated_at <= 0 ==> c.updated_at == fresh.updated_at
            &&& 0 <= k < accounts.len() && accounts[k].auth_mode !is ApiKey && (
            collection.restrict_free_accounts ==> !account::is_free(
                text::opt_text(accounts[k].plan_type),
            )) && collection.account_ids.contains(accounts[k].id@) ==> c.account_ids.contains(
                accounts[k].id@,
            )
        }),
{
    if 0 <= k < accounts.len() && account::eligible(
        accounts[k],
        collection.restrict_free_accounts,
    ) {
        eligible_accounts_are_valid(accounts, collection.restrict_free_accounts, k);
        valid_ids_are_selected(
            collection.account_ids,
            valid_ids(accounts, collection.restrict_free_accounts),
            accounts[k].id@,
        );
    }
}

/// A repair is called for exactly where it changes something.
pub proof fn repair_changes_something(
    collection: Collection,
    fresh: Fresh,
    accounts: Seq<CodexAccount>,
)
    requires
        is_local_api_key(fresh.api_key),
        fresh.port != 0,
        fresh.created_at > 0,
        fresh.updated_at > 0,
    ensures
        needs_repair(collection, accounts) <==> sanitized(collection, fresh, accounts)
            != collection,
{
    local_api_keys_are_not_blank(fresh.api_key);
}

/// A new pool holds exactly those of the given accounts that may serve the gateway, under the
/// given rule; what else is set stays as it was, or is initial where nothing was set.
pub proof fn new_pools_hold_what_was_chosen(
    stored: Option<Collection>,
    ids: Seq<Seq<char>>,
    restrict_free_accounts: bool,
    accounts: Seq<CodexAccount>,
    fresh: Fresh,
    now: i64,
    then_now: i64,
    id: Seq<char>,
)
    ensures
        ({
            let c = with_accounts(
                stored,
                ids,
                restrict_free_accounts,
                accounts,
                fresh,
                now,
                then_now,
            );
            &&& c.restrict_free_accounts == restrict_free_accounts
            &&& c.account_ids.no_duplicates()
            &&& c.account_ids.contains(id) == (ids.contains(id) && valid_ids(
                accounts,
                restrict_free_accounts,
            ).contains(id))
            &&& c.updated_at == now || c.updated_at == then_now
            &&& stored matches Some(old) ==> {
                &&& c.enabled == old.enabled
                &&& c.routing_strategy == old.routing_strategy
                &&& old.port != 0 ==> c.port == old.port
                &&& text::trimmed(old.api_key).len() > 0 ==> c.api_key == old.api_key
                &&& old.created_at > 0 ==> c.created_at == old.created_at
                &&& old.port != 0 && text::trimmed(old.api_key).len() > 0 && old.created_at > 0
                    && now > 0 ==> c.updated_at == now
            }
            &&& stored is None ==> {
                &&& !c.enabled
                &&& c.routing_strategy is Auto
                &&& c.port == fresh.port
                &&& c.api_key == fresh.api_key
                &&& c.created_at == fresh.created_at
            }
        }),
{
    let valid = valid_ids(accounts, restrict_free_accounts);
    valid_ids_are_selected(ids, valid, id);
    selecting_drops_what_is_invalid(ids, valid);
}

/// The settings of a gateway that nobody has set up: switched off, without accounts, free ones
/// kept out, the default strategy.
pub proof fn gateways_begin_switched_off(fresh: Fresh)
    ensures
        ({
            let c = initial(fresh);
            &&& !c.enabled
            &&& c.account_ids.len() == 0
            &&& c.restrict_free_accounts
            &&& c.routing_strategy is Auto
            &&& c.port == fresh.port
            &&& c.api_key == fresh.api_key
        }),
{
}

/// The two differ at most in their date, their strategy, their key, their port, their switch
/// and their pool, as far as these are to differ.
pub open spec fn same_settings(
    a: Collection,
    b: Collection,
    strategy: bool,
    key: bool,
    port: bool,
    switch: bool,
    pool: bool,
) -> bool {
    &&& strategy || a.routing_strategy == b.routing_strategy
    &&& key || a.api_key == b.api_key
    &&& port || a.port == b.port
    &&& switch || a.enabled == b.enabled
    &&& pool || a.account_ids == b.account_ids
    &&& a.restrict_free_accounts == b.restrict_free_accounts
    &&& a.created_at == b.created_at
}

/// Every change changes what it is about, dates it, and touches nothing else; without settings
/// there is nothing to change.
pub proof fn changes_touch_one_thing(
    c: Collection,
    id: Seq<char>,
    strategy: CodexLocalAccessRoutingStrategy,
    key: Seq<char>,
    port: u16,
    enabled: bool,
    now: i64,
)
    ensures
        strategy_change(Some(c), strategy, now) matches Ok(change) && match change {
            None => c.routing_strategy == strategy,
            Some(d) => c.routing_strategy != strategy && d.routing_strategy == strategy
                && d.updated_at == now && same_settings(d, c, true, false, false, false, false),
        },
        key_change(Some(c), key, now) matches Ok(Some(d)) && d.api_key == key && d.updated_at == now
            && same_settings(d, c, false, true, false, false, false),
        enabled_change(Some(c), enabled, now) matches Ok(Some(d)) && d.enabled == enabled
            && d.updated_at == now && same_settings(d, c, false, false, false, true, false),
        removal(Some(c), id, now) matches Some(d) ==> d.updated_at == now && same_settings(
            d,
            c,
            false,
            false,
            false,
            false,
            true,
        ),
        removal(Some(c), id, now) is None <==> !c.account_ids.contains(id),
        port_change(Some(c), port, None, now) is Err <==> port == 0,
        port != 0 ==> (port_change(Some(c), port, None, now) matches Ok(change) && match change {
            None => c.port == port,
            Some(d) => c.port != port && d.port == port && d.updated_at == now && same_settings(
                d,
                c,
                false,
                false,
                true,
                false,
                false,
            ),
        }),
        strategy_change(None, strategy, now) is Err,
        key_change(None, key, now) is Err,
        enabled_change(None, enabled, now) is Err,
        port_change(None, port, None, now) is Err,
        removal(None, id, now) is None,
{
}

/// A port that could not be opened is not taken over, unless the gateway has it already.
pub proof fn taken_ports_are_refused(c: Collection, port: u16, reason: Seq<char>, now: i64)
    requires
        port != 0,
    ensures
        c.port != port ==> port_change(Some(c), port, Some(reason), now) is Err,
        c.port == port ==> port_change(Some(c), port, Some(reason), now) == Ok::<
            Option<Collection>,
            Seq<char>,
        >(None),
{
}

/// An account that was taken out leaves the others in their order.
pub proof fn removal_keeps_the_order(
    c: Collection,
    id: Seq<char>,
    a: Seq<char>,
    b: Seq<char>,
    now: i64,
)
    requires
        c.account_ids.contains(id),
        text::trimmed(id) == id,
        a != id,
        b != id,
        routing::stands_before(c.account_ids, a, b),
    ensures
        removal(Some(c), id, now) matches Some(d) && routing::stands_before(d.account_ids, a, b),
{
    routing::others_keep_their_order(c.account_ids, id, a, b);
}

} // verus!
