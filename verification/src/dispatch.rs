//! How a request finds an account of the pool that answers it.
//!
//! What has to be done outside (asking the upstream, reading accounts, waiting) is done by
//! the caller: it does what the [`Phase`] says and hands back what came of it as a
//! [`DispatchEvent`].

use vstd::prelude::*;
use vstd::string::*;
use crate::account;
use crate::account::{CodexAccount, CodexAuthMode};
use crate::clock::RetryDelay;
use crate::collection::{CodexLocalAccessCollection, Collection};
use crate::http::ParsedRequest;
use crate::routing;
use crate::routing::CodexLocalAccessRoutingStrategy;
use crate::target;
use crate::text;
use crate::upstream;

verus! {

/// How many accounts are tried for one request.
pub const MAX_RETRY_CREDENTIALS_PER_REQUEST: usize = 8;

/// How many more rounds follow the first.
pub const MAX_REQUEST_RETRY_ATTEMPTS: usize = 1;

/// How long a request may have to wait for the next round, in milliseconds.
pub const MAX_REQUEST_RETRY_WAIT_MS: u128 = 3_000;

// ---------------------------------------------------------------------------------------
// Types
// ---------------------------------------------------------------------------------------

/// Which account has answered.
#[derive(Debug)]
pub struct ProxyDispatchSuccess {
    pub account_id: String,
    pub account_email: String,
}

/// Why no account has answered.
#[derive(Debug)]
pub struct ProxyDispatchError {
    pub status: u16,
    pub message: String,
    pub account_id: Option<String>,
    pub account_email: Option<String>,
}

/// Why no account has answered, as a mathematical value.
pub struct Failure {
    pub status: u16,
    pub message: Seq<char>,
    pub account_id: Option<Seq<char>>,
    pub account_email: Option<Seq<char>>,
}

impl View for ProxyDispatchError {
    type V = Failure;

    open spec fn view(&self) -> Failure {
        Failure {
            status: self.status,
            message: self.message@,
            account_id: text::opt_text(self.account_id),
            account_email: text::opt_text(self.account_email),
        }
    }
}

/// What is to be done next.
#[derive(Debug)]
pub enum Phase {
    /// Find the account that answered the response before.
    Affinity { response_id: String },
    /// Take a turn of the round robin.
    Turn,
    /// Read the accounts.
    Load { account_ids: Vec<String> },
    /// Find out whether the account is cooling down.
    Cooldown { account_id: String },
    /// Make the account ready.
    Prepare { account_id: String },
    /// Ask the upstream with the account.
    Send { account_id: String, account: CodexAccount },
    /// Get new tokens for the account.
    Refresh { account_id: String, account: CodexAccount },
    /// Read the account with its new tokens.
    Reload { account_id: String, account: CodexAccount },
    /// Ask the upstream once more, with the new tokens.
    Resend { account: CodexAccount, refreshed: CodexAccount },
    /// Read the body of the refusal.
    Read { account: CodexAccount, status: u16 },
    /// Wait.
    Sleep { delay: RetryDelay },
    /// Pass the answer on.
    Succeeded { success: ProxyDispatchSuccess },
    /// Say why there is no answer.
    Failed { error: ProxyDispatchError },
}

/// What is to be done next, as a mathematical value.
pub enum Stage {
    Affinity { response_id: Seq<char> },
    Turn,
    Load { ids: Seq<Seq<char>> },
    Cooldown { id: Seq<char> },
    Prepare { id: Seq<char> },
    Send { id: Seq<char>, account: CodexAccount },
    Refresh { id: Seq<char>, account: CodexAccount },
    Reload { id: Seq<char>, account: CodexAccount },
    Resend { account: CodexAccount, refreshed: CodexAccount },
    Read { account: CodexAccount, status: u16 },
    Sleep { delay: RetryDelay },
    Succeeded { id: Seq<char>, email: Seq<char> },
    Failed { failure: Failure },
}

impl View for Phase {
    type V = Stage;

    open spec fn view(&self) -> Stage {
        match *self {
            Phase::Affinity { response_id } => Stage::Affinity { response_id: response_id@ },
            Phase::Turn => Stage::Turn,
            Phase::Load { account_ids } => Stage::Load { ids: text::texts(account_ids@) },
            Phase::Cooldown { account_id } => Stage::Cooldown { id: account_id@ },
            Phase::Prepare { account_id } => Stage::Prepare { id: account_id@ },
            Phase::Send { account_id, account } => Stage::Send { id: account_id@, account },
            Phase::Refresh { account_id, account } => Stage::Refresh { id: account_id@, account },
            Phase::Reload { account_id, account } => Stage::Reload { id: account_id@, account },
            Phase::Resend { account, refreshed } => Stage::Resend { account, refreshed },
            Phase::Read { account, status } => Stage::Read { account, status },
            Phase::Sleep { delay } => Stage::Sleep { delay },
            Phase::Succeeded { success } => Stage::Succeeded {
                id: success.account_id@,
                email: success.account_email@,
            },
            Phase::Failed { error } => Stage::Failed { failure: error@ },
        }
    }
}

/// What came of what was to be done.
#[derive(Debug)]
pub enum DispatchEvent {
    /// The account that answered the response before.
    Affinity(Option<String>),
    /// The number of the turn.
    Turn(usize),
    /// The accounts that were found, in the order of their ids.
    Loaded(Vec<Option<CodexAccount>>),
    /// How long the account is still cooling down.
    Wait(Option<RetryDelay>),
    /// The account, ready, or why it is not.
    Prepared(Result<CodexAccount, String>),
    /// The status of the answer, or why there is none.
    Sent(Result<u16, String>),
    /// Whether there are new tokens.
    Refreshed(Result<(), String>),
    /// The account with its new tokens.
    Reloaded(Option<CodexAccount>),
    /// The body of the refusal, and the time in seconds.
    Body { content: String, now_seconds: i64 },
    /// The waiting is over.
    Slept,
}

/// What came of what was to be done, as a mathematical value.
pub enum Outcome {
    Affinity(Option<Seq<char>>),
    Turn(int),
    Loaded(Seq<Option<CodexAccount>>),
    Wait(Option<RetryDelay>),
    Prepared(Result<CodexAccount, Seq<char>>),
    Sent(Result<u16, Seq<char>>),
    Refreshed(Option<Seq<char>>),
    Reloaded(Option<CodexAccount>),
    Body { content: Seq<char>, now_seconds: i64 },
    Slept,
}

impl View for DispatchEvent {
    type V = Outcome;

    open spec fn view(&self) -> Outcome {
        match *self {
            DispatchEvent::Affinity(account) => Outcome::Affinity(text::opt_text(account)),
            DispatchEvent::Turn(start) => Outcome::Turn(start as int),
            DispatchEvent::Loaded(accounts) => Outcome::Loaded(accounts@),
            DispatchEvent::Wait(wait) => Outcome::Wait(wait),
            DispatchEvent::Prepared(prepared) => Outcome::Prepared(
                match prepared {
                    Ok(a) => Ok(a),
                    Err(message) => Err(message@),
                },
            ),
            DispatchEvent::Sent(sent) => Outcome::Sent(
                match sent {
                    Ok(status) => Ok(status),
                    Err(message) => Err(message@),
                },
            ),
            DispatchEvent::Refreshed(refreshed) => Outcome::Refreshed(
                match refreshed {
                    Ok(()) => None,
                    Err(message) => Some(message@),
                },
            ),
            DispatchEvent::Reloaded(account) => Outcome::Reloaded(account),
            DispatchEvent::Body { content, now_seconds } => Outcome::Body {
                content: content@,
                now_seconds,
            },
            DispatchEvent::Slept => Outcome::Slept,
        }
    }
}

/// What becomes of the cooldown of an account for the model of the request.
#[derive(Debug)]
pub enum CooldownChange {
    Unchanged,
    Begin { account_id: String, retry_after: RetryDelay },
    End { account_id: String },
}

/// What becomes of a cooldown, as a mathematical value.
pub enum Cooling {
    Unchanged,
    Begin { id: Seq<char>, retry_after: RetryDelay },
    End { id: Seq<char> },
}

impl View for CooldownChange {
    type V = Cooling;

    open spec fn view(&self) -> Cooling {
        match *self {
            CooldownChange::Unchanged => Cooling::Unchanged,
            CooldownChange::Begin { account_id, retry_after } => Cooling::Begin {
                id: account_id@,
                retry_after,
            },
            CooldownChange::End { account_id } => Cooling::End { id: account_id@ },
        }
    }
}

/// A request on its way to an account.
#[derive(Debug)]
pub struct Dispatch {
    pool: Vec<String>,
    strategy: CodexLocalAccessRoutingStrategy,
    restrict_free_accounts: bool,
    upstream_target: String,
    model_key: String,
    max_attempts: usize,
    affinity: Option<String>,
    last_status: u16,
    last_error: String,
    last_account_id: Option<String>,
    last_account_email: Option<String>,
    attempts: usize,
    retry_round: usize,
    queue: Vec<String>,
    attempted_in_round: bool,
    round_wait: Option<RetryDelay>,
    phase: Phase,
}

/// A request on its way to an account, as a mathematical value.
pub struct Journey {
    pub pool: Seq<Seq<char>>,
    pub strategy: CodexLocalAccessRoutingStrategy,
    pub restrict_free_accounts: bool,
    pub upstream_target: Seq<char>,
    pub model_key: Seq<char>,
    pub max_attempts: int,
    pub affinity: Option<Seq<char>>,
    pub last_status: u16,
    pub last_error: Seq<char>,
    pub last_account_id: Option<Seq<char>>,
    pub last_account_email: Option<Seq<char>>,
    pub attempts: int,
    pub retry_round: int,
    pub queue: Seq<Seq<char>>,
    pub attempted_in_round: bool,
    pub round_wait: Option<RetryDelay>,
    pub stage: Stage,
}

impl View for Dispatch {
    type V = Journey;

    closed spec fn view(&self) -> Journey {
        Journey {
            pool: text::texts(self.pool@),
            strategy: self.strategy,
            restrict_free_accounts: self.restrict_free_accounts,
            upstream_target: self.upstream_target@,
            model_key: self.model_key@,
            max_attempts: self.max_attempts as int,
            affinity: text::opt_text(self.affinity),
            last_status: self.last_status,
            last_error: self.last_error@,
            last_account_id: text::opt_text(self.last_account_id),
            last_account_email: text::opt_text(self.last_account_email),
            attempts: self.attempts as int,
            retry_round: self.retry_round as int,
            queue: text::texts(self.queue@),
            attempted_in_round: self.attempted_in_round,
            round_wait: self.round_wait,
            stage: self.phase@,
        }
    }
}

// ---------------------------------------------------------------------------------------
// The way
// ---------------------------------------------------------------------------------------

/// The request where it begins.
pub open spec fn begun(
    settings: Collection,
    hint: upstream::Hint,
    target: Result<Seq<char>, Seq<char>>,
) -> Result<Journey, Failure> {
    if settings.account_ids.len() == 0 {
        Err(
            Failure {
                status: 503,
                message: "本地接入集合暂无账号"@,
                account_id: None,
                account_email: None,
            },
        )
    } else {
        match target {
            Err(message) => Err(
                Failure { status: 400, message, account_id: None, account_email: None },
            ),
            Ok(path) => Ok(
                Journey {
                    pool: settings.account_ids,
                    strategy: settings.routing_strategy,
                    restrict_free_accounts: settings.restrict_free_accounts,
                    upstream_target: path,
                    model_key: hint.model_key,
                    max_attempts: if settings.account_ids.len()
                        < MAX_RETRY_CREDENTIALS_PER_REQUEST {
                        settings.account_ids.len() as int
                    } else {
                        MAX_RETRY_CREDENTIALS_PER_REQUEST as int
                    },
                    affinity: None,
                    last_status: 503,
                    last_error: "本地接入集合暂无可用账号"@,
                    last_account_id: None,
                    last_account_email: None,
                    attempts: 0,
                    retry_round: 0,
                    queue: Seq::empty(),
                    attempted_in_round: false,
                    round_wait: None,
                    stage: match hint.previous_response_id {
                        Some(response_id) => Stage::Affinity { response_id },
                        None => Stage::Turn,
                    },
                },
            ),
        }
    }
}

/// The shorter of two waiting times, the first of which may be missing.
pub open spec fn shorter_wait(current: Option<RetryDelay>, wait: RetryDelay) -> RetryDelay {
    match current {
        Some(c) => if c.millis <= wait.millis {
            c
        } else {
            wait
        },
        None => wait,
    }
}

/// The request, with its end.
pub open spec fn failed(j: Journey, failure: Failure) -> Journey {
    Journey { stage: Stage::Failed { failure }, ..j }
}

/// The request when there is nothing more to try. That accounts are cooling down weighs more
/// than the last error, unless an account was refused for another reason.
pub open spec fn given_up(j: Journey) -> Journey {
    failed(
        j,
        Failure {
            status: if j.last_status == 503 && j.round_wait is Some {
                429
            } else {
                j.last_status
            },
            message: if (j.last_status == 429 || j.last_status == 503) && j.round_wait is Some {
                upstream::cooling_message(j.model_key, j.round_wait->0)
            } else {
                j.last_error
            },
            account_id: j.last_account_id,
            account_email: j.last_account_email,
        },
    )
}

/// The request at the end of a round: another one follows after a short wait, if accounts are
/// cooling down and there is something left to try.
pub open spec fn round_ended(j: Journey) -> Journey {
    match j.round_wait {
        None => given_up(j),
        Some(wait) => if j.attempts >= j.max_attempts || j.retry_round
            >= MAX_REQUEST_RETRY_ATTEMPTS || wait.millis > MAX_REQUEST_RETRY_WAIT_MS {
            if j.attempted_in_round {
                given_up(j)
            } else {
                failed(
                    j,
                    Failure {
                        status: 429,
                        message: upstream::cooling_message(j.model_key, wait),
                        account_id: j.affinity,
                        account_email: None,
                    },
                )
            }
        } else {
            Journey { stage: Stage::Sleep { delay: wait }, ..j }
        },
    }
}

/// The request on its way to the next account of the round.
pub open spec fn moved_on(j: Journey) -> Journey {
    if j.queue.len() == 0 || j.attempts >= j.max_attempts {
        round_ended(j)
    } else {
        Journey {
            stage: Stage::Cooldown { id: j.queue[0] },
            queue: j.queue.drop_first(),
            ..j
        }
    }
}

/// The request after an account could not be used.
pub open spec fn passed_over(j: Journey, message: Seq<char>) -> Journey {
    moved_on(Journey { last_error: message, ..j })
}

/// As many accounts as there are ids; what is missing was not found.
pub open spec fn fitted(accounts: Seq<Option<CodexAccount>>, n: nat) -> Seq<Option<CodexAccount>> {
    Seq::new(
        n,
        |i: int|
            if i < accounts.len() {
                accounts[i]
            } else {
                None
            },
    )
}

/// The order in which the accounts of a round are tried.
pub open spec fn trial_order(
    j: Journey,
    ids: Seq<Seq<char>>,
    accounts: Seq<Option<CodexAccount>>,
) -> Seq<Seq<char>> {
    routing::pinned(
        routing::strategy_ids(ids, fitted(accounts, ids.len()), j.strategy),
        j.affinity,
    )
}

/// The request after its account was made ready, or was not.
pub open spec fn prepared(
    j: Journey,
    id: Seq<char>,
    outcome: Result<CodexAccount, Seq<char>>,
) -> Journey {
    match outcome {
        Err(message) => passed_over(j, message),
        Ok(a) => if a.auth_mode == CodexAuthMode::ApiKey {
            passed_over(j, "API Key 账号不支持加入本地接入"@)
        } else if j.restrict_free_accounts && account::is_free(text::opt_text(a.plan_type)) {
            passed_over(j, "Free 账号不支持加入本地接入"@)
        } else {
            Journey {
                last_account_id: Some(a.id@),
                last_account_email: Some(a.email@),
                stage: Stage::Send { id, account: a },
                ..j
            }
        },
    }
}

/// The status says that the request was served.
pub open spec fn is_success(status: u16) -> bool {
    200 <= status < 300
}

/// The request after the upstream has answered an account.
pub open spec fn answered(j: Journey, a: CodexAccount, status: u16) -> (Journey, Cooling) {
    if is_success(status) {
        (
            Journey { stage: Stage::Succeeded { id: a.id@, email: a.email@ }, ..j },
            Cooling::End { id: a.id@ },
        )
    } else {
        (Journey { stage: Stage::Read { account: a, status }, ..j }, Cooling::Unchanged)
    }
}

/// The request after a refusal with a given summary and waiting time, which is worth another
/// account or is not.
pub open spec fn refused(
    j: Journey,
    a: CodexAccount,
    status: u16,
    message: Seq<char>,
    wait: Option<RetryDelay>,
    another: bool,
) -> (Journey, Cooling) {
    let cooling = match wait {
        Some(retry_after) => Cooling::Begin { id: a.id@, retry_after },
        None => Cooling::Unchanged,
    };
    let next = Journey {
        round_wait: match wait {
            Some(w) => Some(shorter_wait(j.round_wait, w)),
            None => j.round_wait,
        },
        ..j
    };
    if another {
        (
            moved_on(
                Journey {
                    last_status: status,
                    last_error: "账号 "@ + a.email@ + " 当前不可用，已尝试轮转: "@ + message,
                    ..next
                },
            ),
            cooling,
        )
    } else {
        (
            failed(
                next,
                Failure {
                    status,
                    message,
                    account_id: Some(a.id@),
                    account_email: Some(a.email@),
                },
            ),
            cooling,
        )
    }
}

/// The waiting time of so many milliseconds.
pub open spec fn delay_of(millis: Option<int>) -> Option<RetryDelay> {
    match millis {
        Some(n) => Some(RetryDelay { millis: n as u128 }),
        None => None,
    }
}

/// The request after what was to be done is done. What does not belong to it changes nothing.
pub open spec fn advanced(j: Journey, outcome: Outcome) -> (Journey, Cooling) {
    match (j.stage, outcome) {
        (Stage::Affinity { .. }, Outcome::Affinity(account)) => (
            Journey { affinity: account, stage: Stage::Turn, ..j },
            Cooling::Unchanged,
        ),
        (Stage::Turn, Outcome::Turn(start)) => (
            Journey {
                attempted_in_round: false,
                round_wait: None,
                stage: Stage::Load {
                    ids: routing::round_order(j.pool, start, j.affinity),
                },
                ..j
            },
            Cooling::Unchanged,
        ),
        (Stage::Load { ids }, Outcome::Loaded(accounts)) => (
            moved_on(Journey { queue: trial_order(j, ids, accounts), ..j }),
            Cooling::Unchanged,
        ),
        (Stage::Cooldown { id }, Outcome::Wait(wait)) => (
            match wait {
                Some(w) => moved_on(
                    Journey { round_wait: Some(shorter_wait(j.round_wait, w)), ..j },
                ),
                None => Journey {
                    attempted_in_round: true,
                    attempts: j.attempts + 1,
                    stage: Stage::Prepare { id },
                    ..j
                },
            },
            Cooling::Unchanged,
        ),
        (Stage::Prepare { id }, Outcome::Prepared(result)) => (
            prepared(j, id, result),
            Cooling::Unchanged,
        ),
        (Stage::Send { id, account }, Outcome::Sent(result)) => match result {
            Err(message) => (passed_over(j, message), Cooling::Unchanged),
            Ok(status) => if status == 401 {
                (Journey { stage: Stage::Refresh { id, account }, ..j }, Cooling::Unchanged)
            } else {
                answered(j, account, status)
            },
        },
        (Stage::Refresh { id, account }, Outcome::Refreshed(fault)) => (
            match fault {
                Some(message) => passed_over(j, message),
                None => Journey { stage: Stage::Reload { id, account }, ..j },
            },
            Cooling::Unchanged,
        ),
        (Stage::Reload { id, account }, Outcome::Reloaded(found)) => (
            match found {
                None => passed_over(j, "账号不存在: "@ + id),
                Some(refreshed) => Journey { stage: Stage::Resend { account, refreshed }, ..j },
            },
            Cooling::Unchanged,
        ),
        (Stage::Resend { account, refreshed }, Outcome::Sent(result)) => match result {
            Err(message) => (passed_over(j, message), Cooling::Unchanged),
            Ok(status) => if status == 401 {
                (
                    passed_over(
                        Journey { last_status: 401, ..j },
                        "账号 "@ + refreshed.email@ + " 鉴权失败"@,
                    ),
                    Cooling::Unchanged,
                )
            } else {
                answered(j, account, status)
            },
        },
        (Stage::Read { account, status }, Outcome::Body { content, now_seconds }) => refused(
            j,
            account,
            status,
            upstream::refusal_summary(status, upstream::refusal_message(content), content),
            delay_of(upstream::refusal_wait(status, content, now_seconds)),
            upstream::worth_another_account(status, content),
        ),
        (Stage::Sleep { .. }, Outcome::Slept) => (
            Journey { retry_round: j.retry_round + 1, stage: Stage::Turn, ..j },
            Cooling::Unchanged,
        ),
        _ => (j, Cooling::Unchanged),
    }
}

impl Journey {
    /// The request has a pool, has not tried too much, and tries accounts of its pool only,
    /// none of them twice in a round. What asks the upstream may serve the gateway.
    pub open spec fn well_formed(self) -> bool {
        &&& self.pool.len() > 0
        &&& self.max_attempts == (if self.pool.len() < MAX_RETRY_CREDENTIALS_PER_REQUEST {
            self.pool.len() as int
        } else {
            MAX_RETRY_CREDENTIALS_PER_REQUEST as int
        })
        &&& 0 <= self.attempts <= self.max_attempts
        &&& 0 <= self.retry_round <= MAX_REQUEST_RETRY_ATTEMPTS
        &&& self.queue.no_duplicates()
        &&& forall|i: int|
            0 <= i < self.queue.len() ==> self.pool.contains(#[trigger] self.queue[i])
        &&& match self.stage {
            Stage::Load { ids } => ids.no_duplicates() && forall|i: int|
                0 <= i < ids.len() ==> self.pool.contains(#[trigger] ids[i]),
            Stage::Cooldown { id } => self.attempts < self.max_attempts && self.pool.contains(id)
                && !self.queue.contains(id),
            Stage::Prepare { id } => self.attempts > 0 && self.pool.contains(id)
                && !self.queue.contains(id),
            Stage::Send { id, account } => self.attempts > 0 && self.pool.contains(id)
                && account::eligible(account, self.restrict_free_accounts),
            Stage::Refresh { id, account } => self.attempts > 0 && self.pool.contains(id)
                && account::eligible(account, self.restrict_free_accounts),
            Stage::Reload { id, account } => self.attempts > 0 && self.pool.contains(id)
                && account::eligible(account, self.restrict_free_accounts),
            Stage::Resend { account, .. } => self.attempts > 0 && account::eligible(
                account,
                self.restrict_free_accounts,
            ),
            Stage::Read { account, .. } => self.attempts > 0 && account::eligible(
                account,
                self.restrict_free_accounts,
            ),
            Stage::Sleep { delay } => self.attempts < self.max_attempts && self.retry_round
                < MAX_REQUEST_RETRY_ATTEMPTS && delay.millis <= MAX_REQUEST_RETRY_WAIT_MS,
            _ => true,
        }
    }
}

// ---------------------------------------------------------------------------------------
// Going it
// ---------------------------------------------------------------------------------------

/// A request on its way or an error, as a mathematical value.
pub open spec fn begun_view(dispatch: Result<Dispatch, ProxyDispatchError>) -> Result<
    Journey,
    Failure,
> {
    match dispatch {
        Ok(d) => Ok(d@),
        Err(error) => Err(error@),
    }
}

impl Dispatch {
    /// Sets out, with what the request hints at and the path at the upstream that it asks for.
    pub fn set_out(
        settings: &CodexLocalAccessCollection,
        hint: upstream::RequestRoutingHint,
        target: Result<String, String>,
    ) -> (dispatch: Result<Dispatch, ProxyDispatchError>)
        ensures
            begun_view(dispatch) == begun(settings@, hint@, target::text_view(target)),
            dispatch matches Ok(d) ==> d@.well_formed(),
    {
        if settings.account_ids.len() == 0 {
            return Err(
                ProxyDispatchError {
                    status: 503,
                    message: "本地接入集合暂无账号".to_owned(),
                    account_id: None,
                    account_email: None,
                },
            );
        }
        let upstream_target = match target {
            Ok(path) => path,
            Err(message) => {
                return Err(
                    ProxyDispatchError {
                        status: 400,
                        message,
                        account_id: None,
                        account_email: None,
                    },
                );
            },
        };
        let total = settings.account_ids.len();
        let phase = match hint.previous_response_id {
            Some(response_id) => Phase::Affinity { response_id },
            None => Phase::Turn,
        };
        let dispatch = Dispatch {
            pool: text::copy_strings(settings.account_ids.as_slice()),
            strategy: settings.routing_strategy,
            restrict_free_accounts: settings.restrict_free_accounts,
            upstream_target,
            model_key: hint.model_key,
            max_attempts: if total < MAX_RETRY_CREDENTIALS_PER_REQUEST {
                total
            } else {
                MAX_RETRY_CREDENTIALS_PER_REQUEST
            },
            affinity: None,
            last_status: 503,
            last_error: "本地接入集合暂无可用账号".to_owned(),
            last_account_id: None,
            last_account_email: None,
            attempts: 0,
            retry_round: 0,
            queue: Vec::new(),
            attempted_in_round: false,
            round_wait: None,
            phase,
        };
        assert(dispatch@.queue =~= Seq::empty());
        Ok(dispatch)
    }

    /// Sets out with a request.
    pub fn begin(request: &ParsedRequest, settings: &CodexLocalAccessCollection) -> (dispatch:
        Result<Dispatch, ProxyDispatchError>)
        ensures
            begun_view(dispatch) == begun(
                settings@,
                upstream::hint_in(upstream::body_tree(request.body@)),
                target::upstream_target(request.target@),
            ),
            dispatch matches Ok(d) ==> d@.well_formed(),
    {
        Dispatch::set_out(
            settings,
            upstream::build_request_routing_hint(request),
            target::resolve_upstream_target(request.target.as_str()),
        )
    }

    /// What is to be done next.
    pub fn phase(&self) -> (phase: &Phase)
        ensures
            phase@ == self@.stage,
    {
        &self.phase
    }

    /// What is to be done next, at the end of the way: the answer or the failure.
    pub fn into_phase(self) -> (phase: Phase)
        ensures
            phase@ == self@.stage,
    {
        self.phase
    }

    /// The path at the upstream that is asked for.
    pub fn upstream_target(&self) -> (path: &str)
        ensures
            path@ == self@.upstream_target,
    {
        self.upstream_target.as_str()
    }

    /// The model that is asked for.
    pub fn model_key(&self) -> (key: &str)
        ensures
            key@ == self@.model_key,
    {
        self.model_key.as_str()
    }

    fn fail(&mut self, error: ProxyDispatchError)
        ensures
            final(self)@ == failed(old(self)@, error@),
    {
        self.phase = Phase::Failed { error };
    }

    fn give_up(&mut self)
        ensures
            final(self)@ == given_up(old(self)@),
    {
        let status: u16 = if self.last_status == 503 && self.round_wait.is_some() {
            429
        } else {
            self.last_status
        };
        let message = match self.round_wait {
            Some(wait) => if self.last_status == 429 || self.last_status == 503 {
                upstream::build_cooldown_unavailable_message(self.model_key.as_str(), wait)
            } else {
                self.last_error.clone()
            },
            None => self.last_error.clone(),
        };
        let error = ProxyDispatchError {
            status,
            message,
            account_id: text::copy_option(&self.last_account_id),
            account_email: text::copy_option(&self.last_account_email),
        };
        self.fail(error);
    }

    fn end_round(&mut self)
        ensures
            final(self)@ == round_ended(old(self)@),
    {
        match self.round_wait {
            None => self.give_up(),
            Some(wait) => {
                if self.attempts >= self.max_attempts || self.retry_round
                    >= MAX_REQUEST_RETRY_ATTEMPTS || wait.millis > MAX_REQUEST_RETRY_WAIT_MS {
                    if self.attempted_in_round {
                        self.give_up();
                    } else {
                        let error = ProxyDispatchError {
                            status: 429,
                            message: upstream::build_cooldown_unavailable_message(
                                self.model_key.as_str(),
                                wait,
                            ),
                            account_id: text::copy_option(&self.affinity),
                            account_email: None,
                        };
                        self.fail(error);
                    }
                } else {
                    self.phase = Phase::Sleep { delay: wait };
                }
            },
        }
    }

    fn move_on(&mut self)
        ensures
            final(self)@ == moved_on(old(self)@),
    {
        if self.queue.len() == 0 || self.attempts >= self.max_attempts {
            self.end_round();
        } else {
            let ghost before = self.queue@;
            let account_id = self.queue.remove(0);
            assert(text::texts(self.queue@) =~= text::texts(before).drop_first());
            self.phase = Phase::Cooldown { account_id };
        }
    }

    fn pass_over(&mut self, message: String)
        ensures
            final(self)@ == passed_over(old(self)@, message@),
    {
        self.last_error = message;
        self.move_on();
    }

    fn note_wait(&mut self, wait: RetryDelay)
        ensures
            final(self)@ == (Journey {
                round_wait: Some(shorter_wait(old(self)@.round_wait, wait)),
                ..old(self)@
            }),
    {
        let shorter = match self.round_wait {
            Some(current) => if current.millis <= wait.millis {
                current
            } else {
                wait
            },
            None => wait,
        };
        self.round_wait = Some(shorter);
    }

    fn after_prepare(&mut self, account_id: String, outcome: Result<CodexAccount, String>)
        ensures
            final(self)@ == prepared(
                old(self)@,
                account_id@,
                match outcome {
                    Ok(a) => Ok(a),
                    Err(message) => Err(message@),
                },
            ),
    {
        match outcome {
            Err(message) => self.pass_over(message),
            Ok(a) => {
                if a.is_api_key_auth() {
                    self.pass_over("API Key 账号不支持加入本地接入".to_owned());
                } else if self.restrict_free_accounts && account::is_free_plan_type(
                    text::option_str(&a.plan_type),
                ) {
                    self.pass_over("Free 账号不支持加入本地接入".to_owned());
                } else {
                    self.last_account_id = Some(a.id.clone());
                    self.last_account_email = Some(a.email.clone());
                    self.phase = Phase::Send { account_id, account: a };
                }
            },
        }
    }

    fn after_answer(&mut self, a: CodexAccount, status: u16) -> (change: CooldownChange)
        ensures
            (final(self)@, change@) == answered(old(self)@, a, status),
    {
        if status >= 200 && status < 300 {
            let change = CooldownChange::End { account_id: a.id.clone() };
            self.phase = Phase::Succeeded {
                success: ProxyDispatchSuccess { account_id: a.id, account_email: a.email },
            };
            change
        } else {
            self.phase = Phase::Read { account: a, status };
            CooldownChange::Unchanged
        }
    }

    /// Goes on after a refusal with a given summary and waiting time, which is worth another
    /// account or is not.
    pub fn after_refusal(
        &mut self,
        a: CodexAccount,
        status: u16,
        message: String,
        wait: Option<RetryDelay>,
        another: bool,
    ) -> (change: CooldownChange)
        ensures
            (final(self)@, change@) == refused(old(self)@, a, status, message@, wait, another),
            old(self)@.well_formed() ==> final(self)@.well_formed(),
    {
        proof {
            if self@.well_formed() {
                lemma_refused(self@, a, status, message@, wait, another);
            }
        }
        let change = match wait {
            Some(retry_after) => {
                self.note_wait(retry_after);
                CooldownChange::Begin { account_id: a.id.clone(), retry_after }
            },
            None => CooldownChange::Unchanged,
        };
        if another {
            let mut said = "账号 ".to_owned();
            said.append(a.email.as_str());
            said.append(" 当前不可用，已尝试轮转: ");
            said.append(message.as_str());
            self.last_status = status;
            self.pass_over(said);
        } else {
            self.fail(
                ProxyDispatchError {
                    status,
                    message,
                    account_id: Some(a.id),
                    account_email: Some(a.email),
                },
            );
        }
        change
    }

    fn after_load(&mut self, account_ids: Vec<String>, accounts: Vec<Option<CodexAccount>>)
        ensures
            final(self)@ == moved_on(
                Journey {
                    queue: trial_order(old(self)@, text::texts(account_ids@), accounts@),
                    ..old(self)@
                },
            ),
    {
        let ghost found = accounts@;
        let mut accounts = accounts;
        if accounts.len() > account_ids.len() {
            accounts.truncate(account_ids.len());
        }
        while accounts.len() < account_ids.len()
            invariant
                accounts@.len() <= account_ids@.len(),
                forall|i: int|
                    0 <= i < accounts@.len() ==> #[trigger] accounts@[i] == (if i < found.len() {
                        found[i]
                    } else {
                        None
                    }),
                found.len() <= account_ids@.len() ==> accounts@.len() >= found.len(),
                found.len() > account_ids@.len() ==> accounts@.len() == account_ids@.len(),
            decreases account_ids@.len() - accounts@.len(),
        {
            accounts.push(None);
        }
        assert(accounts@ =~= fitted(found, account_ids@.len()));
        let ordered = routing::apply_routing_strategy(
            account_ids.as_slice(),
            accounts.as_slice(),
            self.strategy,
        );
        self.queue = routing::pin_account_to_front(ordered, text::option_str(&self.affinity));
        self.move_on();
    }

    fn after_body(&mut self, a: CodexAccount, status: u16, content: String, now_seconds: i64) -> (
        change: CooldownChange)
        ensures
            (final(self)@, change@) == refused(
                old(self)@,
                a,
                status,
                upstream::refusal_summary(status, upstream::refusal_message(content@), content@),
                delay_of(upstream::refusal_wait(status, content@, now_seconds)),
                upstream::worth_another_account(status, content@),
            ),
    {
        let message = upstream::summarize_upstream_error(status, content.as_str());
        let wait = upstream::parse_codex_retry_after_at(status, content.as_str(), now_seconds);
        let another = upstream::should_try_next_account(status, content.as_str());
        self.after_refusal(a, status, message, wait, another)
    }

    fn after_turn(&mut self, start: usize)
        ensures
            final(self)@ == (Journey {
                attempted_in_round: false,
                round_wait: None,
                stage: Stage::Load {
                    ids: routing::round_order(old(self)@.pool, start as int, old(self)@.affinity),
                },
                ..old(self)@
            }),
    {
        let account_ids = routing::build_ordered_account_ids(
            self.pool.as_slice(),
            start,
            text::option_str(&self.affinity),
        );
        self.attempted_in_round = false;
        self.round_wait = None;
        self.phase = Phase::Load { account_ids };
    }

    /// Goes on with what came of what was to be done. Says what becomes of the cooldown of the
    /// account that was asked.
    #[verifier::rlimit(60)]
    pub fn step(&mut self, event: DispatchEvent) -> (change: CooldownChange)
        requires
            old(self)@.well_formed(),
        ensures
            (final(self)@, change@) == advanced(old(self)@, event@),
            final(self)@.well_formed(),
    {
        proof {
            journey_stays_well_formed(self@, event@);
        }
        let ghost before = self@;
        let mut phase = Phase::Turn;
        core::mem::swap(&mut self.phase, &mut phase);
        let ghost stage = phase@;
        match (phase, event) {
            (Phase::Affinity { .. }, DispatchEvent::Affinity(account)) => {
                self.affinity = account;
                self.phase = Phase::Turn;
                CooldownChange::Unchanged
            },
            (Phase::Turn, DispatchEvent::Turn(start)) => {
                self.after_turn(start);
                CooldownChange::Unchanged
            },
            (Phase::Load { account_ids }, DispatchEvent::Loaded(accounts)) => {
                self.after_load(account_ids, accounts);
                CooldownChange::Unchanged
            },
            (Phase::Cooldown { account_id }, DispatchEvent::Wait(wait)) => {
                match wait {
                    Some(w) => {
                        self.note_wait(w);
                        self.move_on();
                    },
                    None => {
                        self.attempted_in_round = true;
                        self.attempts = self.attempts + 1;
                        self.phase = Phase::Prepare { account_id };
                    },
                }
                CooldownChange::Unchanged
            },
            (Phase::Prepare { account_id }, DispatchEvent::Prepared(outcome)) => {
                self.after_prepare(account_id, outcome);
                CooldownChange::Unchanged
            },
            (Phase::Send { account_id, account: a }, DispatchEvent::Sent(sent)) => match sent {
                Err(message) => {
                    self.pass_over(message);
                    CooldownChange::Unchanged
                },
                Ok(status) => {
                    if status == 401 {
                        self.phase = Phase::Refresh { account_id, account: a };
                        CooldownChange::Unchanged
                    } else {
                        self.after_answer(a, status)
                    }
                },
            },
            (Phase::Refresh { account_id, account: a }, DispatchEvent::Refreshed(refreshed)) => {
                match refreshed {
                    Err(message) => self.pass_over(message),
                    Ok(()) => {
                        self.phase = Phase::Reload { account_id, account: a };
                    },
                }
                CooldownChange::Unchanged
            },
            (Phase::Reload { account_id, account: a }, DispatchEvent::Reloaded(found)) => {
                match found {
                    None => {
                        let mut message = "账号不存在: ".to_owned();
                        message.append(account_id.as_str());
                        self.pass_over(message);
                    },
                    Some(refreshed) => {
                        self.phase = Phase::Resend { account: a, refreshed };
                    },
                }
                CooldownChange::Unchanged
            },
            (Phase::Resend { account: a, refreshed }, DispatchEvent::Sent(sent)) => match sent {
                Err(message) => {
                    self.pass_over(message);
                    CooldownChange::Unchanged
                },
                Ok(status) => {
                    if status == 401 {
                        let mut message = "账号 ".to_owned();
                        message.append(refreshed.email.as_str());
                        message.append(" 鉴权失败");
                        self.last_status = 401;
                        self.pass_over(message);
                        CooldownChange::Unchanged
                    } else {
                        self.after_answer(a, status)
                    }
                },
            },
            (Phase::Read { account: a, status }, DispatchEvent::Body { content, now_seconds }) => {
                self.after_body(a, status, content, now_seconds)
            },
            (Phase::Sleep { .. }, DispatchEvent::Slept) => {
                self.retry_round = self.retry_round + 1;
                self.phase = Phase::Turn;
                CooldownChange::Unchanged
            },
            (phase, _) => {
                self.phase = phase;
                CooldownChange::Unchanged
            },
        }
    }
}

// ---------------------------------------------------------------------------------------
// Laws
// ---------------------------------------------------------------------------------------

/// The request with nothing to be done.
spec fn between_accounts(j: Journey) -> Journey {
    Journey { stage: Stage::Turn, ..j }
}

proof fn lemma_moved_on(j: Journey)
    requires
        between_accounts(j).well_formed(),
    ensures
        moved_on(j).well_formed(),
{
    if j.queue.len() > 0 && j.attempts < j.max_attempts {
        let rest = j.queue.drop_first();
        assert forall|i: int| 0 <= i < rest.len() implies j.pool.contains(#[trigger] rest[i]) by {
            assert(rest[i] == j.queue[i + 1]);
        }
        assert forall|a: int, b: int|
            0 <= a < rest.len() && 0 <= b < rest.len() && a != b implies rest[a] != rest[b] by {
            assert(j.queue[a + 1] != j.queue[b + 1]);
        }
        assert(!rest.contains(j.queue[0])) by {
            if rest.contains(j.queue[0]) {
                let k = choose|k: int| 0 <= k < rest.len() && rest[k] == j.queue[0];
                assert(j.queue[k + 1] == j.queue[0]);
            }
        }
        assert(j.pool.contains(j.queue[0]));
    }
}

proof fn lemma_trial_order(
    j: Journey,
    ids: Seq<Seq<char>>,
    accounts: Seq<Option<CodexAccount>>,
)
    requires
        ids.no_duplicates(),
        forall|i: int| 0 <= i < ids.len() ==> j.pool.contains(#[trigger] ids[i]),
    ensures
        trial_order(j, ids, accounts).no_duplicates(),
        forall|id: Seq<char>| #[trigger]
            trial_order(j, ids, accounts).contains(id) == ids.contains(id),
        forall|i: int|
            0 <= i < trial_order(j, ids, accounts).len() ==> j.pool.contains(
                #[trigger] trial_order(j, ids, accounts)[i],
            ),
{
    broadcast use vstd::seq_lib::group_to_multiset_ensures;

    let found = fitted(accounts, ids.len());
    let sorted = routing::strategy_ids(ids, found, j.strategy);
    let order = trial_order(j, ids, accounts);
    routing::strategy_only_reorders(ids, found, j.strategy);
    ids.lemma_multiset_has_no_duplicates();
    sorted.lemma_multiset_has_no_duplicates_conv();
    routing::pinning_only_reorders(sorted, j.affinity);
    assert forall|id: Seq<char>| #[trigger] order.contains(id) == ids.contains(id) by {
        assert(sorted.to_multiset().count(id) == ids.to_multiset().count(id));
        assert(sorted.contains(id) <==> sorted.to_multiset().count(id) > 0);
        assert(ids.contains(id) <==> ids.to_multiset().count(id) > 0);
        assert(order.contains(id) == sorted.contains(id));
    }
    assert forall|i: int| 0 <= i < order.len() implies j.pool.contains(#[trigger] order[i]) by {
        assert(order.contains(order[i]));
        let k = choose|k: int| 0 <= k < ids.len() && ids[k] == order[i];
        assert(j.pool.contains(ids[k]));
    }
}

/// Whatever happens, a request never tries more than it may, tries accounts of its pool only,
/// none of them twice in a round, and asks the upstream with accounts only that may serve the
/// gateway.
pub proof fn journey_stays_well_formed(j: Journey, outcome: Outcome)
    requires
        j.well_formed(),
        outcome matches Outcome::Turn(start) ==> start >= 0,
    ensures
        advanced(j, outcome).0.well_formed(),
        advanced(j, outcome).0.attempts <= MAX_RETRY_CREDENTIALS_PER_REQUEST,
        advanced(j, outcome).0.retry_round <= MAX_REQUEST_RETRY_ATTEMPTS,
{
    match (j.stage, outcome) {
        (Stage::Turn, Outcome::Turn(start)) => {
            let ids = routing::round_order(j.pool, start, j.affinity);
            routing::round_covers_pool(j.pool, start, j.affinity);
            assert forall|i: int| 0 <= i < ids.len() implies j.pool.contains(
                #[trigger] ids[i],
            ) by {
                assert(ids.contains(ids[i]));
            }
        },
        (Stage::Load { ids }, Outcome::Loaded(accounts)) => {
            lemma_trial_order(j, ids, accounts);
            lemma_moved_on(Journey { queue: trial_order(j, ids, accounts), ..j });
        },
        (Stage::Cooldown { id }, Outcome::Wait(wait)) => {
            if let Some(w) = wait {
                lemma_moved_on(Journey { round_wait: Some(shorter_wait(j.round_wait, w)), ..j });
            }
        },
        (Stage::Prepare { id }, Outcome::Prepared(result)) => {
            lemma_moved_on_any_error(j);
        },
        (Stage::Send { .. }, Outcome::Sent(result)) => {
            lemma_moved_on_any_error(j);
        },
        (Stage::Refresh { .. }, Outcome::Refreshed(fault)) => {
            lemma_moved_on_any_error(j);
        },
        (Stage::Reload { .. }, Outcome::Reloaded(found)) => {
            lemma_moved_on_any_error(j);
        },
        (Stage::Resend { .. }, Outcome::Sent(result)) => {
            lemma_moved_on_any_error(j);
            lemma_moved_on_any_error(Journey { last_status: 401, ..j });
        },
        (Stage::Read { account, status }, Outcome::Body { content, now_seconds }) => {
            lemma_refused(
                j,
                account,
                status,
                upstream::refusal_summary(status, upstream::refusal_message(content), content),
                delay_of(upstream::refusal_wait(status, content, now_seconds)),
                upstream::worth_another_account(status, content),
            );
        },
        _ => {},
    }
}

proof fn lemma_refused(
    j: Journey,
    a: CodexAccount,
    status: u16,
    message: Seq<char>,
    wait: Option<RetryDelay>,
    another: bool,
)
    requires
        between_accounts(j).well_formed(),
    ensures
        refused(j, a, status, message, wait, another).0.well_formed(),
{
    let next = Journey {
        round_wait: match wait {
            Some(w) => Some(shorter_wait(j.round_wait, w)),
            None => j.round_wait,
        },
        ..j
    };
    if another {
        lemma_moved_on(
            Journey {
                last_status: status,
                last_error: "账号 "@ + a.email@ + " 当前不可用，已尝试轮转: "@ + message,
                ..next
            },
        );
    }
}

proof fn lemma_moved_on_any_error(j: Journey)
    requires
        between_accounts(j).well_formed(),
    ensures
        forall|message: Seq<char>| #[trigger] passed_over(j, message).well_formed(),
{
    assert forall|message: Seq<char>| #[trigger] passed_over(j, message).well_formed() by {
        lemma_moved_on(Journey { last_error: message, ..j });
    }
}

/// The outcome is one of what was to be done.
pub open spec fn belongs(stage: Stage, outcome: Outcome) -> bool {
    match (stage, outcome) {
        (Stage::Affinity { .. }, Outcome::Affinity(_)) => true,
        (Stage::Turn, Outcome::Turn(start)) => start >= 0,
        (Stage::Load { .. }, Outcome::Loaded(_)) => true,
        (Stage::Cooldown { .. }, Outcome::Wait(_)) => true,
        (Stage::Prepare { .. }, Outcome::Prepared(_)) => true,
        (Stage::Send { .. }, Outcome::Sent(_)) => true,
        (Stage::Refresh { .. }, Outcome::Refreshed(_)) => true,
        (Stage::Reload { .. }, Outcome::Reloaded(_)) => true,
        (Stage::Resend { .. }, Outcome::Sent(_)) => true,
        (Stage::Read { .. }, Outcome::Body { .. }) => true,
        (Stage::Sleep { .. }, Outcome::Slept) => true,
        _ => false,
    }
}

/// Which part of a round a request is in; it goes through them downwards.
pub open spec fn round_part(stage: Stage) -> int {
    match stage {
        Stage::Affinity { .. } => 5,
        Stage::Turn => 4,
        Stage::Load { .. } => 3,
        Stage::Sleep { .. } => 1,
        Stage::Succeeded { .. } => 0,
        Stage::Failed { .. } => 0,
        _ => 2,
    }
}

/// How much is left to be done with one account.
pub open spec fn account_part(stage: Stage) -> int {
    match stage {
        Stage::Cooldown { .. } => 7,
        Stage::Prepare { .. } => 6,
        Stage::Send { .. } => 5,
        Stage::Refresh { .. } => 4,
        Stage::Reload { .. } => 3,
        Stage::Resend { .. } => 2,
        Stage::Read { .. } => 1,
        _ => 0,
    }
}

/// `a` is nearer to its end than `b`: in a later round, in a later part of the same round,
/// with fewer accounts left in it, or further on with the same account.
pub open spec fn nearer_to_end(a: Journey, b: Journey) -> bool {
    if a.retry_round != b.retry_round {
        a.retry_round > b.retry_round
    } else if round_part(a.stage) != round_part(b.stage) {
        round_part(a.stage) < round_part(b.stage)
    } else if a.queue.len() != b.queue.len() {
        a.queue.len() < b.queue.len()
    } else {
        account_part(a.stage) < account_part(b.stage)
    }
}

proof fn lemma_moving_on(k: Journey, j: Journey)
    requires
        k.retry_round == j.retry_round,
        (round_part(j.stage) == 2 && k.queue == j.queue) || round_part(j.stage) == 3,
    ensures
        nearer_to_end(moved_on(k), j),
        moved_on(k).retry_round == j.retry_round,
{
}

proof fn lemma_passing_over(j: Journey)
    requires
        round_part(j.stage) == 2,
    ensures
        forall|message: Seq<char>|
            nearer_to_end(#[trigger] passed_over(j, message), j) && passed_over(
                j,
                message,
            ).retry_round == j.retry_round,
{
    assert forall|message: Seq<char>|
        nearer_to_end(#[trigger] passed_over(j, message), j) && passed_over(j, message).retry_round
            == j.retry_round by {
        lemma_moving_on(Journey { last_error: message, ..j }, j);
    }
}

/// Every step brings a request nearer to its end, and as there are at most
/// [`MAX_REQUEST_RETRY_ATTEMPTS`] more rounds than one, it comes to an end.
pub proof fn journey_comes_to_an_end(j: Journey, outcome: Outcome)
    requires
        j.well_formed(),
        belongs(j.stage, outcome),
    ensures
        nearer_to_end(advanced(j, outcome).0, j),
        advanced(j, outcome).0.retry_round <= MAX_REQUEST_RETRY_ATTEMPTS,
{
    match (j.stage, outcome) {
        (Stage::Load { ids }, Outcome::Loaded(accounts)) => {
            lemma_moving_on(Journey { queue: trial_order(j, ids, accounts), ..j }, j);
        },
        (Stage::Cooldown { .. }, Outcome::Wait(wait)) => {
            if let Some(w) = wait {
                lemma_moving_on(
                    Journey { round_wait: Some(shorter_wait(j.round_wait, w)), ..j },
                    j,
                );
            }
        },
        (Stage::Read { account, status }, Outcome::Body { content, now_seconds }) => {
            let message = upstream::refusal_summary(
                status,
                upstream::refusal_message(content),
                content,
            );
            let wait = delay_of(upstream::refusal_wait(status, content, now_seconds));
            lemma_moving_on(
                Journey {
                    round_wait: match wait {
                        Some(w) => Some(shorter_wait(j.round_wait, w)),
                        None => j.round_wait,
                    },
                    last_status: status,
                    last_error: "账号 "@ + account.email@ + " 当前不可用，已尝试轮转: "@ + message,
                    ..j
                },
                j,
            );
        },
        (Stage::Resend { refreshed, .. }, Outcome::Sent(_)) => {
            lemma_passing_over(j);
            lemma_moving_on(
                Journey {
                    last_status: 401,
                    last_error: "账号 "@ + refreshed.email@ + " 鉴权失败"@,
                    ..j
                },
                j,
            );
        },
        (Stage::Prepare { .. }, _) => {
            lemma_passing_over(j);
        },
        (Stage::Send { .. }, _) => {
            lemma_passing_over(j);
        },
        (Stage::Refresh { .. }, _) => {
            lemma_passing_over(j);
        },
        (Stage::Reload { .. }, _) => {
            lemma_passing_over(j);
        },
        _ => {},
    }
}

/// A request succeeds only when the upstream has served it, for an account that may serve the
/// gateway; that account then no longer cools down.
pub proof fn success_comes_from_upstream(j: Journey, outcome: Outcome)
    requires
        j.well_formed(),
        j.stage !is Succeeded,
        advanced(j, outcome).0.stage is Succeeded,
    ensures
        outcome matches Outcome::Sent(Ok(status)) && is_success(status),
        ({
            let a = match j.stage {
                Stage::Send { account, .. } => account,
                Stage::Resend { account, .. } => account,
                _ => arbitrary(),
            };
            &&& j.stage is Send || j.stage is Resend
            &&& account::eligible(a, j.restrict_free_accounts)
            &&& advanced(j, outcome).0.stage == (Stage::Succeeded { id: a.id@, email: a.email@ })
            &&& advanced(j, outcome).1 == (Cooling::End { id: a.id@ })
        }),
{
}

/// An account begins to cool down only after a refusal of the upstream that says how long to
/// wait, and for that long.
pub proof fn cooling_comes_from_refusals(j: Journey, outcome: Outcome)
    requires
        advanced(j, outcome).1 is Begin,
    ensures
        j.stage matches Stage::Read { account, status } && (outcome matches Outcome::Body {
            content,
            now_seconds,
        } && upstream::refusal_wait(status, content, now_seconds) is Some && advanced(j, outcome).1
            == (Cooling::Begin {
            id: account.id@,
            retry_after: delay_of(upstream::refusal_wait(status, content, now_seconds))->0,
        })),
{
}

/// A request that finds every account of its pool cooling down is told to come again later.
pub proof fn cooling_pool_asks_to_wait(j: Journey)
    requires
        j.well_formed(),
        j.queue.len() == 0,
        !j.attempted_in_round,
        j.round_wait is Some,
    ensures
        ({
            let next = moved_on(j);
            &&& next.stage is Sleep || next.stage is Failed
            &&& next.stage is Sleep <==> j.round_wait->0.millis <= MAX_REQUEST_RETRY_WAIT_MS
                && j.retry_round < MAX_REQUEST_RETRY_ATTEMPTS && j.attempts < j.max_attempts
            &&& next.stage matches Stage::Failed { failure } ==> failure.status == 429
                && failure.message == upstream::cooling_message(j.model_key, j.round_wait->0)
        }),
{
}

/// The account that answered the response before is tried first, whatever the turn and the
/// strategy.
pub proof fn preferred_account_comes_first(
    j: Journey,
    id: Seq<char>,
    accounts: Seq<Option<CodexAccount>>,
    start: int,
)
    requires
        j.affinity == Some(id),
        text::trimmed(id) == id,
        id.len() > 0,
        j.pool.contains(id),
        start >= 0,
    ensures
        trial_order(j, routing::round_order(j.pool, start, j.affinity), accounts).len() > 0,
        trial_order(j, routing::round_order(j.pool, start, j.affinity), accounts)[0] == id,
{
    broadcast use vstd::seq_lib::group_to_multiset_ensures;

    let ids = routing::round_order(j.pool, start, j.affinity);
    let found = fitted(accounts, ids.len());
    let sorted = routing::strategy_ids(ids, found, j.strategy);
    routing::round_covers_pool(j.pool, start, j.affinity);
    routing::strategy_only_reorders(ids, found, j.strategy);
    assert(ids.contains(id));
    assert(ids.to_multiset().count(id) > 0);
    assert(sorted.to_multiset().count(id) > 0);
    assert(sorted.contains(id));
    routing::pinning_only_reorders(sorted, j.affinity);
}

/// The account that is being tried turns out not to be able to serve: it cannot be made ready,
/// may not serve the gateway, gets no answer, gets no new tokens, or is told once more that it
/// is not authorized.
pub open spec fn account_drops_out(j: Journey, outcome: Outcome) -> bool {
    match (j.stage, outcome) {
        (Stage::Prepare { .. }, Outcome::Prepared(Err(_))) => true,
        (Stage::Prepare { .. }, Outcome::Prepared(Ok(a))) => !account::eligible(
            a,
            j.restrict_free_accounts,
        ),
        (Stage::Send { .. }, Outcome::Sent(Err(_))) => true,
        (Stage::Refresh { .. }, Outcome::Refreshed(Some(_))) => true,
        (Stage::Reload { .. }, Outcome::Reloaded(None)) => true,
        (Stage::Resend { .. }, Outcome::Sent(Err(_))) => true,
        (Stage::Resend { .. }, Outcome::Sent(Ok(status))) => status == 401,
        _ => false,
    }
}

/// Nothing but where the request stands has changed.
pub open spec fn same_errand(a: Journey, b: Journey) -> bool {
    &&& a.pool == b.pool
    &&& a.strategy == b.strategy
    &&& a.restrict_free_accounts == b.restrict_free_accounts
    &&& a.upstream_target == b.upstream_target
    &&& a.model_key == b.model_key
    &&& a.max_attempts == b.max_attempts
}

/// An account that drops out never ends the request while another one can be tried: the first
/// account of the queue is next. What is known of cooldowns stays as it is.
pub proof fn another_account_is_tried(j: Journey, outcome: Outcome)
    requires
        account_drops_out(j, outcome),
    ensures
        ({
            let (next, cooling) = advanced(j, outcome);
            &&& cooling is Unchanged
            &&& same_errand(next, j)
            &&& next.affinity == j.affinity
            &&& next.attempts == j.attempts
            &&& next.retry_round == j.retry_round
            &&& next.round_wait == j.round_wait
            &&& next.attempted_in_round == j.attempted_in_round
            &&& j.queue.len() > 0 && j.attempts < j.max_attempts ==> {
                &&& next.stage == (Stage::Cooldown { id: j.queue[0] })
                &&& next.queue == j.queue.skip(1)
            }
        }),
{
    assert(j.queue.len() > 0 ==> j.queue.drop_first() =~= j.queue.skip(1));
}

/// Before the upstream has refused an account, a request fails only when no account is left to
/// be tried: its queue is empty or its attempts are used up.
pub proof fn failure_needs_an_exhausted_round(j: Journey, outcome: Outcome)
    requires
        j.well_formed(),
        j.stage !is Failed,
        advanced(j, outcome).0.stage is Failed || advanced(j, outcome).0.stage is Sleep && j.stage !is Sleep,
        j.stage !is Read,
    ensures
        j.stage is Load || j.queue.len() == 0 || j.attempts >= j.max_attempts,
        (j.stage matches Stage::Load { ids } && ids.len() > 0) ==> j.attempts >= j.max_attempts,
{
    broadcast use vstd::seq_lib::group_to_multiset_ensures;

    if let (Stage::Load { ids }, Outcome::Loaded(accounts)) = (j.stage, outcome) {
        lemma_trial_order(j, ids, accounts);
        if ids.len() > 0 {
            assert(ids.contains(ids[0]));
            assert(trial_order(j, ids, accounts).contains(ids[0]));
        }
    }
}

/// A request that fails when accounts have dropped out says why the last of them did, with the
/// status of the last refusal and the account that was asked last; where accounts are cooling
/// down, it says when to come again, unless one was refused for another reason.
pub proof fn last_fault_is_told(j: Journey, outcome: Outcome)
    requires
        account_drops_out(j, outcome),
        advanced(j, outcome).0.stage is Failed,
        j.attempted_in_round,
    ensures
        ({
            let failure = advanced(j, outcome).0.stage->failure;
            let status: u16 = if j.stage is Resend && outcome is Sent && outcome->Sent_0 is Ok {
                401
            } else {
                j.last_status
            };
            &&& failure.account_id == j.last_account_id
            &&& failure.account_email == j.last_account_email
            &&& j.round_wait is None ==> failure.status == status
            &&& j.round_wait is Some && status == 503 ==> failure.status == 429
            &&& status != 503 ==> failure.status == status
            &&& j.round_wait is Some && (status == 503 || status == 429) ==> failure.message
                == upstream::cooling_message(j.model_key, j.round_wait->0)
            &&& (j.round_wait is None || (status != 503 && status != 429)) ==> {
                &&& outcome matches Outcome::Prepared(Err(message)) ==> failure.message == message
                &&& outcome matches Outcome::Sent(Err(message)) ==> failure.message == message
                &&& outcome matches Outcome::Refreshed(Some(message)) ==> failure.message
                    == message
            }
        }),
{
}

/// An account that is not cooling down is tried, which counts as one more attempt; when it is
/// ready and may serve the gateway, the upstream is asked with it.
pub proof fn free_accounts_are_asked(j: Journey, id: Seq<char>, a: CodexAccount)
    ensures
        j.stage == (Stage::Cooldown { id }) ==> ({
            let next = advanced(j, Outcome::Wait(None)).0;
            &&& next.stage == (Stage::Prepare { id })
            &&& next.attempts == j.attempts + 1
            &&& next.attempted_in_round
            &&& next.queue == j.queue
            &&& next.round_wait == j.round_wait
            &&& same_errand(next, j)
        }),
        j.stage == (Stage::Prepare { id }) && account::eligible(a, j.restrict_free_accounts) ==> ({
            let next = advanced(j, Outcome::Prepared(Ok(a))).0;
            &&& next.stage == (Stage::Send { id, account: a })
            &&& next.last_account_id == Some(a.id@)
            &&& next.last_account_email == Some(a.email@)
            &&& next.attempts == j.attempts
            &&& next.queue == j.queue
            &&& same_errand(next, j)
        }),
{
}

/// What the upstream serves is passed on as the answer of the account that was asked, and its
/// cooldown ends. An account that is not authorized gets new tokens once and is asked again.
pub proof fn answers_are_passed_on(
    j: Journey,
    id: Seq<char>,
    a: CodexAccount,
    refreshed: CodexAccount,
    status: u16,
)
    ensures
        200 <= status <= 299 && (j.stage == (Stage::Send { id, account: a }) || j.stage
            == (Stage::Resend { account: a, refreshed })) ==> ({
            let (next, cooling) = advanced(j, Outcome::Sent(Ok(status)));
            &&& next.stage == (Stage::Succeeded { id: a.id@, email: a.email@ })
            &&& cooling == (Cooling::End { id: a.id@ })
        }),
        !(200 <= status <= 299) && status != 401 && (j.stage == (Stage::Send { id, account: a })
            || j.stage == (Stage::Resend { account: a, refreshed })) ==> ({
            let (next, cooling) = advanced(j, Outcome::Sent(Ok(status)));
            &&& next.stage == (Stage::Read { account: a, status })
            &&& next.queue == j.queue
            &&& next.attempts == j.attempts
            &&& cooling is Unchanged
        }),
        j.stage == (Stage::Send { id, account: a }) ==> advanced(
            j,
            Outcome::Sent(Ok(401)),
        ).0.stage == (Stage::Refresh { id, account: a }),
        j.stage == (Stage::Refresh { id, account: a }) ==> advanced(
            j,
            Outcome::Refreshed(None),
        ).0.stage == (Stage::Reload { id, account: a }),
        j.stage == (Stage::Reload { id, account: a }) ==> advanced(
            j,
            Outcome::Reloaded(Some(refreshed)),
        ).0.stage == (Stage::Resend { account: a, refreshed }),
{
}

/// After a refusal that is worth another account, that account is next; any other refusal is
/// passed on with its status, as that of the account that was asked. A refusal that says how
/// long to wait lets the account cool down for that long.
pub proof fn refusals_are_weighed(
    j: Journey,
    a: CodexAccount,
    status: u16,
    message: Seq<char>,
    wait: Option<RetryDelay>,
)
    ensures
        ({
            let (next, cooling) = refused(j, a, status, message, wait, false);
            &&& next.stage matches Stage::Failed { failure } && failure.status == status
                && failure.message == message && failure.account_id == Some(a.id@)
                && failure.account_email == Some(a.email@)
            &&& wait is None ==> cooling is Unchanged
            &&& wait matches Some(w) ==> cooling == (Cooling::Begin { id: a.id@, retry_after: w })
        }),
        ({
            let (next, cooling) = refused(j, a, status, message, wait, true);
            &&& wait is None ==> cooling is Unchanged
            &&& wait matches Some(w) ==> cooling == (Cooling::Begin { id: a.id@, retry_after: w })
            &&& same_errand(next, j)
            &&& next.attempts == j.attempts
            &&& j.queue.len() > 0 && j.attempts < j.max_attempts ==> {
                &&& next.stage == (Stage::Cooldown { id: j.queue[0] })
                &&& next.queue == j.queue.skip(1)
                &&& next.last_status == status
            }
            &&& j.attempted_in_round && status != 503 ==> (next.stage matches Stage::Failed { failure }
                ==> {
                &&& failure.status == status
                &&& failure.account_id == j.last_account_id
                &&& wait is None && j.round_wait is None ==> text_ends_with(
                    failure.message,
                    message,
                )
            })
        }),
{
    assert(j.queue.len() > 0 ==> j.queue.drop_first() =~= j.queue.skip(1));
    let said = "账号 "@ + a.email@ + " 当前不可用，已尝试轮转: "@ + message;
    assert(said.skip(said.len() - message.len()) =~= message);
}

/// `s` ends with `part`.
pub open spec fn text_ends_with(s: Seq<char>, part: Seq<char>) -> bool {
    part.len() <= s.len() && s.skip(s.len() - part.len()) == part
}

/// The wait that is noted for a round is the shortest that was met in it: not longer than the
/// one that has just been met, nor than the one noted before, and one of the two.
pub open spec fn shortest_is_noted(
    before: Option<RetryDelay>,
    met: RetryDelay,
    after: Option<RetryDelay>,
) -> bool {
    &&& after is Some
    &&& after->0.millis <= met.millis
    &&& before is Some ==> after->0.millis <= before->0.millis
    &&& after == Some(met) || after == before
}

/// Whether an account is found cooling down or is told to wait by a refusal, the shortest wait
/// of the round is what is noted.
pub proof fn shortest_wait_is_noted(
    j: Journey,
    id: Seq<char>,
    wait: RetryDelay,
    a: CodexAccount,
    status: u16,
    message: Seq<char>,
    another: bool,
)
    ensures
        j.stage == (Stage::Cooldown { id }) ==> shortest_is_noted(
            j.round_wait,
            wait,
            advanced(j, Outcome::Wait(Some(wait))).0.round_wait,
        ),
        shortest_is_noted(
            j.round_wait,
            wait,
            refused(j, a, status, message, Some(wait), another).0.round_wait,
        ),
        refused(j, a, status, message, None, another).0.round_wait == j.round_wait,
{
}

/// The request after accounts were found cooling down, one after the other.
pub open spec fn after_waits(j: Journey, waits: Seq<RetryDelay>) -> Journey
    decreases waits.len(),
{
    if waits.len() == 0 {
        j
    } else {
        after_waits(advanced(j, Outcome::Wait(Some(waits[0]))).0, waits.skip(1))
    }
}

/// The wait is one of those and none of them is shorter.
pub open spec fn is_shortest(wait: RetryDelay, waits: Seq<RetryDelay>) -> bool {
    &&& waits.contains(wait)
    &&& forall|k: int| 0 <= k < waits.len() ==> wait.millis <= (#[trigger] waits[k]).millis
}

proof fn lemma_after_waits(j: Journey, met: Seq<RetryDelay>, waits: Seq<RetryDelay>)
    requires
        j.well_formed(),
        j.stage is Cooldown,
        !j.attempted_in_round,
        met.len() == 0 ==> j.round_wait is None,
        met.len() > 0 ==> (j.round_wait matches Some(w) && is_shortest(w, met)),
        waits.len() == j.queue.len() + 1,
    ensures
        ({
            let end = after_waits(j, waits);
            let all = met + waits;
            &&& same_errand(end, j)
            &&& end.affinity == j.affinity
            &&& end.attempts == j.attempts
            &&& end.retry_round == j.retry_round
            &&& end.round_wait matches Some(w) && is_shortest(w, all)
            &&& j.retry_round < 1 && end.round_wait->0.millis <= 3000 ==> end.stage
                == (Stage::Sleep { delay: end.round_wait->0 })
            &&& !(j.retry_round < 1 && end.round_wait->0.millis <= 3000) ==> (end.stage matches Stage::Failed {
                failure,
            } && failure.status == 429 && failure.message == upstream::cooling_message(
                j.model_key,
                end.round_wait->0,
            ) && failure.account_id == j.affinity)
        }),
    decreases waits.len(),
{
    let w = waits[0];
    let next = advanced(j, Outcome::Wait(Some(w))).0;
    let more = met.push(w);
    let rest = waits.skip(1);
    assert(more + rest =~= met + waits);
    let noted = next.round_wait->0;
    assert(is_shortest(noted, more)) by {
        assert forall|k: int| 0 <= k < more.len() implies noted.millis <= (
        #[trigger] more[k]).millis by {
            if k < met.len() {
                assert(j.round_wait->0.millis <= met[k].millis);
            }
        }
        if noted == w {
            assert(more[met.len() as int] == noted);
        } else {
            let k = choose|k: int| 0 <= k < met.len() && met[k] == noted;
            assert(more[k] == noted);
        }
    }
    journey_stays_well_formed(j, Outcome::Wait(Some(w)));
    if j.queue.len() > 0 {
        lemma_after_waits(next, more, rest);
    } else {
        assert(rest =~= Seq::empty());
        assert(more =~= met + waits);
        assert(after_waits(next, rest) == next);
    }
}

/// A round in which every account is found cooling down is followed by another one exactly if
/// some account is free again within three seconds and there has been no other round; it then
/// waits for the first account that is free again. Otherwise the client is told how long that
/// takes.
pub proof fn cooling_round_waits_for_first(j: Journey, waits: Seq<RetryDelay>)
    requires
        j.well_formed(),
        j.stage is Cooldown,
        !j.attempted_in_round,
        j.round_wait is None,
        waits.len() == j.queue.len() + 1,
    ensures
        ({
            let end = after_waits(j, waits);
            let soon = exists|k: int| 0 <= k < waits.len() && (#[trigger] waits[k]).millis <= 3000;
            &&& end.stage is Sleep <==> soon && j.retry_round == 0
            &&& end.stage matches Stage::Sleep { delay } ==> is_shortest(delay, waits)
            &&& end.stage !is Sleep ==> exists|k: int|
                0 <= k < waits.len() && is_shortest(#[trigger] waits[k], waits) && (end.stage matches Stage::Failed {
                    failure,
                } && failure.status == 429 && failure.message == upstream::cooling_message(
                    j.model_key,
                    waits[k],
                ) && failure.account_id == j.affinity)
        }),
{
    lemma_after_waits(j, Seq::empty(), waits);
    assert(Seq::<RetryDelay>::empty() + waits =~= waits);
    let end = after_waits(j, waits);
    let w = end.round_wait->0;
    let k = choose|k: int| 0 <= k < waits.len() && waits[k] == w;
    assert(is_shortest(waits[k], waits));
}

/// A round begins with nothing noted and nothing tried, goes through the whole pool, and takes
/// over what has been attempted in the round before. After a wait a new round begins.
pub proof fn rounds_begin_anew(j: Journey, start: int, delay: RetryDelay)
    requires
        start >= 0,
    ensures
        j.stage is Turn ==> ({
            let next = advanced(j, Outcome::Turn(start)).0;
            &&& next.round_wait is None
            &&& !next.attempted_in_round
            &&& next.attempts == j.attempts
            &&& next.retry_round == j.retry_round
            &&& next.affinity == j.affinity
            &&& same_errand(next, j)
            &&& next.stage matches Stage::Load { ids } && ids.no_duplicates() && forall|
                id: Seq<char>,
            | #[trigger] ids.contains(id) == j.pool.contains(id)
        }),
        j.stage == (Stage::Sleep { delay }) ==> ({
            let next = advanced(j, Outcome::Slept).0;
            &&& next.stage is Turn
            &&& next.retry_round == j.retry_round + 1
            &&& next.attempts == j.attempts
            &&& next.affinity == j.affinity
            &&& same_errand(next, j)
        }),
{
    routing::round_covers_pool(j.pool, start, j.affinity);
}

/// The account that answered the response before is remembered for all rounds.
pub proof fn affinity_is_kept(j: Journey, response_id: Seq<char>, account: Option<Seq<char>>)
    requires
        j.stage == (Stage::Affinity { response_id }),
    ensures
        ({
            let next = advanced(j, Outcome::Affinity(account)).0;
            &&& next.affinity == account
            &&& next.stage is Turn
            &&& same_errand(next, j)
            &&& next.attempts == j.attempts
            &&& next.retry_round == j.retry_round
        }),
{
}

/// Once the accounts are read, all of them wait in line, the first of them being tried.
pub proof fn all_accounts_wait_in_line(
    j: Journey,
    ids: Seq<Seq<char>>,
    accounts: Seq<Option<CodexAccount>>,
    id: Seq<char>,
)
    requires
        j.well_formed(),
        j.stage == (Stage::Load { ids }),
        j.attempts < j.max_attempts,
        ids.contains(id),
    ensures
        ({
            let next = advanced(j, Outcome::Loaded(accounts)).0;
            &&& next.stage matches Stage::Cooldown { id: first } && (first == id
                || next.queue.contains(id))
            &&& next.attempts == j.attempts
            &&& next.round_wait == j.round_wait
            &&& same_errand(next, j)
        }),
{
    lemma_trial_order(j, ids, accounts);
    let order = trial_order(j, ids, accounts);
    assert(order.contains(id));
    let k = choose|k: int| 0 <= k < order.len() && order[k] == id;
    if k > 0 {
        assert(order.drop_first()[k - 1] == id);
    }
}

// ---------------------------------------------------------------------------------------
// Whole ways
// ---------------------------------------------------------------------------------------

/// The request after so many steps, where `world` says what comes of what is to be done.
pub open spec fn travelled(j: Journey, world: spec_fn(Stage) -> Outcome, steps: nat) -> Journey
    decreases steps,
{
    if steps == 0 {
        j
    } else {
        travelled(advanced(j, world(j.stage)).0, world, (steps - 1) as nat)
    }
}

proof fn lemma_travelled(j: Journey, world: spec_fn(Stage) -> Outcome, m: nat, n: nat)
    ensures
        travelled(travelled(j, world, m), world, n) == travelled(j, world, m + n),
    decreases m,
{
    if m > 0 {
        lemma_travelled(advanced(j, world(j.stage)).0, world, (m - 1) as nat, n);
    }
}

/// The account is free, can be made ready, may serve the gateway, and the upstream serves it.
pub open spec fn account_serves(
    world: spec_fn(Stage) -> Outcome,
    id: Seq<char>,
    a: CodexAccount,
    restrict_free_accounts: bool,
) -> bool {
    &&& world(Stage::Cooldown { id }) == Outcome::Wait(None)
    &&& world(Stage::Prepare { id }) == Outcome::Prepared(Ok(a))
    &&& account::eligible(a, restrict_free_accounts)
    &&& world(Stage::Send { id, account: a }) matches Outcome::Sent(Ok(status)) && 200 <= status
        <= 299
}

/// The account is not authorized even after it got new tokens, or gets none.
pub open spec fn account_stays_unauthorized(
    world: spec_fn(Stage) -> Outcome,
    id: Seq<char>,
    a: CodexAccount,
) -> bool {
    ||| world(Stage::Refresh { id, account: a }) matches Outcome::Refreshed(Some(_))
    ||| {
        &&& world(Stage::Refresh { id, account: a }) == Outcome::Refreshed(None)
        &&& world(Stage::Reload { id, account: a }) matches Outcome::Reloaded(None)
    }
    ||| {
        &&& world(Stage::Refresh { id, account: a }) == Outcome::Refreshed(None)
        &&& world(Stage::Reload { id, account: a }) matches Outcome::Reloaded(Some(refreshed))
            && (world(Stage::Resend { account: a, refreshed }) matches Outcome::Sent(sent)
            && (sent is Err || sent->Ok_0 == 401))
    }
}

/// The account cannot serve: it is cooling down, cannot be made ready, may not serve the
/// gateway, gets no answer, or is not authorized.
pub open spec fn account_fails(
    world: spec_fn(Stage) -> Outcome,
    id: Seq<char>,
    restrict_free_accounts: bool,
) -> bool {
    ||| world(Stage::Cooldown { id }) matches Outcome::Wait(Some(_))
    ||| {
        &&& world(Stage::Cooldown { id }) == Outcome::Wait(None)
        &&& world(Stage::Prepare { id }) matches Outcome::Prepared(prepared) && match prepared {
            Err(_) => true,
            Ok(a) => {
                ||| !account::eligible(a, restrict_free_accounts)
                ||| world(Stage::Send { id, account: a }) matches Outcome::Sent(Err(_))
                ||| {
                    &&& world(Stage::Send { id, account: a }) == Outcome::Sent(Ok(401))
                    &&& account_stays_unauthorized(world, id, a)
                }
            },
        }
    }
}

proof fn lemma_step(j: Journey, world: spec_fn(Stage) -> Outcome, next: Journey, n: nat)
    requires
        advanced(j, world(j.stage)).0 == next,
    ensures
        travelled(j, world, n + 1) == travelled(next, world, n),
{
}

proof fn lemma_failing_account(
    j: Journey,
    world: spec_fn(Stage) -> Outcome,
    id: Seq<char>,
) -> (n: nat)
    requires
        j.stage == (Stage::Cooldown { id }),
        j.queue.len() > 0,
        j.attempts + 1 < j.max_attempts,
        account_fails(world, id, j.restrict_free_accounts),
    ensures
        ({
            let next = travelled(j, world, n);
            &&& next.stage == (Stage::Cooldown { id: j.queue[0] })
            &&& next.queue == j.queue.drop_first()
            &&& same_errand(next, j)
            &&& j.attempts <= next.attempts <= j.attempts + 1
        }),
{
    let j1 = advanced(j, world(j.stage)).0;
    lemma_step(j, world, j1, 0);
    if world(Stage::Cooldown { id }) matches Outcome::Wait(Some(_)) {
        1
    } else {
        assert(j1.stage == (Stage::Prepare { id }));
        assert(j1.queue == j.queue && j1.attempts == j.attempts + 1 && same_errand(j1, j));
        let m = lemma_failing_ready_account(j1, world, id);
        lemma_step(j, world, j1, m);
        m + 1
    }
}

proof fn lemma_dropping_out(j: Journey, world: spec_fn(Stage) -> Outcome)
    requires
        account_drops_out(j, world(j.stage)),
        j.queue.len() > 0,
        j.attempts < j.max_attempts,
    ensures
        ({
            let next = travelled(j, world, 1);
            &&& next.stage == (Stage::Cooldown { id: j.queue[0] })
            &&& next.queue == j.queue.drop_first()
            &&& same_errand(next, j)
            &&& next.attempts == j.attempts
        }),
{
    another_account_is_tried(j, world(j.stage));
    lemma_step(j, world, advanced(j, world(j.stage)).0, 0);
    assert(j.queue.drop_first() =~= j.queue.skip(1));
}

#[verifier::rlimit(30)]
proof fn lemma_failing_ready_account(
    j: Journey,
    world: spec_fn(Stage) -> Outcome,
    id: Seq<char>,
) -> (n: nat)
    requires
        j.stage == (Stage::Prepare { id }),
        j.queue.len() > 0,
        j.attempts < j.max_attempts,
        world(Stage::Cooldown { id }) == Outcome::Wait(None),
        account_fails(world, id, j.restrict_free_accounts),
    ensures
        ({
            let next = travelled(j, world, n);
            &&& next.stage == (Stage::Cooldown { id: j.queue[0] })
            &&& next.queue == j.queue.drop_first()
            &&& same_errand(next, j)
            &&& next.attempts == j.attempts
        }),
{
    if account_drops_out(j, world(j.stage)) {
        lemma_dropping_out(j, world);
        1
    } else {
        let a = world(Stage::Prepare { id })->Prepared_0->Ok_0;
        let j1 = advanced(j, world(j.stage)).0;
        free_accounts_are_asked(j, id, a);
        assert(j1.stage == (Stage::Send { id, account: a }));
        if account_drops_out(j1, world(j1.stage)) {
            lemma_dropping_out(j1, world);
            lemma_step(j, world, j1, 1);
            2
        } else {
            let j2 = advanced(j1, world(j1.stage)).0;
            assert(j2 == Journey { stage: Stage::Refresh { id, account: a }, ..j1 });
            lemma_step(j, world, j1, 2);
            lemma_step(j1, world, j2, 1);
            if account_drops_out(j2, world(j2.stage)) {
                lemma_dropping_out(j2, world);
                3
            } else {
                let j3 = advanced(j2, world(j2.stage)).0;
                assert(j3 == Journey { stage: Stage::Reload { id, account: a }, ..j2 });
                lemma_step(j, world, j1, 3);
                lemma_step(j1, world, j2, 2);
                lemma_step(j2, world, j3, 1);
                if account_drops_out(j3, world(j3.stage)) {
                    lemma_dropping_out(j3, world);
                    4
                } else {
                    let refreshed = world(j3.stage)->Reloaded_0->0;
                    let j4 = advanced(j3, world(j3.stage)).0;
                    assert(j4 == Journey { stage: Stage::Resend { account: a, refreshed }, ..j3 });
                    lemma_step(j, world, j1, 4);
                    lemma_step(j1, world, j2, 3);
                    lemma_step(j2, world, j3, 2);
                    lemma_step(j3, world, j4, 1);
                    lemma_dropping_out(j4, world);
                    5
                }
            }
        }
    }
}

/// A request is served by the first account in line that can serve it, however the accounts
/// before it fail, as long as there are attempts enough.
#[verifier::rlimit(30)]
pub proof fn first_good_account_serves(
    j: Journey,
    world: spec_fn(Stage) -> Outcome,
    line: Seq<Seq<char>>,
    k: int,
    a: CodexAccount,
)
    requires
        0 <= k < line.len(),
        j.stage == (Stage::Cooldown { id: line[0] }),
        j.queue == line.skip(1),
        j.attempts + k < j.max_attempts,
        forall|i: int|
            0 <= i < k ==> account_fails(world, #[trigger] line[i], j.restrict_free_accounts),
        account_serves(world, line[k], a, j.restrict_free_accounts),
    ensures
        exists|n: nat|
            (#[trigger] travelled(j, world, n)).stage == (Stage::Succeeded {
                id: a.id@,
                email: a.email@,
            }),
    decreases k,
{
    if k == 0 {
        let id = line[0];
        let j1 = advanced(j, world(j.stage)).0;
        assert(j1.stage == (Stage::Prepare { id }));
        let j2 = advanced(j1, world(j1.stage)).0;
        free_accounts_are_asked(j1, id, a);
        assert(j2.stage == (Stage::Send { id, account: a }));
        let j3 = advanced(j2, world(j2.stage)).0;
        assert(j3.stage == (Stage::Succeeded { id: a.id@, email: a.email@ }));
        lemma_step(j, world, j1, 2);
        lemma_step(j1, world, j2, 1);
        lemma_step(j2, world, j3, 0);
        assert(travelled(j, world, 3).stage == j3.stage);
    } else {
        assert(account_fails(world, line[0], j.restrict_free_accounts));
        let m = lemma_failing_account(j, world, line[0]);
        let next = travelled(j, world, m);
        let rest = line.skip(1);
        assert(rest.skip(1) =~= j.queue.drop_first());
        assert forall|i: int| 0 <= i < k - 1 implies account_fails(
            world,
            #[trigger] rest[i],
            next.restrict_free_accounts,
        ) by {
            assert(account_fails(world, line[i + 1], j.restrict_free_accounts));
        }
        first_good_account_serves(next, world, rest, k - 1, a);
        let n = choose|n: nat|
            (#[trigger] travelled(next, world, n)).stage == (Stage::Succeeded {
                id: a.id@,
                email: a.email@,
            });
        lemma_travelled(j, world, m, n);
    }
}

/// A request begins with the pool and the rules of the settings and with what it asks for; it
/// may try as many accounts as the pool has, but not more than eight.
pub proof fn requests_begin_as_asked(
    settings: Collection,
    hint: upstream::Hint,
    target: Result<Seq<char>, Seq<char>>,
)
    ensures
        settings.account_ids.len() == 0 ==> (begun(settings, hint, target) matches Err(failure)
            && failure.status == 503),
        settings.account_ids.len() > 0 && target is Err ==> (begun(
            settings,
            hint,
            target,
        ) matches Err(failure) && failure.status == 400 && failure.message == target->Err_0),
        settings.account_ids.len() > 0 && target is Ok ==> (begun(
            settings,
            hint,
            target,
        ) matches Ok(j) && {
            &&& j.pool == settings.account_ids
            &&& j.strategy == settings.routing_strategy
            &&& j.restrict_free_accounts == settings.restrict_free_accounts
            &&& j.upstream_target == target->Ok_0
            &&& j.model_key == hint.model_key
            &&& j.max_attempts <= 8 && j.max_attempts <= j.pool.len()
            &&& j.max_attempts == 8 || j.max_attempts == j.pool.len()
            &&& j.attempts == 0 && j.retry_round == 0
            &&& j.affinity is None && j.last_account_id is None && j.last_account_email is None
            &&& j.last_status == 503
            &&& hint.previous_response_id is None ==> j.stage is Turn
            &&& hint.previous_response_id matches Some(response_id) ==> j.stage
                == (Stage::Affinity { response_id })
        }),
{
}

/// At the end of a round in which accounts were found cooling down or were told to wait, the
/// request waits for the first of them, whether or not others were tried, if that takes at most
/// three seconds, no other round has been, and attempts are left. Without any wait it fails.
pub proof fn short_waits_are_waited_out(
    j: Journey,
    outcome: Outcome,
    a: CodexAccount,
    status: u16,
    message: Seq<char>,
    wait: Option<RetryDelay>,
)
    requires
        j.queue.len() == 0,
    ensures
        account_drops_out(j, outcome) ==> {
            let next = advanced(j, outcome).0;
            &&& j.round_wait is None ==> next.stage is Failed
            &&& j.round_wait matches Some(w) ==> (next.stage is Sleep <==> w.millis <= 3000
                && j.retry_round < 1 && j.attempts < j.max_attempts)
            &&& next.stage matches Stage::Sleep { delay } ==> Some(delay) == j.round_wait
        },
        ({
            let next = refused(j, a, status, message, wait, true).0;
            &&& next.round_wait is None ==> next.stage is Failed
            &&& next.round_wait matches Some(w) ==> (next.stage is Sleep <==> w.millis <= 3000
                && j.retry_round < 1 && j.attempts < j.max_attempts)
            &&& next.stage matches Stage::Sleep { delay } ==> Some(delay) == next.round_wait
        }),
{
}

/// Why an account has dropped out is told in the words that belong to it.
pub proof fn faults_have_their_words(j: Journey, outcome: Outcome)
    requires
        account_drops_out(j, outcome),
        j.round_wait is None,
        j.queue.len() == 0,
    ensures
        advanced(j, outcome).0.stage matches Stage::Failed { failure } && {
            &&& outcome matches Outcome::Prepared(Ok(a)) ==> {
                &&& a.auth_mode is ApiKey ==> failure.message
                    == "API Key 账号不支持加入本地接入"@
                &&& a.auth_mode !is ApiKey ==> failure.message == "Free 账号不支持加入本地接入"@
            }
            &&& j.stage matches Stage::Reload { id, .. } ==> failure.message == "账号不存在: "@
                + id
            &&& j.stage matches Stage::Resend { refreshed, .. } ==> (outcome matches Outcome::Sent(
                Ok(_),
            ) ==> failure.message == "账号 "@ + refreshed.email@ + " 鉴权失败"@
                && failure.status == 401)
        },
{
}

/// The refusal that the upstream has sent decides: one that is worth another account brings
/// the next one in line, any other ends the request with the status and the reason of the
/// refusal. Only a wait that the refusal names lets the account cool down.
pub proof fn refusals_of_the_upstream_decide(
    j: Journey,
    a: CodexAccount,
    status: u16,
    content: Seq<char>,
    now_seconds: i64,
)
    requires
        j.stage == (Stage::Read { account: a, status }),
    ensures
        ({
            let (next, cooling) = advanced(j, Outcome::Body { content, now_seconds });
            let wait = upstream::refusal_wait(status, content, now_seconds);
            &&& !upstream::worth_another_account(status, content) ==> (next.stage matches Stage::Failed {
                failure,
            } && failure.status == status && failure.account_id == Some(a.id@)
                && failure.account_email == Some(a.email@) && failure.message
                == upstream::refusal_summary(status, upstream::refusal_message(content), content))
            &&& upstream::worth_another_account(status, content) && j.queue.len() > 0 && j.attempts
                < j.max_attempts ==> next.stage == (Stage::Cooldown { id: j.queue[0] })
                && next.queue == j.queue.skip(1) && next.last_status == status
            &&& wait is None ==> cooling is Unchanged && next.round_wait == j.round_wait
            &&& wait is Some ==> cooling == (Cooling::Begin {
                id: a.id@,
                retry_after: RetryDelay { millis: wait->0 as u128 },
            }) && shortest_is_noted(
                j.round_wait,
                RetryDelay { millis: wait->0 as u128 },
                next.round_wait,
            )
            &&& next.attempts == j.attempts
            &&& next.retry_round == j.retry_round
            &&& same_errand(next, j)
        }),
{
    assert(j.queue.len() > 0 ==> j.queue.drop_first() =~= j.queue.skip(1));
}

/// Without an account that answered before, a round begins with the account of the pool whose
/// turn it is, and goes on in the order of the pool.
pub proof fn rounds_take_the_pool_in_turn(j: Journey, start: int, k: int)
    requires
        j.stage is Turn,
        j.affinity is None,
        j.pool.no_duplicates(),
        0 <= start,
        0 <= k < j.pool.len(),
    ensures
        advanced(j, Outcome::Turn(start)).0.stage matches Stage::Load { ids } && ids.len()
            == j.pool.len() && ids[k] == j.pool[(start + k) % j.pool.len() as int],
{
    routing::rounds_go_in_circles(j.pool, start, k);
}

/// The line in which accounts wait follows the strategy, but for the account that answered
/// before: who stands before whom in the order of the strategy does so in the line.
pub proof fn accounts_line_up_by_strategy(
    j: Journey,
    ids: Seq<Seq<char>>,
    accounts: Seq<Option<CodexAccount>>,
    a: Seq<char>,
    b: Seq<char>,
)
    requires
        j.well_formed(),
        j.stage == (Stage::Load { ids }),
        j.attempts < j.max_attempts,
        accounts.len() == ids.len(),
        routing::stands_before(routing::strategy_ids(ids, accounts, j.strategy), a, b),
        j.affinity matches Some(first) ==> a != text::trimmed(first) && b != text::trimmed(first),
    ensures
        ({
            let next = advanced(j, Outcome::Loaded(accounts)).0;
            next.stage matches Stage::Cooldown { id } && routing::stands_before(
                seq![id] + next.queue,
                a,
                b,
            )
        }),
{
    let sorted = routing::strategy_ids(ids, accounts, j.strategy);
    assert(fitted(accounts, ids.len()) =~= accounts);
    let order = trial_order(j, ids, accounts);
    if let Some(first) = j.affinity {
        routing::others_keep_their_order(sorted, first, a, b);
    }
    assert(routing::stands_before(order, a, b));
    assert(order.len() > 0);
    assert(seq![order[0]] + order.drop_first() =~= order);
}

/// What does not belong to what was to be done changes nothing, and nothing follows an end.
pub proof fn strangers_change_nothing(j: Journey, outcome: Outcome)
    ensures
        !belongs(j.stage, outcome) && !(j.stage is Turn && outcome is Turn) ==> advanced(j, outcome)
            == (j, Cooling::Unchanged),
        j.stage is Succeeded || j.stage is Failed ==> advanced(j, outcome) == (
            j,
            Cooling::Unchanged,
        ),
{
}

/// The cooldown of an account ends only when the upstream has served it.
pub proof fn cooldowns_end_with_success(j: Journey, outcome: Outcome)
    requires
        advanced(j, outcome).1 is End,
    ensures
        outcome matches Outcome::Sent(Ok(status)) && 200 <= status <= 299,
        advanced(j, outcome).0.stage matches Stage::Succeeded { id, .. } && advanced(j, outcome).1
            == (Cooling::End { id }),
{
}

} // verus!
