//! What becomes of a request that reaches the gateway.

use vstd::prelude::*;
use vstd::string::*;
use vstd::utf8::*;
use crate::account::CodexAccount;
use crate::capture::{Learned, ResponseCapture};
use crate::clock;
use crate::collection;
use crate::collection::{CodexLocalAccessCollection, Collection};
use crate::dispatch;
use crate::dispatch::{Journey, ProxyDispatchError, ProxyDispatchSuccess};
use crate::http;
use crate::http::{ParsedRequest, Request};
use crate::json;
use crate::relay;
use crate::routing;
use crate::runtime;
use crate::runtime::{GatewayRuntime, Runtime};
use crate::stats;
use crate::table;
use crate::target;
use crate::text;
use crate::upstream;
use crate::usage;
use crate::usage::UsageCapture;

verus! {

// ---------------------------------------------------------------------------------------
// Admission
// ---------------------------------------------------------------------------------------

/// What becomes of a request.
pub enum Verdict {
    /// The connection is closed without an answer.
    Dropped { message: Seq<char> },
    /// A browser is told what it may send.
    Options,
    /// The request is refused.
    Refused { status: u16, reason: Seq<char>, message: Seq<char> },
    /// The models are listed.
    Models,
    /// The request goes to an account of the pool.
    Forwarded { request: Request, settings: Collection },
}

/// The request has the given method, in any case.
pub open spec fn has_method(request: Request, method: Seq<char>) -> bool {
    text::lower(request.method) == text::lower(method)
}

/// The request asks for the list of models.
pub open spec fn asks_for_models(path: Seq<char>) -> bool {
    path == "/v1/models"@ || text::has_prefix(path, "/v1/models?"@)
}

/// What becomes of a request whose target, without scheme and host, is `path`.
pub open spec fn verdict(
    request: Request,
    path: Result<Seq<char>, Seq<char>>,
    runtime: Runtime,
) -> Verdict {
    if has_method(request, "OPTIONS"@) {
        Verdict::Options
    } else if !has_method(request, "GET"@) && !has_method(request, "POST"@) {
        Verdict::Refused {
            status: 405,
            reason: "Method Not Allowed"@,
            message: "Only GET and POST are allowed"@,
        }
    } else if path is Err {
        Verdict::Dropped { message: path->Err_0 }
    } else if !text::has_prefix(path->Ok_0, "/v1/"@) {
        Verdict::Refused { status: 404, reason: "Not Found"@, message: "Not Found"@ }
    } else if upstream::client_key(request.headers) is None {
        Verdict::Refused {
            status: 401,
            reason: "Unauthorized"@,
            message: "缺少 Authorization Bearer 或 X-API-Key"@,
        }
    } else if runtime.collection is None {
        Verdict::Refused {
            status: 503,
            reason: "Service Unavailable"@,
            message: "本地接入集合尚未创建"@,
        }
    } else if !runtime.collection->0.enabled || !runtime.running {
        Verdict::Refused {
            status: 503,
            reason: "Service Unavailable"@,
            message: "本地接入服务未启用"@,
        }
    } else if upstream::client_key(request.headers) != Some(runtime.collection->0.api_key) {
        Verdict::Refused {
            status: 401,
            reason: "Unauthorized"@,
            message: "本地访问秘钥无效"@,
        }
    } else if !asks_for_models(path->Ok_0) {
        Verdict::Forwarded {
            request: Request { target: path->Ok_0, ..request },
            settings: runtime.collection->0,
        }
    } else if runtime.collection->0.account_ids.len() == 0 {
        Verdict::Refused {
            status: 503,
            reason: "Service Unavailable"@,
            message: "本地接入集合暂无账号"@,
        }
    } else {
        Verdict::Models
    }
}

/// What the gateway does with a request.
#[derive(Debug)]
pub enum Handling {
    /// Send the response. `failure` is what is said, before the reason, if that fails.
    Respond { response: Vec<u8>, failure: String },
    /// Find an account of the pool that answers the request.
    Forward {
        request: ParsedRequest,
        settings: CodexLocalAccessCollection,
        request_is_stream: bool,
    },
}

/// What the gateway does with a request, as a mathematical value.
pub enum Handled {
    Respond { response: Seq<u8>, failure: Seq<char> },
    Forward { request: Request, settings: Collection, request_is_stream: bool },
}

impl View for Handling {
    type V = Handled;

    open spec fn view(&self) -> Handled {
        match *self {
            Handling::Respond { response, failure } => Handled::Respond {
                response: response@,
                failure: failure@,
            },
            Handling::Forward { request, settings, request_is_stream } => Handled::Forward {
                request: request@,
                settings: settings@,
                request_is_stream,
            },
        }
    }
}

/// What the gateway does with a request of which it is known what becomes of it.
pub open spec fn handled(verdict: Verdict) -> Result<Handled, Seq<char>> {
    match verdict {
        Verdict::Dropped { message } => Err(message),
        Verdict::Options => Ok(
            Handled::Respond {
                response: encode_utf8(relay::options_head()),
                failure: "写入 OPTIONS 响应失败: "@,
            },
        ),
        Verdict::Refused { status, reason, message } => Ok(
            Handled::Respond {
                response: relay::json_reply(status, reason, relay::error_tree(message)),
                failure: "写入错误响应失败: "@,
            },
        ),
        Verdict::Models => Ok(
            Handled::Respond {
                response: relay::json_reply(200, "OK"@, target::models_tree()),
                failure: "写入模型响应失败: "@,
            },
        ),
        Verdict::Forwarded { request, settings } => Ok(
            Handled::Forward {
                request,
                settings,
                request_is_stream: upstream::wants_stream(
                    request.headers,
                    json::document_tree(request.body),
                ),
            },
        ),
    }
}

/// What is sent as a document can be read: the message of a refusal, and the list of models.
pub open spec fn answer_is_readable(verdict: Verdict) -> bool {
    match verdict {
        Verdict::Refused { message, .. } => relay::error_is_readable(message),
        Verdict::Models => json::document_tree(relay::body_bytes(target::models_tree())) == Some(
            target::models_tree(),
        ),
        _ => true,
    }
}

/// What the gateway does, or why it closes the connection, as a mathematical value.
pub open spec fn handling_view(handling: Result<Handling, String>) -> Result<Handled, Seq<char>> {
    match handling {
        Ok(h) => Ok(h@),
        Err(message) => Err(message@),
    }
}

fn refuse(status: u16, reason: &str, message: &str) -> (handling: Result<Handling, String>)
    ensures
        handling_view(handling) == handled(
            Verdict::Refused { status, reason: reason@, message: message@ },
        ),
        relay::error_is_readable(message@),
{
    Ok(
        Handling::Respond {
            response: relay::error_response(status, reason, message),
            failure: "写入错误响应失败: ".to_owned(),
        },
    )
}

/// What the gateway does with a request whose target, without scheme and host, is `path`.
pub fn route_request(
    request: ParsedRequest,
    path: Result<String, String>,
    runtime: &GatewayRuntime,
) -> (handling: Result<Handling, String>)
    ensures
        handling_view(handling) == handled(
            verdict(request@, target::text_view(path), runtime@),
        ),
        answer_is_readable(verdict(request@, target::text_view(path), runtime@)),
{
    if text::eq_ignore_ascii_case(request.method.as_str(), "OPTIONS") {
        return Ok(
            Handling::Respond {
                response: relay::options_response(),
                failure: "写入 OPTIONS 响应失败: ".to_owned(),
            },
        );
    }
    if !text::eq_ignore_ascii_case(request.method.as_str(), "GET") && !text::eq_ignore_ascii_case(
        request.method.as_str(),
        "POST",
    ) {
        return refuse(405, "Method Not Allowed", "Only GET and POST are allowed");
    }
    let path = match path {
        Ok(path) => path,
        Err(message) => {
            return Err(message);
        },
    };
    if !text::starts_with(path.as_str(), "/v1/") {
        return refuse(404, "Not Found", "Not Found");
    }
    let api_key = match upstream::extract_local_api_key(&request.headers) {
        Some(key) => key,
        None => {
            return refuse(401, "Unauthorized", "缺少 Authorization Bearer 或 X-API-Key");
        },
    };
    let settings = match &runtime.collection {
        Some(settings) => settings,
        None => {
            return refuse(503, "Service Unavailable", "本地接入集合尚未创建");
        },
    };
    if !settings.enabled || !runtime.running {
        return refuse(503, "Service Unavailable", "本地接入服务未启用");
    }
    if !text::same(api_key.as_str(), settings.api_key.as_str()) {
        return refuse(401, "Unauthorized", "本地访问秘钥无效");
    }
    if target::is_local_models_request(path.as_str()) {
        if settings.account_ids.len() == 0 {
            assert(settings@.account_ids.len() == 0);
            return refuse(503, "Service Unavailable", "本地接入集合暂无账号");
        }
        assert(settings@.account_ids.len() > 0);
        let list = target::build_local_models_response();
        proof {
            target::models_are_readable();
        }
        return Ok(
            Handling::Respond {
                response: relay::json_response(200, "OK", &list),
                failure: "写入模型响应失败: ".to_owned(),
            },
        );
    }
    let request_is_stream = upstream::is_stream_request(&request.headers, request.body.as_slice());
    let mut request = request;
    request.target = path;
    Ok(Handling::Forward { request, settings: settings.clone(), request_is_stream })
}

/// What the gateway does with the bytes of a request.
pub fn handle_connection(raw: &[u8], runtime: &GatewayRuntime) -> (handling: Result<
    Handling,
    String,
>)
    ensures
        handling_view(handling) == (match http::parsed(raw@) {
            Err(message) => Err(message),
            Ok(request) => handled(
                verdict(request, target::path_of(request.target), runtime@),
            ),
        }),
        http::parsed(raw@) matches Ok(request) ==> answer_is_readable(
            verdict(request, target::path_of(request.target), runtime@),
        ),
{
    match http::parse_http_request(raw) {
        Err(message) => Err(message),
        Ok(request) => {
            let path = target::normalize_proxy_target(request.target.as_str());
            route_request(request, path, runtime)
        },
    }
}

/// Only who has the key of the gateway gets at the models or at an account, only while the
/// gateway is switched on and running, and only below `/v1/`.
pub proof fn only_key_holders_pass(
    request: Request,
    path: Result<Seq<char>, Seq<char>>,
    runtime: Runtime,
)
    requires
        verdict(request, path, runtime) is Models || verdict(
            request,
            path,
            runtime,
        ) is Forwarded,
    ensures
        runtime.collection is Some,
        runtime.collection->0.enabled,
        runtime.running,
        upstream::client_key(request.headers) == Some(runtime.collection->0.api_key),
        has_method(request, "GET"@) || has_method(request, "POST"@),
        path is Ok,
        text::has_prefix(path->Ok_0, "/v1/"@),
{
}

/// Who has the key of the gateway gets at an account, while the gateway is switched on and
/// running.
pub proof fn key_holders_pass(request: Request, path: Seq<char>, runtime: Runtime)
    requires
        runtime.collection is Some,
        runtime.collection->0.enabled,
        runtime.running,
        upstream::client_key(request.headers) == Some(runtime.collection->0.api_key),
        has_method(request, "POST"@) || has_method(request, "GET"@),
        text::has_prefix(path, "/v1/"@),
        !asks_for_models(path),
    ensures
        verdict(request, Ok(path), runtime) == (Verdict::Forwarded {
            request: Request { target: path, ..request },
            settings: runtime.collection->0,
        }),
{
    lemma_methods_differ();
}

/// Once the gateway has a new key, who comes with another one is refused.
pub proof fn other_keys_are_refused(
    request: Request,
    path: Seq<char>,
    runtime: Runtime,
    settings: Collection,
    key: Seq<char>,
    now: i64,
)
    requires
        settings.enabled,
        runtime.running,
        collection::key_change(Some(settings), key, now) == Ok::<
            Option<Collection>,
            Seq<char>,
        >(runtime.collection),
        upstream::client_key(request.headers) is Some,
        upstream::client_key(request.headers) != Some(key),
        has_method(request, "POST"@) || has_method(request, "GET"@),
        text::has_prefix(path, "/v1/"@),
    ensures
        verdict(request, Ok(path), runtime) == (Verdict::Refused {
            status: 401,
            reason: "Unauthorized"@,
            message: "本地访问秘钥无效"@,
        }),
{
    lemma_methods_differ();
}

proof fn lemma_methods_differ()
    ensures
        text::lower("OPTIONS"@) != text::lower("GET"@),
        text::lower("OPTIONS"@) != text::lower("POST"@),
{
    reveal_strlit("OPTIONS");
    reveal_strlit("GET");
    reveal_strlit("POST");
    assert(text::lower("OPTIONS"@).len() == 7);
    assert(text::lower("GET"@).len() == 3);
    assert(text::lower("POST"@).len() == 4);
}

/// A request that goes to an account asks for a path that the upstream has.
pub proof fn forwarded_targets_resolve(
    request: Request,
    path: Result<Seq<char>, Seq<char>>,
    runtime: Runtime,
)
    requires
        verdict(request, path, runtime) is Forwarded,
    ensures
        target::upstream_target(verdict(request, path, runtime)->request.target) is Ok,
{
    reveal_strlit("/v1/");
    reveal_strlit("/v1");
    let p = path->Ok_0;
    assert(p.subrange(0, 4) == "/v1/"@);
    assert(p.subrange(0, 3) =~= p.subrange(0, 4).subrange(0, 3));
    assert("/v1/"@.subrange(0, 3) =~= "/v1"@);
    target::upstream_targets_are_paths(p);
}

// ---------------------------------------------------------------------------------------
// Ends
// ---------------------------------------------------------------------------------------

/// The reason phrase under which a failure is answered.
pub open spec fn failure_reason(status: u16) -> Seq<char> {
    if status == 400 {
        "Bad Request"@
    } else if status == 401 {
        "Unauthorized"@
    } else if status == 404 {
        "Not Found"@
    } else if status == 405 {
        "Method Not Allowed"@
    } else if status == 429 {
        "Too Many Requests"@
    } else if status == 502 {
        "Bad Gateway"@
    } else {
        "Service Unavailable"@
    }
}

fn failure_status_text(status: u16) -> (reason: &'static str)
    ensures
        reason@ == failure_reason(status),
{
    match status {
        400 => "Bad Request",
        401 => "Unauthorized",
        404 => "Not Found",
        405 => "Method Not Allowed",
        429 => "Too Many Requests",
        502 => "Bad Gateway",
        _ => "Service Unavailable",
    }
}

/// The response to a request that no account has answered.
pub fn failure_response(error: &ProxyDispatchError) -> (response: Vec<u8>)
    ensures
        response@ == relay::json_reply(
            error.status,
            failure_reason(error.status),
            relay::error_tree(error.message@),
        ),
        relay::error_is_readable(error.message@),
{
    relay::error_response(error.status, failure_status_text(error.status), error.message.as_str())
}

/// What is known after an account has answered a request: which response it answered, and
/// one more request that succeeded.
pub open spec fn after_success(
    runtime: Runtime,
    id: Seq<char>,
    email: Seq<char>,
    learned: Learned,
    latency_ms: u64,
    bound_at: i64,
    now: i64,
    then_now: i64,
) -> Runtime {
    let remembered = match learned.response_id {
        Some(response_id) => runtime::bound(runtime, response_id, id, bound_at),
        None => runtime,
    };
    Runtime {
        stats: stats::recorded(
            remembered.stats,
            Some(id),
            Some(email),
            true,
            latency_ms,
            match learned.usage {
                Some(used) => used,
                None => usage::no_usage(),
            },
            now,
            then_now,
        ),
        ..remembered
    }
}

/// Notes that an account has answered a request.
pub fn record_success_at(
    runtime: &mut GatewayRuntime,
    success: &ProxyDispatchSuccess,
    capture: &ResponseCapture,
    latency_ms: u64,
    bound_at: i64,
    now: i64,
    then_now: i64,
)
    ensures
        final(runtime)@ == after_success(
            old(runtime)@,
            success.account_id@,
            success.account_email@,
            capture@,
            latency_ms,
            bound_at,
            now,
            then_now,
        ),
{
    match &capture.response_id {
        Some(response_id) => runtime::bind_response_affinity_at(
            runtime,
            response_id.as_str(),
            success.account_id.as_str(),
            bound_at,
        ),
        None => {},
    }
    stats::record_request_stats_at(
        &mut runtime.stats,
        Some(success.account_id.as_str()),
        Some(success.account_email.as_str()),
        true,
        latency_ms,
        capture.usage.as_ref(),
        now,
        then_now,
    );
}

/// Notes that an account has just answered a request.
pub fn record_success(
    runtime: &mut GatewayRuntime,
    success: &ProxyDispatchSuccess,
    capture: &ResponseCapture,
    latency_ms: u64,
)
    ensures
        exists|bound_at: i64, now: i64, then_now: i64|
            final(runtime)@ == #[trigger] after_success(
                old(runtime)@,
                success.account_id@,
                success.account_email@,
                capture@,
                latency_ms,
                bound_at,
                now,
                then_now,
            ),
{
    let bound_at = clock::now_ms();
    let now = clock::now_ms();
    let then_now = clock::now_ms();
    record_success_at(runtime, success, capture, latency_ms, bound_at, now, then_now);
}

/// What is known after no account has answered a request: one more request that failed.
pub open spec fn after_failure(
    runtime: Runtime,
    id: Option<Seq<char>>,
    email: Option<Seq<char>>,
    latency_ms: u64,
    now: i64,
    then_now: i64,
) -> Runtime {
    Runtime {
        stats: stats::recorded(
            runtime.stats,
            id,
            email,
            false,
            latency_ms,
            usage::no_usage(),
            now,
            then_now,
        ),
        ..runtime
    }
}

/// Notes that no account has answered a request.
pub fn record_failure_at(
    runtime: &mut GatewayRuntime,
    error: &ProxyDispatchError,
    latency_ms: u64,
    now: i64,
    then_now: i64,
)
    ensures
        final(runtime)@ == after_failure(
            old(runtime)@,
            error@.account_id,
            error@.account_email,
            latency_ms,
            now,
            then_now,
        ),
{
    stats::record_request_stats_at(
        &mut runtime.stats,
        text::option_str(&error.account_id),
        text::option_str(&error.account_email),
        false,
        latency_ms,
        None,
        now,
        then_now,
    );
}

/// Notes that no account has just answered a request.
pub fn record_failure(runtime: &mut GatewayRuntime, error: &ProxyDispatchError, latency_ms: u64)
    ensures
        exists|now: i64, then_now: i64|
            final(runtime)@ == #[trigger] after_failure(
                old(runtime)@,
                error@.account_id,
                error@.account_email,
                latency_ms,
                now,
                then_now,
            ),
{
    let now = clock::now_ms();
    let then_now = clock::now_ms();
    record_failure_at(runtime, error, latency_ms, now, then_now);
}

/// Once an account has answered a response, the next request of that conversation prefers it:
/// it stands first in the order in which the accounts of the pool are tried, whatever the
/// turn and the strategy.
pub proof fn conversations_stay_with_account(
    next: Journey,
    accounts: Seq<Option<CodexAccount>>,
    known: Runtime,
    id: Seq<char>,
    email: Seq<char>,
    learned: Learned,
    latency_ms: u64,
    now: i64,
    later: i64,
    start: int,
)
    requires
        known.well_formed(),
        learned.response_id is Some,
        text::trimmed(learned.response_id->0).len() > 0,
        text::trimmed(id) == id,
        id.len() > 0,
        next.pool.contains(id),
        0 <= later - now <= runtime::RESPONSE_AFFINITY_TTL_MS,
        forall|i: int|
            0 <= i < known.response_affinity.len() ==> (
            #[trigger] known.response_affinity[i]).1.updated_at_ms <= now,
        start >= 0,
    ensures
        ({
            let after = after_success(known, id, email, learned, latency_ms, now, now, now);
            let affinity = runtime::bound_account(
                table::lookup(
                    runtime::pruned(after, later).response_affinity,
                    text::trimmed(learned.response_id->0),
                ),
            );
            let j = Journey { affinity, ..next };
            &&& affinity == Some(id)
            &&& dispatch::trial_order(
                j,
                routing::round_order(j.pool, start, affinity),
                accounts,
            )[0] == id
        }),
{
    runtime::binding_is_remembered(known, learned.response_id->0, id, now, later);
    dispatch::preferred_account_comes_first(
        Journey { affinity: Some(id), ..next },
        id,
        accounts,
        start,
    );
}

// ---------------------------------------------------------------------------------------
// Laws of single requests
// ---------------------------------------------------------------------------------------

/// The request has one of the two methods that are served, in any case.
pub open spec fn is_served(request: Request) -> bool {
    text::lower(request.method) == "get"@ || text::lower(request.method) == "post"@
}

proof fn lemma_methods(request: Request)
    ensures
        has_method(request, "OPTIONS"@) == (text::lower(request.method) == "options"@),
        (has_method(request, "GET"@) || has_method(request, "POST"@)) == is_served(request),
        is_served(request) ==> !has_method(request, "OPTIONS"@),
{
    reveal_strlit("OPTIONS");
    reveal_strlit("options");
    reveal_strlit("GET");
    reveal_strlit("get");
    reveal_strlit("POST");
    reveal_strlit("post");
    assert(text::lower("OPTIONS"@) =~= "options"@);
    assert(text::lower("GET"@) =~= "get"@);
    assert(text::lower("POST"@) =~= "post"@);
    lemma_methods_differ();
}

/// What a request is refused for: another method, a target outside of `/v1/`, no key, no
/// settings, a gateway that is switched off or does not run, a wrong key. A browser that asks
/// what it may send is always answered.
pub proof fn refusals_have_their_reasons(
    request: Request,
    path: Seq<char>,
    fault: Seq<char>,
    runtime: Runtime,
    settings: Collection,
    key: Seq<char>,
)
    ensures
        text::lower(request.method) == "options"@ ==> verdict(
            request,
            Ok(path),
            runtime,
        ) is Options && verdict(request, Err(fault), runtime) is Options,
        text::lower(request.method) != "options"@ && !is_served(request) ==> (verdict(
            request,
            Ok(path),
            runtime,
        ) matches Verdict::Refused { status, .. } && status == 405),
        is_served(request) ==> verdict(request, Err(fault), runtime) == (Verdict::Dropped {
            message: fault,
        }),
        is_served(request) && !text::has_prefix(path, "/v1/"@) ==> (verdict(
            request,
            Ok(path),
            runtime,
        ) matches Verdict::Refused { status, .. } && status == 404),
        is_served(request) && text::has_prefix(path, "/v1/"@) && upstream::client_key(
            request.headers,
        ) is None ==> (verdict(request, Ok(path), runtime) matches Verdict::Refused {
            status,
            ..
        } && status == 401),
        is_served(request) && text::has_prefix(path, "/v1/"@) && upstream::client_key(
            request.headers,
        ) == Some(key) ==> {
            &&& runtime.collection is None ==> (verdict(
                request,
                Ok(path),
                runtime,
            ) matches Verdict::Refused { status, .. } && status == 503)
            &&& runtime.collection == Some(settings) && !(settings.enabled && runtime.running)
                ==> (verdict(request, Ok(path), runtime) matches Verdict::Refused {
                status,
                ..
            } && status == 503)
            &&& runtime.collection == Some(settings) && settings.enabled && runtime.running && key
                != settings.api_key ==> (verdict(
                request,
                Ok(path),
                runtime,
            ) matches Verdict::Refused { status, .. } && status == 401)
        },
{
    lemma_methods(request);
}

/// Who has the key gets what was asked for: the list of models, as long as there are accounts,
/// and an account for everything else. The request goes on as it came, but for its target.
pub proof fn key_holders_get_what_they_ask(
    request: Request,
    path: Seq<char>,
    runtime: Runtime,
    settings: Collection,
)
    requires
        is_served(request),
        text::has_prefix(path, "/v1/"@),
        runtime.collection == Some(settings),
        settings.enabled,
        runtime.running,
        upstream::client_key(request.headers) == Some(settings.api_key),
    ensures
        path == "/v1/models"@ || text::has_prefix(path, "/v1/models?"@) ==> (if settings.account_ids.len()
            > 0 {
            verdict(request, Ok(path), runtime) is Models
        } else {
            verdict(request, Ok(path), runtime) matches Verdict::Refused { status, .. } && status
                == 503
        }),
        path != "/v1/models"@ && !text::has_prefix(path, "/v1/models?"@) ==> (verdict(
            request,
            Ok(path),
            runtime,
        ) matches Verdict::Forwarded { request: next, settings: chosen } && chosen == settings
            && next.target == path && next.method == request.method && next.headers
            == request.headers && next.body == request.body),
{
    lemma_methods(request);
}

/// A request that an account has answered counts as one success of that account, with the
/// tokens that the response reports; one that no account has answered counts as one failure
/// without tokens. Nothing else that is known changes, but for what is remembered of a response
/// that has an id.
pub proof fn ends_are_counted(
    known: Runtime,
    id: Seq<char>,
    email: Seq<char>,
    learned: Learned,
    latency_ms: u64,
    bound_at: i64,
    now: i64,
    then_now: i64,
    failed_id: Option<Seq<char>>,
    failed_email: Option<Seq<char>>,
)
    ensures
        ({
            let after = after_success(
                known,
                id,
                email,
                learned,
                latency_ms,
                bound_at,
                now,
                then_now,
            );
            &&& learned.usage matches Some(used) ==> stats::counts_one_more(
                known.stats.totals,
                after.stats.totals,
                true,
                latency_ms,
                used,
            )
            &&& learned.usage is None ==> stats::counts_one_more(
                known.stats.totals,
                after.stats.totals,
                true,
                latency_ms,
                usage::no_usage(),
            )
            &&& after.collection == known.collection
            &&& after.running == known.running
            &&& after.actual_port == known.actual_port
            &&& after.last_error == known.last_error
            &&& after.loaded == known.loaded
            &&& learned.response_id is None ==> after.response_affinity == known.response_affinity
                && after.model_cooldowns == known.model_cooldowns
        }),
        ({
            let after = after_failure(known, failed_id, failed_email, latency_ms, now, then_now);
            &&& stats::counts_one_more(
                known.stats.totals,
                after.stats.totals,
                false,
                latency_ms,
                usage::no_usage(),
            )
            &&& after.collection == known.collection
            &&& after.running == known.running
            &&& after.actual_port == known.actual_port
            &&& after.last_error == known.last_error
            &&& after.loaded == known.loaded
            &&& after.response_affinity == known.response_affinity
            &&& after.model_cooldowns == known.model_cooldowns
        }),
{
}

/// A request that an account has answered counts in the entry of that account.
pub proof fn answers_count_for_their_account(
    known: Runtime,
    id: Seq<char>,
    email: Seq<char>,
    used: UsageCapture,
    latency_ms: u64,
    bound_at: i64,
    now: i64,
    then_now: i64,
    k: int,
)
    requires
        stats::distinct_accounts(known.stats.accounts),
        0 <= k < known.stats.accounts.len(),
        known.stats.accounts[k].id == text::trimmed(id),
        text::trimmed(id).len() > 0,
        now > 0,
    ensures
        ({
            let learned = Learned { usage: Some(used), response_id: None };
            let after = after_success(
                known,
                id,
                email,
                learned,
                latency_ms,
                bound_at,
                now,
                then_now,
            );
            exists|m: int|
                0 <= m < after.stats.accounts.len() && (#[trigger] after.stats.accounts[m]).id
                    == text::trimmed(id) && stats::counts_one_more(
                    known.stats.accounts[k].usage,
                    after.stats.accounts[m].usage,
                    true,
                    latency_ms,
                    used,
                )
        }),
{
    stats::recording_counts_one_request(
        known.stats,
        id,
        email,
        true,
        latency_ms,
        used,
        now,
        then_now,
        k,
        known.stats.accounts[k],
    );
    let s = stats::recorded(
        known.stats,
        Some(id),
        Some(email),
        true,
        latency_ms,
        used,
        now,
        then_now,
    );
    let m = choose|m: int|
        0 <= m < s.accounts.len() && (#[trigger] s.accounts[m]).id == text::trimmed(id)
            && s.accounts[m].updated_at == now && stats::counts_one_more(
            known.stats.accounts[k].usage,
            s.accounts[m].usage,
            true,
            latency_ms,
            used,
        );
    let learned = Learned { usage: Some(used), response_id: None };
    let after = after_success(known, id, email, learned, latency_ms, bound_at, now, then_now);
    assert(after.stats == s);
    assert(after.stats.accounts[m].id == text::trimmed(id));
}

/// Everything that is not passed on is answered: a refusal with its status and its message, the
/// list of models with the models. What is passed on says whether its answer is wanted as a
/// stream. Only a target that cannot be read is not answered.
pub proof fn verdicts_are_answered(
    status: u16,
    reason: Seq<char>,
    message: Seq<char>,
    request: Request,
    settings: Collection,
)
    ensures
        handled(Verdict::Dropped { message }) == Err::<Handled, Seq<char>>(message),
        handled(Verdict::Options) matches Ok(Handled::Respond { response, failure }) && response
            == encode_utf8(relay::options_head()) && failure == "写入 OPTIONS 响应失败: "@,
        handled(Verdict::Refused { status, reason, message }) matches Ok(
            Handled::Respond { response, failure },
        ) && failure == "写入错误响应失败: "@ && response == encode_utf8(
            relay::json_head(
                status,
                reason,
                relay::body_bytes(relay::error_tree(message)).len(),
            ),
        ) + relay::body_bytes(relay::error_tree(message)),
        relay::error_tree(message).child("error"@) == Some(json::JsonTree::Text(message)),
        handled(Verdict::Models) matches Ok(Handled::Respond { response, failure }) && response
            == relay::json_reply(200, "OK"@, target::models_tree()) && failure
            == "写入模型响应失败: "@,
        handled(Verdict::Forwarded { request, settings }) == Ok::<Handled, Seq<char>>(
            Handled::Forward {
                request,
                settings,
                request_is_stream: upstream::wants_stream(
                    request.headers,
                    json::document_tree(request.body),
                ),
            },
        ),
{
}

/// The statuses of failures that have a name of their own, with their names.
pub open spec fn named_failures() -> Seq<(u16, Seq<char>)> {
    seq![
        (400u16, "Bad Request"@),
        (401u16, "Unauthorized"@),
        (404u16, "Not Found"@),
        (405u16, "Method Not Allowed"@),
        (429u16, "Too Many Requests"@),
        (502u16, "Bad Gateway"@),
    ]
}

/// A failure is told by the name of its status, and every status without a name of its own as
/// a service that is unavailable.
pub proof fn failures_have_names(status: u16)
    ensures
        forall|i: int|
            0 <= i < named_failures().len() && #[trigger] named_failures()[i].0 == status
                ==> failure_reason(status) == named_failures()[i].1,
        (forall|i: int|
            0 <= i < named_failures().len() ==> #[trigger] named_failures()[i].0 != status)
            ==> failure_reason(status) == "Service Unavailable"@,
{
    let named = named_failures();
    assert(named[0].0 == 400 && named[1].0 == 401 && named[2].0 == 404 && named[3].0 == 405
        && named[4].0 == 429 && named[5].0 == 502);
}

} // verus!
