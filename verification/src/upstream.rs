//! What the upstream is asked, and what its refusals say.

use vstd::prelude::*;
use vstd::slice::*;
use vstd::string::*;
use vstd::utf8::*;
use crate::account;
use crate::account::CodexAccount;
use crate::clock;
use crate::clock::RetryDelay;
use crate::http::ParsedRequest;
use crate::json;
use crate::json::{JsonTree, JsonValue};
use crate::table;
use crate::table::Table;
use crate::text;

verus! {

/// Where the upstream is.
pub const UPSTREAM_CODEX_BASE_URL: &'static str = "https://chatgpt.com/backend-api/codex";

/// The user agent that the upstream is told where a request names none.
pub const DEFAULT_CODEX_USER_AGENT: &'static str =
    "codex-tui/0.118.0 (Mac OS 26.3.1; arm64) iTerm.app/3.6.9 (codex-tui; 0.118.0)";

/// The originator that the upstream is told where a request names none.
pub const DEFAULT_CODEX_ORIGINATOR: &'static str = "codex-tui";

// ---------------------------------------------------------------------------------------
// What a request hints at
// ---------------------------------------------------------------------------------------

/// A text trimmed, if anything is left of it.
pub open spec fn non_blank(content: Option<Seq<char>>) -> Option<Seq<char>> {
    match content {
        Some(t) => if text::trimmed(t).len() > 0 {
            Some(text::trimmed(t))
        } else {
            None
        },
        None => None,
    }
}

fn trim_or_none(content: Option<&str>) -> (inner: Option<String>)
    ensures
        text::opt_text(inner) == non_blank(text::opt_str(content)),
{
    match content {
        Some(t) => text::trim_non_empty(t),
        None => None,
    }
}

fn text_member<'a>(value: Option<&'a JsonValue>, key: &str) -> (found: Option<&'a str>)
    ensures
        text::opt_str(found) == json::text_of(json::child_of(json::opt_tree(value), key@)),
{
    match value {
        Some(v) => match v.get(key) {
            Some(item) => item.as_str(),
            None => None,
        },
        None => None,
    }
}

/// The key under which a model is known.
pub fn normalize_model_key(model: &str) -> (key: String)
    ensures
        key@ == text::lower(text::trimmed(model@)),
{
    text::to_ascii_lowercase(text::trim(model).as_str())
}

/// What a request tells about where it should go.
#[derive(Debug)]
pub struct RequestRoutingHint {
    pub model_key: String,
    pub previous_response_id: Option<String>,
}

/// What a request tells about where it should go, as a mathematical value.
pub struct Hint {
    pub model_key: Seq<char>,
    pub previous_response_id: Option<Seq<char>>,
}

impl View for RequestRoutingHint {
    type V = Hint;

    open spec fn view(&self) -> Hint {
        Hint {
            model_key: self.model_key@,
            previous_response_id: text::opt_text(self.previous_response_id),
        }
    }
}

/// What a body tells about where a request should go.
pub open spec fn hint_in(body: Option<JsonTree>) -> Hint {
    Hint {
        model_key: match json::text_of(json::child_of(body, "model"@)) {
            Some(model) => text::lower(text::trimmed(model)),
            None => Seq::empty(),
        },
        previous_response_id: non_blank(
            json::text_of(json::child_of(body, "previous_response_id"@)),
        ),
    }
}

/// What a body tells about where a request should go.
pub fn routing_hint_in(body: Option<&JsonValue>) -> (hint: RequestRoutingHint)
    ensures
        hint@ == hint_in(json::opt_tree(body)),
{
    RequestRoutingHint {
        model_key: match text_member(body, "model") {
            Some(model) => normalize_model_key(model),
            None => String::new(),
        },
        previous_response_id: trim_or_none(text_member(body, "previous_response_id")),
    }
}

/// The document in the body of a request.
pub open spec fn body_tree(body: Seq<u8>) -> Option<JsonTree> {
    if body.len() == 0 {
        None
    } else {
        json::document_tree(body)
    }
}

/// The document in the body of a request.
pub fn parse_request_body_json(body: &[u8]) -> (document: Option<JsonValue>)
    ensures
        body_tree(body@) == (match document {
            Some(d) => Some(d@),
            None => None,
        }),
{
    if body.len() == 0 {
        return None;
    }
    json::parse_json(body)
}

/// What a request tells about where it should go.
pub fn build_request_routing_hint(request: &ParsedRequest) -> (hint: RequestRoutingHint)
    ensures
        hint@ == hint_in(body_tree(request.body@)),
{
    match parse_request_body_json(request.body.as_slice()) {
        Some(document) => routing_hint_in(Some(&document)),
        None => routing_hint_in(None),
    }
}

/// Whether a request wants its answer as a stream: a header says so, or its body does.
pub open spec fn wants_stream(
    headers: Seq<(Seq<char>, Seq<char>)>,
    body: Option<JsonTree>,
) -> bool {
    ||| (table::lookup(headers, "accept"@) matches Some(accept) && text::has_part(
        text::lower(accept),
        "text/event-stream"@,
    ))
    ||| (json::child_of(body, "stream"@) matches Some(stream) && stream.truth() == Some(true))
}

/// Whether a request wants its answer as a stream.
pub fn stream_wanted(headers: &Table<String>, body: Option<&JsonValue>) -> (yes: bool)
    ensures
        yes == wants_stream(headers@, json::opt_tree(body)),
{
    if let Some(accept) = headers.get("accept") {
        if text::contains(
            text::to_ascii_lowercase(accept.as_str()).as_str(),
            "text/event-stream",
        ) {
            return true;
        }
    }
    match body {
        Some(document) => match document.get("stream") {
            Some(stream) => match stream.as_bool() {
                Some(wanted) => wanted,
                None => false,
            },
            None => false,
        },
        None => false,
    }
}

/// Whether a request wants its answer as a stream.
pub fn is_stream_request(headers: &Table<String>, body: &[u8]) -> (yes: bool)
    ensures
        yes == wants_stream(headers@, json::document_tree(body@)),
{
    match json::parse_json(body) {
        Some(document) => stream_wanted(headers, Some(&document)),
        None => stream_wanted(headers, None),
    }
}

// ---------------------------------------------------------------------------------------
// Keys of clients
// ---------------------------------------------------------------------------------------

/// What stands behind `scheme` in a header, trimmed, if anything does.
pub open spec fn token_behind(value: Seq<char>, scheme: Seq<char>) -> Option<Seq<char>> {
    if text::has_prefix(text::trimmed(value), scheme) {
        non_blank(Some(text::trimmed(value).skip(scheme.len() as int)))
    } else {
        None
    }
}

/// The key that a client has sent.
pub open spec fn client_key(headers: Seq<(Seq<char>, Seq<char>)>) -> Option<Seq<char>> {
    let value = table::lookup(headers, "authorization"@);
    if value is Some && token_behind(value->0, "Bearer "@) is Some {
        token_behind(value->0, "Bearer "@)
    } else if value is Some && token_behind(value->0, "bearer "@) is Some {
        token_behind(value->0, "bearer "@)
    } else {
        non_blank(table::lookup(headers, "x-api-key"@))
    }
}

fn find_token(value: &str, scheme: &str) -> (token: Option<String>)
    ensures
        text::opt_text(token) == token_behind(value@, scheme@),
{
    match text::strip_prefix(text::trim(value).as_str(), scheme) {
        Some(rest) => text::trim_non_empty(rest.as_str()),
        None => None,
    }
}

/// The key that a client has sent.
pub fn extract_local_api_key(headers: &Table<String>) -> (key: Option<String>)
    ensures
        text::opt_text(key) == client_key(headers@),
{
    if let Some(value) = headers.get("authorization") {
        let token = find_token(value.as_str(), "Bearer ");
        if token.is_some() {
            return token;
        }
        let token = find_token(value.as_str(), "bearer ");
        if token.is_some() {
            return token;
        }
    }
    match headers.get("x-api-key") {
        Some(value) => text::trim_non_empty(value.as_str()),
        None => None,
    }
}

// ---------------------------------------------------------------------------------------
// Refusals
// ---------------------------------------------------------------------------------------

/// The first of two optional texts that is there.
pub open spec fn or_text(first: Option<Seq<char>>, second: Option<Seq<char>>) -> Option<Seq<char>> {
    if first is Some {
        first
    } else {
        second
    }
}

/// What a refusal says about its reason.
pub open spec fn message_in(document: JsonTree) -> Option<Seq<char>> {
    let error = document.child("error"@);
    let detail = document.child("detail"@);
    or_text(
        non_blank(json::text_of(json::child_of(error, "message"@))),
        or_text(
            non_blank(json::text_of(json::child_of(detail, "message"@))),
            or_text(
                non_blank(json::text_of(document.child("message"@))),
                non_blank(json::text_of(error)),
            ),
        ),
    )
}

/// What a refusal says about its reason.
pub fn error_message_in(document: &JsonValue) -> (message: Option<String>)
    ensures
        text::opt_text(message) == message_in(document@),
{
    let nested = trim_or_none(text_member(document.get("error"), "message"));
    if nested.is_some() {
        return nested;
    }
    let detailed = trim_or_none(text_member(document.get("detail"), "message"));
    if detailed.is_some() {
        return detailed;
    }
    let plain = trim_or_none(text_member(Some(document), "message"));
    if plain.is_some() {
        return plain;
    }
    trim_or_none(text_member(Some(document), "error"))
}

/// What the text of a refusal says about its reason.
pub open spec fn refusal_message(body: Seq<char>) -> Option<Seq<char>> {
    match json::document_tree(encode_utf8(body)) {
        Some(document) => message_in(document),
        None => None,
    }
}

/// What the text of a refusal says about its reason.
pub fn extract_upstream_error_message(body: &str) -> (message: Option<String>)
    ensures
        text::opt_text(message) == refusal_message(body@),
{
    match json::parse_json(body.as_bytes()) {
        Some(document) => error_message_in(&document),
        None => None,
    }
}

/// A refusal in one line: the status, and the reason or else the text or else that there is
/// none.
pub open spec fn refusal_summary(status: u16, message: Option<Seq<char>>, body: Seq<char>) -> Seq<
    char,
> {
    text::decimal(status as nat) + ": "@ + match message {
        Some(m) => m,
        None => if text::trimmed(body).len() == 0 {
            "上游接口返回状态 "@ + text::decimal(status as nat)
        } else {
            text::trimmed(body)
        },
    }
}

/// A refusal in one line.
pub fn summarize_refusal(status: u16, message: Option<String>, body: &str) -> (summary: String)
    ensures
        summary@ == refusal_summary(status, text::opt_text(message), body@),
{
    let detail = match message {
        Some(m) => m,
        None => match text::trim_non_empty(body) {
            Some(trimmed) => trimmed,
            None => {
                let mut plain = "上游接口返回状态 ".to_owned();
                plain.append(text::decimal_text(status as u128).as_str());
                plain
            },
        },
    };
    let mut summary = text::decimal_text(status as u128);
    summary.append(": ");
    summary.append(detail.as_str());
    summary
}

/// A refusal in one line.
pub fn summarize_upstream_error(status: u16, body: &str) -> (summary: String)
    ensures
        summary@ == refusal_summary(status, refusal_message(body@), body@),
{
    summarize_refusal(status, extract_upstream_error_message(body), body)
}

/// The text says that a quota is used up or a model is busy.
pub open spec fn speaks_of_limits(body: Seq<char>) -> bool {
    let lower = text::lower(body);
    ||| text::has_part(lower, "usage_limit_reached"@)
    ||| text::has_part(lower, "limit reached"@)
    ||| text::has_part(lower, "insufficient_quota"@)
    ||| text::has_part(lower, "quota exceeded"@)
    ||| text::has_part(lower, "selected model is at capacity"@)
    ||| text::has_part(lower, "model is at capacity"@)
}

/// After this refusal another account may do better.
pub open spec fn worth_another_account(status: u16, body: Seq<char>) -> bool {
    status == 401 || ((status == 429 || status == 403) && speaks_of_limits(body))
}

/// Whether another account may do better after a refusal.
pub fn should_try_next_account(status: u16, body: &str) -> (yes: bool)
    ensures
        yes == worth_another_account(status, body@),
{
    if status == 401 {
        return true;
    }
    let lower = text::to_ascii_lowercase(body);
    let quota_exhausted = text::contains(lower.as_str(), "usage_limit_reached") || text::contains(
        lower.as_str(),
        "limit reached",
    ) || text::contains(lower.as_str(), "insufficient_quota") || text::contains(
        lower.as_str(),
        "quota exceeded",
    );
    let model_capacity = text::contains(lower.as_str(), "selected model is at capacity")
        || text::contains(lower.as_str(), "model is at capacity");
    (status == 429 || status == 403) && (quota_exhausted || model_capacity)
}

/// How long a refusal says to wait, in milliseconds: until a point in time that is still to
/// come, or else for a number of seconds.
pub open spec fn wait_in(document: JsonTree, now_seconds: i64) -> Option<int> {
    let error = document.child("error"@);
    let at = match json::child_of(error, "resets_at"@) {
        Some(t) => t.integer(i64::MIN as int, i64::MAX as int),
        None => None,
    };
    let seconds = match json::child_of(error, "resets_in_seconds"@) {
        Some(t) => t.integer(i64::MIN as int, i64::MAX as int),
        None => None,
    };
    if non_blank(json::text_of(json::child_of(error, "type"@))) != Some("usage_limit_reached"@) {
        None
    } else if at is Some && at->0 > now_seconds {
        Some(clock::capped(at->0 - now_seconds) * 1000)
    } else if seconds is Some && seconds->0 > 0 {
        Some(seconds->0 * 1000)
    } else {
        None
    }
}

fn integer_member(value: &JsonValue, key: &str) -> (n: Option<i64>)
    ensures
        (match json::child_of(Some(value@), key@) {
            Some(t) => t.integer(i64::MIN as int, i64::MAX as int),
            None => None,
        }) == (match n {
            Some(v) => Some(v as int),
            None => None,
        }),
{
    match value.get(key) {
        Some(item) => item.as_i64(),
        None => None,
    }
}

/// How long a refusal says to wait.
pub fn retry_after_in(document: &JsonValue, now_seconds: i64) -> (wait: Option<RetryDelay>)
    ensures
        clock::opt_millis(wait) == wait_in(document@, now_seconds),
{
    let error = match document.get("error") {
        Some(error) => error,
        None => {
            return None;
        },
    };
    match trim_or_none(text_member(Some(error), "type")) {
        Some(kind) => {
            if !text::same(kind.as_str(), "usage_limit_reached") {
                return None;
            }
        },
        None => {
            return None;
        },
    }
    if let Some(resets_at) = integer_member(error, "resets_at") {
        if resets_at > now_seconds {
            let delta = clock::saturating_sub(resets_at, now_seconds);
            return Some(RetryDelay::from_secs(delta as u64));
        }
    }
    match integer_member(error, "resets_in_seconds") {
        Some(seconds) => if seconds > 0 {
            Some(RetryDelay::from_secs(seconds as u64))
        } else {
            None
        },
        None => None,
    }
}

/// How long a refusal says to wait, in milliseconds.
pub open spec fn refusal_wait(status: u16, body: Seq<char>, now_seconds: i64) -> Option<int> {
    if status != 429 || text::trimmed(body).len() == 0 {
        None
    } else {
        match json::document_tree(encode_utf8(body)) {
            Some(document) => wait_in(document, now_seconds),
            None => None,
        }
    }
}

/// How long a refusal says to wait, asked at `now_seconds`.
pub fn parse_codex_retry_after_at(status: u16, error_body: &str, now_seconds: i64) -> (wait: Option<
    RetryDelay,
>)
    ensures
        clock::opt_millis(wait) == refusal_wait(status, error_body@, now_seconds),
{
    if status != 429 || text::trim(error_body).as_str().is_empty() {
        return None;
    }
    match json::parse_json(error_body.as_bytes()) {
        Some(document) => retry_after_in(&document, now_seconds),
        None => None,
    }
}

/// How long a refusal says to wait.
pub fn parse_codex_retry_after(status: u16, error_body: &str) -> (wait: Option<RetryDelay>)
    ensures
        exists|now_seconds: i64|
            clock::opt_millis(wait) == #[trigger] refusal_wait(status, error_body@, now_seconds),
{
    parse_codex_retry_after_at(status, error_body, clock::now_seconds())
}

/// A refusal that says how long to wait says to wait for a second at least.
pub proof fn waits_last(document: JsonTree, now_seconds: i64)
    ensures
        wait_in(document, now_seconds) matches Some(millis) ==> millis >= 1000,
{
}

/// A waiting time in words: whole seconds, at least one.
pub open spec fn wait_text(wait: RetryDelay) -> Seq<char> {
    text::decimal(
        if wait.seconds() < 1 {
            1
        } else {
            wait.seconds()
        },
    ) + " 秒"@
}

/// A waiting time in words.
pub fn format_retry_after_duration(wait: RetryDelay) -> (words: String)
    ensures
        words@ == wait_text(wait),
{
    let seconds: u128 = wait.millis / 1000;
    let shown: u128 = if seconds < 1 {
        1
    } else {
        seconds
    };
    let mut words = text::decimal_text(shown);
    words.append(" 秒");
    words
}

/// What is said when every account is cooling down.
pub open spec fn cooling_message(model_key: Seq<char>, wait: RetryDelay) -> Seq<char> {
    if text::trimmed(model_key).len() == 0 {
        "当前 API 服务账号均在冷却中，请 "@ + wait_text(wait) + " 后重试"@
    } else {
        "模型 "@ + model_key + " 的可用账号均在冷却中，请 "@ + wait_text(wait) + " 后重试"@
    }
}

/// What is said when every account is cooling down.
pub fn build_cooldown_unavailable_message(model_key: &str, wait: RetryDelay) -> (message: String)
    ensures
        message@ == cooling_message(model_key@, wait),
{
    let words = format_retry_after_duration(wait);
    let mut message = if text::trim(model_key).as_str().is_empty() {
        "当前 API 服务账号均在冷却中，请 ".to_owned()
    } else {
        let mut named = "模型 ".to_owned();
        named.append(model_key);
        named.append(" 的可用账号均在冷却中，请 ");
        named
    };
    message.append(words.as_str());
    message.append(" 后重试");
    message
}

// ---------------------------------------------------------------------------------------
// What may stand in a request
// ---------------------------------------------------------------------------------------

/// A byte that may stand in a method or in the name of a header: a letter, a digit or one of
/// a few signs of ASCII.
pub open spec fn is_token_byte(b: u8) -> bool {
    ||| 48 <= b <= 57
    ||| 65 <= b <= 90
    ||| 94 <= b <= 122
    ||| b == 33
    ||| 35 <= b <= 39
    ||| b == 42
    ||| b == 43
    ||| b == 45
    ||| b == 46
    ||| b == 124
    ||| b == 126
}

/// Bytes that may stand in a method or in the name of a header.
pub open spec fn is_token(bytes: Seq<u8>) -> bool {
    bytes.len() > 0 && forall|i: int| 0 <= i < bytes.len() ==> is_token_byte(#[trigger] bytes[i])
}

/// Bytes that may stand in the value of a header: none of the control characters but the
/// tabulator.
pub open spec fn is_header_value(bytes: Seq<u8>) -> bool {
    forall|i: int|
        0 <= i < bytes.len() ==> ((#[trigger] bytes[i]) >= 32 && bytes[i] != 127) || bytes[i] == 9
}

/// What is wrong with a method.
pub open spec fn method_fault(method: Seq<char>) -> Option<Seq<char>> {
    if is_token(encode_utf8(method)) {
        None
    } else {
        Some("invalid HTTP method"@)
    }
}

/// What is wrong with the name of a header.
pub open spec fn header_name_fault(name: Seq<char>) -> Option<Seq<char>> {
    if is_token(encode_utf8(name)) && encode_utf8(name).len() <= 65535 {
        None
    } else {
        Some("invalid HTTP header name"@)
    }
}

/// What is wrong with the value of a header.
pub open spec fn header_value_fault(value: Seq<char>) -> Option<Seq<char>> {
    if is_header_value(encode_utf8(value)) {
        None
    } else {
        Some("failed to parse header value"@)
    }
}

/// Calls `http::Method::from_bytes`: a method is accepted if it is not empty and made of
/// token bytes; the text of the error is always the same.
#[verifier::external_body]
fn check_method(method: &str) -> (fault: Option<String>)
    ensures
        text::opt_text(fault) == method_fault(method@),
{
    reqwest::Method::from_bytes(method.as_bytes()).err().map(|e| e.to_string())
}

/// Calls `http::HeaderName::from_bytes`: a name is accepted if it is not empty, not longer
/// than 65535 bytes and made of token bytes; the text of the error is always the same.
#[verifier::external_body]
fn check_header_name(name: &str) -> (fault: Option<String>)
    ensures
        text::opt_text(fault) == header_name_fault(name@),
{
    reqwest::header::HeaderName::from_bytes(name.as_bytes()).err().map(|e| e.to_string())
}

/// Calls `http::HeaderValue::from_str`: a value is accepted if it has no control character
/// but the tabulator in it; the text of the error is always the same.
#[verifier::external_body]
fn check_header_value(value: &str) -> (fault: Option<String>)
    ensures
        text::opt_text(fault) == header_value_fault(value@),
{
    reqwest::header::HeaderValue::from_str(value).err().map(|e| e.to_string())
}

// ---------------------------------------------------------------------------------------
// The request to the upstream
// ---------------------------------------------------------------------------------------

/// Names and values of headers.
pub open spec fn pairs(headers: Seq<(String, String)>) -> Seq<(Seq<char>, Seq<char>)> {
    headers.map_values(|h: (String, String)| (h.0@, h.1@))
}

/// The header is not for the upstream: it holds the key of the client or speaks of the
/// connection to the gateway.
pub open spec fn is_private(name: Seq<char>) -> bool {
    ||| name == "authorization"@
    ||| name == "host"@
    ||| name == "content-length"@
    ||| name == "connection"@
    ||| name == "accept-encoding"@
    ||| name == "x-api-key"@
}

fn private_header(name: &str) -> (yes: bool)
    ensures
        yes == is_private(name@),
{
    text::same(name, "authorization") || text::same(name, "host") || text::same(
        name,
        "content-length",
    ) || text::same(name, "connection") || text::same(name, "accept-encoding") || text::same(
        name,
        "x-api-key",
    )
}

/// The headers that are passed on: those that are not private, if nothing is wrong with them.
pub open spec fn passed_on(headers: Seq<(Seq<char>, Seq<char>)>) -> Result<
    Seq<(Seq<char>, Seq<char>)>,
    Seq<char>,
>
    decreases headers.len(),
{
    if headers.len() == 0 {
        Ok(Seq::empty())
    } else {
        match passed_on(headers.drop_last()) {
            Err(message) => Err(message),
            Ok(before) => {
                let (name, value) = headers.last();
                if is_private(name) {
                    Ok(before)
                } else if header_name_fault(name) is Some {
                    Err("无效请求头 "@ + name + ": "@ + header_name_fault(name)->0)
                } else if header_value_fault(value) is Some {
                    Err("无效请求头值 "@ + name + ": "@ + header_value_fault(value)->0)
                } else {
                    Ok(before.push((name, value)))
                }
            },
        }
    }
}

/// Headers or an error, as a mathematical value.
pub open spec fn pairs_view(headers: Result<Vec<(String, String)>, String>) -> Result<
    Seq<(Seq<char>, Seq<char>)>,
    Seq<char>,
> {
    match headers {
        Ok(list) => Ok(pairs(list@)),
        Err(message) => Err(message@),
    }
}

fn fault_message(prefix: &str, name: &str, fault: &str) -> (message: String)
    ensures
        message@ == prefix@ + name@ + ": "@ + fault@,
{
    let mut message = prefix.to_owned();
    message.append(name);
    message.append(": ");
    message.append(fault);
    message
}

proof fn lemma_error_stays(headers: Seq<(Seq<char>, Seq<char>)>, k: int)
    requires
        0 <= k <= headers.len(),
        passed_on(headers.take(k)) is Err,
    ensures
        passed_on(headers) == passed_on(headers.take(k)),
    decreases headers.len() - k,
{
    if k < headers.len() {
        assert(headers.take(k + 1).drop_last() =~= headers.take(k));
        lemma_error_stays(headers, k + 1);
    } else {
        assert(headers.take(k) =~= headers);
    }
}

/// The headers that are passed on.
pub fn forward_headers(headers: &Table<String>) -> (forwarded: Result<
    Vec<(String, String)>,
    String,
>)
    ensures
        pairs_view(forwarded) == passed_on(headers@),
{
    let mut list: Vec<(String, String)> = Vec::new();
    assert(pairs(list@) =~= Seq::empty());
    let mut i: usize = 0;
    while i < headers.len()
        invariant
            i <= headers@.len(),
            passed_on(headers@.take(i as int)) == Ok::<Seq<(Seq<char>, Seq<char>)>, Seq<char>>(
                pairs(list@),
            ),
        decreases headers@.len() - i,
    {
        let ghost before = list@;
        proof {
            let next = headers@.take(i + 1);
            assert(next.drop_last() =~= headers@.take(i as int));
            assert(next.last() == headers@[i as int]);
        }
        let name = headers.key(i);
        let value = headers.value(i);
        if !private_header(name) {
            if let Some(fault) = check_header_name(name) {
                proof {
                    lemma_error_stays(headers@, i + 1);
                }
                return Err(fault_message("无效请求头 ", name, fault.as_str()));
            }
            if let Some(fault) = check_header_value(value.as_str()) {
                proof {
                    lemma_error_stays(headers@, i + 1);
                }
                return Err(fault_message("无效请求头值 ", name, fault.as_str()));
            }
            list.push((name.to_owned(), value.clone()));
            assert(pairs(list@) =~= pairs(before).push(headers@[i as int]));
        }
        i += 1;
    }
    assert(headers@.take(i as int) =~= headers@);
    Ok(list)
}

/// A header, if a condition holds.
pub open spec fn header_if(condition: bool, name: Seq<char>, value: Seq<char>) -> Seq<
    (Seq<char>, Seq<char>),
> {
    if condition {
        seq![(name, value)]
    } else {
        Seq::empty()
    }
}

/// The headers that the gateway adds for an account.
pub open spec fn added(
    headers: Seq<(Seq<char>, Seq<char>)>,
    body: Seq<u8>,
    token: Seq<char>,
    upstream_account_id: Option<Seq<char>>,
    is_stream: bool,
) -> Seq<(Seq<char>, Seq<char>)> {
    seq![("authorization"@, "Bearer "@ + text::trimmed(token))] + header_if(
        table::lookup(headers, "user-agent"@) is None,
        "user-agent"@,
        DEFAULT_CODEX_USER_AGENT@,
    ) + header_if(
        table::lookup(headers, "originator"@) is None,
        "Originator"@,
        DEFAULT_CODEX_ORIGINATOR@,
    ) + header_if(
        upstream_account_id is Some,
        "ChatGPT-Account-Id"@,
        upstream_account_id->0,
    ) + header_if(
        table::lookup(headers, "accept"@) is None,
        "accept"@,
        if is_stream {
            "text/event-stream"@
        } else {
            "application/json"@
        },
    ) + seq![("Connection"@, "Keep-Alive"@)] + header_if(
        table::lookup(headers, "content-type"@) is None && body.len() > 0,
        "content-type"@,
        "application/json"@,
    )
}

/// A request to the upstream.
#[derive(Debug)]
pub struct UpstreamRequest {
    pub method: String,
    pub url: String,
    pub headers: Vec<(String, String)>,
    pub body: Option<Vec<u8>>,
}

/// A request to the upstream as a mathematical value.
pub struct Call {
    pub method: Seq<char>,
    pub url: Seq<char>,
    pub headers: Seq<(Seq<char>, Seq<char>)>,
    pub body: Option<Seq<u8>>,
}

impl View for UpstreamRequest {
    type V = Call;

    open spec fn view(&self) -> Call {
        Call {
            method: self.method@,
            url: self.url@,
            headers: pairs(self.headers@),
            body: match self.body {
                Some(b) => Some(b@),
                None => None,
            },
        }
    }
}

/// The request to the upstream that stands for a request of a client.
pub open spec fn call_for(
    method: Seq<char>,
    target: Seq<char>,
    headers: Seq<(Seq<char>, Seq<char>)>,
    body: Seq<u8>,
    token: Seq<char>,
    upstream_account_id: Option<Seq<char>>,
    is_stream: bool,
) -> Result<Call, Seq<char>> {
    if method_fault(method) is Some {
        Err("不支持的请求方法: "@ + method_fault(method)->0)
    } else {
        match passed_on(headers) {
            Err(message) => Err(message),
            Ok(before) => Ok(
                Call {
                    method,
                    url: UPSTREAM_CODEX_BASE_URL@ + target,
                    headers: before + added(headers, body, token, upstream_account_id, is_stream),
                    body: if body.len() > 0 {
                        Some(body)
                    } else {
                        None
                    },
                },
            ),
        }
    }
}

/// A request to the upstream or an error, as a mathematical value.
pub open spec fn call_view(call: Result<UpstreamRequest, String>) -> Result<Call, Seq<char>> {
    match call {
        Ok(c) => Ok(c@),
        Err(message) => Err(message@),
    }
}

fn push_header(list: &mut Vec<(String, String)>, name: &str, value: &str)
    ensures
        pairs(final(list)@) == pairs(old(list)@) + seq![(name@, value@)],
{
    let ghost before = list@;
    list.push((name.to_owned(), value.to_owned()));
    assert(pairs(list@) =~= pairs(before) + seq![(name@, value@)]);
}

fn push_header_if(list: &mut Vec<(String, String)>, condition: bool, name: &str, value: &str)
    ensures
        pairs(final(list)@) == pairs(old(list)@) + header_if(condition, name@, value@),
{
    if condition {
        push_header(list, name, value);
    } else {
        assert(pairs(list@) =~= pairs(list@) + Seq::empty());
    }
}

fn push_optional_header(list: &mut Vec<(String, String)>, name: &str, value: Option<String>)
    ensures
        pairs(final(list)@) == pairs(old(list)@) + header_if(
            value is Some,
            name@,
            text::opt_text(value)->0,
        ),
{
    match value {
        Some(v) => push_header(list, name, v.as_str()),
        None => {
            assert(pairs(list@) =~= pairs(list@) + Seq::empty());
        },
    }
}

fn added_headers(
    headers: &Table<String>,
    body: &[u8],
    account: &CodexAccount,
    token_account_id: Option<String>,
    is_stream: bool,
) -> (list: Vec<(String, String)>)
    ensures
        pairs(list@) == added(
            headers@,
            body@,
            account.tokens.access_token@,
            account::upstream_account_id(
                text::opt_text(account.account_id),
                text::opt_text(token_account_id),
            ),
            is_stream,
        ),
{
    let mut bearer = "Bearer ".to_owned();
    bearer.append(text::trim(account.tokens.access_token.as_str()).as_str());
    let mut list: Vec<(String, String)> = Vec::new();
    list.push(("authorization".to_owned(), bearer));
    assert(pairs(list@) =~= seq![
        ("authorization"@, "Bearer "@ + text::trimmed(account.tokens.access_token@)),
    ]);
    push_header_if(
        &mut list,
        !headers.contains_key("user-agent"),
        "user-agent",
        DEFAULT_CODEX_USER_AGENT,
    );
    push_header_if(
        &mut list,
        !headers.contains_key("originator"),
        "Originator",
        DEFAULT_CODEX_ORIGINATOR,
    );
    push_optional_header(
        &mut list,
        "ChatGPT-Account-Id",
        account::resolve_upstream_account_id(account, token_account_id),
    );
    push_header_if(
        &mut list,
        !headers.contains_key("accept"),
        "accept",
        if is_stream {
            "text/event-stream"
        } else {
            "application/json"
        },
    );
    push_header(&mut list, "Connection", "Keep-Alive");
    push_header_if(
        &mut list,
        !headers.contains_key("content-type") && body.len() > 0,
        "content-type",
        "application/json",
    );
    list
}

/// The request to the upstream that stands for a request of a client. `token_account_id` is
/// the account id in the access token, `is_stream` whether the answer is wanted as a stream.
pub fn build_upstream_request(
    method: &str,
    target: &str,
    headers: &Table<String>,
    body: &[u8],
    account: &CodexAccount,
    token_account_id: Option<String>,
    is_stream: bool,
) -> (call: Result<UpstreamRequest, String>)
    ensures
        call_view(call) == call_for(
            method@,
            target@,
            headers@,
            body@,
            account.tokens.access_token@,
            account::upstream_account_id(
                text::opt_text(account.account_id),
                text::opt_text(token_account_id),
            ),
            is_stream,
        ),
{
    if let Some(fault) = check_method(method) {
        let mut message = "不支持的请求方法: ".to_owned();
        message.append(fault.as_str());
        return Err(message);
    }
    let mut url = UPSTREAM_CODEX_BASE_URL.to_owned();
    url.append(target);
    let mut list = match forward_headers(headers) {
        Ok(list) => list,
        Err(message) => {
            return Err(message);
        },
    };
    let ghost before = list@;
    let mut more = added_headers(headers, body, account, token_account_id, is_stream);
    let ghost extra = more@;
    list.append(&mut more);
    assert(pairs(list@) =~= pairs(before) + pairs(extra));
    let payload = if body.len() > 0 {
        Some(slice_to_vec(body))
    } else {
        None
    };
    Ok(UpstreamRequest { method: method.to_owned(), url, headers: list, body: payload })
}

/// The request to the upstream that stands for a request of a client. `token_account_id` is
/// the account id in the access token.
pub fn send_upstream_request(
    method: &str,
    target: &str,
    headers: &Table<String>,
    body: &[u8],
    account: &CodexAccount,
    token_account_id: Option<String>,
) -> (call: Result<UpstreamRequest, String>)
    ensures
        call_view(call) == call_for(
            method@,
            target@,
            headers@,
            body@,
            account.tokens.access_token@,
            account::upstream_account_id(
                text::opt_text(account.account_id),
                text::opt_text(token_account_id),
            ),
            wants_stream(headers@, json::document_tree(body@)),
        ),
{
    let is_stream = is_stream_request(headers, body);
    build_upstream_request(method, target, headers, body, account, token_account_id, is_stream)
}

/// The key of a client stays with the gateway: no header that is passed on is private.
pub proof fn private_headers_stay(headers: Seq<(Seq<char>, Seq<char>)>, i: int)
    requires
        passed_on(headers) is Ok,
        0 <= i < passed_on(headers)->Ok_0.len(),
    ensures
        !is_private(passed_on(headers)->Ok_0[i].0),
        headers.contains(passed_on(headers)->Ok_0[i]),
    decreases headers.len(),
{
    let shorter = headers.drop_last();
    let before = passed_on(shorter)->Ok_0;
    if i < before.len() {
        private_headers_stay(shorter, i);
        let k = choose|k: int| 0 <= k < shorter.len() && shorter[k] == before[i];
        assert(headers[k] == before[i]);
    } else {
        assert(headers[headers.len() - 1] == headers.last());
    }
}

/// The upstream is told the token of the account and no other authorization.
pub proof fn upstream_gets_account_token(
    method: Seq<char>,
    target: Seq<char>,
    headers: Seq<(Seq<char>, Seq<char>)>,
    body: Seq<u8>,
    token: Seq<char>,
    upstream_account_id: Option<Seq<char>>,
    is_stream: bool,
    i: int,
)
    requires
        call_for(method, target, headers, body, token, upstream_account_id, is_stream) is Ok,
        0 <= i < call_for(
            method,
            target,
            headers,
            body,
            token,
            upstream_account_id,
            is_stream,
        )->Ok_0.headers.len(),
    ensures
        ({
            let sent = call_for(
                method,
                target,
                headers,
                body,
                token,
                upstream_account_id,
                is_stream,
            )->Ok_0.headers;
            &&& sent[i].0 == "authorization"@ ==> sent[i].1 == "Bearer "@ + text::trimmed(token)
            &&& sent.contains(("authorization"@, "Bearer "@ + text::trimmed(token)))
            &&& sent[i].0 != "x-api-key"@
        }),
{
    reveal_strlit("authorization");
    reveal_strlit("x-api-key");
    reveal_strlit("user-agent");
    reveal_strlit("Originator");
    reveal_strlit("ChatGPT-Account-Id");
    reveal_strlit("accept");
    reveal_strlit("Connection");
    reveal_strlit("content-type");
    let before = passed_on(headers)->Ok_0;
    let more = added(headers, body, token, upstream_account_id, is_stream);
    let sent = before + more;
    let own = ("authorization"@, "Bearer "@ + text::trimmed(token));
    assert(more[0] == own);
    assert(sent[before.len() as int] == own);
    if i < before.len() {
        private_headers_stay(headers, i);
    } else {
        assert(sent[i] == more[i - before.len()]);
        assert("user-agent"@.len() == 10 && "Originator"@.len() == 10 && "accept"@.len() == 6
            && "Connection"@.len() == 10 && "content-type"@.len() == 12
            && "ChatGPT-Account-Id"@.len() == 18 && "authorization"@.len() == 13
            && "x-api-key"@.len() == 9);
    }
}

// ---------------------------------------------------------------------------------------
// Laws of what requests and refusals say
// ---------------------------------------------------------------------------------------

/// `text` begins with `part`.
pub open spec fn begins_with(s: Seq<char>, part: Seq<char>) -> bool {
    part.len() <= s.len() && s.take(part.len() as int) == part
}

/// The key of a client is what stands behind `Bearer` in its authorization, without the white
/// space around it, or else its `x-api-key`. Without either it has none.
pub proof fn keys_stand_in_two_headers(
    headers: Seq<(Seq<char>, Seq<char>)>,
    value: Seq<char>,
    token: Seq<char>,
    other: Seq<char>,
)
    ensures
        table::lookup(headers, "authorization"@) == Some(value) && (text::trimmed(value)
            == "Bearer "@ + token || text::trimmed(value) == "bearer "@ + token) && text::trimmed(
            token,
        ).len() > 0 ==> client_key(headers) == Some(text::trimmed(token)),
        (table::lookup(headers, "authorization"@) is None || (table::lookup(
            headers,
            "authorization"@,
        ) == Some(value) && !begins_with(text::trimmed(value), "Bearer "@) && !begins_with(
            text::trimmed(value),
            "bearer "@,
        ))) ==> {
            &&& table::lookup(headers, "x-api-key"@) is None ==> client_key(headers) is None
            &&& table::lookup(headers, "x-api-key"@) == Some(other) && text::trimmed(other).len()
                > 0 ==> client_key(headers) == Some(text::trimmed(other))
            &&& table::lookup(headers, "x-api-key"@) == Some(other) && text::trimmed(other).len()
                == 0 ==> client_key(headers) is None
        },
{
    reveal_strlit("Bearer ");
    reveal_strlit("bearer ");
    let inner = text::trimmed(value);
    if inner == "Bearer "@ + token {
        assert(inner.subrange(0, 7) =~= "Bearer "@);
        assert(inner.skip(7) =~= token);
    }
    if inner == "bearer "@ + token {
        assert(inner.subrange(0, 7) =~= "bearer "@);
        assert(inner.skip(7) =~= token);
        if text::has_prefix(inner, "Bearer "@) {
            assert(inner.subrange(0, 7)[0] == inner[0]);
        }
    }
    if inner.len() >= 7 {
        assert(inner.subrange(0, 7) =~= inner.take(7));
    }
}

/// A request is for the model that its body names, in lower case and without the white space
/// around it, and goes on with the response that its body names, if that is not blank.
pub proof fn bodies_name_model_and_response(body: Option<JsonTree>, name: Seq<char>)
    ensures
        json::child_of(body, "model"@) == Some(JsonTree::Text(name)) ==> hint_in(body).model_key
            == text::lower(text::trimmed(name)),
        !(json::child_of(body, "model"@) matches Some(JsonTree::Text(_))) ==> hint_in(
            body,
        ).model_key.len() == 0,
        json::child_of(body, "previous_response_id"@) == Some(JsonTree::Text(name))
            && text::trimmed(name).len() > 0 ==> hint_in(body).previous_response_id == Some(
            text::trimmed(name),
        ),
        json::child_of(body, "previous_response_id"@) == Some(JsonTree::Text(name))
            && text::trimmed(name).len() == 0 ==> hint_in(body).previous_response_id is None,
        !(json::child_of(body, "previous_response_id"@) matches Some(JsonTree::Text(_)))
            ==> hint_in(body).previous_response_id is None,
{
}

/// `part` stands at `at` in `s`, in any case.
pub open spec fn mentions_at(s: Seq<char>, part: Seq<char>, at: int) -> bool {
    0 <= at && at + part.len() <= s.len() && text::lower(s.subrange(at, at + part.len())) == part
}

proof fn lemma_mentions(s: Seq<char>, part: Seq<char>)
    ensures
        text::has_part(text::lower(s), part) <==> exists|at: int| mentions_at(s, part, at),
{
    let lower = text::lower(s);
    if text::has_part(lower, part) {
        let i = choose|i: int| text::occurs_at(lower, part, i);
        assert(text::lower(s.subrange(i, i + part.len())) =~= lower.subrange(i, i + part.len()));
        assert(mentions_at(s, part, i));
    }
    if exists|at: int| mentions_at(s, part, at) {
        let i = choose|at: int| mentions_at(s, part, at);
        assert(lower.subrange(i, i + part.len()) =~= text::lower(s.subrange(i, i + part.len())));
        assert(text::occurs_at(lower, part, i));
    }
}

/// A request wants its answer as a stream exactly if its body says `"stream": true` or it
/// accepts `text/event-stream`, in any case.
pub proof fn streams_are_asked_for(
    headers: Seq<(Seq<char>, Seq<char>)>,
    body: Option<JsonTree>,
    accept: Seq<char>,
)
    ensures
        json::child_of(body, "stream"@) == Some(JsonTree::Bool(true)) ==> wants_stream(
            headers,
            body,
        ),
        json::child_of(body, "stream"@) != Some(JsonTree::Bool(true)) ==> {
            &&& table::lookup(headers, "accept"@) is None ==> !wants_stream(headers, body)
            &&& table::lookup(headers, "accept"@) == Some(accept) ==> (wants_stream(headers, body)
                <==> exists|at: int| mentions_at(accept, "text/event-stream"@, at))
        },
{
    lemma_mentions(accept, "text/event-stream"@);
}

/// The places at which a refusal may say its reason, in the order in which they count.
pub open spec fn reason_places(document: JsonTree) -> Seq<Option<JsonTree>> {
    seq![
        json::child_of(document.child("error"@), "message"@),
        json::child_of(document.child("detail"@), "message"@),
        document.child("message"@),
        document.child("error"@),
    ]
}

/// A text that is not blank stands there.
pub open spec fn says_something(place: Option<JsonTree>) -> bool {
    place is Some && place->0 is Text && text::trimmed(place->0->Text_0).len() > 0
}

/// A refusal says its reason at the first place that holds a text that is not blank, and none
/// without one.
pub proof fn first_reason_counts(document: JsonTree, k: int)
    requires
        0 <= k <= 4,
        forall|j: int| 0 <= j < k ==> !says_something(#[trigger] reason_places(document)[j]),
    ensures
        k < 4 && says_something(reason_places(document)[k]) ==> message_in(document) == Some(
            text::trimmed(reason_places(document)[k]->0->Text_0),
        ),
        k == 4 ==> message_in(document) is None,
{
    let places = reason_places(document);
    assert(k > 0 ==> !says_something(places[0]));
    assert(k > 1 ==> !says_something(places[1]));
    assert(k > 2 ==> !says_something(places[2]));
    assert(k > 3 ==> !says_something(places[3]));
}

/// What a refusal says that speaks of a limit.
pub open spec fn limit_phrases() -> Seq<Seq<char>> {
    seq![
        "usage_limit_reached"@,
        "limit reached"@,
        "insufficient_quota"@,
        "quota exceeded"@,
        "selected model is at capacity"@,
        "model is at capacity"@,
    ]
}

/// After a refusal for lack of authorization another account may do better, after one that
/// speaks of a limit too, but after no other.
pub proof fn limits_are_worth_another_account(status: u16, body: Seq<char>, k: int, at: int)
    requires
        0 <= k < 6,
    ensures
        status == 401 ==> worth_another_account(status, body),
        status != 401 && status != 403 && status != 429 ==> !worth_another_account(status, body),
        (status == 403 || status == 429) && mentions_at(body, limit_phrases()[k], at)
            ==> worth_another_account(status, body),
        status != 401 && worth_another_account(status, body) ==> exists|i: int, j: int|
            0 <= i < 6 && #[trigger] mentions_at(body, limit_phrases()[i], j),
{
    let phrases = limit_phrases();
    lemma_mentions(body, phrases[0]);
    lemma_mentions(body, phrases[1]);
    lemma_mentions(body, phrases[2]);
    lemma_mentions(body, phrases[3]);
    lemma_mentions(body, phrases[4]);
    lemma_mentions(body, phrases[5]);
    if mentions_at(body, phrases[k], at) {
        assert(k == 0 || k == 1 || k == 2 || k == 3 || k == 4 || k == 5);
    }
    if speaks_of_limits(body) {
        let i: int = if text::has_part(text::lower(body), phrases[0]) {
            0
        } else if text::has_part(text::lower(body), phrases[1]) {
            1
        } else if text::has_part(text::lower(body), phrases[2]) {
            2
        } else if text::has_part(text::lower(body), phrases[3]) {
            3
        } else if text::has_part(text::lower(body), phrases[4]) {
            4
        } else {
            5
        };
        let j = choose|j: int| mentions_at(body, phrases[i], j);
        assert(mentions_at(body, phrases[i], j));
    }
}

/// A refusal for a used-up quota says to wait until the point in time that it names, if that is
/// still to come, or else for the seconds that it names, if any. No other refusal says so.
pub proof fn quotas_name_their_wait(
    document: JsonTree,
    error: JsonTree,
    kind: Seq<char>,
    at: int,
    seconds: int,
    now_seconds: i64,
)
    requires
        document.child("error"@) == Some(error),
        now_seconds >= 0,
    ensures
        error.child("type"@) == Some(JsonTree::Text(kind)) && text::trimmed(kind)
            == "usage_limit_reached"@ ==> {
            &&& error.child("resets_at"@) == Some(JsonTree::Integer(at)) && now_seconds < at
                <= i64::MAX ==> wait_in(document, now_seconds) == Some((at - now_seconds) * 1000)
            &&& (error.child("resets_at"@) is None || (error.child("resets_at"@) == Some(
                JsonTree::Integer(at),
            ) && at <= now_seconds)) ==> {
                &&& error.child("resets_in_seconds"@) == Some(JsonTree::Integer(seconds)) && 0
                    < seconds <= i64::MAX ==> wait_in(document, now_seconds) == Some(
                    seconds * 1000,
                )
                &&& error.child("resets_in_seconds"@) is None ==> wait_in(
                    document,
                    now_seconds,
                ) is None
                &&& error.child("resets_in_seconds"@) == Some(JsonTree::Integer(seconds))
                    && seconds <= 0 ==> wait_in(document, now_seconds) is None
            }
        },
        error.child("type"@) == Some(JsonTree::Text(kind)) && text::trimmed(kind)
            != "usage_limit_reached"@ ==> wait_in(document, now_seconds) is None,
        error.child("type"@) is None ==> wait_in(document, now_seconds) is None,
{
    reveal_strlit("usage_limit_reached");
}

/// Only a refusal for too many requests says how long to wait.
pub proof fn only_too_many_requests_wait(status: u16, body: Seq<char>, now_seconds: i64)
    ensures
        status != 429 ==> refusal_wait(status, body, now_seconds) is None,
        json::document_tree(encode_utf8(body)) is None ==> refusal_wait(
            status,
            body,
            now_seconds,
        ) is None,
        status == 429 && text::trimmed(body).len() > 0 && json::document_tree(
            encode_utf8(body),
        ) is Some ==> refusal_wait(status, body, now_seconds) == wait_in(
            json::document_tree(encode_utf8(body))->0,
            now_seconds,
        ),
{
}

/// A waiting time is told in whole seconds, at least one, and the client is told it, and its
/// model if it named one.
pub proof fn waits_are_told_in_seconds(wait: RetryDelay, model_key: Seq<char>)
    ensures
        wait.millis >= 1000 ==> wait_text(wait) == text::decimal((wait.millis / 1000) as nat)
            + " 秒"@,
        wait.millis < 1000 ==> wait_text(wait) == text::decimal(1) + " 秒"@,
        text::has_part(cooling_message(model_key, wait), wait_text(wait)),
        text::trimmed(model_key).len() > 0 ==> text::has_part(
            cooling_message(model_key, wait),
            model_key,
        ),
{
    let words = wait_text(wait);
    let said = cooling_message(model_key, wait);
    if text::trimmed(model_key).len() == 0 {
        let head = "当前 API 服务账号均在冷却中，请 "@;
        assert(said.subrange(head.len() as int, head.len() as int + words.len()) =~= words);
        assert(text::occurs_at(said, words, head.len() as int));
    } else {
        let first = "模型 "@;
        let head = first + model_key + " 的可用账号均在冷却中，请 "@;
        assert(said.subrange(head.len() as int, head.len() as int + words.len()) =~= words);
        assert(text::occurs_at(said, words, head.len() as int));
        assert(said.subrange(first.len() as int, first.len() as int + model_key.len()) =~= model_key);
        assert(text::occurs_at(said, model_key, first.len() as int));
    }
}

/// A refusal is told with its status, and with the reason that it says or else with its text;
/// one that says nothing is told with its status alone.
pub proof fn refusals_are_summarized(status: u16, message: Seq<char>, body: Seq<char>)
    ensures
        refusal_summary(status, Some(message), body) == text::decimal(status as nat) + ": "@
            + message,
        text::trimmed(body).len() > 0 ==> refusal_summary(status, None, body) == text::decimal(
            status as nat,
        ) + ": "@ + text::trimmed(body),
        text::trimmed(body).len() == 0 ==> refusal_summary(status, None, body) == text::decimal(
            status as nat,
        ) + ": 上游接口返回状态 "@ + text::decimal(status as nat),
        begins_with(refusal_summary(status, None, body), text::decimal(status as nat)),
{
    reveal_strlit(": ");
    reveal_strlit("上游接口返回状态 ");
    reveal_strlit(": 上游接口返回状态 ");
    assert(": "@ + "上游接口返回状态 "@ =~= ": 上游接口返回状态 "@);
    let told = text::decimal(status as nat);
    assert(told + ": "@ + ("上游接口返回状态 "@ + told) =~= told + (": "@ + "上游接口返回状态 "@) + told);
    let said = refusal_summary(status, None, body);
    let number = text::decimal(status as nat);
    assert(said.take(number.len() as int) =~= number);
}

/// The names of headers that stay with the gateway.
pub open spec fn private_names() -> Seq<Seq<char>> {
    seq![
        "authorization"@,
        "host"@,
        "content-length"@,
        "connection"@,
        "accept-encoding"@,
        "x-api-key"@,
    ]
}

proof fn lemma_private(name: Seq<char>)
    ensures
        is_private(name) == private_names().contains(name),
{
    let names = private_names();
    assert(names[0] == "authorization"@ && names[1] == "host"@ && names[2] == "content-length"@
        && names[3] == "connection"@ && names[4] == "accept-encoding"@ && names[5]
        == "x-api-key"@);
}

/// A header that is passed on is passed on unchanged; every header is, but for those that stay
/// with the gateway. They can be passed on exactly if nothing is wrong with any of them.
pub proof fn headers_are_passed_on(
    headers: Seq<(Seq<char>, Seq<char>)>,
    header: (Seq<char>, Seq<char>),
)
    ensures
        passed_on(headers) matches Ok(list) ==> list.contains(header) == (headers.contains(header)
            && !private_names().contains(header.0)),
        passed_on(headers) is Err && headers.contains(header) ==> exists|i: int|
            0 <= i < headers.len() && !private_names().contains((#[trigger] headers[i]).0) && (
            header_name_fault(headers[i].0) is Some || header_value_fault(headers[i].1) is Some),
        passed_on(headers) is Ok && headers.contains(header) && !private_names().contains(header.0)
            ==> header_name_fault(header.0) is None && header_value_fault(header.1) is None,
    decreases headers.len(),
{
    if headers.len() > 0 {
        let shorter = headers.drop_last();
        let last = headers.last();
        lemma_private(last.0);
        headers_are_passed_on(shorter, header);
        assert(headers[headers.len() - 1] == last);
        if headers.contains(header) {
            let k = choose|k: int| 0 <= k < headers.len() && headers[k] == header;
            if k < shorter.len() {
                assert(shorter[k] == header);
            } else {
                assert(header == last);
            }
        }
        match passed_on(shorter) {
            Err(_) => {
                if headers.contains(header) {
                    lemma_fault_is_found(shorter);
                    let i = choose|i: int|
                        0 <= i < shorter.len() && !private_names().contains(
                            (#[trigger] shorter[i]).0,
                        ) && (header_name_fault(shorter[i].0) is Some || header_value_fault(
                            shorter[i].1,
                        ) is Some);
                    assert(headers[i] == shorter[i]);
                }
            },
            Ok(before) => {
                if shorter.contains(header) {
                    let k = choose|k: int| 0 <= k < shorter.len() && shorter[k] == header;
                    assert(headers[k] == header);
                }
                if let Ok(list) = passed_on(headers) {
                    if before.contains(header) {
                        let k = choose|k: int| 0 <= k < before.len() && before[k] == header;
                        assert(list[k] == header);
                    }
                    if list.contains(header) && !before.contains(header) {
                        let k = choose|k: int| 0 <= k < list.len() && list[k] == header;
                        if k < before.len() {
                            assert(before[k] == header);
                        }
                        assert(header == last);
                    }
                    if header == last && !is_private(last.0) {
                        assert(list[before.len() as int] == header);
                    }
                }
            },
        }
    }
}

proof fn lemma_fault_is_found(headers: Seq<(Seq<char>, Seq<char>)>)
    requires
        passed_on(headers) is Err,
    ensures
        exists|i: int|
            0 <= i < headers.len() && !private_names().contains((#[trigger] headers[i]).0) && (
            header_name_fault(headers[i].0) is Some || header_value_fault(headers[i].1) is Some),
    decreases headers.len(),
{
    if headers.len() > 0 {
        let shorter = headers.drop_last();
        lemma_private(headers.last().0);
        assert(headers[headers.len() - 1] == headers.last());
        if passed_on(shorter) is Err {
            lemma_fault_is_found(shorter);
            let i = choose|i: int|
                0 <= i < shorter.len() && !private_names().contains((#[trigger] shorter[i]).0) && (
                header_name_fault(shorter[i].0) is Some || header_value_fault(
                    shorter[i].1,
                ) is Some);
            assert(headers[i] == shorter[i]);
        }
    }
}

/// The upstream is asked with the method and the body of the client, for the path below its
/// base address.
pub proof fn requests_are_passed_on(
    method: Seq<char>,
    target: Seq<char>,
    headers: Seq<(Seq<char>, Seq<char>)>,
    body: Seq<u8>,
    token: Seq<char>,
    upstream_account_id: Option<Seq<char>>,
    is_stream: bool,
    header: (Seq<char>, Seq<char>),
)
    ensures
        call_for(method, target, headers, body, token, upstream_account_id, is_stream) matches Ok(
            call,
        ) ==> {
            &&& call.method == method
            &&& call.url == "https://chatgpt.com/backend-api/codex"@ + target
            &&& body.len() > 0 ==> call.body == Some(body)
            &&& body.len() == 0 ==> call.body is None
            &&& headers.contains(header) && !private_names().contains(header.0)
                ==> call.headers.contains(header)
        },
        method_fault(method) is Some ==> call_for(
            method,
            target,
            headers,
            body,
            token,
            upstream_account_id,
            is_stream,
        ) is Err,
        method_fault(method) is None && passed_on(headers) is Ok ==> call_for(
            method,
            target,
            headers,
            body,
            token,
            upstream_account_id,
            is_stream,
        ) is Ok,
{
    headers_are_passed_on(headers, header);
    if let Ok(list) = passed_on(headers) {
        let more = added(headers, body, token, upstream_account_id, is_stream);
        if list.contains(header) {
            let k = choose|k: int| 0 <= k < list.len() && list[k] == header;
            assert((list + more)[k] == header);
        }
    }
}

/// What the gateway adds where the client says nothing: who asks, the account, which kind of
/// answer is wanted, and which kind of body comes.
pub proof fn silence_is_filled_in(
    headers: Seq<(Seq<char>, Seq<char>)>,
    body: Seq<u8>,
    token: Seq<char>,
    id: Seq<char>,
    is_stream: bool,
    account: Option<Seq<char>>,
)
    ensures
        ({
            let more = added(headers, body, token, account, is_stream);
            let answer = if is_stream {
                "text/event-stream"@
            } else {
                "application/json"@
            };
            &&& more.contains(("authorization"@, "Bearer "@ + text::trimmed(token)))
            &&& account == Some(id) ==> more.contains(("ChatGPT-Account-Id"@, id))
            &&& table::lookup(headers, "user-agent"@) is None ==> more.contains(
                ("user-agent"@, DEFAULT_CODEX_USER_AGENT@),
            )
            &&& table::lookup(headers, "originator"@) is None ==> more.contains(
                ("Originator"@, "codex-tui"@),
            )
            &&& table::lookup(headers, "accept"@) is None ==> more.contains(("accept"@, answer))
            &&& table::lookup(headers, "content-type"@) is None && body.len() > 0
                ==> more.contains(("content-type"@, "application/json"@))
        }),
{
    let own = seq![("authorization"@, "Bearer "@ + text::trimmed(token))];
    let agent = header_if(
        table::lookup(headers, "user-agent"@) is None,
        "user-agent"@,
        DEFAULT_CODEX_USER_AGENT@,
    );
    let origin = header_if(
        table::lookup(headers, "originator"@) is None,
        "Originator"@,
        DEFAULT_CODEX_ORIGINATOR@,
    );
    let told = header_if(account is Some, "ChatGPT-Account-Id"@, account->0);
    let accept = header_if(
        table::lookup(headers, "accept"@) is None,
        "accept"@,
        if is_stream {
            "text/event-stream"@
        } else {
            "application/json"@
        },
    );
    let keep = seq![("Connection"@, "Keep-Alive"@)];
    let kind = header_if(
        table::lookup(headers, "content-type"@) is None && body.len() > 0,
        "content-type"@,
        "application/json"@,
    );
    let more = added(headers, body, token, account, is_stream);
    let n1 = own.len();
    let n2 = n1 + agent.len();
    let n3 = n2 + origin.len();
    let n4 = n3 + told.len();
    let n5 = n4 + accept.len();
    let n6 = n5 + keep.len();
    assert(more =~= own + agent + origin + told + accept + keep + kind);
    assert(more[0] == own[0]);
    assert(agent.len() > 0 ==> more[n1 as int] == agent[0]);
    assert(origin.len() > 0 ==> more[n2 as int] == origin[0]);
    assert(told.len() > 0 ==> more[n3 as int] == told[0]);
    assert(accept.len() > 0 ==> more[n4 as int] == accept[0]);
    assert(kind.len() > 0 ==> more[n6 as int] == kind[0]);
}

/// Of a header that the client sends itself, the gateway adds no second one: the client's
/// agent, originator, kind of answer and kind of body stand.
pub proof fn clients_speak_for_themselves(
    headers: Seq<(Seq<char>, Seq<char>)>,
    body: Seq<u8>,
    token: Seq<char>,
    is_stream: bool,
    account: Option<Seq<char>>,
)
    ensures
        table::lookup(headers, "user-agent"@) is Some && table::lookup(headers, "originator"@) is Some
            && table::lookup(headers, "accept"@) is Some && table::lookup(
            headers,
            "content-type"@,
        ) is Some && account is None ==> added(headers, body, token, account, is_stream) == seq![
            ("authorization"@, "Bearer "@ + text::trimmed(token)),
            ("Connection"@, "Keep-Alive"@),
        ],
{
    if table::lookup(headers, "user-agent"@) is Some && table::lookup(
        headers,
        "originator"@,
    ) is Some && table::lookup(headers, "accept"@) is Some && table::lookup(
        headers,
        "content-type"@,
    ) is Some && account is None {
        assert(added(headers, body, token, account, is_stream) =~= seq![
            ("authorization"@, "Bearer "@ + text::trimmed(token)),
            ("Connection"@, "Keep-Alive"@),
        ]);
    }
}

} // verus!
