//! Responses as they leave: what the gateway answers itself, and what it passes on from the
//! upstream.

use vstd::prelude::*;
use vstd::slice::*;
use vstd::string::*;
use vstd::utf8::*;
use crate::capture;
use crate::capture::{Gathered, Learned, ResponseCapture, ResponseUsageCollector};
use crate::json;
use crate::json::{JsonTree, JsonValue};
use crate::text;

verus! {

/// The request headers that a browser may send.
pub const CORS_ALLOW_HEADERS: &'static str = "Authorization, Content-Type, OpenAI-Beta, X-API-Key, X-Codex-Beta-Features, X-Client-Request-Id, Originator, Session_id, ChatGPT-Account-Id";

/// What stands at the end of every header: that the connection ends with the response, and
/// what a browser may send.
pub open spec fn common_headers() -> Seq<char> {
    "\r\nConnection: close\r\nAccess-Control-Allow-Origin: *\r\nAccess-Control-Allow-Methods: GET, POST, OPTIONS\r\nAccess-Control-Allow-Headers: "@
        + CORS_ALLOW_HEADERS@ + "\r\n"@
}

fn push_common_headers(head: &mut String)
    ensures
        final(head)@ == old(head)@ + common_headers(),
{
    let ghost before = head@;
    head.append(
        "\r\nConnection: close\r\nAccess-Control-Allow-Origin: *\r\nAccess-Control-Allow-Methods: GET, POST, OPTIONS\r\nAccess-Control-Allow-Headers: ",
    );
    head.append(CORS_ALLOW_HEADERS);
    head.append("\r\n");
    assert(head@ =~= before + common_headers());
}

fn to_bytes(content: &str) -> (bytes: Vec<u8>)
    ensures
        bytes@ == encode_utf8(content@),
{
    slice_to_vec(content.as_bytes())
}

/// The line with which a response begins.
pub open spec fn status_line(status: u16, reason: Seq<char>) -> Seq<char> {
    "HTTP/1.1 "@ + text::decimal(status as nat) + " "@ + reason
}

fn begin_status_line(status: u16, reason: &str) -> (line: String)
    ensures
        line@ == status_line(status, reason@),
{
    let mut line = "HTTP/1.1 ".to_owned();
    line.append(text::decimal_text(status as u128).as_str());
    line.append(" ");
    line.append(reason);
    line
}

// ---------------------------------------------------------------------------------------
// Responses of the gateway itself
// ---------------------------------------------------------------------------------------

/// The bytes of a JSON document; `{}` if it cannot be written.
pub open spec fn body_bytes(body: JsonTree) -> Seq<u8> {
    match json::document_bytes(body) {
        Some(bytes) => bytes,
        None => seq![123u8, 125u8],
    }
}

/// The header of a response with a JSON document of `length` bytes.
pub open spec fn json_head(status: u16, reason: Seq<char>, length: nat) -> Seq<char> {
    status_line(status, reason)
        + "\r\nContent-Type: application/json; charset=utf-8\r\nContent-Length: "@
        + text::decimal(length) + common_headers() + "\r\n"@
}

/// A response with a JSON document.
pub open spec fn json_reply(status: u16, reason: Seq<char>, body: JsonTree) -> Seq<u8> {
    encode_utf8(json_head(status, reason, body_bytes(body).len())) + body_bytes(body)
}

/// A response with a JSON document.
pub fn json_response(status: u16, status_text: &str, body: &JsonValue) -> (response: Vec<u8>)
    requires
        body.integral(),
    ensures
        response@ == json_reply(status, status_text@, body@),
        body@.nested_within(json::MAX_NESTING as nat) ==> json::document_tree(body_bytes(body@))
            == Some(body@),
{
    let bytes = match json::json_bytes(body) {
        Some(bytes) => bytes,
        None => {
            let mut empty: Vec<u8> = Vec::new();
            empty.push(123);
            empty.push(125);
            assert(empty@ =~= seq![123u8, 125u8]);
            empty
        },
    };
    let mut head = begin_status_line(status, status_text);
    head.append("\r\nContent-Type: application/json; charset=utf-8\r\nContent-Length: ");
    head.append(text::decimal_text(bytes.len() as u128).as_str());
    push_common_headers(&mut head);
    head.append("\r\n");
    let mut response = to_bytes(head.as_str());
    response.extend_from_slice(bytes.as_slice());
    assert(response@ =~= encode_utf8(head@) + bytes@);
    response
}

/// The JSON document that says what went wrong.
pub open spec fn error_tree(message: Seq<char>) -> JsonTree {
    JsonTree::Object(map!["error"@ => JsonTree::Text(message)])
}

/// The document that says what went wrong can be read out of the body of the response.
pub open spec fn error_is_readable(message: Seq<char>) -> bool {
    json::document_tree(body_bytes(error_tree(message))) == Some(error_tree(message))
}

/// A response that says what went wrong, in a document that can be read out of its body.
pub fn error_response(status: u16, status_text: &str, message: &str) -> (response: Vec<u8>)
    ensures
        response@ == json_reply(status, status_text@, error_tree(message@)),
        error_is_readable(message@),
{
    let mut entries: Vec<(String, JsonValue)> = Vec::new();
    entries.push(("error".to_owned(), JsonValue::Text(message.to_owned())));
    proof {
        json::object_says_its_members(entries);
        let m = JsonValue::Object(entries)@->Object_0;
        assert(entries@[0].0@ == "error"@);
        assert(m =~= map!["error"@ => JsonTree::Text(message@)]);
        reveal_with_fuel(JsonValue::integral, 2);
        reveal_with_fuel(JsonTree::nested_within, 2);
    }
    let body = JsonValue::Object(entries);
    json_response(status, status_text, &body)
}

/// The header of the answer to a browser that asks what it may send.
pub open spec fn options_head() -> Seq<char> {
    "HTTP/1.1 200 OK\r\nContent-Type: text/plain; charset=utf-8\r\nContent-Length: 0"@
        + common_headers() + "\r\n"@
}

/// The answer to a browser that asks what it may send.
pub fn options_response() -> (response: Vec<u8>)
    ensures
        response@ == encode_utf8(options_head()),
{
    let mut head =
        "HTTP/1.1 200 OK\r\nContent-Type: text/plain; charset=utf-8\r\nContent-Length: 0".to_owned();
    push_common_headers(&mut head);
    head.append("\r\n");
    to_bytes(head.as_str())
}

// ---------------------------------------------------------------------------------------
// Chunks
// ---------------------------------------------------------------------------------------

/// What stands before a chunk of `n` bytes: its length in hexadecimal and a line end.
pub open spec fn chunk_prefix(n: nat) -> Seq<u8> {
    encode_utf8(text::numeral(n, 16) + "\r\n"@)
}

/// A line end.
pub open spec fn line_end() -> Seq<u8> {
    seq![13u8, 10u8]
}

/// A chunk with what stands before and behind it. Nothing is sent for an empty chunk.
pub open spec fn framed(chunk: Seq<u8>) -> Seq<u8> {
    if chunk.len() == 0 {
        Seq::empty()
    } else {
        chunk_prefix(chunk.len()) + chunk + line_end()
    }
}

/// What says that no more chunks come.
pub open spec fn last_chunk() -> Seq<u8> {
    seq![48u8, 13u8, 10u8, 13u8, 10u8]
}

/// Chunks as they are sent.
pub open spec fn framed_all(chunks: Seq<Seq<u8>>) -> Seq<u8>
    decreases chunks.len(),
{
    if chunks.len() == 0 {
        last_chunk()
    } else {
        framed(chunks[0]) + framed_all(chunks.drop_first())
    }
}

// ---------------------------------------------------------------------------------------
// Responses of the upstream
// ---------------------------------------------------------------------------------------

/// The reason phrase that `http::StatusCode::canonical_reason` gives for a status.
pub uninterp spec fn reason_phrase(status: u16) -> Option<Seq<char>>;

/// Calls `http::StatusCode::canonical_reason`: the standard reason phrase of a status, if it
/// has one. A number that is no status has none.
#[verifier::external_body]
fn canonical_reason(status: u16) -> (reason: Option<&'static str>)
    ensures
        text::opt_str(reason) == reason_phrase(status),
{
    reqwest::StatusCode::from_u16(status).ok().and_then(|s| s.canonical_reason())
}

/// What the gateway reads in the header of a response of the upstream.
#[derive(Debug)]
pub struct UpstreamHead {
    pub status: u16,
    pub content_type: Option<String>,
    pub request_id: Option<String>,
    pub processing_ms: Option<String>,
}

/// What the gateway reads in the header of a response of the upstream, as a mathematical
/// value.
pub struct Head {
    pub status: u16,
    pub content_type: Option<Seq<char>>,
    pub request_id: Option<Seq<char>>,
    pub processing_ms: Option<Seq<char>>,
}

impl View for UpstreamHead {
    type V = Head;

    open spec fn view(&self) -> Head {
        Head {
            status: self.status,
            content_type: text::opt_text(self.content_type),
            request_id: text::opt_text(self.request_id),
            processing_ms: text::opt_text(self.processing_ms),
        }
    }
}

/// The content type of a response, JSON where it says nothing.
pub open spec fn content_type_of(head: Head) -> Seq<char> {
    match head.content_type {
        Some(t) => t,
        None => "application/json; charset=utf-8"@,
    }
}

/// A header line that is there only if it has a value.
pub open spec fn optional_line(name: Seq<char>, value: Option<Seq<char>>) -> Seq<char> {
    match value {
        Some(v) => name + ": "@ + v + "\r\n"@,
        None => Seq::empty(),
    }
}

/// The header that is passed on, under a given reason phrase.
pub open spec fn relay_head(head: Head, reason: Option<Seq<char>>) -> Seq<char> {
    status_line(
        head.status,
        match reason {
            Some(r) => r,
            None => "OK"@,
        },
    ) + "\r\nContent-Type: "@ + content_type_of(head) + "\r\nTransfer-Encoding: chunked"@
        + common_headers() + optional_line("x-request-id"@, head.request_id) + optional_line(
        "openai-processing-ms"@,
        head.processing_ms,
    ) + "\r\n"@
}

fn push_optional_line(head: &mut String, name: &str, value: &Option<String>)
    ensures
        final(head)@ == old(head)@ + optional_line(name@, text::opt_text(*value)),
{
    let ghost before = head@;
    match value {
        Some(v) => {
            head.append(name);
            head.append(": ");
            head.append(v.as_str());
            head.append("\r\n");
        },
        None => {},
    }
    assert(head@ =~= before + optional_line(name@, text::opt_text(*value)));
}

/// The header that is passed on, under a given reason phrase.
pub fn build_relay_head(head: &UpstreamHead, reason: Option<&str>) -> (bytes: Vec<u8>)
    ensures
        bytes@ == encode_utf8(relay_head(head@, text::opt_str(reason))),
{
    let reason = match reason {
        Some(r) => r,
        None => "OK",
    };
    let content_type = match &head.content_type {
        Some(t) => t.as_str(),
        None => "application/json; charset=utf-8",
    };
    let mut out = begin_status_line(head.status, reason);
    out.append("\r\nContent-Type: ");
    out.append(content_type);
    out.append("\r\nTransfer-Encoding: chunked");
    push_common_headers(&mut out);
    push_optional_line(&mut out, "x-request-id", &head.request_id);
    push_optional_line(&mut out, "openai-processing-ms", &head.processing_ms);
    out.append("\r\n");
    to_bytes(out.as_str())
}

/// Passes a response of the upstream on, chunk by chunk, and gathers what it says about its
/// usage.
pub struct ResponseRelay {
    collector: ResponseUsageCollector,
}

impl View for ResponseRelay {
    type V = Gathered;

    closed spec fn view(&self) -> Gathered {
        self.collector@
    }
}

impl ResponseRelay {
    /// Begins with the header. Gives the bytes that are sent for it.
    pub fn begin(head: &UpstreamHead, request_is_stream: bool) -> (begun: (Self, Vec<u8>))
        ensures
            begun.0@ == capture::nothing_gathered(
                capture::is_streamed(content_type_of(head@), request_is_stream),
            ),
            begun.1@ == encode_utf8(relay_head(head@, reason_phrase(head.status))),
    {
        let content_type = match &head.content_type {
            Some(t) => t.as_str(),
            None => "application/json; charset=utf-8",
        };
        let is_stream = capture::should_treat_response_as_stream(content_type, request_is_stream);
        let bytes = build_relay_head(head, canonical_reason(head.status));
        (ResponseRelay { collector: ResponseUsageCollector::new(is_stream) }, bytes)
    }

    /// Takes in a chunk. Gives the bytes that are sent before it, the chunk and
    /// [`ResponseRelay::chunk_end`] following; nothing is sent for an empty chunk.
    pub fn chunk(&mut self, chunk: &[u8]) -> (prefix: Option<Vec<u8>>)
        ensures
            final(self)@ == capture::gather(old(self)@, chunk@),
            prefix is None <==> chunk@.len() == 0,
            prefix matches Some(bytes) ==> bytes@ == chunk_prefix(chunk@.len()),
    {
        self.collector.feed(chunk);
        if chunk.len() == 0 {
            return None;
        }
        let mut prefix = text::hex_text(chunk.len() as u128);
        prefix.append("\r\n");
        Some(to_bytes(prefix.as_str()))
    }

    /// The bytes that are sent behind a chunk.
    pub fn chunk_end() -> (bytes: Vec<u8>)
        ensures
            bytes@ == line_end(),
    {
        let mut bytes: Vec<u8> = Vec::new();
        bytes.push(13);
        bytes.push(10);
        assert(bytes@ =~= line_end());
        bytes
    }

    /// Ends the response. Gives the bytes that are sent at its end, and what it has said.
    pub fn finish(self) -> (ended: (Vec<u8>, ResponseCapture))
        ensures
            ended.0@ == last_chunk(),
            ended.1@ == capture::conclude(self@),
    {
        let mut bytes: Vec<u8> = Vec::new();
        bytes.push(48);
        bytes.push(13);
        bytes.push(10);
        bytes.push(13);
        bytes.push(10);
        assert(bytes@ =~= last_chunk());
        (bytes, self.collector.finish())
    }
}

// ---------------------------------------------------------------------------------------
// What a client reads
// ---------------------------------------------------------------------------------------

/// What a hexadecimal digit stands for.
pub open spec fn hex_digit_value(b: u8) -> nat {
    if b < 65 {
        (b - 48) as nat
    } else {
        (b - 55) as nat
    }
}

/// What hexadecimal digits stand for.
pub open spec fn hex_value(s: Seq<u8>) -> nat
    decreases s.len(),
{
    if s.len() == 0 {
        0
    } else {
        hex_value(s.drop_last()) * 16 + hex_digit_value(s.last())
    }
}

/// The place of the first carriage return; the length if there is none.
pub open spec fn first_return(s: Seq<u8>) -> int
    decreases s.len(),
{
    if s.len() == 0 || s[0] == 13 {
        0
    } else {
        1 + first_return(s.drop_first())
    }
}

/// The body that a client reads from chunks: each length line says how many bytes follow, and
/// an empty chunk ends the body.
pub open spec fn unframed(s: Seq<u8>) -> Option<Seq<u8>>
    decreases s.len(),
{
    let k = first_return(s);
    let n = hex_value(s.take(k));
    let end = k + 2 + n;
    if 0 <= k && end + 2 <= s.len() && s.subrange(k, k + 2) == line_end() && s.subrange(
        end,
        end + 2,
    ) == line_end() {
        if n == 0 {
            Some(Seq::empty())
        } else {
            match unframed(s.skip(end + 2)) {
                Some(rest) => Some(s.subrange(k + 2, end) + rest),
                None => None,
            }
        }
    } else {
        None
    }
}

proof fn lemma_digit(d: nat)
    requires
        d < 16,
    ensures
        ({
            let b = text::digit(d) as u8;
            &&& hex_digit_value(b) == d
            &&& b != 13
            &&& (text::digit(d) as u32) < 128
        }),
{
}

proof fn lemma_numeral(n: nat)
    ensures
        ({
            let s = text::numeral(n, 16);
            &&& s.len() > 0
            &&& is_ascii_chars(s)
            &&& hex_value(encode_utf8(s)) == n
            &&& forall|i: int| 0 <= i < encode_utf8(s).len() ==> encode_utf8(s)[i] != 13
        }),
    decreases n,
{
    let s = text::numeral(n, 16);
    if n < 16 {
        lemma_digit(n);
        assert(s =~= seq![text::digit(n)]);
        assert(is_ascii_chars(s));
        is_ascii_chars_encode_utf8(s);
        let b = encode_utf8(s);
        assert(b.drop_last() =~= Seq::empty());
        assert(s[0] as u8 == b[0]);
        assert(hex_value(b.drop_last()) == 0);
    } else {
        vstd::arithmetic::div_mod::lemma_div_decreases(n as int, 16);
        let high = text::numeral(n / 16, 16);
        let last = text::digit(n % 16);
        lemma_numeral(n / 16);
        lemma_digit(n % 16);
        assert(s =~= high.push(last));
        assert(is_ascii_chars(s));
        is_ascii_chars_encode_utf8(high);
        is_ascii_chars_encode_utf8(s);
        let b = encode_utf8(s);
        assert forall|i: int| 0 <= i < high.len() implies b[i] == encode_utf8(high)[i] by {
            assert(s[i] == high[i]);
            assert(s[i] as u8 == b[i]);
        }
        assert(b.drop_last() =~= encode_utf8(high));
        assert(s[s.len() - 1] as u8 == b[s.len() - 1]);
        assert(n == n / 16 * 16 + n % 16);
    }
}

proof fn lemma_first_return(s: Seq<u8>, k: int)
    requires
        0 <= k < s.len(),
        s[k] == 13,
        forall|i: int| 0 <= i < k ==> s[i] != 13,
    ensures
        first_return(s) == k,
    decreases k,
{
    if k > 0 {
        assert(s[0] != 13);
        assert(s.drop_first()[k - 1] == 13);
        assert forall|i: int| 0 <= i < k - 1 implies s.drop_first()[i] != 13 by {
            assert(s[i + 1] != 13);
        }
        lemma_first_return(s.drop_first(), k - 1);
    }
}

proof fn lemma_unframed_step(chunk: Seq<u8>, rest: Seq<u8>)
    requires
        chunk.len() > 0,
    ensures
        unframed(framed(chunk) + rest) == (match unframed(rest) {
            Some(body) => Some(chunk + body),
            None => None,
        }),
{
    let digits = text::numeral(chunk.len(), 16);
    let line = digits + "\r\n"@;
    let k = digits.len() as int;
    let s = framed(chunk) + rest;
    let end = k + 2 + chunk.len();
    lemma_numeral(chunk.len());
    reveal_strlit("\r\n");
    assert(is_ascii_chars(line));
    is_ascii_chars_encode_utf8(line);
    is_ascii_chars_encode_utf8(digits);
    let prefix = encode_utf8(line);
    assert forall|i: int| 0 <= i < k implies prefix[i] == encode_utf8(digits)[i] by {
        assert(line[i] == digits[i]);
        assert(line[i] as u8 == prefix[i]);
    }
    assert(line[k] == '\r' && line[k + 1] == '\n');
    assert(line[k] as u8 == prefix[k] && line[k + 1] as u8 == prefix[k + 1]);
    assert(prefix.take(k) =~= encode_utf8(digits));
    assert(s.take(k) =~= prefix.take(k));
    assert forall|i: int| 0 <= i < k implies s[i] != 13 by {
        assert(s[i] == encode_utf8(digits)[i]);
    }
    assert(s[k] == 13);
    lemma_first_return(s, k);
    assert(s.subrange(k, k + 2) =~= line_end());
    assert(s.subrange(end, end + 2) =~= line_end());
    assert(s.subrange(k + 2, end) =~= chunk);
    assert(s.skip(end + 2) =~= rest);
}

/// A client that puts the chunks together reads the bytes that the upstream has sent.
pub proof fn clients_read_what_was_sent(chunks: Seq<Seq<u8>>)
    ensures
        unframed(framed_all(chunks)) == Some(capture::all_bytes(chunks)),
    decreases chunks.len(),
{
    if chunks.len() == 0 {
        let s = last_chunk();
        lemma_first_return(s, 1);
        assert(s.take(1) =~= seq![48u8]);
        assert(s.take(1).drop_last() =~= Seq::empty());
        assert(hex_value(s.take(1).drop_last()) == 0);
        assert(s.subrange(1, 3) =~= line_end());
        assert(s.subrange(3, 5) =~= line_end());
        assert(capture::all_bytes(chunks) =~= Seq::empty());
    } else {
        let rest = chunks.drop_first();
        clients_read_what_was_sent(rest);
        capture::bytes_from_first(chunks);
        if chunks[0].len() == 0 {
            assert(framed(chunks[0]) + framed_all(rest) =~= framed_all(rest));
            assert(chunks[0] + capture::all_bytes(rest) =~= capture::all_bytes(rest));
        } else {
            lemma_unframed_step(chunks[0], framed_all(rest));
        }
    }
}

// ---------------------------------------------------------------------------------------
// What headers say
// ---------------------------------------------------------------------------------------

proof fn lemma_part(before: Seq<char>, part: Seq<char>, after: Seq<char>)
    ensures
        text::has_part(before + part + after, part),
{
    let whole = before + part + after;
    let at = before.len() as int;
    assert(whole.subrange(at, at + part.len()) =~= part);
    assert(text::occurs_at(whole, part, at));
}

/// A response with a document begins with its status, announces the length of the document in
/// bytes, says that it is JSON and that the connection ends with it, and ends with the document.
pub proof fn replies_announce_their_documents(status: u16, reason: Seq<char>, body: JsonTree)
    ensures
        ({
            let bytes = body_bytes(body);
            let head = json_head(status, reason, bytes.len());
            let line = "HTTP/1.1 "@ + text::decimal(status as nat) + " "@ + reason;
            &&& json_reply(status, reason, body) == encode_utf8(head) + bytes
            &&& head.len() > line.len() && head.take(line.len() as int) == line
            &&& text::has_part(head, "Content-Type: application/json"@)
            &&& text::has_part(head, "Content-Length: "@ + text::decimal(bytes.len()))
            &&& text::has_part(head, "Connection: close"@)
            &&& head.len() > 4 && head.skip(head.len() - 4) == "\r\n\r\n"@
        }),
{
    let n = body_bytes(body).len();
    let number = text::decimal(n);
    let head = json_head(status, reason, n);
    let line = status_line(status, reason);
    let between = "\r\nContent-Type: application/json; charset=utf-8\r\nContent-Length: "@;
    let tail = common_headers() + "\r\n"@;
    assert(head =~= line + between + number + tail);
    assert(head.take(line.len() as int) =~= line);
    reveal_strlit("\r\nContent-Type: application/json; charset=utf-8\r\nContent-Length: ");
    let kind = "Content-Type: application/json"@;
    assert(between.subrange(2, 2 + kind.len() as int) == kind) by {
        reveal_strlit("Content-Type: application/json");
        assert(between.subrange(2, 2 + kind.len() as int) =~= kind);
    }
    assert(text::has_part(head, kind)) by {
        lemma_part(
            line + between.take(2),
            kind,
            between.skip(2 + kind.len() as int) + number + tail,
        );
        assert(between.len() >= 2 + kind.len()) by {
            reveal_strlit("Content-Type: application/json");
        }
        assert(between =~= between.take(2) + kind + between.skip(2 + kind.len() as int));
        assert(line + between.take(2) + kind + (between.skip(2 + kind.len() as int) + number
            + tail) =~= head);
    }
    let name = "Content-Length: "@;
    assert(between.len() >= name.len() && between.skip(between.len() - name.len()) == name) by {
        reveal_strlit("Content-Length: ");
        assert(between.skip(between.len() - name.len()) =~= name);
    }
    assert(text::has_part(head, name + number)) by {
        let first = between.take(between.len() - name.len());
        lemma_part(line + first, name + number, tail);
        assert(between =~= first + name);
        assert(line + first + (name + number) + tail =~= head);
    }
    lemma_common_headers();
    assert(text::has_part(head, "Connection: close"@)) by {
        let at = choose|i: int| text::occurs_at(common_headers(), "Connection: close"@, i);
        let part = "Connection: close"@;
        let common = common_headers();
        lemma_part(
            line + between + number + common.take(at),
            part,
            common.skip(at + part.len()) + "\r\n"@,
        );
        assert(common =~= common.take(at) + part + common.skip(at + part.len()));
        assert(line + between + number + common.take(at) + part + (common.skip(at + part.len())
            + "\r\n"@) =~= head);
    }
    reveal_strlit("\r\n");
    reveal_strlit("\r\n\r\n");
    assert(head.skip(head.len() - 4) =~= "\r\n\r\n"@);
}

proof fn lemma_common_headers()
    ensures
        text::has_part(common_headers(), "Connection: close"@),
        common_headers().len() > 2,
        common_headers().skip(common_headers().len() - 2) == "\r\n"@,
{
    let first = "\r\nConnection: close\r\nAccess-Control-Allow-Origin: *\r\nAccess-Control-Allow-Methods: GET, POST, OPTIONS\r\nAccess-Control-Allow-Headers: "@;
    let part = "Connection: close"@;
    let common = common_headers();
    reveal_strlit("\r\n");
    assert(first.len() >= 2 + part.len() && first.subrange(2, 2 + part.len() as int) == part) by {
        reveal_strlit(
            "\r\nConnection: close\r\nAccess-Control-Allow-Origin: *\r\nAccess-Control-Allow-Methods: GET, POST, OPTIONS\r\nAccess-Control-Allow-Headers: ",
        );
        reveal_strlit("Connection: close");
        assert(first.subrange(2, 2 + part.len() as int) =~= part);
    }
    assert(common.subrange(2, 2 + part.len() as int) =~= first.subrange(2, 2 + part.len() as int));
    assert(text::occurs_at(common, part, 2));
    assert(common.skip(common.len() - 2) =~= "\r\n"@);
}

/// A response of the upstream is passed on with its status and its content type, in chunks, and
/// with the request id and the time that it names.
pub proof fn upstream_heads_are_passed_on(head: Head, reason: Option<Seq<char>>, value: Seq<char>)
    ensures
        ({
            let said = relay_head(head, reason);
            let line = "HTTP/1.1 "@ + text::decimal(head.status as nat) + " "@;
            &&& said.len() > line.len() && said.take(line.len() as int) == line
            &&& reason matches Some(r) ==> text::has_part(said, line + r)
            &&& head.content_type == Some(value) ==> text::has_part(
                said,
                "\r\nContent-Type: "@ + value,
            )
            &&& head.content_type is None ==> text::has_part(
                said,
                "\r\nContent-Type: "@ + "application/json; charset=utf-8"@,
            )
            &&& text::has_part(said, "\r\nTransfer-Encoding: chunked"@)
            &&& head.request_id == Some(value) ==> text::has_part(
                said,
                "x-request-id"@ + ": "@ + value + "\r\n"@,
            )
            &&& head.processing_ms == Some(value) ==> text::has_part(
                said,
                "openai-processing-ms"@ + ": "@ + value + "\r\n"@,
            )
        }),
{
    let said = relay_head(head, reason);
    let line = "HTTP/1.1 "@ + text::decimal(head.status as nat) + " "@;
    let r = match reason {
        Some(r) => r,
        None => "OK"@,
    };
    let kind = "\r\nContent-Type: "@ + content_type_of(head);
    let chunked = "\r\nTransfer-Encoding: chunked"@;
    let common = common_headers();
    let id = optional_line("x-request-id"@, head.request_id);
    let time = optional_line("openai-processing-ms"@, head.processing_ms);
    let end = "\r\n"@;
    reveal_strlit("\r\n");
    assert(said =~= line + r + kind + chunked + common + id + time + end);
    assert(said.take(line.len() as int) =~= line);
    lemma_part(Seq::empty(), line + r, kind + chunked + common + id + time + end);
    assert(Seq::<char>::empty() + (line + r) + (kind + chunked + common + id + time + end) =~= said);
    lemma_part(line + r, kind, chunked + common + id + time + end);
    assert(line + r + kind + (chunked + common + id + time + end) =~= said);
    lemma_part(line + r + kind, chunked, common + id + time + end);
    assert(line + r + kind + chunked + (common + id + time + end) =~= said);
    lemma_part(line + r + kind + chunked + common, id, time + end);
    assert(line + r + kind + chunked + common + id + (time + end) =~= said);
    lemma_part(line + r + kind + chunked + common + id, time, end);
}

} // verus!
