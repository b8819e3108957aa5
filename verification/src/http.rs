//! Requests as they arrive and responses as they leave.

use vstd::prelude::*;
use vstd::slice::*;
use vstd::string::*;
use vstd::utf8::*;
use crate::json;
use crate::json::JsonValue;
use crate::table;
use crate::table::Table;
use crate::text;
use crate::text::NumberError;

verus! {

/// How long a request may be, in bytes.
pub const MAX_HTTP_REQUEST_BYTES: usize = 8_388_608;

// ---------------------------------------------------------------------------------------
// Where the header ends
// ---------------------------------------------------------------------------------------

/// Two line ends, one behind the other, begin at `i`.
pub open spec fn blank_line_at(s: Seq<u8>, i: int) -> bool {
    &&& i + 4 <= s.len()
    &&& s[i] == 13
    &&& s[i + 1] == 10
    &&& s[i + 2] == 13
    &&& s[i + 3] == 10
}

/// Where the header ends, looking from `from` on.
pub open spec fn header_end_from(s: Seq<u8>, from: int) -> Option<int>
    decreases s.len() - from,
{
    if from >= s.len() {
        None
    } else if blank_line_at(s, from) {
        Some(from + 4)
    } else {
        header_end_from(s, from + 1)
    }
}

/// Where the header ends: behind the first empty line.
pub open spec fn header_end(s: Seq<u8>) -> Option<int> {
    header_end_from(s, 0)
}

/// A place in a byte sequence, as a mathematical value.
pub open spec fn opt_place(place: Option<usize>) -> Option<int> {
    match place {
        Some(p) => Some(p as int),
        None => None,
    }
}

/// Where the header ends: behind the first empty line.
pub fn find_header_end(buf: &[u8]) -> (end: Option<usize>)
    ensures
        opt_place(end) == header_end(buf@),
        end matches Some(e) ==> 4 <= e <= buf@.len(),
{
    let mut i: usize = 0;
    while i < buf.len()
        invariant
            i <= buf.len(),
            header_end(buf@) == header_end_from(buf@, i as int),
        decreases buf@.len() - i,
    {
        if buf.len() - i >= 4 && buf[i] == 13 && buf[i + 1] == 10 && buf[i + 2] == 13 && buf[i + 3]
            == 10 {
            return Some(i + 4);
        }
        i += 1;
    }
    None
}

proof fn lemma_header_end(s: Seq<u8>, from: int)
    requires
        0 <= from,
    ensures
        header_end_from(s, from) matches Some(e) ==> from + 4 <= e <= s.len() && blank_line_at(
            s,
            e - 4,
        ) && forall|j: int| from <= j < e - 4 ==> !#[trigger] blank_line_at(s, j),
        header_end_from(s, from) is None ==> forall|j: int|
            from <= j ==> !#[trigger] blank_line_at(s, j),
    decreases s.len() - from,
{
    if from < s.len() && !blank_line_at(s, from) {
        lemma_header_end(s, from + 1);
    }
}

proof fn lemma_header_end_at(s: Seq<u8>, from: int, e: int)
    requires
        0 <= from <= e - 4,
        blank_line_at(s, e - 4),
        forall|j: int| from <= j < e - 4 ==> !#[trigger] blank_line_at(s, j),
    ensures
        header_end_from(s, from) == Some(e),
    decreases e - from,
{
    if from < e - 4 {
        assert(!blank_line_at(s, from));
        lemma_header_end_at(s, from + 1, e);
    }
}

/// A header that has ended does not end elsewhere once more bytes have come, nor once those
/// behind it are cut off.
pub proof fn header_end_is_stable(s: Seq<u8>, more: Seq<u8>, cut: int)
    requires
        header_end(s) is Some,
        header_end(s)->0 <= cut <= s.len(),
    ensures
        header_end(s + more) == header_end(s),
        header_end(s.take(cut)) == header_end(s),
{
    let e = header_end(s)->0;
    let whole = s + more;
    let part = s.take(cut);
    lemma_header_end(s, 0);
    assert(blank_line_at(whole, e - 4));
    assert(blank_line_at(part, e - 4));
    assert forall|j: int| 0 <= j < e - 4 implies !#[trigger] blank_line_at(whole, j) by {
        assert(!blank_line_at(s, j));
    }
    assert forall|j: int| 0 <= j < e - 4 implies !#[trigger] blank_line_at(part, j) by {
        assert(!blank_line_at(s, j));
    }
    lemma_header_end_at(whole, 0, e);
    lemma_header_end_at(part, 0, e);
}

// ---------------------------------------------------------------------------------------
// The announced length
// ---------------------------------------------------------------------------------------

/// The length that a line announces, if it is about that.
pub open spec fn length_in_line(line: Seq<char>) -> Option<Result<nat, NumberError>> {
    match text::cut_at_colon(line) {
        Some((name, value)) => if text::lower(text::trimmed(name)) == text::lower(
            "content-length"@,
        ) {
            Some(text::number_of(text::trimmed(value)))
        } else {
            None
        },
        None => None,
    }
}

/// The length that the first line about it announces; nothing, if there is none.
pub open spec fn length_in_lines(lines: Seq<Seq<char>>) -> Result<nat, NumberError>
    decreases lines.len(),
{
    if lines.len() == 0 {
        Ok(0)
    } else {
        match length_in_line(lines[0]) {
            Some(length) => length,
            None => length_in_lines(lines.drop_first()),
        }
    }
}

/// The length of the body that a header announces.
pub open spec fn announced_length(header: Seq<u8>) -> Result<nat, NumberError> {
    length_in_lines(text::line_seq(text::utf8_lossy(header)))
}

/// What is said of a length that is no number.
pub open spec fn bad_length_text(error: NumberError) -> Seq<char> {
    "非法 Content-Length: "@ + text::number_error_text(error)
}

/// The length that the text of a header announces.
pub fn length_in_header(header_text: &str) -> (length: Result<usize, String>)
    ensures
        match length_in_lines(text::line_seq(header_text@)) {
            Ok(n) => length matches Ok(m) && m == n,
            Err(e) => length matches Err(message) && message@ == bad_length_text(e),
        },
{
    let lines = text::lines(header_text);
    let ghost all = text::texts(lines@);
    assert(all.skip(0) =~= all);
    let mut i: usize = 0;
    while i < lines.len()
        invariant
            i <= lines@.len(),
            all == text::texts(lines@),
            length_in_lines(text::line_seq(header_text@)) == length_in_lines(all.skip(i as int)),
        decreases lines@.len() - i,
    {
        proof {
            assert(all.skip(i as int)[0] == lines@[i as int]@);
            assert(all.skip(i as int).drop_first() =~= all.skip(i + 1));
        }
        if let Some((name, value)) = text::split_at_colon(lines[i].as_str()) {
            if text::eq_ignore_ascii_case(text::trim(name.as_str()).as_str(), "content-length") {
                return match text::parse_usize(text::trim(value.as_str()).as_str()) {
                    Ok(n) => Ok(n),
                    Err(e) => {
                        let mut message = "非法 Content-Length: ".to_owned();
                        message.append(e.message().as_str());
                        Err(message)
                    },
                };
            }
        }
        i += 1;
    }
    Ok(0)
}

/// The length of the body that a header announces.
pub fn parse_content_length(header_bytes: &[u8]) -> (length: Result<usize, String>)
    ensures
        match announced_length(header_bytes@) {
            Ok(n) => length matches Ok(m) && m == n,
            Err(e) => length matches Err(message) && message@ == bad_length_text(e),
        },
        text::read_exactly(header_bytes@),
{
    let header_text = text::from_utf8_lossy(header_bytes);
    length_in_header(header_text.as_str())
}

// ---------------------------------------------------------------------------------------
// Reading
// ---------------------------------------------------------------------------------------

/// What can be said of a request when some of its bytes have come.
pub enum Reading {
    /// More bytes are needed.
    Pending,
    /// The request is complete.
    Complete(Seq<u8>),
    /// The request cannot be read.
    Failed(Seq<char>),
}

/// What can be said of a request when the bytes `s` have come.
pub open spec fn reading(s: Seq<u8>) -> Reading {
    if s.len() > MAX_HTTP_REQUEST_BYTES {
        Reading::Failed("请求体过大"@)
    } else {
        match header_end(s) {
            None => Reading::Pending,
            Some(end) => match announced_length(s.take(end)) {
                Err(e) => Reading::Failed(bad_length_text(e)),
                Ok(n) => if s.len() >= end + n {
                    Reading::Complete(s.take(end + n))
                } else {
                    Reading::Pending
                },
            },
        }
    }
}

/// Reads a request from the parts in which it arrives.
#[derive(Debug)]
pub struct RequestReader {
    buffer: Vec<u8>,
    header_end: Option<usize>,
    content_length: usize,
}

impl View for RequestReader {
    type V = Seq<u8>;

    closed spec fn view(&self) -> Seq<u8> {
        self.buffer@
    }
}

/// What a part has led to, as a mathematical value.
pub open spec fn progress_view(progress: Result<Option<Vec<u8>>, String>) -> Reading {
    match progress {
        Ok(None) => Reading::Pending,
        Ok(Some(request)) => Reading::Complete(request@),
        Err(message) => Reading::Failed(message@),
    }
}

impl RequestReader {
    /// More bytes are needed, and what is noted about the header is right.
    pub closed spec fn well_formed(self) -> bool {
        &&& reading(self.buffer@) is Pending
        &&& match self.header_end {
            None => header_end(self.buffer@) is None,
            Some(end) => header_end(self.buffer@) == Some(end as int) && announced_length(
                self.buffer@.take(end as int),
            ) == Ok::<nat, NumberError>(self.content_length as nat),
        }
    }

    /// A reader to which nothing has come.
    pub fn new() -> (reader: Self)
        ensures
            reader@ == Seq::<u8>::empty(),
            reader.well_formed(),
    {
        RequestReader { buffer: Vec::new(), header_end: None, content_length: 0 }
    }

    /// Takes in the next part. Says whether the request is complete.
    pub fn push(&mut self, part: &[u8]) -> (progress: Result<Option<Vec<u8>>, String>)
        requires
            old(self).well_formed(),
        ensures
            final(self)@ == old(self)@ + part@,
            progress_view(progress) == reading(old(self)@ + part@),
            progress matches Ok(None) ==> final(self).well_formed(),
    {
        let ghost before = self.buffer@;
        self.buffer.extend_from_slice(part);
        let ghost all = self.buffer@;
        assert(all =~= before + part@);
        if self.buffer.len() > MAX_HTTP_REQUEST_BYTES {
            return Err("请求体过大".to_owned());
        }
        proof {
            if let Some(end) = self.header_end {
                lemma_header_end(before, 0);
                header_end_is_stable(before, part@, end as int);
                assert(all.take(end as int) =~= before.take(end as int));
            }
        }
        if self.header_end.is_none() {
            if let Some(end) = find_header_end(self.buffer.as_slice()) {
                let header = slice_subrange(self.buffer.as_slice(), 0, end);
                assert(header@ =~= all.take(end as int));
                match parse_content_length(header) {
                    Ok(n) => {
                        self.content_length = n;
                        self.header_end = Some(end);
                    },
                    Err(message) => {
                        return Err(message);
                    },
                }
            }
        }
        if let Some(end) = self.header_end {
            proof {
                lemma_header_end(all, 0);
            }
            if self.content_length <= self.buffer.len() - end {
                let to: usize = end + self.content_length;
                let request = slice_to_vec(slice_subrange(self.buffer.as_slice(), 0, to));
                assert(request@ =~= all.take(to as int));
                return Ok(Some(request));
            }
        }
        Ok(None)
    }

    /// What is said when no more bytes come.
    pub fn finish(self) -> (message: String)
        ensures
            message@ == "请求不完整"@,
    {
        "请求不完整".to_owned()
    }
}

/// What can be said of a request does not change when more bytes come, as long as they are
/// not too many: it does not matter in which parts a request arrives.
pub proof fn parts_do_not_matter(s: Seq<u8>, more: Seq<u8>)
    requires
        s.len() + more.len() <= MAX_HTTP_REQUEST_BYTES,
        reading(s) !is Pending,
    ensures
        reading(s + more) == reading(s),
{
    let end = header_end(s)->0;
    lemma_header_end(s, 0);
    header_end_is_stable(s, more, end);
    assert((s + more).take(end) =~= s.take(end));
    if let Ok(n) = announced_length(s.take(end)) {
        assert((s + more).take(end + n) =~= s.take(end + n));
    }
}

/// A complete request has a header, and its body is as long as the header announces.
pub proof fn complete_requests_are_whole(s: Seq<u8>)
    requires
        reading(s) is Complete,
    ensures
        ({
            let request = reading(s)->Complete_0;
            &&& header_end(request) is Some
            &&& header_end(request)->0 <= request.len()
            &&& announced_length(request.take(header_end(request)->0)) == Ok::<nat, NumberError>(
                (request.len() - header_end(request)->0) as nat,
            )
            &&& request == s.take(request.len() as int)
        }),
{
    let end = header_end(s)->0;
    lemma_header_end(s, 0);
    let n = announced_length(s.take(end))->Ok_0;
    let request = s.take(end + n);
    header_end_is_stable(s, Seq::empty(), end + n);
    assert(request.take(end) =~= s.take(end));
}

// ---------------------------------------------------------------------------------------
// Parsing
// ---------------------------------------------------------------------------------------

/// A request.
#[derive(Debug)]
pub struct ParsedRequest {
    pub method: String,
    pub target: String,
    pub headers: Table<String>,
    pub body: Vec<u8>,
}

/// A request as a mathematical value.
pub struct Request {
    pub method: Seq<char>,
    pub target: Seq<char>,
    pub headers: Seq<(Seq<char>, Seq<char>)>,
    pub body: Seq<u8>,
}

impl View for ParsedRequest {
    type V = Request;

    open spec fn view(&self) -> Request {
        Request {
            method: self.method@,
            target: self.target@,
            headers: self.headers@,
            body: self.body@,
        }
    }
}

/// The headers with what one more line adds: under the name in lower case, in the place of
/// what stood there.
pub open spec fn with_header_line(
    headers: Seq<(Seq<char>, Seq<char>)>,
    line: Seq<char>,
) -> Seq<(Seq<char>, Seq<char>)> {
    match text::cut_at_colon(text::trimmed(line)) {
        Some((name, value)) => table::put(
            headers,
            text::lower(text::trimmed(name)),
            text::trimmed(value),
        ),
        None => headers,
    }
}

/// The headers in lines.
pub open spec fn headers_in(lines: Seq<Seq<char>>) -> Seq<(Seq<char>, Seq<char>)>
    decreases lines.len(),
{
    if lines.len() == 0 {
        Seq::empty()
    } else {
        with_header_line(headers_in(lines.drop_last()), lines.last())
    }
}

/// The request that a header in lines and a body make up.
pub open spec fn request_of(lines: Seq<Seq<char>>, body: Seq<u8>) -> Result<Request, Seq<char>> {
    if lines.len() == 0 {
        Err("请求行为空"@)
    } else {
        let words = text::word_seq(text::trimmed(lines[0]));
        if words.len() == 0 {
            Err("请求行缺少 method"@)
        } else if words.len() == 1 {
            Err("请求行缺少 target"@)
        } else {
            Ok(
                Request {
                    method: words[0],
                    target: words[1],
                    headers: headers_in(lines.drop_first()),
                    body,
                },
            )
        }
    }
}

/// The request that bytes stand for.
pub open spec fn parsed(raw: Seq<u8>) -> Result<Request, Seq<char>> {
    match header_end(raw) {
        None => Err("缺少 HTTP 头结束标记"@),
        Some(end) => request_of(
            text::line_seq(text::utf8_lossy(raw.take(end))),
            raw.skip(end),
        ),
    }
}

/// A parsed request or an error, as a mathematical value.
pub open spec fn request_view(request: Result<ParsedRequest, String>) -> Result<
    Request,
    Seq<char>,
> {
    match request {
        Ok(r) => Ok(r@),
        Err(message) => Err(message@),
    }
}

fn parse_headers(lines: &[String]) -> (headers: Table<String>)
    requires
        lines@.len() > 0,
    ensures
        headers@ == headers_in(text::texts(lines@).drop_first()),
{
    let ghost all = text::texts(lines@).drop_first();
    let mut headers: Table<String> = Table::new();
    let mut i: usize = 1;
    assert(all.take(0) =~= Seq::empty());
    while i < lines.len()
        invariant
            1 <= i <= lines@.len(),
            all == text::texts(lines@).drop_first(),
            headers@ == headers_in(all.take(i - 1)),
        decreases lines@.len() - i,
    {
        proof {
            assert(all.take(i as int).drop_last() =~= all.take(i - 1));
            assert(all.take(i as int).last() == lines@[i as int]@);
        }
        let line = text::trim(lines[i].as_str());
        if let Some((name, value)) = text::split_at_colon(line.as_str()) {
            headers.insert(
                text::to_ascii_lowercase(text::trim(name.as_str()).as_str()),
                text::trim(value.as_str()),
            );
        }
        i += 1;
    }
    assert(all.take(i - 1) =~= all);
    headers
}

/// The request that the text of a header and a body make up.
pub fn parse_header(header_text: &str, body: Vec<u8>) -> (request: Result<ParsedRequest, String>)
    ensures
        request_view(request) == request_of(text::line_seq(header_text@), body@),
{
    let lines = text::lines(header_text);
    if lines.len() == 0 {
        return Err("请求行为空".to_owned());
    }
    let words = text::words(text::trim(lines[0].as_str()).as_str());
    proof {
        assert(text::texts(lines@)[0] == lines@[0]@);
        assert(text::texts(words@).len() == words@.len());
    }
    if words.len() == 0 {
        return Err("请求行缺少 method".to_owned());
    }
    if words.len() == 1 {
        return Err("请求行缺少 target".to_owned());
    }
    let headers = parse_headers(lines.as_slice());
    assert(text::texts(words@)[0] == words@[0]@ && text::texts(words@)[1] == words@[1]@);
    Ok(ParsedRequest { method: words[0].clone(), target: words[1].clone(), headers, body })
}

/// The request that bytes stand for.
pub fn parse_http_request(raw: &[u8]) -> (request: Result<ParsedRequest, String>)
    ensures
        request_view(request) == parsed(raw@),
        header_end(raw@) matches Some(end) ==> text::read_exactly(raw@.take(end)),
{
    let end = match find_header_end(raw) {
        Some(end) => end,
        None => {
            return Err("缺少 HTTP 头结束标记".to_owned());
        },
    };
    let header = slice_subrange(raw, 0, end);
    assert(header@ =~= raw@.take(end as int));
    let header_text = text::from_utf8_lossy(header);
    let body = slice_to_vec(slice_subrange(raw, end, raw.len()));
    assert(body@ =~= raw@.skip(end as int));
    parse_header(header_text.as_str(), body)
}

/// No header stands twice in a request.
pub proof fn headers_are_distinct(lines: Seq<Seq<char>>)
    ensures
        table::keys_distinct(headers_in(lines)),
    decreases lines.len(),
{
    if lines.len() > 0 {
        headers_are_distinct(lines.drop_last());
        if let Some((name, value)) = text::cut_at_colon(text::trimmed(lines.last())) {
            table::keys_stay_distinct(
                headers_in(lines.drop_last()),
                text::lower(text::trimmed(name)),
                text::trimmed(value),
                |v: Seq<char>| true,
            );
        }
    }
}

/// Of lines with one name, in any case, the last one counts.
pub proof fn last_header_counts(lines: Seq<Seq<char>>, name: Seq<char>, value: Seq<char>)
    requires
        lines.len() > 0,
        text::cut_at_colon(text::trimmed(lines.last())) == Some((name, value)),
    ensures
        table::lookup(headers_in(lines), text::lower(text::trimmed(name))) == Some(
            text::trimmed(value),
        ),
{
    table::lookup_after_put(
        headers_in(lines.drop_last()),
        text::lower(text::trimmed(name)),
        text::trimmed(value),
        name,
    );
}

// ---------------------------------------------------------------------------------------
// Laws of reading and parsing
// ---------------------------------------------------------------------------------------

/// The header of a request ends behind its first empty line; what follows is its body.
pub proof fn headers_end_at_empty_lines(head: Seq<u8>, body: Seq<u8>)
    requires
        ({
            let s = head + seq![13u8, 10u8, 13u8, 10u8] + body;
            forall|j: int|
                0 <= j < head.len() ==> !(#[trigger] s[j] == 13 && s[j + 1] == 10 && s[j + 2] == 13
                    && s[j + 3] == 10)
        }),
    ensures
        ({
            let s = head + seq![13u8, 10u8, 13u8, 10u8] + body;
            &&& header_end(s) == Some(head.len() as int + 4)
            &&& parsed(s) matches Ok(request) ==> request.body == body
        }),
{
    let s = head + seq![13u8, 10u8, 13u8, 10u8] + body;
    let n = head.len() as int;
    assert(blank_line_at(s, n));
    assert forall|j: int| 0 <= j < n implies !#[trigger] blank_line_at(s, j) by {
        assert(!(s[j] == 13 && s[j + 1] == 10 && s[j + 2] == 13 && s[j + 3] == 10));
    }
    lemma_header_end_at(s, 0, n + 4);
    assert(s.skip(n + 4) =~= body);
}

/// A request is complete once its header has ended and as many bytes have followed as that
/// announces; until then more are needed. What is too long is refused.
pub proof fn requests_are_read_to_their_end(s: Seq<u8>, end: int, n: nat)
    requires
        header_end(s) == Some(end),
        announced_length(s.take(end)) == Ok::<nat, NumberError>(n),
    ensures
        s.len() <= 8 * 1024 * 1024 && s.len() >= end + n ==> reading(s) == Reading::Complete(
            s.take(end + n),
        ),
        s.len() <= 8 * 1024 * 1024 && s.len() < end + n ==> reading(s) is Pending,
        s.len() > 8 * 1024 * 1024 ==> reading(s) is Failed,
{
}

/// Without an empty line a request is not complete, unless it is too long.
pub proof fn endless_headers_are_pending(s: Seq<u8>)
    requires
        header_end(s) is None,
    ensures
        s.len() <= 8 * 1024 * 1024 ==> reading(s) is Pending,
        s.len() > 8 * 1024 * 1024 ==> reading(s) is Failed,
{
}

/// The line announces a length.
pub open spec fn is_about_length(line: Seq<char>) -> bool {
    text::cut_at_colon(line) matches Some((name, _)) && text::lower(text::trimmed(name))
        == "content-length"@
}

/// The first line that announces a length counts, in whatever case it does so; without one,
/// there is no body.
pub proof fn first_length_counts(lines: Seq<Seq<char>>, k: int)
    requires
        0 <= k <= lines.len(),
        forall|j: int| 0 <= j < k ==> !is_about_length(#[trigger] lines[j]),
        k < lines.len() ==> is_about_length(lines[k]),
    ensures
        k == lines.len() ==> length_in_lines(lines) == Ok::<nat, NumberError>(0),
        k < lines.len() ==> length_in_lines(lines) == text::number_of(
            text::trimmed((text::cut_at_colon(lines[k])->0).1),
        ),
    decreases lines.len(),
{
    reveal_strlit("content-length");
    assert(text::lower("content-length"@) =~= "content-length"@) by {
        let name = "content-length"@;
        assert forall|i: int| 0 <= i < name.len() implies text::lower_char(#[trigger] name[i])
            == name[i] by {
            assert(i == 0 || i == 1 || i == 2 || i == 3 || i == 4 || i == 5 || i == 6 || i == 7
                || i == 8 || i == 9 || i == 10 || i == 11 || i == 12 || i == 13);
        }
    }
    if lines.len() > 0 && k > 0 {
        assert(!is_about_length(lines[0]));
        let rest = lines.drop_first();
        assert forall|j: int| 0 <= j < k - 1 implies !is_about_length(#[trigger] rest[j]) by {
            assert(!is_about_length(lines[j + 1]));
        }
        first_length_counts(rest, k - 1);
    }
}

/// The line has this name, in lower case and without the white space around it.
pub open spec fn line_names(line: Seq<char>, name: Seq<char>) -> bool {
    text::cut_at_colon(text::trimmed(line)) matches Some((n, _)) && text::lower(text::trimmed(n))
        == name
}

/// A header has the value of the last line with its name, in whatever case that is written,
/// without the white space around it; without such a line it is not there.
pub proof fn last_line_with_a_name_counts(lines: Seq<Seq<char>>, name: Seq<char>, k: int)
    requires
        -1 <= k < lines.len(),
        k >= 0 ==> line_names(lines[k], name),
        forall|j: int| k < j < lines.len() && 0 <= j ==> !line_names(#[trigger] lines[j], name),
    ensures
        k < 0 ==> table::lookup(headers_in(lines), name) is None,
        k >= 0 ==> table::lookup(headers_in(lines), name) == Some(
            text::trimmed((text::cut_at_colon(text::trimmed(lines[k]))->0).1),
        ),
    decreases lines.len(),
{
    if lines.len() > 0 {
        let shorter = lines.drop_last();
        let last = lines.len() - 1;
        if k < last {
            assert forall|j: int| k < j < shorter.len() && 0 <= j implies !line_names(
                #[trigger] shorter[j],
                name,
            ) by {
                assert(!line_names(lines[j], name));
            }
            last_line_with_a_name_counts(shorter, name, k);
            assert(!line_names(lines[last], name));
        }
        if let Some((n, value)) = text::cut_at_colon(text::trimmed(lines.last())) {
            table::lookup_after_put(
                headers_in(shorter),
                text::lower(text::trimmed(n)),
                text::trimmed(value),
                name,
            );
        }
    }
}

/// The first line of a request names its method and its target, in this order; a request
/// without either cannot be read.
pub proof fn first_lines_name_method_and_target(lines: Seq<Seq<char>>, body: Seq<u8>)
    ensures
        lines.len() == 0 ==> request_of(lines, body) == Err::<Request, Seq<char>>("请求行为空"@),
        lines.len() > 0 ==> {
            let words = text::word_seq(text::trimmed(lines[0]));
            &&& words.len() == 0 ==> request_of(lines, body) == Err::<Request, Seq<char>>(
                "请求行缺少 method"@,
            )
            &&& words.len() == 1 ==> request_of(lines, body) == Err::<Request, Seq<char>>(
                "请求行缺少 target"@,
            )
            &&& words.len() >= 2 ==> (request_of(lines, body) matches Ok(request)
                && request.method == words[0] && request.target == words[1] && request.body == body
                && request.headers == headers_in(lines.skip(1)))
        },
{
    if lines.len() > 0 {
        assert(lines.drop_first() =~= lines.skip(1));
    }
}

} // verus!
