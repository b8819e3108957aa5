//! What a response says about itself, gathered while its body passes through in chunks.

use vstd::prelude::*;
use vstd::slice::*;
use vstd::utf8::*;
use crate::json;
use crate::json::{JsonTree, JsonValue};
use crate::text;
use crate::usage;
use crate::usage::UsageCapture;

verus! {

/// What has been learned of a response.
#[derive(Debug)]
pub struct ResponseCapture {
    pub usage: Option<UsageCapture>,
    pub response_id: Option<String>,
}

/// What has been learned of a response, as a mathematical value.
pub struct Learned {
    pub usage: Option<UsageCapture>,
    pub response_id: Option<Seq<char>>,
}

impl View for ResponseCapture {
    type V = Learned;

    open spec fn view(&self) -> Learned {
        Learned { usage: self.usage, response_id: text::opt_text(self.response_id) }
    }
}

// ---------------------------------------------------------------------------------------
// Frames of an event stream
// ---------------------------------------------------------------------------------------

/// The length of the frame separator that begins at `i`: an empty line, ended by CRLF or
/// LF; zero if none begins there.
pub open spec fn separator_len(s: Seq<u8>, i: int) -> int {
    if 0 <= i && i + 4 <= s.len() && s[i] == 13 && s[i + 1] == 10 && s[i + 2] == 13 && s[i + 3]
        == 10 {
        4
    } else if 0 <= i && i + 2 <= s.len() && s[i] == 10 && s[i + 1] == 10 {
        2
    } else {
        0
    }
}

/// The first separator at `from` or behind it: where it begins and its length.
pub open spec fn boundary_from(s: Seq<u8>, from: int) -> Option<(int, int)>
    decreases s.len() - from,
{
    if from >= s.len() {
        None
    } else if separator_len(s, from) > 0 {
        Some((from, separator_len(s, from)))
    } else {
        boundary_from(s, from + 1)
    }
}

/// A stream cut into its complete frames, and what is left behind the last of them.
pub open spec fn split_frames(s: Seq<u8>) -> (Seq<Seq<u8>>, Seq<u8>)
    decreases s.len(),
    via split_frames_shrinks
{
    match boundary_from(s, 0) {
        Some((i, n)) => {
            let (frames, rest) = split_frames(s.skip(i + n));
            (seq![s.take(i)] + frames, rest)
        },
        None => (Seq::empty(), s),
    }
}

#[via_fn]
proof fn split_frames_shrinks(s: Seq<u8>) {
    lemma_boundary(s, 0);
}

/// What [`boundary_from`] finds.
pub proof fn lemma_boundary(s: Seq<u8>, from: int)
    requires
        0 <= from,
    ensures
        match boundary_from(s, from) {
            Some((i, n)) => from <= i && n > 0 && i + n <= s.len() && n == separator_len(s, i)
                && forall|j: int| from <= j < i ==> separator_len(s, j) == 0,
            None => forall|j: int| from <= j < s.len() ==> separator_len(s, j) == 0,
        },
    decreases s.len() - from,
{
    if from < s.len() && separator_len(s, from) == 0 {
        lemma_boundary(s, from + 1);
    }
}

/// The first separator is where one begins and none does before.
pub proof fn lemma_first_boundary(s: Seq<u8>, from: int, i: int)
    requires
        0 <= from <= i < s.len(),
        separator_len(s, i) > 0,
        forall|j: int| from <= j < i ==> separator_len(s, j) == 0,
    ensures
        boundary_from(s, from) == Some((i, separator_len(s, i))),
    decreases i - from,
{
    if from < i {
        lemma_first_boundary(s, from + 1, i);
    }
}

/// The first frame separator in the buffer: where it begins and its length.
pub fn find_sse_frame_boundary(buffer: &[u8]) -> (boundary: Option<(usize, usize)>)
    ensures
        boundary_from(buffer@, 0) == (match boundary {
            Some((i, n)) => Some((i as int, n as int)),
            None => None,
        }),
{
    let mut i: usize = 0;
    while i < buffer.len()
        invariant
            i <= buffer.len(),
            boundary_from(buffer@, 0) == boundary_from(buffer@, i as int),
        decreases buffer@.len() - i,
    {
        if buffer.len() - i >= 4 && buffer[i] == 13 && buffer[i + 1] == 10 && buffer[i + 2] == 13
            && buffer[i + 3] == 10 {
            return Some((i, 4));
        }
        if buffer.len() - i >= 2 && buffer[i] == 10 && buffer[i + 1] == 10 {
            return Some((i, 2));
        }
        i += 1;
    }
    None
}

/// Of a stream that arrives in two parts, the frames that the first part completes are the
/// first frames of the whole, and what it leaves over begins the rest of the whole.
pub proof fn lemma_frames_of_parts(a: Seq<u8>, b: Seq<u8>)
    ensures
        split_frames(a + b).0 == split_frames(a).0 + split_frames(split_frames(a).1 + b).0,
        split_frames(a + b).1 == split_frames(split_frames(a).1 + b).1,
    decreases a.len(),
{
    lemma_boundary(a, 0);
    match boundary_from(a, 0) {
        Some((i, n)) => {
            let whole = a + b;
            assert forall|j: int| 0 <= j < i implies separator_len(whole, j) == 0 by {
                assert(separator_len(a, j) == 0);
                if j + 4 <= a.len() {
                    assert(whole[j] == a[j] && whole[j + 1] == a[j + 1] && whole[j + 2] == a[j + 2]
                        && whole[j + 3] == a[j + 3]);
                } else if j + 2 <= a.len() {
                    assert(whole[j] == a[j] && whole[j + 1] == a[j + 1]);
                    assert(j + 1 == i && n == 2);
                    assert(whole[j + 2] == a[i + 1]);
                }
            }
            assert(separator_len(whole, i) == n);
            lemma_first_boundary(whole, 0, i);
            assert(whole.take(i) =~= a.take(i));
            assert(whole.skip(i + n) =~= a.skip(i + n) + b);
            lemma_frames_of_parts(a.skip(i + n), b);
            let (frames, rest) = split_frames(a.skip(i + n));
            assert(seq![a.take(i)] + (frames + split_frames(rest + b).0) =~= (seq![a.take(i)]
                + frames) + split_frames(rest + b).0);
        },
        None => {
            assert(Seq::<Seq<u8>>::empty() + split_frames(a + b).0 =~= split_frames(a + b).0);
        },
    }
}

// ---------------------------------------------------------------------------------------
// What a frame says
// ---------------------------------------------------------------------------------------

/// What a line of a frame carries behind `data:`, trimmed; `None` if that is nothing.
pub open spec fn data_of_line(line: Seq<char>) -> Option<Seq<char>> {
    let inner = text::trimmed(line);
    if text::has_prefix(inner, "data:"@) {
        let payload = text::trimmed(inner.skip("data:"@.len() as int));
        if payload.len() > 0 {
            Some(payload)
        } else {
            None
        }
    } else {
        None
    }
}

/// What the lines of a frame carry behind `data:`.
pub open spec fn data_of_lines(lines: Seq<Seq<char>>) -> Seq<Seq<char>>
    decreases lines.len(),
{
    if lines.len() == 0 {
        Seq::empty()
    } else {
        let before = data_of_lines(lines.drop_last());
        match data_of_line(lines.last()) {
            Some(payload) => before.push(payload),
            None => before,
        }
    }
}

/// The payload of the text of a frame: its data lines or, where it has none, all of it,
/// trimmed. `None` if there is nothing to read in it.
pub open spec fn payload_of(content: Seq<char>) -> Option<Seq<char>> {
    let data = data_of_lines(text::line_seq(content));
    let payload = if data.len() == 0 {
        text::trimmed(content)
    } else {
        text::joined(data, "\n"@)
    };
    if (data.len() == 0 && payload.len() == 0) || payload == "[DONE]"@ {
        None
    } else {
        Some(payload)
    }
}

/// The payload of the text of a frame.
pub fn find_payload(content: &str) -> (payload: Option<String>)
    ensures
        text::opt_text(payload) == payload_of(content@),
{
    let lines = text::lines(content);
    let mut data: Vec<String> = Vec::new();
    let mut i: usize = 0;
    assert(text::texts(data@) =~= data_of_lines(text::texts(lines@).take(0)));
    while i < lines.len()
        invariant
            i <= lines@.len(),
            text::texts(data@) == data_of_lines(text::texts(lines@).take(i as int)),
        decreases lines@.len() - i,
    {
        let ghost all = text::texts(lines@);
        let ghost before = data@;
        proof {
            assert(all.take(i + 1).drop_last() =~= all.take(i as int));
            assert(all.take(i + 1).last() == lines@[i as int]@);
        }
        let line = text::trim(lines[i].as_str());
        if let Some(rest) = text::strip_prefix(line.as_str(), "data:") {
            if let Some(payload) = text::trim_non_empty(rest.as_str()) {
                data.push(payload);
                assert(text::texts(data@) =~= text::texts(before).push(payload@));
            }
        }
        i += 1;
    }
    assert(text::texts(lines@).take(i as int) =~= text::texts(lines@));
    let payload = if data.is_empty() {
        match text::trim_non_empty(content) {
            Some(payload) => payload,
            None => {
                return None;
            },
        }
    } else {
        text::join(data.as_slice(), "\n")
    };
    if text::same(payload.as_str(), "[DONE]") {
        None
    } else {
        Some(payload)
    }
}

/// The payload of a frame.
pub open spec fn frame_payload(frame: Seq<u8>) -> Option<Seq<char>> {
    if frame.len() == 0 {
        None
    } else {
        payload_of(text::utf8_lossy(frame))
    }
}

/// What is known once a document has been read: its usage replaces an earlier one, while
/// the first response id stays.
pub open spec fn learn_document(known: Learned, document: JsonTree) -> Learned {
    Learned {
        usage: match usage::usage_of(document) {
            Some(usage) => Some(usage),
            None => known.usage,
        },
        response_id: match known.response_id {
            Some(id) => Some(id),
            None => usage::response_id_of(document),
        },
    }
}

/// What is known once a frame has been read.
pub open spec fn learn_frame(known: Learned, frame: Seq<u8>) -> Learned {
    match frame_payload(frame) {
        Some(payload) => match json::document_tree(encode_utf8(payload)) {
            Some(document) => learn_document(known, document),
            None => known,
        },
        None => known,
    }
}

/// What is known once the frames have been read, one after the other.
pub open spec fn learn_frames(known: Learned, frames: Seq<Seq<u8>>) -> Learned
    decreases frames.len(),
{
    if frames.len() == 0 {
        known
    } else {
        learn_frame(learn_frames(known, frames.drop_last()), frames.last())
    }
}

/// Reading some frames and then some more is reading them all.
proof fn lemma_learn_frames_in_parts(known: Learned, a: Seq<Seq<u8>>, b: Seq<Seq<u8>>)
    ensures
        learn_frames(known, a + b) == learn_frames(learn_frames(known, a), b),
    decreases b.len(),
{
    if b.len() == 0 {
        assert(a + b =~= a);
    } else {
        lemma_learn_frames_in_parts(known, a, b.drop_last());
        assert((a + b).drop_last() =~= a + b.drop_last());
    }
}

/// What a whole event stream says.
pub open spec fn learn_stream(stream: Seq<u8>) -> Learned {
    let (frames, tail) = split_frames(stream);
    learn_frame(learn_frames(Learned { usage: None, response_id: None }, frames), tail)
}

/// What a whole body that is one JSON document says.
pub open spec fn learn_body(body: Seq<u8>) -> Learned {
    match json::document_tree(body) {
        Some(document) => Learned {
            usage: usage::usage_of(document),
            response_id: usage::response_id_of(document),
        },
        None => Learned { usage: None, response_id: None },
    }
}

// ---------------------------------------------------------------------------------------
// The collector
// ---------------------------------------------------------------------------------------

/// Gathers what a response says from the chunks of its body.
#[derive(Debug)]
pub struct ResponseUsageCollector {
    pub is_stream: bool,
    pub body: Vec<u8>,
    pub stream_buffer: Vec<u8>,
    pub usage: Option<UsageCapture>,
    pub response_id: Option<String>,
}

/// A collector as a mathematical value.
pub struct Gathered {
    pub is_stream: bool,
    pub body: Seq<u8>,
    pub buffer: Seq<u8>,
    pub known: Learned,
}

impl View for ResponseUsageCollector {
    type V = Gathered;

    open spec fn view(&self) -> Gathered {
        Gathered {
            is_stream: self.is_stream,
            body: self.body@,
            buffer: self.stream_buffer@,
            known: Learned { usage: self.usage, response_id: text::opt_text(self.response_id) },
        }
    }
}

/// A collector that has seen nothing.
pub open spec fn nothing_gathered(is_stream: bool) -> Gathered {
    Gathered {
        is_stream,
        body: Seq::empty(),
        buffer: Seq::empty(),
        known: Learned { usage: None, response_id: None },
    }
}

/// A collector with every complete frame of its buffer read.
pub open spec fn drained(g: Gathered) -> Gathered {
    let (frames, rest) = split_frames(g.buffer);
    Gathered { buffer: rest, known: learn_frames(g.known, frames), ..g }
}

/// A collector after one more chunk.
pub open spec fn gather(g: Gathered, chunk: Seq<u8>) -> Gathered {
    if chunk.len() == 0 {
        g
    } else if g.is_stream {
        drained(Gathered { buffer: g.buffer + chunk, ..g })
    } else {
        Gathered { body: g.body + chunk, ..g }
    }
}

/// A collector after several chunks.
pub open spec fn gather_all(g: Gathered, chunks: Seq<Seq<u8>>) -> Gathered
    decreases chunks.len(),
{
    if chunks.len() == 0 {
        g
    } else {
        gather(gather_all(g, chunks.drop_last()), chunks.last())
    }
}

/// What a collector gives at the end: the tail of a stream counts as a frame.
pub open spec fn conclude(g: Gathered) -> Learned {
    if g.is_stream {
        let d = drained(g);
        learn_frame(d.known, d.buffer)
    } else {
        learn_body(g.body)
    }
}

/// The bytes of all chunks.
pub open spec fn all_bytes(chunks: Seq<Seq<u8>>) -> Seq<u8>
    decreases chunks.len(),
{
    if chunks.len() == 0 {
        Seq::empty()
    } else {
        all_bytes(chunks.drop_last()) + chunks.last()
    }
}

/// The bytes of all chunks begin with those of the first.
pub proof fn bytes_from_first(chunks: Seq<Seq<u8>>)
    requires
        chunks.len() > 0,
    ensures
        all_bytes(chunks) == chunks[0] + all_bytes(chunks.drop_first()),
    decreases chunks.len(),
{
    let rest = chunks.drop_first();
    if chunks.len() == 1 {
        assert(all_bytes(chunks.drop_last()) =~= Seq::empty());
        assert(all_bytes(rest) =~= Seq::empty());
        assert(all_bytes(chunks) =~= chunks[0] + all_bytes(rest));
    } else {
        bytes_from_first(chunks.drop_last());
        assert(chunks.drop_last().drop_first() =~= rest.drop_last());
        assert(all_bytes(chunks) =~= chunks[0] + all_bytes(rest));
    }
}

proof fn lemma_gathered_stream(chunks: Seq<Seq<u8>>)
    ensures
        ({
            let (frames, rest) = split_frames(all_bytes(chunks));
            gather_all(nothing_gathered(true), chunks) == Gathered {
                is_stream: true,
                body: Seq::empty(),
                buffer: rest,
                known: learn_frames(nothing_gathered(true).known, frames),
            }
        }),
    decreases chunks.len(),
{
    if chunks.len() > 0 {
        lemma_gathered_stream(chunks.drop_last());
        let before = all_bytes(chunks.drop_last());
        let chunk = chunks.last();
        let (frames, rest) = split_frames(before);
        lemma_frames_of_parts(before, chunk);
        lemma_learn_frames_in_parts(
            nothing_gathered(true).known,
            frames,
            split_frames(rest + chunk).0,
        );
        if chunk.len() == 0 {
            assert(before + chunk =~= before);
        }
    } else {
        assert(boundary_from(Seq::<u8>::empty(), 0) is None);
    }
}

proof fn lemma_gathered_body(chunks: Seq<Seq<u8>>)
    ensures
        gather_all(nothing_gathered(false), chunks) == (Gathered {
            body: all_bytes(chunks),
            ..nothing_gathered(false)
        }),
    decreases chunks.len(),
{
    if chunks.len() > 0 {
        lemma_gathered_body(chunks.drop_last());
        if chunks.last().len() == 0 {
            assert(all_bytes(chunks.drop_last()) + chunks.last() =~= all_bytes(chunks.drop_last()));
        }
    }
}

/// What a collector gives depends on the bytes of the response alone, never on how they
/// were cut into chunks.
pub proof fn chunks_do_not_matter(is_stream: bool, chunks: Seq<Seq<u8>>)
    ensures
        conclude(gather_all(nothing_gathered(is_stream), chunks)) == (if is_stream {
            learn_stream(all_bytes(chunks))
        } else {
            learn_body(all_bytes(chunks))
        }),
{
    if is_stream {
        lemma_gathered_stream(chunks);
        let (frames, rest) = split_frames(all_bytes(chunks));
        lemma_rest_is_split(all_bytes(chunks));
        assert(learn_frames(nothing_gathered(true).known, frames + Seq::empty()) == learn_frames(
            nothing_gathered(true).known,
            frames,
        )) by {
            assert(frames + Seq::<Seq<u8>>::empty() =~= frames);
        }
    } else {
        lemma_gathered_body(chunks);
    }
}

/// No complete frame is left behind the last one.
proof fn lemma_rest_is_split(s: Seq<u8>)
    ensures
        split_frames(split_frames(s).1) == (Seq::<Seq<u8>>::empty(), split_frames(s).1),
    decreases s.len(),
{
    lemma_boundary(s, 0);
    match boundary_from(s, 0) {
        Some((i, n)) => lemma_rest_is_split(s.skip(i + n)),
        None => {},
    }
}

fn extend_bytes(bytes: &mut Vec<u8>, more: &[u8])
    ensures
        final(bytes)@ == old(bytes)@ + more@,
{
    bytes.extend_from_slice(more);
    assert(bytes@ =~= old(bytes)@ + more@);
}

impl ResponseUsageCollector {
    /// A collector for a response that has not begun.
    pub fn new(is_stream: bool) -> (collector: Self)
        ensures
            collector@ == nothing_gathered(is_stream),
    {
        ResponseUsageCollector {
            is_stream,
            body: Vec::new(),
            stream_buffer: Vec::new(),
            usage: None,
            response_id: None,
        }
    }

    /// Takes in one chunk of the body.
    pub fn feed(&mut self, chunk: &[u8])
        ensures
            final(self)@ == gather(old(self)@, chunk@),
    {
        if chunk.is_empty() {
            return ;
        }
        if self.is_stream {
            self.feed_stream_chunk(chunk);
        } else {
            extend_bytes(&mut self.body, chunk);
        }
    }

    /// What the response has said, now that it is over.
    pub fn finish(self) -> (capture: ResponseCapture)
        ensures
            capture@ == conclude(self@),
    {
        let mut collector = self;
        if collector.is_stream {
            collector.process_stream_buffer(true);
            ResponseCapture { usage: collector.usage, response_id: collector.response_id }
        } else {
            match json::parse_json(collector.body.as_slice()) {
                Some(document) => ResponseCapture {
                    usage: usage::extract_usage_capture(&document),
                    response_id: usage::extract_response_id(&document),
                },
                None => ResponseCapture { usage: None, response_id: None },
            }
        }
    }

    /// Takes in one chunk of an event stream.
    pub fn feed_stream_chunk(&mut self, chunk: &[u8])
        ensures
            final(self)@ == drained(Gathered { buffer: old(self)@.buffer + chunk@, ..old(self)@ }),
    {
        extend_bytes(&mut self.stream_buffer, chunk);
        self.process_stream_buffer(false);
    }

    /// Reads every complete frame of the buffer and, if `flush_tail` is set, what is left
    /// as one more frame.
    pub fn process_stream_buffer(&mut self, flush_tail: bool)
        ensures
            ({
                let d = drained(old(self)@);
                final(self)@ == if flush_tail {
                    Gathered { buffer: Seq::empty(), known: learn_frame(d.known, d.buffer), ..d }
                } else {
                    d
                }
            }),
    {
        let ghost start = self@;
        let ghost mut done: Seq<Seq<u8>> = Seq::empty();
        assert(done + split_frames(start.buffer).0 =~= split_frames(start.buffer).0);
        loop
            invariant
                self@.is_stream == start.is_stream,
                self@.body == start.body,
                self@.known == learn_frames(start.known, done),
                split_frames(start.buffer).0 == done + split_frames(self@.buffer).0,
                split_frames(start.buffer).1 == split_frames(self@.buffer).1,
            ensures
                self@ == drained(start),
            decreases self.stream_buffer@.len(),
        {
            let ghost buffer = self.stream_buffer@;
            proof {
                lemma_boundary(buffer, 0);
            }
            match find_sse_frame_boundary(self.stream_buffer.as_slice()) {
                Some((index, len)) => {
                    assert(index + len <= self.stream_buffer.len());
                    let rest = self.stream_buffer.split_off(index + len);
                    self.stream_buffer.truncate(index);
                    let mut frame: Vec<u8> = rest;
                    core::mem::swap(&mut frame, &mut self.stream_buffer);
                    assert(frame@ =~= buffer.take(index as int));
                    assert(self.stream_buffer@ =~= buffer.skip(index + len));
                    self.process_stream_frame(frame.as_slice());
                    proof {
                        let before = done;
                        done = before.push(frame@);
                        assert(done.drop_last() =~= before);
                        let later = split_frames(buffer.skip(index + len)).0;
                        assert(before + (seq![frame@] + later) =~= done + later);
                    }
                },
                None => {
                    assert(done + Seq::<Seq<u8>>::empty() =~= done);
                    break ;
                },
            }
        }
        if flush_tail && !self.stream_buffer.is_empty() {
            let mut frame: Vec<u8> = Vec::new();
            core::mem::swap(&mut frame, &mut self.stream_buffer);
            self.process_stream_frame(frame.as_slice());
            assert(self@.buffer =~= Seq::empty());
        } else if flush_tail {
            assert(self@.buffer =~= Seq::empty());
        }
    }

    /// Reads one frame.
    pub fn process_stream_frame(&mut self, frame: &[u8])
        ensures
            final(self)@ == (Gathered { known: learn_frame(old(self)@.known, frame@), ..old(self)@
            }),
            frame@.len() > 0 ==> text::read_exactly(frame@),
    {
        if frame.is_empty() {
            return ;
        }
        let content = text::from_utf8_lossy(frame);
        if let Some(payload) = find_payload(content.as_str()) {
            if let Some(document) = json::parse_json(payload.as_str().as_bytes()) {
                self.learn(&document);
            }
        }
    }

    /// Takes in what a document says.
    pub fn learn(&mut self, document: &JsonValue)
        ensures
            final(self)@ == (Gathered {
                known: learn_document(old(self)@.known, document@),
                ..old(self)@
            }),
    {
        if let Some(usage) = usage::extract_usage_capture(document) {
            self.usage = Some(usage);
        }
        if self.response_id.is_none() {
            self.response_id = usage::extract_response_id(document);
        }
    }
}

/// A response is read as an event stream: the request asked for one, or the content type
/// says so.
pub open spec fn is_streamed(content_type: Seq<char>, request_is_stream: bool) -> bool {
    request_is_stream || text::has_part(text::lower(content_type), "text/event-stream"@)
}

/// Whether a response is read as an event stream.
pub fn should_treat_response_as_stream(content_type: &str, request_is_stream: bool) -> (yes: bool)
    ensures
        yes == is_streamed(content_type@, request_is_stream),
{
    request_is_stream || text::contains(
        text::to_ascii_lowercase(content_type).as_str(),
        "text/event-stream",
    )
}

// ---------------------------------------------------------------------------------------
// Laws
// ---------------------------------------------------------------------------------------

/// A document that reports a usage replaces whatever usage was known, whatever else is known;
/// one that reports none changes nothing of it. The first response id that is found stays.
pub proof fn reports_replace_and_ids_stay(known: Learned, document: JsonTree)
    ensures
        usage::usage_of(document) matches Some(u) ==> learn_document(known, document).usage == Some(
            u,
        ),
        usage::usage_of(document) is None ==> learn_document(known, document).usage == known.usage,
        known.response_id is Some ==> learn_document(known, document).response_id
            == known.response_id,
        known.response_id is None ==> learn_document(known, document).response_id
            == usage::response_id_of(document),
{
}

/// The document that a frame carries, if it carries one.
pub open spec fn frame_document(frame: Seq<u8>) -> Option<JsonTree> {
    if frame_payload(frame) is Some {
        json::document_tree(encode_utf8(frame_payload(frame)->0))
    } else {
        None
    }
}

/// The frame reports this usage.
pub open spec fn reports(frame: Seq<u8>, u: UsageCapture) -> bool {
    frame_document(frame) is Some && usage::usage_of(frame_document(frame)->0) == Some(u)
}

/// The frame names this response.
pub open spec fn names(frame: Seq<u8>, id: Seq<char>) -> bool {
    frame_document(frame) is Some && usage::response_id_of(frame_document(frame)->0) == Some(id)
}

/// After frames have been read, the usage is that of the last frame that reports one, whatever
/// stands in the others; if none does, it is what was known before.
pub proof fn last_report_counts(known: Learned, frames: Seq<Seq<u8>>, k: int, u: UsageCapture)
    requires
        0 <= k < frames.len() ==> reports(frames[k], u),
        forall|i: int, v: UsageCapture|
            k < i < frames.len() && 0 <= i ==> !#[trigger] reports(frames[i], v),
        -1 <= k < frames.len(),
    ensures
        k >= 0 ==> learn_frames(known, frames).usage == Some(u),
        k < 0 ==> learn_frames(known, frames).usage == known.usage,
    decreases frames.len(),
{
    if frames.len() > 0 {
        let shorter = frames.drop_last();
        let last = frames.len() - 1;
        let before = learn_frames(known, shorter);
        if k < last {
            assert forall|i: int, v: UsageCapture|
                k < i < shorter.len() && 0 <= i implies !#[trigger] reports(shorter[i], v) by {
                assert(!reports(frames[i], v));
            }
            last_report_counts(known, shorter, k, u);
            if let Some(document) = frame_document(frames[last]) {
                if let Some(v) = usage::usage_of(document) {
                    assert(reports(frames[last], v));
                }
            }
        }
    }
}

/// After frames have been read, the response id is the one that was known before or, where
/// none was, that of the first frame that names one.
pub proof fn first_name_counts(known: Learned, frames: Seq<Seq<u8>>, k: int, id: Seq<char>)
    requires
        0 <= k <= frames.len(),
        k < frames.len() ==> names(frames[k], id),
        forall|i: int, other: Seq<char>| 0 <= i < k ==> !#[trigger] names(frames[i], other),
    ensures
        known.response_id is Some ==> learn_frames(known, frames).response_id == known.response_id,
        known.response_id is None && k < frames.len() ==> learn_frames(known, frames).response_id
            == Some(id),
        known.response_id is None && k == frames.len() ==> learn_frames(
            known,
            frames,
        ).response_id is None,
    decreases frames.len(),
{
    if frames.len() > 0 {
        let shorter = frames.drop_last();
        let last = frames.len() - 1;
        let cut = if k < shorter.len() {
            k
        } else {
            shorter.len() as int
        };
        assert forall|i: int, other: Seq<char>| 0 <= i < cut implies !#[trigger] names(
            shorter[i],
            other,
        ) by {
            assert(!names(frames[i], other));
        }
        first_name_counts(known, shorter, cut, id);
        if k == frames.len() {
            if let Some(document) = frame_document(frames[last]) {
                if let Some(other) = usage::response_id_of(document) {
                    assert(names(frames[last], other));
                }
            }
        }
    }
}

/// The frames of a stream, and what is left at its end as one more.
pub open spec fn all_frames(stream: Seq<u8>) -> Seq<Seq<u8>> {
    split_frames(stream).0.push(split_frames(stream).1)
}

/// What a collector gives at the end of a stream is what its frames say, that at its end
/// included: the last usage that is reported and the first id.
pub proof fn streams_are_read_to_their_end(
    chunks: Seq<Seq<u8>>,
    k: int,
    u: UsageCapture,
    m: int,
    id: Seq<char>,
)
    requires
        ({
            let frames = all_frames(all_bytes(chunks));
            &&& 0 <= k < frames.len()
            &&& reports(frames[k], u)
            &&& forall|i: int, v: UsageCapture|
                k < i < frames.len() && 0 <= i ==> !#[trigger] reports(frames[i], v)
            &&& 0 <= m < frames.len()
            &&& names(frames[m], id)
            &&& forall|i: int, other: Seq<char>| 0 <= i < m ==> !#[trigger] names(frames[i], other)
        }),
    ensures
        conclude(gather_all(nothing_gathered(true), chunks)).usage == Some(u),
        conclude(gather_all(nothing_gathered(true), chunks)).response_id == Some(id),
{
    let stream = all_bytes(chunks);
    let frames = all_frames(stream);
    let nothing = Learned { usage: None, response_id: None };
    chunks_do_not_matter(true, chunks);
    assert(frames.drop_last() =~= split_frames(stream).0);
    last_report_counts(nothing, frames, k, u);
    first_name_counts(nothing, frames, m, id);
    assert(learn_stream(stream) == learn_frames(nothing, frames));
}

/// What a collector gives at the end of a body that is one document is what that says; if it is
/// none, nothing.
pub proof fn bodies_are_read_whole(chunks: Seq<Seq<u8>>)
    ensures
        ({
            let learned = conclude(gather_all(nothing_gathered(false), chunks));
            match json::document_tree(all_bytes(chunks)) {
                Some(document) => learned.usage == usage::usage_of(document) && learned.response_id
                    == usage::response_id_of(document),
                None => learned.usage is None && learned.response_id is None,
            }
        }),
{
    chunks_do_not_matter(false, chunks);
}

/// At `i` stands an empty line, ended by LF or by CRLF.
pub open spec fn empty_line_at(s: Seq<u8>, i: int) -> bool {
    ||| 0 <= i && i + 2 <= s.len() && s[i] == 10 && s[i + 1] == 10
    ||| 0 <= i && i + 4 <= s.len() && s[i] == 13 && s[i + 1] == 10 && s[i + 2] == 13 && s[i + 3]
        == 10
}

/// A frame ends where the first empty line begins, and what follows that line is read in the
/// same way; without an empty line there is no complete frame.
pub proof fn frames_end_at_empty_lines(frame: Seq<u8>, rest: Seq<u8>)
    ensures
        ({
            let s = frame + seq![10u8, 10u8] + rest;
            (forall|j: int| 0 <= j < frame.len() ==> !#[trigger] empty_line_at(s, j)) ==> {
                &&& split_frames(s).0 == seq![frame] + split_frames(rest).0
                &&& split_frames(s).1 == split_frames(rest).1
            }
        }),
        ({
            let s = frame + seq![13u8, 10u8, 13u8, 10u8] + rest;
            (forall|j: int| 0 <= j < frame.len() ==> !#[trigger] empty_line_at(s, j)) ==> {
                &&& split_frames(s).0 == seq![frame] + split_frames(rest).0
                &&& split_frames(s).1 == split_frames(rest).1
            }
        }),
        (forall|j: int| 0 <= j < frame.len() ==> !#[trigger] empty_line_at(frame, j)) ==> {
            &&& split_frames(frame).0.len() == 0
            &&& split_frames(frame).1 == frame
        },
{
    let n = frame.len() as int;
    let s = frame + seq![10u8, 10u8] + rest;
    if forall|j: int| 0 <= j < frame.len() ==> !#[trigger] empty_line_at(s, j) {
        assert forall|j: int| 0 <= j < n implies separator_len(s, j) == 0 by {
            assert(!empty_line_at(s, j));
        }
        assert(separator_len(s, n) == 2);
        lemma_first_boundary(s, 0, n);
        assert(s.take(n) =~= frame);
        assert(s.skip(n + 2) =~= rest);
    }
    let t = frame + seq![13u8, 10u8, 13u8, 10u8] + rest;
    if forall|j: int| 0 <= j < frame.len() ==> !#[trigger] empty_line_at(t, j) {
        assert forall|j: int| 0 <= j < n implies separator_len(t, j) == 0 by {
            assert(!empty_line_at(t, j));
        }
        assert(separator_len(t, n) == 4);
        lemma_first_boundary(t, 0, n);
        assert(t.take(n) =~= frame);
        assert(t.skip(n + 4) =~= rest);
    }
    if forall|j: int| 0 <= j < frame.len() ==> !#[trigger] empty_line_at(frame, j) {
        lemma_boundary(frame, 0);
        assert forall|j: int| 0 <= j < n implies separator_len(frame, j) == 0 by {
            assert(!empty_line_at(frame, j));
        }
    }
}

/// A line carries what stands behind `data:`, without the white space around it, and nothing
/// where that is blank or the line begins otherwise.
pub proof fn data_stands_behind_its_name(line: Seq<char>, data: Seq<char>)
    ensures
        text::trimmed(line) == "data:"@ + data ==> data_of_line(line) == (if text::trimmed(
            data,
        ).len() > 0 {
            Some(text::trimmed(data))
        } else {
            None
        }),
        (text::trimmed(line).len() < 5 || text::trimmed(line).take(5) != "data:"@)
            ==> data_of_line(line) is None,
{
    reveal_strlit("data:");
    let inner = text::trimmed(line);
    if inner == "data:"@ + data {
        assert(inner.subrange(0, 5) =~= "data:"@);
        assert(inner.skip(5) =~= data);
    }
    if inner.len() >= 5 {
        assert(inner.subrange(0, 5) =~= inner.take(5));
    }
}

/// The payload of a frame is what its data lines carry, one line of it each; a frame without
/// any is read whole. The mark at the end of a stream is no payload.
pub proof fn payloads_are_data_lines(content: Seq<char>)
    ensures
        ({
            let data = data_of_lines(text::line_seq(content));
            &&& data.len() == 1 && data[0] != "[DONE]"@ ==> payload_of(content) == Some(data[0])
            &&& data.len() == 2 && data[0] + "\n"@ + data[1] != "[DONE]"@ ==> payload_of(content)
                == Some(data[0] + "\n"@ + data[1])
            &&& data.len() == 1 && data[0] == "[DONE]"@ ==> payload_of(content) is None
            &&& data.len() == 0 && text::trimmed(content).len() == 0 ==> payload_of(content) is None
            &&& data.len() == 0 && text::trimmed(content).len() > 0 && text::trimmed(content)
                != "[DONE]"@ ==> payload_of(content) == Some(text::trimmed(content))
        }),
{
    reveal_with_fuel(text::joined, 3);
    let data = data_of_lines(text::line_seq(content));
    if data.len() == 2 {
        assert(data.drop_last()[0] == data[0]);
        assert(data.last() == data[1]);
    }
}

/// Every data line of a frame is part of what its lines carry, in their order.
pub proof fn every_data_line_counts(lines: Seq<Seq<char>>, line: Seq<char>)
    ensures
        data_of_lines(Seq::empty()).len() == 0,
        data_of_line(line) matches Some(payload) ==> data_of_lines(lines.push(line))
            == data_of_lines(lines).push(payload),
        data_of_line(line) is None ==> data_of_lines(lines.push(line)) == data_of_lines(lines),
{
    assert(lines.push(line).drop_last() =~= lines);
}

/// A response is read as an event stream exactly if the request asked for one or the content
/// type mentions `text/event-stream`, in any case.
pub proof fn streams_are_recognized(content_type: Seq<char>, request_is_stream: bool, at: int)
    ensures
        request_is_stream ==> is_streamed(content_type, request_is_stream),
        0 <= at && at + 17 <= content_type.len() && text::lower(
            content_type.subrange(at, at + 17),
        ) == "text/event-stream"@ ==> is_streamed(content_type, request_is_stream),
        !request_is_stream && is_streamed(content_type, request_is_stream) ==> exists|i: int|
            0 <= i && i + 17 <= content_type.len() && #[trigger] text::lower(content_type).subrange(
                i,
                i + 17,
            ) == "text/event-stream"@,
{
    reveal_strlit("text/event-stream");
    let part = "text/event-stream"@;
    let lower = text::lower(content_type);
    if 0 <= at && at + 17 <= content_type.len() && text::lower(content_type.subrange(at, at + 17))
        == part {
        assert(lower.subrange(at, at + 17) =~= text::lower(content_type.subrange(at, at + 17)));
        assert(text::occurs_at(lower, part, at));
    }
    if text::has_part(lower, part) {
        let i = choose|i: int| text::occurs_at(lower, part, i);
        assert(lower.subrange(i, i + 17) == part);
    }
}

/// A frame is read whole, whatever its length; only an empty one carries nothing.
pub proof fn frames_are_read_whole(frame: Seq<u8>)
    ensures
        frame.len() > 0 ==> frame_payload(frame) == payload_of(text::utf8_lossy(frame)),
        frame.len() == 0 ==> frame_payload(frame) is None,
{
}

/// Several data lines make up one payload, with a line feed between each and the next.
pub proof fn data_lines_are_joined(content: Seq<char>)
    ensures
        ({
            let data = data_of_lines(text::line_seq(content));
            data.len() > 0 && text::joined(data, "\n"@) != "[DONE]"@ ==> payload_of(content)
                == Some(text::joined(data, "\n"@))
        }),
{
}

} // verus!
