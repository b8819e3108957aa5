use codex_local_access::capture::{
    find_sse_frame_boundary, should_treat_response_as_stream, ResponseUsageCollector,
};

#[test]
fn parses_sse_usage_when_request_is_stream_even_if_content_type_is_json() {
    assert!(should_treat_response_as_stream(
        "application/json; charset=utf-8",
        true
    ));

    let mut collector = ResponseUsageCollector::new(true);
    collector.feed(
        br#"event: response.completed
data: {"type":"response.completed","response":{"id":"resp_123","usage":{"input_tokens":16,"input_tokens_details":{"cached_tokens":0},"output_tokens":5,"output_tokens_details":{"reasoning_tokens":0},"total_tokens":21}}}

"#,
    );

    let capture = collector.finish();
    let usage = capture.usage.expect("stream usage should be parsed");
    assert_eq!(usage.input_tokens, 16);
    assert_eq!(usage.output_tokens, 5);
    assert_eq!(usage.total_tokens, 21);
    assert_eq!(capture.response_id.as_deref(), Some("resp_123"));
}

#[test]
fn content_type_alone_makes_a_stream() {
    assert!(should_treat_response_as_stream(
        "Text/Event-Stream; charset=utf-8",
        false
    ));
    assert!(!should_treat_response_as_stream("application/json", false));
}

#[test]
fn frames_end_at_the_first_separator() {
    assert_eq!(find_sse_frame_boundary(b"ab\n\ncd"), Some((2, 2)));
    assert_eq!(find_sse_frame_boundary(b"ab\r\n\r\ncd\n\n"), Some((2, 4)));
    assert_eq!(find_sse_frame_boundary(b"ab\ncd"), None);
    assert_eq!(find_sse_frame_boundary(b"\n"), None);
    assert_eq!(find_sse_frame_boundary(b""), None);
}

#[test]
fn cutting_a_stream_into_chunks_changes_nothing() {
    let stream: &[u8] = b"data: {\"id\":\"r1\"}\r\n\r\nevent: x\ndata: {\"usage\":{\"input_tokens\":3}}\n\ndata: [DONE]\n\ndata: {\"usage\":{\"input_tokens\":9,\"output_tokens\":1}}";
    let mut whole = ResponseUsageCollector::new(true);
    whole.feed(stream);
    let expected = whole.finish();
    assert_eq!(expected.usage.unwrap().input_tokens, 9);
    assert_eq!(expected.usage.unwrap().total_tokens, 10);
    assert_eq!(expected.response_id.as_deref(), Some("r1"));
    for size in 1..stream.len() {
        let mut parts = ResponseUsageCollector::new(true);
        for chunk in stream.chunks(size) {
            parts.feed(chunk);
            parts.feed(b"");
        }
        let capture = parts.finish();
        assert_eq!(capture.usage, expected.usage);
        assert_eq!(capture.response_id, expected.response_id);
    }
}

#[test]
fn data_lines_of_a_frame_belong_together() {
    let mut collector = ResponseUsageCollector::new(true);
    collector.feed(b"data: {\"usage\":\ndata:   {\"input_tokens\":2}}\n\n");
    assert_eq!(collector.finish().usage.unwrap().input_tokens, 2);
}

#[test]
fn a_frame_without_data_lines_is_read_as_it_stands() {
    let mut collector = ResponseUsageCollector::new(true);
    collector.feed(b"  {\"id\":\"plain\"}  \n\n");
    assert_eq!(collector.finish().response_id.as_deref(), Some("plain"));
}

#[test]
fn a_plain_body_is_one_document() {
    let mut collector = ResponseUsageCollector::new(false);
    collector.feed(b"{\"id\":\"resp_9\",");
    collector.feed(b"\"usage\":{\"input_tokens\":1,\"output_tokens\":2}}");
    let capture = collector.finish();
    assert_eq!(capture.response_id.as_deref(), Some("resp_9"));
    assert_eq!(capture.usage.unwrap().total_tokens, 3);
}

#[test]
fn what_is_no_document_says_nothing() {
    let mut body = ResponseUsageCollector::new(false);
    body.feed(b"not json");
    let capture = body.finish();
    assert!(capture.usage.is_none());
    assert!(capture.response_id.is_none());
    let mut stream = ResponseUsageCollector::new(true);
    stream.feed(b"data: {broken\n\n: ping\n\n");
    assert!(stream.finish().response_id.is_none());
}

#[test]
fn the_first_response_id_counts_and_the_last_usage() {
    let mut collector = ResponseUsageCollector::new(true);
    collector.feed_stream_chunk(b"data: {\"id\":\"a\",\"usage\":{\"input_tokens\":1}}\n\n");
    collector.feed_stream_chunk(b"data: {\"id\":\"b\",\"usage\":{\"input_tokens\":2}}\n\ntail");
    collector.process_stream_buffer(true);
    assert_eq!(collector.response_id.as_deref(), Some("a"));
    assert_eq!(collector.usage.unwrap().input_tokens, 2);
    assert!(collector.stream_buffer.is_empty());
}
