use codex_local_access::json::JsonValue;
use codex_local_access::relay::{
    build_relay_head, error_response, json_response, options_response, ResponseRelay,
    UpstreamHead,
};

const CORS: &str = "Connection: close\r\nAccess-Control-Allow-Origin: *\r\nAccess-Control-Allow-Methods: GET, POST, OPTIONS\r\nAccess-Control-Allow-Headers: Authorization, Content-Type, OpenAI-Beta, X-API-Key, X-Codex-Beta-Features, X-Client-Request-Id, Originator, Session_id, ChatGPT-Account-Id\r\n";

fn head(status: u16) -> UpstreamHead {
    UpstreamHead {
        status,
        content_type: None,
        request_id: None,
        processing_ms: None,
    }
}

#[test]
fn documents_are_sent_with_their_length() {
    let response = json_response(404, "Not Found", &JsonValue::Array(vec![JsonValue::Null]));
    assert_eq!(
        String::from_utf8(response).unwrap(),
        format!(
            "HTTP/1.1 404 Not Found\r\nContent-Type: application/json; charset=utf-8\r\nContent-Length: 6\r\n{}\r\n[null]",
            CORS
        )
    );
}

#[test]
fn errors_are_sent_as_documents() {
    let response = error_response(503, "Service Unavailable", "无 \"x\"");
    let body = "{\"error\":\"无 \\\"x\\\"\"}";
    assert_eq!(
        String::from_utf8(response).unwrap(),
        format!(
            "HTTP/1.1 503 Service Unavailable\r\nContent-Type: application/json; charset=utf-8\r\nContent-Length: {}\r\n{}\r\n{}",
            body.len(),
            CORS,
            body
        )
    );
}

#[test]
fn browsers_are_told_what_they_may_send() {
    assert_eq!(
        String::from_utf8(options_response()).unwrap(),
        format!(
            "HTTP/1.1 200 OK\r\nContent-Type: text/plain; charset=utf-8\r\nContent-Length: 0\r\n{}\r\n",
            CORS
        )
    );
}

#[test]
fn headers_are_passed_on() {
    let mut h = head(404);
    h.content_type = Some("text/plain".to_string());
    h.request_id = Some("r".to_string());
    h.processing_ms = Some("7".to_string());
    let (_, bytes) = ResponseRelay::begin(&h, false);
    assert_eq!(
        String::from_utf8(bytes).unwrap(),
        format!(
            "HTTP/1.1 404 Not Found\r\nContent-Type: text/plain\r\nTransfer-Encoding: chunked\r\n{}x-request-id: r\r\nopenai-processing-ms: 7\r\n\r\n",
            CORS
        )
    );
}

#[test]
fn unknown_statuses_pass_as_ok() {
    for status in [299, 42, 1000] {
        let (_, bytes) = ResponseRelay::begin(&head(status), false);
        assert_eq!(
            String::from_utf8(bytes).unwrap(),
            format!(
                "HTTP/1.1 {} OK\r\nContent-Type: application/json; charset=utf-8\r\nTransfer-Encoding: chunked\r\n{}\r\n",
                status, CORS
            )
        );
    }
    let named = build_relay_head(&head(200), Some("Fine"));
    assert!(String::from_utf8(named).unwrap().starts_with("HTTP/1.1 200 Fine\r\n"));
}

#[test]
fn chunks_carry_their_length_in_hexadecimal() {
    let (mut relay, _) = ResponseRelay::begin(&head(200), false);
    assert_eq!(relay.chunk(&vec![b' '; 0x1AF]).as_deref(), Some(&b"1AF\r\n"[..]));
    assert_eq!(relay.chunk(b""), None);
    assert_eq!(
        relay.chunk(b"{\"id\":\"r\"}").as_deref(),
        Some(&b"A\r\n"[..])
    );
    assert_eq!(ResponseRelay::chunk_end(), b"\r\n");
    let (last, capture) = relay.finish();
    assert_eq!(last, b"0\r\n\r\n");
    assert_eq!(capture.response_id.as_deref(), Some("r"));
}

#[test]
fn clients_can_put_chunks_together_again() {
    let (mut relay, _) = ResponseRelay::begin(&head(200), true);
    let chunks: Vec<&[u8]> = vec![b"data: {\"id\":", b"", b"\"s\"}\n\n", b"0123456789abcdef0"];
    let mut sent: Vec<u8> = Vec::new();
    for chunk in &chunks {
        if let Some(prefix) = relay.chunk(chunk) {
            sent.extend_from_slice(&prefix);
            sent.extend_from_slice(chunk);
            sent.extend_from_slice(&ResponseRelay::chunk_end());
        }
    }
    let (last, capture) = relay.finish();
    sent.extend_from_slice(&last);
    assert_eq!(capture.response_id.as_deref(), Some("s"));
    let mut read: Vec<u8> = Vec::new();
    let mut rest = &sent[..];
    loop {
        let line = rest.iter().position(|b| *b == b'\r').unwrap();
        let size =
            usize::from_str_radix(std::str::from_utf8(&rest[..line]).unwrap(), 16).unwrap();
        rest = &rest[line + 2..];
        read.extend_from_slice(&rest[..size]);
        rest = &rest[size + 2..];
        if size == 0 {
            break;
        }
    }
    assert!(rest.is_empty());
    assert_eq!(read, chunks.concat());
}
