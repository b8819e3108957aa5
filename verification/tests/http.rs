use codex_local_access::http::{
    find_header_end, parse_content_length, parse_http_request, RequestReader,
    MAX_HTTP_REQUEST_BYTES,
};

#[test]
fn headers_end_behind_the_first_empty_line() {
    assert_eq!(find_header_end(b"GET / HTTP/1.1\r\n\r\nbody\r\n\r\n"), Some(18));
    assert_eq!(find_header_end(b"\r\n\r\n"), Some(4));
    assert_eq!(find_header_end(b"GET / HTTP/1.1\n\n"), None);
    assert_eq!(find_header_end(b"\r\n\r"), None);
    assert_eq!(find_header_end(b""), None);
}

#[test]
fn lengths_are_read_from_the_first_line_about_them() {
    assert_eq!(parse_content_length(b"POST / HTTP/1.1\r\nHost: x\r\n\r\n"), Ok(0));
    assert_eq!(
        parse_content_length(b"POST / HTTP/1.1\r\n CONTENT-length : +12 \r\nContent-Length: 5\r\n\r\n"),
        Ok(12)
    );
    assert_eq!(
        parse_content_length(b"A\r\nContent-Length:\r\n\r\n"),
        Err("非法 Content-Length: cannot parse integer from empty string".to_string())
    );
    assert_eq!(
        parse_content_length(b"A\r\nContent-Length: 1x\r\n\r\n"),
        Err("非法 Content-Length: invalid digit found in string".to_string())
    );
    assert_eq!(
        parse_content_length(b"A\r\nContent-Length: 99999999999999999999999\r\n\r\n"),
        Err("非法 Content-Length: number too large to fit in target type".to_string())
    );
    assert_eq!(
        parse_content_length(b"A\r\nContent-Length: -1\r\n\r\n"),
        Err("非法 Content-Length: invalid digit found in string".to_string())
    );
}

#[test]
fn requests_are_read_in_any_parts() {
    let request: &[u8] = b"POST /v1/x HTTP/1.1\r\nContent-Length: 4\r\n\r\nabcd";
    for size in 1..=request.len() {
        let mut reader = RequestReader::new();
        let mut complete = None;
        for part in request.chunks(size) {
            assert!(complete.is_none());
            complete = reader.push(part).unwrap();
        }
        assert_eq!(complete.as_deref(), Some(request));
    }
}

#[test]
fn bytes_behind_a_request_are_left_out() {
    let mut reader = RequestReader::new();
    let read = reader.push(b"GET / HTTP/1.1\r\n\r\nGET /next").unwrap();
    assert_eq!(read.as_deref(), Some(&b"GET / HTTP/1.1\r\n\r\n"[..]));
}

#[test]
fn requests_that_cannot_be_read_are_reported() {
    let mut reader = RequestReader::new();
    assert_eq!(
        reader.push(b"GET / HTTP/1.1\r\nContent-Length: x\r\n\r\n"),
        Err("非法 Content-Length: invalid digit found in string".to_string())
    );
    let mut reader = RequestReader::new();
    assert_eq!(reader.push(&vec![b'a'; MAX_HTTP_REQUEST_BYTES]), Ok(None));
    assert_eq!(reader.push(b"a"), Err("请求体过大".to_string()));
    let mut reader = RequestReader::new();
    assert_eq!(
        reader.push(b"GET / HTTP/1.1\r\nContent-Length: 18446744073709551615\r\n\r\n"),
        Ok(None)
    );
    assert_eq!(reader.finish(), "请求不完整");
}

#[test]
fn requests_are_parsed() {
    let request = parse_http_request(
        b"POST  /v1/x?y HTTP/1.1\r\nHost: h:80\r\nX-A : 1\r\nx-a: 2\r\nnonsense\r\n\r\nbody\r\n",
    )
    .unwrap();
    assert_eq!(request.method, "POST");
    assert_eq!(request.target, "/v1/x?y");
    assert_eq!(request.headers.get("host").map(String::as_str), Some("h:80"));
    assert_eq!(request.headers.get("x-a").map(String::as_str), Some("2"));
    assert_eq!(request.headers.len(), 2);
    assert_eq!(request.headers.get("nonsense"), None);
    assert_eq!(request.body, b"body\r\n");
}

#[test]
fn header_bytes_that_are_no_text_are_replaced() {
    let request = parse_http_request(b"GET / HTTP/1.1\r\nx: a\xffb\r\n\r\n").unwrap();
    assert_eq!(
        request.headers.get("x").map(String::as_str),
        Some("a\u{fffd}b")
    );
}

#[test]
fn faulty_requests_are_refused() {
    assert_eq!(
        parse_http_request(b"GET / HTTP/1.1\r\n").unwrap_err(),
        "缺少 HTTP 头结束标记"
    );
    assert_eq!(
        parse_http_request(b"  \r\n\r\n").unwrap_err(),
        "请求行缺少 method"
    );
    assert_eq!(
        parse_http_request(b"GET\r\n\r\n").unwrap_err(),
        "请求行缺少 target"
    );
    assert_eq!(
        parse_http_request(b"\r\n\r\n").unwrap_err(),
        "请求行缺少 method"
    );
}
