use rinha::http::{parse, ParseError, ResponseTable, Route};

#[test]
fn parse_post_fraud_score() {
    let raw = b"POST /fraud-score HTTP/1.1\r\nHost: x\r\nContent-Length: 5\r\n\r\nhello";
    let (req, n) = parse(raw).unwrap();
    assert_eq!(req.route, Route::FraudScore);
    assert_eq!(&raw[req.body], b"hello");
    assert_eq!(n, raw.len());
}

#[test]
fn parse_get_ready() {
    let raw = b"GET /ready HTTP/1.1\r\nHost: x\r\n\r\n";
    let (req, n) = parse(raw).unwrap();
    assert_eq!(req.route, Route::Ready);
    assert_eq!(req.body.len(), 0);
    assert_eq!(n, raw.len());
}

#[test]
fn parse_incomplete_returns_err() {
    let raw = b"POST /fraud-score HTTP/1.1\r\nContent-Length:";
    assert!(matches!(parse(raw), Err(ParseError::Incomplete)));
}

#[test]
fn parse_waits_for_whole_body() {
    let raw = b"POST /fraud-score HTTP/1.1\r\nContent-Length: 5\r\n\r\nhel";
    assert!(matches!(parse(raw), Err(ParseError::Incomplete)));
}

#[test]
fn parse_is_case_insensitive_on_header_name_and_trims_value() {
    let raw = b"POST /fraud-score HTTP/1.1\r\ncOnTeNt-LeNgTh: \t3 \r\nHost: x\r\n\r\nabcdef";
    let (req, n) = parse(raw).unwrap();
    assert_eq!(&raw[req.body.clone()], b"abc");
    assert_eq!(n, raw.len() - 3);
}

#[test]
fn parse_pipelined_requests_one_at_a_time() {
    let raw = b"GET /ready HTTP/1.1\r\nHost: x\r\n\r\nPOST /fraud-score HTTP/1.1\r\nContent-Length: 2\r\n\r\nok";
    let (first, n) = parse(raw).unwrap();
    assert_eq!(first.route, Route::Ready);
    let (second, m) = parse(&raw[n..]).unwrap();
    assert_eq!(second.route, Route::FraudScore);
    assert_eq!(&raw[n..][second.body], b"ok");
    assert_eq!(n + m, raw.len());
}

#[test]
fn parse_error_kinds() {
    assert!(matches!(parse(b"GET /nope HTTP/1.1\r\nHost: x\r\n\r\n"), Err(ParseError::Unsupported)));
    assert!(matches!(
        parse(b"DELETE /ready HTTP/1.1\r\nHost: x\r\n\r\n"),
        Err(ParseError::Unsupported)
    ));
    assert!(matches!(parse(b"GET /ready\r\nHost: x\r\n\r\n"), Err(ParseError::Malformed)));
    // Only the request line: no carriage return inside the header block.
    assert!(matches!(parse(b"GET /ready HTTP/1.1\r\n\r\n"), Err(ParseError::Malformed)));
    assert!(matches!(parse(b"GET\r\n\r\n"), Err(ParseError::Malformed)));
    assert!(matches!(
        parse(b"POST /fraud-score HTTP/1.1\r\nHost: x\r\n\r\n"),
        Err(ParseError::MissingContentLength)
    ));
    assert!(matches!(
        parse(b"POST /fraud-score HTTP/1.1\r\nContent-Length: 5x\r\n\r\nhello"),
        Err(ParseError::Malformed)
    ));
    assert!(matches!(
        parse(b"POST /fraud-score HTTP/1.1\r\nContent-Length: -5\r\n\r\nhello"),
        Err(ParseError::Malformed)
    ));
    // The header block ends at the first blank line, so a request line
    // without a carriage return cannot be found.
    assert!(matches!(parse(b"\r\n\r\n"), Err(ParseError::Malformed)));
}

#[test]
fn parse_accepts_plus_sign_like_usize_from_str() {
    let raw = b"POST /fraud-score HTTP/1.1\r\nContent-Length: +2\r\n\r\nok";
    let (req, _) = parse(raw).unwrap();
    assert_eq!(req.body.len(), 2);
}

#[test]
fn response_table_answers() {
    let t = ResponseTable::new();
    assert_eq!(
        &t.fraud_score(0, true)[..],
        &b"HTTP/1.1 200 OK\r\nContent-Type: application/json\r\nContent-Length: 33\r\nConnection: keep-alive\r\n\r\n{\"approved\":true,\"fraud_score\":0}"[..]
    );
    assert_eq!(
        &t.fraud_score(3, false)[..],
        &b"HTTP/1.1 200 OK\r\nContent-Type: application/json\r\nContent-Length: 36\r\nConnection: keep-alive\r\n\r\n{\"approved\":false,\"fraud_score\":0.6}"[..]
    );
    assert!(t.fraud_score(5, false).ends_with(b"{\"approved\":false,\"fraud_score\":1}"));
    assert_eq!(
        &t.ready()[..],
        &b"HTTP/1.1 200 OK\r\nContent-Length: 0\r\nConnection: keep-alive\r\n\r\n"[..]
    );
    assert!(t.not_found().starts_with(b"HTTP/1.1 404 Not Found\r\n"));
    assert!(t.bad_request().starts_with(b"HTTP/1.1 400 Bad Request\r\n"));
    assert!(t.bad_request().ends_with(b"Connection: close\r\n\r\n"));
}

#[test]
fn response_content_length_reads_back_as_body_length() {
    let t = ResponseTable::new();
    for bucket in 0..6 {
        for approved in [false, true] {
            let resp = t.fraud_score(bucket, approved);
            let split = resp.windows(4).position(|w| w == b"\r\n\r\n").unwrap();
            let (req_like, body) = (&resp[..split], &resp[split + 4..]);
            let line = req_like
                .split(|&b| b == b'\n')
                .find(|l| l.starts_with(b"Content-Length: "))
                .unwrap();
            let value = std::str::from_utf8(&line[16..]).unwrap().trim();
            assert_eq!(value.parse::<usize>().unwrap(), body.len());
        }
    }
}
