//! A minimal HTTP/1.1 request parser for the two routes of the service,
//! `POST /fraud-score` (with `Content-Length`) and `GET /ready`, and the
//! pre-built responses.

use vstd::prelude::*;
use vstd::string::StringSliceAdditionalSpecFns;
use core::ops::Range;
use crate::memscan::{find, find_byte_from, find_from, lemma_find_from, lemma_find_from_skip};
use bytes::Bytes;
use crate::proto::SCORE_BUCKETS;
use crate::wire::{bytes_clone, bytes_content, bytes_from_vec};
use crate::text::{
    push_all, push_decimal, spec_decimal,
    bytes_eq, eq_ignore_ascii_case, parse_usize, spec_eq_ignore_ascii_case, spec_parse_usize,
    spec_trim_ascii, trim_ascii_bounds,
};

verus! {

/// Why a buffer does not hold a request that can be served.
#[derive(Debug, Clone, Copy, PartialEq, Eq, Structural)]
pub enum ParseError {
    /// More bytes are needed.
    Incomplete,
    /// The request line or the `Content-Length` value is malformed.
    Malformed,
    /// A `POST` without `Content-Length`.
    MissingContentLength,
    /// Another method or path.
    Unsupported,
}

/// The two routes of the service.
#[derive(Debug, Clone, Copy, PartialEq, Eq, Structural)]
pub enum Route {
    FraudScore,
    Ready,
}

/// A parsed request: its route and where its body lies in the buffer.
#[derive(Debug)]
pub struct Request {
    pub route: Route,
    pub body: Range<usize>,
}

/// The blank line that ends the header block.
pub open spec fn header_terminator() -> Seq<u8> {
    seq![13u8, 10u8, 13u8, 10u8]
}

/// A line break.
pub open spec fn crlf() -> Seq<u8> {
    seq![13u8, 10u8]
}

/// The header name looked for, compared without regard to ASCII case.
pub open spec fn content_length_key() -> Seq<u8> {
    "content-length:".spec_bytes()
}

/// The method and path of a request line: the text before the first space
/// and the text between the first and the second space; `None` when the line
/// has fewer than two spaces (as `splitn(3, ' ')` yields fewer than three
/// parts).
pub open spec fn spec_method_and_path(line: Seq<u8>) -> Option<(Seq<u8>, Seq<u8>)> {
    match find_byte_from(line, 32, 0) {
        None => None,
        Some(i) => {
            let rest = line.skip(i + 1);
            match find_byte_from(rest, 32, 0) {
                None => None,
                Some(j) => Some((line.take(i), rest.take(j))),
            }
        },
    }
}

/// The route that a method and a path select.
pub open spec fn spec_route(method: Seq<u8>, path: Seq<u8>) -> Option<Route> {
    if method == "POST".spec_bytes() && path == "/fraud-score".spec_bytes() {
        Some(Route::FraudScore)
    } else if method == "GET".spec_bytes() && path == "/ready".spec_bytes() {
        Some(Route::Ready)
    } else {
        None
    }
}

/// The `Content-Length` of the header block `h`, looking at its lines from
/// offset `start` on: the value of the first line that starts with
/// `content-length:` (any case), trimmed of ASCII whitespace; `Malformed` if
/// that value is not a decimal `usize`; `None` when no line has the name.
pub open spec fn spec_content_length_from(h: Seq<u8>, start: int) -> Result<Option<usize>, ParseError>
    decreases h.len() - start,
{
    if start < 0 || start > h.len() {
        Ok(None)
    } else {
        let f = find_from(h, crlf(), start);
        let line_end = match f {
            Some(e) => e,
            None => h.len() as int,
        };
        let line = h.subrange(start, line_end);
        let key = content_length_key();
        if line.len() >= key.len() && spec_eq_ignore_ascii_case(line.take(key.len() as int), key) {
            match spec_parse_usize(spec_trim_ascii(line.skip(key.len() as int))) {
                Some(n) => Ok(Some(n)),
                None => Err(ParseError::Malformed),
            }
        } else {
            match f {
                Some(e) => {
                    proof {
                        lemma_find_from(h, crlf(), start);
                    }
                    spec_content_length_from(h, e + 2)
                },
                None => Ok(None),
            }
        }
    }
}

/// The `Content-Length` of the header block `h` (see
/// `spec_content_length_from`).
pub open spec fn spec_content_length(h: Seq<u8>) -> Result<Option<usize>, ParseError> {
    spec_content_length_from(h, 0)
}

/// The route, body start and body length announced by the head of `buf`.
pub open spec fn spec_parse_head(buf: Seq<u8>) -> Result<(Route, int, int), ParseError> {
    match find_from(buf, header_terminator(), 0) {
        None => Err(ParseError::Incomplete),
        Some(he) => {
            let header = buf.take(he);
            match find_byte_from(header, 13, 0) {
                None => Err(ParseError::Malformed),
                Some(le) => match spec_method_and_path(header.take(le)) {
                    None => Err(ParseError::Malformed),
                    Some(mp) => match spec_route(mp.0, mp.1) {
                        None => Err(ParseError::Unsupported),
                        Some(route) => {
                            let cl = match route {
                                Route::FraudScore => spec_content_length(header),
                                Route::Ready => Ok(Some(0usize)),
                            };
                            match cl {
                                Err(e) => Err(e),
                                Ok(None) => Err(ParseError::MissingContentLength),
                                Ok(Some(len)) => Ok(
                                    (route, he + header_terminator().len(), len as int),
                                ),
                            }
                        },
                    },
                },
            }
        },
    }
}

/// The end of the body that the head of `buf` announces fits in `usize`
/// (or the head is not valid).
pub open spec fn spec_head_fits(buf: Seq<u8>) -> bool {
    match spec_parse_head(buf) {
        Ok(h) => h.1 + h.2 <= usize::MAX,
        Err(_) => true,
    }
}

/// What `parse` gives for `buf`: the request and the number of bytes it
/// spans, or why there is none.
pub open spec fn spec_parse(buf: Seq<u8>) -> Result<(Request, usize), ParseError> {
    match spec_parse_head(buf) {
        Err(e) => Err(e),
        Ok(h) => {
            let end = h.1 + h.2;
            if buf.len() < end {
                Err(ParseError::Incomplete)
            } else {
                Ok((Request { route: h.0, body: Range { start: h.1 as usize, end: end as usize } }, end as usize))
            }
        },
    }
}


/// Index of the first `b` in `s` (the split point of `splitn`).
fn position_of(b: u8, s: &[u8]) -> (r: Option<usize>)
    ensures
        match r {
            Some(i) => find_byte_from(s@, b, 0) == Some(i as int),
            None => find_byte_from(s@, b, 0) is None,
        },
{
    let mut i: usize = 0;
    while i < s.len()
        invariant
            i <= s@.len(),
            find_byte_from(s@, b, 0) == find_byte_from(s@, b, i as int),
        decreases s@.len() - i,
    {
        if s[i] == b {
            return Some(i);
        }
        i += 1;
    }
    None
}

/// Finds the `Content-Length` value among the lines of the header block.
fn parse_content_length(header: &[u8]) -> (r: Result<Option<usize>, ParseError>)
    ensures
        r == spec_content_length(header@),
{
    let key = "content-length:".as_bytes();
    let line_break: [u8; 2] = [13, 10];
    assert(line_break@ =~= crlf());
    let mut start: usize = 0;
    loop
        invariant
            start <= header@.len(),
            key@ == content_length_key(),
            line_break@ == crlf(),
            spec_content_length(header@) == spec_content_length_from(header@, start as int),
        decreases header@.len() - start,
    {
        let rest = &header[start..header.len()];
        proof {
            lemma_find_from_skip(header@, crlf(), start as int, 0);
            assert(rest@ =~= header@.skip(start as int));
            lemma_find_from(header@, crlf(), start as int);
        }
        let found = find(rest, line_break.as_slice());
        let line_end = match found {
            Some(eol) => start + eol,
            None => header.len(),
        };
        let line = &header[start..line_end];
        if line.len() >= key.len() && eq_ignore_ascii_case(&line[0..key.len()], key) {
            let value_part = &line[key.len()..line.len()];
            let (a, b) = trim_ascii_bounds(value_part);
            let value = &value_part[a..b];
            proof {
                assert(line@.take(key@.len() as int) =~= line@.subrange(0, key@.len() as int));
                assert(value_part@ =~= line@.skip(key@.len() as int));
            }
            return match parse_usize(value) {
                Some(n) => Ok(Some(n)),
                None => Err(ParseError::Malformed),
            };
        }
        proof {
            if line@.len() >= key@.len() {
                assert(line@.take(key@.len() as int) =~= line@.subrange(0, key@.len() as int));
            }
        }
        match found {
            Some(eol) => {
                start = start + eol + 2;
            },
            None => {
                return Ok(None);
            },
        }
    }
}

/// Parses the head of a request: its route, where its body starts and how
/// long the body is.
fn parse_head(buf: &[u8]) -> (r: Result<(Route, usize, usize), ParseError>)
    ensures
        match r {
            Ok(h) => spec_parse_head(buf@) == Ok::<(Route, int, int), ParseError>(
                (h.0, h.1 as int, h.2 as int),
            ),
            Err(e) => spec_parse_head(buf@) == Err::<(Route, int, int), ParseError>(e),
        },
{
    let terminator: [u8; 4] = [13, 10, 13, 10];
    assert(terminator@ =~= header_terminator());
    let header_end = match find(buf, terminator.as_slice()) {
        Some(i) => i,
        None => return Err(ParseError::Incomplete),
    };
    proof {
        lemma_find_from(buf@, header_terminator(), 0);
    }
    let header = &buf[0..header_end];
    assert(header@ =~= buf@.take(header_end as int));
    let line_end = match crate::memscan::find_byte(13, header) {
        Some(i) => i,
        None => return Err(ParseError::Malformed),
    };
    proof {
        crate::memscan::lemma_find_byte_from(header@, 13, 0);
    }
    let request_line = &header[0..line_end];
    assert(request_line@ =~= header@.take(line_end as int));
    let sp1 = match position_of(32, request_line) {
        Some(i) => i,
        None => return Err(ParseError::Malformed),
    };
    proof {
        crate::memscan::lemma_find_byte_from(request_line@, 32, 0);
    }
    let method = &request_line[0..sp1];
    let after = &request_line[sp1 + 1..request_line.len()];
    assert(after@ =~= request_line@.skip(sp1 + 1));
    let sp2 = match position_of(32, after) {
        Some(j) => j,
        None => return Err(ParseError::Malformed),
    };
    proof {
        crate::memscan::lemma_find_byte_from(after@, 32, 0);
    }
    let path = &after[0..sp2];
    assert(method@ =~= request_line@.take(sp1 as int));
    assert(path@ =~= after@.take(sp2 as int));
    let route = if bytes_eq(method, "POST".as_bytes()) && bytes_eq(path, "/fraud-score".as_bytes()) {
        Route::FraudScore
    } else if bytes_eq(method, "GET".as_bytes()) && bytes_eq(path, "/ready".as_bytes()) {
        Route::Ready
    } else {
        return Err(ParseError::Unsupported);
    };
    let content_length = match route {
        Route::FraudScore => match parse_content_length(header) {
            Ok(Some(n)) => n,
            Ok(None) => return Err(ParseError::MissingContentLength),
            Err(e) => return Err(e),
        },
        Route::Ready => 0,
    };
    let blen = buf.len();
    assert(header_end + 4 <= blen);
    Ok((route, header_end + terminator.len(), content_length))
}

/// Parses one request at the start of `buf`. `Incomplete` asks for more
/// bytes; on success, the request and the number of bytes it spans.
pub fn parse(buf: &[u8]) -> (r: Result<(Request, usize), ParseError>)
    requires
        spec_head_fits(buf@),
    ensures
        r == spec_parse(buf@),
{
    let (route, body_start, content_length) = match parse_head(buf) {
        Ok(h) => h,
        Err(e) => return Err(e),
    };
    assert(body_start + content_length <= usize::MAX) by {
        assert(spec_parse_head(buf@) == Ok::<(Route, int, int), ParseError>(
            (route, body_start as int, content_length as int),
        ));
    }
    let body_end = body_start + content_length;
    if buf.len() < body_end {
        return Err(ParseError::Incomplete);
    }
    Ok((Request { route, body: body_start..body_end }, body_end))
}

/// Parses the head of `buf` and tells whether the body's end fits in
/// `usize`; `false` only for a head whose announced body end does not.
pub fn head_fits(buf: &[u8]) -> (r: bool)
    ensures
        r == spec_head_fits(buf@),
{
    match parse_head(buf) {
        Ok(h) => h.1 <= usize::MAX - h.2,
        Err(_) => true,
    }
}

/// Requests can be pipelined: once a buffer holds a complete request,
/// appending further bytes does not change what is parsed nor how many
/// bytes it spans.
pub proof fn parse_ignores_trailing_bytes(buf: Seq<u8>, extra: Seq<u8>)
    requires
        spec_parse(buf) is Ok,
    ensures
        spec_parse(buf + extra) == spec_parse(buf),
        spec_head_fits(buf + extra) == spec_head_fits(buf),
{
    let g = buf + extra;
    crate::memscan::lemma_find_from_extend(buf, extra, header_terminator(), 0);
    lemma_find_from(buf, header_terminator(), 0);
    let he = find_from(buf, header_terminator(), 0)->0;
    assert(g.take(he) =~= buf.take(he));
}


/// How `fraud_score` is printed for each bucket (the shortest decimal form
/// of `bucket / 5`).
pub open spec fn spec_score_text(bucket: int) -> Seq<u8> {
    if bucket == 0 {
        "0".spec_bytes()
    } else if bucket == 1 {
        "0.2".spec_bytes()
    } else if bucket == 2 {
        "0.4".spec_bytes()
    } else if bucket == 3 {
        "0.6".spec_bytes()
    } else if bucket == 4 {
        "0.8".spec_bytes()
    } else {
        "1".spec_bytes()
    }
}

fn score_text(bucket: usize) -> (r: &'static str)
    requires
        bucket < SCORE_BUCKETS,
    ensures
        r.spec_bytes() == spec_score_text(bucket as int),
{
    if bucket == 0 {
        "0"
    } else if bucket == 1 {
        "0.2"
    } else if bucket == 2 {
        "0.4"
    } else if bucket == 3 {
        "0.6"
    } else if bucket == 4 {
        "0.8"
    } else {
        "1"
    }
}

/// `true` or `false` as JSON.
pub open spec fn spec_bool_text(b: bool) -> Seq<u8> {
    if b {
        "true".spec_bytes()
    } else {
        "false".spec_bytes()
    }
}

/// The JSON answer for a score bucket.
pub open spec fn spec_score_body(bucket: int, approved: bool) -> Seq<u8> {
    "{\"approved\":".spec_bytes() + spec_bool_text(approved) + ",\"fraud_score\":".spec_bytes()
        + spec_score_text(bucket) + "}".spec_bytes()
}

/// A `200 OK` JSON response whose `Content-Length` is the length of `body`.
pub open spec fn spec_json_response(body: Seq<u8>) -> Seq<u8> {
    "HTTP/1.1 200 OK\r\nContent-Type: application/json\r\nContent-Length: ".spec_bytes()
        + spec_decimal(body.len()) + "\r\nConnection: keep-alive\r\n\r\n".spec_bytes() + body
}

/// The complete response for a score bucket.
pub open spec fn spec_fraud_response(bucket: int, approved: bool) -> Seq<u8> {
    spec_json_response(spec_score_body(bucket, approved))
}

/// The answer to `GET /ready`.
pub open spec fn spec_ready_response() -> Seq<u8> {
    "HTTP/1.1 200 OK\r\nContent-Length: 0\r\nConnection: keep-alive\r\n\r\n".spec_bytes()
}

/// The answer to an unsupported method or path.
pub open spec fn spec_not_found_response() -> Seq<u8> {
    "HTTP/1.1 404 Not Found\r\nContent-Length: 0\r\nConnection: keep-alive\r\n\r\n".spec_bytes()
}

/// The answer to a malformed request.
pub open spec fn spec_bad_request_response() -> Seq<u8> {
    "HTTP/1.1 400 Bad Request\r\nContent-Length: 0\r\nConnection: close\r\n\r\n".spec_bytes()
}

/// Slot of a bucket's answer in the table.
pub open spec fn response_slot(bucket: int, approved: bool) -> int {
    bucket * 2 + if approved {
        1int
    } else {
        0int
    }
}

/// Pre-built HTTP responses: the score can only take `SCORE_BUCKETS`
/// values, so the `2 * SCORE_BUCKETS` answers are built once.
#[derive(Debug)]
pub struct ResponseTable {
    fraud_score: Vec<Bytes>,
    ready: Bytes,
    not_found: Bytes,
    bad_request: Bytes,
}

impl ResponseTable {
    /// Every slot holds its answer.
    pub closed spec fn wf(&self) -> bool {
        &&& self.fraud_score@.len() == 2 * SCORE_BUCKETS
        &&& forall|b: int, a: bool|
            0 <= b < SCORE_BUCKETS ==> bytes_content(#[trigger] self.fraud_score@[response_slot(b, a)])
                == spec_fraud_response(b, a)
        &&& bytes_content(self.ready) == spec_ready_response()
        &&& bytes_content(self.not_found) == spec_not_found_response()
        &&& bytes_content(self.bad_request) == spec_bad_request_response()
    }

    /// Builds every answer.
    pub fn new() -> (r: Self)
        ensures
            r.wf(),
    {
        let mut fraud_score: Vec<Bytes> = Vec::new();
        let mut bucket: usize = 0;
        while bucket < SCORE_BUCKETS
            invariant
                bucket <= SCORE_BUCKETS,
                fraud_score@.len() == 2 * bucket,
                forall|b: int, a: bool|
                    0 <= b < bucket ==> bytes_content(#[trigger] fraud_score@[response_slot(b, a)])
                        == spec_fraud_response(b, a),
            decreases SCORE_BUCKETS - bucket,
        {
            let mut k: usize = 0;
            while k < 2
                invariant
                    bucket < SCORE_BUCKETS,
                    k <= 2,
                    fraud_score@.len() == 2 * bucket + k,
                    forall|b: int, a: bool|
                        0 <= b < bucket ==> bytes_content(
                            #[trigger] fraud_score@[response_slot(b, a)],
                        ) == spec_fraud_response(b, a),
                    forall|j: int|
                        0 <= j < k ==> bytes_content(#[trigger] fraud_score@[2 * bucket + j])
                            == spec_fraud_response(bucket as int, j == 1),
                decreases 2 - k,
            {
                let approved = k == 1;
                let mut body: Vec<u8> = Vec::new();
                push_all(&mut body, "{\"approved\":".as_bytes());
                push_all(&mut body, if approved { "true".as_bytes() } else { "false".as_bytes() });
                push_all(&mut body, ",\"fraud_score\":".as_bytes());
                push_all(&mut body, score_text(bucket).as_bytes());
                push_all(&mut body, "}".as_bytes());
                assert(body@ =~= spec_score_body(bucket as int, approved));
                let mut resp: Vec<u8> = Vec::new();
                push_all(
                    &mut resp,
                    "HTTP/1.1 200 OK\r\nContent-Type: application/json\r\nContent-Length: ".as_bytes(),
                );
                push_decimal(&mut resp, body.len());
                push_all(&mut resp, "\r\nConnection: keep-alive\r\n\r\n".as_bytes());
                push_all(&mut resp, body.as_slice());
                assert(resp@ =~= spec_fraud_response(bucket as int, approved));
                fraud_score.push(bytes_from_vec(resp));
                k += 1;
            }
            proof {
                assert forall|b: int, a: bool| 0 <= b < bucket + 1 implies bytes_content(
                    #[trigger] fraud_score@[response_slot(b, a)],
                ) == spec_fraud_response(b, a) by {
                    if b == bucket {
                        if a {
                            assert(response_slot(b, a) == 2 * bucket + 1);
                        } else {
                            assert(response_slot(b, a) == 2 * bucket + 0);
                        }
                    }
                }
            }
            bucket += 1;
        }
        let mut ready: Vec<u8> = Vec::new();
        push_all(
            &mut ready,
            "HTTP/1.1 200 OK\r\nContent-Length: 0\r\nConnection: keep-alive\r\n\r\n".as_bytes(),
        );
        let mut not_found: Vec<u8> = Vec::new();
        push_all(
            &mut not_found,
            "HTTP/1.1 404 Not Found\r\nContent-Length: 0\r\nConnection: keep-alive\r\n\r\n".as_bytes(),
        );
        let mut bad_request: Vec<u8> = Vec::new();
        push_all(
            &mut bad_request,
            "HTTP/1.1 400 Bad Request\r\nContent-Length: 0\r\nConnection: close\r\n\r\n".as_bytes(),
        );
        assert(ready@ =~= spec_ready_response());
        assert(not_found@ =~= spec_not_found_response());
        assert(bad_request@ =~= spec_bad_request_response());
        ResponseTable {
            fraud_score,
            ready: bytes_from_vec(ready),
            not_found: bytes_from_vec(not_found),
            bad_request: bytes_from_vec(bad_request),
        }
    }

    /// The answer for a score bucket and a decision.
    pub fn fraud_score(&self, bucket: usize, approved: bool) -> (r: Bytes)
        requires
            self.wf(),
            bucket < SCORE_BUCKETS,
        ensures
            bytes_content(r) == spec_fraud_response(bucket as int, approved),
    {
        let idx = bucket * 2 + if approved {
            1usize
        } else {
            0usize
        };
        assert(idx == response_slot(bucket as int, approved));
        bytes_clone(&self.fraud_score[idx])
    }

    /// The answer to `GET /ready`.
    pub fn ready(&self) -> (r: Bytes)
        requires
            self.wf(),
        ensures
            bytes_content(r) == spec_ready_response(),
    {
        bytes_clone(&self.ready)
    }

    /// The answer to an unsupported method or path.
    pub fn not_found(&self) -> (r: Bytes)
        requires
            self.wf(),
        ensures
            bytes_content(r) == spec_not_found_response(),
    {
        bytes_clone(&self.not_found)
    }

    /// The answer to a malformed request.
    pub fn bad_request(&self) -> (r: Bytes)
        requires
            self.wf(),
        ensures
            bytes_content(r) == spec_bad_request_response(),
    {
        bytes_clone(&self.bad_request)
    }
}

impl Default for ResponseTable {
    /// Same as `new`.
    fn default() -> (r: Self)
        ensures
            r.wf(),
    {
        Self::new()
    }
}

} // verus!
