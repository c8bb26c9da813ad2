//! Per-connection decisions: what to do with the bytes received so far, and
//! the answer to a scoring request.

use vstd::prelude::*;
use core::ops::Range;
use bytes::Bytes;
use crate::dataset::Dataset;
use crate::http::{
    head_fits, parse, spec_bad_request_response, spec_fraud_response, spec_head_fits,
    spec_not_found_response, spec_parse, ParseError, ResponseTable, Route,
};
use crate::knn::{count_fraud_neighbors, fraud_vote_at_most_k, spec_fraud_neighbors};
use crate::memscan::{find_byte, find_byte_from, lemma_find_byte_from};
use crate::proto::{APPROVED_BUCKET_LIMIT, DIM};
use crate::text::{leading_ws, spec_trim_ascii, trim_ascii_bounds};
use crate::wire::bytes_content;
use vstd::string::StringSliceAdditionalSpecFns;

verus! {

/// The pieces of `s` between commas, from offset `start` on, as
/// `(start, end)` bounds.
pub open spec fn comma_pieces(s: Seq<u8>, start: int) -> Seq<(int, int)>
    decreases s.len() - start,
{
    if start < 0 || start > s.len() {
        Seq::empty()
    } else {
        match find_byte_from(s, 44, start) {
            Some(c) => {
                proof {
                    lemma_find_byte_from(s, 44, start);
                }
                seq![(start, c)] + comma_pieces(s, c + 1)
            },
            None => seq![(start, s.len() as int)],
        }
    }
}

/// The bytes of piece `p` of `s`, without surrounding ASCII whitespace.
pub open spec fn piece_token(s: Seq<u8>, p: (int, int)) -> Seq<u8> {
    spec_trim_ascii(s.subrange(p.0, p.1))
}

/// Where the token of piece `p` of `s` lies once `s` is placed at `offset`.
pub open spec fn token_span(s: Seq<u8>, p: (int, int), offset: int) -> Range<usize> {
    let a = offset + p.0 + leading_ws(s.subrange(p.0, p.1));
    Range { start: a as usize, end: (a + piece_token(s, p).len()) as usize }
}

/// The spans of the `DIM` numbers of a body `{"vector":[v0, ..., v13]}`: the
/// comma-separated pieces between the first `[` and the next `]`, trimmed of
/// ASCII whitespace; `None` when a bracket is missing, a piece is empty, or
/// there are not exactly `DIM` pieces.
pub open spec fn spec_vector_spans(body: Seq<u8>) -> Option<Seq<Range<usize>>> {
    match find_byte_from(body, 91, 0) {
        None => None,
        Some(b) => match find_byte_from(body.skip(b), 93, 0) {
            None => None,
            Some(c) => {
                let inner = body.subrange(b + 1, b + c);
                let ps = comma_pieces(inner, 0);
                if ps.len() == DIM && forall|k: int|
                    0 <= k < ps.len() ==> piece_token(inner, #[trigger] ps[k]).len() > 0 {
                    Some(ps.map_values(|p: (int, int)| token_span(inner, p, b + 1)))
                } else {
                    None
                }
            },
        },
    }
}


proof fn lemma_first_byte_at(s: Seq<u8>, b: u8, start: int, i: int)
    requires
        0 <= start <= i <= s.len(),
        forall|j: int| start <= j < i ==> s[j] != b,
    ensures
        i < s.len() && s[i] == b ==> find_byte_from(s, b, start) == Some(i),
        i == s.len() ==> find_byte_from(s, b, start) is None,
{
    lemma_find_byte_from(s, b, start);
}

/// Locates the `DIM` comma-separated numbers of a body of the form
/// `{"vector":[v0, ..., v13]}` (whitespace around numbers tolerated).
pub fn vector_token_spans(body: &[u8]) -> (r: Option<Vec<Range<usize>>>)
    ensures
        match r {
            Some(v) => spec_vector_spans(body@) == Some(v@),
            None => spec_vector_spans(body@) is None,
        },
{
    let bracket = match find_byte(91, body) {
        Some(i) => i,
        None => return None,
    };
    proof {
        lemma_find_byte_from(body@, 91, 0);
    }
    let tail = &body[bracket..body.len()];
    assert(tail@ =~= body@.skip(bracket as int));
    let c = match find_byte(93, tail) {
        Some(c) => c,
        None => return None,
    };
    proof {
        lemma_find_byte_from(tail@, 93, 0);
        assert(tail@[0] == 91);
    }
    let close = bracket + c;
    let inner = &body[bracket + 1..close];
    let ghost iv = inner@;
    assert(iv =~= body@.subrange(bracket + 1, bracket + c));
    let ghost all = comma_pieces(iv, 0);
    let ghost mut done: Seq<(int, int)> = Seq::empty();
    let mut spans: Vec<Range<usize>> = Vec::new();
    let mut start: usize = 0;
    let mut i: usize = 0;
    let blen = body.len();
    while i <= inner.len()
        invariant
            iv == inner@,
            blen == body@.len(),
            find_byte_from(body@, 91, 0) == Some(bracket as int),
            find_byte_from(body@.skip(bracket as int), 93, 0) == Some(c as int),
            iv == body@.subrange(bracket + 1, bracket + c),
            inner@.len() + bracket + 1 <= body@.len(),
            start <= i <= inner@.len() + 1,
            i <= inner@.len() ==> start <= inner@.len(),
            forall|j: int| start <= j < i && j < inner@.len() ==> inner@[j] != 44,
            all == comma_pieces(iv, 0),
            all == done + comma_pieces(iv, start as int),
            i > inner@.len() ==> start == inner@.len() + 1,
            spans@ == done.map_values(|p: (int, int)| token_span(iv, p, bracket + 1)),
            done.len() <= DIM,
            forall|k: int| 0 <= k < done.len() ==> piece_token(iv, #[trigger] done[k]).len() > 0,
        decreases inner@.len() + 1 - i,
    {
        if i == inner.len() || inner[i] == 44 {
            proof {
                lemma_first_byte_at(iv, 44, start as int, i as int);
                assert(comma_pieces(iv, start as int) == seq![(start as int, i as int)]
                    + comma_pieces(iv, i + 1));
            }
            let piece = &inner[start..i];
            let (a, b) = trim_ascii_bounds(piece);
            proof {
                assert(piece@ =~= iv.subrange(start as int, i as int));
            }
            if a == b {
                proof {
                    assert(all[done.len() as int] == (start as int, i as int));
                    assert(piece_token(iv, all[done.len() as int]).len() == 0);
                    assert(find_byte_from(body@, 91, 0) == Some(bracket as int));
                    assert(find_byte_from(body@.skip(bracket as int), 93, 0) == Some(c as int));
                    assert(iv == body@.subrange(bracket + 1, bracket + c));
                }
                return None;
            }
            if spans.len() >= DIM {
                return None;
            }
            assert(start + b <= inner@.len());
            let span = (bracket + 1 + start + a)..(bracket + 1 + start + b);
            proof {
                assert(span == token_span(iv, (start as int, i as int), bracket + 1));
            }
            spans.push(span);
            proof {
                let old_done = done;
                done = done.push((start as int, i as int));
                assert(spans@ =~= done.map_values(|p: (int, int)| token_span(iv, p, bracket + 1)));
                assert(all =~= done + comma_pieces(iv, i + 1));
            }
            start = i + 1;
        }
        i += 1;
    }
    proof {
        assert(comma_pieces(iv, start as int) =~= Seq::<(int, int)>::empty());
        assert(all =~= done);
    }
    if spans.len() == DIM {
        Some(spans)
    } else {
        None
    }
}


/// What to do with the bytes received so far on a connection.
pub enum Step {
    /// A complete request starts the buffer: serve it, then drop `consumed`
    /// bytes and look at what follows.
    Serve { route: Route, body: Range<usize>, consumed: usize },
    /// Wait for more bytes.
    ReadMore,
    /// Send this answer, then close the connection.
    Reject(Bytes),
    /// Close the connection without an answer: the announced body cannot
    /// even be addressed.
    Abort,
}

/// Decides what the bytes received so far call for: serve the request that
/// starts them, wait for more, or answer `404` (unsupported route) or `400`
/// (anything else malformed) and close.
pub fn connection_step(buf: &[u8], table: &ResponseTable) -> (r: Step)
    requires
        table.wf(),
    ensures
        !spec_head_fits(buf@) ==> r is Abort,
        spec_head_fits(buf@) ==> match spec_parse(buf@) {
            Ok(p) => r == Step::Serve { route: p.0.route, body: p.0.body, consumed: p.1 },
            Err(ParseError::Incomplete) => r is ReadMore,
            Err(ParseError::Unsupported) => r matches Step::Reject(b) && bytes_content(b)
                == spec_not_found_response(),
            Err(_) => r matches Step::Reject(b) && bytes_content(b) == spec_bad_request_response(),
        },
{
    if !head_fits(buf) {
        return Step::Abort;
    }
    match parse(buf) {
        Ok((req, consumed)) => Step::Serve { route: req.route, body: req.body, consumed },
        Err(ParseError::Incomplete) => Step::ReadMore,
        Err(ParseError::Unsupported) => Step::Reject(table.not_found()),
        Err(_) => Step::Reject(table.bad_request()),
    }
}

/// The answer to a scoring request whose body gave `query` (`None` when the
/// body did not hold a valid vector).
pub open spec fn spec_fraud_answer(query: Option<[i16; DIM]>, m: crate::dataset::DatasetModel) -> Seq<
    u8,
> {
    match query {
        None => spec_bad_request_response(),
        Some(q) => {
            let votes = spec_fraud_neighbors(q@, m);
            spec_fraud_response(votes as int, votes < APPROVED_BUCKET_LIMIT)
        },
    }
}

/// Scores a query: the number of frauds among its `K` nearest references is
/// the score bucket, and buckets below `APPROVED_BUCKET_LIMIT` (a score
/// under `0.6`) are approved. A body without a valid vector is answered
/// `400`.
pub fn handle_fraud_score(query: Option<[i16; DIM]>, dataset: &Dataset, table: &ResponseTable) -> (r:
    Bytes)
    requires
        table.wf(),
        dataset.wf(),
    ensures
        bytes_content(r) == spec_fraud_answer(query, dataset@),
{
    match query {
        None => table.bad_request(),
        Some(q) => {
            let bucket = count_fraud_neighbors(&q, dataset) as usize;
            let approved = bucket < APPROVED_BUCKET_LIMIT;
            table.fraud_score(bucket, approved)
        },
    }
}

/// `s` is the last part of `r`.
pub open spec fn ends_with(r: Seq<u8>, s: Seq<u8>) -> bool {
    s.len() <= r.len() && r.subrange(r.len() - s.len(), r.len() as int) == s
}

/// A scoring answer approves exactly when its score is below `0.6`: with
/// `v` frauds among the nearest references (`0 <= v <= 5`), the body is
/// `{"approved":A,"fraud_score":S}` where `S` is `v / 5` (`0`, `0.2`, `0.4`,
/// `0.6`, `0.8`, `1`) and `A` is `true` for `v` = 0, 1, 2 and `false` for
/// `v` = 3, 4, 5.
pub proof fn fraud_answer_approves_below_threshold(q: [i16; DIM], m: crate::dataset::DatasetModel)
    ensures
        ({
            let v = spec_fraud_neighbors(q@, m);
            let score: Seq<u8> = if v == 0 {
                "0".spec_bytes()
            } else if v == 1 {
                "0.2".spec_bytes()
            } else if v == 2 {
                "0.4".spec_bytes()
            } else if v == 3 {
                "0.6".spec_bytes()
            } else if v == 4 {
                "0.8".spec_bytes()
            } else {
                "1".spec_bytes()
            };
            let approved: Seq<u8> = if v <= 2 {
                "true".spec_bytes()
            } else {
                "false".spec_bytes()
            };
            &&& v <= 5
            &&& ends_with(
                spec_fraud_answer(Some(q), m),
                "{\"approved\":".spec_bytes() + approved + ",\"fraud_score\":".spec_bytes() + score
                    + "}".spec_bytes(),
            )
        }),
{
    fraud_vote_at_most_k(q@, m);
    let v = spec_fraud_neighbors(q@, m);
    let body = crate::http::spec_score_body(v as int, v < APPROVED_BUCKET_LIMIT);
    let r = spec_fraud_answer(Some(q), m);
    let head = "HTTP/1.1 200 OK\r\nContent-Type: application/json\r\nContent-Length: ".spec_bytes()
        + crate::text::spec_decimal(body.len()) + "\r\nConnection: keep-alive\r\n\r\n".spec_bytes();
    assert(r == head + body);
    assert(r.subrange(r.len() - body.len(), r.len() as int) =~= body);
}

} // verus!
