//! Pre-built JSON answer bodies: `fraud_score` takes one of
//! `SCORE_BUCKETS` values, so the `2 * SCORE_BUCKETS` bodies are built once.

use vstd::prelude::*;
use vstd::string::StringSliceAdditionalSpecFns;
use bytes::Bytes;
use crate::http::{response_slot, spec_bool_text};
use crate::proto::SCORE_BUCKETS;
use crate::text::push_all;
use crate::wire::{bytes_clone, bytes_content, bytes_from_vec};

verus! {

/// How a score given in tenths prints with one decimal (`"0.0"` for a value
/// that is not a bucket).
pub open spec fn spec_format_score(tenths: i32) -> Seq<u8> {
    if tenths == 2 {
        "0.2".spec_bytes()
    } else if tenths == 4 {
        "0.4".spec_bytes()
    } else if tenths == 6 {
        "0.6".spec_bytes()
    } else if tenths == 8 {
        "0.8".spec_bytes()
    } else if tenths == 10 {
        "1.0".spec_bytes()
    } else {
        "0.0".spec_bytes()
    }
}

/// The score, given in tenths, with one decimal.
pub fn format_score(tenths: i32) -> (r: &'static str)
    ensures
        r.spec_bytes() == spec_format_score(tenths),
{
    match tenths {
        2 => "0.2",
        4 => "0.4",
        6 => "0.6",
        8 => "0.8",
        10 => "1.0",
        _ => "0.0",
    }
}

/// The JSON body for a score bucket (the score of bucket `b` is `b / 5`).
pub open spec fn spec_fraud_body(bucket: int, approved: bool) -> Seq<u8> {
    "{\"approved\":".spec_bytes() + spec_bool_text(approved) + ",\"fraud_score\":".spec_bytes()
        + spec_format_score((2 * bucket) as i32) + "}".spec_bytes()
}

/// The body answered when no score could be computed.
pub open spec fn spec_fallback_body() -> Seq<u8> {
    "{\"approved\":true,\"fraud_score\":0.0}".spec_bytes()
}

/// Pre-built answer bodies.
#[derive(Debug)]
pub struct ResponseTable {
    fraud_score: Vec<Bytes>,
    fallback_approved: Bytes,
}

impl ResponseTable {
    /// Every slot holds its body.
    pub closed spec fn wf(&self) -> bool {
        &&& self.fraud_score@.len() == 2 * SCORE_BUCKETS
        &&& forall|b: int, a: bool|
            0 <= b < SCORE_BUCKETS ==> bytes_content(#[trigger] self.fraud_score@[response_slot(b, a)])
                == spec_fraud_body(b, a)
        &&& bytes_content(self.fallback_approved) == spec_fallback_body()
    }

    /// Builds every body.
    pub fn new() -> (r: Self)
        ensures
            r.wf(),
    {
        let mut fraud_score: Vec<Bytes> = Vec::new();
        let mut bucket: usize = 0;
        while bucket < SCORE_BUCKETS
            invariant
                bucket <= SCORE_BUCKETS,
                fraud_score@.len() == 2 * bucket,
                forall|b: int, a: bool|
                    0 <= b < bucket ==> bytes_content(#[trigger] fraud_score@[response_slot(b, a)])
                        == spec_fraud_body(b, a),
            decreases SCORE_BUCKETS - bucket,
        {
            let mut k: usize = 0;
            while k < 2
                invariant
                    bucket < SCORE_BUCKETS,
                    k <= 2,
                    fraud_score@.len() == 2 * bucket + k,
                    forall|b: int, a: bool|
                        0 <= b < bucket ==> bytes_content(
                            #[trigger] fraud_score@[response_slot(b, a)],
                        ) == spec_fraud_body(b, a),
                    forall|j: int|
                        0 <= j < k ==> bytes_content(#[trigger] fraud_score@[2 * bucket + j])
                            == spec_fraud_body(bucket as int, j == 1),
                decreases 2 - k,
            {
                let approved = k == 1;
                let mut body: Vec<u8> = Vec::new();
                push_all(&mut body, "{\"approved\":".as_bytes());
                push_all(&mut body, if approved { "true".as_bytes() } else { "false".as_bytes() });
                push_all(&mut body, ",\"fraud_score\":".as_bytes());
                push_all(&mut body, format_score((2 * bucket) as i32).as_bytes());
                push_all(&mut body, "}".as_bytes());
                assert(body@ =~= spec_fraud_body(bucket as int, approved));
                fraud_score.push(bytes_from_vec(body));
                k += 1;
            }
            proof {
                assert forall|b: int, a: bool| 0 <= b < bucket + 1 implies bytes_content(
                    #[trigger] fraud_score@[response_slot(b, a)],
                ) == spec_fraud_body(b, a) by {
                    if b == bucket {
                        if a {
                            assert(response_slot(b, a) == 2 * bucket + 1);
                        } else {
                            assert(response_slot(b, a) == 2 * bucket + 0);
                        }
                    }
                }
            }
            bucket += 1;
        }
        let mut fallback: Vec<u8> = Vec::new();
        push_all(&mut fallback, "{\"approved\":true,\"fraud_score\":0.0}".as_bytes());
        ResponseTable { fraud_score, fallback_approved: bytes_from_vec(fallback) }
    }

    /// The body for a score bucket and a decision.
    pub fn fraud_body(&self, bucket: usize, approved: bool) -> (r: Bytes)
        requires
            self.wf(),
            bucket < SCORE_BUCKETS,
        ensures
            bytes_content(r) == spec_fraud_body(bucket as int, approved),
    {
        let idx = bucket * 2 + if approved {
            1usize
        } else {
            0usize
        };
        assert(idx == response_slot(bucket as int, approved));
        bytes_clone(&self.fraud_score[idx])
    }

    /// The body answered when no score could be computed.
    pub fn fallback_body(&self) -> (r: Bytes)
        requires
            self.wf(),
        ensures
            bytes_content(r) == spec_fallback_body(),
    {
        bytes_clone(&self.fallback_approved)
    }
}

impl Default for ResponseTable {
    /// Same as `new`.
    fn default() -> (r: Self)
        ensures
            r.wf(),
    {
        Self::new()
    }
}

} // verus!
