//! The timestamps of a scoring payload.

use vstd::prelude::*;
use crate::time::{spec_parse_datetime, DateTime};

verus! {

/// What `parse_timestamps` gives: both timestamps parsed, or `None` as soon
/// as one of them is not `YYYY-MM-DDTHH:MM:SSZ`.
pub open spec fn spec_parse_timestamps(requested_at: Seq<u8>, last: Option<Seq<u8>>) -> Option<
    (DateTime, Option<DateTime>),
> {
    match spec_parse_datetime(requested_at) {
        None => None,
        Some(now) => match last {
            None => Some((now, None)),
            Some(ts) => match spec_parse_datetime(ts) {
                None => None,
                Some(t) => Some((now, Some(t))),
            },
        },
    }
}

/// Parses the request time and, when there is a previous transaction, its
/// time; `None` when either is malformed.
pub fn parse_timestamps(requested_at: &[u8], last: Option<&[u8]>) -> (r: Option<
    (DateTime, Option<DateTime>),
>)
    ensures
        r == spec_parse_timestamps(
            requested_at@,
            match last {
                Some(s) => Some(s@),
                None => None,
            },
        ),
{
    let now = match DateTime::parse(requested_at) {
        Some(t) => t,
        None => return None,
    };
    match last {
        None => Some((now, None)),
        Some(ts) => match DateTime::parse(ts) {
            Some(t) => Some((now, Some(t))),
            None => None,
        },
    }
}

} // verus!
