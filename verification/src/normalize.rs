//! The non-numeric parts of turning a payload into a detection vector: the
//! known-merchant test and the time elapsed since the previous transaction.

use vstd::prelude::*;
use crate::text::bytes_eq;
use crate::time::{spec_days_from_civil, spec_minutes_since_epoch, DateTime};
use vstd::arithmetic::div_mod::lemma_fundamental_div_mod_converse;

verus! {

/// `target` is one of `known`.
pub open spec fn spec_known_contains(known: Seq<Seq<u8>>, target: Seq<u8>) -> bool {
    exists|i: int| 0 <= i < known.len() && known[i] == target
}

/// `true` when `target` is one of the customer's known merchants.
pub fn known_contains(known: &[&[u8]], target: &[u8]) -> (r: bool)
    ensures
        r == spec_known_contains(known@.map_values(|m: &[u8]| m@), target@),
{
    let ghost kv = known@.map_values(|m: &[u8]| m@);
    let mut i: usize = 0;
    while i < known.len()
        invariant
            i <= known@.len(),
            kv == known@.map_values(|m: &[u8]| m@),
            forall|j: int| 0 <= j < i ==> kv[j] != target@,
        decreases known@.len() - i,
    {
        if bytes_eq(known[i], target) {
            assert(kv[i as int] == target@);
            return true;
        }
        i += 1;
    }
    false
}

/// Minutes from `last` to `now`, or `0` when `last` is not earlier.
pub open spec fn spec_minutes_since_last(now: DateTime, last: DateTime) -> int {
    let d = spec_minutes_since_epoch(now) - spec_minutes_since_epoch(last);
    if d > 0 {
        d
    } else {
        0
    }
}

/// Whole minutes elapsed since the previous transaction (never negative).
pub fn minutes_since_last(now: DateTime, last: DateTime) -> (r: i64)
    ensures
        r == spec_minutes_since_last(now, last),
{
    let d = now.minutes_since_epoch() - last.minutes_since_epoch();
    if d > 0 {
        d
    } else {
        0
    }
}

/// A timestamp's time of day as written: hours below 24, minutes and
/// seconds below 60.
pub open spec fn time_of_day_valid(t: DateTime) -> bool {
    t.hour < 24 && t.minute < 60 && t.second < 60
}

/// Days of `t`'s date since 1970-01-01.
pub open spec fn epoch_day(t: DateTime) -> int {
    spec_days_from_civil(t.year as int, t.month as int, t.day as int)
}

proof fn lemma_epoch_minutes(t: DateTime)
    requires
        time_of_day_valid(t),
        epoch_day(t) >= 0,
    ensures
        spec_minutes_since_epoch(t) == epoch_day(t) * 1440 + t.hour * 60 + t.minute,
{
    let q = epoch_day(t) * 1440 + t.hour * 60 + t.minute;
    let a = epoch_day(t) * 86400 + t.hour * 3600 + t.minute * 60 + t.second;
    assert(a == q * 60 + t.second);
    lemma_fundamental_div_mod_converse(a, 60, q, t.second as int);
}

/// The minutes elapsed between two timestamps (from 1970 on) count whole
/// days as 1440 minutes and the time of day to the minute: from `last` to
/// `now` they are `1440 * (days between the dates) + (now's hh:mm - last's
/// hh:mm in minutes)`, or `0` when that is not positive. Two timestamps on
/// the same day `h` hours apart are `60 * h` minutes apart.
pub proof fn elapsed_minutes_count_days_and_time_of_day(now: DateTime, last: DateTime)
    requires
        time_of_day_valid(now),
        time_of_day_valid(last),
        epoch_day(now) >= 0,
        epoch_day(last) >= 0,
    ensures
        ({
            let d = (epoch_day(now) - epoch_day(last)) * 1440 + (now.hour * 60 + now.minute) - (
            last.hour * 60 + last.minute);
            spec_minutes_since_last(now, last) == if d > 0 {
                d
            } else {
                0
            }
        }),
{
    lemma_epoch_minutes(now);
    lemma_epoch_minutes(last);
}

} // verus!
