//! Minimal ISO-8601 timestamps: exactly `YYYY-MM-DDTHH:MM:SSZ`.

use vstd::prelude::*;
use vstd::arithmetic::div_mod::{
    lemma_fundamental_div_mod, lemma_fundamental_div_mod_converse, lemma_mod_multiples_vanish,
};

verus! {

/// A calendar timestamp in UTC, as written in a request payload.
#[derive(Debug, Clone, Copy, PartialEq, Eq, Structural)]
pub struct DateTime {
    pub year: i32,
    pub month: u8,
    pub day: u8,
    pub hour: u8,
    pub minute: u8,
    pub second: u8,
}

/// `b` is an ASCII decimal digit.
pub open spec fn is_digit(b: u8) -> bool {
    48 <= b <= 57
}

/// Every byte of `s` is an ASCII decimal digit.
pub open spec fn all_digits(s: Seq<u8>) -> bool {
    forall|i: int| 0 <= i < s.len() ==> is_digit(#[trigger] s[i])
}

/// The number that the decimal digits `s` spell (most significant first).
pub open spec fn digits_value(s: Seq<u8>) -> int
    decreases s.len(),
{
    if s.len() == 0 {
        0
    } else {
        digits_value(s.drop_last()) * 10 + (s.last() - 48)
    }
}

/// The separators of `YYYY-MM-DDTHH:MM:SSZ` stand where they must.
pub open spec fn has_timestamp_shape(s: Seq<u8>) -> bool {
    &&& s.len() == 20
    &&& s[4] == 45 // '-'
    &&& s[7] == 45 // '-'
    &&& s[10] == 84 // 'T'
    &&& s[13] == 58 // ':'
    &&& s[16] == 58 // ':'
    &&& s[19] == 90 // 'Z'
}

/// The six numeric fields of a timestamp are all made of digits.
pub open spec fn has_timestamp_digits(s: Seq<u8>) -> bool {
    &&& all_digits(s.subrange(0, 4))
    &&& all_digits(s.subrange(5, 7))
    &&& all_digits(s.subrange(8, 10))
    &&& all_digits(s.subrange(11, 13))
    &&& all_digits(s.subrange(14, 16))
    &&& all_digits(s.subrange(17, 19))
}

/// What `DateTime::parse` gives for the bytes `s`.
pub open spec fn spec_parse_datetime(s: Seq<u8>) -> Option<DateTime> {
    if has_timestamp_shape(s) && has_timestamp_digits(s) {
        Some(
            DateTime {
                year: digits_value(s.subrange(0, 4)) as i32,
                month: digits_value(s.subrange(5, 7)) as u8,
                day: digits_value(s.subrange(8, 10)) as u8,
                hour: digits_value(s.subrange(11, 13)) as u8,
                minute: digits_value(s.subrange(14, 16)) as u8,
                second: digits_value(s.subrange(17, 19)) as u8,
            },
        )
    } else {
        None
    }
}

/// Days since 1970-01-01 of the proleptic Gregorian date (`year`, `month`,
/// `day`), following the civil-from-days construction over 400-year eras.
pub open spec fn spec_days_from_civil(year: int, month: int, day: int) -> int {
    let y = year - (if month <= 2 { 1int } else { 0int });
    let era = y / 400;
    let yoe = y - era * 400;
    let mp = if month > 2 { month - 3 } else { month + 9 };
    let doy = (153 * mp + 2) / 5 + day - 1;
    let doe = yoe * 365 + yoe / 4 - yoe / 100 + doy;
    era * 146097 + doe - 719468
}

/// `a / b` rounded toward zero, as integer division does in Rust.
pub open spec fn div_toward_zero(a: int, b: int) -> int {
    if a >= 0 {
        a / b
    } else {
        -((-a) / b)
    }
}

/// Whole minutes since the Unix epoch (the seconds divided by 60, rounded
/// toward zero).
pub open spec fn spec_minutes_since_epoch(t: DateTime) -> int {
    let days = spec_days_from_civil(t.year as int, t.month as int, t.day as int);
    div_toward_zero(days * 86400 + t.hour * 3600 + t.minute * 60 + t.second, 60)
}

/// Day of the week with Monday = 0 ... Sunday = 6 (1970-01-01 was a Thursday).
pub open spec fn spec_day_of_week_mon0(t: DateTime) -> int {
    (spec_days_from_civil(t.year as int, t.month as int, t.day as int) + 3) % 7
}

/// Ten to the power `n`.
pub open spec fn pow10(n: nat) -> int
    decreases n,
{
    if n == 0 {
        1
    } else {
        10 * pow10((n - 1) as nat)
    }
}

proof fn lemma_digits_value_bound(s: Seq<u8>)
    requires
        all_digits(s),
    ensures
        0 <= digits_value(s) < pow10(s.len()),
        s.len() <= 9 ==> digits_value(s) < 1000000000,
        s.len() <= 4 ==> digits_value(s) < 10000,
        s.len() <= 2 ==> digits_value(s) < 100,
    decreases s.len(),
{
    if s.len() > 0 {
        let p = s.drop_last();
        assert(all_digits(p)) by {
            assert forall|i: int| 0 <= i < p.len() implies is_digit(#[trigger] p[i]) by {
                assert(p[i] == s[i]);
            }
        }
        lemma_digits_value_bound(p);
        assert(is_digit(s[s.len() - 1]));
    }
    lemma_pow10_monotone(s.len(), 9);
    lemma_pow10_monotone(s.len(), 4);
    lemma_pow10_monotone(s.len(), 2);
    assert(pow10(9) == 1000000000) by {
        reveal_with_fuel(pow10, 10);
    }
    assert(pow10(4) == 10000) by {
        reveal_with_fuel(pow10, 5);
    }
    assert(pow10(2) == 100) by {
        reveal_with_fuel(pow10, 3);
    }
}

/// The value of a digit string is never negative.
pub proof fn lemma_digits_value_nonneg(s: Seq<u8>)
    requires
        all_digits(s),
    ensures
        digits_value(s) >= 0,
{
    lemma_digits_value_bound(s);
}

proof fn lemma_pow10_positive(a: nat)
    ensures
        pow10(a) >= 1,
    decreases a,
{
    if a > 0 {
        lemma_pow10_positive((a - 1) as nat);
    }
}

proof fn lemma_pow10_monotone(a: nat, b: nat)
    ensures
        pow10(a) >= 1,
        a <= b ==> pow10(a) <= pow10(b),
    decreases b,
{
    lemma_pow10_positive(a);
    if b > 0 && a < b {
        lemma_pow10_monotone(a, (b - 1) as nat);
        lemma_pow10_positive((b - 1) as nat);
    }
}

/// The value of a prefix of a digit string is at most the value of the
/// whole.
pub(crate) proof fn lemma_digits_prefix_le(s: Seq<u8>, i: int)
    requires
        all_digits(s),
        0 <= i <= s.len(),
    ensures
        digits_value(s.take(i)) <= digits_value(s),
    decreases s.len() - i,
{
    if i < s.len() {
        lemma_digits_prefix_le(s, i + 1);
        let t = s.take(i + 1);
        assert(t.drop_last() =~= s.take(i));
        assert(is_digit(s[i]));
        lemma_digits_value_nonneg(s.take(i));
    } else {
        assert(s.take(i) =~= s);
    }
}

/// Reads the decimal number spelled by `s`; `None` when a byte is not a
/// digit or the number does not fit in `u32` (an empty `s` reads as `0`).
fn parse_n(s: &[u8]) -> (r: Option<u32>)
    ensures
        r == (if all_digits(s@) && digits_value(s@) <= u32::MAX {
            Some(digits_value(s@) as u32)
        } else {
            None::<u32>
        }),
{
    let mut n: u32 = 0;
    let mut i: usize = 0;
    while i < s.len()
        invariant
            i <= s@.len(),
            all_digits(s@.take(i as int)),
            n as int == digits_value(s@.take(i as int)),
        decreases s@.len() - i,
    {
        let b = s[i];
        if !(48 <= b && b <= 57) {
            assert(!all_digits(s@)) by {
                assert(!is_digit(s@[i as int]));
            }
            return None;
        }
        let ghost t = s@.take(i as int + 1);
        proof {
            assert(t.drop_last() =~= s@.take(i as int));
            assert(all_digits(t)) by {
                assert forall|j: int| 0 <= j < t.len() implies is_digit(#[trigger] t[j]) by {
                    if j < i {
                        assert(t[j] == s@.take(i as int)[j]);
                    }
                }
            }
        }
        let next = match n.checked_mul(10) {
            Some(m) => m.checked_add((b - 48) as u32),
            None => None,
        };
        match next {
            Some(m) => {
                n = m;
            },
            None => {
                proof {
                    assert(t.last() == b);
                    assert(digits_value(t) == n * 10 + (b - 48));
                    if all_digits(s@) {
                        lemma_digits_prefix_le(s@, i + 1);
                    }
                }
                return None;
            },
        }
        i += 1;
    }
    assert(s@.take(s@.len() as int) =~= s@);
    Some(n)
}

proof fn lemma_short_digits_fit(s: Seq<u8>)
    requires
        s.len() <= 9,
    ensures
        all_digits(s) ==> digits_value(s) < 1000000000,
{
    if all_digits(s) {
        lemma_digits_value_bound(s);
    }
}

impl DateTime {
    /// Parses `YYYY-MM-DDTHH:MM:SSZ`; `None` when `s` is not in that form.
    pub fn parse(s: &[u8]) -> (r: Option<Self>)
        ensures
            r == spec_parse_datetime(s@),
    {
        if s.len() != 20 || s[4] != 45 || s[7] != 45 || s[10] != 84 || s[13] != 58 || s[16]
            != 58 || s[19] != 90 {
            return None;
        }
        proof {
            lemma_short_digits_fit(s@.subrange(0, 4));
            lemma_short_digits_fit(s@.subrange(5, 7));
            lemma_short_digits_fit(s@.subrange(8, 10));
            lemma_short_digits_fit(s@.subrange(11, 13));
            lemma_short_digits_fit(s@.subrange(14, 16));
            lemma_short_digits_fit(s@.subrange(17, 19));
        }
        let year = match parse_n(&s[0..4]) {
            Some(v) => v,
            None => return None,
        };
        let month = match parse_n(&s[5..7]) {
            Some(v) => v,
            None => return None,
        };
        let day = match parse_n(&s[8..10]) {
            Some(v) => v,
            None => return None,
        };
        let hour = match parse_n(&s[11..13]) {
            Some(v) => v,
            None => return None,
        };
        let minute = match parse_n(&s[14..16]) {
            Some(v) => v,
            None => return None,
        };
        let second = match parse_n(&s[17..19]) {
            Some(v) => v,
            None => return None,
        };
        proof {
            lemma_digits_value_bound(s@.subrange(0, 4));
            lemma_digits_value_bound(s@.subrange(5, 7));
            lemma_digits_value_bound(s@.subrange(8, 10));
            lemma_digits_value_bound(s@.subrange(11, 13));
            lemma_digits_value_bound(s@.subrange(14, 16));
            lemma_digits_value_bound(s@.subrange(17, 19));
        }
        Some(
            Self {
                year: year as i32,
                month: month as u8,
                day: day as u8,
                hour: hour as u8,
                minute: minute as u8,
                second: second as u8,
            },
        )
    }

    /// Days since 1970-01-01 (the days-from-civil algorithm over 400-year
    /// eras).
    pub fn days_from_civil(self) -> (r: i64)
        ensures
            r == spec_days_from_civil(self.year as int, self.month as int, self.day as int),
    {
        let y: i64 = self.year as i64 - (if self.month <= 2 { 1i64 } else { 0i64 });
        let era: i64 = match y.checked_div_euclid(400) {
            Some(e) => e,
            None => 0,
        };
        assert(era == y / 400);
        let yoe: i64 = y - era * 400;
        assert(0 <= yoe < 400);
        let m: i64 = self.month as i64;
        let d: i64 = self.day as i64;
        let mp: i64 = if m > 2 { m - 3 } else { m + 9 };
        let doy: i64 = (153 * mp + 2) / 5 + d - 1;
        let doe: i64 = yoe * 365 + yoe / 4 - yoe / 100 + doy;
        era * 146097 + doe - 719468
    }

    /// Whole minutes since the Unix epoch (UTC, no leap seconds).
    pub fn minutes_since_epoch(self) -> (r: i64)
        ensures
            r == spec_minutes_since_epoch(self),
            -10_000_000_000_000_000 <= r <= 10_000_000_000_000_000,
    {
        let days = self.days_from_civil();
        let secs: i64 = days * 86400 + self.hour as i64 * 3600 + self.minute as i64 * 60
            + self.second as i64;
        match secs.checked_div(60) {
            Some(v) => v,
            None => 0,
        }
    }

    /// Day of the week, Monday = 0 ... Sunday = 6.
    pub fn day_of_week_mon0(self) -> (r: u8)
        ensures
            r == spec_day_of_week_mon0(self),
            r < 7,
    {
        let d = self.days_from_civil();
        let w: i64 = match (d + 3).checked_rem_euclid(7) {
            Some(v) => v,
            None => 0,
        };
        w as u8
    }
}


/// Gregorian leap year.
pub open spec fn is_leap_year(y: int) -> bool {
    (y % 4 == 0 && y % 100 != 0) || y % 400 == 0
}

/// Number of days of month `m` (1-12) of year `y`.
pub open spec fn days_in_month(y: int, m: int) -> int {
    if m == 2 {
        if is_leap_year(y) {
            29
        } else {
            28
        }
    } else if m == 4 || m == 6 || m == 9 || m == 11 {
        30
    } else {
        31
    }
}

/// The calendar day after (`y`, `m`, `d`).
pub open spec fn next_day(y: int, m: int, d: int) -> (int, int, int) {
    if d < days_in_month(y, m) {
        (y, m, d + 1)
    } else if m < 12 {
        (y, m + 1, 1)
    } else {
        (y + 1, 1, 1)
    }
}

/// Days before the shifted (March-first) year `yy` within the calendar, as
/// the civil algorithm counts them.
spec fn year_start(yy: int) -> int {
    let era = yy / 400;
    let yoe = yy - era * 400;
    era * 146097 + yoe * 365 + yoe / 4 - yoe / 100
}

proof fn lemma_year_length(yy: int)
    ensures
        year_start(yy + 1) - year_start(yy) == (if is_leap_year(yy + 1) {
            366int
        } else {
            365int
        }),
{
    let era = yy / 400;
    let yoe = yy - era * 400;
    lemma_fundamental_div_mod(yy, 400);
    assert(0 <= yoe < 400);
    let t = yoe + 1;
    let y = yy + 1;
    assert(y == 400 * era + t);
    lemma_mod_multiples_vanish(100 * era, t, 4);
    lemma_mod_multiples_vanish(4 * era, t, 100);
    lemma_mod_multiples_vanish(era, t, 400);
    assert(y % 4 == t % 4);
    assert(y % 100 == t % 100);
    assert(y % 400 == t % 400);
    lemma_fundamental_div_mod(yoe, 4);
    lemma_fundamental_div_mod(t, 4);
    lemma_fundamental_div_mod(yoe, 100);
    lemma_fundamental_div_mod(t, 100);
    lemma_fundamental_div_mod(t, 400);
    if yoe < 399 {
        lemma_fundamental_div_mod_converse(y, 400, era, t);
        assert(t % 400 == t);
    } else {
        lemma_fundamental_div_mod_converse(y, 400, era + 1, 0);
        assert(t % 400 == 0);
    }
}

/// The civil day count advances by exactly one from each valid date to the
/// next (month lengths and the Gregorian leap-year rule included), for any
/// year.
pub proof fn days_from_civil_counts_days(y: int, m: int, d: int)
    requires
        1 <= m <= 12,
        1 <= d <= days_in_month(y, m),
    ensures
        spec_days_from_civil(next_day(y, m, d).0, next_day(y, m, d).1, next_day(y, m, d).2)
            == spec_days_from_civil(y, m, d) + 1,
{
    if d < days_in_month(y, m) {
    } else if m == 2 {
        lemma_year_length(y - 1);
        assert(spec_days_from_civil(y, 2, d) == year_start(y - 1) + 336 + d - 719468);
        assert(spec_days_from_civil(y, 3, 1) == year_start(y) - 719468);
    } else if m < 12 {
    } else {
    }
}

/// (`y`, `m`, `d`) is a calendar date.
pub open spec fn valid_date(y: int, m: int, d: int) -> bool {
    1 <= m <= 12 && 1 <= d <= days_in_month(y, m)
}

/// (`y1`, `m1`, `d1`) comes before (`y2`, `m2`, `d2`) in the calendar.
pub open spec fn date_before(y1: int, m1: int, d1: int, y2: int, m2: int, d2: int) -> bool {
    y1 < y2 || (y1 == y2 && (m1 < m2 || (m1 == m2 && d1 < d2)))
}

proof fn lemma_same_month(y: int, m: int, d1: int, d2: int)
    ensures
        spec_days_from_civil(y, m, d2) - spec_days_from_civil(y, m, d1) == d2 - d1,
{
}

proof fn lemma_month_before_next(y: int, m: int, d: int)
    requires
        valid_date(y, m, d),
        m < 12,
    ensures
        spec_days_from_civil(y, m, d) < spec_days_from_civil(y, m + 1, 1),
{
    let e = days_in_month(y, m);
    days_from_civil_counts_days(y, m, e);
    lemma_same_month(y, m, d, e);
}

proof fn lemma_months_increase(y: int, m1: int, d1: int, m2: int, d2: int)
    requires
        valid_date(y, m1, d1),
        valid_date(y, m2, d2),
        m1 < m2,
    ensures
        spec_days_from_civil(y, m1, d1) < spec_days_from_civil(y, m2, d2),
    decreases m2 - m1,
{
    lemma_month_before_next(y, m1, d1);
    if m1 + 1 == m2 {
        lemma_same_month(y, m2, 1, d2);
    } else {
        lemma_months_increase(y, m1 + 1, 1, m2, d2);
    }
}

proof fn lemma_from_new_year(y: int, m: int, d: int)
    requires
        valid_date(y, m, d),
    ensures
        spec_days_from_civil(y, 1, 1) <= spec_days_from_civil(y, m, d),
{
    if m == 1 {
        lemma_same_month(y, 1, 1, d);
    } else {
        lemma_months_increase(y, 1, 1, m, d);
    }
}

proof fn lemma_before_next_year(y: int, m: int, d: int)
    requires
        valid_date(y, m, d),
    ensures
        spec_days_from_civil(y, m, d) < spec_days_from_civil(y + 1, 1, 1),
{
    days_from_civil_counts_days(y, 12, 31);
    if m < 12 {
        lemma_months_increase(y, m, d, 12, 31);
    } else {
        lemma_same_month(y, 12, d, 31);
    }
}

proof fn lemma_years_increase(y1: int, m1: int, d1: int, y2: int, m2: int, d2: int)
    requires
        valid_date(y1, m1, d1),
        valid_date(y2, m2, d2),
        y1 < y2,
    ensures
        spec_days_from_civil(y1, m1, d1) < spec_days_from_civil(y2, m2, d2),
    decreases y2 - y1,
{
    lemma_before_next_year(y1, m1, d1);
    if y1 + 1 == y2 {
        lemma_from_new_year(y2, m2, d2);
    } else {
        lemma_years_increase(y1 + 1, 1, 1, y2, m2, d2);
    }
}

/// The civil day count orders dates as the calendar does: of two dates, the
/// earlier one has the smaller count.
pub proof fn days_from_civil_is_increasing(y1: int, m1: int, d1: int, y2: int, m2: int, d2: int)
    requires
        valid_date(y1, m1, d1),
        valid_date(y2, m2, d2),
        date_before(y1, m1, d1, y2, m2, d2),
    ensures
        spec_days_from_civil(y1, m1, d1) < spec_days_from_civil(y2, m2, d2),
{
    if y1 < y2 {
        lemma_years_increase(y1, m1, d1, y2, m2, d2);
    } else if m1 < m2 {
        lemma_months_increase(y1, m1, d1, m2, d2);
    } else {
        lemma_same_month(y1, m1, d1, d2);
    }
}

/// Consecutive days are consecutive weekdays: the weekday of the next
/// calendar day is the following one (Sunday is followed by Monday).
pub proof fn weekday_advances(y: int, m: int, d: int)
    requires
        1 <= m <= 12,
        1 <= d <= days_in_month(y, m),
    ensures
        (spec_days_from_civil(next_day(y, m, d).0, next_day(y, m, d).1, next_day(y, m, d).2) + 3)
            % 7 == ((spec_days_from_civil(y, m, d) + 3) % 7 + 1) % 7,
{
    days_from_civil_counts_days(y, m, d);
    let x = spec_days_from_civil(y, m, d) + 3;
    vstd::arithmetic::div_mod::lemma_add_mod_noop(x, 1, 7);
    vstd::arithmetic::div_mod::lemma_mod_twice(x, 7);
}

} // verus!
