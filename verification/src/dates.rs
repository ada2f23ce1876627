//! Time-range parsing and validation for the analysis window: ISO
//! `YYYY-MM-DD` dates, relative offsets (`30d`, `4w`, `6m`, `1y`), and
//! the inverted-range check.
//!
//! The proleptic Gregorian calendar is modelled directly; years 1 to
//! 9999 are supported. Only the current date comes from outside,
//! through one trusted call.
use chrono::Datelike;
use vstd::prelude::*;
use crate::text::{
    is_digit, str_chars, scan_digits, digit_end, spec_trim, trim_str,
};

verus! {

/// A Gregorian leap year.
pub open spec fn is_leap(y: int) -> bool {
    y % 4 == 0 && (y % 100 != 0 || y % 400 == 0)
}

/// The number of days in a month.
pub open spec fn days_in_month(y: int, m: int) -> int {
    if m == 2 {
        if is_leap(y) {
            29
        } else {
            28
        }
    } else if m == 4 || m == 6 || m == 9 || m == 11 {
        30
    } else {
        31
    }
}

/// A calendar date within the supported year range.
pub open spec fn valid_ymd(y: int, m: int, d: int) -> bool {
    1 <= y <= 9999 && 1 <= m <= 12 && 1 <= d <= days_in_month(y, m)
}

/// Days since 1970-01-01 of a civil date, by the usual era
/// decomposition of the proleptic Gregorian calendar.
pub open spec fn civil_days(y: int, m: int, d: int) -> int {
    let yy = if m <= 2 {
        y - 1
    } else {
        y
    };
    let era = yy / 400;
    let yoe = yy - era * 400;
    let mp = if m > 2 {
        m - 3
    } else {
        m + 9
    };
    let doy = (153 * mp + 2) / 5 + d - 1;
    let doe = yoe * 365 + yoe / 4 - yoe / 100 + doy;
    era * 146097 + doe - 719468
}

/// Exec computation of `civil_days` for supported dates.
pub fn days_from_civil(y: i64, m: u8, d: u8) -> (r: i64)
    requires
        valid_ymd(y as int, m as int, d as int),
    ensures
        r == civil_days(y as int, m as int, d as int),
{
    let yy: u64 = if m <= 2 {
        (y - 1) as u64
    } else {
        y as u64
    };
    let era: u64 = yy / 400;
    let yoe: u64 = yy - era * 400;
    let mp: u64 = if m > 2 {
        (m - 3) as u64
    } else {
        (m + 9) as u64
    };
    let doy: u64 = (153 * mp + 2) / 5 + (d - 1) as u64;
    let doe: u64 = yoe * 365 + yoe / 4 - yoe / 100 + doy;
    (era * 146097 + doe) as i64 - 719468
}

/// Exec leap-year test.
pub fn leap_year(y: i64) -> (r: bool)
    requires
        1 <= y <= 9999,
    ensures
        r == is_leap(y as int),
{
    y % 4 == 0 && (y % 100 != 0 || y % 400 == 0)
}

/// Exec month length.
pub fn month_len(y: i64, m: u8) -> (r: u8)
    requires
        1 <= y <= 9999,
        1 <= m <= 12,
    ensures
        r == days_in_month(y as int, m as int),
{
    if m == 2 {
        if leap_year(y) {
            29
        } else {
            28
        }
    } else if m == 4 || m == 6 || m == 9 || m == 11 {
        30
    } else {
        31
    }
}

/// The numeric value of a digit character.
pub open spec fn char_val(c: char) -> int {
    c as u32 - 48
}

/// The value of a run of digit characters read in base ten.
pub open spec fn digits_val(s: Seq<char>) -> int
    decreases s.len(),
{
    if s.len() == 0 {
        0
    } else {
        digits_val(s.drop_last()) * 10 + char_val(s.last())
    }
}

/// A digit string's value is non-negative.
pub proof fn lemma_digits_val_nonneg(s: Seq<char>)
    requires
        forall|j: int| 0 <= j < s.len() ==> is_digit(s[j]),
    ensures
        digits_val(s) >= 0,
    decreases s.len(),
{
    if s.len() > 0 {
        lemma_digits_val_nonneg(s.drop_last());
    }
}

/// A digit string's value dominates the value of each of its prefixes.
pub proof fn lemma_digits_val_mono(s: Seq<char>, i: int)
    requires
        0 <= i <= s.len(),
        forall|j: int| 0 <= j < s.len() ==> is_digit(s[j]),
    ensures
        digits_val(s.take(i)) <= digits_val(s),
    decreases s.len() - i,
{
    if i == s.len() {
        assert(s.take(i) =~= s);
    } else {
        assert(s.take(i + 1).drop_last() =~= s.take(i));
        lemma_digits_val_nonneg(s.take(i));
        lemma_digits_val_mono(s, i + 1);
    }
}

/// A parsed `YYYY-MM-DD` date: strict four-two-two digits with dashes,
/// valid in the supported range.
pub open spec fn spec_parse_ymd(s: Seq<char>) -> Option<(int, int, int)> {
    if s.len() == 10 && is_digit(s[0]) && is_digit(s[1]) && is_digit(s[2]) && is_digit(s[3])
        && s[4] == '-' && is_digit(s[5]) && is_digit(s[6]) && s[7] == '-' && is_digit(s[8])
        && is_digit(s[9]) {
        let y = char_val(s[0]) * 1000 + char_val(s[1]) * 100 + char_val(s[2]) * 10 + char_val(
            s[3],
        );
        let m = char_val(s[5]) * 10 + char_val(s[6]);
        let d = char_val(s[8]) * 10 + char_val(s[9]);
        if valid_ymd(y, m, d) {
            Some((y, m, d))
        } else {
            None
        }
    } else {
        None
    }
}

/// Parse a strict `YYYY-MM-DD` date.
pub fn parse_ymd(s: &str) -> (r: Option<(i64, u8, u8)>)
    ensures
        r is Some <==> spec_parse_ymd(s@) is Some,
        r matches Some(t) ==> spec_parse_ymd(s@) matches Some(u) && t.0 == u.0 && t.1 == u.1
            && t.2 == u.2,
{
    let v = str_chars(s);
    if v.len() != 10 {
        return None;
    }
    let mut i: usize = 0;
    let mut digits_ok = true;
    while i < 10
        invariant
            0 <= i <= 10,
            v@.len() == 10,
            digits_ok <==> forall|j: int|
                0 <= j < i && j != 4 && j != 7 ==> is_digit(v@[j]),
        decreases 10 - i,
    {
        if i != 4 && i != 7 {
            let u = v[i] as u32;
            if !(48 <= u && u <= 57) {
                digits_ok = false;
            }
        }
        i = i + 1;
    }
    if !digits_ok || v[4] != '-' || v[7] != '-' {
        return None;
    }
    let y: i64 = ((v[0] as u32 - 48) * 1000 + (v[1] as u32 - 48) * 100 + (v[2] as u32 - 48) * 10
        + (v[3] as u32 - 48)) as i64;
    let m8: u8 = ((v[5] as u32 - 48) * 10 + (v[6] as u32 - 48)) as u8;
    let d8: u8 = ((v[8] as u32 - 48) * 10 + (v[9] as u32 - 48)) as u8;
    if !(1 <= y && 1 <= m8 && m8 <= 12) {
        return None;
    }
    if d8 < 1 || d8 > month_len(y, m8) {
        return None;
    }
    Some((y, m8, d8))
}

/// A relative-offset unit: days, weeks, months or years.
pub open spec fn rel_unit(c: char) -> bool {
    c == 'd' || c == 'w' || c == 'm' || c == 'y'
}

/// The parts of a relative offset (`30d`): digits then one unit letter,
/// with the count fitting an unsigned 32-bit value.
pub open spec fn spec_rel_parts(s: Seq<char>) -> Option<(int, char)> {
    if s.len() >= 2 && rel_unit(s.last()) && digit_end(s, 0) == s.len() - 1 && digits_val(
        s.take(s.len() - 1),
    ) <= 0xFFFF_FFFF {
        Some((digits_val(s.take(s.len() - 1)), s.last()))
    } else {
        None
    }
}

/// Parse the parts of a relative offset.
pub fn rel_parts(s: &str) -> (r: Option<(u32, char)>)
    ensures
        r is Some <==> spec_rel_parts(s@) is Some,
        r matches Some(t) ==> spec_rel_parts(s@) matches Some(u) && t.0 == u.0 && t.1 == u.1,
{
    let v = str_chars(s);
    let len = v.len();
    if len < 2 {
        return None;
    }
    let unit = v[len - 1];
    if !(unit == 'd' || unit == 'w' || unit == 'm' || unit == 'y') {
        return None;
    }
    let de = scan_digits(&v, 0);
    if de != len - 1 {
        return None;
    }
    let ghost digits = v@.take(len - 1 as int);
    proof {
        assert(forall|j: int| 0 <= j < digits.len() ==> is_digit(#[trigger] digits[j]));
    }
    let mut acc: u64 = 0;
    let mut i: usize = 0;
    while i < len - 1
        invariant
            0 <= i <= len - 1,
            len == v@.len(),
            len >= 2,
            digits == v@.take(len - 1 as int),
            forall|j: int| 0 <= j < digits.len() ==> is_digit(#[trigger] digits[j]),
            acc == digits_val(digits.take(i as int)),
            acc <= 0xFFFF_FFFF,
        decreases len - 1 - i,
    {
        let dv = (v[i] as u32 - 48) as u64;
        let next: u64 = acc * 10 + dv;
        proof {
            assert(digits.take(i + 1).drop_last() =~= digits.take(i as int));
            assert(digits.take(i + 1).last() == digits[i as int]);
        }
        if next > 0xFFFF_FFFF {
            proof {
                lemma_digits_val_mono(digits, i + 1);
            }
            return None;
        }
        acc = next;
        i = i + 1;
    }
    proof {
        assert(digits.take(len - 1 as int) =~= digits);
    }
    Some((acc as u32, unit))
}

/// Subtracting calendar months, the day clamped to the target month's
/// length.
pub open spec fn month_sub(y: int, m: int, d: int, n: int) -> Option<(int, int, int)> {
    let total = y * 12 + (m - 1) - n;
    if total < 0 {
        None
    } else {
        let y2 = total / 12;
        let m2 = total % 12 + 1;
        let d2 = if d <= days_in_month(y2, m2) {
            d
        } else {
            days_in_month(y2, m2)
        };
        Some((y2, m2, d2))
    }
}

/// Subtracting calendar years, stepping one day back when the source day
/// does not exist in the target year.
pub open spec fn year_sub(y: int, m: int, d: int, n: int) -> Option<(int, int, int)> {
    let y2 = y - n;
    if 1 <= m <= 12 && 1 <= d <= days_in_month(y2, m) {
        Some((y2, m, d))
    } else if 1 <= m <= 12 && 1 <= d - 1 <= days_in_month(y2, m) {
        Some((y2, m, d - 1))
    } else {
        None
    }
}

/// The resolved day number of a relative offset from `today`, or `None`
/// when the result leaves the supported range.
pub open spec fn spec_rel_days(t: (int, int, int), n: int, unit: char) -> Option<int> {
    if !valid_ymd(t.0, t.1, t.2) {
        None
    } else if unit == 'd' || unit == 'w' {
        let days = civil_days(t.0, t.1, t.2) - (if unit == 'd' {
            n
        } else {
            7 * n
        });
        if days >= civil_days(1, 1, 1) {
            Some(days)
        } else {
            None
        }
    } else if unit == 'm' {
        match month_sub(t.0, t.1, t.2, n) {
            Some(ymd) => if 1 <= ymd.0 <= 9999 {
                Some(civil_days(ymd.0, ymd.1, ymd.2))
            } else {
                None
            },
            None => None,
        }
    } else if unit == 'y' {
        match year_sub(t.0, t.1, t.2, n) {
            Some(ymd) => if 1 <= ymd.0 <= 9999 {
                Some(civil_days(ymd.0, ymd.1, ymd.2))
            } else {
                None
            },
            None => None,
        }
    } else {
        None
    }
}

/// Resolve a relative offset against `today` to a day number.
pub fn rel_days(today: (i64, u8, u8), n: u32, unit: char) -> (r: Option<i64>)
    ensures
        r is Some <==> spec_rel_days((today.0 as int, today.1 as int, today.2 as int), n as int,
            unit) is Some,
        r matches Some(d) ==> spec_rel_days((today.0 as int, today.1 as int, today.2 as int),
            n as int, unit) == Some(d as int),
{
    let (y, m, d) = today;
    if !(1 <= y && y <= 9999 && 1 <= m && m <= 12 && 1 <= d) {
        return None;
    }
    if d > month_len(y, m) {
        return None;
    }
    if unit == 'd' || unit == 'w' {
        let td = days_from_civil(y, m, d);
        let sub: i64 = if unit == 'd' {
            n as i64
        } else {
            7 * (n as i64)
        };
        let days = td - sub;
        let floor = days_from_civil(1, 1, 1);
        if days >= floor {
            Some(days)
        } else {
            None
        }
    } else if unit == 'm' {
        let total: i64 = y * 12 + (m as i64 - 1) - (n as i64);
        if total < 0 {
            return None;
        }
        let y2: i64 = total / 12;
        let m2: u8 = (total % 12 + 1) as u8;
        if !(1 <= y2 && y2 <= 9999) {
            return None;
        }
        let ml = month_len(y2, m2);
        let d2: u8 = if d <= ml {
            d
        } else {
            ml
        };
        Some(days_from_civil(y2, m2, d2))
    } else if unit == 'y' {
        let y2: i64 = y - (n as i64);
        if !(1 <= y2 && y2 <= 9999) {
            // Out of the supported range: both fallbacks of `year_sub`
            // share the target year, so neither can be taken.
            return None;
        }
        let ml = month_len(y2, m);
        if d <= ml {
            Some(days_from_civil(y2, m, d))
        } else if d - 1 >= 1 && d - 1 <= ml {
            Some(days_from_civil(y2, m, d - 1))
        } else {
            None
        }
    } else {
        None
    }
}

/// What one bound string resolves to: seconds since the epoch at the
/// start (or end) of the named day, or a rejection. Relative offsets are
/// detected on the trimmed string; ISO dates are read strictly.
pub open spec fn spec_bound(s: Seq<char>, today: (int, int, int), end_of_day: bool) -> Option<
    int,
> {
    let off: int = if end_of_day {
        86399
    } else {
        0
    };
    match spec_rel_parts(spec_trim(s)) {
        Some((n, unit)) => match spec_rel_days(today, n, unit) {
            Some(days) => Some(days * 86400 + off),
            None => None,
        },
        None => match spec_parse_ymd(s) {
            Some(ymd) => Some(civil_days(ymd.0, ymd.1, ymd.2) * 86400 + off),
            None => None,
        },
    }
}

/// The date today in UTC, as a year, month and day.
///
/// Relies on `chrono::Utc::now` and `chrono::Datelike`: `date_naive`
/// yields a valid civil date, so the month is 1 to 12 and the day fits
/// the month. Nothing is assumed about the year: the caller checks the
/// supported range.
#[verifier::external_body]
fn today_utc() -> (r: (i64, u8, u8))
    ensures
        1 <= r.1 <= 12,
        1 <= r.2 as int <= days_in_month(r.0 as int, r.1 as int),
{
    let now = chrono::Utc::now().date_naive();
    (now.year() as i64, now.month() as u8, now.day() as u8)
}

/// The wrapper's guarantee about a date triple.
pub open spec fn plausible_today(t: (int, int, int)) -> bool {
    1 <= t.1 <= 12 && 1 <= t.2 <= days_in_month(t.0, t.1)
}

/// One bound, resolved against a given day. `None` means the string was
/// rejected.
fn bound_with_today(s: &str, today: (i64, u8, u8), end_of_day: bool) -> (r: Option<i64>)
    ensures
        r is Some <==> spec_bound(s@, (today.0 as int, today.1 as int, today.2 as int),
            end_of_day) is Some,
        r matches Some(ts) ==> spec_bound(s@, (today.0 as int, today.1 as int, today.2 as int),
            end_of_day) == Some(ts as int),
{
    let off: i64 = if end_of_day {
        86399
    } else {
        0
    };
    let trimmed = trim_str(s);
    match rel_parts(trimmed) {
        Some((n, unit)) => match rel_days(today, n, unit) {
            Some(days) => Some(days * 86400 + off),
            None => None,
        },
        None => match parse_ymd(s) {
            Some((y, m, d)) => Some(days_from_civil(y, m, d) * 86400 + off),
            None => None,
        },
    }
}

/// The message given for a bound that parses as neither an ISO date nor
/// a relative offset.
fn invalid_bound_message() -> String {
    String::from_str("invalid date (expected YYYY-MM-DD or a relative offset like 30d, 4w, 6m, 1y)")
}

/// Parse the lower bound of the range: midnight at the start of the
/// named day. `None` stays `None`; an unreadable string is an error.
///
/// An ISO date resolves to a pinned timestamp; a relative offset is
/// resolved against the current date, so its ensures only ties the
/// result to some plausible day.
#[verifier::rlimit(100)]
pub fn parse_since(since: &Option<String>) -> (r: Result<Option<i64>, String>)
    ensures
        since is None ==> (r matches Ok(o) && o is None),
        since matches Some(s) ==> (spec_rel_parts(spec_trim(s@)) is None ==> ((r matches Ok(o)
            && o matches Some(ts) && spec_parse_ymd(s@) matches Some(ymd) && ts == civil_days(
            ymd.0,
            ymd.1,
            ymd.2,
        ) * 86400) || (r is Err && spec_parse_ymd(s@) is None))),
        since matches Some(s) ==> (spec_rel_parts(spec_trim(s@)) is Some ==> exists|t: (
            int,
            int,
            int,
        )|
            plausible_today(t) && ((r matches Ok(o) && o matches Some(ts) && spec_bound(
                s@,
                t,
                false,
            ) == Some(ts as int)) || (r is Err && spec_bound(s@, t, false) is None))),
{
    match since {
        None => Ok(None),
        Some(s) => {
            let today = today_utc();
            let ghost tt = (today.0 as int, today.1 as int, today.2 as int);
            let b = bound_with_today(s.as_str(), today, false);
            let r: Result<Option<i64>, String> = match b {
                Some(ts) => Ok(Some(ts)),
                None => Err(invalid_bound_message()),
            };
            proof {
                if spec_rel_parts(spec_trim(s@)) is Some {
                    assert(plausible_today(tt) && ((r matches Ok(o) && o matches Some(ts)
                        && spec_bound(s@, tt, false) == Some(ts as int)) || (r is Err
                        && spec_bound(s@, tt, false) is None)));
                }
            }
            r
        },
    }
}

/// Parse the upper bound of the range: the last second of the named day.
#[verifier::rlimit(100)]
pub fn parse_until(until: &Option<String>) -> (r: Result<Option<i64>, String>)
    ensures
        until is None ==> (r matches Ok(o) && o is None),
        until matches Some(s) ==> (spec_rel_parts(spec_trim(s@)) is None ==> ((r matches Ok(o)
            && o matches Some(ts) && spec_parse_ymd(s@) matches Some(ymd) && ts == civil_days(
            ymd.0,
            ymd.1,
            ymd.2,
        ) * 86400 + 86399) || (r is Err && spec_parse_ymd(s@) is None))),
        until matches Some(s) ==> (spec_rel_parts(spec_trim(s@)) is Some ==> exists|t: (
            int,
            int,
            int,
        )|
            plausible_today(t) && ((r matches Ok(o) && o matches Some(ts) && spec_bound(
                s@,
                t,
                true,
            ) == Some(ts as int)) || (r is Err && spec_bound(s@, t, true) is None))),
{
    match until {
        None => Ok(None),
        Some(s) => {
            let today = today_utc();
            let ghost tt = (today.0 as int, today.1 as int, today.2 as int);
            let b = bound_with_today(s.as_str(), today, true);
            let r: Result<Option<i64>, String> = match b {
                Some(ts) => Ok(Some(ts)),
                None => Err(invalid_bound_message()),
            };
            proof {
                if spec_rel_parts(spec_trim(s@)) is Some {
                    assert(plausible_today(tt) && ((r matches Ok(o) && o matches Some(ts)
                        && spec_bound(s@, tt, true) == Some(ts as int)) || (r is Err
                        && spec_bound(s@, tt, true) is None)));
                }
            }
            r
        },
    }
}

/// An inverted range (`since` after `until`) is rejected before any walk
/// starts; the message names the violated precondition.
pub fn validate_range(since: Option<i64>, until: Option<i64>) -> (r: Result<(), String>)
    ensures
        r is Ok <==> !(since is Some && until is Some && since->0 > until->0),
        r is Err ==> r->Err_0@ == "--since date is after --until date (empty range)"@,
{
    if let (Some(s), Some(u)) = (since, until) {
        if s > u {
            return Err(String::from_str("--since date is after --until date (empty range)"));
        }
    }
    Ok(())
}

} // verus!
