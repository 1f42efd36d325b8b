//! Calendar dates of queries, read with `chrono`.

use vstd::prelude::*;
use crate::models::Timestamp;

verus! {

/// Seconds in a day.
pub const SECS_PER_DAY: i64 = 86400;

/// Seconds beyond which no `chrono` date lies (its years stay within
/// ±262142).
pub const DATE_SECS_BOUND: i64 = 8_796_093_022_208;

/// The instant `chrono` reads from a `%Y-%m-%d` date: midnight UTC of that
/// day, or `None` when the text is not such a date.
pub uninterp spec fn date_of(s: Seq<char>) -> Option<Timestamp>;

/// Calls `chrono::NaiveDate::parse_from_str(s, "%Y-%m-%d")`, then
/// `and_hms_opt(0, 0, 0)` and `and_utc`. Claimed: the result depends on
/// the text alone, and a date found is a midnight within chrono's year range.
#[verifier::external_body]
fn chrono_parse_date(s: &str) -> (r: Option<Timestamp>)
    ensures
        r == date_of(s@),
        r matches Some(t) ==> t.nanos == 0 && t.secs % SECS_PER_DAY == 0
            && -DATE_SECS_BOUND < t.secs < DATE_SECS_BOUND,
{
    match chrono::NaiveDate::parse_from_str(s, "%Y-%m-%d") {
        Ok(d) => match d.and_hms_opt(0, 0, 0) {
            Some(n) => {
                let u = n.and_utc();
                Some(Timestamp { secs: u.timestamp(), nanos: u.timestamp_subsec_nanos() })
            },
            None => None,
        },
        Err(_) => None,
    }
}

/// A date in `%Y-%m-%d` form, as midnight UTC of that day.
pub fn parse_date(s: &str) -> (r: Option<Timestamp>)
    ensures
        r == date_of(s@),
        r matches Some(t) ==> t.nanos == 0 && t.secs % SECS_PER_DAY == 0
            && -DATE_SECS_BOUND < t.secs < DATE_SECS_BOUND,
{
    chrono_parse_date(s)
}

/// The instant one day later.
pub open spec fn next_day(t: Timestamp) -> Timestamp {
    Timestamp { secs: (t.secs + SECS_PER_DAY) as i64, nanos: t.nanos }
}

/// Adds one day.
pub fn add_one_day(t: Timestamp) -> (r: Timestamp)
    requires
        t.secs < DATE_SECS_BOUND,
    ensures
        r == next_day(t),
{
    Timestamp { secs: t.secs + SECS_PER_DAY, nanos: t.nanos }
}

} // verus!

verus! {

/// Calls `chrono::DateTime::from_timestamp`. Claimed, as its source shows:
/// a result keeps the seconds and nanoseconds; nanoseconds from two billion
/// on are refused; and any instant within about 250,000 years of 1970 with
/// nanoseconds under one billion is accepted.
#[verifier::external_body]
fn chrono_from_timestamp(secs: i64, nanos: u32) -> (r: Option<Timestamp>)
    ensures
        r matches Some(t) ==> t.secs == secs && t.nanos == nanos,
        nanos < 1_000_000_000 && -8_000_000_000_000 <= secs <= 8_000_000_000_000 ==> r is Some,
        nanos >= 2_000_000_000 ==> r is None,
{
    match chrono::DateTime::from_timestamp(secs, nanos) {
        Some(d) => Some(Timestamp { secs: d.timestamp(), nanos: d.timestamp_subsec_nanos() }),
        None => None,
    }
}

/// Seconds between 1601-01-01 and 1970-01-01.
pub const FILETIME_EPOCH_DIFF: i64 = 11_644_473_600;

/// Windows file-time ticks per second.
pub const TICKS_PER_SEC: i64 = 10_000_000;

/// `x / d` rounded toward zero.
pub open spec fn trunc_quot(x: int, d: int) -> int {
    if x >= 0 {
        x / d
    } else {
        -((-x) / d)
    }
}

/// The remainder of `trunc_quot`, with the sign of `x`.
pub open spec fn trunc_rem(x: int, d: int) -> int {
    x - trunc_quot(x, d) * d
}

/// The instant of a Windows file time (100 ns ticks since 1601): whole
/// seconds rounded toward zero; a negative time with a fraction of a second
/// does not convert, and gives the Unix epoch.
pub open spec fn filetime_instant(ft: i64) -> Timestamp {
    let q = trunc_quot(ft as int, TICKS_PER_SEC as int);
    let rm = trunc_rem(ft as int, TICKS_PER_SEC as int);
    if rm >= 0 {
        Timestamp { secs: (q - FILETIME_EPOCH_DIFF) as i64, nanos: (rm * 100) as u32 }
    } else {
        Timestamp { secs: 0, nanos: 0 }
    }
}

/// Converts a Windows file time (see `filetime_instant`).
pub fn filetime_to_datetime(ft: i64) -> (r: Timestamp)
    ensures
        r == filetime_instant(ft),
{
    let x = ft as i128;
    let (q, rm): (i128, i128) = if x >= 0 {
        let a = x as u128;
        ((a / 10_000_000) as i128, (a % 10_000_000) as i128)
    } else {
        let a = (0 - x) as u128;
        (0 - (a / 10_000_000) as i128, 0 - (a % 10_000_000) as i128)
    };
    assert(q == trunc_quot(ft as int, 10_000_000));
    assert(rm == trunc_rem(ft as int, 10_000_000));
    assert(-922_337_203_686 <= q <= 922_337_203_686);
    assert(-10_000_000 < rm < 10_000_000);
    let secs = (q - 11_644_473_600) as i64;
    let nanos: u32 = if rm >= 0 { (rm * 100) as u32 } else { (4_294_967_296 + rm * 100) as u32 };
    match chrono_from_timestamp(secs, nanos) {
        Some(t) => t,
        None => Timestamp { secs: 0, nanos: 0 },
    }
}

} // verus!
