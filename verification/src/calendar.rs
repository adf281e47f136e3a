//! UTC calendar days: the day key `YYYYMMDD` of a timestamp, and the
//! timestamp of a civil date and time. The calendar itself is chrono's.

use vstd::prelude::*;
use vstd::arithmetic::div_mod::lemma_div_is_ordered;
use chrono::{DateTime, Datelike, NaiveDate};

verus! {

/// Nanoseconds in one day.
pub const NANOS_PER_DAY: u64 = 86_400_000_000_000;

/// Seconds in one day.
pub const SECONDS_PER_DAY: i64 = 86_400;

/// The last whole second that a `u64` of nanoseconds reaches.
pub const LAST_SECOND: i64 = 18_446_744_073;

/// The year, month and day that chrono's `DateTime::from_timestamp` gives
/// the instant `secs` seconds after the epoch; `None` where it gives none.
pub uninterp spec fn utc_date_of_seconds(secs: i64) -> Option<(i32, u32, u32)>;

/// The timestamp in nanoseconds that chrono gives a civil date and time of
/// day in UTC; `None` where the date or the time does not exist or the
/// timestamp does not fit.
pub uninterp spec fn utc_nanos_of_civil(
    year: i32,
    month: u32,
    day: u32,
    hour: u32,
    minute: u32,
    second: u32,
) -> Option<i64>;

/// A date as the number `YYYYMMDD`; zero for no date.
pub open spec fn date_key(date: Option<(i32, u32, u32)>) -> int {
    match date {
        Some((year, month, day)) => year * 10000 + month * 100 + day,
        None => 0,
    }
}

/// A date of the years that a `u64` of nanoseconds since the epoch reaches.
pub open spec fn in_calendar(date: Option<(i32, u32, u32)>) -> bool {
    match date {
        Some((year, month, day)) => 1970 <= year <= 2554 && 1 <= month <= 12 && 1 <= day <= 31,
        None => false,
    }
}

/// What is taken from chrono about the date `date` of an instant `secs`
/// between the epoch and [`LAST_SECOND`]: every instant in that span has a
/// date of the years 1970 to 2554, and of two such instants a day or more
/// apart the later one has the later date.
pub open spec fn calendar_order(secs: i64, date: Option<(i32, u32, u32)>) -> bool {
    forall|other: i64|
        0 <= other <= LAST_SECOND ==> {
            &&& in_calendar(#[trigger] utc_date_of_seconds(other))
            &&& (other + SECONDS_PER_DAY <= secs ==> date_key(utc_date_of_seconds(other))
                < date_key(date))
            &&& (secs + SECONDS_PER_DAY <= other ==> date_key(date) < date_key(
                utc_date_of_seconds(other),
            ))
        }
}

/// Calls `DateTime::from_timestamp` with no sub-second part and reads the
/// year, month and day of what it returns. The contract names the result and
/// claims [`calendar_order`] of it, for instants from the epoch to
/// [`LAST_SECOND`].
#[verifier::external_body]
fn date_of_seconds(secs: i64) -> (res: Option<(i32, u32, u32)>)
    requires
        0 <= secs <= LAST_SECOND,
    ensures
        res == utc_date_of_seconds(secs),
        calendar_order(secs, res),
{
    DateTime::from_timestamp(secs, 0).map(|t| (t.year(), t.month(), t.day()))
}

/// Calls `NaiveDate::from_ymd_opt`, `NaiveDate::and_hms_opt` and
/// `DateTime::timestamp_nanos_opt` in turn. The contract names the result.
#[verifier::external_body]
pub(crate) fn nanos_of_civil(year: i32, month: u32, day: u32, hour: u32, minute: u32, second: u32) -> (res:
    Option<i64>)
    ensures
        res == utc_nanos_of_civil(year, month, day, hour, minute, second),
{
    let date = NaiveDate::from_ymd_opt(year, month, day)?;
    let time = date.and_hms_opt(hour, minute, second)?;
    time.and_utc().timestamp_nanos_opt()
}

/// Days from the epoch to the UTC day that holds `ts`.
pub open spec fn day_number(ts: u64) -> int {
    ts as int / NANOS_PER_DAY as int
}

/// The day key `YYYYMMDD` of the UTC calendar day that holds `ts`.
pub open spec fn day_key_of(ts: u64) -> u32 {
    date_key(utc_date_of_seconds((day_number(ts) * SECONDS_PER_DAY) as i64)) as u32
}

/// `key` is the day key of `ts`, and the keys of other timestamps lie before
/// or after it as their days do.
pub open spec fn on_day(ts: u64, key: u32) -> bool {
    &&& key == day_key_of(ts)
    &&& forall|other: u64|
        day_number(other) < day_number(ts) ==> #[trigger] day_key_of(other) < key
    &&& forall|other: u64|
        day_number(ts) < day_number(other) ==> key < #[trigger] day_key_of(other)
}

/// The day key `YYYYMMDD` of the UTC calendar day that holds `ts`.
pub fn ts_to_date(ts: u64) -> (key: u32)
    ensures
        on_day(ts, key),
{
    let day: u64 = ts / NANOS_PER_DAY;
    let secs: i64 = (day * 86_400) as i64;
    match date_of_seconds(secs) {
        Some((year, month, dom)) => {
            assert(in_calendar(utc_date_of_seconds(secs)));
            let key: u32 = (year as u32) * 10000 + month * 100 + dom;
            proof {
                assert forall|other: u64| day_number(other) < day_number(ts) implies #[trigger] day_key_of(
                    other,
                ) < key by {
                    let s = (day_number(other) * SECONDS_PER_DAY) as i64;
                    assert(in_calendar(utc_date_of_seconds(s)));
                }
                assert forall|other: u64| day_number(ts) < day_number(other) implies key
                    < #[trigger] day_key_of(other) by {
                    let s = (day_number(other) * SECONDS_PER_DAY) as i64;
                    assert(in_calendar(utc_date_of_seconds(s)));
                }
            }
            key
        },
        None => {
            // Every instant of the span has a date, so there is no such case.
            assert(in_calendar(utc_date_of_seconds(secs)));
            0
        },
    }
}

/// The timestamp of a civil date and time of day in UTC, in nanoseconds
/// since the epoch. `None` where the date or time does not exist, or lies
/// before the epoch or past what 63 bits of nanoseconds hold.
pub fn civil_to_ts(year: i32, month: u32, day: u32, hour: u32, minute: u32, second: u32) -> (ts:
    Option<u64>)
    ensures
        ts == ts_of_nanos(utc_nanos_of_civil(year, month, day, hour, minute, second)),
{
    epoch_ts(nanos_of_civil(year, month, day, hour, minute, second))
}

/// A timestamp read as unsigned: `None` for none and for one before the epoch.
pub open spec fn ts_of_nanos(nanos: Option<i64>) -> Option<u64> {
    match nanos {
        Some(n) => if n >= 0 {
            Some(n as u64)
        } else {
            None
        },
        None => None,
    }
}

/// A timestamp read as unsigned: `None` for none and for one before the epoch.
pub fn epoch_ts(nanos: Option<i64>) -> (ts: Option<u64>)
    ensures
        ts == ts_of_nanos(nanos),
{
    match nanos {
        Some(n) => if n >= 0 {
            Some(n as u64)
        } else {
            None
        },
        None => None,
    }
}

/// Timestamps of one day share a key; of two timestamps on different days
/// the later has the larger key. So a key names one day, and keys are
/// ordered as time is.
pub proof fn lemma_day_keys_ordered(a: u64, ka: u32, b: u64, kb: u32)
    requires
        on_day(a, ka),
        on_day(b, kb),
    ensures
        day_number(a) == day_number(b) <==> ka == kb,
        day_number(a) < day_number(b) <==> ka < kb,
        a <= b ==> ka <= kb,
        ka < kb ==> a < b,
{
    if a <= b {
        lemma_div_is_ordered(a as int, b as int, NANOS_PER_DAY as int);
    }
    if b <= a {
        lemma_div_is_ordered(b as int, a as int, NANOS_PER_DAY as int);
    }
}

/// A stored bar's day bounds the day keys of any range that holds its
/// timestamp: with `start <= ts <= end`, the key of `ts` lies between the
/// keys of `start` and `end`.
pub proof fn lemma_key_within_range(ts: u64, key: u32, start: u64, end: u64)
    requires
        on_day(ts, key),
        start <= ts <= end,
    ensures
        day_key_of(start) <= key <= day_key_of(end),
{
    lemma_div_is_ordered(start as int, ts as int, NANOS_PER_DAY as int);
    lemma_div_is_ordered(ts as int, end as int, NANOS_PER_DAY as int);
}

} // verus!
