//! What the query facade decides before and after it asks the store: which
//! time window a request means, and which of the bars found it hands out.

use vstd::prelude::*;
use chrono::{DateTime, Datelike, NaiveDate, NaiveDateTime};
use crate::calendar::{nanos_of_civil, utc_nanos_of_civil, NANOS_PER_DAY};
use crate::types::OHLCV;

verus! {

/// Nanoseconds in one hour.
pub const NANOS_PER_HOUR: u64 = 3_600_000_000_000;

/// The list of symbols, as the facade answers it.
pub struct SymbolsResponse {
    pub symbols: Vec<String>,
}

/// The parameters of a history request, as they came.
pub struct HistoryQuery {
    pub start: Option<String>,
    pub end: Option<String>,
    pub limit: Option<usize>,
}

/// Why the facade answers a request with an error.
#[derive(Copy, Clone, Debug, PartialEq, Eq, Structural)]
pub enum ApiError {
    /// A date of the request could not be read.
    BadRequest,
    /// There is nothing to answer with.
    NotFound,
}

impl ApiError {
    /// The HTTP status that stands for the error.
    pub fn status(&self) -> (code: u16)
        ensures
            code == match *self {
                ApiError::BadRequest => 400u16,
                ApiError::NotFound => 404u16,
            },
    {
        match self {
            ApiError::BadRequest => 400,
            ApiError::NotFound => 404,
        }
    }
}

/// The timestamp in nanoseconds that chrono reads out of `text` as an
/// RFC 3339 date and time; `None` where it reads none or the timestamp does
/// not fit 64 bits.
pub uninterp spec fn rfc3339_nanos(text: Seq<char>) -> Option<i64>;

/// The timestamp in nanoseconds of the date and time, taken as UTC, that
/// chrono reads out of `text` by the format `format`; `None` as for
/// [`rfc3339_nanos`].
pub uninterp spec fn datetime_text_nanos(text: Seq<char>, format: Seq<char>) -> Option<i64>;

/// The year, month and day of the date that chrono reads out of `text` by
/// the format `format`; `None` where it reads none.
pub uninterp spec fn date_in_text(text: Seq<char>, format: Seq<char>) -> Option<(i32, u32, u32)>;

/// Calls `DateTime::parse_from_rfc3339` and `DateTime::timestamp_nanos_opt`.
/// The contract names the result.
#[verifier::external_body]
fn read_rfc3339(text: &str) -> (nanos: Option<i64>)
    ensures
        nanos == rfc3339_nanos(text@),
{
    let parsed = DateTime::parse_from_rfc3339(text).ok()?;
    parsed.timestamp_nanos_opt()
}

/// Calls `NaiveDateTime::parse_from_str` and, on what it read taken as UTC,
/// `DateTime::timestamp_nanos_opt`. The contract names the result.
#[verifier::external_body]
fn read_datetime_text(text: &str, format: &str) -> (nanos: Option<i64>)
    ensures
        nanos == datetime_text_nanos(text@, format@),
{
    let parsed = NaiveDateTime::parse_from_str(text, format).ok()?;
    parsed.and_utc().timestamp_nanos_opt()
}

/// Calls `NaiveDate::parse_from_str` and reads the year, month and day of
/// what it returns. The contract names the result.
#[verifier::external_body]
fn read_date_text(text: &str, format: &str) -> (date: Option<(i32, u32, u32)>)
    ensures
        date == date_in_text(text@, format@),
{
    NaiveDate::parse_from_str(text, format).ok().map(|d| (d.year(), d.month(), d.day()))
}

/// The format of a date and time without a zone.
pub open spec fn datetime_format() -> Seq<char> {
    "%Y-%m-%d %H:%M:%S"@
}

/// The format of a date alone.
pub open spec fn date_format() -> Seq<char> {
    "%Y-%m-%d"@
}

/// The timestamp of midnight UTC of a date.
pub open spec fn midnight_nanos(date: Option<(i32, u32, u32)>) -> Option<i64> {
    match date {
        Some((year, month, day)) => utc_nanos_of_civil(year, month, day, 0, 0, 0),
        None => None,
    }
}

/// A timestamp as the store counts time: an instant before the epoch counts
/// as the epoch.
pub open spec fn from_epoch(nanos: i64) -> u64 {
    if nanos < 0 {
        0
    } else {
        nanos as u64
    }
}

/// The first reading that succeeded, in the order RFC 3339, date and time,
/// date alone.
pub open spec fn first_reading(rfc3339: Option<i64>, datetime: Option<i64>, date: Option<i64>) -> Option<
    u64,
> {
    if rfc3339 is Some {
        Some(from_epoch(rfc3339->0))
    } else if datetime is Some {
        Some(from_epoch(datetime->0))
    } else if date is Some {
        Some(from_epoch(date->0))
    } else {
        None
    }
}

/// The timestamp that a date of a request means.
pub open spec fn timestamp_of_text(text: Seq<char>) -> Option<u64> {
    first_reading(
        rfc3339_nanos(text),
        datetime_text_nanos(text, datetime_format()),
        midnight_nanos(date_in_text(text, date_format())),
    )
}

/// Picks among three readings of one text the first that succeeded.
pub fn pick_reading(rfc3339: Option<i64>, datetime: Option<i64>, date: Option<i64>) -> (ts: Option<
    u64,
>)
    ensures
        ts == first_reading(rfc3339, datetime, date),
{
    let nanos = match (rfc3339, datetime, date) {
        (Some(n), _, _) => n,
        (None, Some(n), _) => n,
        (None, None, Some(n)) => n,
        (None, None, None) => {
            return None;
        },
    };
    if nanos < 0 {
        Some(0)
    } else {
        Some(nanos as u64)
    }
}

/// Reads a date of a request: RFC 3339, or `YYYY-MM-DD HH:MM:SS`, or
/// `YYYY-MM-DD` for midnight, the last two in UTC.
pub fn parse_datetime(text: &str) -> (ts: Option<u64>)
    ensures
        ts == timestamp_of_text(text@),
{
    let midnight = match read_date_text(text, "%Y-%m-%d") {
        Some((year, month, day)) => nanos_of_civil(year, month, day, 0, 0, 0),
        None => None,
    };
    pick_reading(read_rfc3339(text), read_datetime_text(text, "%Y-%m-%d %H:%M:%S"), midnight)
}

/// The window of a history request: it ends at `end`, or now where no end
/// is given, and starts at `start`, or a day before its end where no start
/// is given, and at the epoch where that would lie before it.
pub open spec fn window_of(start: Option<u64>, end: Option<u64>, now: u64) -> (u64, u64) {
    let end_ts = if end is Some {
        end->0
    } else {
        now
    };
    let start_ts = if start is Some {
        start->0
    } else if end_ts >= NANOS_PER_DAY {
        (end_ts - NANOS_PER_DAY) as u64
    } else {
        0
    };
    (start_ts, end_ts)
}

/// The window of a history request from its bounds where they were given.
pub fn history_window(start: Option<u64>, end: Option<u64>, now: u64) -> (window: (u64, u64))
    ensures
        window == window_of(start, end, now),
{
    let end_ts = match end {
        Some(ts) => ts,
        None => now,
    };
    let start_ts = match start {
        Some(ts) => ts,
        None => if end_ts >= NANOS_PER_DAY {
            end_ts - NANOS_PER_DAY
        } else {
            0
        },
    };
    (start_ts, end_ts)
}

/// What a bound of a request means: nothing where none was given, its
/// timestamp where it can be read, and a fault where it cannot.
pub open spec fn bound_of(text: Option<String>) -> Result<Option<u64>, ApiError> {
    match text {
        None => Ok(None),
        Some(t) => match timestamp_of_text(t@) {
            Some(ts) => Ok(Some(ts)),
            None => Err(ApiError::BadRequest),
        },
    }
}

/// The window that a history request means, or the fault in it.
pub open spec fn request_window(query: HistoryQuery, now: u64) -> Result<(u64, u64), ApiError> {
    match (bound_of(query.end), bound_of(query.start)) {
        (Ok(end), Ok(start)) => Ok(window_of(start, end, now)),
        _ => Err(ApiError::BadRequest),
    }
}

/// Reads a bound of a request.
fn read_bound(text: &Option<String>) -> (bound: Result<Option<u64>, ApiError>)
    ensures
        bound == bound_of(*text),
{
    match text {
        None => Ok(None),
        Some(t) => match parse_datetime(t.as_str()) {
            Some(ts) => Ok(Some(ts)),
            None => Err(ApiError::BadRequest),
        },
    }
}

/// The window that a history request means at the time `now`. A bound that
/// cannot be read makes the request a bad one.
pub fn resolve_history(query: &HistoryQuery, now: u64) -> (window: Result<(u64, u64), ApiError>)
    ensures
        window == request_window(*query, now),
{
    let end = match read_bound(&query.end) {
        Ok(end) => end,
        Err(e) => {
            return Err(e);
        },
    };
    let start = match read_bound(&query.start) {
        Ok(start) => start,
        Err(e) => {
            return Err(e);
        },
    };
    Ok(history_window(start, end, now))
}

/// The window in which the newest bar is looked for: the hour up to `now`.
pub fn price_window(now: u64) -> (window: (u64, u64))
    ensures
        window.1 == now,
        window.0 == if now >= NANOS_PER_HOUR {
            (now - NANOS_PER_HOUR) as u64
        } else {
            0
        },
{
    if now >= NANOS_PER_HOUR {
        (now - NANOS_PER_HOUR, now)
    } else {
        (0, now)
    }
}

/// The last `limit` bars of `bars`, and all of them where no limit is given
/// or there are no more than `limit`.
pub open spec fn limited(bars: Seq<OHLCV>, limit: Option<usize>) -> Seq<OHLCV> {
    match limit {
        Some(n) => if bars.len() > n {
            bars.skip(bars.len() - n)
        } else {
            bars
        },
        None => bars,
    }
}

/// Keeps the last `limit` bars, in their order.
pub fn apply_limit(bars: Vec<OHLCV>, limit: Option<usize>) -> (kept: Vec<OHLCV>)
    ensures
        kept@ == limited(bars@, limit),
{
    let n = match limit {
        Some(n) => n,
        None => {
            return bars;
        },
    };
    if bars.len() <= n {
        return bars;
    }
    let from = bars.len() - n;
    let mut kept: Vec<OHLCV> = Vec::new();
    let mut i: usize = from;
    while i < bars.len()
        invariant
            from <= i <= bars.len(),
            kept@ == bars@.subrange(from as int, i as int),
        decreases bars.len() - i,
    {
        kept.push(bars[i]);
        i = i + 1;
        assert(kept@ =~= bars@.subrange(from as int, i as int));
    }
    assert(kept@ =~= bars@.skip(from as int));
    kept
}

/// The newest of the bars found, or the fault that nothing was found.
pub fn latest_bar(bars: &[OHLCV]) -> (latest: Result<OHLCV, ApiError>)
    ensures
        latest == if bars@.len() == 0 {
            Err::<OHLCV, ApiError>(ApiError::NotFound)
        } else {
            Ok::<OHLCV, ApiError>(bars@.last())
        },
{
    if bars.len() == 0 {
        Err(ApiError::NotFound)
    } else {
        Ok(bars[bars.len() - 1])
    }
}

/// Whole seconds since the epoch, as timestamps go over the wire.
pub fn unix_seconds(ts: u64) -> (seconds: i64)
    ensures
        seconds == ts as int / 1_000_000_000,
{
    (ts / 1_000_000_000) as i64
}

} // verus!
