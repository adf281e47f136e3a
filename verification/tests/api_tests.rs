use fx_store::api::{
    apply_limit, history_window, latest_bar, parse_datetime, pick_reading, price_window,
    resolve_history, unix_seconds, ApiError, HistoryQuery, SymbolsResponse,
};
use fx_store::store::FxStore;
use fx_store::types::OHLCV;

const JAN_15: u64 = 1_705_276_800_000_000_000;
const DAY: u64 = 86_400_000_000_000;
const HOUR: u64 = 3_600_000_000_000;
const MINUTE: u64 = 60_000_000_000;

fn bars(n: u64) -> Vec<OHLCV> {
    (0..n)
        .map(|i| OHLCV {
            ts: JAN_15 + i * MINUTE,
            open: 1,
            high: 1,
            low: 1,
            close: 1,
            volume: i as u32,
            symbol_id: 0,
        })
        .collect()
}

#[test]
fn dates_are_read_in_three_forms() {
    assert_eq!(parse_datetime("2024-01-15T09:30:00Z"), Some(1_705_311_000_000_000_000));
    assert_eq!(parse_datetime("2024-01-15T10:30:00+01:00"), Some(1_705_311_000_000_000_000));
    assert_eq!(parse_datetime("2024-01-15 09:30:00"), Some(1_705_311_000_000_000_000));
    assert_eq!(parse_datetime("2024-01-15"), Some(JAN_15));
    assert_eq!(parse_datetime("1970-01-01"), Some(0));
}

#[test]
fn dates_before_the_epoch_count_as_the_epoch() {
    assert_eq!(parse_datetime("1969-12-31"), Some(0));
    assert_eq!(parse_datetime("1969-12-31T23:59:59Z"), Some(0));
    assert_eq!(parse_datetime("1900-01-01 00:00:00"), Some(0));
}

#[test]
fn unreadable_dates_are_none() {
    assert_eq!(parse_datetime(""), None);
    assert_eq!(parse_datetime("yesterday"), None);
    assert_eq!(parse_datetime("20240115"), None);
    assert_eq!(parse_datetime("2024-02-30"), None);
    assert_eq!(parse_datetime("2024-01-15 25:00:00"), None);
    assert_eq!(parse_datetime("3000-01-01"), None);
}

#[test]
fn the_first_reading_wins() {
    assert_eq!(pick_reading(Some(1), Some(2), Some(3)), Some(1));
    assert_eq!(pick_reading(None, Some(2), Some(3)), Some(2));
    assert_eq!(pick_reading(None, None, Some(3)), Some(3));
    assert_eq!(pick_reading(None, None, None), None);
    assert_eq!(pick_reading(Some(-1), Some(2), Some(3)), Some(0));
    assert_eq!(pick_reading(None, Some(i64::MIN), None), Some(0));
    assert_eq!(pick_reading(None, None, Some(i64::MAX)), Some(i64::MAX as u64));
}

#[test]
fn window_defaults_to_the_day_before_now() {
    let now = JAN_15 + 5 * HOUR;
    assert_eq!(history_window(None, None, now), (now - DAY, now));
    assert_eq!(history_window(None, Some(JAN_15), now), (JAN_15 - DAY, JAN_15));
    assert_eq!(history_window(Some(7), None, now), (7, now));
    assert_eq!(history_window(Some(7), Some(9), now), (7, 9));
    assert_eq!(history_window(Some(9), Some(7), now), (9, 7));
    assert_eq!(history_window(None, Some(DAY - 1), now), (0, DAY - 1));
    assert_eq!(history_window(None, Some(DAY), now), (0, DAY));
    assert_eq!(history_window(None, None, 0), (0, 0));
}

#[test]
fn history_request_reads_its_bounds() {
    let now = JAN_15 + DAY;
    let query = HistoryQuery {
        start: Some("2024-01-15".to_string()),
        end: Some("2024-01-15 12:00:00".to_string()),
        limit: Some(5),
    };
    assert_eq!(resolve_history(&query, now), Ok((JAN_15, JAN_15 + 12 * HOUR)));
    let open = HistoryQuery { start: None, end: None, limit: None };
    assert_eq!(resolve_history(&open, now), Ok((JAN_15, now)));
    let only_end = HistoryQuery { start: None, end: Some("2024-01-15T00:00:00Z".to_string()), limit: None };
    assert_eq!(resolve_history(&only_end, now), Ok((JAN_15 - DAY, JAN_15)));
}

#[test]
fn history_request_with_an_unreadable_bound_is_bad() {
    let now = JAN_15;
    let bad_start = HistoryQuery { start: Some("soon".to_string()), end: None, limit: None };
    assert_eq!(resolve_history(&bad_start, now), Err(ApiError::BadRequest));
    let bad_end = HistoryQuery { start: Some("2024-01-15".to_string()), end: Some("".to_string()), limit: None };
    assert_eq!(resolve_history(&bad_end, now), Err(ApiError::BadRequest));
}

#[test]
fn limit_keeps_the_last_bars() {
    let all = bars(10);
    assert_eq!(apply_limit(all.clone(), None), all);
    assert_eq!(apply_limit(all.clone(), Some(10)), all);
    assert_eq!(apply_limit(all.clone(), Some(11)), all);
    assert_eq!(apply_limit(all.clone(), Some(3)), all[7..].to_vec());
    assert_eq!(apply_limit(all.clone(), Some(1)), all[9..].to_vec());
    assert!(apply_limit(all.clone(), Some(0)).is_empty());
    assert!(apply_limit(Vec::new(), Some(3)).is_empty());
}

#[test]
fn limit_of_a_long_history_is_its_tail() {
    let mut store = FxStore::new();
    let mut lines = vec!["header".to_string()];
    for i in 0..2000u32 {
        let day = 15 + i / 1440;
        let minute = i % 1440;
        lines.push(format!("202401{:02} {:02}{:02}00,1.0,1.0,1.0,1.0,{}", day, minute / 60, minute % 60, i));
    }
    let batches = store.ingest_lines(&lines, "EURUSD").unwrap();
    assert_eq!(batches.len(), 2);
    for batch in &batches {
        assert!(store.install_day(batch));
    }
    let all = store.query_range("EURUSD", JAN_15, JAN_15 + 2 * DAY).unwrap();
    assert_eq!(all.len(), 2000);
    let tail = apply_limit(all, Some(100));
    assert_eq!(tail.len(), 100);
    for (k, bar) in tail.iter().enumerate() {
        assert_eq!(bar.volume, 1900 + k as u32);
        assert_eq!(bar.ts, JAN_15 + (1900 + k as u64) * MINUTE);
    }
}

#[test]
fn latest_bar_is_the_last_or_not_found() {
    let all = bars(3);
    assert_eq!(latest_bar(&all), Ok(all[2]));
    assert_eq!(latest_bar(&all[..1]), Ok(all[0]));
    assert_eq!(latest_bar(&[]), Err(ApiError::NotFound));
}

#[test]
fn unknown_symbol_has_no_latest_bar() {
    let store = FxStore::new();
    let (start, end) = price_window(JAN_15);
    let found = store.query_range("XAUUSD", start, end).unwrap();
    assert_eq!(latest_bar(&found).err().map(|e| e.status()), Some(404));
}

#[test]
fn price_window_is_the_last_hour() {
    assert_eq!(price_window(JAN_15), (JAN_15 - HOUR, JAN_15));
    assert_eq!(price_window(HOUR), (0, HOUR));
    assert_eq!(price_window(HOUR - 1), (0, HOUR - 1));
    assert_eq!(price_window(0), (0, 0));
    assert_eq!(price_window(u64::MAX), (u64::MAX - HOUR, u64::MAX));
}

#[test]
fn wire_timestamps_are_whole_seconds() {
    assert_eq!(unix_seconds(0), 0);
    assert_eq!(unix_seconds(999_999_999), 0);
    assert_eq!(unix_seconds(1_705_311_000_000_000_000), 1_705_311_000);
    assert_eq!(unix_seconds(u64::MAX), 18_446_744_073);
}

#[test]
fn errors_have_their_status() {
    assert_eq!(ApiError::BadRequest.status(), 400);
    assert_eq!(ApiError::NotFound.status(), 404);
}

#[test]
fn symbols_response_carries_the_names() {
    let mut store = FxStore::new();
    store.get_or_create_symbol("EURUSD");
    let response = SymbolsResponse { symbols: store.get_symbols() };
    assert_eq!(response.symbols, vec!["EURUSD".to_string()]);
}
