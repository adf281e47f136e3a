use fx_store::block::{BlockError, CompressedBlock};
use fx_store::cursor::{bars_in_window, RangeCursor};
use fx_store::stats::CacheHits;
use fx_store::store::{FxStore, StoreError};
use fx_store::types::OHLCV;
use std::sync::Arc;

const JAN_15: u64 = 1_705_276_800_000_000_000;
const DAY: u64 = 86_400_000_000_000;
const MINUTE: u64 = 60_000_000_000;

fn bar(day: u64, minute: u64) -> OHLCV {
    OHLCV {
        ts: JAN_15 + day * DAY + minute * MINUTE,
        open: 1,
        high: 1,
        low: 1,
        close: 1,
        volume: (day * 10_000 + minute) as u32,
        symbol_id: 0,
    }
}

fn block(day: u64, minutes: &[u64]) -> (u32, CompressedBlock) {
    let records: Vec<OHLCV> = minutes.iter().map(|m| bar(day, *m)).collect();
    let key = 20240115 + day as u32;
    (key, CompressedBlock::new(key, 0, &records).unwrap())
}

fn volumes(bars: &[OHLCV]) -> Vec<u32> {
    bars.iter().map(|bar| bar.volume).collect()
}

fn three_days() -> FxStore {
    let mut store = FxStore::new();
    let mut lines = vec!["header".to_string()];
    for day in 15..18 {
        lines.push(format!("202401{} 000000,1,1,1,1,{}", day, day));
        lines.push(format!("202401{} 120000,1,1,1,1,{}", day, day + 100));
    }
    for batch in store.ingest_lines(&lines, "EURUSD").unwrap() {
        assert!(store.install_day(&batch));
    }
    store
}

#[test]
fn window_filter_drops_empty_slots_and_bars_outside() {
    let slots = vec![OHLCV::default(), bar(0, 1), bar(0, 2), OHLCV::default(), bar(0, 4)];
    assert_eq!(volumes(&bars_in_window(&slots, 0, u64::MAX)), vec![1, 2, 4]);
    assert_eq!(volumes(&bars_in_window(&slots, bar(0, 2).ts, bar(0, 4).ts)), vec![2, 4]);
    assert_eq!(volumes(&bars_in_window(&slots, bar(0, 2).ts + 1, bar(0, 4).ts - 1)), Vec::<u32>::new());
    assert!(bars_in_window(&vec![OHLCV::default(); 3], 0, u64::MAX).is_empty());
    assert!(bars_in_window(&Vec::new(), 0, u64::MAX).is_empty());
}

#[test]
fn cursor_yields_one_day_at_a_time() {
    let blocks = vec![block(0, &[1, 2]), block(1, &[]), block(2, &[3])];
    let mut cursor = RangeCursor::new(blocks, 0, u64::MAX, Arc::new(CacheHits::new()));
    assert_eq!(cursor.blocks_left(), 3);
    assert_eq!(volumes(&cursor.next_day().unwrap().unwrap()), vec![1, 2]);
    assert_eq!(cursor.blocks_left(), 2);
    assert!(cursor.next_day().unwrap().unwrap().is_empty());
    assert_eq!(volumes(&cursor.next_day().unwrap().unwrap()), vec![20_003]);
    assert_eq!(cursor.blocks_left(), 0);
    assert!(cursor.next_day().is_none());
    assert!(cursor.next_day().is_none());
}

#[test]
fn cursor_decompresses_only_the_blocks_it_reaches() {
    let first = block(0, &[1]);
    let second = block(1, &[2]);
    let untouched = second.1.share();
    let stats = Arc::new(CacheHits::new());
    let mut cursor = RangeCursor::new(vec![first, second], 0, u64::MAX, Arc::clone(&stats));
    cursor.next_day().unwrap().unwrap();
    let (_, hit) = untouched.decompress_cached();
    assert!(!hit);
    assert_eq!(stats.read(), 0);
    cursor.next_day().unwrap().unwrap();
    assert_eq!(stats.read(), 1);
}

#[test]
fn cursor_stops_at_a_corrupt_block() {
    let corrupt = (20240116, CompressedBlock::from_payload(20240116, 0, vec![0, 1, 2]));
    let blocks = vec![block(0, &[1]), corrupt, block(2, &[3])];
    let mut cursor = RangeCursor::new(blocks, 0, u64::MAX, Arc::new(CacheHits::new()));
    assert_eq!(volumes(&cursor.next_day().unwrap().unwrap()), vec![1]);
    assert_eq!(cursor.next_day(), Some(Err(BlockError::Corrupt)));
    assert_eq!(cursor.blocks_left(), 0);
    assert_eq!(cursor.next_day(), None);
    assert_eq!(cursor.drain(), Ok(Vec::new()));
}

#[test]
fn drain_gathers_the_rest_or_fails() {
    let blocks = vec![block(0, &[1]), block(1, &[2]), block(2, &[3])];
    let mut cursor = RangeCursor::new(blocks, 0, u64::MAX, Arc::new(CacheHits::new()));
    cursor.next_day();
    assert_eq!(volumes(&cursor.drain().unwrap()), vec![10_002, 20_003]);
    assert_eq!(cursor.blocks_left(), 0);
    assert_eq!(cursor.drain(), Ok(Vec::new()));

    let corrupt = (20240117, CompressedBlock::from_payload(20240117, 0, Vec::new()));
    let blocks = vec![block(0, &[1]), block(1, &[2]), corrupt];
    let mut cursor = RangeCursor::new(blocks, 0, u64::MAX, Arc::new(CacheHits::new()));
    assert_eq!(cursor.drain(), Err(BlockError::Corrupt));
    assert_eq!(cursor.blocks_left(), 0);

    let mut empty = RangeCursor::new(Vec::new(), 0, u64::MAX, Arc::new(CacheHits::new()));
    assert_eq!(empty.drain(), Ok(Vec::new()));
    assert_eq!(empty.next_day(), None);
}

#[test]
fn open_range_yields_what_query_range_returns() {
    let store = three_days();
    let start = JAN_15 + 12 * 60 * MINUTE;
    let end = JAN_15 + 2 * DAY;
    let all = store.query_range("EURUSD", start, end).unwrap();
    assert_eq!(volumes(&all), vec![115, 16, 116, 17]);
    let mut cursor = store.open_range("EURUSD", start, end).unwrap();
    assert_eq!(cursor.blocks_left(), 3);
    let mut seen = Vec::new();
    while let Some(day) = cursor.next_day() {
        seen.extend(day.unwrap());
    }
    assert_eq!(seen, all);
}

#[test]
fn open_cursor_does_not_see_later_installs() {
    let mut store = three_days();
    let mut cursor = store.open_range("EURUSD", JAN_15, JAN_15 + 3 * DAY).unwrap();
    assert_eq!(volumes(&cursor.next_day().unwrap().unwrap()), vec![15, 115]);
    let lines = vec![
        "header".to_string(),
        "20240116 060000,1,1,1,1,999".to_string(),
        "20240118 000000,1,1,1,1,18".to_string(),
    ];
    for batch in store.ingest_lines(&lines, "EURUSD").unwrap() {
        assert!(store.install_day(&batch));
    }
    assert_eq!(volumes(&cursor.drain().unwrap()), vec![16, 116, 17, 117]);
    let fresh = store.query_range("EURUSD", JAN_15, JAN_15 + 3 * DAY).unwrap();
    assert_eq!(volumes(&fresh), vec![15, 115, 999, 17, 117, 18]);
}

#[test]
fn open_range_of_unknown_symbol_or_stopped_store() {
    let mut store = three_days();
    let mut cursor = store.open_range("XAUUSD", 0, u64::MAX).unwrap();
    assert_eq!(cursor.blocks_left(), 0);
    assert_eq!(cursor.next_day(), None);
    store.close_feed();
    assert!(store.open_range("EURUSD", 0, u64::MAX).is_ok());
    store.stop();
    assert_eq!(store.open_range("EURUSD", 0, u64::MAX).err(), Some(StoreError::Stopped));
}

#[test]
fn interleaved_ingest_and_queries_stay_ordered() {
    let mut store = FxStore::new();
    let mut total = 0;
    for day in 1..=30u32 {
        let mut lines = vec!["header".to_string()];
        for minute in 0..48u32 {
            lines.push(format!("202403{:02} {:02}{:02}00,1.5,1.6,1.4,1.55,{}", day, minute / 2, (minute % 2) * 30, day));
        }
        for batch in store.ingest_lines(&lines, "EURUSD").unwrap() {
            assert!(store.install_day(&batch));
        }
        total += 48;
        for window in 0..8u64 {
            let start = 1_709_251_200_000_000_000 + window * 3 * DAY;
            let end = start + (window + 1) * DAY + 17 * MINUTE;
            let bars = store.query_range("EURUSD", start, end).unwrap();
            for pair in bars.windows(2) {
                assert!(pair[0].ts < pair[1].ts);
            }
            for bar in &bars {
                assert!(bar.ts >= start && bar.ts <= end);
            }
        }
        let all = store.query_range("EURUSD", 0, u64::MAX).unwrap();
        assert_eq!(all.len(), total);
    }
}
