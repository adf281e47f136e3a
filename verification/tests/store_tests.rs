use fx_store::calendar::ts_to_date;
use fx_store::store::{DayBatch, FxStore, Lifecycle, StoreError};
use fx_store::types::OHLCV;

const JAN_15: u64 = 1_705_276_800_000_000_000;
const JAN_16: u64 = 1_705_363_200_000_000_000;
const MINUTE: u64 = 60_000_000_000;

fn feed(lines: &[&str]) -> Vec<String> {
    lines.iter().map(|line| line.to_string()).collect()
}

fn ingest(store: &mut FxStore, lines: &[&str], symbol: &str) -> usize {
    let batches = store.ingest_lines(&feed(lines), symbol).unwrap();
    for batch in &batches {
        assert!(store.install_day(batch));
    }
    batches.len()
}

#[test]
fn round_trip_single_bar() {
    let mut store = FxStore::new();
    let days = ingest(
        &mut store,
        &["DateTime,Open,High,Low,Close,Volume", "20240115 093000,1.10500,1.10600,1.10400,1.10550,42"],
        "EURUSD",
    );
    assert_eq!(days, 1);
    let id = store.resolve("EURUSD").unwrap();
    let bars = store.query_range("EURUSD", JAN_15, JAN_16).unwrap();
    assert_eq!(bars.len(), 1);
    assert_eq!(
        bars[0],
        OHLCV {
            ts: 1_705_311_000_000_000_000,
            open: 110_500,
            high: 110_600,
            low: 110_400,
            close: 110_550,
            volume: 42,
            symbol_id: id,
        }
    );
}

#[test]
fn day_boundary_takes_bars_from_two_blocks() {
    let mut store = FxStore::new();
    let days = ingest(
        &mut store,
        &[
            "header",
            "20240115 235900,1.1,1.2,1.0,1.15,1",
            "20240116 000000,1.2,1.3,1.1,1.25,2",
        ],
        "EURUSD",
    );
    assert_eq!(days, 2);
    let bars = store.query_range("EURUSD", JAN_16 - MINUTE, JAN_16).unwrap();
    assert_eq!(bars.len(), 2);
    assert_eq!(bars[0].ts, JAN_16 - MINUTE);
    assert_eq!(bars[0].volume, 1);
    assert_eq!(bars[1].ts, JAN_16);
    assert_eq!(bars[1].volume, 2);
}

#[test]
fn duplicate_minute_keeps_the_last_line() {
    let mut store = FxStore::new();
    ingest(
        &mut store,
        &[
            "header",
            "20240115 093000,100.0,100.0,100.0,100.0,1",
            "20240115 093000,101.0,101.0,101.0,101.0,2",
        ],
        "EURUSD",
    );
    let at = 1_705_311_000_000_000_000;
    let bars = store.query_range("EURUSD", at, at).unwrap();
    assert_eq!(bars.len(), 1);
    assert_eq!(bars[0].close, 10_100_000);
    assert_eq!(bars[0].volume, 2);
}

#[test]
fn unknown_symbol_has_no_bars() {
    let store = FxStore::new();
    assert_eq!(store.resolve("XAUUSD"), None);
    let bars = store.query_range("XAUUSD", 0, u64::MAX).unwrap();
    assert!(bars.is_empty());
}

#[test]
fn query_yields_ascending_bars_without_empty_slots() {
    let mut store = FxStore::new();
    ingest(
        &mut store,
        &[
            "header",
            "20240116 000100;1.3;1.3;1.3;1.3;4",
            "20240115 120000;1.1;1.1;1.1;1.1;2",
            "20240115 093000;1.0;1.0;1.0;1.0;1",
            "20240116 000000;1.2;1.2;1.2;1.2;3",
        ],
        "EURUSD",
    );
    let bars = store.query_range("EURUSD", 0, u64::MAX).unwrap();
    let volumes: Vec<u32> = bars.iter().map(|bar| bar.volume).collect();
    assert_eq!(volumes, vec![1, 2, 3, 4]);
    for pair in bars.windows(2) {
        assert!(pair[0].ts < pair[1].ts);
    }
    for bar in &bars {
        assert_ne!(bar.ts, 0);
    }
}

#[test]
fn query_range_is_inclusive_at_both_ends() {
    let mut store = FxStore::new();
    ingest(
        &mut store,
        &[
            "header",
            "20240115 093000,1.0,1.0,1.0,1.0,1",
            "20240115 093100,1.0,1.0,1.0,1.0,2",
            "20240115 093200,1.0,1.0,1.0,1.0,3",
        ],
        "EURUSD",
    );
    let first = 1_705_311_000_000_000_000;
    let bars = store.query_range("EURUSD", first, first + 2 * MINUTE).unwrap();
    assert_eq!(bars.len(), 3);
    let bars = store.query_range("EURUSD", first + 1, first + 2 * MINUTE - 1).unwrap();
    assert_eq!(bars.len(), 1);
    assert_eq!(bars[0].volume, 2);
    let bars = store.query_range("EURUSD", first + 2 * MINUTE, first).unwrap();
    assert!(bars.is_empty());
}

#[test]
fn header_line_is_skipped_and_bad_lines_are_dropped() {
    let mut store = FxStore::new();
    let batches = store
        .ingest_lines(
            &feed(&[
                "20240115 093000,9.0,9.0,9.0,9.0,9",
                "not a line",
                "20240115 093100,1.0,1.0,1.0,abc,2",
                "20240115 093200,1.0,1.0,1.0,1.0,x",
                "20241315 093300,1.0,1.0,1.0,1.0,4",
                "20240115 093400,1.0,1.0",
            ]),
            "EURUSD",
        )
        .unwrap();
    assert_eq!(batches.len(), 2);
    assert_eq!(batches[0].day(), 20240115);
    assert_eq!(batches[0].records().len(), 1);
    assert_eq!(batches[0].records()[0].volume, 0);
    assert_eq!(batches[0].records()[0].ts, 1_705_311_120_000_000_000);
    assert_eq!(batches[1].day(), 20241315);
    assert!(batches[1].records().is_empty());
}

#[test]
fn reingesting_a_day_replaces_its_block() {
    let mut store = FxStore::new();
    ingest(&mut store, &["header", "20240115 093000,1.0,1.0,1.0,1.0,1"], "EURUSD");
    ingest(&mut store, &["header", "20240115 100000,2.0,2.0,2.0,2.0,2"], "EURUSD");
    let bars = store.query_range("EURUSD", JAN_15, JAN_16).unwrap();
    assert_eq!(bars.len(), 1);
    assert_eq!(bars[0].volume, 2);
}

#[test]
fn symbols_do_not_see_each_other() {
    let mut store = FxStore::new();
    ingest(&mut store, &["header", "20240115 093000,1.0,1.0,1.0,1.0,1"], "EURUSD");
    ingest(&mut store, &["header", "20240115 093000,2.0,2.0,2.0,2.0,2"], "GBPUSD");
    let eur = store.query_range("EURUSD", JAN_15, JAN_16).unwrap();
    let gbp = store.query_range("GBPUSD", JAN_15, JAN_16).unwrap();
    assert_eq!(eur.len(), 1);
    assert_eq!(gbp.len(), 1);
    assert_eq!(eur[0].open, 100_000);
    assert_eq!(gbp[0].open, 200_000);
    assert_eq!(eur[0].symbol_id, store.resolve("EURUSD").unwrap());
    assert_eq!(gbp[0].symbol_id, store.resolve("GBPUSD").unwrap());
}

#[test]
fn interning_is_stable_and_counts_from_zero() {
    let mut store = FxStore::new();
    assert!(store.can_intern("EURUSD"));
    let a = store.get_or_create_symbol("EURUSD");
    let b = store.get_or_create_symbol("GBP/USD");
    let again = store.get_or_create_symbol("EURUSD");
    assert_eq!(a, 0);
    assert_eq!(b, 1);
    assert_eq!(again, a);
    assert_eq!(store.resolve("GBP/USD"), Some(1));
    let mut names = store.get_symbols();
    names.sort();
    assert_eq!(names, vec!["EURUSD".to_string(), "GBP/USD".to_string()]);
}

#[test]
fn lifecycle_moves_one_way() {
    let mut store = FxStore::new();
    assert_eq!(store.state(), Lifecycle::Running);
    ingest(&mut store, &["header", "20240115 093000,1.0,1.0,1.0,1.0,1"], "EURUSD");
    store.close_feed();
    assert_eq!(store.state(), Lifecycle::Draining);
    assert_eq!(
        store.ingest_lines(&feed(&["header"]), "EURUSD").err(),
        Some(StoreError::QueueClosed)
    );
    assert_eq!(store.query_range("EURUSD", JAN_15, JAN_16).unwrap().len(), 1);
    store.stop();
    assert_eq!(store.state(), Lifecycle::Stopped);
    assert_eq!(store.query_range("EURUSD", JAN_15, JAN_16).err(), Some(StoreError::Stopped));
    assert_eq!(
        store.ingest_lines(&feed(&["header"]), "EURUSD").err(),
        Some(StoreError::QueueClosed)
    );
    store.close_feed();
    assert_eq!(store.state(), Lifecycle::Stopped);
}

#[test]
fn batch_refuses_a_bar_of_another_day_or_symbol() {
    let bar = OHLCV { ts: JAN_15 + MINUTE, open: 1, high: 1, low: 1, close: 1, volume: 1, symbol_id: 3 };
    assert!(DayBatch::new(20240115, 3, vec![bar]).is_some());
    assert!(DayBatch::new(20240116, 3, vec![bar]).is_none());
    assert!(DayBatch::new(20240115, 4, vec![bar]).is_none());
    assert!(DayBatch::new(20240115, 3, Vec::new()).is_some());
}

#[test]
fn stats_count_records_bytes_and_cache_hits() {
    let mut store = FxStore::new();
    ingest(
        &mut store,
        &["header", "20240115 093000,1.0,1.0,1.0,1.0,1", "20240115 093100,1.0,1.0,1.0,1.0,1"],
        "EURUSD",
    );
    let before = store.stats();
    assert_eq!(before.total_records, 2);
    assert!(before.compressed_bytes > 0);
    assert_eq!(before.cache_hits, 0);
    store.query_range("EURUSD", JAN_15, JAN_16).unwrap();
    assert_eq!(store.stats().cache_hits, 0);
    store.query_range("EURUSD", JAN_15, JAN_16).unwrap();
    assert_eq!(store.stats().cache_hits, 1);
}

#[test]
fn a_full_registry_refuses_a_new_symbol() {
    let mut store = FxStore::new();
    for i in 0..65536u32 {
        let name = format!("S{}", i);
        assert!(store.can_intern(&name));
        assert_eq!(store.get_or_create_symbol(&name) as u32, i);
    }
    assert!(!store.can_intern("NEW"));
    assert!(store.can_intern("S7"));
    let lines = feed(&["header", "20240115 093000,1,1,1,1,1"]);
    assert_eq!(store.ingest_lines(&lines, "NEW").err(), Some(StoreError::TooManySymbols));
    assert_eq!(store.resolve("NEW"), None);
    let batches = store.ingest_lines(&lines, "S7").unwrap();
    assert_eq!(batches.len(), 1);
    assert_eq!(batches[0].symbol_id(), 7);
}

#[test]
fn totals_add_up_over_blocks() {
    let mut store = FxStore::new();
    assert_eq!(store.stats().total_records, 0);
    assert_eq!(store.stats().compressed_bytes, 0);
    let lines = feed(&["header", "20240115 093000,1,1,1,1,1", "20240115 093000,2,2,2,2,2", "20240116 000000,1,1,1,1,1"]);
    let batches = store.ingest_lines(&lines, "EURUSD").unwrap();
    assert_eq!(store.stats().total_records, 0);
    assert!(store.install_day(&batches[0]));
    let first = store.stats();
    assert_eq!(first.total_records, 2);
    assert!(store.install_day(&batches[1]));
    let second = store.stats();
    assert_eq!(second.total_records, 3);
    assert!(second.compressed_bytes > first.compressed_bytes);
    assert!(first.compressed_bytes > 0);
}

#[test]
fn every_record_of_a_batch_lies_on_the_day_of_the_batch() {
    let mut store = FxStore::new();
    let lines = feed(&[
        "header",
        "20240115 000000,1,1,1,1,1",
        "20240229 235900,1,1,1,1,2",
        "20240115 235959,1,1,1,1,3",
        "20231231 120000,1,1,1,1,4",
        "20240229 000000,1,1,1,1,5",
    ]);
    let batches = store.ingest_lines(&lines, "EURUSD").unwrap();
    let days: Vec<u32> = batches.iter().map(|batch| batch.day()).collect();
    assert_eq!(days, vec![20240115, 20240229, 20231231]);
    let volumes: Vec<Vec<u32>> = batches
        .iter()
        .map(|batch| batch.records().iter().map(|bar| bar.volume).collect())
        .collect();
    assert_eq!(volumes, vec![vec![1, 3], vec![2, 5], vec![4]]);
    for batch in &batches {
        assert_eq!(batch.symbol_id(), 0);
        for bar in batch.records() {
            assert_eq!(ts_to_date(bar.ts), batch.day());
            assert_eq!(bar.symbol_id, batch.symbol_id());
        }
    }
}
