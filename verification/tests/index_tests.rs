use fx_store::block::{BlockError, CompressedBlock};
use fx_store::index::BlockIndex;
use fx_store::stats::CacheHits;
use std::sync::Arc;
use fx_store::types::OHLCV;

const JAN_15: u64 = 1_705_276_800_000_000_000;
const DAY: u64 = 86_400_000_000_000;
const MINUTE: u64 = 60_000_000_000;

fn block(day: u32, offset_days: u64, minutes: &[u64]) -> CompressedBlock {
    let records: Vec<OHLCV> = minutes
        .iter()
        .map(|m| OHLCV {
            ts: JAN_15 + offset_days * DAY + m * MINUTE,
            open: 1,
            high: 1,
            low: 1,
            close: 1,
            volume: *m as u32,
            symbol_id: 0,
        })
        .collect();
    CompressedBlock::new(day, 0, &records).unwrap()
}

#[test]
fn lookup_finds_what_was_installed() {
    let mut index = BlockIndex::new();
    assert!(index.lookup(0, 20240115).is_none());
    index.install(0, 20240115, block(20240115, 0, &[1]));
    index.install(5, 20240116, block(20240116, 1, &[2]));
    assert_eq!(index.lookup(0, 20240115).unwrap().date(), 20240115);
    assert_eq!(index.lookup(5, 20240116).unwrap().date(), 20240116);
    assert!(index.lookup(0, 20240116).is_none());
    assert!(index.lookup(5, 20240115).is_none());
    assert!(index.lookup(3, 20240115).is_none());
    assert!(index.lookup(6, 20240116).is_none());
    assert!(index.lookup(u16::MAX, 20240116).is_none());
}

#[test]
fn install_replaces_the_whole_block() {
    let mut index = BlockIndex::new();
    index.install(0, 20240115, block(20240115, 0, &[1, 2, 3]));
    let old = index.lookup(0, 20240115).unwrap();
    index.install(0, 20240115, block(20240115, 0, &[4]));
    let new = index.lookup(0, 20240115).unwrap();
    let new_day = new.decompress().unwrap();
    assert_eq!(new_day.iter().filter(|bar| bar.ts != 0).count(), 1);
    assert_eq!(new_day[4].volume, 4);
    let old_day = old.decompress().unwrap();
    assert_eq!(old_day.iter().filter(|bar| bar.ts != 0).count(), 3);
}

#[test]
fn days_come_in_ascending_order() {
    let mut index = BlockIndex::new();
    for (day, offset) in [(20240118u32, 3u64), (20240115, 0), (20240117, 2), (20240116, 1), (20240201, 17)] {
        index.install(2, day, block(day, offset, &[0]));
    }
    index.install(1, 20240116, block(20240116, 1, &[0]));
    assert_eq!(
        index.days_in_range(2, 0, u32::MAX),
        vec![20240115, 20240116, 20240117, 20240118, 20240201]
    );
    assert_eq!(index.days_in_range(2, 20240116, 20240117), vec![20240116, 20240117]);
    assert_eq!(index.days_in_range(2, 20240119, 20240131), Vec::<u32>::new());
    assert_eq!(index.days_in_range(2, 20240117, 20240116), Vec::<u32>::new());
    assert_eq!(index.days_in_range(1, 0, u32::MAX), vec![20240116]);
    assert_eq!(index.days_in_range(0, 0, u32::MAX), Vec::<u32>::new());
    assert_eq!(index.days_in_range(9, 0, u32::MAX), Vec::<u32>::new());
}

#[test]
fn collect_range_concatenates_days_and_filters_by_time() {
    let mut index = BlockIndex::new();
    index.install(0, 20240116, block(20240116, 1, &[0, 1]));
    index.install(0, 20240115, block(20240115, 0, &[1438, 1439]));
    let stats = Arc::new(CacheHits::new());
    let all = index.collect_range(0, 20240115, 20240116, 0, u64::MAX, Arc::clone(&stats)).unwrap();
    let volumes: Vec<u32> = all.iter().map(|bar| bar.volume).collect();
    assert_eq!(volumes, vec![1438, 1439, 0, 1]);
    let some = index
        .collect_range(0, 20240115, 20240116, JAN_15 + 1439 * MINUTE, JAN_15 + DAY, Arc::clone(&stats))
        .unwrap();
    let volumes: Vec<u32> = some.iter().map(|bar| bar.volume).collect();
    assert_eq!(volumes, vec![1439, 0]);
    let one_day = index.collect_range(0, 20240116, 20240116, 0, u64::MAX, Arc::clone(&stats)).unwrap();
    assert_eq!(one_day.len(), 2);
    let none = index.collect_range(0, 20240117, 20240120, 0, u64::MAX, Arc::clone(&stats)).unwrap();
    assert!(none.is_empty());
    let other = index.collect_range(1, 20240115, 20240116, 0, u64::MAX, Arc::clone(&stats)).unwrap();
    assert!(other.is_empty());
    assert_eq!(stats.read(), 3);
}

#[test]
fn collect_range_fails_on_a_corrupt_block_in_range_only() {
    let mut index = BlockIndex::new();
    index.install(0, 20240115, block(20240115, 0, &[1]));
    index.install(0, 20240116, CompressedBlock::from_payload(20240116, 0, vec![9, 9, 9]));
    index.install(0, 20240117, block(20240117, 2, &[1]));
    let stats = Arc::new(CacheHits::new());
    assert_eq!(
        index.collect_range(0, 20240115, 20240117, 0, u64::MAX, Arc::clone(&stats)),
        Err(BlockError::Corrupt)
    );
    assert_eq!(
        index.collect_range(0, 20240116, 20240116, 0, u64::MAX, Arc::clone(&stats)),
        Err(BlockError::Corrupt)
    );
    assert_eq!(index.collect_range(0, 20240115, 20240115, 0, u64::MAX, Arc::clone(&stats)).unwrap().len(), 1);
    assert_eq!(index.collect_range(0, 20240117, 20240117, 0, u64::MAX, Arc::clone(&stats)).unwrap().len(), 1);
}

#[test]
fn range_is_a_snapshot_in_day_order() {
    let mut index = BlockIndex::new();
    index.install(0, 20240117, block(20240117, 2, &[5]));
    index.install(0, 20240115, block(20240115, 0, &[3]));
    index.install(0, 20240116, block(20240116, 1, &[4]));
    let snapshot = index.range(0, 20240115, 20240116);
    let days: Vec<u32> = snapshot.iter().map(|(day, _)| *day).collect();
    assert_eq!(days, vec![20240115, 20240116]);
    assert_eq!(snapshot[0].1.date(), 20240115);
    index.install(0, 20240115, block(20240115, 0, &[7, 8]));
    let old = snapshot[0].1.decompress().unwrap();
    assert_eq!(old.iter().filter(|bar| bar.ts != 0).count(), 1);
    assert_eq!(old[3].volume, 3);
    assert!(index.range(1, 0, u32::MAX).is_empty());
    assert!(index.range(0, 20240118, u32::MAX).is_empty());
}
