use fx_store::stats::{CacheHits, StatsSnapshot, StoreStats};

#[test]
fn totals_start_at_zero_and_grow() {
    let mut stats = StoreStats::new();
    assert_eq!(stats.snapshot(), StatsSnapshot { total_records: 0, compressed_bytes: 0, cache_hits: 0 });
    stats.count_block(3, 100);
    stats.count_block(0, 0);
    stats.count_block(5, 20);
    assert_eq!(stats.snapshot(), StatsSnapshot { total_records: 8, compressed_bytes: 120, cache_hits: 0 });
}

#[test]
fn totals_stay_at_the_largest_number() {
    let mut stats = StoreStats::new();
    stats.count_block(u64::MAX - 1, u64::MAX);
    stats.count_block(1, 0);
    assert_eq!(stats.snapshot().total_records, u64::MAX);
    assert_eq!(stats.snapshot().compressed_bytes, u64::MAX);
    stats.count_block(7, 7);
    assert_eq!(stats.snapshot().total_records, u64::MAX);
    assert_eq!(stats.snapshot().compressed_bytes, u64::MAX);
}

#[test]
fn cache_hits_are_shared() {
    let stats = StoreStats::new();
    let hits = stats.cache_hits();
    hits.count();
    stats.cache_hits().count();
    assert_eq!(hits.read(), 2);
    assert_eq!(stats.snapshot().cache_hits, 2);
    let other = CacheHits::new();
    assert_eq!(other.read(), 0);
    other.count();
    assert_eq!(other.read(), 1);
    assert_eq!(stats.snapshot().cache_hits, 2);
}
