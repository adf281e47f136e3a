//! Counters of what the store has done. They are for display: nothing in
//! the store reads them to decide anything.

use vstd::prelude::*;
use std::sync::atomic::AtomicU64;
use std::sync::atomic::Ordering;
use std::sync::Arc;
use crate::block::share_handle;

verus! {

/// The count of hits on the caches of decompressed blocks. Queries raise it
/// while they only read the store, so it is an atomic counter, and a reader
/// may see it mid-update.
pub struct CacheHits {
    hits: AtomicU64,
}

impl CacheHits {
    /// A counter at zero.
    pub fn new() -> Self {
        CacheHits { hits: AtomicU64::new(0) }
    }

    /// Counts one more hit.
    pub fn count(&self) {
        self.hits.fetch_add(1, Ordering::Relaxed);
    }

    /// The hits counted so far.
    pub fn read(&self) -> u64 {
        self.hits.load(Ordering::Relaxed)
    }
}

/// One reading of the counters.
#[derive(Copy, Clone, Debug, PartialEq, Eq, Structural)]
pub struct StatsSnapshot {
    pub total_records: u64,
    pub compressed_bytes: u64,
    pub cache_hits: u64,
}

/// The sum of two counts, and `u64::MAX` where that does not fit.
pub open spec fn capped_sum(a: u64, b: u64) -> u64 {
    if a + b > u64::MAX {
        u64::MAX
    } else {
        (a + b) as u64
    }
}

/// Running totals of records compressed into blocks, of compressed bytes
/// produced, and of cache hits. The totals only grow, and stay at the
/// largest number once they reach it.
pub struct StoreStats {
    total_records: u64,
    compressed_bytes: u64,
    cache_hits: Arc<CacheHits>,
}

impl StoreStats {
    /// The records counted.
    pub closed spec fn records(self) -> u64 {
        self.total_records
    }

    /// The compressed bytes counted.
    pub closed spec fn bytes(self) -> u64 {
        self.compressed_bytes
    }

    /// The counter of cache hits that these statistics read.
    pub closed spec fn counter(self) -> Arc<CacheHits> {
        self.cache_hits
    }

    /// Counters at zero.
    pub fn new() -> (stats: Self)
        ensures
            stats.records() == 0,
            stats.bytes() == 0,
    {
        StoreStats { total_records: 0, compressed_bytes: 0, cache_hits: Arc::new(CacheHits::new()) }
    }

    /// Counts a block of `records` records and `bytes` compressed bytes.
    pub fn count_block(&mut self, records: u64, bytes: u64)
        ensures
            final(self).records() == capped_sum(old(self).records(), records),
            final(self).bytes() == capped_sum(old(self).bytes(), bytes),
            final(self).records() >= old(self).records(),
            final(self).bytes() >= old(self).bytes(),
    {
        self.total_records = if u64::MAX - self.total_records < records {
            u64::MAX
        } else {
            self.total_records + records
        };
        self.compressed_bytes = if u64::MAX - self.compressed_bytes < bytes {
            u64::MAX
        } else {
            self.compressed_bytes + bytes
        };
    }

    /// The counter of cache hits, to be shared with those who raise it:
    /// another handle to the very counter that [`StoreStats::snapshot`] reads.
    pub fn cache_hits(&self) -> (hits: Arc<CacheHits>)
        ensures
            hits == self.counter(),
    {
        share_handle(&self.cache_hits)
    }

    /// Reads the counters.
    pub fn snapshot(&self) -> (snapshot: StatsSnapshot)
        ensures
            snapshot.total_records == self.records(),
            snapshot.compressed_bytes == self.bytes(),
    {
        StatsSnapshot {
            total_records: self.total_records,
            compressed_bytes: self.compressed_bytes,
            cache_hits: self.cache_hits.read(),
        }
    }
}

} // verus!
