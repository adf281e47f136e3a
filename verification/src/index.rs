//! The block index: for every symbol a map from day key to day block.

use vstd::prelude::*;
use std::sync::Arc;
use ahash::RandomState;
use dashmap::DashMap;
use crate::block::{BlockError, CompressedBlock};
use crate::cursor::{lemma_snapshot_yields_range, snapshot_of, RangeCursor};
use crate::range::gather;
use crate::stats::CacheHits;
use crate::types::OHLCV;

verus! {

/// What a `DashMap` of day blocks holds: its entries by day key.
pub uninterp spec fn day_map(m: DashMap<u32, CompressedBlock, RandomState>) -> Map<
    u32,
    CompressedBlock,
>;

/// A shard without blocks.
pub open spec fn no_days() -> Map<u32, CompressedBlock> {
    Map::empty()
}

/// Calls `DashMap::with_hasher` with a hasher of `RandomState::new`: a map
/// without entries.
#[verifier::external_body]
fn shard_new() -> (shard: DashMap<u32, CompressedBlock, RandomState>)
    ensures
        day_map(shard) == no_days(),
{
    DashMap::with_hasher(RandomState::new())
}

/// Calls `DashMap::insert`: afterwards the map holds `block` under `day` and
/// is otherwise as before.
#[verifier::external_body]
fn shard_insert(shard: &mut DashMap<u32, CompressedBlock, RandomState>, day: u32, block: CompressedBlock)
    ensures
        day_map(*final(shard)) == day_map(*old(shard)).insert(day, block),
{
    shard.insert(day, block);
}

/// Calls `DashMap::get` and shares the block found: the block stored under
/// `day`, or `None` where the map has no such key.
#[verifier::external_body]
fn shard_get(shard: &DashMap<u32, CompressedBlock, RandomState>, day: u32) -> (block: Option<
    CompressedBlock,
>)
    ensures
        block is Some <==> day_map(*shard).contains_key(day),
        block matches Some(found) ==> found == day_map(*shard)[day],
{
    shard.get(&day).map(|entry| entry.value().share())
}

/// Calls `DashMap::iter` and copies every key out: each key of the map once,
/// in no stated order.
#[verifier::external_body]
fn shard_days(shard: &DashMap<u32, CompressedBlock, RandomState>) -> (days: Vec<u32>)
    ensures
        forall|i: int| 0 <= i < days@.len() ==> day_map(*shard).contains_key(#[trigger] days@[i]),
        forall|i: int, j: int| 0 <= i < j < days@.len() ==> days@[i] != days@[j],
        forall|day: u32| #[trigger] day_map(*shard).contains_key(day) ==> days@.contains(day),
{
    shard.iter().map(|entry| *entry.key()).collect()
}

/// Ascending without repeats.
pub open spec fn strictly_ascending(days: Seq<u32>) -> bool {
    forall|i: int, j: int| 0 <= i < j < days.len() ==> days[i] < days[j]
}

/// Puts `day` into the ascending `days`, keeping them ascending.
fn insert_ascending(days: &mut Vec<u32>, day: u32)
    requires
        strictly_ascending(old(days)@),
        !old(days)@.contains(day),
    ensures
        strictly_ascending(final(days)@),
        final(days)@.len() == old(days)@.len() + 1,
        forall|d: u32| final(days)@.contains(d) <==> (d == day || old(days)@.contains(d)),
{
    let mut at: usize = 0;
    while at < days.len() && days[at] < day
        invariant
            at <= days.len(),
            days@ == old(days)@,
            forall|k: int| 0 <= k < at ==> days@[k] < day,
        decreases days.len() - at,
    {
        at = at + 1;
    }
    let ghost before = days@;
    days.insert(at, day);
    proof {
        assert forall|i: int, j: int| 0 <= i < j < days@.len() implies days@[i] < days@[j] by {
            if j == at {
                assert(days@[i] == before[i]);
            } else if i == at {
                assert(days@[j] == before[j - 1]);
                assert(before.contains(before[at as int]));
            } else {
                let bi = if i < at { i } else { i - 1 };
                let bj = if j < at { j } else { j - 1 };
                assert(days@[i] == before[bi]);
                assert(days@[j] == before[bj]);
            }
        }
        assert forall|d: u32| days@.contains(d) <==> (d == day || before.contains(d)) by {
            if days@.contains(d) {
                let k = choose|k: int| 0 <= k < days@.len() && days@[k] == d;
                if k < at {
                    assert(before[k] == d);
                } else if k > at {
                    assert(before[k - 1] == d);
                }
            }
            if d == day {
                assert(days@[at as int] == d);
            }
            if before.contains(d) {
                let k = choose|k: int| 0 <= k < before.len() && before[k] == d;
                if k < at {
                    assert(days@[k] == d);
                } else {
                    assert(days@[k + 1] == d);
                }
            }
        }
    }
}

/// The two-level index. The outer level has one shard for every symbol
/// handle in use; a shard maps day keys to blocks.
pub struct BlockIndex {
    shards: Vec<DashMap<u32, CompressedBlock, RandomState>>,
}

impl BlockIndex {
    /// The blocks of the index by symbol and day.
    pub closed spec fn blocks(self) -> Map<(u16, u32), CompressedBlock> {
        Map::new(
            |key: (u16, u32)|
                key.0 < self.shards@.len() && day_map(self.shards@[key.0 as int]).contains_key(key.1),
            |key: (u16, u32)| day_map(self.shards@[key.0 as int])[key.1],
        )
    }

    /// Whether the index holds a block of `symbol_id` for `day`.
    pub open spec fn has(self, symbol_id: u16, day: u32) -> bool {
        self.blocks().contains_key((symbol_id, day))
    }

    /// The block of `symbol_id` for `day`.
    pub open spec fn block(self, symbol_id: u16, day: u32) -> CompressedBlock {
        self.blocks()[(symbol_id, day)]
    }

    /// An index without blocks.
    pub fn new() -> (index: Self)
        ensures
            index.blocks() == Map::<(u16, u32), CompressedBlock>::empty(),
    {
        let index = BlockIndex { shards: Vec::new() };
        assert(index.blocks() =~= Map::<(u16, u32), CompressedBlock>::empty());
        index
    }

    /// Puts `block` under `(symbol_id, day)`, in place of any block there.
    pub fn install(&mut self, symbol_id: u16, day: u32, block: CompressedBlock)
        ensures
            final(self).blocks() == old(self).blocks().insert((symbol_id, day), block),
    {
        while self.shards.len() <= symbol_id as usize
            invariant
                self.blocks() == old(self).blocks(),
            decreases symbol_id as usize + 1 - self.shards.len(),
        {
            let ghost before = *self;
            self.shards.push(shard_new());
            assert(self.blocks() =~= before.blocks());
        }
        let ghost before = *self;
        shard_insert(&mut self.shards[symbol_id as usize], day, block);
        proof {
            assert(self.blocks() =~= before.blocks().insert((symbol_id, day), block));
        }
    }

    /// The block of `symbol_id` for `day`, if there is one.
    pub fn lookup(&self, symbol_id: u16, day: u32) -> (found: Option<CompressedBlock>)
        ensures
            found is Some <==> self.has(symbol_id, day),
            found matches Some(block) ==> block == self.block(symbol_id, day),
    {
        if (symbol_id as usize) < self.shards.len() {
            shard_get(&self.shards[symbol_id as usize], day)
        } else {
            None
        }
    }

    /// Whether a block of `symbol_id` for a day from `lo` to `hi` is corrupt.
    pub open spec fn has_corrupt(self, symbol_id: u16, lo: u32, hi: u32) -> bool {
        exists|day: u32|
            lo <= day <= hi && #[trigger] self.blocks().contains_key((symbol_id, day))
                && self.blocks()[(symbol_id, day)].slots() is None
    }

    /// A snapshot of the blocks of `symbol_id` for the days `start_day` to
    /// `end_day`, both included: each block with its day, in ascending order
    /// of days. The blocks are shared with the index, not copied; a block
    /// installed later is not in the snapshot.
    pub fn range(&self, symbol_id: u16, start_day: u32, end_day: u32) -> (snapshot: Vec<
        (u32, CompressedBlock),
    >)
        ensures
            snapshot_of(snapshot@, self.blocks(), symbol_id, start_day, end_day),
    {
        let days = self.days_in_range(symbol_id, start_day, end_day);
        let mut snapshot: Vec<(u32, CompressedBlock)> = Vec::new();
        let mut i: usize = 0;
        while i < days.len()
            invariant
                i <= days.len(),
                snapshot@.len() == i,
                strictly_ascending(days@),
                forall|day: u32|
                    days@.contains(day) <==> (start_day <= day <= end_day && self.has(
                        symbol_id,
                        day,
                    )),
                forall|k: int|
                    0 <= k < i ==> (#[trigger] snapshot@[k]).0 == days@[k] && snapshot@[k].1
                        == self.block(symbol_id, days@[k]),
            decreases days.len() - i,
        {
            let day = days[i];
            assert(days@.contains(day));
            // A day of `days` has a block, so the lookup finds one.
            if let Some(block) = self.lookup(symbol_id, day) {
                snapshot.push((day, block));
            }
            i = i + 1;
        }
        proof {
            assert forall|k: int| 0 <= k < snapshot@.len() implies {
                &&& start_day <= (#[trigger] snapshot@[k]).0 <= end_day
                &&& self.blocks().contains_key((symbol_id, snapshot@[k].0))
                &&& self.blocks()[(symbol_id, snapshot@[k].0)] == snapshot@[k].1
            } by {
                assert(days@.contains(days@[k]));
            }
            assert forall|day: u32|
                start_day <= day <= end_day && #[trigger] self.blocks().contains_key(
                    (symbol_id, day),
                ) implies exists|k: int| 0 <= k < snapshot@.len() && snapshot@[k].0 == day by {
                assert(days@.contains(day));
                let k = choose|k: int| 0 <= k < days@.len() && days@[k] == day;
                assert(snapshot@[k].0 == day);
            }
        }
        snapshot
    }

    /// The bars of `symbol_id` with a timestamp in `[start, end]`, not
    /// counting empty slots, from the blocks of the days `start_day` to
    /// `end_day`: day after day in ascending order, each day in slot order.
    /// Fails exactly when one of those blocks is corrupt. Every block is
    /// decompressed through its cache, and hits are counted in `hits`.
    pub fn collect_range(
        &self,
        symbol_id: u16,
        start_day: u32,
        end_day: u32,
        start: u64,
        end: u64,
        hits: Arc<CacheHits>,
    ) -> (found: Result<Vec<OHLCV>, BlockError>)
        ensures
            found is Err <==> self.has_corrupt(symbol_id, start_day, end_day),
            found matches Ok(bars) ==> bars@ == gather(
                self.blocks(),
                symbol_id,
                start_day,
                end_day as int,
                start,
                end,
            ),
            found matches Err(e) ==> e == BlockError::Corrupt,
    {
        let snapshot = self.range(symbol_id, start_day, end_day);
        proof {
            lemma_snapshot_yields_range(
                snapshot@,
                self.blocks(),
                symbol_id,
                start_day,
                end_day,
                start,
                end,
            );
        }
        let mut cursor = RangeCursor::new(snapshot, start, end, hits);
        cursor.drain()
    }

    /// The day keys from `start_day` to `end_day`, both included, for which
    /// the index holds a block of `symbol_id`, in ascending order.
    pub fn days_in_range(&self, symbol_id: u16, start_day: u32, end_day: u32) -> (days: Vec<u32>)
        ensures
            strictly_ascending(days@),
            forall|day: u32|
                days@.contains(day) <==> (start_day <= day <= end_day && self.has(symbol_id, day)),
    {
        let mut days: Vec<u32> = Vec::new();
        if (symbol_id as usize) >= self.shards.len() {
            return days;
        }
        let all = shard_days(&self.shards[symbol_id as usize]);
        let mut i: usize = 0;
        while i < all.len()
            invariant
                i <= all.len(),
                symbol_id < self.shards@.len(),
                strictly_ascending(days@),
                forall|k: int, j: int| 0 <= k < j < all@.len() ==> all@[k] != all@[j],
                forall|day: u32|
                    days@.contains(day) <==> (start_day <= day <= end_day && exists|k: int|
                        0 <= k < i && all@[k] == day),
            decreases all.len() - i,
        {
            let day = all[i];
            let ghost before = days@;
            if start_day <= day && day <= end_day {
                insert_ascending(&mut days, day);
            }
            i = i + 1;
            proof {
                assert forall|d: u32|
                    days@.contains(d) <==> (start_day <= d <= end_day && exists|k: int|
                        0 <= k < i && all@[k] == d) by {
                    if start_day <= d <= end_day && exists|k: int| 0 <= k < i && all@[k] == d {
                        let k = choose|k: int| 0 <= k < i && all@[k] == d;
                        if k < i - 1 {
                            assert(before.contains(d));
                        }
                    }
                    if before.contains(d) {
                        let k = choose|k: int| 0 <= k < i - 1 && all@[k] == d;
                        assert(0 <= k < i && all@[k] == d);
                    }
                    if d == day {
                        assert(all@[i - 1] == d);
                    }
                }
            }
        }
        proof {
            assert forall|day: u32|
                days@.contains(day) <==> (start_day <= day <= end_day && self.has(
                    symbol_id,
                    day,
                )) by {
                if self.has(symbol_id, day) {
                    assert(day_map(self.shards@[symbol_id as int]).contains_key(day));
                    assert(all@.contains(day));
                }
            }
        }
        days
    }
}

} // verus!
