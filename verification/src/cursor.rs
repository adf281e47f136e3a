//! A range query in progress: a snapshot of the blocks of the days asked
//! for, read one day at a time. A block is decompressed when its day is
//! asked for and not before; what is put into the index after the snapshot
//! was taken does not reach the cursor.

use vstd::prelude::*;
use std::sync::Arc;
use crate::block::{BlockError, CompressedBlock};
use crate::range::{bar_in_range, bars_of_day, day_bars, gather};
use crate::stats::CacheHits;
use crate::types::OHLCV;

verus! {

/// The bars that a snapshot still yields from its block number `from` on:
/// day after day, up to the end or to the first corrupt block.
pub open spec fn bars_from(
    blocks: Seq<(u32, CompressedBlock)>,
    from: int,
    start: u64,
    end: u64,
) -> Seq<OHLCV>
    decreases blocks.len() - from,
{
    if from < 0 || from >= blocks.len() {
        Seq::empty()
    } else {
        match blocks[from].1.slots() {
            Some(slots) => bars_of_day(slots, start, end) + bars_from(blocks, from + 1, start, end),
            None => Seq::empty(),
        }
    }
}

/// Whether a block of the snapshot from number `from` on is corrupt.
pub open spec fn corrupt_from(blocks: Seq<(u32, CompressedBlock)>, from: int) -> bool {
    exists|i: int| from <= i < blocks.len() && (#[trigger] blocks[i]).1.slots() is None
}

/// A snapshot of the index for `symbol_id` and the days `lo` to `hi`: the
/// blocks of exactly those days that have one, each with its day, in
/// ascending order of days.
pub open spec fn snapshot_of(
    snapshot: Seq<(u32, CompressedBlock)>,
    blocks: Map<(u16, u32), CompressedBlock>,
    symbol_id: u16,
    lo: u32,
    hi: u32,
) -> bool {
    &&& forall|i: int, j: int| 0 <= i < j < snapshot.len() ==> snapshot[i].0 < snapshot[j].0
    &&& forall|i: int|
        0 <= i < snapshot.len() ==> {
            &&& lo <= (#[trigger] snapshot[i]).0 <= hi
            &&& blocks.contains_key((symbol_id, snapshot[i].0))
            &&& blocks[(symbol_id, snapshot[i].0)] == snapshot[i].1
        }
    &&& forall|day: u32|
        lo <= day <= hi && #[trigger] blocks.contains_key((symbol_id, day)) ==> exists|i: int|
            0 <= i < snapshot.len() && snapshot[i].0 == day
}

/// Days without a block of their own add nothing to what a query yields.
pub proof fn lemma_gather_skips_absent(
    blocks: Map<(u16, u32), CompressedBlock>,
    symbol_id: u16,
    lo: u32,
    from: int,
    to: int,
    start: u64,
    end: u64,
)
    requires
        lo - 1 <= from <= to <= u32::MAX,
        forall|day: u32| from < day <= to ==> !blocks.contains_key((symbol_id, day)),
    ensures
        gather(blocks, symbol_id, lo, to, start, end) == gather(
            blocks,
            symbol_id,
            lo,
            from,
            start,
            end,
        ),
    decreases to - from,
{
    if from < to {
        lemma_gather_skips_absent(blocks, symbol_id, lo, from, to - 1, start, end);
        assert(!blocks.contains_key((symbol_id, to as u32)));
        assert(gather(blocks, symbol_id, lo, to, start, end) =~= gather(
            blocks,
            symbol_id,
            lo,
            to - 1,
            start,
            end,
        ));
    }
}

/// The day up to which the first `n` blocks of a snapshot cover the range:
/// the day before block `n`, or the last day of the range after the last
/// block.
pub open spec fn covered(snapshot: Seq<(u32, CompressedBlock)>, n: int, hi: u32) -> int {
    if n < snapshot.len() {
        snapshot[n].0 - 1
    } else {
        hi as int
    }
}

/// What a sound snapshot yields from block `n` on is what a query over the
/// index yields from the days that its first `n` blocks do not cover.
proof fn lemma_snapshot_tail(
    snapshot: Seq<(u32, CompressedBlock)>,
    blocks: Map<(u16, u32), CompressedBlock>,
    symbol_id: u16,
    lo: u32,
    hi: u32,
    start: u64,
    end: u64,
    n: int,
)
    requires
        snapshot_of(snapshot, blocks, symbol_id, lo, hi),
        !corrupt_from(snapshot, 0),
        0 <= n <= snapshot.len(),
    ensures
        gather(blocks, symbol_id, lo, covered(snapshot, n, hi), start, end) + bars_from(
            snapshot,
            n,
            start,
            end,
        ) == gather(blocks, symbol_id, lo, hi as int, start, end),
    decreases snapshot.len() - n,
{
    if n == snapshot.len() {
        assert(gather(blocks, symbol_id, lo, hi as int, start, end) + Seq::<OHLCV>::empty()
            =~= gather(blocks, symbol_id, lo, hi as int, start, end));
    } else {
        let day = snapshot[n].0;
        let block = snapshot[n].1;
        assert(block.slots() is Some);
        let today = bars_of_day(block.slots()->0, start, end);
        let next = covered(snapshot, n + 1, hi);
        if n + 1 < snapshot.len() {
            assert(snapshot[n].0 < snapshot[n + 1].0);
        }
        assert forall|d: u32| day < d <= next implies !blocks.contains_key((symbol_id, d)) by {
            if blocks.contains_key((symbol_id, d)) {
                let m = choose|m: int| 0 <= m < snapshot.len() && snapshot[m].0 == d;
                if m < n {
                    assert(snapshot[m].0 < snapshot[n].0);
                } else if m > n + 1 {
                    assert(snapshot[n + 1].0 < snapshot[m].0);
                }
            }
        }
        lemma_gather_skips_absent(blocks, symbol_id, lo, day as int, next, start, end);
        lemma_snapshot_tail(snapshot, blocks, symbol_id, lo, hi, start, end, n + 1);
        assert(day_bars(blocks, symbol_id, day, start, end) == today);
        assert(gather(blocks, symbol_id, lo, day as int, start, end) == gather(
            blocks,
            symbol_id,
            lo,
            day - 1,
            start,
            end,
        ) + today);
        assert((gather(blocks, symbol_id, lo, day - 1, start, end) + today) + bars_from(
            snapshot,
            n + 1,
            start,
            end,
        ) =~= gather(blocks, symbol_id, lo, day - 1, start, end) + (today + bars_from(
            snapshot,
            n + 1,
            start,
            end,
        )));
    }
}

/// What a snapshot without a corrupt block yields is what a query over the
/// index yields; and a snapshot has a corrupt block exactly when the index
/// has one among the days asked for.
pub proof fn lemma_snapshot_yields_range(
    snapshot: Seq<(u32, CompressedBlock)>,
    blocks: Map<(u16, u32), CompressedBlock>,
    symbol_id: u16,
    lo: u32,
    hi: u32,
    start: u64,
    end: u64,
)
    requires
        snapshot_of(snapshot, blocks, symbol_id, lo, hi),
    ensures
        corrupt_from(snapshot, 0) <==> exists|day: u32|
            lo <= day <= hi && #[trigger] blocks.contains_key((symbol_id, day)) && blocks[(
                symbol_id,
                day,
            )].slots() is None,
        !corrupt_from(snapshot, 0) ==> bars_from(snapshot, 0, start, end) == gather(
            blocks,
            symbol_id,
            lo,
            hi as int,
            start,
            end,
        ),
{
    if corrupt_from(snapshot, 0) {
        let i = choose|i: int| 0 <= i < snapshot.len() && (#[trigger] snapshot[i]).1.slots() is None;
        assert(blocks.contains_key((symbol_id, snapshot[i].0)));
    }
    if exists|day: u32|
        lo <= day <= hi && #[trigger] blocks.contains_key((symbol_id, day)) && blocks[(
            symbol_id,
            day,
        )].slots() is None {
        let day = choose|day: u32|
            lo <= day <= hi && #[trigger] blocks.contains_key((symbol_id, day)) && blocks[(
                symbol_id,
                day,
            )].slots() is None;
        let i = choose|i: int| 0 <= i < snapshot.len() && snapshot[i].0 == day;
        assert(snapshot[i].1.slots() is None);
    }
    if !corrupt_from(snapshot, 0) {
        lemma_snapshot_tail(snapshot, blocks, symbol_id, lo, hi, start, end, 0);
        if snapshot.len() > 0 {
            assert(lo <= snapshot[0].0);
        }
        assert forall|d: u32| lo - 1 < d <= covered(snapshot, 0, hi) implies !blocks.contains_key(
            (symbol_id, d),
        ) by {
            if blocks.contains_key((symbol_id, d)) {
                let m = choose|m: int| 0 <= m < snapshot.len() && snapshot[m].0 == d;
                if m > 0 {
                    assert(snapshot[0].0 < snapshot[m].0);
                }
            }
        }
        if lo - 1 <= covered(snapshot, 0, hi) {
            lemma_gather_skips_absent(
                blocks,
                symbol_id,
                lo,
                lo - 1,
                covered(snapshot, 0, hi),
                start,
                end,
            );
        }
        assert(gather(blocks, symbol_id, lo, covered(snapshot, 0, hi), start, end)
            =~= Seq::<OHLCV>::empty());
        assert(Seq::<OHLCV>::empty() + bars_from(snapshot, 0, start, end) =~= bars_from(
            snapshot,
            0,
            start,
            end,
        ));
    }
}

/// The bars of `slots` that a query over `[start, end]` yields.
pub fn bars_in_window(slots: &Vec<OHLCV>, start: u64, end: u64) -> (bars: Vec<OHLCV>)
    ensures
        bars@ == bars_of_day(slots@, start, end),
{
    let ghost pred = |b: OHLCV| bar_in_range(b, start, end);
    let mut bars: Vec<OHLCV> = Vec::new();
    let mut i: usize = 0;
    assert(slots@.take(0).filter(pred) =~= Seq::<OHLCV>::empty()) by {
        reveal(Seq::filter);
    }
    while i < slots.len()
        invariant
            i <= slots.len(),
            pred == (|b: OHLCV| bar_in_range(b, start, end)),
            bars@ == slots@.take(i as int).filter(pred),
        decreases slots.len() - i,
    {
        let bar = slots[i];
        proof {
            assert(slots@.take(i as int + 1) =~= slots@.take(i as int).push(bar));
            slots@.take(i as int).lemma_filter_push(bar, pred);
        }
        if bar.ts != 0 && bar.ts >= start && bar.ts <= end {
            bars.push(bar);
        }
        i = i + 1;
    }
    assert(slots@.take(i as int) =~= slots@);
    bars
}

/// A range query in progress.
pub struct RangeCursor {
    blocks: Vec<(u32, CompressedBlock)>,
    next: usize,
    start: u64,
    end: u64,
    failed: bool,
    hits: Arc<CacheHits>,
}

impl RangeCursor {
    #[verifier::type_invariant]
    spec fn within_snapshot(self) -> bool {
        self.next <= self.blocks@.len()
    }

    /// The blocks that the cursor reads, with their days.
    pub closed spec fn snapshot(self) -> Seq<(u32, CompressedBlock)> {
        self.blocks@
    }

    /// How many blocks the cursor has read.
    pub closed spec fn position(self) -> int {
        self.next as int
    }

    /// The first timestamp that the query takes.
    pub closed spec fn start_ts(self) -> u64 {
        self.start
    }

    /// The last timestamp that the query takes.
    pub closed spec fn end_ts(self) -> u64 {
        self.end
    }

    /// Whether the cursor has met a corrupt block.
    pub closed spec fn failed(self) -> bool {
        self.failed
    }

    /// Whether the cursor yields nothing more: it has read every block, or
    /// has met a corrupt one.
    pub open spec fn finished(self) -> bool {
        self.failed() || self.position() >= self.snapshot().len()
    }

    /// The bars that the cursor still yields.
    pub open spec fn pending(self) -> Seq<OHLCV> {
        if self.failed() {
            Seq::empty()
        } else {
            bars_from(self.snapshot(), self.position(), self.start_ts(), self.end_ts())
        }
    }

    /// A cursor over `blocks` for the timestamps `[start, end]`, before its
    /// first block. Cache hits are counted in `hits`.
    pub fn new(blocks: Vec<(u32, CompressedBlock)>, start: u64, end: u64, hits: Arc<CacheHits>) -> (cursor:
        Self)
        ensures
            cursor.snapshot() == blocks@,
            cursor.position() == 0,
            cursor.start_ts() == start,
            cursor.end_ts() == end,
            !cursor.failed(),
    {
        RangeCursor { blocks, next: 0, start, end, failed: false, hits }
    }

    /// How many blocks are still to be read.
    pub fn blocks_left(&self) -> (left: usize)
        ensures
            left == if self.failed() {
                0
            } else {
                self.snapshot().len() - self.position()
            },
    {
        proof {
            use_type_invariant(self);
        }
        if self.failed {
            0
        } else {
            self.blocks.len() - self.next
        }
    }

    /// The bars of the next day: the next block is decompressed, through its
    /// cache, and its bars within the range are handed out in slot order.
    /// `None` once the cursor is finished. A corrupt block gives an error and
    /// finishes the cursor; no other block is touched.
    pub fn next_day(&mut self) -> (out: Option<Result<Vec<OHLCV>, BlockError>>)
        ensures
            final(self).snapshot() == old(self).snapshot(),
            final(self).start_ts() == old(self).start_ts(),
            final(self).end_ts() == old(self).end_ts(),
            old(self).finished() ==> out is None && final(self).position() == old(self).position()
                && final(self).failed() == old(self).failed(),
            !old(self).finished() ==> match old(self).snapshot()[old(self).position()].1.slots() {
                Some(slots) => {
                    &&& out matches Some(Ok(bars))
                    &&& bars@ == bars_of_day(slots, old(self).start_ts(), old(self).end_ts())
                    &&& final(self).position() == old(self).position() + 1
                    &&& !final(self).failed()
                    &&& old(self).pending() == bars@ + final(self).pending()
                },
                None => {
                    &&& out == Some(Err::<Vec<OHLCV>, BlockError>(BlockError::Corrupt))
                    &&& final(self).position() == old(self).position()
                    &&& final(self).failed()
                    &&& old(self).pending() == Seq::<OHLCV>::empty()
                },
            },
    {
        proof {
            use_type_invariant(&*self);
        }
        if self.failed || self.next >= self.blocks.len() {
            return None;
        }
        let (day, hit) = self.blocks[self.next].1.decompress_cached();
        match day {
            Ok(slots) => {
                if hit {
                    self.hits.count();
                }
                let bars = bars_in_window(&slots, self.start, self.end);
                self.next = self.next + 1;
                Some(Ok(bars))
            },
            Err(e) => {
                self.failed = true;
                Some(Err(e))
            },
        }
    }

    /// All the bars that the cursor still yields, in order. Fails exactly
    /// when a block still to be read is corrupt. The cursor is finished
    /// afterwards.
    pub fn drain(&mut self) -> (out: Result<Vec<OHLCV>, BlockError>)
        ensures
            final(self).finished(),
            final(self).snapshot() == old(self).snapshot(),
            out is Err <==> !old(self).failed() && corrupt_from(
                old(self).snapshot(),
                old(self).position(),
            ),
            out matches Ok(bars) ==> bars@ == old(self).pending(),
            out matches Err(e) ==> e == BlockError::Corrupt,
    {
        let mut bars: Vec<OHLCV> = Vec::new();
        proof {
            use_type_invariant(&*self);
            assert(bars@ + self.pending() =~= self.pending());
        }
        loop
            invariant
                self.snapshot() == old(self).snapshot(),
                self.start_ts() == old(self).start_ts(),
                self.end_ts() == old(self).end_ts(),
                self.failed() == old(self).failed(),
                old(self).position() <= self.position() <= self.snapshot().len(),
                bars@ + self.pending() == old(self).pending(),
                forall|i: int|
                    old(self).position() <= i < self.position() ==> (
                    #[trigger] self.snapshot()[i]).1.slots() is Some,
            decreases self.snapshot().len() - self.position(),
        {
            let ghost before = *self;
            let ghost so_far = bars@;
            match self.next_day() {
                None => {
                    proof {
                        assert(bars@ + Seq::<OHLCV>::empty() =~= bars@);
                        if !old(self).failed() && corrupt_from(
                            old(self).snapshot(),
                            old(self).position(),
                        ) {
                            let i = choose|i: int|
                                old(self).position() <= i < old(self).snapshot().len() && (
                                #[trigger] old(self).snapshot()[i]).1.slots() is None;
                            assert(self.snapshot()[i].1.slots() is Some);
                        }
                    }
                    return Ok(bars);
                },
                Some(Ok(mut day)) => {
                    bars.append(&mut day);
                    proof {
                        use_type_invariant(&*self);
                        assert(bars@ + self.pending() =~= so_far + before.pending());
                    }
                },
                Some(Err(e)) => {
                    proof {
                        assert(before.snapshot()[before.position()].1.slots() is None);
                    }
                    return Err(e);
                },
            }
        }
    }
}

} // verus!
