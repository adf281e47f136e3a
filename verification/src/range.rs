//! What a range query yields, as a function of the index, and what holds
//! of it: no empty slot, ascending time, every stored bar of the range.

use vstd::prelude::*;
use vstd::arithmetic::div_mod::lemma_div_denominator;
use crate::block::{
    day_slots, lemma_day_slots_len, lemma_last_writer_wins, minute_index, CompressedBlock,
};
use crate::calendar::{day_key_of, day_number, lemma_day_keys_ordered, lemma_key_within_range, on_day};
use crate::codec::BLOCK_SIZE;
use crate::types::OHLCV;

verus! {

/// A bar that a query over `[start, end]` yields: not an empty slot, and its
/// timestamp within the range, both ends included.
pub open spec fn bar_in_range(bar: OHLCV, start: u64, end: u64) -> bool {
    bar.ts != 0 && start <= bar.ts <= end
}

/// The bars of one day that a query over `[start, end]` yields, in slot order.
pub open spec fn bars_of_day(slots: Seq<OHLCV>, start: u64, end: u64) -> Seq<OHLCV> {
    slots.filter(|b: OHLCV| bar_in_range(b, start, end))
}

/// A day whose every bar stands in the slot of its minute, lies on the day
/// `day` and belongs to `symbol_id`.
pub open spec fn day_in_order(slots: Seq<OHLCV>, symbol_id: u16, day: u32) -> bool {
    &&& slots.len() == BLOCK_SIZE as nat
    &&& forall|i: int|
        0 <= i < slots.len() && (#[trigger] slots[i]).ts != 0 ==> {
            &&& minute_index(slots[i].ts) == i
            &&& on_day(slots[i].ts, day)
            &&& slots[i].symbol_id == symbol_id
        }
}

/// A block that decompresses, is labelled `(symbol_id, day)` and holds a day
/// in order.
pub open spec fn block_holds_day(block: CompressedBlock, symbol_id: u16, day: u32) -> bool {
    &&& block.date_spec() == day
    &&& block.symbol_spec() == symbol_id
    &&& block.slots() is Some
    &&& day_in_order(block.slots()->0, symbol_id, day)
}

/// An index whose every block holds the day it is stored under.
pub open spec fn index_in_order(blocks: Map<(u16, u32), CompressedBlock>) -> bool {
    forall|symbol_id: u16, day: u32| #[trigger]
        blocks.contains_key((symbol_id, day)) ==> block_holds_day(
            blocks[(symbol_id, day)],
            symbol_id,
            day,
        )
}

/// `bar` stands in slot `slot` of the block of `symbol_id` for `day`.
pub open spec fn stored_at(
    blocks: Map<(u16, u32), CompressedBlock>,
    symbol_id: u16,
    day: u32,
    slot: int,
    bar: OHLCV,
) -> bool {
    &&& blocks.contains_key((symbol_id, day))
    &&& blocks[(symbol_id, day)].slots() is Some
    &&& 0 <= slot < blocks[(symbol_id, day)].slots()->0.len()
    &&& blocks[(symbol_id, day)].slots()->0[slot] == bar
    &&& bar.ts != 0
}

/// What a query over `[start, end]` yields from the block of `symbol_id` for
/// `day`: nothing where there is no such block.
pub open spec fn day_bars(
    blocks: Map<(u16, u32), CompressedBlock>,
    symbol_id: u16,
    day: u32,
    start: u64,
    end: u64,
) -> Seq<OHLCV> {
    if blocks.contains_key((symbol_id, day)) && blocks[(symbol_id, day)].slots() is Some {
        bars_of_day(blocks[(symbol_id, day)].slots()->0, start, end)
    } else {
        Seq::empty()
    }
}

/// What a query over `[start, end]` yields from the days `lo` to `hi`, both
/// included: day after day in ascending order.
pub open spec fn gather(
    blocks: Map<(u16, u32), CompressedBlock>,
    symbol_id: u16,
    lo: u32,
    hi: int,
    start: u64,
    end: u64,
) -> Seq<OHLCV>
    decreases hi - lo + 1,
{
    if hi < lo || hi > u32::MAX {
        Seq::empty()
    } else {
        gather(blocks, symbol_id, lo, hi - 1, start, end) + day_bars(
            blocks,
            symbol_id,
            hi as u32,
            start,
            end,
        )
    }
}

/// What a query over `[start, end]` yields for `symbol_id`: the bars of the
/// days from the day of `start` to the day of `end`.
pub open spec fn range_bars(
    blocks: Map<(u16, u32), CompressedBlock>,
    symbol_id: u16,
    start: u64,
    end: u64,
) -> Seq<OHLCV> {
    gather(blocks, symbol_id, day_key_of(start), day_key_of(end) as int, start, end)
}

/// Strictly ascending timestamps.
pub open spec fn ascending(bars: Seq<OHLCV>) -> bool {
    forall|i: int, j: int| 0 <= i < j < bars.len() ==> bars[i].ts < bars[j].ts
}

/// Of two timestamps on one day the one of the earlier minute is the earlier.
pub proof fn lemma_minutes_order_a_day(a: u64, b: u64)
    requires
        day_number(a) == day_number(b),
        minute_index(a) < minute_index(b),
    ensures
        a < b,
{
    lemma_div_denominator(a as int, 1_000_000_000, 86400);
    lemma_div_denominator(b as int, 1_000_000_000, 86400);
    let sa = a as int / 1_000_000_000;
    let sb = b as int / 1_000_000_000;
    assert(sa / 86400 == sb / 86400);
    if a >= b {
        assert(sa >= sb);
        assert(sa % 86400 >= sb % 86400);
    }
}

/// Filtering a sequence whose kept bars ascend gives an ascending sequence
/// of bars of the sequence.
pub proof fn lemma_filter_ascending(slots: Seq<OHLCV>, pred: spec_fn(OHLCV) -> bool)
    requires
        forall|p: int, q: int|
            0 <= p < q < slots.len() && pred(slots[p]) && pred(slots[q]) ==> slots[p].ts
                < slots[q].ts,
    ensures
        ascending(slots.filter(pred)),
        forall|i: int|
            0 <= i < slots.filter(pred).len() ==> pred(#[trigger] slots.filter(pred)[i])
                && slots.contains(slots.filter(pred)[i]),
    decreases slots.len(),
{
    reveal(Seq::filter);
    if slots.len() > 0 {
        let rest = slots.drop_last();
        let kept = rest.filter(pred);
        assert forall|p: int, q: int|
            0 <= p < q < rest.len() && pred(rest[p]) && pred(rest[q]) implies rest[p].ts
            < rest[q].ts by {
            assert(rest[p] == slots[p] && rest[q] == slots[q]);
        }
        lemma_filter_ascending(rest, pred);
        let out = slots.filter(pred);
        assert forall|i: int| 0 <= i < out.len() implies pred(#[trigger] out[i]) && slots.contains(
            out[i],
        ) by {
            if i < kept.len() {
                assert(out[i] == kept[i]);
                assert(rest.contains(kept[i]));
                let p = choose|p: int| 0 <= p < rest.len() && rest[p] == kept[i];
                assert(slots[p] == out[i]);
            } else {
                assert(out[i] == slots[slots.len() - 1]);
            }
        }
        assert forall|i: int, j: int| 0 <= i < j < out.len() implies out[i].ts < out[j].ts by {
            assert(out[i] == kept[i]);
            if j < kept.len() {
                assert(out[j] == kept[j]);
            } else {
                assert(out[j] == slots[slots.len() - 1]);
                assert(rest.contains(kept[i]));
                let p = choose|p: int| 0 <= p < rest.len() && rest[p] == kept[i];
                assert(slots[p] == kept[i]);
                assert(pred(slots[p]));
            }
        }
    }
}

/// The bars that a query yields from a day in order ascend, and each is a bar
/// of the day within the range.
pub proof fn lemma_day_bars_ascending(
    slots: Seq<OHLCV>,
    symbol_id: u16,
    day: u32,
    start: u64,
    end: u64,
)
    requires
        day_in_order(slots, symbol_id, day),
    ensures
        ascending(bars_of_day(slots, start, end)),
        forall|i: int|
            0 <= i < bars_of_day(slots, start, end).len() ==> bar_in_range(
                #[trigger] bars_of_day(slots, start, end)[i],
                start,
                end,
            ) && slots.contains(bars_of_day(slots, start, end)[i]),
{
    let pred = |b: OHLCV| bar_in_range(b, start, end);
    assert forall|p: int, q: int|
        0 <= p < q < slots.len() && pred(slots[p]) && pred(slots[q]) implies slots[p].ts
        < slots[q].ts by {
        lemma_day_keys_ordered(slots[p].ts, day, slots[q].ts, day);
        lemma_minutes_order_a_day(slots[p].ts, slots[q].ts);
    }
    lemma_filter_ascending(slots, pred);
}

/// A bar that a query yields from the days `lo` to `hi` stands in a slot of
/// the block of one of those days and lies within the range.
pub proof fn lemma_gather_yields_stored(
    blocks: Map<(u16, u32), CompressedBlock>,
    symbol_id: u16,
    lo: u32,
    hi: int,
    start: u64,
    end: u64,
    k: int,
) -> (at: (u32, int))
    requires
        0 <= k < gather(blocks, symbol_id, lo, hi, start, end).len(),
    ensures
        lo <= at.0 <= hi,
        stored_at(blocks, symbol_id, at.0, at.1, gather(blocks, symbol_id, lo, hi, start, end)[k]),
        bar_in_range(gather(blocks, symbol_id, lo, hi, start, end)[k], start, end),
    decreases hi - lo + 1,
{
    let before = gather(blocks, symbol_id, lo, hi - 1, start, end);
    if k < before.len() {
        lemma_gather_yields_stored(blocks, symbol_id, lo, hi - 1, start, end, k)
    } else {
        let slots = blocks[(symbol_id, hi as u32)].slots()->0;
        let pred = |b: OHLCV| bar_in_range(b, start, end);
        let today = bars_of_day(slots, start, end);
        let bar = today[k - before.len()];
        slots.lemma_filter_pred(pred, k - before.len());
        slots.lemma_filter_contains_rev(pred, bar);
        let slot = choose|slot: int| 0 <= slot < slots.len() && slots[slot] == bar;
        (hi as u32, slot)
    }
}

/// A bar within the range that stands in a slot of the block of a day from
/// `lo` to `hi` is among the bars that a query yields from those days.
pub proof fn lemma_gather_yields_all(
    blocks: Map<(u16, u32), CompressedBlock>,
    symbol_id: u16,
    lo: u32,
    hi: int,
    start: u64,
    end: u64,
    day: u32,
    slot: int,
    bar: OHLCV,
)
    requires
        lo <= day <= hi <= u32::MAX,
        stored_at(blocks, symbol_id, day, slot, bar),
        bar_in_range(bar, start, end),
    ensures
        gather(blocks, symbol_id, lo, hi, start, end).contains(bar),
    decreases hi - lo + 1,
{
    let before = gather(blocks, symbol_id, lo, hi - 1, start, end);
    let today = day_bars(blocks, symbol_id, hi as u32, start, end);
    let all = gather(blocks, symbol_id, lo, hi, start, end);
    if day < hi {
        lemma_gather_yields_all(blocks, symbol_id, lo, hi - 1, start, end, day, slot, bar);
        let k = choose|k: int| 0 <= k < before.len() && before[k] == bar;
        assert(all[k] == bar);
    } else {
        let slots = blocks[(symbol_id, day)].slots()->0;
        let pred = |b: OHLCV| bar_in_range(b, start, end);
        slots.lemma_filter_contains(pred, slot);
        let k = choose|k: int| 0 <= k < today.len() && today[k] == bar;
        assert(all[before.len() + k] == bar);
    }
}

/// The bars that a query yields from an index in order ascend strictly in
/// time.
pub proof fn lemma_gather_ascending(
    blocks: Map<(u16, u32), CompressedBlock>,
    symbol_id: u16,
    lo: u32,
    hi: int,
    start: u64,
    end: u64,
)
    requires
        index_in_order(blocks),
    ensures
        ascending(gather(blocks, symbol_id, lo, hi, start, end)),
    decreases hi - lo + 1,
{
    if !(hi < lo || hi > u32::MAX) {
        let before = gather(blocks, symbol_id, lo, hi - 1, start, end);
        let today = day_bars(blocks, symbol_id, hi as u32, start, end);
        let all = gather(blocks, symbol_id, lo, hi, start, end);
        lemma_gather_ascending(blocks, symbol_id, lo, hi - 1, start, end);
        if today.len() > 0 {
            let slots = blocks[(symbol_id, hi as u32)].slots()->0;
            assert(block_holds_day(blocks[(symbol_id, hi as u32)], symbol_id, hi as u32));
            lemma_day_bars_ascending(slots, symbol_id, hi as u32, start, end);
            assert forall|i: int, j: int| 0 <= i < j < all.len() implies all[i].ts < all[j].ts by {
                if j < before.len() {
                    assert(all[i] == before[i] && all[j] == before[j]);
                } else if i >= before.len() {
                    assert(all[i] == today[i - before.len()]);
                    assert(all[j] == today[j - before.len()]);
                } else {
                    assert(all[i] == before[i]);
                    assert(all[j] == today[j - before.len()]);
                    let at = lemma_gather_yields_stored(
                        blocks,
                        symbol_id,
                        lo,
                        hi - 1,
                        start,
                        end,
                        i,
                    );
                    assert(block_holds_day(blocks[(symbol_id, at.0)], symbol_id, at.0));
                    let late = today[j - before.len()];
                    assert(slots.contains(late));
                    let slot = choose|slot: int| 0 <= slot < slots.len() && slots[slot] == late;
                    assert(bar_in_range(late, start, end));
                    lemma_day_keys_ordered(all[i].ts, at.0, late.ts, hi as u32);
                }
            }
        } else {
            assert(all =~= before);
        }
    }
}

/// The day key of a block is the UTC calendar day of every bar in it: a bar
/// that an index in order holds under a day has a timestamp of that day,
/// stands in the slot of its minute, and is in a block labelled with that
/// day and its symbol.
pub proof fn lemma_block_date_is_day_of_bar(
    blocks: Map<(u16, u32), CompressedBlock>,
    symbol_id: u16,
    day: u32,
    slot: int,
    bar: OHLCV,
)
    requires
        index_in_order(blocks),
        stored_at(blocks, symbol_id, day, slot, bar),
    ensures
        blocks[(symbol_id, day)].date_spec() == day_key_of(bar.ts),
        blocks[(symbol_id, day)].symbol_spec() == bar.symbol_id,
        day == day_key_of(bar.ts),
        slot == minute_index(bar.ts),
{
    assert(block_holds_day(blocks[(symbol_id, day)], symbol_id, day));
}

/// No bar that a query yields is an empty slot, and each lies within the
/// range asked for.
pub proof fn lemma_query_skips_empty_slots(
    blocks: Map<(u16, u32), CompressedBlock>,
    symbol_id: u16,
    start: u64,
    end: u64,
    k: int,
)
    requires
        0 <= k < range_bars(blocks, symbol_id, start, end).len(),
    ensures
        range_bars(blocks, symbol_id, start, end)[k].ts != 0,
        start <= range_bars(blocks, symbol_id, start, end)[k].ts <= end,
{
    lemma_gather_yields_stored(
        blocks,
        symbol_id,
        day_key_of(start),
        day_key_of(end) as int,
        start,
        end,
        k,
    );
}

/// The bars that a query yields from an index in order come in strictly
/// ascending time, so none comes twice.
pub proof fn lemma_query_ascending(
    blocks: Map<(u16, u32), CompressedBlock>,
    symbol_id: u16,
    start: u64,
    end: u64,
)
    requires
        index_in_order(blocks),
    ensures
        ascending(range_bars(blocks, symbol_id, start, end)),
        range_bars(blocks, symbol_id, start, end).no_duplicates(),
{
    lemma_gather_ascending(
        blocks,
        symbol_id,
        day_key_of(start),
        day_key_of(end) as int,
        start,
        end,
    );
}

/// Every bar of `symbol_id` that an index in order holds and whose timestamp
/// lies in `[start, end]` is among the bars that a query over that range
/// yields; by [`lemma_query_ascending`] it is there once.
pub proof fn lemma_query_complete(
    blocks: Map<(u16, u32), CompressedBlock>,
    symbol_id: u16,
    start: u64,
    end: u64,
    day: u32,
    slot: int,
    bar: OHLCV,
)
    requires
        index_in_order(blocks),
        stored_at(blocks, symbol_id, day, slot, bar),
        start <= bar.ts <= end,
    ensures
        range_bars(blocks, symbol_id, start, end).contains(bar),
{
    assert(block_holds_day(blocks[(symbol_id, day)], symbol_id, day));
    lemma_key_within_range(bar.ts, day, start, end);
    lemma_gather_yields_all(
        blocks,
        symbol_id,
        day_key_of(start),
        day_key_of(end) as int,
        start,
        end,
        day,
        slot,
        bar,
    );
}

/// A bar that came with a batch, not an empty one, and was not overwritten
/// by a later bar of its minute, is found by every query over the symbol
/// whose range holds its timestamp, once the block of the batch is in the
/// index.
pub proof fn lemma_installed_bar_is_found(
    blocks: Map<(u16, u32), CompressedBlock>,
    symbol_id: u16,
    day: u32,
    records: Seq<OHLCV>,
    k: int,
    start: u64,
    end: u64,
)
    requires
        index_in_order(blocks),
        blocks.contains_key((symbol_id, day)),
        blocks[(symbol_id, day)].slots() == Some(day_slots(records)),
        0 <= k < records.len(),
        records[k].ts != 0,
        forall|j: int|
            k < j < records.len() ==> minute_index((#[trigger] records[j]).ts) != minute_index(
                records[k].ts,
            ),
        start <= records[k].ts <= end,
    ensures
        range_bars(blocks, symbol_id, start, end).contains(records[k]),
{
    lemma_last_writer_wins(records, k);
    lemma_day_slots_len(records);
    lemma_query_complete(
        blocks,
        symbol_id,
        start,
        end,
        day,
        minute_index(records[k].ts),
        records[k],
    );
}

} // verus!
