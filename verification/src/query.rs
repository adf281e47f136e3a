//! Scans over bar sequences: the close-price filter and moving-window sums.

use vstd::prelude::*;
use crate::types::OHLCV;

verus! {

/// Whether the close of `bar` lies in the inclusive range `[min_price, max_price]`.
pub open spec fn close_in_range(bar: OHLCV, min_price: u32, max_price: u32) -> bool {
    min_price <= bar.close <= max_price
}

/// The bars of `bars` whose close lies in `[min_price, max_price]`, in input order.
pub open spec fn bars_in_price_range(bars: Seq<OHLCV>, min_price: u32, max_price: u32) -> Seq<
    OHLCV,
> {
    bars.filter(|b: OHLCV| close_in_range(b, min_price, max_price))
}

/// Sum of the closes of `bars[from..to]`.
pub open spec fn close_sum(bars: Seq<OHLCV>, from: int, to: int) -> int
    decreases to - from,
{
    if from >= to {
        0
    } else {
        close_sum(bars, from, to - 1) + bars[to - 1].close
    }
}

/// A sum of closes over `from..to` is at most `u32::MAX` per bar.
pub proof fn lemma_close_sum_bound(bars: Seq<OHLCV>, from: int, to: int)
    requires
        0 <= from <= to <= bars.len(),
    ensures
        0 <= close_sum(bars, from, to) <= (to - from) * 0xffff_ffff,
    decreases to - from,
{
    if from < to {
        lemma_close_sum_bound(bars, from, to - 1);
    }
}

/// A non-empty window sums to at least its first close.
pub proof fn lemma_close_sum_first(bars: Seq<OHLCV>, from: int, to: int)
    requires
        0 <= from < to <= bars.len(),
    ensures
        close_sum(bars, from, to) >= bars[from].close,
    decreases to - from,
{
    if from + 1 < to {
        lemma_close_sum_first(bars, from, to - 1);
    } else {
        assert(close_sum(bars, from, from) == 0);
    }
}

/// Moving a window one bar to the right drops its first close and adds the next one.
pub proof fn lemma_close_sum_slide(bars: Seq<OHLCV>, from: int, to: int)
    requires
        0 <= from < to < bars.len(),
    ensures
        close_sum(bars, from + 1, to + 1) == close_sum(bars, from, to) - bars[from].close
            + bars[to].close,
    decreases to - from,
{
    if from + 1 < to {
        lemma_close_sum_slide(bars, from, to - 1);
    } else {
        assert(close_sum(bars, from, from) == 0);
        assert(close_sum(bars, from + 1, from + 1) == 0);
    }
}

/// Filter of bars by close price.
pub struct SimdFilter;

impl SimdFilter {
    /// Keeps the bars whose close lies in `[min_price, max_price]`, both ends
    /// included, in the order in which they came.
    pub fn filter_by_price(records: &[OHLCV], min_price: u32, max_price: u32) -> (result: Vec<
        OHLCV,
    >)
        ensures
            result@ == bars_in_price_range(records@, min_price, max_price),
    {
        let ghost pred = |b: OHLCV| close_in_range(b, min_price, max_price);
        let mut result: Vec<OHLCV> = Vec::new();
        let mut i: usize = 0;
        while i < records.len()
            invariant
                i <= records.len(),
                pred == (|b: OHLCV| close_in_range(b, min_price, max_price)),
                result@ == records@.take(i as int).filter(pred),
            decreases records.len() - i,
        {
            let rec = records[i];
            proof {
                assert(records@.take(i as int + 1) =~= records@.take(i as int).push(rec));
                records@.take(i as int).lemma_filter_push(rec, pred);
            }
            if rec.close >= min_price && rec.close <= max_price {
                result.push(rec);
            }
            i = i + 1;
        }
        proof {
            assert(records@.take(i as int) =~= records@);
        }
        result
    }
}

/// Moving-window aggregates over closes.
pub struct TechnicalIndicators;

impl TechnicalIndicators {
    /// The sum of closes of every window of `period` consecutive bars, first
    /// window first. Empty when there are fewer than `period` bars. Dividing a
    /// sum by `period` and by the price scale gives the simple moving average.
    pub fn window_sums(records: &[OHLCV], period: usize) -> (sums: Vec<u128>)
        ensures
            records.len() < period ==> sums@.len() == 0,
            records.len() >= period ==> sums@.len() == records.len() - period + 1,
            forall|k: int|
                0 <= k < sums@.len() ==> #[trigger] sums@[k] as int == close_sum(
                    records@,
                    k,
                    k + period,
                ),
    {
        let n = records.len();
        if n < period {
            return Vec::new();
        }
        let mut sums: Vec<u128> = Vec::new();
        let mut sum: u128 = 0;
        let mut i: usize = 0;
        while i < period
            invariant
                i <= period <= n,
                n == records.len(),
                sum as int == close_sum(records@, 0, i as int),
            decreases period - i,
        {
            proof {
                lemma_close_sum_bound(records@, 0, i as int);
                assert(i * 0xffff_ffff <= 0xffff_ffff_ffff_ffff * 0xffff_ffff) by (nonlinear_arith)
                    requires
                        0 <= i <= 0xffff_ffff_ffff_ffff,
                ;
            }
            sum = sum + records[i].close as u128;
            i = i + 1;
        }
        sums.push(sum);
        let mut j: usize = period;
        while j < n
            invariant
                period <= j <= n,
                n == records.len(),
                sums@.len() == j - period + 1,
                sum as int == close_sum(records@, j - period, j as int),
                forall|k: int|
                    0 <= k < sums@.len() ==> #[trigger] sums@[k] as int == close_sum(
                        records@,
                        k,
                        k + period,
                    ),
            decreases n - j,
        {
            proof {
                lemma_close_sum_bound(records@, j - period, j as int);
                lemma_close_sum_bound(records@, j - period + 1, j as int + 1);
                assert(period * 0xffff_ffff <= 0xffff_ffff_ffff_ffff * 0xffff_ffff) by (nonlinear_arith)
                    requires
                        0 <= period <= 0xffff_ffff_ffff_ffff,
                ;
                if period > 0 {
                    lemma_close_sum_first(records@, j - period, j as int);
                    lemma_close_sum_slide(records@, j - period, j as int);
                } else {
                    assert(close_sum(records@, j as int, j as int) == 0);
                    assert(close_sum(records@, j as int + 1, j as int + 1) == 0);
                }
            }
            if period > 0 {
                sum = sum - records[j - period].close as u128 + records[j].close as u128;
            }
            sums.push(sum);
            j = j + 1;
        }
        sums
    }
}

} // verus!
