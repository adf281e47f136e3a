use fx_store::query::{SimdFilter, TechnicalIndicators};
use fx_store::types::{PriceField, OHLCV};

fn closes(values: &[u32]) -> Vec<OHLCV> {
    values
        .iter()
        .enumerate()
        .map(|(i, close)| OHLCV {
            ts: (i as u64 + 1) * 60_000_000_000,
            open: 0,
            high: 0,
            low: 0,
            close: *close,
            volume: i as u32,
            symbol_id: 0,
        })
        .collect()
}

fn kept(bars: &[OHLCV]) -> Vec<u32> {
    bars.iter().map(|bar| bar.volume).collect()
}

#[test]
fn filter_keeps_closes_in_the_inclusive_range_in_order() {
    let bars = closes(&[5, 10, 15, 20, 10, 25, 9, 21, 20, 10, 11]);
    assert_eq!(kept(&SimdFilter::filter_by_price(&bars, 10, 20)), vec![1, 2, 3, 4, 8, 9, 10]);
    assert_eq!(kept(&SimdFilter::filter_by_price(&bars, 10, 10)), vec![1, 4, 9]);
    assert_eq!(kept(&SimdFilter::filter_by_price(&bars, 0, u32::MAX)).len(), 11);
    assert!(SimdFilter::filter_by_price(&bars, 21, 20).is_empty());
    assert!(SimdFilter::filter_by_price(&[], 0, u32::MAX).is_empty());
}

#[test]
fn filter_takes_closes_above_the_signed_range() {
    let bars = closes(&[u32::MAX, 0x8000_0000, 0x7fff_ffff, 0]);
    assert_eq!(kept(&SimdFilter::filter_by_price(&bars, 0x8000_0000, u32::MAX)), vec![0, 1]);
    assert_eq!(kept(&SimdFilter::filter_by_price(&bars, 0, 0x7fff_ffff)), vec![2, 3]);
}

#[test]
fn window_sums_slide_over_the_closes() {
    let bars = closes(&[1, 2, 3, 4, 5]);
    assert_eq!(TechnicalIndicators::window_sums(&bars, 1), vec![1, 2, 3, 4, 5]);
    assert_eq!(TechnicalIndicators::window_sums(&bars, 2), vec![3, 5, 7, 9]);
    assert_eq!(TechnicalIndicators::window_sums(&bars, 5), vec![15]);
    assert_eq!(TechnicalIndicators::window_sums(&bars, 6), Vec::<u128>::new());
    assert_eq!(TechnicalIndicators::window_sums(&bars, 0), vec![0, 0, 0, 0, 0, 0]);
    assert_eq!(TechnicalIndicators::window_sums(&[], 0), vec![0]);
    assert_eq!(TechnicalIndicators::window_sums(&[], 1), Vec::<u128>::new());
}

#[test]
fn window_sums_do_not_overflow_32_bits() {
    let bars = closes(&[u32::MAX, u32::MAX, u32::MAX, 1]);
    assert_eq!(
        TechnicalIndicators::window_sums(&bars, 3),
        vec![3 * u32::MAX as u128, 2 * u32::MAX as u128 + 1]
    );
}

#[test]
fn price_fixed_picks_the_field() {
    let bar = OHLCV { ts: 60, open: 1, high: 2, low: 3, close: 4, volume: 5, symbol_id: 6 };
    assert_eq!(bar.price_fixed(PriceField::Open), 1);
    assert_eq!(bar.price_fixed(PriceField::High), 2);
    assert_eq!(bar.price_fixed(PriceField::Low), 3);
    assert_eq!(bar.price_fixed(PriceField::Close), 4);
    assert_eq!(OHLCV::default().price_fixed(PriceField::Close), 0);
    assert_eq!(OHLCV::default().ts, 0);
}

#[test]
fn empty_and_consistent_bars() {
    assert!(OHLCV::default().is_empty());
    assert!(OHLCV::default().is_consistent());
    let bar = OHLCV { ts: 120_000_000_000, open: 5, high: 9, low: 3, close: 9, volume: 0, symbol_id: 0 };
    assert!(!bar.is_empty());
    assert!(bar.is_consistent());
    assert!(!OHLCV { ts: 120_000_000_001, ..bar }.is_consistent());
    assert!(!OHLCV { open: 10, ..bar }.is_consistent());
    assert!(!OHLCV { open: 2, ..bar }.is_consistent());
    assert!(!OHLCV { close: 2, ..bar }.is_consistent());
    assert!(!OHLCV { close: 10, ..bar }.is_consistent());
    assert!(OHLCV { open: 3, close: 3, high: 3, ..bar }.is_consistent());
}
