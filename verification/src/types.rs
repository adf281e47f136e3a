//! The bar record, the price selector and the symbol descriptor.

use vstd::prelude::*;

verus! {

/// Fixed-point scale of a stored price: five decimal digits.
pub const PRICE_SCALE: u32 = 100_000;

/// Nanoseconds in one minute.
pub const NANOS_PER_MINUTE: u64 = 60_000_000_000;

/// One minute bar. Prices are fixed-point values scaled by [`PRICE_SCALE`];
/// `ts` is the start of the minute in nanoseconds since the Unix epoch.
/// A bar whose `ts` is zero stands for "no bar".
#[derive(Copy, Clone, Debug, PartialEq, Eq, Structural)]
pub struct OHLCV {
    pub ts: u64,
    pub open: u32,
    pub high: u32,
    pub low: u32,
    pub close: u32,
    pub volume: u32,
    pub symbol_id: u16,
}

/// Selects one of the four prices of a bar.
#[derive(Copy, Clone, Debug, PartialEq, Eq, Structural)]
pub enum PriceField {
    Open,
    High,
    Low,
    Close,
}

/// A traded symbol: its handle, its name, and the two halves of the name.
#[derive(Clone, Debug)]
pub struct Symbol {
    pub id: u16,
    pub name: String,
    pub base: String,
    pub quote: String,
}

impl Symbol {
    /// A copy of the symbol.
    pub fn copy(&self) -> (copy: Symbol)
        ensures
            copy == *self,
    {
        Symbol {
            id: self.id,
            name: self.name.clone(),
            base: self.base.clone(),
            quote: self.quote.clone(),
        }
    }
}

impl OHLCV {
    /// The all-zero bar that marks an empty slot.
    pub open spec fn empty() -> OHLCV {
        OHLCV { ts: 0, open: 0, high: 0, low: 0, close: 0, volume: 0, symbol_id: 0 }
    }

    /// The prices lie as they must: the low is the lowest and the high the
    /// highest.
    pub open spec fn prices_in_order(self) -> bool {
        self.low <= self.open <= self.high && self.low <= self.close <= self.high
    }

    /// The timestamp is a whole minute.
    pub open spec fn minute_aligned(self) -> bool {
        self.ts % NANOS_PER_MINUTE == 0
    }

    /// Whether the bar stands for "no bar": its timestamp is zero.
    pub fn is_empty(&self) -> (empty: bool)
        ensures
            empty == (self.ts == 0),
    {
        self.ts == 0
    }

    /// Whether the bar is one that a feed of minute bars can hold: its prices
    /// in order and its timestamp a whole minute.
    pub fn is_consistent(&self) -> (consistent: bool)
        ensures
            consistent == (self.prices_in_order() && self.minute_aligned()),
    {
        self.low <= self.open && self.open <= self.high && self.low <= self.close && self.close
            <= self.high && self.ts % NANOS_PER_MINUTE == 0
    }

    /// The price that `field` selects, as a fixed-point integer.
    pub open spec fn price_of(self, field: PriceField) -> u32 {
        match field {
            PriceField::Open => self.open,
            PriceField::High => self.high,
            PriceField::Low => self.low,
            PriceField::Close => self.close,
        }
    }

    /// The price that `field` selects, still scaled by [`PRICE_SCALE`].
    pub fn price_fixed(&self, field: PriceField) -> (val: u32)
        ensures
            val == self.price_of(field),
    {
        match field {
            PriceField::Open => self.open,
            PriceField::High => self.high,
            PriceField::Low => self.low,
            PriceField::Close => self.close,
        }
    }
}

impl Default for OHLCV {
    fn default() -> (bar: Self)
        ensures
            bar == OHLCV::empty(),
    {
        OHLCV { ts: 0, open: 0, high: 0, low: 0, close: 0, volume: 0, symbol_id: 0 }
    }
}

} // verus!
