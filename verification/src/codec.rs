//! The byte form of a day of bars: 1,440 records of 40 bytes each, every
//! field little-endian, ten zero bytes of padding closing each record.

use vstd::prelude::*;
use vstd::bytes::*;
use vstd::slice::slice_subrange;
use crate::types::OHLCV;

verus! {

/// Slots in a day block: one per minute of the day.
pub const BLOCK_SIZE: usize = 1440;

/// Bytes of one serialized bar.
pub const RECORD_BYTES: usize = 40;

/// Bytes of one serialized day.
pub const BLOCK_BYTES: usize = 57600;

/// Ten zero bytes.
pub open spec fn record_padding() -> Seq<u8> {
    Seq::new(10, |i: int| 0u8)
}

/// The 40 bytes of one bar.
pub open spec fn record_bytes(bar: OHLCV) -> Seq<u8> {
    spec_u64_to_le_bytes(bar.ts) + spec_u32_to_le_bytes(bar.open) + spec_u32_to_le_bytes(bar.high)
        + spec_u32_to_le_bytes(bar.low) + spec_u32_to_le_bytes(bar.close) + spec_u32_to_le_bytes(
        bar.volume,
    ) + spec_u16_to_le_bytes(bar.symbol_id) + record_padding()
}

/// The bar that 40 bytes stand for; the padding is not read.
pub open spec fn record_from_bytes(s: Seq<u8>) -> OHLCV {
    OHLCV {
        ts: spec_u64_from_le_bytes(s.subrange(0, 8)),
        open: spec_u32_from_le_bytes(s.subrange(8, 12)),
        high: spec_u32_from_le_bytes(s.subrange(12, 16)),
        low: spec_u32_from_le_bytes(s.subrange(16, 20)),
        close: spec_u32_from_le_bytes(s.subrange(20, 24)),
        volume: spec_u32_from_le_bytes(s.subrange(24, 28)),
        symbol_id: spec_u16_from_le_bytes(s.subrange(28, 30)),
    }
}

/// The bytes of a sequence of bars: their records, one after another.
pub open spec fn encode_slots(slots: Seq<OHLCV>) -> Seq<u8>
    decreases slots.len(),
{
    if slots.len() == 0 {
        Seq::empty()
    } else {
        encode_slots(slots.drop_last()) + record_bytes(slots.last())
    }
}

/// The day of bars that `bytes` stand for: `None` unless there are exactly
/// [`BLOCK_BYTES`] of them, else the 1,440 bars read record by record.
pub open spec fn decode_slots(bytes: Seq<u8>) -> Option<Seq<OHLCV>> {
    if bytes.len() == BLOCK_BYTES as nat {
        Some(
            Seq::new(
                BLOCK_SIZE as nat,
                |k: int| record_from_bytes(bytes.subrange(40 * k, 40 * k + 40)),
            ),
        )
    } else {
        None
    }
}

/// A record has 40 bytes and reads back as the bar it was written from.
pub proof fn lemma_record_round_trip(bar: OHLCV)
    ensures
        record_bytes(bar).len() == 40,
        record_from_bytes(record_bytes(bar)) == bar,
{
    lemma_auto_spec_u64_to_from_le_bytes();
    lemma_auto_spec_u32_to_from_le_bytes();
    lemma_auto_spec_u16_to_from_le_bytes();
    let s = record_bytes(bar);
    assert(s.subrange(0, 8) =~= spec_u64_to_le_bytes(bar.ts));
    assert(s.subrange(8, 12) =~= spec_u32_to_le_bytes(bar.open));
    assert(s.subrange(12, 16) =~= spec_u32_to_le_bytes(bar.high));
    assert(s.subrange(16, 20) =~= spec_u32_to_le_bytes(bar.low));
    assert(s.subrange(20, 24) =~= spec_u32_to_le_bytes(bar.close));
    assert(s.subrange(24, 28) =~= spec_u32_to_le_bytes(bar.volume));
    assert(s.subrange(28, 30) =~= spec_u16_to_le_bytes(bar.symbol_id));
}

/// The bytes of `n` bars are `40 * n` long, and the `k`-th record lies at
/// offset `40 * k`.
pub proof fn lemma_encode_layout(slots: Seq<OHLCV>, k: int)
    requires
        0 <= k < slots.len(),
    ensures
        encode_slots(slots).len() == 40 * slots.len(),
        encode_slots(slots).subrange(40 * k, 40 * k + 40) == record_bytes(slots[k]),
    decreases slots.len(),
{
    lemma_encode_len(slots);
    lemma_encode_len(slots.drop_last());
    lemma_record_round_trip(slots.last());
    let head = encode_slots(slots.drop_last());
    let all = encode_slots(slots);
    if k == slots.len() - 1 {
        assert(all.subrange(40 * k, 40 * k + 40) =~= record_bytes(slots.last()));
    } else {
        lemma_encode_layout(slots.drop_last(), k);
        assert(all.subrange(40 * k, 40 * k + 40) =~= head.subrange(40 * k, 40 * k + 40));
    }
}

/// The bytes of `n` bars are `40 * n` long.
pub proof fn lemma_encode_len(slots: Seq<OHLCV>)
    ensures
        encode_slots(slots).len() == 40 * slots.len(),
    decreases slots.len(),
{
    if slots.len() > 0 {
        lemma_encode_len(slots.drop_last());
        lemma_record_round_trip(slots.last());
    }
}

/// Decoding the bytes of a full day of bars gives the same bars back.
pub proof fn lemma_codec_round_trip(slots: Seq<OHLCV>)
    requires
        slots.len() == BLOCK_SIZE as nat,
    ensures
        decode_slots(encode_slots(slots)) == Some(slots),
{
    lemma_encode_len(slots);
    let bytes = encode_slots(slots);
    let back = decode_slots(bytes)->0;
    assert forall|k: int| 0 <= k < slots.len() implies back[k] == slots[k] by {
        lemma_encode_layout(slots, k);
        lemma_record_round_trip(slots[k]);
    }
    assert(back =~= slots);
}

/// Appends the 40 bytes of `bar` to `out`.
fn push_record(out: &mut Vec<u8>, bar: &OHLCV)
    ensures
        final(out)@ == old(out)@ + record_bytes(*bar),
{
    let mut ts = u64_to_le_bytes(bar.ts);
    let mut open = u32_to_le_bytes(bar.open);
    let mut high = u32_to_le_bytes(bar.high);
    let mut low = u32_to_le_bytes(bar.low);
    let mut close = u32_to_le_bytes(bar.close);
    let mut volume = u32_to_le_bytes(bar.volume);
    let mut symbol = u16_to_le_bytes(bar.symbol_id);
    let ghost before = out@;
    out.append(&mut ts);
    out.append(&mut open);
    out.append(&mut high);
    out.append(&mut low);
    out.append(&mut close);
    out.append(&mut volume);
    out.append(&mut symbol);
    let ghost unpadded = out@;
    let mut i: usize = 0;
    while i < 10
        invariant
            i <= 10,
            out@ == unpadded + Seq::new(i as nat, |j: int| 0u8),
        decreases 10 - i,
    {
        out.push(0u8);
        i = i + 1;
        assert(out@ =~= unpadded + Seq::new(i as nat, |j: int| 0u8));
    }
    assert(out@ =~= before + record_bytes(*bar));
}

/// Serializes bars, 40 bytes each, in order.
pub fn encode(slots: &[OHLCV]) -> (bytes: Vec<u8>)
    ensures
        bytes@ == encode_slots(slots@),
{
    let mut bytes: Vec<u8> = Vec::new();
    let mut i: usize = 0;
    while i < slots.len()
        invariant
            i <= slots.len(),
            bytes@ == encode_slots(slots@.take(i as int)),
        decreases slots.len() - i,
    {
        proof {
            assert(slots@.take(i as int + 1).drop_last() =~= slots@.take(i as int));
        }
        push_record(&mut bytes, &slots[i]);
        i = i + 1;
    }
    proof {
        assert(slots@.take(i as int) =~= slots@);
    }
    bytes
}

/// Reads the bar at the start of `record`.
fn read_record(record: &[u8]) -> (bar: OHLCV)
    requires
        record@.len() == 40,
    ensures
        bar == record_from_bytes(record@),
{
    OHLCV {
        ts: u64_from_le_bytes(slice_subrange(record, 0, 8)),
        open: u32_from_le_bytes(slice_subrange(record, 8, 12)),
        high: u32_from_le_bytes(slice_subrange(record, 12, 16)),
        low: u32_from_le_bytes(slice_subrange(record, 16, 20)),
        close: u32_from_le_bytes(slice_subrange(record, 20, 24)),
        volume: u32_from_le_bytes(slice_subrange(record, 24, 28)),
        symbol_id: u16_from_le_bytes(slice_subrange(record, 28, 30)),
    }
}

/// Reads a day of bars back from its byte form. `None` when `bytes` is not
/// exactly one day long.
pub fn decode(bytes: &[u8]) -> (slots: Option<Vec<OHLCV>>)
    ensures
        slots is Some <==> bytes@.len() == BLOCK_BYTES as nat,
        match slots {
            Some(v) => Some(v@) == decode_slots(bytes@),
            None => decode_slots(bytes@) is None,
        },
{
    if bytes.len() != BLOCK_BYTES {
        return None;
    }
    let mut slots: Vec<OHLCV> = Vec::new();
    let mut k: usize = 0;
    while k < BLOCK_SIZE
        invariant
            k <= BLOCK_SIZE,
            bytes@.len() == BLOCK_BYTES as nat,
            slots@.len() == k,
            forall|j: int|
                0 <= j < k ==> #[trigger] slots@[j] == record_from_bytes(
                    bytes@.subrange(40 * j, 40 * j + 40),
                ),
        decreases BLOCK_SIZE - k,
    {
        let bar = read_record(slice_subrange(bytes, 40 * k, 40 * k + 40));
        slots.push(bar);
        k = k + 1;
    }
    proof {
        assert(slots@ =~= decode_slots(bytes@)->0);
    }
    Some(slots)
}

} // verus!
