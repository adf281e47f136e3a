//! The compressed day block: one symbol's bars of one day, laid out in
//! 1,440 minute slots, serialized, compressed, and decompressed on demand
//! into a cache that clones of the block share.

use vstd::prelude::*;
use vstd::rwlock::RwLock;
use vstd::rwlock::RwLockPredicate;
use std::sync::Arc;
use crate::codec::{decode, decode_slots, encode, encode_slots, lemma_codec_round_trip, BLOCK_BYTES, BLOCK_SIZE};
use crate::types::OHLCV;

verus! {

/// Level at which day blocks are compressed.
pub const COMPRESSION_LEVEL: i32 = 3;

/// What `zstd::bulk::compress` returns for `data` at `level`; `None` stands
/// for its error.
pub uninterp spec fn zstd_compressed(data: Seq<u8>, level: i32) -> Option<Seq<u8>>;

/// What `zstd::bulk::decompress` returns for `data` with room for `capacity`
/// bytes; `None` stands for its error.
pub uninterp spec fn zstd_decompressed(data: Seq<u8>, capacity: usize) -> Option<Seq<u8>>;

/// Calls `zstd::bulk::compress`, on input that is not empty and no longer
/// than a gibibyte. The contract names the result and claims the codec's
/// losslessness: what it produced decompresses to `data` again, given room
/// for at least `data.len()` bytes.
#[verifier::external_body]
fn zstd_compress(data: &[u8], level: i32) -> (res: Option<Vec<u8>>)
    requires
        0 < data@.len() <= 0x4000_0000,
    ensures
        res is Some <==> zstd_compressed(data@, level) is Some,
        res matches Some(c) ==> zstd_compressed(data@, level) == Some(c@),
        res is Some ==> forall|capacity: usize|
            capacity >= data@.len() ==> #[trigger] zstd_decompressed((res->0)@, capacity) == Some(
                data@,
            ),
{
    zstd::bulk::compress(data, level).ok()
}

/// Calls `zstd::bulk::decompress`. The contract names the result.
#[verifier::external_body]
fn zstd_decompress(data: &[u8], capacity: usize) -> (res: Option<Vec<u8>>)
    requires
        capacity <= isize::MAX,
    ensures
        res is Some <==> zstd_decompressed(data@, capacity) is Some,
        res matches Some(v) ==> zstd_decompressed(data@, capacity) == Some(v@),
{
    zstd::bulk::decompress(data, capacity).ok()
}

/// Calls `Arc::clone`: another handle to the same value.
#[verifier::external_body]
pub(crate) fn share_handle<T>(handle: &Arc<T>) -> (res: Arc<T>)
    ensures
        res == *handle,
{
    Arc::clone(handle)
}

/// The slot of the day that a timestamp falls into: its minute of the day.
pub open spec fn minute_index(ts: u64) -> int {
    ((ts as int / 1_000_000_000) % 86400) / 60
}

/// A day with no bars: 1,440 empty slots.
pub open spec fn empty_day() -> Seq<OHLCV> {
    Seq::new(BLOCK_SIZE as nat, |i: int| OHLCV::empty())
}

/// The slots of a day after writing `records` in order, each into the slot
/// of its minute; a later record for a minute overwrites an earlier one.
pub open spec fn day_slots(records: Seq<OHLCV>) -> Seq<OHLCV>
    decreases records.len(),
{
    if records.len() == 0 {
        empty_day()
    } else {
        day_slots(records.drop_last()).update(minute_index(records.last().ts), records.last())
    }
}

/// The day of bars held in a compressed payload, or `None` where the payload
/// does not decompress to exactly one serialized day.
pub open spec fn block_slots(payload: Seq<u8>) -> Option<Seq<OHLCV>> {
    match zstd_decompressed(payload, BLOCK_BYTES) {
        Some(bytes) => decode_slots(bytes),
        None => None,
    }
}

/// A day has 1,440 slots whatever was written into it.
pub proof fn lemma_day_slots_len(records: Seq<OHLCV>)
    ensures
        day_slots(records).len() == BLOCK_SIZE as nat,
    decreases records.len(),
{
    if records.len() > 0 {
        lemma_day_slots_len(records.drop_last());
    }
}

/// A slot for whose minute no record came is empty.
pub proof fn lemma_unwritten_slot_empty(records: Seq<OHLCV>, slot: int)
    requires
        0 <= slot < BLOCK_SIZE,
        forall|k: int| 0 <= k < records.len() ==> minute_index((#[trigger] records[k]).ts) != slot,
    ensures
        day_slots(records)[slot] == OHLCV::empty(),
    decreases records.len(),
{
    lemma_day_slots_len(records);
    if records.len() > 0 {
        let before = records.drop_last();
        lemma_day_slots_len(before);
        assert(records[records.len() - 1] == records.last());
        assert forall|k: int| 0 <= k < before.len() implies minute_index(
            (#[trigger] before[k]).ts,
        ) != slot by {
            assert(before[k] == records[k]);
        }
        lemma_unwritten_slot_empty(before, slot);
    }
}

/// A slot holds the last record that came for its minute: of two records of
/// one minute the later one stays.
pub proof fn lemma_last_writer_wins(records: Seq<OHLCV>, k: int)
    requires
        0 <= k < records.len(),
        forall|j: int|
            k < j < records.len() ==> minute_index((#[trigger] records[j]).ts) != minute_index(
                records[k].ts,
            ),
    ensures
        day_slots(records)[minute_index(records[k].ts)] == records[k],
    decreases records.len(),
{
    lemma_day_slots_len(records);
    let before = records.drop_last();
    lemma_day_slots_len(before);
    if k < records.len() - 1 {
        assert(records[records.len() - 1] == records.last());
        assert(before[k] == records[k]);
        assert forall|j: int| k < j < before.len() implies minute_index(
            (#[trigger] before[j]).ts,
        ) != minute_index(before[k].ts) by {
            assert(before[j] == records[j]);
        }
        lemma_last_writer_wins(before, k);
    }
}

/// A slot that is not empty holds a bar of that very minute, so no two
/// occupied slots hold bars of the same minute.
pub proof fn lemma_minute_unique(records: Seq<OHLCV>, i: int, j: int)
    requires
        0 <= i < BLOCK_SIZE,
        0 <= j < BLOCK_SIZE,
        i != j,
        day_slots(records)[i].ts != 0,
        day_slots(records)[j].ts != 0,
    ensures
        minute_index(day_slots(records)[i].ts) == i,
        minute_index(day_slots(records)[j].ts) == j,
        minute_index(day_slots(records)[i].ts) != minute_index(day_slots(records)[j].ts),
{
    lemma_slot_holds_own_minute(records, i);
    lemma_slot_holds_own_minute(records, j);
}

/// A slot holds the empty bar or a bar, taken from the records, whose minute
/// is the slot's number.
pub proof fn lemma_slot_holds_own_minute(records: Seq<OHLCV>, slot: int)
    requires
        0 <= slot < BLOCK_SIZE,
    ensures
        day_slots(records)[slot] == OHLCV::empty() || (minute_index(day_slots(records)[slot].ts)
            == slot && records.contains(day_slots(records)[slot])),
    decreases records.len(),
{
    lemma_day_slots_len(records);
    if records.len() > 0 {
        let before = records.drop_last();
        lemma_day_slots_len(before);
        lemma_slot_holds_own_minute(before, slot);
        if minute_index(records.last().ts) == slot {
            assert(records[records.len() - 1] == records.last());
        } else if day_slots(before)[slot] != OHLCV::empty() {
            let bar = day_slots(before)[slot];
            let k = choose|k: int| 0 <= k < before.len() && before[k] == bar;
            assert(records[k] == bar);
        }
    }
}

/// What the cache of a block may hold: nothing, or the day that the block's
/// payload stands for.
pub struct CacheContent {
    pub payload: Seq<u8>,
}

impl RwLockPredicate<Option<Vec<OHLCV>>> for CacheContent {
    open spec fn inv(self, cached: Option<Vec<OHLCV>>) -> bool {
        cached matches Some(day) ==> block_slots(self.payload) == Some(day@)
    }
}

/// Why a block gave no bars.
#[derive(Copy, Clone, Debug, PartialEq, Eq, Structural)]
pub enum BlockError {
    /// The payload does not decompress to one serialized day.
    Corrupt,
}

/// One symbol's bars of one day, compressed. Clones share the payload and
/// the cache of decompressed bars.
pub struct CompressedBlock {
    date: u32,
    symbol_id: u16,
    data: Arc<Vec<u8>>,
    cached: Arc<RwLock<Option<Vec<OHLCV>>, CacheContent>>,
}

/// A copy of a day of bars.
fn copy_bars(bars: &Vec<OHLCV>) -> (copy: Vec<OHLCV>)
    ensures
        copy@ == bars@,
{
    let mut copy: Vec<OHLCV> = Vec::new();
    let mut i: usize = 0;
    while i < bars.len()
        invariant
            i <= bars.len(),
            copy@ == bars@.take(i as int),
        decreases bars.len() - i,
    {
        copy.push(bars[i]);
        i = i + 1;
        assert(copy@ =~= bars@.take(i as int));
    }
    assert(bars@.take(i as int) =~= bars@);
    copy
}

/// Lays `records` out in the 1,440 slots of a day.
pub fn arrange_day(records: &[OHLCV]) -> (slots: Vec<OHLCV>)
    ensures
        slots@ == day_slots(records@),
{
    let mut slots: Vec<OHLCV> = Vec::new();
    let mut i: usize = 0;
    while i < BLOCK_SIZE
        invariant
            i <= BLOCK_SIZE,
            slots@ == Seq::new(i as nat, |k: int| OHLCV::empty()),
        decreases BLOCK_SIZE - i,
    {
        slots.push(OHLCV::default());
        i = i + 1;
        assert(slots@ =~= Seq::new(i as nat, |k: int| OHLCV::empty()));
    }
    let mut n: usize = 0;
    assert(records@.take(0) =~= Seq::<OHLCV>::empty());
    while n < records.len()
        invariant
            n <= records.len(),
            slots@ == day_slots(records@.take(n as int)),
        decreases records.len() - n,
    {
        let rec = records[n];
        let minute = ((rec.ts / 1_000_000_000) % 86400) / 60;
        proof {
            lemma_day_slots_len(records@.take(n as int));
            assert(records@.take(n as int + 1).drop_last() =~= records@.take(n as int));
        }
        slots.set(minute as usize, rec);
        n = n + 1;
    }
    assert(records@.take(n as int) =~= records@);
    slots
}

impl CompressedBlock {
    #[verifier::type_invariant]
    spec fn cache_follows_payload(self) -> bool {
        self.cached.pred().payload == self.data@
    }

    /// The day key of the block, `YYYYMMDD`.
    pub closed spec fn date_spec(self) -> u32 {
        self.date
    }

    /// The symbol whose bars the block holds.
    pub closed spec fn symbol_spec(self) -> u16 {
        self.symbol_id
    }

    /// The compressed bytes.
    pub closed spec fn payload(self) -> Seq<u8> {
        self.data@
    }

    /// The day of bars that the block stands for; `None` for a corrupt block.
    pub open spec fn slots(self) -> Option<Seq<OHLCV>> {
        block_slots(self.payload())
    }

    /// The day key of the block, `YYYYMMDD`.
    pub fn date(&self) -> (date: u32)
        ensures
            date == self.date_spec(),
    {
        self.date
    }

    /// The symbol whose bars the block holds.
    pub fn symbol_id(&self) -> (id: u16)
        ensures
            id == self.symbol_spec(),
    {
        self.symbol_id
    }

    /// Length of the compressed payload in bytes.
    pub fn compressed_len(&self) -> (len: usize)
        ensures
            len == self.payload().len(),
    {
        self.data.len()
    }

    /// A block around an already compressed payload, with an empty cache.
    pub fn from_payload(date: u32, symbol_id: u16, payload: Vec<u8>) -> (block: Self)
        ensures
            block.date_spec() == date,
            block.symbol_spec() == symbol_id,
            block.payload() == payload@,
    {
        let ghost content = CacheContent { payload: payload@ };
        let cache = RwLock::new(None, Ghost(content));
        CompressedBlock { date, symbol_id, data: Arc::new(payload), cached: Arc::new(cache) }
    }

    /// Builds the block of `records`: lays them out by minute of the day,
    /// the last record of a minute winning, serializes the 1,440 slots and
    /// compresses them. `None` only when the compressor reports an error.
    pub fn new(date: u32, symbol_id: u16, records: &[OHLCV]) -> (built: Option<Self>)
        ensures
            built is Some <==> zstd_compressed(
                encode_slots(day_slots(records@)),
                COMPRESSION_LEVEL,
            ) is Some,
            built matches Some(block) ==> {
                &&& block.date_spec() == date
                &&& block.symbol_spec() == symbol_id
                &&& Some(block.payload()) == zstd_compressed(
                    encode_slots(day_slots(records@)),
                    COMPRESSION_LEVEL,
                )
                &&& block.slots() == Some(day_slots(records@))
            },
    {
        let slots = arrange_day(records);
        let serialized = encode(slots.as_slice());
        proof {
            lemma_day_slots_len(records@);
            lemma_codec_round_trip(slots@);
            crate::codec::lemma_encode_len(slots@);
        }
        match zstd_compress(serialized.as_slice(), COMPRESSION_LEVEL) {
            Some(compressed) => {
                assert(zstd_decompressed(compressed@, BLOCK_BYTES) == Some(serialized@));
                Some(Self::from_payload(date, symbol_id, compressed))
            },
            None => None,
        }
    }

    /// Another handle to the same block: same payload, same cache.
    pub fn share(&self) -> (other: Self)
        ensures
            other == *self,
    {
        proof {
            use_type_invariant(self);
        }
        CompressedBlock {
            date: self.date,
            symbol_id: self.symbol_id,
            data: share_handle(&self.data),
            cached: share_handle(&self.cached),
        }
    }

    /// The bars of the block's day, and whether they came out of the cache.
    /// The first call that finds the cache empty decompresses the payload and
    /// fills the cache; whatever is cached is what the payload stands for.
    pub fn decompress_cached(&self) -> (out: (Result<Vec<OHLCV>, BlockError>, bool))
        ensures
            match out.0 {
                Ok(day) => self.slots() == Some(day@),
                Err(e) => self.slots() is None && e == BlockError::Corrupt && !out.1,
            },
    {
        proof {
            use_type_invariant(self);
        }
        let reader = self.cached.acquire_read();
        let hit = match reader.borrow() {
            Some(day) => Some(copy_bars(day)),
            None => None,
        };
        reader.release_read();
        if let Some(day) = hit {
            return (Ok(day), true);
        }
        let bytes = match zstd_decompress(self.data.as_slice(), BLOCK_BYTES) {
            Some(bytes) => bytes,
            None => {
                return (Err(BlockError::Corrupt), false);
            },
        };
        let day = match decode(bytes.as_slice()) {
            Some(day) => day,
            None => {
                return (Err(BlockError::Corrupt), false);
            },
        };
        let (present, writer) = self.cached.acquire_write();
        match present {
            Some(first) => {
                let kept = copy_bars(&first);
                writer.release_write(Some(first));
                (Ok(kept), true)
            },
            None => {
                let kept = copy_bars(&day);
                writer.release_write(Some(day));
                (Ok(kept), false)
            },
        }
    }

    /// The bars of the block's day, one per minute slot; an empty slot holds
    /// the empty bar. Fails exactly when the block is corrupt.
    pub fn decompress(&self) -> (out: Result<Vec<OHLCV>, BlockError>)
        ensures
            match out {
                Ok(day) => self.slots() == Some(day@),
                Err(e) => self.slots() is None && e == BlockError::Corrupt,
            },
    {
        self.decompress_cached().0
    }
}

/// Two decompressions of one block give equal days, slot by slot.
pub proof fn lemma_decompress_coherent(block: CompressedBlock, first: Seq<OHLCV>, second: Seq<OHLCV>)
    requires
        block.slots() == Some(first),
        block.slots() == Some(second),
    ensures
        first == second,
        forall|i: int| 0 <= i < first.len() ==> first[i] == second[i],
{
}

} // verus!
