//! The store: the symbol registry, the block index and the counters, with
//! the feed on one side and range queries on the other.

use vstd::prelude::*;
use vstd::utf8::encode_utf8;
use crate::block::{
    day_slots, lemma_day_slots_len, lemma_slot_holds_own_minute, zstd_compressed,
    CompressedBlock, COMPRESSION_LEVEL,
};
use crate::calendar::{day_key_of, on_day, ts_to_date};
use crate::codec::encode_slots;
use crate::cursor::{corrupt_from, lemma_snapshot_yields_range, snapshot_of, RangeCursor};
use crate::index::BlockIndex;
use crate::parse::{line_day_key, parse_day_key, parse_line_bytes, parsed_line};
use crate::range::{
    ascending, block_holds_day, index_in_order, lemma_gather_yields_stored,
    lemma_query_ascending, lemma_query_complete, range_bars, stored_at,
};
use crate::stats::{capped_sum, StatsSnapshot, StoreStats};
use crate::symbols::SymbolRegistry;
use crate::types::OHLCV;

verus! {

/// Why the store refused a call.
#[derive(Copy, Clone, Debug, PartialEq, Eq, Structural)]
pub enum StoreError {
    /// The feed was closed: the store is draining or stopped.
    QueueClosed,
    /// The store is stopped.
    Stopped,
    /// All 65,536 symbol handles are taken.
    TooManySymbols,
}

/// Where the store is in its life. It only ever moves forward.
#[derive(Copy, Clone, Debug, PartialEq, Eq, Structural)]
pub enum Lifecycle {
    /// Taking feeds and queries.
    Running,
    /// The feed is closed; what was handed over is still being compressed.
    Draining,
    /// Nothing runs any more.
    Stopped,
}

impl Lifecycle {
    /// How far along a state is.
    pub open spec fn rank(self) -> int {
        match self {
            Lifecycle::Running => 0,
            Lifecycle::Draining => 1,
            Lifecycle::Stopped => 2,
        }
    }

    /// Whether a feed may be ingested: only while running.
    pub fn accepts_ingest(&self) -> (yes: bool)
        ensures
            yes == (*self == Lifecycle::Running),
    {
        matches!(self, Lifecycle::Running)
    }

    /// Whether queries are answered: while running and while draining.
    pub fn accepts_queries(&self) -> (yes: bool)
        ensures
            yes == (*self != Lifecycle::Stopped),
    {
        !matches!(self, Lifecycle::Stopped)
    }

    /// The state after the feed is closed: a running store drains, any other
    /// stays as it is.
    pub fn after_close(self) -> (next: Lifecycle)
        ensures
            next == if self == Lifecycle::Running {
                Lifecycle::Draining
            } else {
                self
            },
            next.rank() >= self.rank(),
    {
        match self {
            Lifecycle::Running => Lifecycle::Draining,
            other => other,
        }
    }

    /// The state after the compressor has ended: stopped.
    pub fn after_join(self) -> (next: Lifecycle)
        ensures
            next == Lifecycle::Stopped,
            next.rank() >= self.rank(),
    {
        Lifecycle::Stopped
    }
}

/// A bar of `symbol_id` whose timestamp lies on the day `day`.
pub open spec fn record_on_day(bar: OHLCV, symbol_id: u16, day: u32) -> bool {
    on_day(bar.ts, day) && bar.symbol_id == symbol_id
}

/// A bar of `symbol_id` whose day key is `day`.
pub open spec fn belongs_to(bar: OHLCV, symbol_id: u16, day: u32) -> bool {
    day_key_of(bar.ts) == day && bar.symbol_id == symbol_id
}

/// The records of one symbol and one day, on their way to the compressor.
/// Every record in it belongs to that symbol and lies on that day.
pub struct DayBatch {
    day: u32,
    symbol_id: u16,
    records: Vec<OHLCV>,
}

impl DayBatch {
    #[verifier::type_invariant]
    spec fn records_on_day(self) -> bool {
        forall|i: int|
            0 <= i < self.records@.len() ==> record_on_day(
                #[trigger] self.records@[i],
                self.symbol_id,
                self.day,
            )
    }

    /// The day key of the batch.
    pub closed spec fn day_spec(self) -> u32 {
        self.day
    }

    /// The symbol of the batch.
    pub closed spec fn symbol_spec(self) -> u16 {
        self.symbol_id
    }

    /// The records of the batch, in the order in which they came.
    pub closed spec fn records_spec(self) -> Seq<OHLCV> {
        self.records@
    }

    /// A batch of `records` for `symbol_id` and `day`; `None` unless every
    /// record belongs to that symbol and has that day key.
    pub fn new(day: u32, symbol_id: u16, records: Vec<OHLCV>) -> (batch: Option<Self>)
        ensures
            batch is Some <==> forall|i: int|
                0 <= i < records@.len() ==> belongs_to(#[trigger] records@[i], symbol_id, day),
            batch matches Some(b) ==> b.day_spec() == day && b.symbol_spec() == symbol_id
                && b.records_spec() == records@,
    {
        let mut i: usize = 0;
        while i < records.len()
            invariant
                i <= records.len(),
                forall|k: int|
                    0 <= k < i ==> record_on_day(#[trigger] records@[k], symbol_id, day),
            decreases records.len() - i,
        {
            let bar = records[i];
            if bar.symbol_id != symbol_id || ts_to_date(bar.ts) != day {
                assert(!belongs_to(records@[i as int], symbol_id, day));
                return None;
            }
            i = i + 1;
        }
        Some(DayBatch { day, symbol_id, records })
    }

    /// The day key of the batch.
    pub fn day(&self) -> (day: u32)
        ensures
            day == self.day_spec(),
    {
        self.day
    }

    /// The symbol of the batch.
    pub fn symbol_id(&self) -> (id: u16)
        ensures
            id == self.symbol_spec(),
    {
        self.symbol_id
    }

    /// The records of the batch.
    pub fn records(&self) -> (records: &Vec<OHLCV>)
        ensures
            records@ == self.records_spec(),
    {
        &self.records
    }
}

/// The bytes of a line of text.
pub open spec fn text_bytes(text: Seq<char>) -> Seq<u8> {
    encode_utf8(text)
}

/// The lines of a feed after its header line, as bytes.
pub open spec fn feed_body(lines: Seq<String>) -> Seq<Seq<u8>> {
    if lines.len() == 0 {
        Seq::empty()
    } else {
        Seq::new((lines.len() - 1) as nat, |i: int| text_bytes(lines[i + 1]@))
    }
}

/// The bar that a line adds to the day `day` of `symbol_id`: the line must
/// open with that day key and hold a bar whose timestamp lies on that day.
pub open spec fn accepted_bar(line: Seq<u8>, symbol_id: u16, day: u32) -> Option<OHLCV> {
    if line_day_key(line) == Some(day) {
        match parsed_line(line, symbol_id) {
            Ok(bar) => if day_key_of(bar.ts) == day {
                Some(bar)
            } else {
                None
            },
            Err(_) => None,
        }
    } else {
        None
    }
}

/// The bars that the lines of a feed add to the day `day` of `symbol_id`, in
/// the order of the lines.
pub open spec fn day_records(lines: Seq<Seq<u8>>, symbol_id: u16, day: u32) -> Seq<OHLCV>
    decreases lines.len(),
{
    if lines.len() == 0 {
        Seq::empty()
    } else {
        match accepted_bar(lines.last(), symbol_id, day) {
            Some(bar) => day_records(lines.drop_last(), symbol_id, day).push(bar),
            None => day_records(lines.drop_last(), symbol_id, day),
        }
    }
}

/// Whether some line opens with the day key `day`.
pub open spec fn names_day(lines: Seq<Seq<u8>>, day: u32) -> bool {
    exists|j: int| 0 <= j < lines.len() && line_day_key(#[trigger] lines[j]) == Some(day)
}

/// The batches that the body of a feed makes for `symbol_id`: one for every
/// day key that opens a line, none twice, each with the bars of its lines.
pub open spec fn batches_of_feed(batches: Seq<DayBatch>, body: Seq<Seq<u8>>, symbol_id: u16) -> bool {
    &&& forall|i: int|
        0 <= i < batches.len() ==> {
            &&& (#[trigger] batches[i]).symbol_spec() == symbol_id
            &&& batches[i].records_spec() == day_records(body, symbol_id, batches[i].day_spec())
            &&& names_day(body, batches[i].day_spec())
        }
    &&& forall|i: int, j: int|
        0 <= i < j < batches.len() ==> batches[i].day_spec() != batches[j].day_spec()
    &&& forall|j: int|
        0 <= j < body.len() && line_day_key(#[trigger] body[j]) is Some ==> exists|i: int|
            0 <= i < batches.len() && batches[i].day_spec() == line_day_key(body[j])->0
}

/// What one line of a feed gave: its day key, and its bar where it has one
/// that lies on that day.
struct LineOutcome {
    key: Option<u32>,
    bar: Option<OHLCV>,
}

/// Whether `days` holds `day`.
fn holds_day(days: &Vec<u32>, day: u32) -> (found: bool)
    ensures
        found == days@.contains(day),
{
    let mut i: usize = 0;
    while i < days.len()
        invariant
            i <= days.len(),
            forall|k: int| 0 <= k < i ==> days@[k] != day,
        decreases days.len() - i,
    {
        if days[i] == day {
            return true;
        }
        i = i + 1;
    }
    false
}

/// What a line gave, as its outcome records it.
spec fn outcome_of(outcome: LineOutcome, line: Seq<u8>, symbol_id: u16) -> bool {
    &&& outcome.key == line_day_key(line)
    &&& outcome.bar == match outcome.key {
        Some(day) => accepted_bar(line, symbol_id, day),
        None => None,
    }
    &&& outcome.bar matches Some(bar) ==> record_on_day(bar, symbol_id, outcome.key->0)
}

/// Reads one line of a feed.
fn read_line(line: &[u8], symbol_id: u16) -> (outcome: LineOutcome)
    ensures
        outcome_of(outcome, line@, symbol_id),
{
    let key = parse_day_key(line);
    let bar = match key {
        Some(day) => match parse_line_bytes(line, symbol_id) {
            Ok(bar) => if ts_to_date(bar.ts) == day {
                Some(bar)
            } else {
                None
            },
            Err(_) => None,
        },
        None => None,
    };
    LineOutcome { key, bar }
}

/// Groups the body of a feed into one batch for every day.
pub fn group_by_day(lines: &Vec<String>, symbol_id: u16) -> (batches: Vec<DayBatch>)
    ensures
        batches_of_feed(batches@, feed_body(lines@), symbol_id),
{
    let ghost body = feed_body(lines@);
    let mut outcomes: Vec<LineOutcome> = Vec::new();
    let mut i: usize = 1;
    while i < lines.len()
        invariant
            1 <= i,
            body == feed_body(lines@),
            i <= lines.len() ==> outcomes@.len() == i - 1,
            i > lines.len() ==> outcomes@.len() == 0 && lines.len() == 0,
            forall|j: int|
                0 <= j < outcomes@.len() ==> outcome_of(#[trigger] outcomes@[j], body[j], symbol_id),
        decreases lines.len() - i,
    {
        let outcome = read_line(lines[i].as_str().as_bytes(), symbol_id);
        assert(body[i - 1] == text_bytes(lines@[i as int]@));
        outcomes.push(outcome);
        i = i + 1;
    }
    assert(outcomes@.len() == body.len());
    let mut days: Vec<u32> = Vec::new();
    let mut j: usize = 0;
    while j < outcomes.len()
        invariant
            j <= outcomes.len(),
            outcomes@.len() == body.len(),
            forall|k: int|
                0 <= k < outcomes@.len() ==> outcome_of(#[trigger] outcomes@[k], body[k], symbol_id),
            forall|a: int, b: int| 0 <= a < b < days@.len() ==> days@[a] != days@[b],
            forall|a: int| 0 <= a < days@.len() ==> names_day(body, #[trigger] days@[a]),
            forall|k: int|
                0 <= k < j && line_day_key(#[trigger] body[k]) is Some ==> days@.contains(
                    line_day_key(body[k])->0,
                ),
        decreases outcomes.len() - j,
    {
        let ghost before = days@;
        if let Some(day) = outcomes[j].key {
            if !holds_day(&days, day) {
                days.push(day);
                assert(line_day_key(body[j as int]) == Some(day));
                assert(days@[days@.len() - 1] == day);
            }
        }
        proof {
            assert forall|k: int|
                0 <= k < j + 1 && line_day_key(#[trigger] body[k]) is Some implies days@.contains(
                line_day_key(body[k])->0,
            ) by {
                let d = line_day_key(body[k])->0;
                if k < j {
                    let m = choose|m: int| 0 <= m < before.len() && before[m] == d;
                    assert(days@[m] == d);
                } else {
                    assert(outcome_of(outcomes@[k], body[k], symbol_id));
                }
            }
            assert forall|a: int| 0 <= a < days@.len() implies names_day(body, #[trigger] days@[a]) by {
                if a < before.len() {
                    assert(days@[a] == before[a]);
                }
            }
        }
        j = j + 1;
    }
    let mut batches: Vec<DayBatch> = Vec::new();
    let mut d: usize = 0;
    while d < days.len()
        invariant
            d <= days.len(),
            batches@.len() == d,
            outcomes@.len() == body.len(),
            forall|k: int|
                0 <= k < outcomes@.len() ==> outcome_of(#[trigger] outcomes@[k], body[k], symbol_id),
            forall|a: int, b: int| 0 <= a < b < days@.len() ==> days@[a] != days@[b],
            forall|a: int| 0 <= a < days@.len() ==> names_day(body, #[trigger] days@[a]),
            forall|k: int|
                0 <= k < body.len() && line_day_key(#[trigger] body[k]) is Some ==> days@.contains(
                    line_day_key(body[k])->0,
                ),
            forall|a: int|
                0 <= a < d ==> {
                    &&& (#[trigger] batches@[a]).day_spec() == days@[a]
                    &&& batches@[a].symbol_spec() == symbol_id
                    &&& batches@[a].records_spec() == day_records(body, symbol_id, days@[a])
                },
        decreases days.len() - d,
    {
        let day = days[d];
        let mut records: Vec<OHLCV> = Vec::new();
        let mut k: usize = 0;
        assert(body.take(0) =~= Seq::<Seq<u8>>::empty());
        while k < outcomes.len()
            invariant
                k <= outcomes.len(),
                outcomes@.len() == body.len(),
                forall|m: int|
                    0 <= m < outcomes@.len() ==> outcome_of(
                        #[trigger] outcomes@[m],
                        body[m],
                        symbol_id,
                    ),
                records@ == day_records(body.take(k as int), symbol_id, day),
                forall|m: int|
                    0 <= m < records@.len() ==> record_on_day(#[trigger] records@[m], symbol_id, day),
            decreases outcomes.len() - k,
        {
            proof {
                assert(body.take(k as int + 1).drop_last() =~= body.take(k as int));
                assert(body.take(k as int + 1).last() == body[k as int]);
                assert(outcome_of(outcomes@[k as int], body[k as int], symbol_id));
            }
            match (outcomes[k].key, outcomes[k].bar) {
                (Some(key), Some(bar)) => {
                    if key == day {
                        records.push(bar);
                    }
                },
                _ => {},
            }
            k = k + 1;
        }
        assert(body.take(k as int) =~= body);
        batches.push(DayBatch { day, symbol_id, records });
        d = d + 1;
    }
    proof {
        assert forall|m: int|
            0 <= m < body.len() && line_day_key(#[trigger] body[m]) is Some implies exists|a: int|
            0 <= a < batches@.len() && batches@[a].day_spec() == line_day_key(body[m])->0 by {
            let key = line_day_key(body[m])->0;
            let a = choose|a: int| 0 <= a < days@.len() && days@[a] == key;
            assert(batches@[a].day_spec() == key);
        }
    }
    batches
}

/// The store. It has one owner at a time; those who share it between
/// threads put it behind a lock. Cursors and blocks that it hands out stay
/// valid on their own.
pub struct FxStore {
    blocks: BlockIndex,
    symbols: SymbolRegistry,
    stats: StoreStats,
    state: Lifecycle,
}

impl FxStore {
    /// The blocks of the store by symbol and day.
    pub closed spec fn index(self) -> Map<(u16, u32), CompressedBlock> {
        self.blocks.blocks()
    }

    /// The symbol registry of the store.
    pub closed spec fn registry(self) -> SymbolRegistry {
        self.symbols
    }

    /// Where the store is in its life.
    pub closed spec fn lifecycle(self) -> Lifecycle {
        self.state
    }

    /// The records that the store has compressed into blocks, counted up to
    /// `u64::MAX`.
    pub closed spec fn records_counted(self) -> u64 {
        self.stats.records()
    }

    /// The compressed bytes that the store has produced, counted up to
    /// `u64::MAX`.
    pub closed spec fn bytes_counted(self) -> u64 {
        self.stats.bytes()
    }

    /// What of the store a call leaves alone when it only reads, or only
    /// touches the registry or the state: the index and the two totals.
    pub open spec fn same_blocks_as(self, other: FxStore) -> bool {
        &&& self.index() == other.index()
        &&& self.records_counted() == other.records_counted()
        &&& self.bytes_counted() == other.bytes_counted()
    }

    /// The store keeps its registry well formed and its index in order:
    /// every block holds the day and the symbol it is stored under.
    pub open spec fn wf(self) -> bool {
        self.registry().wf() && index_in_order(self.index())
    }

    /// An empty store, running.
    pub fn new() -> (store: Self)
        ensures
            store.wf(),
            store.lifecycle() == Lifecycle::Running,
            store.records_counted() == 0,
            store.bytes_counted() == 0,
            store.registry().entries().len() == 0,
            forall|name: Seq<char>| !store.registry().knows(name),
            forall|symbol_id: u16, day: u32| !store.index().contains_key((symbol_id, day)),
    {
        FxStore {
            blocks: BlockIndex::new(),
            symbols: SymbolRegistry::new(),
            stats: StoreStats::new(),
            state: Lifecycle::Running,
        }
    }

    /// Where the store is in its life.
    pub fn state(&self) -> (state: Lifecycle)
        ensures
            state == self.lifecycle(),
    {
        self.state
    }

    /// Closes the feed: a running store starts draining.
    pub fn close_feed(&mut self)
        requires
            old(self).wf(),
        ensures
            final(self).wf(),
            final(self).lifecycle() == if old(self).lifecycle() == Lifecycle::Running {
                Lifecycle::Draining
            } else {
                old(self).lifecycle()
            },
            final(self).same_blocks_as(*old(self)),
            final(self).registry() == old(self).registry(),
    {
        self.state = self.state.after_close();
    }

    /// Stops the store, once its compressor has ended.
    pub fn stop(&mut self)
        requires
            old(self).wf(),
        ensures
            final(self).wf(),
            final(self).lifecycle() == Lifecycle::Stopped,
            final(self).same_blocks_as(*old(self)),
            final(self).registry() == old(self).registry(),
    {
        self.state = self.state.after_join();
    }

    /// One reading of the counters: the two totals as they are, and the
    /// cache hits counted up to some moment of the call.
    pub fn stats(&self) -> (snapshot: StatsSnapshot)
        ensures
            snapshot.total_records == self.records_counted(),
            snapshot.compressed_bytes == self.bytes_counted(),
    {
        self.stats.snapshot()
    }

    /// Whether `symbol` can be given a handle: it has one, or one is left.
    pub fn can_intern(&self, symbol: &str) -> (room: bool)
        ensures
            room == self.registry().has_room_for(symbol@),
    {
        self.symbols.can_intern(symbol)
    }

    /// The handle of `symbol`, which is created if the name is new: a name
    /// seen before keeps its handle.
    pub fn get_or_create_symbol(&mut self, symbol: &str) -> (id: u16)
        requires
            old(self).wf(),
            old(self).registry().has_room_for(symbol@),
        ensures
            final(self).wf(),
            final(self).registry().knows(symbol@),
            id == final(self).registry().id_of(symbol@),
            old(self).registry().knows(symbol@) ==> id == old(self).registry().id_of(symbol@)
                && final(self).registry().entries() == old(self).registry().entries(),
            !old(self).registry().knows(symbol@) ==> id == old(self).registry().entries().len(),
            final(self).registry().entries().len() == old(self).registry().entries().len() + if old(
                self,
            ).registry().knows(symbol@) {
                0nat
            } else {
                1nat
            },
            forall|other: Seq<char>|
                old(self).registry().knows(other) ==> #[trigger] final(self).registry().knows(other)
                    && final(self).registry().id_of(other) == old(self).registry().id_of(other),
            final(self).same_blocks_as(*old(self)),
            final(self).lifecycle() == old(self).lifecycle(),
    {
        self.symbols.intern(symbol)
    }

    /// The handle of `symbol`, if it has one.
    pub fn resolve(&self, symbol: &str) -> (id: Option<u16>)
        ensures
            id is Some <==> self.registry().knows(symbol@),
            id matches Some(found) ==> found == self.registry().id_of(symbol@),
    {
        self.symbols.resolve(symbol)
    }

    /// The names of all symbols, each once, in no stated order.
    pub fn get_symbols(&self) -> (names: Vec<String>)
        ensures
            forall|i: int| 0 <= i < names@.len() ==> self.registry().knows(#[trigger] names@[i]@),
            forall|i: int, j: int| 0 <= i < j < names@.len() ==> names@[i]@ != names@[j]@,
            forall|name: Seq<char>| #[trigger]
                self.registry().knows(name) ==> exists|i: int|
                    0 <= i < names@.len() && names@[i]@ == name,
    {
        self.symbols.list()
    }

    /// Takes a feed in: gives `symbol` its handle, skips the header line,
    /// and groups the other lines by the day key they open with. A line
    /// without a day key is dropped; a line that holds no bar, or a bar of
    /// another day, adds nothing to its day. The batches are for the
    /// compressor. Refused unless the store is running.
    pub fn ingest_lines(&mut self, lines: &Vec<String>, symbol: &str) -> (out: Result<
        Vec<DayBatch>,
        StoreError,
    >)
        requires
            old(self).wf(),
        ensures
            final(self).wf(),
            final(self).same_blocks_as(*old(self)),
            final(self).lifecycle() == old(self).lifecycle(),
            match out {
                Ok(batches) => {
                    &&& old(self).lifecycle() == Lifecycle::Running
                    &&& old(self).registry().has_room_for(symbol@)
                    &&& final(self).registry().knows(symbol@)
                    &&& batches_of_feed(
                        batches@,
                        feed_body(lines@),
                        final(self).registry().id_of(symbol@),
                    )
                },
                Err(e) => {
                    &&& final(self).registry() == old(self).registry()
                    &&& e == if old(self).lifecycle() != Lifecycle::Running {
                        StoreError::QueueClosed
                    } else {
                        StoreError::TooManySymbols
                    }
                    &&& (old(self).lifecycle() != Lifecycle::Running || !old(
                        self,
                    ).registry().has_room_for(symbol@))
                },
            },
            forall|other: Seq<char>|
                old(self).registry().knows(other) ==> #[trigger] final(self).registry().knows(other)
                    && final(self).registry().id_of(other) == old(self).registry().id_of(other),
    {
        if !self.state.accepts_ingest() {
            return Err(StoreError::QueueClosed);
        }
        if !self.symbols.can_intern(symbol) {
            return Err(StoreError::TooManySymbols);
        }
        let id = self.symbols.intern(symbol);
        Ok(group_by_day(lines, id))
    }

    /// Compresses a batch into its day block and puts the block into the
    /// index, in place of any block of that symbol and day. Returns whether
    /// it did; it does not only where the compressor reports an error, and
    /// then the store stays as it was.
    pub fn install_day(&mut self, batch: &DayBatch) -> (installed: bool)
        requires
            old(self).wf(),
        ensures
            final(self).wf(),
            final(self).registry() == old(self).registry(),
            final(self).lifecycle() == old(self).lifecycle(),
            installed <==> zstd_compressed(
                encode_slots(day_slots(batch.records_spec())),
                COMPRESSION_LEVEL,
            ) is Some,
            !installed ==> final(self).same_blocks_as(*old(self)),
            installed ==> {
                &&& final(self).records_counted() == capped_sum(
                    old(self).records_counted(),
                    batch.records_spec().len() as u64,
                )
                &&& final(self).bytes_counted() == capped_sum(
                    old(self).bytes_counted(),
                    final(self).index()[(batch.symbol_spec(), batch.day_spec())].payload().len() as u64,
                )
                &&& final(self).index().dom() == old(self).index().dom().insert(
                    (batch.symbol_spec(), batch.day_spec()),
                )
                &&& final(self).index()[(batch.symbol_spec(), batch.day_spec())].slots() == Some(
                    day_slots(batch.records_spec()),
                )
                &&& forall|key: (u16, u32)|
                    key != (batch.symbol_spec(), batch.day_spec()) && old(
                        self,
                    ).index().contains_key(key) ==> #[trigger] final(self).index()[key] == old(
                        self,
                    ).index()[key]
            },
    {
        proof {
            use_type_invariant(batch);
        }
        let built = CompressedBlock::new(batch.day, batch.symbol_id, batch.records.as_slice());
        match built {
            Some(block) => {
                let records = batch.records.len();
                let bytes = block.compressed_len();
                self.stats.count_block(records as u64, bytes as u64);
                proof {
                    let slots = day_slots(batch.records@);
                    lemma_day_slots_len(batch.records@);
                    assert forall|i: int|
                        0 <= i < slots.len() && (#[trigger] slots[i]).ts != 0 implies {
                        &&& crate::block::minute_index(slots[i].ts) == i
                        &&& on_day(slots[i].ts, batch.day)
                        &&& slots[i].symbol_id == batch.symbol_id
                    } by {
                        lemma_slot_holds_own_minute(batch.records@, i);
                        let m = choose|m: int|
                            0 <= m < batch.records@.len() && batch.records@[m] == slots[i];
                        assert(record_on_day(batch.records@[m], batch.symbol_id, batch.day));
                    }
                    assert(block_holds_day(block, batch.symbol_id, batch.day));
                }
                let ghost before = self.blocks.blocks();
                self.blocks.install(batch.symbol_id, batch.day, block);
                proof {
                    let after = self.blocks.blocks();
                    assert(after.dom() =~= before.dom().insert((batch.symbol_id, batch.day)));
                    assert forall|symbol_id: u16, day: u32| #[trigger]
                        after.contains_key((symbol_id, day)) implies block_holds_day(
                        after[(symbol_id, day)],
                        symbol_id,
                        day,
                    ) by {
                        if (symbol_id, day) != (batch.symbol_id, batch.day) {
                            assert(before.contains_key((symbol_id, day)));
                        }
                    }
                }
                true
            },
            None => false,
        }
    }

    /// Opens a range query: takes a snapshot of the blocks of `symbol` for
    /// the days from the day of `start_ts` to the day of `end_ts` and hands
    /// out a cursor before the first of them. Nothing is decompressed yet.
    /// The cursor yields what [`FxStore::query_range`] returns, a day at a
    /// time; a symbol without a handle gives a cursor over nothing. Refused
    /// only by a stopped store.
    pub fn open_range(&self, symbol: &str, start_ts: u64, end_ts: u64) -> (out: Result<
        RangeCursor,
        StoreError,
    >)
        requires
            self.wf(),
        ensures
            out is Ok <==> self.lifecycle() != Lifecycle::Stopped,
            out matches Err(e) ==> e == StoreError::Stopped,
            out matches Ok(cursor) ==> {
                &&& cursor.position() == 0
                &&& !cursor.failed()
                &&& cursor.start_ts() == start_ts
                &&& cursor.end_ts() == end_ts
                &&& !corrupt_from(cursor.snapshot(), 0)
                &&& cursor.pending() == self.bars_in_range(symbol@, start_ts, end_ts)
                &&& if self.registry().knows(symbol@) {
                    snapshot_of(
                        cursor.snapshot(),
                        self.index(),
                        self.registry().id_of(symbol@),
                        day_key_of(start_ts),
                        day_key_of(end_ts),
                    )
                } else {
                    cursor.snapshot().len() == 0
                }
            },
    {
        if !self.state.accepts_queries() {
            return Err(StoreError::Stopped);
        }
        let id = match self.symbols.resolve(symbol) {
            Some(id) => id,
            None => {
                let cursor = RangeCursor::new(
                    Vec::new(),
                    start_ts,
                    end_ts,
                    self.stats.cache_hits(),
                );
                return Ok(cursor);
            },
        };
        let start_day = ts_to_date(start_ts);
        let end_day = ts_to_date(end_ts);
        let snapshot = self.blocks.range(id, start_day, end_day);
        proof {
            let blocks = self.blocks.blocks();
            lemma_snapshot_yields_range(
                snapshot@,
                blocks,
                id,
                start_day,
                end_day,
                start_ts,
                end_ts,
            );
            if corrupt_from(snapshot@, 0) {
                let day = choose|day: u32|
                    start_day <= day <= end_day && #[trigger] blocks.contains_key((id, day))
                        && blocks[(id, day)].slots() is None;
                assert(block_holds_day(blocks[(id, day)], id, day));
            }
        }
        Ok(RangeCursor::new(snapshot, start_ts, end_ts, self.stats.cache_hits()))
    }

    /// The bars of `symbol` that the store holds with a timestamp in
    /// `[start, end]`: none for a symbol without a handle.
    pub open spec fn bars_in_range(self, symbol: Seq<char>, start: u64, end: u64) -> Seq<OHLCV> {
        if self.registry().knows(symbol) {
            range_bars(self.index(), self.registry().id_of(symbol), start, end)
        } else {
            Seq::empty()
        }
    }

    /// The bars of `symbol` with a timestamp in `[start_ts, end_ts]`, both
    /// ends included: from the block of every day from the day of `start_ts`
    /// to the day of `end_ts`, day after day and within a day minute after
    /// minute. Empty slots are left out. A symbol without a handle has no
    /// bars. The bars come in strictly ascending time, and every bar that
    /// the store holds for the symbol within the range is among them.
    /// Refused only by a stopped store.
    pub fn query_range(&self, symbol: &str, start_ts: u64, end_ts: u64) -> (out: Result<
        Vec<OHLCV>,
        StoreError,
    >)
        requires
            self.wf(),
        ensures
            out is Ok <==> self.lifecycle() != Lifecycle::Stopped,
            out matches Err(e) ==> e == StoreError::Stopped,
            out matches Ok(bars) ==> {
                &&& bars@ == self.bars_in_range(symbol@, start_ts, end_ts)
                &&& ascending(bars@)
                &&& forall|k: int|
                    0 <= k < bars@.len() ==> (#[trigger] bars@[k]).ts != 0 && start_ts
                        <= bars@[k].ts <= end_ts
                &&& forall|day: u32, slot: int, bar: OHLCV|
                    self.registry().knows(symbol@) && #[trigger] stored_at(
                        self.index(),
                        self.registry().id_of(symbol@),
                        day,
                        slot,
                        bar,
                    ) && start_ts <= bar.ts <= end_ts ==> bars@.contains(bar)
            },
    {
        let mut cursor = match self.open_range(symbol, start_ts, end_ts) {
            Ok(cursor) => cursor,
            Err(e) => {
                return Err(e);
            },
        };
        proof {
            if self.registry().knows(symbol@) {
                let id = self.registry().id_of(symbol@);
                let blocks = self.index();
                lemma_query_ascending(blocks, id, start_ts, end_ts);
                let bars = range_bars(blocks, id, start_ts, end_ts);
                assert forall|k: int| 0 <= k < bars.len() implies (#[trigger] bars[k]).ts != 0
                    && start_ts <= bars[k].ts <= end_ts by {
                    lemma_gather_yields_stored(
                        blocks,
                        id,
                        day_key_of(start_ts),
                        day_key_of(end_ts) as int,
                        start_ts,
                        end_ts,
                        k,
                    );
                }
                assert forall|day: u32, slot: int, bar: OHLCV| #[trigger]
                    stored_at(blocks, id, day, slot, bar) && start_ts <= bar.ts
                        <= end_ts implies bars.contains(bar) by {
                    lemma_query_complete(blocks, id, start_ts, end_ts, day, slot, bar);
                }
            }
        }
        // No block of the store is corrupt, so the cursor drains to the end.
        match cursor.drain() {
            Ok(bars) => Ok(bars),
            Err(_) => Ok(Vec::new()),
        }
    }
}

} // verus!
