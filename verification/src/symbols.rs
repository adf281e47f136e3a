//! The symbol registry: names to small stable handles.

use vstd::prelude::*;
use vstd::string::StrSliceExecFns;
use dashmap::DashMap;
use crate::types::Symbol;

verus! {

/// Most symbols that 16-bit handles can tell apart.
pub const MAX_SYMBOLS: usize = 65536;

/// What a `DashMap` of symbols holds: its entries, by the text of the key.
pub uninterp spec fn symbol_table(m: DashMap<String, Symbol>) -> Map<Seq<char>, Symbol>;

/// A table without entries.
pub open spec fn no_symbols() -> Map<Seq<char>, Symbol> {
    Map::empty()
}

/// Calls `DashMap::new`: a map without entries.
#[verifier::external_body]
fn table_new() -> (table: DashMap<String, Symbol>)
    ensures
        symbol_table(table) == no_symbols(),
{
    DashMap::new()
}

/// Calls `DashMap::get` and copies the entry found: the symbol stored under
/// `name`, or `None` where the map has no such key.
#[verifier::external_body]
fn table_get(table: &DashMap<String, Symbol>, name: &str) -> (symbol: Option<Symbol>)
    ensures
        symbol is Some <==> symbol_table(*table).contains_key(name@),
        symbol matches Some(found) ==> found == symbol_table(*table)[name@],
{
    table.get(name).map(|entry| entry.value().copy())
}

/// A table of `count` entries, a finite number.
pub open spec fn counts(entries: Map<Seq<char>, Symbol>, count: usize) -> bool {
    entries.dom().finite() && count == entries.len()
}

/// Calls `DashMap::len`: the number of entries, which is finite.
#[verifier::external_body]
fn table_len(table: &DashMap<String, Symbol>) -> (count: usize)
    ensures
        counts(symbol_table(*table), count),
{
    table.len()
}

/// Calls `DashMap::insert`: afterwards the map holds `symbol` under `name`
/// and is otherwise as before.
#[verifier::external_body]
fn table_insert(table: &mut DashMap<String, Symbol>, name: String, symbol: Symbol)
    ensures
        symbol_table(*final(table)) == symbol_table(*old(table)).insert(name@, symbol),
{
    table.insert(name, symbol);
}

/// Calls `DashMap::iter` and copies every key out: each key of the map once,
/// in no stated order.
#[verifier::external_body]
fn table_names(table: &DashMap<String, Symbol>) -> (names: Vec<String>)
    ensures
        forall|i: int| 0 <= i < names@.len() ==> symbol_table(*table).contains_key(#[trigger] names@[i]@),
        forall|i: int, j: int| 0 <= i < j < names@.len() ==> names@[i]@ != names@[j]@,
        forall|name: Seq<char>| #[trigger] symbol_table(*table).contains_key(name) ==> exists|i: int| 0 <= i < names@.len() && names@[i]@ == name,
{
    table.iter().map(|entry| entry.key().clone()).collect()
}

/// The character `/`.
pub open spec fn slash() -> char {
    '/'
}

/// How often `/` stands in `name`.
pub open spec fn slash_count(name: Seq<char>) -> nat
    decreases name.len(),
{
    if name.len() == 0 {
        0
    } else {
        slash_count(name.drop_last()) + if name.last() == slash() {
            1nat
        } else {
            0nat
        }
    }
}

/// Where the first `/` stands in `name`; the length of `name` if nowhere.
pub open spec fn first_slash(name: Seq<char>) -> int
    decreases name.len(),
{
    if name.len() == 0 {
        0
    } else if name[0] == slash() {
        0
    } else {
        1 + first_slash(name.skip(1))
    }
}

/// Where a name without a single `/` is cut: after three characters, or at
/// its end where it is shorter.
pub open spec fn offset_cut(name: Seq<char>) -> int {
    if name.len() < 3 {
        name.len() as int
    } else {
        3
    }
}

/// The base of a name: what stands before its one `/`; without exactly one
/// `/`, its first three characters.
pub open spec fn base_of(name: Seq<char>) -> Seq<char> {
    if slash_count(name) == 1 {
        name.take(first_slash(name))
    } else {
        name.take(offset_cut(name))
    }
}

/// The quote of a name: what stands after its one `/`; without exactly one
/// `/`, what follows its first three characters.
pub open spec fn quote_of(name: Seq<char>) -> Seq<char> {
    if slash_count(name) == 1 {
        name.skip(first_slash(name) + 1)
    } else {
        name.skip(offset_cut(name))
    }
}

/// `first_slash` is the first place where `/` stands.
pub proof fn lemma_first_slash(name: Seq<char>, at: int)
    requires
        0 <= at <= name.len(),
        forall|j: int| 0 <= j < at ==> name[j] != slash(),
        at == name.len() || name[at] == slash(),
    ensures
        first_slash(name) == at,
    decreases at,
{
    if at > 0 {
        lemma_first_slash(name.skip(1), at - 1);
    }
}

/// Cuts `name` into base and quote.
pub fn split_symbol(name: &str) -> (parts: (String, String))
    ensures
        parts.0@ == base_of(name@),
        parts.1@ == quote_of(name@),
{
    let n = name.unicode_len();
    let mut count: usize = 0;
    let mut first: usize = n;
    let mut i: usize = 0;
    assert(name@.take(0) =~= Seq::<char>::empty());
    while i < n
        invariant
            i <= n,
            n == name@.len(),
            count == slash_count(name@.take(i as int)),
            count <= i,
            count == 0 ==> first == n,
            count > 0 ==> first < i && name@[first as int] == slash(),
            forall|j: int| 0 <= j < i && j < first ==> name@[j] != slash(),
        decreases n - i,
    {
        let c = name.get_char(i);
        proof {
            assert(name@.take(i as int + 1).drop_last() =~= name@.take(i as int));
            assert(name@.take(i as int + 1).last() == c);
        }
        if c == '/' {
            if count == 0 {
                first = i;
            }
            count = count + 1;
        }
        i = i + 1;
    }
    proof {
        assert(name@.take(n as int) =~= name@);
        lemma_first_slash(name@, first as int);
    }
    if count == 1 {
        let base = name.substring_char(0, first);
        let quote = name.substring_char(first + 1, n);
        assert(base@ =~= name@.take(first as int));
        assert(quote@ =~= name@.skip(first as int + 1));
        (base.to_owned(), quote.to_owned())
    } else {
        let cut: usize = if n < 3 {
            n
        } else {
            3
        };
        let base = name.substring_char(0, cut);
        let quote = name.substring_char(cut, n);
        assert(base@ =~= name@.take(cut as int));
        assert(quote@ =~= name@.skip(cut as int));
        (base.to_owned(), quote.to_owned())
    }
}

/// The registry of symbols. A name gets the next handle, counted from zero,
/// when it is first seen, and keeps it.
pub struct SymbolRegistry {
    table: DashMap<String, Symbol>,
}

impl SymbolRegistry {
    /// The entries of the registry by name.
    pub closed spec fn entries(self) -> Map<Seq<char>, Symbol> {
        symbol_table(self.table)
    }

    /// Whether `name` has a handle.
    pub open spec fn knows(self, name: Seq<char>) -> bool {
        self.entries().contains_key(name)
    }

    /// The handle of a known name.
    pub open spec fn id_of(self, name: Seq<char>) -> u16 {
        self.entries()[name].id
    }

    /// Every handle is below the number of symbols, no handle is given
    /// twice, and every entry tells its own name.
    pub open spec fn wf(self) -> bool {
        &&& self.entries().dom().finite()
        &&& self.entries().len() <= MAX_SYMBOLS
        &&& forall|name: Seq<char>| #[trigger]
            self.knows(name) ==> self.id_of(name) < self.entries().len() && self.entries()[name].name@
                == name
        &&& forall|a: Seq<char>, b: Seq<char>|
            self.knows(a) && self.knows(b) && a != b ==> #[trigger] self.id_of(a)
                != #[trigger] self.id_of(b)
    }

    /// Whether `name` can be interned: it is known, or a handle is left.
    pub open spec fn has_room_for(self, name: Seq<char>) -> bool {
        self.knows(name) || self.entries().len() < MAX_SYMBOLS
    }

    /// A registry without symbols.
    pub fn new() -> (registry: Self)
        ensures
            registry.wf(),
            registry.entries() == no_symbols(),
            registry.entries().len() == 0,
    {
        SymbolRegistry { table: table_new() }
    }

    /// How many symbols are known.
    pub fn len(&self) -> (len: usize)
        ensures
            len == self.entries().len(),
    {
        table_len(&self.table)
    }

    /// The entry of `name`, if it has one: its handle, its name, its base
    /// and its quote.
    pub fn lookup(&self, name: &str) -> (symbol: Option<Symbol>)
        ensures
            symbol is Some <==> self.knows(name@),
            symbol matches Some(found) ==> found == self.entries()[name@],
    {
        table_get(&self.table, name)
    }

    /// The handle of `name`, if it has one. Creates nothing.
    pub fn resolve(&self, name: &str) -> (id: Option<u16>)
        ensures
            id is Some <==> self.knows(name@),
            id matches Some(found) ==> found == self.id_of(name@),
    {
        match table_get(&self.table, name) {
            Some(symbol) => Some(symbol.id),
            None => None,
        }
    }

    /// Whether `name` can be interned.
    pub fn can_intern(&self, name: &str) -> (room: bool)
        ensures
            room == self.has_room_for(name@),
    {
        table_get(&self.table, name).is_some() || table_len(&self.table) < MAX_SYMBOLS
    }

    /// The handle of `name`. A name seen before keeps its handle and the
    /// registry stays as it is; a new name gets the number of symbols known
    /// so far, and an entry with its base and quote.
    pub fn intern(&mut self, name: &str) -> (id: u16)
        requires
            old(self).wf(),
            old(self).has_room_for(name@),
        ensures
            final(self).wf(),
            interned(*old(self), name@, *final(self), id),
            final(self).entries().len() == old(self).entries().len() + if old(self).knows(name@) {
                0nat
            } else {
                1nat
            },
            !old(self).knows(name@) ==> {
                &&& id == old(self).entries().len()
                &&& final(self).entries().dom() == old(self).entries().dom().insert(name@)
                &&& final(self).entries()[name@].name@ == name@
                &&& final(self).entries()[name@].base@ == base_of(name@)
                &&& final(self).entries()[name@].quote@ == quote_of(name@)
            },
            forall|other: Seq<char>|
                old(self).knows(other) ==> #[trigger] final(self).knows(other) && final(self).id_of(
                    other,
                ) == old(self).id_of(other),
    {
        if let Some(known) = table_get(&self.table, name) {
            return known.id;
        }
        let count = table_len(&self.table);
        let id = count as u16;
        let (base, quote) = split_symbol(name);
        let symbol = Symbol { id, name: name.to_owned(), base, quote };
        let ghost before = symbol_table(self.table);
        table_insert(&mut self.table, name.to_owned(), symbol);
        proof {
            let after = symbol_table(self.table);
            assert(after.dom() =~= before.dom().insert(name@));
            assert forall|a: Seq<char>, b: Seq<char>|
                self.knows(a) && self.knows(b) && a != b implies #[trigger] self.id_of(a)
                != #[trigger] self.id_of(b) by {
                if a != name@ {
                    assert(old(self).knows(a));
                }
                if b != name@ {
                    assert(old(self).knows(b));
                }
            }
            assert forall|n: Seq<char>| #[trigger] self.knows(n) implies self.id_of(n)
                < self.entries().len() && self.entries()[n].name@ == n by {
                if n != name@ {
                    assert(old(self).knows(n));
                }
            }
        }
        id
    }

    /// The names known, each once, in no stated order.
    pub fn list(&self) -> (names: Vec<String>)
        ensures
            forall|i: int| 0 <= i < names@.len() ==> self.knows(#[trigger] names@[i]@),
            forall|i: int, j: int| 0 <= i < j < names@.len() ==> names@[i]@ != names@[j]@,
            forall|name: Seq<char>| #[trigger]
                self.knows(name) ==> exists|i: int| 0 <= i < names@.len() && names@[i]@ == name,
    {
        table_names(&self.table)
    }
}

/// What interning `name` makes of a registry: the registry after knows the
/// name under the handle `id`, and every name known before keeps its handle.
pub open spec fn interned(before: SymbolRegistry, name: Seq<char>, after: SymbolRegistry, id: u16) -> bool {
    &&& after.knows(name)
    &&& id == after.id_of(name)
    &&& before.knows(name) ==> after.entries() == before.entries()
    &&& forall|other: Seq<char>|
        before.knows(other) ==> #[trigger] after.knows(other) && after.id_of(other) == before.id_of(
            other,
        )
}

/// A name keeps its handle: interned again, after any other name was
/// interned in between, it gets the handle it got first, and it is known
/// ever after.
pub proof fn lemma_intern_stable(
    start: SymbolRegistry,
    name: Seq<char>,
    first: u16,
    once: SymbolRegistry,
    other: Seq<char>,
    other_id: u16,
    between: SymbolRegistry,
    second: u16,
    twice: SymbolRegistry,
)
    requires
        interned(start, name, once, first),
        interned(once, other, between, other_id),
        interned(between, name, twice, second),
    ensures
        first == second,
        twice.knows(name),
        twice.knows(other),
        twice.entries() == between.entries(),
{
    assert(between.knows(name));
}

/// Two names never share a handle in a well-formed registry.
pub proof fn lemma_handles_differ(registry: SymbolRegistry, a: Seq<char>, b: Seq<char>)
    requires
        registry.wf(),
        registry.knows(a),
        registry.knows(b),
        a != b,
    ensures
        registry.id_of(a) != registry.id_of(b),
{
}

} // verus!
