//! The in-memory store: named tables of keys and values.

use dashmap::DashMap;
use vstd::prelude::*;
use crate::error::KvError;
use crate::pb::{Kvpair, Value};

verus! {

#[verifier::external_type_specification]
#[verifier::external_body]
#[verifier::reject_recursive_types(K)]
#[verifier::reject_recursive_types(V)]
#[verifier::reject_recursive_types(S)]
pub struct ExDashMap<K, V, S>(DashMap<K, V, S>);

/// What the tables hold: for each table name, its keys and values.
pub uninterp spec fn stored_tables(m: DashMap<String, DashMap<String, Value>>) -> Map<
    Seq<char>,
    Map<Seq<char>, Value>,
>;

/// The contents of a store: for each table name, its keys and values.
pub type StoreView = Map<Seq<char>, Map<Seq<char>, Value>>;

/// `DashMap::new`: no tables.
#[verifier::external_body]
fn tables_new() -> (m: DashMap<String, DashMap<String, Value>>)
    ensures
        stored_tables(m) == StoreView::empty(),
{
    DashMap::new()
}

/// `Clone` of the tables: a `DashMap` clones every shard, and with it every
/// table and value, so the copy holds the same tables.
#[verifier::external_body]
fn tables_clone(tables: &DashMap<String, DashMap<String, Value>>) -> (c: DashMap<String, DashMap<String, Value>>)
    ensures
        stored_tables(c) == stored_tables(*tables),
{
    tables.clone()
}

/// `DashMap::get` on the tables, telling whether the table is there.
#[verifier::external_body]
fn tables_has(tables: &DashMap<String, DashMap<String, Value>>, name: &str) -> (b: bool)
    ensures
        b == stored_tables(*tables).dom().contains(name@),
{
    tables.get(name).is_some()
}

/// `DashMap::entry` with `Entry::or_default`: adds an empty table under
/// `name` unless there is one.
#[verifier::external_body]
fn tables_entry_or_default(tables: &mut DashMap<String, DashMap<String, Value>>, name: String)
    ensures
        stored_tables(*final(tables)) == with_table(stored_tables(*old(tables)), name@),
{
    tables.entry(name).or_default();
}

/// `DashMap::get` on the table `name` (reached with `DashMap::get`), with the
/// value cloned out of the guard.
#[verifier::external_body]
fn table_get(tables: &DashMap<String, DashMap<String, Value>>, name: &str, key: &str) -> (r: Option<Value>)
    requires
        stored_tables(*tables).dom().contains(name@),
    ensures
        r == lookup(stored_tables(*tables)[name@], key@),
{
    tables.get(name).and_then(|table| table.get(key).map(|v| v.value().clone()))
}

/// `DashMap::insert` on the table `name` (reached with `DashMap::get`): the
/// table then maps `key` to `value`, and the value it replaced is returned.
#[verifier::external_body]
fn table_insert(
    tables: &mut DashMap<String, DashMap<String, Value>>,
    name: &str,
    key: String,
    value: Value,
) -> (r: Option<Value>)
    requires
        stored_tables(*old(tables)).dom().contains(name@),
    ensures
        stored_tables(*final(tables)) == stored_tables(*old(tables)).insert(
            name@,
            stored_tables(*old(tables))[name@].insert(key@, value),
        ),
        r == lookup(stored_tables(*old(tables))[name@], key@),
{
    tables.get(name).and_then(move |table| table.insert(key, value))
}

/// `DashMap::contains_key` on the table `name` (reached with `DashMap::get`).
#[verifier::external_body]
fn table_contains(tables: &DashMap<String, DashMap<String, Value>>, name: &str, key: &str) -> (b: bool)
    requires
        stored_tables(*tables).dom().contains(name@),
    ensures
        b == stored_tables(*tables)[name@].dom().contains(key@),
{
    tables.get(name).map_or(false, |table| table.contains_key(key))
}

/// `DashMap::remove` on the table `name` (reached with `DashMap::get`): the
/// key leaves the table, and its value is returned.
#[verifier::external_body]
fn table_remove(tables: &mut DashMap<String, DashMap<String, Value>>, name: &str, key: &str) -> (r: Option<Value>)
    requires
        stored_tables(*old(tables)).dom().contains(name@),
    ensures
        stored_tables(*final(tables)) == stored_tables(*old(tables)).insert(
            name@,
            stored_tables(*old(tables))[name@].remove(key@),
        ),
        r == lookup(stored_tables(*old(tables))[name@], key@),
{
    tables.get(name).and_then(|table| table.remove(key)).map(|(_key, v)| v)
}

/// `DashMap::iter` over the table `name` (reached with `DashMap::get`), each
/// key and value cloned out: every entry once, in an order that is not
/// stated.
#[verifier::external_body]
fn table_entries(tables: &DashMap<String, DashMap<String, Value>>, name: &str) -> (r: Vec<(String, Value)>)
    requires
        stored_tables(*tables).dom().contains(name@),
    ensures
        entries_match(r@, stored_tables(*tables)[name@]),
{
    match tables.get(name) {
        Some(table) => table.iter().map(|e| (e.key().clone(), e.value().clone())).collect(),
        None => Vec::new(),
    }
}

/// The value under `key`, if any.
pub open spec fn lookup(table: Map<Seq<char>, Value>, key: Seq<char>) -> Option<Value> {
    if table.dom().contains(key) {
        Some(table[key])
    } else {
        None
    }
}

/// The value the store holds under `key` in table `name`, read off the map
/// of maps: `None` where the table or the key is missing.
pub open spec fn entry_of(m: StoreView, name: Seq<char>, key: Seq<char>) -> Option<Value> {
    if m.dom().contains(name) && m[name].dom().contains(key) {
        Some(m[name][key])
    } else {
        None
    }
}

/// Reading a key through its table gives what the map of maps holds there,
/// and sets and removals change that entry as they say: a set puts the
/// value there, a removal takes it away, and every other entry stays.
pub proof fn lemma_entries_of_writes(
    m: StoreView,
    name: Seq<char>,
    key: Seq<char>,
    value: Value,
    n: Seq<char>,
    k: Seq<char>,
)
    ensures
        entry_of(m, name, key) == lookup(table_of(m, name), key),
        entry_of(spec_set(m, name, key, value), name, key) == Some(value),
        entry_of(spec_del(m, name, key), name, key) == None::<Value>,
        (n != name || k != key) ==> entry_of(spec_set(m, name, key, value), n, k) == entry_of(m, n, k),
        (n != name || k != key) ==> entry_of(spec_del(m, name, key), n, k) == entry_of(m, n, k),
        entry_of(with_table(m, name), n, k) == entry_of(m, n, k),
{
}

/// What `get_all` gives for a table is its entries: every pair is an entry
/// of the table, every entry of the table is among the pairs, and no key
/// comes twice.
pub proof fn lemma_pairs_are_the_entries(pairs: Seq<Kvpair>, m: StoreView, name: Seq<char>)
    requires
        pairs_match(pairs, table_of(m, name)),
    ensures
        forall|i: int|
            0 <= i < pairs.len() ==> entry_of(m, name, #[trigger] pairs[i].key@) == Some(pairs[i].value),
        forall|k: Seq<char>|
            #[trigger] entry_of(m, name, k) is Some ==> exists|i: int|
                0 <= i < pairs.len() && #[trigger] pairs[i].key@ == k,
        forall|i: int, j: int|
            0 <= i < j < pairs.len() ==> #[trigger] pairs[i].key@ != #[trigger] pairs[j].key@,
{
    assert forall|i: int| 0 <= i < pairs.len() implies entry_of(m, name, #[trigger] pairs[i].key@) == Some(
        pairs[i].value,
    ) by {
        assert(table_of(m, name).dom().contains(pairs[i].key@));
    }
    assert forall|k: Seq<char>| #[trigger] entry_of(m, name, k) is Some implies exists|i: int|
        0 <= i < pairs.len() && #[trigger] pairs[i].key@ == k by {
        assert(table_of(m, name).dom().contains(k));
    }
}

/// The store with a table under `name`: the one it had, or an empty one.
pub open spec fn with_table(m: StoreView, name: Seq<char>) -> StoreView {
    if m.dom().contains(name) {
        m
    } else {
        m.insert(name, Map::empty())
    }
}

/// The table `name` of a store (empty where there is none).
pub open spec fn table_of(m: StoreView, name: Seq<char>) -> Map<Seq<char>, Value> {
    with_table(m, name)[name]
}

/// The store after `key` is set to `value` in table `name`.
pub open spec fn spec_set(m: StoreView, name: Seq<char>, key: Seq<char>, value: Value) -> StoreView {
    with_table(m, name).insert(name, table_of(m, name).insert(key, value))
}

/// The store after `key` is removed from table `name`.
pub open spec fn spec_del(m: StoreView, name: Seq<char>, key: Seq<char>) -> StoreView {
    with_table(m, name).insert(name, table_of(m, name).remove(key))
}

/// A list of keys and values holds exactly the entries of `table`, each once.
pub open spec fn entries_match(entries: Seq<(String, Value)>, table: Map<Seq<char>, Value>) -> bool {
    &&& forall|i: int|
        0 <= i < entries.len() ==> #[trigger] table.dom().contains(entries[i].0@)
            && table[entries[i].0@] == entries[i].1
    &&& forall|k: Seq<char>|
        #[trigger] table.dom().contains(k) ==> exists|i: int|
            0 <= i < entries.len() && #[trigger] entries[i].0@ == k
    &&& forall|i: int, j: int|
        0 <= i < j < entries.len() ==> #[trigger] entries[i].0@ != #[trigger] entries[j].0@
}

/// A list of pairs holds exactly the entries of `table`, each once.
pub open spec fn pairs_match(pairs: Seq<Kvpair>, table: Map<Seq<char>, Value>) -> bool {
    &&& forall|i: int|
        0 <= i < pairs.len() ==> #[trigger] table.dom().contains(pairs[i].key@)
            && table[pairs[i].key@] == pairs[i].value
    &&& forall|k: Seq<char>|
        #[trigger] table.dom().contains(k) ==> exists|i: int|
            0 <= i < pairs.len() && #[trigger] pairs[i].key@ == k
    &&& forall|i: int, j: int|
        0 <= i < j < pairs.len() ==> #[trigger] pairs[i].key@ != #[trigger] pairs[j].key@
}

/// After `key` is set to `value` in a table, reading `key` there gives `value`.
pub proof fn lemma_get_after_set(m: StoreView, name: Seq<char>, key: Seq<char>, value: Value)
    ensures
        lookup(table_of(spec_set(m, name, key, value), name), key) == Some(value),
{
}

/// Setting a key leaves every other key of that table as it was.
pub proof fn lemma_set_keeps_other_keys(
    m: StoreView,
    name: Seq<char>,
    key: Seq<char>,
    value: Value,
    other: Seq<char>,
)
    requires
        other != key,
    ensures
        lookup(table_of(spec_set(m, name, key, value), name), other) == lookup(
            table_of(m, name),
            other,
        ),
{
}

/// Setting a key in one table leaves every other table as it was.
pub proof fn lemma_set_keeps_other_tables(
    m: StoreView,
    name: Seq<char>,
    key: Seq<char>,
    value: Value,
    other: Seq<char>,
)
    requires
        other != name,
    ensures
        table_of(spec_set(m, name, key, value), other) == table_of(m, other),
{
}

/// After `key` is removed from a table, reading it there gives nothing.
pub proof fn lemma_get_after_del(m: StoreView, name: Seq<char>, key: Seq<char>)
    ensures
        lookup(table_of(spec_del(m, name, key), name), key) == None::<Value>,
{
}

/// Removing a key leaves every other key, and every other table, as it was.
pub proof fn lemma_del_keeps_others(m: StoreView, name: Seq<char>, key: Seq<char>, other_name: Seq<char>, other_key: Seq<char>)
    requires
        other_name != name || other_key != key,
    ensures
        lookup(table_of(spec_del(m, name, key), other_name), other_key) == lookup(
            table_of(m, other_name),
            other_key,
        ),
{
}

/// Naming a table (as every read does) changes what no table holds.
pub proof fn lemma_reads_keep_contents(m: StoreView, name: Seq<char>, other: Seq<char>)
    ensures
        table_of(with_table(m, name), other) == table_of(m, other),
{
}

/// Setting a key and then removing it leaves the store's tables as removing
/// it alone would.
pub proof fn lemma_del_undoes_set(m: StoreView, name: Seq<char>, key: Seq<char>, value: Value, other: Seq<char>)
    ensures
        table_of(spec_del(spec_set(m, name, key, value), name, key), other) == table_of(
            spec_del(m, name, key),
            other,
        ),
{
    if other == name {
        assert(table_of(m, name).insert(key, value).remove(key) =~= table_of(m, name).remove(key));
    }
}

/// Naming a table makes it exist; a table that was there keeps its
/// contents, a new one is empty, every other table is untouched, and naming
/// it again changes nothing.
pub proof fn lemma_with_table(m: StoreView, name: Seq<char>, other: Seq<char>)
    ensures
        with_table(m, name).dom().contains(name),
        m.dom().contains(name) ==> with_table(m, name)[name] == m[name],
        !m.dom().contains(name) ==> with_table(m, name)[name] == Map::<Seq<char>, Value>::empty(),
        other != name ==> (with_table(m, name).dom().contains(other) == m.dom().contains(other)),
        other != name && m.dom().contains(other) ==> with_table(m, name)[other] == m[other],
        with_table(with_table(m, name), name) == with_table(m, name),
{
}

/// A write to the store: to table `.0`, key `.1`, either `Some(value)` set
/// there or `None` for a removal.
pub type StoreWrite = (Seq<char>, Seq<char>, Option<Value>);

/// The store after the writes `ops`, first to last.
pub open spec fn apply_writes(m: StoreView, ops: Seq<StoreWrite>) -> StoreView
    decreases ops.len(),
{
    if ops.len() == 0 {
        m
    } else {
        let before = apply_writes(m, ops.drop_last());
        let op = ops.last();
        match op.2 {
            Some(v) => spec_set(before, op.0, op.1, v),
            None => spec_del(before, op.0, op.1),
        }
    }
}

/// The last write among `ops` to key `key` of table `name`, if any: the
/// value it set, or `None` for a removal.
pub open spec fn last_write(ops: Seq<StoreWrite>, name: Seq<char>, key: Seq<char>) -> Option<Option<Value>>
    decreases ops.len(),
{
    if ops.len() == 0 {
        None
    } else if ops.last().0 == name && ops.last().1 == key {
        Some(ops.last().2)
    } else {
        last_write(ops.drop_last(), name, key)
    }
}

/// After any history of sets and removals, reading a key gives the value of
/// the last set to it that no removal followed, nothing where a removal came
/// last, and what it held before where nothing was written to it.
pub proof fn lemma_read_after_writes(m: StoreView, ops: Seq<StoreWrite>, name: Seq<char>, key: Seq<char>)
    ensures
        lookup(table_of(apply_writes(m, ops), name), key) == (match last_write(ops, name, key) {
            Some(w) => w,
            None => lookup(table_of(m, name), key),
        }),
    decreases ops.len(),
{
    if ops.len() > 0 {
        let before = apply_writes(m, ops.drop_last());
        let op = ops.last();
        lemma_read_after_writes(m, ops.drop_last(), name, key);
        match op.2 {
            Some(v) => {
                if op.0 == name && op.1 == key {
                    lemma_get_after_set(before, name, key, v);
                } else if op.0 == name {
                    lemma_set_keeps_other_keys(before, name, op.1, v, key);
                } else {
                    lemma_set_keeps_other_tables(before, op.0, op.1, v, name);
                }
            },
            None => {
                if op.0 == name && op.1 == key {
                    lemma_get_after_del(before, name, key);
                } else {
                    lemma_del_keeps_others(before, op.0, op.1, name, key);
                }
            },
        }
    }
}

/// A store of named tables, each mapping keys to values. A table springs
/// into being, empty, the first time it is named.
#[derive(Debug)]
pub struct MemTable {
    tables: DashMap<String, DashMap<String, Value>>,
}

impl View for MemTable {
    type V = StoreView;

    closed spec fn view(&self) -> StoreView {
        stored_tables(self.tables)
    }
}

impl Clone for MemTable {
    /// A store holding the same tables.
    fn clone(&self) -> (s: Self)
        ensures
            s@ == self@,
    {
        MemTable { tables: tables_clone(&self.tables) }
    }
}

impl Default for MemTable {
    /// A store with no tables.
    fn default() -> (s: Self)
        ensures
            s@ == StoreView::empty(),
    {
        MemTable::new()
    }
}

impl MemTable {
    /// A store with no tables.
    pub fn new() -> (s: Self)
        ensures
            s@ == StoreView::empty(),
    {
        MemTable { tables: tables_new() }
    }

    /// Makes sure that a table `name` exists: an empty one is added where
    /// there is none, and nothing else changes.
    pub fn get_or_create_table(&mut self, name: &str)
        ensures
            final(self)@ == with_table(old(self)@, name@),
    {
        if !tables_has(&self.tables, name) {
            tables_entry_or_default(&mut self.tables, name.to_string());
        } else {
            assert(with_table(old(self)@, name@) == old(self)@);
        }
    }

    /// The value under `key` in `table`.
    pub fn get(&mut self, table: &str, key: &str) -> (r: Result<Option<Value>, KvError>)
        ensures
            final(self)@ == with_table(old(self)@, table@),
            r == Ok::<Option<Value>, KvError>(lookup(table_of(old(self)@, table@), key@)),
            r == Ok::<Option<Value>, KvError>(entry_of(old(self)@, table@, key@)),
            forall|n: Seq<char>, k: Seq<char>|
                #[trigger] entry_of(final(self)@, n, k) == entry_of(old(self)@, n, k),
    {
        self.get_or_create_table(table);
        Ok(table_get(&self.tables, table, key))
    }

    /// Sets `key` to `value` in `table`, giving back the value it replaced.
    pub fn set(&mut self, table: &str, key: String, value: Value) -> (r: Result<Option<Value>, KvError>)
        ensures
            final(self)@ == spec_set(old(self)@, table@, key@, value),
            r == Ok::<Option<Value>, KvError>(lookup(table_of(old(self)@, table@), key@)),
            r == Ok::<Option<Value>, KvError>(entry_of(old(self)@, table@, key@)),
            entry_of(final(self)@, table@, key@) == Some(value),
            forall|n: Seq<char>, k: Seq<char>|
                (n != table@ || k != key@) ==> #[trigger] entry_of(final(self)@, n, k) == entry_of(old(self)@, n, k),
    {
        self.get_or_create_table(table);
        Ok(table_insert(&mut self.tables, table, key, value))
    }

    /// Whether `table` holds `key`.
    pub fn contains(&mut self, table: &str, key: &str) -> (r: Result<bool, KvError>)
        ensures
            final(self)@ == with_table(old(self)@, table@),
            r == Ok::<bool, KvError>(table_of(old(self)@, table@).dom().contains(key@)),
            r == Ok::<bool, KvError>(entry_of(old(self)@, table@, key@) is Some),
            forall|n: Seq<char>, k: Seq<char>|
                #[trigger] entry_of(final(self)@, n, k) == entry_of(old(self)@, n, k),
    {
        self.get_or_create_table(table);
        Ok(table_contains(&self.tables, table, key))
    }

    /// Removes `key` from `table`, giving back its value.
    pub fn del(&mut self, table: &str, key: &str) -> (r: Result<Option<Value>, KvError>)
        ensures
            final(self)@ == spec_del(old(self)@, table@, key@),
            r == Ok::<Option<Value>, KvError>(lookup(table_of(old(self)@, table@), key@)),
            r == Ok::<Option<Value>, KvError>(entry_of(old(self)@, table@, key@)),
            entry_of(final(self)@, table@, key@) == None::<Value>,
            forall|n: Seq<char>, k: Seq<char>|
                (n != table@ || k != key@) ==> #[trigger] entry_of(final(self)@, n, k) == entry_of(old(self)@, n, k),
    {
        self.get_or_create_table(table);
        Ok(table_remove(&mut self.tables, table, key))
    }

    /// Every key of `table` with its value, each once.
    pub fn get_all(&mut self, table: &str) -> (r: Result<Vec<Kvpair>, KvError>)
        ensures
            final(self)@ == with_table(old(self)@, table@),
            r matches Ok(pairs) && pairs_match(pairs@, table_of(old(self)@, table@)),
    {
        self.get_or_create_table(table);
        let mut entries = table_entries(&self.tables, table);
        let ghost t = table_of(old(self)@, table@);
        let ghost all = entries@;
        let mut pairs: Vec<Kvpair> = Vec::new();
        let n = entries.len();
        while entries.len() > 0
            invariant
                n == all.len(),
                entries_match(all, t),
                entries@ == all.take(n - pairs@.len()),
                pairs@.len() <= n,
                forall|j: int|
                    0 <= j < pairs@.len() ==> #[trigger] pairs@[j].key@ == all[n - 1 - j].0@
                        && pairs@[j].value == all[n - 1 - j].1,
            decreases entries@.len(),
        {
            let (k, v) = entries.pop().unwrap();
            pairs.push(Kvpair::new(k, v));
        }
        proof {
            assert(pairs@.len() == n);
            assert forall|k: Seq<char>| #[trigger] t.dom().contains(k) implies exists|j: int|
                0 <= j < pairs@.len() && #[trigger] pairs@[j].key@ == k by {
                let j = choose|j: int| 0 <= j < all.len() && #[trigger] all[j].0@ == k;
                assert(pairs@[n - 1 - j].key@ == k);
            }
            assert forall|a: int, b: int| 0 <= a < b < pairs@.len() implies #[trigger] pairs@[a].key@
                != #[trigger] pairs@[b].key@ by {
                assert(all[n - 1 - b].0@ != all[n - 1 - a].0@);
            }
            assert forall|a: int| 0 <= a < pairs@.len() implies #[trigger] t.dom().contains(pairs@[a].key@)
                && t[pairs@[a].key@] == pairs@[a].value by {
                assert(t.dom().contains(all[n - 1 - a].0@));
            }
        }
        Ok(pairs)
    }

    /// A snapshot of every key of `table` with its value, each once.
    pub fn get_iter(&mut self, table: &str) -> (r: Result<Vec<Kvpair>, KvError>)
        ensures
            final(self)@ == with_table(old(self)@, table@),
            r matches Ok(pairs) && pairs_match(pairs@, table_of(old(self)@, table@)),
    {
        self.get_all(table)
    }
}

} // verus!
