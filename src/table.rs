//! A frequency table from n-gram to count, held in a `DashMap`.
use crate::filter::views;
use crate::ngram::{bump, empty_table, saturating, tally, Ngram, Table};
use dashmap::DashMap;
use vstd::prelude::*;

verus! {

#[verifier::external_type_specification]
#[verifier::external_body]
#[verifier::reject_recursive_types(K)]
#[verifier::reject_recursive_types(V)]
#[verifier::reject_recursive_types(S)]
pub struct ExDashMap<K, V, S>(DashMap<K, V, S>);

/// The map under a frequency table: token sequence to count.
pub type TokenMap = DashMap<Vec<String>, u64>;

/// What a table's map holds, keyed by the character view of each token.
pub uninterp spec fn dash_contents(m: TokenMap) -> Map<Seq<Seq<char>>, u64>;

/// The key view of a vector of tokens.
pub open spec fn key_of(k: Vec<String>) -> Ngram {
    views(k@)
}

/// Relies on `DashMap::new`: a new map holds no entry.
#[verifier::external_body]
pub(crate) fn dash_new() -> (r: TokenMap)
    ensures
        dash_contents(r) == empty_table(),
{
    DashMap::new()
}

/// Relies on `DashMap::get`: the value stored under an equal key, if there is one.
#[verifier::external_body]
pub(crate) fn dash_get(m: &TokenMap, key: &Vec<String>) -> (r: Option<u64>)
    ensures
        r is Some <==> dash_contents(*m).dom().contains(key_of(*key)),
        r is Some ==> r->0 == dash_contents(*m)[key_of(*key)],
{
    m.get(key).map(|e| *e.value())
}

/// Relies on `DashMap::insert`: the key now maps to `value`, all others are kept.
#[verifier::external_body]
pub(crate) fn dash_insert(m: &mut TokenMap, key: Vec<String>, value: u64)
    ensures
        dash_contents(*final(m)) == dash_contents(*old(m)).insert(key_of(key), value),
{
    m.insert(key, value);
}

/// Relies on `DashMap::remove`: the key has no entry any more, all others are kept.
#[verifier::external_body]
fn dash_remove(m: &mut TokenMap, key: &Vec<String>)
    ensures
        dash_contents(*final(m)) == dash_contents(*old(m)).remove(key_of(*key)),
{
    m.remove(key);
}

/// Relies on `DashMap::iter`: each entry once, in an order the map chooses.
#[verifier::external_body]
fn dash_rows(m: &TokenMap) -> (r: Vec<Row>)
    ensures
        rows_match(r@, dash_contents(*m)),
{
    m.iter().map(|e| (e.key().clone(), *e.value())).collect()
}

/// A table entry: key tokens and count.
pub type Row = (Vec<String>, u64);

/// `rows` lists the entries of `m`, each key once.
pub open spec fn rows_match(rows: Seq<(Vec<String>, u64)>, m: Table) -> bool {
    &&& forall|i: int|
        0 <= i < rows.len() ==> m.dom().contains(#[trigger] key_of(rows[i].0)) && m[key_of(
            rows[i].0,
        )] == rows[i].1
    &&& forall|i: int, j: int|
        0 <= i < j < rows.len() ==> key_of(#[trigger] rows[i].0) != key_of(#[trigger] rows[j].0)
    &&& forall|k: Ngram| #[trigger]
        m.dom().contains(k) ==> exists|i: int| 0 <= i < rows.len() && key_of(rows[i].0) == k
}

/// The table that a list of rows describes (a later row wins on a repeated key).
pub open spec fn rows_table(rows: Seq<(Vec<String>, u64)>) -> Table
    decreases rows.len(),
{
    if rows.len() == 0 {
        Map::empty()
    } else {
        rows_table(rows.drop_last()).insert(key_of(rows.last().0), rows.last().1)
    }
}

/// No two rows share a key.
pub open spec fn rows_distinct(rows: Seq<Row>) -> bool {
    forall|i: int, j: int|
        0 <= i < j < rows.len() ==> key_of(#[trigger] rows[i].0) != key_of(#[trigger] rows[j].0)
}

/// The keys of the table of `rows` are the keys of its rows; with no
/// repeated key, each row's count is its key's entry.
pub proof fn lemma_rows_table(rows: Seq<Row>)
    ensures
        forall|k: Ngram|
            #[trigger] rows_table(rows).dom().contains(k) <==> exists|i: int|
                0 <= i < rows.len() && key_of(rows[i].0) == k,
        rows_distinct(rows) ==> forall|i: int|
            0 <= i < rows.len() ==> #[trigger] rows_table(rows)[key_of(rows[i].0)] == rows[i].1,
    decreases rows.len(),
{
    if rows.len() > 0 {
        let pre = rows.drop_last();
        lemma_rows_table(pre);
        assert(rows_table(rows) == rows_table(pre).insert(key_of(rows.last().0), rows.last().1));
        assert forall|k: Ngram|
            #[trigger] rows_table(rows).dom().contains(k) <==> exists|i: int|
                0 <= i < rows.len() && key_of(rows[i].0) == k by {
            if rows_table(rows).dom().contains(k) && k != key_of(rows.last().0) {
                assert(rows_table(pre).dom().contains(k));
                let i = choose|i: int| 0 <= i < pre.len() && key_of(pre[i].0) == k;
                assert(key_of(rows[i].0) == k);
            }
            if exists|i: int| 0 <= i < rows.len() && key_of(rows[i].0) == k {
                let i = choose|i: int| 0 <= i < rows.len() && key_of(rows[i].0) == k;
                if i < rows.len() - 1 {
                    assert(key_of(pre[i].0) == k);
                }
            }
        }
        if rows_distinct(rows) {
            assert(rows_distinct(pre));
            assert forall|i: int| 0 <= i < rows.len() implies #[trigger] rows_table(rows)[key_of(
                rows[i].0,
            )] == rows[i].1 by {
                if i < rows.len() - 1 {
                    assert(pre[i] == rows[i]);
                }
            }
        }
    }
}

/// A frequency table: one entry per distinct n-gram, with its count.
pub struct FreqTable {
    map: TokenMap,
}

impl View for FreqTable {
    type V = Table;

    closed spec fn view(&self) -> Table {
        dash_contents(self.map)
    }
}

impl FreqTable {
    /// An empty table.
    pub fn new() -> (t: FreqTable)
        ensures
            t@ == empty_table(),
    {
        FreqTable { map: dash_new() }
    }

    /// The count of `key`, zero if it has no entry.
    pub fn count(&self, key: &Vec<String>) -> (r: u64)
        ensures
            r == tally(self@, key_of(*key)),
    {
        match dash_get(&self.map, key) {
            Some(c) => c,
            None => 0,
        }
    }

    /// Adds `delta` to the count of `key` (creating the entry), clamped at
    /// the largest count.
    pub fn add(&mut self, key: Vec<String>, delta: u64)
        ensures
            final(self)@ == old(self)@.insert(
                key_of(key),
                saturating(tally(old(self)@, key_of(key)) + delta as nat),
            ),
    {
        let c = self.count(&key);
        let n = c.saturating_add(delta);
        dash_insert(&mut self.map, key, n);
    }

    /// Sets the count of `key` to `value`.
    pub fn set(&mut self, key: Vec<String>, value: u64)
        ensures
            final(self)@ == old(self)@.insert(key_of(key), value),
    {
        dash_insert(&mut self.map, key, value);
    }

    /// Counts one more occurrence of `key`.
    pub fn bump(&mut self, key: Vec<String>)
        ensures
            final(self)@ == bump(old(self)@, key_of(key)),
    {
        self.add(key, 1);
    }

    /// Removes the entry of `key`.
    pub fn remove(&mut self, key: &Vec<String>)
        ensures
            final(self)@ == old(self)@.remove(key_of(*key)),
    {
        dash_remove(&mut self.map, key);
    }

    /// Every entry, each once, in no particular order.
    pub fn rows(&self) -> (r: Vec<Row>)
        ensures
            rows_match(r@, self@),
    {
        dash_rows(&self.map)
    }

    /// Whether the table has no entry.
    pub fn is_empty(&self) -> (r: bool)
        ensures
            r == (self@ == empty_table()),
    {
        let rows = self.rows();
        if rows.len() == 0 {
            assert(self@ =~= empty_table());
            true
        } else {
            assert(self@.dom().contains(key_of(rows@[0].0)));
            false
        }
    }
}

} // verus!
