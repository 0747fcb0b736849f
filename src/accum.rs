//! The frequency accumulator: in-memory unigram and bigram deltas that have
//! not been committed yet, and their draining into bounded batches.
use crate::filter::{retain_content, retained, views};
use crate::ngram::{
    bigram_keys, bump_all, empty_table, lemma_splits_move, splits, unigram_keys, Ngram, Table,
};
use crate::table::{key_of, lemma_rows_table, rows_distinct, rows_match, rows_table, FreqTable, Row};
use vstd::prelude::*;

verus! {

/// A unigram table and a bigram table, as maps.
pub struct Tables {
    pub unigrams: Table,
    pub bigrams: Table,
}

/// Both tables empty.
pub open spec fn no_tables() -> Tables {
    Tables { unigrams: empty_table(), bigrams: empty_table() }
}

/// The tables after one line whose retained tokens are `r`: one unigram per
/// token and one bigram per pair of consecutive tokens.
pub open spec fn observe(t: Tables, r: Seq<Seq<char>>) -> Tables {
    Tables {
        unigrams: bump_all(t.unigrams, unigram_keys(r)),
        bigrams: bump_all(t.bigrams, bigram_keys(r)),
    }
}

/// A set of rows drained from the accumulator, to be committed together.
pub struct Batch {
    pub unigrams: Vec<Row>,
    pub bigrams: Vec<Row>,
}

impl Batch {
    /// The deltas this batch carries.
    pub open spec fn tables(&self) -> Tables {
        Tables { unigrams: rows_table(self.unigrams@), bigrams: rows_table(self.bigrams@) }
    }

    /// No key is listed twice.
    pub open spec fn wf(&self) -> bool {
        rows_distinct(self.unigrams@) && rows_distinct(self.bigrams@)
    }

    /// How many rows the batch holds.
    pub open spec fn size(&self) -> nat {
        self.unigrams@.len() + self.bigrams@.len()
    }

    /// Whether the batch holds no row.
    pub fn is_empty(&self) -> (r: bool)
        ensures
            r == (self.size() == 0),
    {
        self.unigrams.len() == 0 && self.bigrams.len() == 0
    }
}

/// The uncommitted deltas of a run.
pub struct Accumulator {
    unigrams: FreqTable,
    bigrams: FreqTable,
}

impl View for Accumulator {
    type V = Tables;

    closed spec fn view(&self) -> Tables {
        Tables { unigrams: self.unigrams@, bigrams: self.bigrams@ }
    }
}

/// Moves the entry of the last of `rows` from `table` to `out`; false, with
/// nothing changed, when no row is left.
fn move_row(table: &mut FreqTable, rows: &mut Vec<Row>, out: &mut Vec<Row>, Ghost(whole): Ghost<Table>) -> (moved: bool)
    requires
        rows_match(old(rows)@, old(table)@),
        splits(whole, rows_table(old(out)@), old(table)@),
        rows_distinct(old(out)@),
    ensures
        rows_match(final(rows)@, final(table)@),
        splits(whole, rows_table(final(out)@), final(table)@),
        rows_distinct(final(out)@),
        moved ==> final(rows)@.len() + 1 == old(rows)@.len() && final(out)@.len() == old(out)@.len() + 1,
        !moved ==> final(table)@ == empty_table() && final(out)@ == old(out)@,
{
    let ghost rows_before = rows@;
    match rows.pop() {
        None => {
            assert(table@ =~= empty_table());
            false
        },
        Some(row) => {
            let ghost pre_out = out@;
            let ghost pre_table = table@;
            let ghost pre_rows = rows_before;
            assert(pre_rows =~= rows@.push(row));
            let ghost k = key_of(row.0);
            assert(pre_rows[pre_rows.len() - 1] == row);
            assert(pre_table.dom().contains(k));
            table.remove(&row.0);
            proof {
                lemma_splits_move(whole, rows_table(pre_out), pre_table, k);
                lemma_rows_table(pre_out);
                assert forall|i: int| 0 <= i < pre_out.len() implies key_of(
                    #[trigger] pre_out[i].0,
                ) != k by {
                    assert(rows_table(pre_out).dom().contains(key_of(pre_out[i].0)));
                }
            }
            out.push(row);
            proof {
                assert(out@.drop_last() =~= pre_out);
                assert(rows_table(out@) == rows_table(pre_out).insert(k, row.1));
                assert forall|i: int, j: int|
                    0 <= i < j < out@.len() implies key_of(#[trigger] out@[i].0) != key_of(
                    #[trigger] out@[j].0,
                ) by {
                    if j < out@.len() - 1 {
                        assert(out@[i] == pre_out[i] && out@[j] == pre_out[j]);
                    } else {
                        assert(out@[i] == pre_out[i]);
                    }
                }
                assert forall|i: int| 0 <= i < rows@.len() implies table@.dom().contains(
                    #[trigger] key_of(rows@[i].0),
                ) && table@[key_of(rows@[i].0)] == rows@[i].1 by {
                    assert(rows@[i] == pre_rows[i]);
                    assert(key_of(pre_rows[i].0) != key_of(pre_rows[pre_rows.len() - 1].0));
                }
                assert forall|kk: Ngram| #[trigger]
                    table@.dom().contains(kk) implies exists|i: int|
                    0 <= i < rows@.len() && key_of(rows@[i].0) == kk by {
                    assert(pre_table.dom().contains(kk));
                    assert(kk != k);
                    let i = choose|i: int|
                        0 <= i < pre_rows.len() && key_of(pre_rows[i].0) == kk;
                    assert(i != pre_rows.len() - 1);
                    assert(rows@[i] == pre_rows[i]);
                }
            }
            true
        },
    }
}

/// Moves every entry of `table` out into rows.
fn drain_all(table: &mut FreqTable) -> (out: Vec<Row>)
    ensures
        splits(old(table)@, rows_table(out@), final(table)@),
        rows_distinct(out@),
        final(table)@ == empty_table(),
{
    let ghost whole = table@;
    let mut rows = table.rows();
    let mut out: Vec<Row> = Vec::new();
    proof {
        lemma_rows_table(out@);
    }
    loop
        invariant
            rows_match(rows@, table@),
            splits(whole, rows_table(out@), table@),
            rows_distinct(out@),
        ensures
            splits(whole, rows_table(out@), table@),
            rows_distinct(out@),
            table@ == empty_table(),
        decreases rows@.len(),
    {
        if !move_row(table, &mut rows, &mut out, Ghost(whole)) {
            break;
        }
    }
    out
}

/// Moves up to `limit` entries of `table` out into rows.
fn drain_rows(table: &mut FreqTable, limit: usize) -> (out: Vec<Row>)
    ensures
        splits(old(table)@, rows_table(out@), final(table)@),
        rows_distinct(out@),
        out@.len() <= limit,
        out@.len() < limit ==> final(table)@ == empty_table(),
{
    let ghost whole = table@;
    let mut rows = table.rows();
    let mut out: Vec<Row> = Vec::new();
    proof {
        lemma_rows_table(out@);
    }
    while out.len() < limit
        invariant
            rows_match(rows@, table@),
            splits(whole, rows_table(out@), table@),
            rows_distinct(out@),
            out@.len() <= limit,
        ensures
            splits(whole, rows_table(out@), table@),
            rows_distinct(out@),
            out@.len() <= limit,
            out@.len() < limit ==> table@ == empty_table(),
        decreases rows@.len(),
    {
        if !move_row(table, &mut rows, &mut out, Ghost(whole)) {
            break;
        }
    }
    out
}

impl Accumulator {
    /// An accumulator with nothing counted.
    pub fn new() -> (a: Accumulator)
        ensures
            a@ == no_tables(),
    {
        Accumulator { unigrams: FreqTable::new(), bigrams: FreqTable::new() }
    }

    /// Counts one line whose tokens have already been filtered: each token as
    /// a unigram, each pair of consecutive tokens as a bigram.
    pub fn observe_retained(&mut self, r: &Vec<String>)
        ensures
            final(self)@ == observe(old(self)@, views(r@)),
    {
        let ghost toks = views(r@);
        let ghost start = self@;
        let n = r.len();
        for i in 0..n
            invariant
                n == r@.len(),
                toks == views(r@),
                self.unigrams@ == bump_all(start.unigrams, unigram_keys(toks).subrange(0, i as int)),
                self.bigrams@ == start.bigrams,
        {
            let key = vec![r[i].clone()];
            proof {
                let keys = unigram_keys(toks).subrange(0, i + 1);
                assert(keys.drop_last() =~= unigram_keys(toks).subrange(0, i as int));
                assert(key_of(key) =~= keys.last());
            }
            self.unigrams.bump(key);
        }
        let mut j: usize = 1;
        while j < n
            invariant
                n == r@.len(),
                toks == views(r@),
                1 <= j,
                j <= n || j == 1,
                self.unigrams@ == bump_all(start.unigrams, unigram_keys(toks).subrange(0, n as int)),
                self.bigrams@ == bump_all(
                    start.bigrams,
                    bigram_keys(toks).subrange(0, j - 1),
                ),
            decreases n - j,
        {
            let key = vec![r[j - 1].clone(), r[j].clone()];
            proof {
                let keys = bigram_keys(toks).subrange(0, j as int);
                assert(keys.drop_last() =~= bigram_keys(toks).subrange(0, j - 1));
                assert(key_of(key) =~= keys.last());
            }
            self.bigrams.bump(key);
            j = j + 1;
        }
        proof {
            assert(unigram_keys(toks).subrange(0, n as int) =~= unigram_keys(toks));
            assert(toks.len() == n);
            if n == 0 {
                assert(bigram_keys(toks).subrange(0, 0) =~= bigram_keys(toks));
            } else {
                assert(j == n);
                assert(bigram_keys(toks).subrange(0, j - 1) =~= bigram_keys(toks));
                assert(bump_all(start.bigrams, bigram_keys(toks).subrange(0, j - 1)) == bump_all(
                    start.bigrams,
                    bigram_keys(toks),
                ));
            }
            assert(self.unigrams@ == observe(start, toks).unigrams);
            assert(self.bigrams@ == observe(start, toks).bigrams);
        }
    }

    /// Counts one tokenized line: non-content tokens are dropped, then the
    /// remaining tokens are counted as unigrams and consecutive pairs of
    /// them as bigrams.
    pub fn observe_tokens(&mut self, tokens: &Vec<String>)
        ensures
            final(self)@ == observe(old(self)@, retained(views(tokens@))),
    {
        let r = retain_content(tokens);
        self.observe_retained(&r);
    }

    /// Whether nothing is left to commit.
    pub fn is_empty(&self) -> (r: bool)
        ensures
            r == (self@ == no_tables()),
    {
        self.unigrams.is_empty() && self.bigrams.is_empty()
    }

    /// Moves up to `limit` entries, unigrams first, out of the accumulator
    /// into a batch; with fewer than `limit` rows the accumulator is left empty.
    pub fn take_batch(&mut self, limit: usize) -> (b: Batch)
        ensures
            b.wf(),
            b.size() <= limit,
            splits(old(self)@.unigrams, b.tables().unigrams, final(self)@.unigrams),
            splits(old(self)@.bigrams, b.tables().bigrams, final(self)@.bigrams),
            b.size() < limit ==> final(self)@ == no_tables(),
    {
        let u = drain_rows(&mut self.unigrams, limit);
        let rest = limit - u.len();
        let bi = drain_rows(&mut self.bigrams, rest);
        Batch { unigrams: u, bigrams: bi }
    }

    /// The next batch to commit, of up to `limit` entries, and whether it is
    /// the last one: it is exactly when nothing is left in the accumulator,
    /// so that the file may be recorded once this batch is committed.
    pub fn next_batch(&mut self, limit: usize) -> (r: (Batch, bool))
        ensures
            r.0.wf(),
            r.0.size() <= limit,
            splits(old(self)@.unigrams, r.0.tables().unigrams, final(self)@.unigrams),
            splits(old(self)@.bigrams, r.0.tables().bigrams, final(self)@.bigrams),
            r.1 <==> final(self)@ == no_tables(),
            r.0.size() < limit ==> r.1,
    {
        let b = self.take_batch(limit);
        let last = self.is_empty();
        (b, last)
    }

    /// Moves every entry out of the accumulator into one batch.
    pub fn take_all(&mut self) -> (b: Batch)
        ensures
            b.wf(),
            splits(old(self)@.unigrams, b.tables().unigrams, final(self)@.unigrams),
            splits(old(self)@.bigrams, b.tables().bigrams, final(self)@.bigrams),
            final(self)@ == no_tables(),
    {
        let u = drain_all(&mut self.unigrams);
        let bi = drain_all(&mut self.bigrams);
        Batch { unigrams: u, bigrams: bi }
    }
}

} // verus!
