//! Committed counts and the resume ledger.
//!
//! A commit goes in two steps: `stage` computes, for each key of a batch,
//! its new total (stored count plus delta) without changing anything; once
//! those totals are durable, `commit` writes them into the store. A commit
//! that never happens leaves the store as it was, and writing the same
//! totals again changes nothing.
use crate::accum::{no_tables, observe, Accumulator, Batch, Tables};
use crate::filter::{retained, views};
use crate::ngram::{merge, saturating, splits, tally, Table};
use crate::table::{
    dash_contents, dash_get, dash_insert, dash_new, key_of, rows_distinct, rows_table, FreqTable, Row,
    TokenMap,
};
use vstd::prelude::*;

verus! {

/// What a store holds: committed counts and the names of files whose
/// contribution they include.
pub struct StoreView {
    pub counts: Tables,
    pub done: Set<Seq<char>>,
}

/// Both tables of `stored` after the upsert of `delta`.
pub open spec fn merge_tables(stored: Tables, delta: Tables) -> Tables {
    Tables {
        unigrams: merge(stored.unigrams, delta.unigrams),
        bigrams: merge(stored.bigrams, delta.bigrams),
    }
}

/// Both tables of `stored` with the entries of `totals` written over them.
pub open spec fn overwrite(stored: Tables, totals: Tables) -> Tables {
    Tables {
        unigrams: stored.unigrams.union_prefer_right(totals.unigrams),
        bigrams: stored.bigrams.union_prefer_right(totals.bigrams),
    }
}

/// `out` gives, row by row, the key of `delta` with its stored count plus
/// its delta.
pub open spec fn totals_of(stored: Table, delta: Seq<Row>, out: Seq<Row>) -> bool {
    &&& out.len() == delta.len()
    &&& forall|i: int|
        0 <= i < out.len() ==> key_of(#[trigger] out[i].0) == key_of(delta[i].0) && out[i].1
            == saturating(tally(stored, key_of(delta[i].0)) + delta[i].1 as nat)
}

/// The deltas of a file: each of its lines counted in turn from nothing,
/// after dropping non-content tokens.
pub open spec fn file_delta(lines: Seq<Seq<Seq<char>>>) -> Tables
    decreases lines.len(),
{
    if lines.len() == 0 {
        no_tables()
    } else {
        observe(file_delta(lines.drop_last()), retained(lines.last()))
    }
}

/// The store after a file named `name` with tokenized lines `lines` is
/// ingested: a file already recorded is skipped; otherwise its deltas are
/// merged in and its name recorded.
pub open spec fn ingest(s: StoreView, name: Seq<char>, lines: Seq<Seq<Seq<char>>>) -> StoreView {
    if s.done.contains(name) {
        s
    } else {
        StoreView { counts: merge_tables(s.counts, file_delta(lines)), done: s.done.insert(name) }
    }
}

/// The token views of each line.
pub open spec fn line_views(lines: Seq<Vec<String>>) -> Seq<Seq<Seq<char>>> {
    lines.map_values(|l: Vec<String>| views(l@))
}

/// Committed counts and the ledger of processed files.
pub struct Store {
    unigrams: FreqTable,
    bigrams: FreqTable,
    done: TokenMap,
    open_batches: u64,
}

impl View for Store {
    type V = StoreView;

    closed spec fn view(&self) -> StoreView {
        StoreView {
            counts: Tables { unigrams: self.unigrams@, bigrams: self.bigrams@ },
            done: Set::new(|n: Seq<char>| dash_contents(self.done).dom().contains(seq![n])),
        }
    }
}

/// Writes the count of each row over `table`, a later row winning.
fn write_rows(table: &mut FreqTable, rows: &Vec<Row>)
    ensures
        final(table)@ == old(table)@.union_prefer_right(rows_table(rows@)),
{
    let ghost start = table@;
    let n = rows.len();
    for i in 0..n
        invariant
            n == rows@.len(),
            table@ == start.union_prefer_right(rows_table(rows@.subrange(0, i as int))),
    {
        let row = &rows[i];
        proof {
            let pre = rows@.subrange(0, i + 1);
            assert(pre.drop_last() =~= rows@.subrange(0, i as int));
            assert(pre.last() == rows@[i as int]);
        }
        let key = row.0.clone();
        proof {
            assert(views(key@) =~= views(row.0@));
        }
        table.set(key, row.1);
        proof {
            let pre = rows@.subrange(0, i + 1);
            assert(table@ =~= start.union_prefer_right(rows_table(pre)));
        }
    }
    proof {
        assert(rows@.subrange(0, n as int) =~= rows@);
    }
}

/// Each row's key with its stored count plus the row's delta.
fn stage_rows(table: &FreqTable, rows: &Vec<Row>) -> (out: Vec<Row>)
    ensures
        totals_of(table@, rows@, out@),
{
    let mut out: Vec<Row> = Vec::new();
    let n = rows.len();
    let mut i: usize = 0;
    while i < n
        invariant
            n == rows@.len(),
            i <= n,
            out@.len() == i,
            forall|j: int|
                0 <= j < i ==> key_of(#[trigger] out@[j].0) == key_of(rows@[j].0) && out@[j].1
                    == saturating(tally(table@, key_of(rows@[j].0)) + rows@[j].1 as nat),
        decreases n - i,
    {
        let row = &rows[i];
        let key = row.0.clone();
        proof {
            assert(views(key@) =~= views(row.0@));
        }
        let c = table.count(&key);
        let total = c.saturating_add(row.1);
        out.push((key, total));
        i = i + 1;
    }
    out
}

/// A split with nothing left over hands the whole table to the part.
pub proof fn lemma_split_all(whole: Table, part: Table)
    requires
        splits(whole, part, crate::ngram::empty_table()),
    ensures
        part == whole,
{
    assert(part =~= whole);
}

/// Writing the staged totals of a batch over the stored counts is the upsert
/// of the batch's deltas.
pub proof fn lemma_stage_commit(stored: Table, delta: Seq<Row>, out: Seq<Row>)
    requires
        rows_distinct(delta),
        totals_of(stored, delta, out),
    ensures
        stored.union_prefer_right(rows_table(out)) == merge(stored, rows_table(delta)),
{
    assert(rows_distinct(out)) by {
        assert forall|i: int, j: int| 0 <= i < j < out.len() implies key_of(#[trigger] out[i].0)
            != key_of(#[trigger] out[j].0) by {
            assert(key_of(delta[i].0) != key_of(delta[j].0));
        }
    }
    crate::table::lemma_rows_table(delta);
    crate::table::lemma_rows_table(out);
    let lhs = stored.union_prefer_right(rows_table(out));
    let rhs = merge(stored, rows_table(delta));
    assert forall|k: crate::ngram::Ngram| #[trigger] lhs.dom().contains(k) <==> rhs.dom().contains(k) by {
        if rows_table(out).dom().contains(k) {
            let i = choose|i: int| 0 <= i < out.len() && key_of(out[i].0) == k;
            assert(key_of(delta[i].0) == k);
        }
        if rows_table(delta).dom().contains(k) {
            let i = choose|i: int| 0 <= i < delta.len() && key_of(delta[i].0) == k;
            assert(key_of(out[i].0) == k);
        }
    }
    assert forall|k: crate::ngram::Ngram| #[trigger] lhs.dom().contains(k) implies lhs[k] == rhs[k] by {
        if rows_table(out).dom().contains(k) {
            let i = choose|i: int| 0 <= i < out.len() && key_of(out[i].0) == k;
            assert(key_of(delta[i].0) == k);
            assert(rows_table(out)[key_of(out[i].0)] == out[i].1);
            assert(rows_table(delta)[key_of(delta[i].0)] == delta[i].1);
        } else {
            if rows_table(delta).dom().contains(k) {
                let i = choose|i: int| 0 <= i < delta.len() && key_of(delta[i].0) == k;
                assert(key_of(out[i].0) == k);
                assert(rows_table(out).dom().contains(k));
            }
        }
    }
    assert(lhs =~= rhs);
}

impl Store {
    /// How many staged batches are not committed yet (clamped at the largest
    /// `u64`).
    pub closed spec fn unsettled(&self) -> nat {
        self.open_batches as nat
    }

    /// A store with no count, no file recorded and nothing staged.
    pub fn new() -> (s: Store)
        ensures
            s@.counts == no_tables(),
            s@.done == Set::<Seq<char>>::empty(),
            s.unsettled() == 0,
    {
        let s = Store {
            unigrams: FreqTable::new(),
            bigrams: FreqTable::new(),
            done: dash_new(),
            open_batches: 0,
        };
        assert(s@.done =~= Set::<Seq<char>>::empty());
        s
    }

    /// The committed count of a unigram key.
    pub fn unigram_count(&self, key: &Vec<String>) -> (r: u64)
        ensures
            r == tally(self@.counts.unigrams, key_of(*key)),
    {
        self.unigrams.count(key)
    }

    /// The committed count of a bigram key.
    pub fn bigram_count(&self, key: &Vec<String>) -> (r: u64)
        ensures
            r == tally(self@.counts.bigrams, key_of(*key)),
    {
        self.bigrams.count(key)
    }

    /// Every committed unigram entry, each once.
    pub fn unigram_rows(&self) -> (r: Vec<Row>)
        ensures
            crate::table::rows_match(r@, self@.counts.unigrams),
    {
        self.unigrams.rows()
    }

    /// Every committed bigram entry, each once.
    pub fn bigram_rows(&self) -> (r: Vec<Row>)
        ensures
            crate::table::rows_match(r@, self@.counts.bigrams),
    {
        self.bigrams.rows()
    }

    /// Whether the file `name` is recorded as processed.
    pub fn is_done(&self, name: &String) -> (r: bool)
        ensures
            r == self@.done.contains(name@),
    {
        let key = vec![name.clone()];
        proof {
            assert(key_of(key) =~= seq![name@]);
        }
        dash_get(&self.done, &key).is_some()
    }

    /// The new totals that committing `batch` would write, one row per row
    /// of the batch. Counts and ledger are not changed; the batch is counted
    /// as staged until its totals are committed. A batch lists each key once.
    pub fn stage(&mut self, batch: &Batch) -> (totals: Batch)
        requires
            batch.wf(),
        ensures
            final(self)@ == old(self)@,
            old(self).unsettled() < u64::MAX ==> final(self).unsettled() == old(self).unsettled() + 1,
            old(self).unsettled() == u64::MAX ==> final(self).unsettled() == old(self).unsettled(),
            totals_of(old(self)@.counts.unigrams, batch.unigrams@, totals.unigrams@),
            totals_of(old(self)@.counts.bigrams, batch.bigrams@, totals.bigrams@),
    {
        let totals = Batch {
            unigrams: stage_rows(&self.unigrams, &batch.unigrams),
            bigrams: stage_rows(&self.bigrams, &batch.bigrams),
        };
        self.open_batches = self.open_batches.saturating_add(1);
        totals
    }

    /// Writes durable totals into the store (a later row winning on a
    /// repeated key), settling one staged batch; also how stored counts are
    /// loaded, with nothing staged.
    pub fn commit(&mut self, totals: &Batch)
        ensures
            final(self)@.counts == overwrite(old(self)@.counts, totals.tables()),
            final(self)@.done == old(self)@.done,
            old(self).unsettled() == 0 ==> final(self).unsettled() == 0,
            old(self).unsettled() > 0 ==> final(self).unsettled() == old(self).unsettled() - 1,
    {
        write_rows(&mut self.unigrams, &totals.unigrams);
        write_rows(&mut self.bigrams, &totals.bigrams);
        if self.open_batches > 0 {
            self.open_batches = self.open_batches - 1;
        }
    }

    /// Records `name` as processed, only when nothing is left in `pending`
    /// and every staged batch is committed; the result says whether it was
    /// recorded. The caller stages and commits every batch it draws from
    /// `pending` before recording the file.
    pub fn record_done(&mut self, name: String, pending: &Accumulator) -> (r: bool)
        ensures
            r == (pending@ == no_tables() && old(self).unsettled() == 0),
            r ==> final(self)@.done == old(self)@.done.insert(name@),
            !r ==> final(self)@.done == old(self)@.done,
            final(self)@.counts == old(self)@.counts,
            final(self).unsettled() == old(self).unsettled(),
    {
        if !pending.is_empty() || self.open_batches != 0 {
            return false;
        }
        let key = vec![name];
        let ghost n0 = key@[0]@;
        proof {
            assert(key_of(key) =~= seq![n0]);
        }
        dash_insert(&mut self.done, key, 1);
        proof {
            assert forall|n: Seq<char>| #[trigger] self@.done.contains(n) == old(self)@.done.insert(
                n0,
            ).contains(n) by {
                if seq![n] == seq![n0] {
                    assert(seq![n][0] == seq![n0][0]);
                }
            }
            assert(self@.done =~= old(self)@.done.insert(n0));
        }
        true
    }

    /// Ingests a whole tokenized file held in memory: a file already
    /// recorded is skipped; otherwise every line is counted, the deltas are
    /// committed and the file is recorded. The result says whether it was
    /// processed.
    pub fn ingest_file(&mut self, name: String, lines: &Vec<Vec<String>>) -> (processed: bool)
        requires
            old(self).unsettled() == 0,
        ensures
            final(self).unsettled() == 0,
            processed == !old(self)@.done.contains(name@),
            final(self)@ == ingest(old(self)@, name@, line_views(lines@)),
    {
        if self.is_done(&name) {
            return false;
        }
        let ghost ls = line_views(lines@);
        let mut acc = Accumulator::new();
        let n = lines.len();
        let mut i: usize = 0;
        proof {
            assert(ls.subrange(0, 0) =~= Seq::<Seq<Seq<char>>>::empty());
        }
        while i < n
            invariant
                n == lines@.len(),
                ls == line_views(lines@),
                i <= n,
                acc@ == file_delta(ls.subrange(0, i as int)),
                self.unsettled() == 0,
            decreases n - i,
        {
            proof {
                let pre = ls.subrange(0, i + 1);
                assert(pre.drop_last() =~= ls.subrange(0, i as int));
                assert(pre.last() == views(lines@[i as int]@));
            }
            acc.observe_tokens(&lines[i]);
            i = i + 1;
        }
        proof {
            assert(ls.subrange(0, n as int) =~= ls);
        }
        let ghost delta = acc@;
        let batch = acc.take_all();
        proof {
            lemma_split_all(delta.unigrams, batch.tables().unigrams);
            lemma_split_all(delta.bigrams, batch.tables().bigrams);
        }
        let ghost before = self@.counts;
        let totals = self.stage(&batch);
        proof {
            assert(self@.counts == before);
            lemma_stage_commit(self@.counts.unigrams, batch.unigrams@, totals.unigrams@);
            lemma_stage_commit(self@.counts.bigrams, batch.bigrams@, totals.bigrams@);
        }
        self.commit(&totals);
        self.record_done(name, &acc);
        true
    }
}

/// A file as the run sees it: its name and its tokenized lines.
pub type FileInput = (Seq<char>, Seq<Seq<Seq<char>>>);

/// The store after ingesting `files` in order.
pub open spec fn run(s: StoreView, files: Seq<FileInput>) -> StoreView
    decreases files.len(),
{
    if files.len() == 0 {
        s
    } else {
        ingest(run(s, files.drop_last()), files.last().0, files.last().1)
    }
}

/// A run records every file it sees and forgets none it knew.
pub proof fn lemma_run_records(s: StoreView, files: Seq<FileInput>)
    ensures
        s.done.subset_of(run(s, files).done),
        forall|i: int| 0 <= i < files.len() ==> run(s, files).done.contains(#[trigger] files[i].0),
    decreases files.len(),
{
    if files.len() > 0 {
        lemma_run_records(s, files.drop_last());
        assert forall|i: int| 0 <= i < files.len() implies run(s, files).done.contains(
            #[trigger] files[i].0,
        ) by {
            if i < files.len() - 1 {
                assert(files.drop_last()[i] == files[i]);
            }
        }
    }
}

/// A run over files that are all recorded changes nothing.
pub proof fn lemma_run_recorded(s: StoreView, files: Seq<FileInput>)
    requires
        forall|i: int| 0 <= i < files.len() ==> s.done.contains(#[trigger] files[i].0),
    ensures
        run(s, files) == s,
    decreases files.len(),
{
    if files.len() > 0 {
        assert forall|i: int| 0 <= i < files.len() - 1 implies s.done.contains(
            #[trigger] files.drop_last()[i].0,
        ) by {
            assert(files.drop_last()[i] == files[i]);
        }
        lemma_run_recorded(s, files.drop_last());
        assert(s.done.contains(files[files.len() - 1].0));
    }
}

/// A run over two lists of files is the run over the first, then the second.
pub proof fn lemma_run_concat(s: StoreView, a: Seq<FileInput>, b: Seq<FileInput>)
    ensures
        run(s, a + b) == run(run(s, a), b),
    decreases b.len(),
{
    if b.len() == 0 {
        assert(a + b =~= a);
    } else {
        lemma_run_concat(s, a, b.drop_last());
        assert((a + b).drop_last() =~= a + b.drop_last());
    }
}

/// Resuming never counts twice: a run interrupted after its first `m` files
/// (each committed and recorded), then started again over all the files,
/// ends with the same store as one uninterrupted run; running again after a
/// complete run changes nothing.
pub proof fn lemma_resume_idempotent(s: StoreView, files: Seq<FileInput>, m: int)
    requires
        0 <= m <= files.len(),
    ensures
        run(run(s, files.take(m)), files) == run(s, files),
        run(run(s, files), files) == run(s, files),
{
    let a = files.take(m);
    let b = files.skip(m);
    assert(files =~= a + b);
    lemma_run_concat(s, a, b);
    lemma_run_concat(run(s, a), a, b);
    lemma_run_records(s, a);
    lemma_run_recorded(run(s, a), a);
    lemma_run_records(s, files);
    lemma_run_recorded(run(s, files), files);
}

/// A file already recorded is skipped: ingesting it again leaves counts and
/// ledger as they were.
pub proof fn lemma_recorded_file_skipped(s: StoreView, name: Seq<char>, lines: Seq<Seq<Seq<char>>>)
    requires
        s.done.contains(name),
    ensures
        ingest(s, name, lines) == s,
{
}

/// `part` holds some of the entries of `whole`, with the same counts.
pub open spec fn sub_tables(part: Tables, whole: Tables) -> bool {
    &&& part.unigrams.submap_of(whole.unigrams)
    &&& part.bigrams.submap_of(whole.bigrams)
}

/// A commit that was interrupted is harmless: nothing written leaves the
/// stored counts as they were, and after any part of the staged totals was
/// written, writing all of them gives the same counts as one clean commit.
pub proof fn lemma_retry_after_interrupted_commit(stored: Tables, totals: Tables, partial: Tables)
    requires
        sub_tables(partial, totals),
    ensures
        overwrite(stored, no_tables()) == stored,
        overwrite(overwrite(stored, partial), totals) == overwrite(stored, totals),
{
    assert(overwrite(stored, no_tables()).unigrams =~= stored.unigrams);
    assert(overwrite(stored, no_tables()).bigrams =~= stored.bigrams);
    assert(overwrite(overwrite(stored, partial), totals).unigrams =~= overwrite(
        stored,
        totals,
    ).unigrams);
    assert(overwrite(overwrite(stored, partial), totals).bigrams =~= overwrite(
        stored,
        totals,
    ).bigrams);
}

/// A batch whose commit was interrupted, then retried, ends as if nothing had
/// gone wrong: with the totals staged for the batch, whatever part of them
/// was written before the interruption, writing them all leaves each key at
/// its stored count plus the batch's delta.
pub proof fn lemma_interrupted_batch_retried(stored: Tables, batch: Batch, totals: Batch, partial: Tables)
    requires
        batch.wf(),
        totals_of(stored.unigrams, batch.unigrams@, totals.unigrams@),
        totals_of(stored.bigrams, batch.bigrams@, totals.bigrams@),
        sub_tables(partial, totals.tables()),
    ensures
        overwrite(overwrite(stored, partial), totals.tables()) == merge_tables(stored, batch.tables()),
{
    lemma_retry_after_interrupted_commit(stored, totals.tables(), partial);
    lemma_stage_commit(stored.unigrams, batch.unigrams@, totals.unigrams@);
    lemma_stage_commit(stored.bigrams, batch.bigrams@, totals.bigrams@);
}

/// The count a merge gives a key, whether or not the key has an entry.
proof fn lemma_merge_tally(stored: Table, delta: Table, k: crate::ngram::Ngram)
    ensures
        tally(merge(stored, delta), k) == saturating(tally(stored, k) + tally(delta, k)) as nat,
{
}

/// Upserting two deltas gives the same counts in either order.
pub proof fn lemma_merge_commutes(c: Table, a: Table, b: Table)
    ensures
        merge(merge(c, a), b) == merge(merge(c, b), a),
{
    let l = merge(merge(c, a), b);
    let r = merge(merge(c, b), a);
    assert forall|k: crate::ngram::Ngram| #[trigger] l.dom().contains(k) implies l[k] == r[k] by {
        lemma_merge_tally(c, a, k);
        lemma_merge_tally(c, b, k);
    }
    assert(l =~= r);
}

/// Two different files can be ingested in either order.
proof fn lemma_ingest_commutes(u: StoreView, f: FileInput, g: FileInput)
    requires
        f.0 != g.0,
    ensures
        ingest(ingest(u, g.0, g.1), f.0, f.1) == ingest(ingest(u, f.0, f.1), g.0, g.1),
{
    let df = file_delta(f.1);
    let dg = file_delta(g.1);
    lemma_merge_commutes(u.counts.unigrams, df.unigrams, dg.unigrams);
    lemma_merge_commutes(u.counts.bigrams, df.bigrams, dg.bigrams);
    assert(u.done.insert(f.0).insert(g.0) =~= u.done.insert(g.0).insert(f.0));
}

/// Ingesting a file first, or after a run over files of other names, ends
/// the same.
proof fn lemma_run_ingest_commutes(u: StoreView, f: FileInput, fs: Seq<FileInput>)
    requires
        forall|i: int| 0 <= i < fs.len() ==> (#[trigger] fs[i]).0 != f.0,
    ensures
        run(ingest(u, f.0, f.1), fs) == ingest(run(u, fs), f.0, f.1),
    decreases fs.len(),
{
    if fs.len() > 0 {
        let gs = fs.drop_last();
        let g = fs.last();
        assert(g == fs[fs.len() - 1]);
        assert forall|i: int| 0 <= i < gs.len() implies (#[trigger] gs[i]).0 != f.0 by {
            assert(gs[i] == fs[i]);
        }
        lemma_run_ingest_commutes(u, f, gs);
        lemma_ingest_commutes(run(u, gs), f, g);
    }
}

/// Resuming never counts twice, whichever files an interrupted run got to:
/// when the files kept by `committed` were ingested before (in directory
/// order) and then the run starts again over all the files, it ends with the
/// same store as one uninterrupted run. File names in a directory are
/// distinct.
pub proof fn lemma_resume_after_committed_subset(
    s: StoreView,
    files: Seq<FileInput>,
    committed: spec_fn(FileInput) -> bool,
)
    requires
        forall|i: int, j: int|
            0 <= i < j < files.len() ==> (#[trigger] files[i]).0 != (#[trigger] files[j]).0,
    ensures
        run(run(s, files.filter(committed)), files) == run(s, files),
    decreases files.len(),
{
    reveal(Seq::filter);
    if files.len() > 0 {
        let fs = files.drop_last();
        let f = files.last();
        assert(f == files[files.len() - 1]);
        assert forall|i: int, j: int| 0 <= i < j < fs.len() implies (#[trigger] fs[i]).0 != (
        #[trigger] fs[j]).0 by {
            assert(fs[i] == files[i] && fs[j] == files[j]);
        }
        assert forall|i: int| 0 <= i < fs.len() implies (#[trigger] fs[i]).0 != f.0 by {
            assert(fs[i] == files[i]);
        }
        lemma_resume_after_committed_subset(s, fs, committed);
        let u = run(s, fs.filter(committed));
        lemma_run_ingest_commutes(u, f, fs);
        if committed(f) {
            assert(files.filter(committed) == fs.filter(committed).push(f));
            assert(files.filter(committed).drop_last() =~= fs.filter(committed));
            assert(run(s, files.filter(committed)) == ingest(u, f.0, f.1));
        } else {
            assert(files.filter(committed) == fs.filter(committed));
        }
    }
}

/// The unigram keys a file contributes, line after line.
pub open spec fn file_unigram_keys(lines: Seq<Seq<Seq<char>>>) -> Seq<crate::ngram::Ngram>
    decreases lines.len(),
{
    if lines.len() == 0 {
        Seq::empty()
    } else {
        file_unigram_keys(lines.drop_last()) + crate::ngram::unigram_keys(retained(lines.last()))
    }
}

/// The bigram keys a file contributes, line after line.
pub open spec fn file_bigram_keys(lines: Seq<Seq<Seq<char>>>) -> Seq<crate::ngram::Ngram>
    decreases lines.len(),
{
    if lines.len() == 0 {
        Seq::empty()
    } else {
        file_bigram_keys(lines.drop_last()) + crate::ngram::bigram_keys(retained(lines.last()))
    }
}

/// The unigram keys of the files a run counts: those not recorded in `done`.
pub open spec fn pending_unigram_keys(done: Set<Seq<char>>, files: Seq<FileInput>) -> Seq<
    crate::ngram::Ngram,
>
    decreases files.len(),
{
    if files.len() == 0 {
        Seq::empty()
    } else {
        pending_unigram_keys(done, files.drop_last()) + if done.contains(files.last().0) {
            Seq::empty()
        } else {
            file_unigram_keys(files.last().1)
        }
    }
}

/// The bigram keys of the files a run counts: those not recorded in `done`.
pub open spec fn pending_bigram_keys(done: Set<Seq<char>>, files: Seq<FileInput>) -> Seq<
    crate::ngram::Ngram,
>
    decreases files.len(),
{
    if files.len() == 0 {
        Seq::empty()
    } else {
        pending_bigram_keys(done, files.drop_last()) + if done.contains(files.last().0) {
            Seq::empty()
        } else {
            file_bigram_keys(files.last().1)
        }
    }
}

/// A file's deltas are its keys counted from nothing.
proof fn lemma_file_delta_keys(lines: Seq<Seq<Seq<char>>>)
    ensures
        file_delta(lines).unigrams == crate::ngram::bump_all(
            crate::ngram::empty_table(),
            file_unigram_keys(lines),
        ),
        file_delta(lines).bigrams == crate::ngram::bump_all(
            crate::ngram::empty_table(),
            file_bigram_keys(lines),
        ),
    decreases lines.len(),
{
    if lines.len() > 0 {
        lemma_file_delta_keys(lines.drop_last());
        let r = retained(lines.last());
        crate::ngram::lemma_bump_all_concat(
            crate::ngram::empty_table(),
            file_unigram_keys(lines.drop_last()),
            crate::ngram::unigram_keys(r),
        );
        crate::ngram::lemma_bump_all_concat(
            crate::ngram::empty_table(),
            file_bigram_keys(lines.drop_last()),
            crate::ngram::bigram_keys(r),
        );
    }
}

/// A run records only files it saw or that were recorded before.
proof fn lemma_run_records_only(s: StoreView, files: Seq<FileInput>, n: Seq<char>)
    requires
        run(s, files).done.contains(n),
        forall|i: int| 0 <= i < files.len() ==> (#[trigger] files[i]).0 != n,
    ensures
        s.done.contains(n),
    decreases files.len(),
{
    if files.len() > 0 {
        let fs = files.drop_last();
        assert forall|i: int| 0 <= i < fs.len() implies (#[trigger] fs[i]).0 != n by {
            assert(fs[i] == files[i]);
        }
        assert(files.last() == files[files.len() - 1]);
        lemma_run_records_only(s, fs, n);
    }
}

/// No increment is lost over a whole run: with distinct file names, every
/// key ends at its stored count plus its occurrences in all files the run
/// counts (those not recorded before), however the counting was ordered;
/// counts clamp at the largest value.
pub proof fn lemma_run_counts(s: StoreView, files: Seq<FileInput>, k: crate::ngram::Ngram)
    requires
        forall|i: int, j: int|
            0 <= i < j < files.len() ==> (#[trigger] files[i]).0 != (#[trigger] files[j]).0,
    ensures
        tally(run(s, files).counts.unigrams, k) == saturating(
            tally(s.counts.unigrams, k) + crate::ngram::occurrences(
                pending_unigram_keys(s.done, files),
                k,
            ),
        ),
        tally(run(s, files).counts.bigrams, k) == saturating(
            tally(s.counts.bigrams, k) + crate::ngram::occurrences(
                pending_bigram_keys(s.done, files),
                k,
            ),
        ),
    decreases files.len(),
{
    if files.len() > 0 {
        let fs = files.drop_last();
        let f = files.last();
        assert(f == files[files.len() - 1]);
        assert forall|i: int, j: int| 0 <= i < j < fs.len() implies (#[trigger] fs[i]).0 != (
        #[trigger] fs[j]).0 by {
            assert(fs[i] == files[i] && fs[j] == files[j]);
        }
        lemma_run_counts(s, fs, k);
        let t = run(s, fs);
        if t.done.contains(f.0) {
            assert forall|i: int| 0 <= i < fs.len() implies (#[trigger] fs[i]).0 != f.0 by {
                assert(fs[i] == files[i]);
            }
            lemma_run_records_only(s, fs, f.0);
            assert(pending_unigram_keys(s.done, files) =~= pending_unigram_keys(s.done, fs));
            assert(pending_bigram_keys(s.done, files) =~= pending_bigram_keys(s.done, fs));
        } else {
            lemma_run_records(s, fs);
            assert(!s.done.contains(f.0));
            lemma_file_delta_keys(f.1);
            let d = file_delta(f.1);
            lemma_merge_tally(t.counts.unigrams, d.unigrams, k);
            lemma_merge_tally(t.counts.bigrams, d.bigrams, k);
            crate::ngram::lemma_bump_all(crate::ngram::empty_table(), file_unigram_keys(f.1), k);
            crate::ngram::lemma_bump_all(crate::ngram::empty_table(), file_bigram_keys(f.1), k);
            crate::ngram::lemma_occurrences_concat(
                pending_unigram_keys(s.done, fs),
                file_unigram_keys(f.1),
                k,
            );
            crate::ngram::lemma_occurrences_concat(
                pending_bigram_keys(s.done, fs),
                file_bigram_keys(f.1),
                k,
            );
        }
    }
}

} // verus!
