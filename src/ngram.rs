//! The counting model: n-gram keys of a line, saturating tallies, and the
//! upsert merge of a delta table into stored counts.
use vstd::prelude::*;

verus! {

/// An n-gram key: one token for a unigram, two for a bigram.
pub type Ngram = Seq<Seq<char>>;

/// A frequency table as a map from key to count.
pub type Table = Map<Ngram, u64>;

/// One unigram key per retained token, in order.
pub open spec fn unigram_keys(r: Seq<Seq<char>>) -> Seq<Ngram> {
    Seq::new(r.len(), |i: int| seq![r[i]])
}

/// One bigram key per pair of consecutive retained tokens, in order.
pub open spec fn bigram_keys(r: Seq<Seq<char>>) -> Seq<Ngram> {
    let n: nat = if r.len() == 0 { 0 } else { (r.len() - 1) as nat };
    Seq::new(n, |i: int| seq![r[i], r[i + 1]])
}

/// The count of `k` in `m`, zero where `m` has no entry.
pub open spec fn tally(m: Table, k: Ngram) -> nat {
    if m.dom().contains(k) {
        m[k] as nat
    } else {
        0
    }
}

/// `n` clamped to the largest count a table can hold.
pub open spec fn saturating(n: nat) -> u64 {
    if n > u64::MAX {
        u64::MAX
    } else {
        n as u64
    }
}

/// The table with no entry.
pub open spec fn empty_table() -> Table {
    Map::empty()
}

/// `m` after one more occurrence of `k`.
pub open spec fn bump(m: Table, k: Ngram) -> Table {
    m.insert(k, saturating(tally(m, k) + 1))
}

/// `m` after one occurrence of each key of `keys`, in order.
pub open spec fn bump_all(m: Table, keys: Seq<Ngram>) -> Table
    decreases keys.len(),
{
    if keys.len() == 0 {
        m
    } else {
        bump(bump_all(m, keys.drop_last()), keys.last())
    }
}

/// How many times `k` occurs in `keys`.
pub open spec fn occurrences(keys: Seq<Ngram>, k: Ngram) -> nat
    decreases keys.len(),
{
    if keys.len() == 0 {
        0
    } else {
        occurrences(keys.drop_last(), k) + if keys.last() == k {
            1nat
        } else {
            0nat
        }
    }
}

/// Stored counts after the upsert of `delta`: each key's stored count
/// (zero if absent) plus its delta.
pub open spec fn merge(stored: Table, delta: Table) -> Table {
    Map::new(
        |k: Ngram| stored.dom().contains(k) || delta.dom().contains(k),
        |k: Ngram| saturating(tally(stored, k) + tally(delta, k)),
    )
}

/// `whole` is split into `part` and `rest`: each entry of `whole` lies in
/// exactly one of them, with its count, and neither holds anything else.
pub open spec fn splits(whole: Table, part: Table, rest: Table) -> bool {
    &&& forall|k: Ngram| #[trigger]
        part.dom().contains(k) ==> whole.dom().contains(k) && part[k] == whole[k]
            && !rest.dom().contains(k)
    &&& forall|k: Ngram| #[trigger]
        rest.dom().contains(k) ==> whole.dom().contains(k) && rest[k] == whole[k]
    &&& forall|k: Ngram| #[trigger]
        whole.dom().contains(k) ==> part.dom().contains(k) || rest.dom().contains(k)
}

/// Moving one entry from `rest` to `part` keeps the split.
pub proof fn lemma_splits_move(whole: Table, part: Table, rest: Table, k: Ngram)
    requires
        splits(whole, part, rest),
        rest.dom().contains(k),
    ensures
        splits(whole, part.insert(k, rest[k]), rest.remove(k)),
{
    let moved = part.insert(k, rest[k]);
    let left = rest.remove(k);
    assert forall|j: Ngram| #[trigger] whole.dom().contains(j) implies moved.dom().contains(j)
        || left.dom().contains(j) by {
        assert(part.dom().contains(j) || rest.dom().contains(j));
    }
}

/// The count of every key after a sequence of increments is the count before
/// plus the number of increments of that key, whatever their order (clamped at
/// the largest count); keys never incremented keep their entry as it was.
pub proof fn lemma_bump_all(m: Table, keys: Seq<Ngram>, k: Ngram)
    ensures
        tally(bump_all(m, keys), k) == saturating(tally(m, k) + occurrences(keys, k)),
        bump_all(m, keys).dom().contains(k) <==> (m.dom().contains(k) || occurrences(keys, k)
            > 0),
        occurrences(keys, k) == 0 ==> bump_all(m, keys).dom().contains(k) == m.dom().contains(k)
            && (m.dom().contains(k) ==> bump_all(m, keys)[k] == m[k]),
    decreases keys.len(),
{
    if keys.len() > 0 {
        lemma_bump_all(m, keys.drop_last(), k);
    }
}

/// Increments of two sequences one after the other are the increments of
/// their concatenation.
pub proof fn lemma_bump_all_concat(m: Table, a: Seq<Ngram>, b: Seq<Ngram>)
    ensures
        bump_all(bump_all(m, a), b) == bump_all(m, a + b),
    decreases b.len(),
{
    if b.len() == 0 {
        assert(a + b =~= a);
    } else {
        lemma_bump_all_concat(m, a, b.drop_last());
        assert((a + b).drop_last() =~= a + b.drop_last());
        assert((a + b).last() == b.last());
    }
}

/// Occurrences in a concatenation add up.
pub proof fn lemma_occurrences_concat(a: Seq<Ngram>, b: Seq<Ngram>, k: Ngram)
    ensures
        occurrences(a + b, k) == occurrences(a, k) + occurrences(b, k),
    decreases b.len(),
{
    if b.len() == 0 {
        assert(a + b =~= a);
    } else {
        lemma_occurrences_concat(a, b.drop_last(), k);
        assert((a + b).drop_last() =~= a + b.drop_last());
    }
}

/// No increment is lost: after a run that increments a key `n` times, in any
/// order and interleaved with any other keys, merging the run's deltas into
/// the stored counts leaves that key at its stored count plus `n`.
pub proof fn lemma_no_lost_update(stored: Table, keys: Seq<Ngram>, k: Ngram)
    requires
        tally(stored, k) + occurrences(keys, k) <= u64::MAX,
    ensures
        tally(merge(stored, bump_all(empty_table(), keys)), k) == tally(stored, k) + occurrences(
            keys,
            k,
        ),
{
    lemma_bump_all(empty_table(), keys, k);
}

} // verus!
