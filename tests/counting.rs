use ngram_freq::accum::Accumulator;
use ngram_freq::filter::{is_non_content_token, retain_content};
use ngram_freq::intern::Interner;
use ngram_freq::store::Store;
use ngram_freq::table::FreqTable;
use rayon::iter::{IntoParallelIterator, ParallelIterator};

fn key(ws: &[&str]) -> Vec<String> {
    ws.iter().map(|w| w.to_string()).collect()
}

fn toks(ws: &[&str]) -> Vec<String> {
    key(ws)
}

#[test]
fn filter_keeps_content_tokens_in_order() {
    let r = retain_content(&toks(&["the", " ", "cat", "!", "sat"]));
    assert_eq!(r, toks(&["the", "cat", "sat"]));
}

#[test]
fn filtered_tokens_are_skipped_in_bigrams() {
    let mut acc = Accumulator::new();
    acc.observe_tokens(&toks(&["the", " ", "cat", "!", "sat"]));
    let mut store = Store::new();
    let b = acc.take_all();
    let totals = store.stage(&b);
    store.commit(&totals);
    assert_eq!(store.bigram_count(&key(&["the", "cat"])), 1);
    assert_eq!(store.bigram_count(&key(&["cat", "sat"])), 1);
    assert_eq!(store.bigram_count(&key(&["the", " "])), 0);
    assert_eq!(store.bigram_count(&key(&["cat", "!"])), 0);
    assert_eq!(store.bigram_rows().len(), 2);
    assert_eq!(store.unigram_rows().len(), 3);
    assert_eq!(store.unigram_count(&key(&[" "])), 0);
    assert_eq!(store.unigram_count(&key(&["!"])), 0);
}

#[test]
fn non_content_predicate() {
    assert!(is_non_content_token(""));
    assert!(is_non_content_token(" "));
    assert!(is_non_content_token("\t\r\n"));
    assert!(is_non_content_token("."));
    assert!(is_non_content_token("!?"));
    assert!(is_non_content_token("。"));
    assert!(is_non_content_token("，"));
    assert!(is_non_content_token("“"));
    assert!(is_non_content_token("”"));
    assert!(is_non_content_token("——"));
    assert!(is_non_content_token("《》"));
    assert!(is_non_content_token("\u{7}"));
    assert!(!is_non_content_token("cat"));
    assert!(!is_non_content_token("a!"));
    assert!(!is_non_content_token("猫"));
    assert!(!is_non_content_token("42"));
}

#[test]
fn single_token_line_has_no_bigram() {
    let mut acc = Accumulator::new();
    acc.observe_tokens(&toks(&["alone"]));
    acc.observe_tokens(&toks(&[]));
    acc.observe_tokens(&toks(&["!", " "]));
    let b = acc.take_all();
    assert_eq!(b.unigrams.len(), 1);
    assert_eq!(b.bigrams.len(), 0);
    assert_eq!(b.unigrams[0], (key(&["alone"]), 1));
}

#[test]
fn repeated_pairs_are_counted() {
    let mut acc = Accumulator::new();
    acc.observe_tokens(&toks(&["a", "b", "a", "b"]));
    let mut store = Store::new();
    let totals = store.stage(&acc.take_all());
    store.commit(&totals);
    assert_eq!(store.unigram_count(&key(&["a"])), 2);
    assert_eq!(store.unigram_count(&key(&["b"])), 2);
    assert_eq!(store.bigram_count(&key(&["a", "b"])), 2);
    assert_eq!(store.bigram_count(&key(&["b", "a"])), 1);
}

#[test]
fn no_lost_update_from_many_producers() {
    let mut store = Store::new();
    let mut first = Accumulator::new();
    for _ in 0..5 {
        first.observe_tokens(&toks(&["x"]));
    }
    let t = store.stage(&first.take_all());
    store.commit(&t);
    assert_eq!(store.unigram_count(&key(&["x"])), 5);

    let (tx, rx) = std::sync::mpsc::channel::<Vec<String>>();
    (0..1000u32).into_par_iter().for_each_with(tx, |tx, i| {
        let line = if i % 2 == 0 { toks(&["x", "y"]) } else { toks(&["y", "x"]) };
        tx.send(line).unwrap();
    });
    let mut acc = Accumulator::new();
    for line in rx {
        acc.observe_tokens(&line);
    }
    let t = store.stage(&acc.take_all());
    store.commit(&t);
    assert_eq!(store.unigram_count(&key(&["x"])), 1005);
    assert_eq!(store.unigram_count(&key(&["y"])), 1000);
    assert_eq!(store.bigram_count(&key(&["x", "y"])) + store.bigram_count(&key(&["y", "x"])), 1000);
}

#[test]
fn counts_saturate_at_the_largest_value() {
    let mut t = FreqTable::new();
    t.add(key(&["k"]), u64::MAX - 1);
    assert_eq!(t.count(&key(&["k"])), u64::MAX - 1);
    t.add(key(&["k"]), 5);
    assert_eq!(t.count(&key(&["k"])), u64::MAX);
    t.bump(key(&["k"]));
    assert_eq!(t.count(&key(&["k"])), u64::MAX);
}

#[test]
fn table_basics() {
    let mut t = FreqTable::new();
    assert!(t.is_empty());
    assert_eq!(t.count(&key(&["a"])), 0);
    t.bump(key(&["a"]));
    t.bump(key(&["a"]));
    t.set(key(&["b", "c"]), 7);
    assert!(!t.is_empty());
    assert_eq!(t.count(&key(&["a"])), 2);
    assert_eq!(t.count(&key(&["b", "c"])), 7);
    let mut rows = t.rows();
    rows.sort();
    assert_eq!(rows, vec![(key(&["a"]), 2), (key(&["b", "c"]), 7)]);
    t.remove(&key(&["a"]));
    assert_eq!(t.count(&key(&["a"])), 0);
    assert_eq!(t.rows().len(), 1);
}

#[test]
fn batches_are_bounded_and_drain_everything() {
    let mut acc = Accumulator::new();
    acc.observe_tokens(&toks(&["p", "q", "r"]));
    let mut store = Store::new();
    let mut sizes = Vec::new();
    loop {
        let b = acc.take_batch(2);
        let n = b.unigrams.len() + b.bigrams.len();
        sizes.push(n);
        let t = store.stage(&b);
        store.commit(&t);
        if n < 2 {
            break;
        }
    }
    assert_eq!(sizes, vec![2, 2, 1]);
    assert!(acc.is_empty());
    assert_eq!(store.unigram_rows().len(), 3);
    assert_eq!(store.bigram_rows().len(), 2);
    assert_eq!(store.bigram_count(&key(&["q", "r"])), 1);
}

#[test]
fn next_batch_says_which_is_last() {
    let mut acc = Accumulator::new();
    acc.observe_tokens(&toks(&["p", "q"]));
    let (b, last) = acc.next_batch(2);
    assert_eq!(b.unigrams.len() + b.bigrams.len(), 2);
    assert!(!last);
    let (b, last) = acc.next_batch(2);
    assert_eq!(b.unigrams.len() + b.bigrams.len(), 1);
    assert!(last);
    let mut exact = Accumulator::new();
    exact.observe_tokens(&toks(&["p", "q"]));
    let (b, last) = exact.next_batch(3);
    assert_eq!(b.unigrams.len() + b.bigrams.len(), 3);
    assert!(last);
    let mut empty = Accumulator::new();
    let (b, last) = empty.next_batch(3);
    assert!(b.is_empty());
    assert!(last);
}

#[test]
fn zero_limit_batch_takes_nothing() {
    let mut acc = Accumulator::new();
    acc.observe_tokens(&toks(&["p"]));
    let b = acc.take_batch(0);
    assert!(b.is_empty());
    assert!(!acc.is_empty());
}

#[test]
fn upsert_adds_to_stored_counts() {
    let mut store = Store::new();
    let mut acc = Accumulator::new();
    acc.observe_tokens(&toks(&["w", "v"]));
    let t = store.stage(&acc.take_all());
    store.commit(&t);
    let mut acc = Accumulator::new();
    acc.observe_tokens(&toks(&["w", "v"]));
    acc.observe_tokens(&toks(&["w"]));
    let b = acc.take_all();
    let t = store.stage(&b);
    let mut staged = t.unigrams.clone();
    staged.sort();
    assert_eq!(staged, vec![(key(&["v"]), 2), (key(&["w"]), 3)]);
    assert_eq!(t.bigrams, vec![(key(&["w", "v"]), 2)]);
    store.commit(&t);
    assert_eq!(store.unigram_count(&key(&["w"])), 3);
    assert_eq!(store.bigram_count(&key(&["w", "v"])), 2);
}

#[test]
fn interrupted_commit_leaves_counts_and_retry_matches() {
    let mut clean = Store::new();
    let mut crashed = Store::new();
    for s in [&mut clean, &mut crashed] {
        let mut acc = Accumulator::new();
        acc.observe_tokens(&toks(&["base", "line"]));
        let t = s.stage(&acc.take_all());
        s.commit(&t);
    }
    let mut acc = Accumulator::new();
    acc.observe_tokens(&toks(&["base", "more", "line"]));
    let batch = acc.take_all();

    // The transaction never commits: nothing changes.
    let lost = crashed.stage(&batch);
    assert_eq!(crashed.unigram_count(&key(&["base"])), 1);
    assert_eq!(crashed.unigram_count(&key(&["more"])), 0);
    // Retrying from the unchanged store stages the same totals.
    let retry = crashed.stage(&batch);
    assert_eq!(retry.unigrams, lost.unigrams);
    assert_eq!(retry.bigrams, lost.bigrams);
    // Part of the totals was written before a crash; writing all of them again
    // gives the counts of one clean commit.
    let partial = ngram_freq::accum::Batch { unigrams: lost.unigrams[..1].to_vec(), bigrams: Vec::new() };
    crashed.commit(&partial);
    crashed.commit(&retry);

    let t = clean.stage(&batch);
    clean.commit(&t);
    let mut a = clean.unigram_rows();
    let mut b = crashed.unigram_rows();
    a.sort();
    b.sort();
    assert_eq!(a, b);
    let mut a = clean.bigram_rows();
    let mut b = crashed.bigram_rows();
    a.sort();
    b.sort();
    assert_eq!(a, b);
    assert_eq!(clean.unigram_count(&key(&["base"])), 2);
    assert_eq!(clean.unigram_count(&key(&["more"])), 1);
}

#[test]
fn file_is_recorded_only_when_nothing_is_pending() {
    let mut store = Store::new();
    let mut acc = Accumulator::new();
    acc.observe_tokens(&toks(&["z"]));
    assert!(!store.record_done("f.txt".to_string(), &acc));
    assert!(!store.is_done(&"f.txt".to_string()));
    let t = store.stage(&acc.take_all());
    store.commit(&t);
    assert!(store.record_done("f.txt".to_string(), &acc));
    assert!(store.is_done(&"f.txt".to_string()));
    assert!(!store.is_done(&"g.txt".to_string()));
    assert!(store.record_done("f.txt".to_string(), &acc));
    assert!(store.is_done(&"f.txt".to_string()));
}

#[test]
fn interner_assigns_dense_stable_ids() {
    let mut ids = Interner::new();
    assert_eq!(ids.len(), 0);
    assert_eq!(ids.id_of(&"cat".to_string()), None);
    assert_eq!(ids.resolve(&"cat".to_string()), Some(1));
    assert_eq!(ids.resolve(&"dog".to_string()), Some(2));
    assert_eq!(ids.resolve(&"cat".to_string()), Some(1));
    assert_eq!(ids.len(), 2);
    assert_eq!(ids.id_of(&"dog".to_string()), Some(2));
    assert_eq!(ids.word(1), Some("cat".to_string()));
    assert_eq!(ids.word(2), Some("dog".to_string()));
    assert_eq!(ids.word(0), None);
    assert_eq!(ids.word(3), None);
    assert_eq!(ids.resolve(&"猫".to_string()), Some(3));
    assert_eq!(ids.word(3), Some("猫".to_string()));
}

#[test]
fn file_is_not_recorded_while_a_staged_batch_is_uncommitted() {
    let mut store = Store::new();
    let mut acc = Accumulator::new();
    acc.observe_tokens(&toks(&["z", "w"]));
    let (batch, last) = acc.next_batch(10);
    assert!(last);
    let totals = store.stage(&batch);
    // Drawn and staged, but its totals are not committed yet.
    assert!(!store.record_done("f.txt".to_string(), &acc));
    assert!(!store.is_done(&"f.txt".to_string()));
    assert_eq!(store.unigram_count(&key(&["z"])), 0);
    store.commit(&totals);
    assert!(store.record_done("f.txt".to_string(), &acc));
    assert!(store.is_done(&"f.txt".to_string()));
    assert_eq!(store.unigram_count(&key(&["z"])), 1);
}
