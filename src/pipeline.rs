//! One file through the whole pipeline: the decision whether to read it, and
//! its lines from raw text to committed counts.
use crate::store::{ingest, Store};
use crate::text::{format_for, line_tokens_of, Format, Tokenizer, format_of};
use vstd::prelude::*;

verus! {

/// The token sequences of all lines of a file in format `f`, line after line.
pub open spec fn file_tokens_of(lines: Seq<Seq<char>>, f: Format) -> Seq<Seq<Seq<char>>>
    decreases lines.len(),
{
    if lines.len() == 0 {
        Seq::empty()
    } else {
        file_tokens_of(lines.drop_last(), f) + line_tokens_of(lines.last(), f)
    }
}

/// The character view of each line.
pub open spec fn line_texts(lines: Seq<String>) -> Seq<Seq<char>> {
    lines.map_values(|l: String| l@)
}

/// Whether and how the file `name` is read: not when it is already recorded
/// or its extension is not one that is read; otherwise in the format its
/// extension gives.
pub fn plan_file(store: &Store, name: &String) -> (r: Option<Format>)
    ensures
        store@.done.contains(name@) ==> r is None,
        !store@.done.contains(name@) ==> r == format_for(name@),
{
    if store.is_done(name) {
        None
    } else {
        format_of(name.as_str())
    }
}

/// Runs the file `name`, whose lines are `lines`, through the pipeline: a
/// file that is not read, or already recorded, is skipped without any
/// tokenization; otherwise each line is tokenized, its counts committed and
/// the file recorded. The result says whether the file was processed.
pub fn ingest_lines(store: &mut Store, tok: &Tokenizer, name: String, lines: &Vec<String>) -> (processed: bool)
    requires
        old(store).unsettled() == 0,
    ensures
        final(store).unsettled() == 0,
        format_for(name@) is None || old(store)@.done.contains(name@) ==> !processed
            && final(store)@ == old(store)@,
        format_for(name@) is Some && !old(store)@.done.contains(name@) ==> processed
            && final(store)@ == ingest(
            old(store)@,
            name@,
            file_tokens_of(line_texts(lines@), format_for(name@)->0),
        ),
{
    let f = match plan_file(store, &name) {
        None => return false,
        Some(f) => f,
    };
    let ghost texts = line_texts(lines@);
    let mut all: Vec<Vec<String>> = Vec::new();
    let n = lines.len();
    let mut i: usize = 0;
    proof {
        assert(texts.subrange(0, 0) =~= Seq::<Seq<char>>::empty());
        assert(crate::store::line_views(all@) =~= file_tokens_of(texts.subrange(0, 0), f));
    }
    while i < n
        invariant
            n == lines@.len(),
            texts == line_texts(lines@),
            i <= n,
            crate::store::line_views(all@) == file_tokens_of(texts.subrange(0, i as int), f),
        decreases n - i,
    {
        let mut more = tok.line_tokens(lines[i].as_str(), f);
        let ghost before = all@;
        let ghost added = more@;
        all.append(&mut more);
        proof {
            let pre = texts.subrange(0, i + 1);
            assert(pre.drop_last() =~= texts.subrange(0, i as int));
            assert(pre.last() == lines@[i as int]@);
            assert(crate::store::line_views(all@) =~= crate::store::line_views(before)
                + line_tokens_of(lines@[i as int]@, f));
        }
        i = i + 1;
    }
    proof {
        assert(texts.subrange(0, n as int) =~= texts);
    }
    store.ingest_file(name, &all)
}

} // verus!
