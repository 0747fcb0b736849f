//! Unigram and bigram frequencies over a corpus of line-oriented text files.
//!
//! Lines are tokenized (`text`), non-content tokens dropped (`filter`), and
//! the remaining tokens counted into an in-memory accumulator of deltas
//! (`accum`, over the tables of `table`). Deltas are drained in bounded
//! batches and merged into the committed counts by upsert (`store`); a file
//! is recorded as processed only once nothing of it is left uncommitted, and
//! a recorded file is skipped on later runs (`pipeline`). `ngram` holds the
//! counting model the contracts are stated in; `intern` gives tokens dense
//! ids; `csv_out` writes tables as CSV.

pub mod accum;
pub mod csv_out;
pub mod filter;
pub mod intern;
pub mod ngram;
pub mod pipeline;
pub mod store;
pub mod table;
pub mod text;
