use ngram_freq::csv_out::encode_rows;
use ngram_freq::pipeline::{ingest_lines, plan_file};
use ngram_freq::store::Store;
use ngram_freq::text::{format_of, split_sublines, Format, Tokenizer};

fn key(ws: &[&str]) -> Vec<String> {
    ws.iter().map(|w| w.to_string()).collect()
}

fn lines(ls: &[&str]) -> Vec<String> {
    ls.iter().map(|l| l.to_string()).collect()
}

fn sorted_rows(mut r: Vec<(Vec<String>, u64)>) -> Vec<(Vec<String>, u64)> {
    r.sort();
    r
}

const RECORD: &str = r#"{"text": "I love cats. I love dogs."}"#;

#[test]
fn end_to_end_single_record() {
    let tok = Tokenizer::new();
    let mut store = Store::new();
    assert!(ingest_lines(&mut store, &tok, "a.jsonl".to_string(), &lines(&[RECORD])));
    assert_eq!(
        sorted_rows(store.unigram_rows()),
        vec![(key(&["I"]), 2), (key(&["cats"]), 1), (key(&["dogs"]), 1), (key(&["love"]), 2)]
    );
    assert_eq!(
        sorted_rows(store.bigram_rows()),
        vec![
            (key(&["I", "love"]), 2),
            (key(&["cats", "I"]), 1),
            (key(&["love", "cats"]), 1),
            (key(&["love", "dogs"]), 1),
        ]
    );
    assert_eq!(store.unigram_count(&key(&["."])), 0);
    assert!(store.is_done(&"a.jsonl".to_string()));
}

#[test]
fn end_to_end_from_given_tokens() {
    let mut store = Store::new();
    let toks = key(&["I", "love", "cats", ".", "I", "love", "dogs", "."]);
    assert!(store.ingest_file("a.jsonl".to_string(), &vec![toks]));
    assert_eq!(store.unigram_count(&key(&["I"])), 2);
    assert_eq!(store.unigram_count(&key(&["love"])), 2);
    assert_eq!(store.unigram_count(&key(&["cats"])), 1);
    assert_eq!(store.unigram_count(&key(&["dogs"])), 1);
    assert_eq!(store.unigram_rows().len(), 4);
    assert_eq!(store.bigram_count(&key(&["I", "love"])), 2);
    assert_eq!(store.bigram_count(&key(&["love", "cats"])), 1);
    assert_eq!(store.bigram_count(&key(&["cats", "I"])), 1);
    assert_eq!(store.bigram_count(&key(&["love", "dogs"])), 1);
    assert_eq!(store.bigram_rows().len(), 4);
}

#[test]
fn resume_skips_a_recorded_file() {
    let tok = Tokenizer::new();
    let mut store = Store::new();
    assert!(ingest_lines(&mut store, &tok, "a.jsonl".to_string(), &lines(&[RECORD])));
    let before_u = sorted_rows(store.unigram_rows());
    let before_b = sorted_rows(store.bigram_rows());
    assert_eq!(plan_file(&store, &"a.jsonl".to_string()), None);
    assert!(!ingest_lines(&mut store, &tok, "a.jsonl".to_string(), &lines(&[RECORD])));
    assert_eq!(sorted_rows(store.unigram_rows()), before_u);
    assert_eq!(sorted_rows(store.bigram_rows()), before_b);
}

#[test]
fn interrupted_run_resumes_without_double_counting() {
    let tok = Tokenizer::new();
    let files = vec![
        ("a.jsonl".to_string(), lines(&[RECORD, "not json", r#"{"title": "x"}"#])),
        ("b.txt".to_string(), lines(&["cats love dogs", "", "dogs!"])),
        ("c.csv".to_string(), lines(&["ignored,file"])),
    ];
    let mut single = Store::new();
    for (n, ls) in &files {
        ingest_lines(&mut single, &tok, n.clone(), ls);
    }
    let mut resumed = Store::new();
    ingest_lines(&mut resumed, &tok, files[0].0.clone(), &files[0].1);
    for (n, ls) in &files {
        ingest_lines(&mut resumed, &tok, n.clone(), ls);
    }
    assert_eq!(sorted_rows(resumed.unigram_rows()), sorted_rows(single.unigram_rows()));
    assert_eq!(sorted_rows(resumed.bigram_rows()), sorted_rows(single.bigram_rows()));
    assert_eq!(single.unigram_count(&key(&["cats"])), 2);
    assert_eq!(single.unigram_count(&key(&["dogs"])), 3);
    assert!(!single.is_done(&"c.csv".to_string()));
    // A complete run repeated changes nothing.
    for (n, ls) in &files {
        assert!(!ingest_lines(&mut single, &tok, n.clone(), ls));
    }
    assert_eq!(sorted_rows(resumed.unigram_rows()), sorted_rows(single.unigram_rows()));
}

#[test]
fn formats_by_extension() {
    assert_eq!(format_of("a.jsonl"), Some(Format::JsonLines));
    assert_eq!(format_of("b.txt"), Some(Format::PlainText));
    assert_eq!(format_of("x.tar.txt"), Some(Format::PlainText));
    assert_eq!(format_of("..txt"), Some(Format::PlainText));
    assert_eq!(format_of(".jsonl"), None);
    assert_eq!(format_of("c.csv"), None);
    assert_eq!(format_of("noext"), None);
    assert_eq!(format_of("d.json"), None);
    assert_eq!(format_of("e.txt."), None);
    assert_eq!(format_of(""), None);
}

#[test]
fn plan_skips_unread_and_recorded_files() {
    let tok = Tokenizer::new();
    let mut store = Store::new();
    assert_eq!(plan_file(&store, &"a.jsonl".to_string()), Some(Format::JsonLines));
    assert_eq!(plan_file(&store, &"n.md".to_string()), None);
    assert!(!ingest_lines(&mut store, &tok, "n.md".to_string(), &lines(&["text here"])));
    assert!(store.unigram_rows().is_empty());
    assert!(!store.is_done(&"n.md".to_string()));
}

#[test]
fn payload_is_split_into_sublines() {
    assert_eq!(split_sublines("a\nb"), lines(&["a", "b"]));
    assert_eq!(split_sublines(""), lines(&[""]));
    assert_eq!(split_sublines("a\n"), lines(&["a", ""]));
    assert_eq!(split_sublines("\n\nx y"), lines(&["", "", "x y"]));
    assert_eq!(split_sublines("猫\n狗"), lines(&["猫", "狗"]));
}

#[test]
fn bigrams_do_not_span_sublines() {
    let tok = Tokenizer::new();
    let mut store = Store::new();
    assert!(ingest_lines(&mut store, &tok, "m.jsonl".to_string(), &lines(&[r#"{"text": "cats\ndogs"}"#])));
    assert_eq!(store.unigram_count(&key(&["cats"])), 1);
    assert_eq!(store.unigram_count(&key(&["dogs"])), 1);
    assert!(store.bigram_rows().is_empty());
}

#[test]
fn json_lines_without_text_give_nothing() {
    let tok = Tokenizer::new();
    assert!(tok.line_tokens("not json", Format::JsonLines).is_empty());
    assert!(tok.line_tokens(r#"{"title": "cats"}"#, Format::JsonLines).is_empty());
    assert!(tok.line_tokens(r#"{"text": 5}"#, Format::JsonLines).is_empty());
    assert!(tok.line_tokens(r#"["text"]"#, Format::JsonLines).is_empty());
    let t = tok.line_tokens(r#"{"text": "dogs"}"#, Format::JsonLines);
    assert_eq!(t, vec![key(&["dogs"])]);
    let p = tok.line_tokens("dogs", Format::PlainText);
    assert_eq!(p, vec![key(&["dogs"])]);
}

#[test]
fn tokenizer_cuts_text() {
    let tok = Tokenizer::new();
    assert!(tok.tokenize("").is_empty());
    let t = tok.tokenize("我爱北京天安门");
    assert!(t.len() >= 2);
    assert_eq!(t.concat(), "我爱北京天安门");
    assert_eq!(tok.tokenize("cats."), key(&["cats", "."]));
}

#[test]
fn rows_as_csv() {
    let r = encode_rows(&vec![(key(&["I"]), 2), (key(&["I", "love"]), 12)]);
    assert_eq!(String::from_utf8(r).unwrap(), "I,2\nI,love,12\n");
    let q = encode_rows(&vec![(key(&["a,b"]), 1)]);
    assert_eq!(String::from_utf8(q).unwrap(), "\"a,b\",1\n");
    assert!(encode_rows(&vec![]).is_empty());
    let big = encode_rows(&vec![(key(&["x"]), u64::MAX)]);
    assert_eq!(String::from_utf8(big).unwrap(), "x,18446744073709551615\n");
}

#[test]
fn one_row_tables_as_csv() {
    assert_eq!(String::from_utf8(encode_rows(&vec![(key(&["I"]), 2)])).unwrap(), "I,2\n");
    assert_eq!(String::from_utf8(encode_rows(&vec![(key(&["I", "love"]), 2)])).unwrap(), "I,love,2\n");
    assert_eq!(String::from_utf8(encode_rows(&vec![(key(&["z"]), 0)])).unwrap(), "z,0\n");
    assert_eq!(String::from_utf8(encode_rows(&vec![(key(&["q\"t"]), 10)])).unwrap(), "\"q\"\"t\",10\n");
}
