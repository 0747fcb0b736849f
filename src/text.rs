//! The line source and tokenizer adapter: which files are read and how, the
//! text payload of a line, its sub-lines, and their tokens.
use crate::filter::views;
use jieba_rs::Jieba;
use vstd::prelude::*;

verus! {

#[verifier::external_type_specification]
#[verifier::external_body]
pub struct ExJieba(Jieba);

/// The tokens that the default-dictionary segmenter, with its hidden Markov
/// model on, cuts `text` into.
pub uninterp spec fn jieba_tokens(text: Seq<char>) -> Seq<Seq<char>>;

/// The string value of the attribute `key` of the JSON object that `line`
/// holds; none where `line` is not JSON, not an object, or the attribute is
/// missing or not a string.
pub uninterp spec fn json_string_field(line: Seq<char>, key: Seq<char>) -> Option<Seq<char>>;

/// Relies on `Jieba::new`: a segmenter with the embedded default dictionary.
#[verifier::external_body]
fn jieba_new() -> (r: Jieba) {
    Jieba::new()
}

/// Relies on `Jieba::cut` with the hidden Markov model on, over the
/// tokenizer's segmenter (always the default-dictionary one, see
/// `Tokenizer::new`): the words of each token, in order; an empty text has
/// no token.
#[verifier::external_body]
fn jieba_cut(t: &Tokenizer, text: &str) -> (r: Vec<String>)
    ensures
        views(r@) == jieba_tokens(text@),
        text@.len() == 0 ==> r@.len() == 0,
{
    t.jieba.cut(text, true).into_iter().map(|t| t.word.to_string()).collect()
}

/// Relies on `serde_json::from_str` into a `Value`, `Value::get` and
/// `Value::as_str`: the string attribute `key` of the object in `line`.
#[verifier::external_body]
fn json_field(line: &str, key: &str) -> (r: Option<String>)
    ensures
        r is None <==> json_string_field(line@, key@) is None,
        r is Some ==> json_string_field(line@, key@) == Some(r->0@),
{
    match serde_json::from_str::<serde_json::Value>(line) {
        Ok(v) => match v.get(key) {
            Some(t) => t.as_str().map(String::from),
            None => None,
        },
        Err(_) => None,
    }
}

/// How the lines of a file carry their text.
#[derive(Clone, Copy, Debug, PartialEq, Eq, Structural)]
pub enum Format {
    /// One JSON object per line, the text in its `text` attribute.
    JsonLines,
    /// The line itself is the text.
    PlainText,
}

/// The index of the last `.` of `s`, or -1 when it has none.
pub open spec fn last_dot(s: Seq<char>) -> int
    decreases s.len(),
{
    if s.len() == 0 {
        -1
    } else if s.last() == '.' {
        s.len() - 1
    } else {
        last_dot(s.drop_last())
    }
}

/// The extension of a file name: what follows its last `.`, where that dot
/// is not the name's first character.
pub open spec fn extension(name: Seq<char>) -> Option<Seq<char>> {
    let d = last_dot(name);
    if d > 0 {
        Some(name.subrange(d + 1, name.len() as int))
    } else {
        None
    }
}

/// The format of a file by its extension: `jsonl` or `txt`; other files are
/// not read.
pub open spec fn format_for(name: Seq<char>) -> Option<Format> {
    match extension(name) {
        Some(e) => if e == seq!['j', 's', 'o', 'n', 'l'] {
            Some(Format::JsonLines)
        } else if e == seq!['t', 'x', 't'] {
            Some(Format::PlainText)
        } else {
            None
        },
        None => None,
    }
}

/// The attribute of a JSON record that holds its text.
pub open spec fn text_key() -> Seq<char> {
    seq!['t', 'e', 'x', 't']
}

/// The text a line carries in format `f`, if any.
pub open spec fn payload_of(line: Seq<char>, f: Format) -> Option<Seq<char>> {
    match f {
        Format::JsonLines => json_string_field(line, text_key()),
        Format::PlainText => Some(line),
    }
}

/// The sub-lines of `s`: its pieces between line feeds, in order (one empty
/// piece for the empty text).
pub open spec fn sublines(s: Seq<char>) -> Seq<Seq<char>>
    decreases s.len(),
{
    if s.len() == 0 {
        seq![Seq::empty()]
    } else {
        let p = sublines(s.drop_last());
        if s.last() == '\n' {
            p.push(Seq::empty())
        } else {
            p.update(p.len() - 1, p.last().push(s.last()))
        }
    }
}

/// The token sequences of a line in format `f`: one per sub-line of its
/// text; none where the line carries no text.
pub open spec fn line_tokens_of(line: Seq<char>, f: Format) -> Seq<Seq<Seq<char>>> {
    match payload_of(line, f) {
        Some(p) => sublines(p).map_values(|l: Seq<char>| jieba_tokens(l)),
        None => Seq::empty(),
    }
}

proof fn lemma_sublines_nonempty(s: Seq<char>)
    ensures
        sublines(s).len() >= 1,
    decreases s.len(),
{
    if s.len() > 0 {
        lemma_sublines_nonempty(s.drop_last());
    }
}

proof fn lemma_last_dot(s: Seq<char>, d: int)
    requires
        0 <= d <= s.len(),
        forall|j: int| d <= j < s.len() ==> s[j] != '.',
        d == 0 || s[d - 1] == '.',
    ensures
        last_dot(s) == d - 1,
    decreases s.len(),
{
    if s.len() > d {
        lemma_last_dot(s.drop_last(), d);
    }
}

/// The characters of `s`.
fn chars_of(s: &str) -> (r: Vec<char>)
    ensures
        r@ == s@,
{
    let mut r: Vec<char> = Vec::new();
    for c in it: s.chars()
        invariant
            it.seq() == s@,
            r@ == s@.subrange(0, it.index() as int),
    {
        proof {
            assert(s@.subrange(0, it.index() + 1) =~= r@.push(c));
        }
        r.push(c);
    }
    proof {
        assert(r@ =~= s@);
    }
    r
}

/// The format a file is read in, by the extension of its name; `None` for
/// files that are not read.
pub fn format_of(name: &str) -> (r: Option<Format>)
    ensures
        r == format_for(name@),
{
    let cs = chars_of(name);
    let n = cs.len();
    let mut d = n;
    while d > 0
        invariant
            cs@ == name@,
            n == cs@.len(),
            d <= n,
            forall|j: int| d <= j < n ==> cs@[j] != '.',
        ensures
            d <= n,
            forall|j: int| d <= j < n ==> cs@[j] != '.',
            d == 0 || cs@[d - 1] == '.',
        decreases d,
    {
        if cs[d - 1] == '.' {
            break;
        }
        d = d - 1;
    }
    proof {
        lemma_last_dot(name@, d as int);
    }
    if d <= 1 {
        return None;
    }
    let ghost e = name@.subrange(d as int, n as int);
    if n - d == 5 && cs[d] == 'j' && cs[d + 1] == 's' && cs[d + 2] == 'o' && cs[d + 3] == 'n' && cs[d
        + 4] == 'l' {
        assert(e =~= seq!['j', 's', 'o', 'n', 'l']);
        return Some(Format::JsonLines);
    }
    if n - d == 3 && cs[d] == 't' && cs[d + 1] == 'x' && cs[d + 2] == 't' {
        assert(e =~= seq!['t', 'x', 't']);
        return Some(Format::PlainText);
    }
    proof {
        if e == seq!['j', 's', 'o', 'n', 'l'] {
            assert(e.len() == 5 && e[0] == 'j' && e[1] == 's' && e[2] == 'o' && e[3] == 'n' && e[4]
                == 'l');
            assert(false);
        }
        if e == seq!['t', 'x', 't'] {
            assert(e.len() == 3 && e[0] == 't' && e[1] == 'x' && e[2] == 't');
            assert(false);
        }
    }
    None
}

/// The pieces of `text` between line feeds, in order.
pub fn split_sublines(text: &str) -> (r: Vec<String>)
    ensures
        views(r@) == sublines(text@),
{
    let mut out: Vec<String> = Vec::new();
    let mut start: usize = 0;
    let mut i: usize = 0;
    let len = text.unicode_len();
    proof {
        assert(text@.subrange(0, 0) =~= Seq::<char>::empty());
        assert(views(out@).push(text@.subrange(0, 0)) =~= seq![Seq::<char>::empty()]);
    }
    for c in it: text.chars()
        invariant
            len == text@.len(),
            it.seq() == text@,
            i == it.index(),
            start <= i,
            i <= text@.len(),
            sublines(text@.subrange(0, i as int)) == views(out@).push(
                text@.subrange(start as int, i as int),
            ),
    {
        assert(i < len);
        proof {
            let pre = text@.subrange(0, i + 1);
            assert(pre.drop_last() =~= text@.subrange(0, i as int));
            assert(pre.last() == c);
            lemma_sublines_nonempty(pre.drop_last());
        }
        if c == '\n' {
            let piece = text.substring_char(start, i).to_owned();
            let ghost before = out@;
            out.push(piece);
            proof {
                assert(views(out@) =~= views(before).push(text@.subrange(start as int, i as int)));
                assert(text@.subrange(i + 1, i + 1) =~= Seq::<char>::empty());
            }
            start = i + 1;
        } else {
            proof {
                assert(text@.subrange(start as int, i + 1) =~= text@.subrange(
                    start as int,
                    i as int,
                ).push(c));
                assert(views(out@).push(text@.subrange(start as int, i as int)).update(
                    views(out@).len() as int,
                    text@.subrange(start as int, i + 1),
                ) =~= views(out@).push(text@.subrange(start as int, i + 1)));
            }
        }
        i = i + 1;
    }
    let last = text.substring_char(start, i).to_owned();
    let ghost before = out@;
    out.push(last);
    proof {
        assert(text@.subrange(0, i as int) =~= text@);
        assert(views(out@) =~= views(before).push(text@.subrange(start as int, i as int)));
    }
    out
}

/// Cuts text into tokens with a fixed segmenter: the default dictionary and
/// the hidden Markov model for unknown words.
///
/// Its segmenter is private and only `Tokenizer::new` builds one, so every
/// tokenizer cuts with the embedded default dictionary.
pub struct Tokenizer {
    jieba: Jieba,
}

impl Tokenizer {
    /// A tokenizer with the embedded default dictionary.
    pub fn new() -> (t: Tokenizer) {
        Tokenizer { jieba: jieba_new() }
    }

    /// The tokens of `text`, in order; none for the empty text.
    pub fn tokenize(&self, text: &str) -> (r: Vec<String>)
        ensures
            views(r@) == jieba_tokens(text@),
            text@.len() == 0 ==> r@.len() == 0,
    {
        jieba_cut(self, text)
    }

    /// The token sequences of one line of a file in format `f`: its text is
    /// split into sub-lines and each sub-line is tokenized on its own, so
    /// no pair of tokens spans two sub-lines. A JSON line without a string
    /// `text` attribute gives nothing.
    pub fn line_tokens(&self, line: &str, f: Format) -> (r: Vec<Vec<String>>)
        ensures
            r@.len() == line_tokens_of(line@, f).len(),
            forall|i: int| 0 <= i < r@.len() ==> views(#[trigger] r@[i]@) == line_tokens_of(line@, f)[i],
    {
        let payload = match f {
            Format::JsonLines => {
                let key = "text";
                proof {
                    reveal_strlit("text");
                    assert(key@ =~= text_key());
                }
                json_field(line, key)
            },
            Format::PlainText => Some(line.to_owned()),
        };
        let mut out: Vec<Vec<String>> = Vec::new();
        match payload {
            None => {},
            Some(p) => {
                let parts = split_sublines(p.as_str());
                let ghost want = sublines(p@).map_values(|l: Seq<char>| jieba_tokens(l));
                let n = parts.len();
                for i in 0..n
                    invariant
                        n == parts@.len(),
                        views(parts@) == sublines(p@),
                        want == sublines(p@).map_values(|l: Seq<char>| jieba_tokens(l)),
                        out@.len() == i,
                        forall|j: int| 0 <= j < i ==> views(#[trigger] out@[j]@) == want[j],
                {
                    let toks = self.tokenize(parts[i].as_str());
                    proof {
                        assert(views(parts@)[i as int] == parts@[i as int]@);
                    }
                    out.push(toks);
                }
            },
        }
        out
    }
}

} // verus!
