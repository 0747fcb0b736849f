//! The non-content predicate: tokens made only of punctuation, whitespace,
//! control characters or quotation marks never enter the frequency tables.
use vstd::prelude::*;

verus! {

/// A character that carries no content: whitespace, a control character,
/// ASCII punctuation, general punctuation (dashes, quotation marks, ellipsis),
/// CJK and full-width punctuation, and the Latin-1 guillemets and marks.
pub open spec fn is_non_content_char(c: char) -> bool {
    let v = c as u32;
    ||| v <= 0x20
    ||| (0x21 <= v <= 0x2f)
    ||| (0x3a <= v <= 0x40)
    ||| (0x5b <= v <= 0x60)
    ||| (0x7b <= v <= 0xa0)
    ||| v == 0xa1 || v == 0xab || v == 0xb7 || v == 0xbb || v == 0xbf
    ||| v == 0x1680
    ||| (0x2000 <= v <= 0x206f)
    ||| (0x3000 <= v <= 0x303f)
    ||| (0xfe10 <= v <= 0xfe1f)
    ||| (0xfe30 <= v <= 0xfe6f)
    ||| (0xff01 <= v <= 0xff0f)
    ||| (0xff1a <= v <= 0xff20)
    ||| (0xff3b <= v <= 0xff40)
    ||| (0xff5b <= v <= 0xff65)
}

/// A token is non-content when none of its characters carries content
/// (the empty token included).
pub open spec fn is_non_content(t: Seq<char>) -> bool {
    forall|i: int| 0 <= i < t.len() ==> is_non_content_char(#[trigger] t[i])
}

/// The tokens of `toks` that carry content, in order.
pub open spec fn retained(toks: Seq<Seq<char>>) -> Seq<Seq<char>>
    decreases toks.len(),
{
    if toks.len() == 0 {
        Seq::empty()
    } else {
        let rest = retained(toks.drop_last());
        if is_non_content(toks.last()) {
            rest
        } else {
            rest.push(toks.last())
        }
    }
}

/// The character view of each string of a sequence.
pub open spec fn views(v: Seq<String>) -> Seq<Seq<char>> {
    v.map_values(|s: String| s@)
}

pub fn is_non_content_char_exec(c: char) -> (r: bool)
    ensures
        r == is_non_content_char(c),
{
    let v = c as u32;
    v <= 0x20 || (0x21 <= v && v <= 0x2f) || (0x3a <= v && v <= 0x40) || (0x5b <= v && v <= 0x60)
        || (0x7b <= v && v <= 0xa0) || v == 0xa1 || v == 0xab || v == 0xb7 || v == 0xbb || v
        == 0xbf || v == 0x1680 || (0x2000 <= v && v <= 0x206f) || (0x3000 <= v && v <= 0x303f)
        || (0xfe10 <= v && v <= 0xfe1f) || (0xfe30 <= v && v <= 0xfe6f) || (0xff01 <= v && v
        <= 0xff0f) || (0xff1a <= v && v <= 0xff20) || (0xff3b <= v && v <= 0xff40) || (0xff5b
        <= v && v <= 0xff65)
}

/// Whether the token `t` carries no content.
pub fn is_non_content_token(t: &str) -> (r: bool)
    ensures
        r == is_non_content(t@),
{
    let mut all = true;
    for c in it: t.chars()
        invariant
            it.seq() == t@,
            all == (forall|j: int| 0 <= j < it.index() ==> is_non_content_char(#[trigger] t@[j])),
    {
        if !is_non_content_char_exec(c) {
            all = false;
        }
    }
    all
}

/// Keeps the content tokens of `tokens`, in order.
pub fn retain_content(tokens: &Vec<String>) -> (r: Vec<String>)
    ensures
        views(r@) == retained(views(tokens@)),
{
    let mut r: Vec<String> = Vec::new();
    let n = tokens.len();
    for i in 0..n
        invariant
            n == tokens@.len(),
            views(r@) == retained(views(tokens@).subrange(0, i as int)),
    {
        let t = &tokens[i];
        let skip = is_non_content_token(t.as_str());
        proof {
            let pre = views(tokens@).subrange(0, i + 1);
            assert(pre.drop_last() =~= views(tokens@).subrange(0, i as int));
            assert(pre.last() == t@);
        }
        if !skip {
            let ghost before = r@;
            r.push(t.clone());
            proof {
                assert(views(r@) =~= views(before).push(t@));
            }
        }
    }
    proof {
        assert(views(tokens@).subrange(0, n as int) =~= views(tokens@));
    }
    r
}

} // verus!
