//! Interning of tokens to dense integer ids: the first distinct token gets
//! id 1, the next one id 2, and so on; a token keeps its id for the life of
//! the table.
use crate::filter::views;
use crate::table::{dash_contents, dash_get, dash_insert, dash_new, key_of, TokenMap};
use vstd::prelude::*;

verus! {

/// Tokens and their ids: a token's id is its position in `words` plus one.
pub struct Interner {
    ids: TokenMap,
    words: Vec<String>,
}

impl View for Interner {
    type V = Seq<Seq<char>>;

    /// The interned tokens in id order: the token of id `i` is at `i - 1`.
    closed spec fn view(&self) -> Seq<Seq<char>> {
        views(self.words@)
    }
}

impl Interner {
    /// The map from token to id agrees with the list of tokens, and every id
    /// fits in a `u64`.
    pub closed spec fn wf(&self) -> bool {
        &&& forall|i: int|
            0 <= i < self.words@.len() ==> dash_contents(self.ids).dom().contains(
                #[trigger] seq![self.words@[i]@],
            ) && dash_contents(self.ids)[seq![self.words@[i]@]] == i + 1
        &&& forall|k: Seq<Seq<char>>| #[trigger]
            dash_contents(self.ids).dom().contains(k) ==> exists|i: int|
                0 <= i < self.words@.len() && k == seq![self.words@[i]@]
        &&& self.words@.len() <= u64::MAX
    }

    /// No token is interned twice, so ids and tokens correspond one to one.
    pub proof fn lemma_ids_distinct(&self)
        requires
            self.wf(),
        ensures
            self@.no_duplicates(),
    {
        assert forall|i: int, j: int|
            0 <= i < self@.len() && 0 <= j < self@.len() && i != j implies self@[i] != self@[j] by {
            if self@[i] == self@[j] {
                assert(seq![self.words@[i]@] == seq![self.words@[j]@]);
            }
        }
    }

    /// An interner with no token.
    pub fn new() -> (t: Interner)
        ensures
            t.wf(),
            t@ == Seq::<Seq<char>>::empty(),
            t@.no_duplicates(),
    {
        let t = Interner { ids: dash_new(), words: Vec::new() };
        assert(t@ =~= Seq::<Seq<char>>::empty());
        t
    }

    /// How many tokens have an id.
    pub fn len(&self) -> (r: usize)
        ensures
            r == self@.len(),
    {
        self.words.len()
    }

    /// The id of `word`, if it has one.
    pub fn id_of(&self, word: &String) -> (r: Option<u64>)
        requires
            self.wf(),
        ensures
            r is Some <==> self@.contains(word@),
            r is Some ==> 1 <= r->0 <= self@.len() && self@[r->0 - 1] == word@,
    {
        let key = vec![word.clone()];
        proof {
            assert(key_of(key) =~= seq![word@]);
        }
        match dash_get(&self.ids, &key) {
            Some(id) => {
                proof {
                    let i = choose|i: int|
                        0 <= i < self.words@.len() && seq![word@] == seq![self.words@[i]@];
                    assert(seq![word@][0] == seq![self.words@[i]@][0]);
                    assert(self@[i] == word@);
                }
                Some(id)
            },
            None => {
                proof {
                    if self@.contains(word@) {
                        let i = choose|i: int| 0 <= i < self@.len() && self@[i] == word@;
                        assert(seq![self.words@[i]@] =~= seq![word@]);
                    }
                }
                None
            },
        }
    }

    /// The token of id `id`, if some token has it.
    pub fn word(&self, id: u64) -> (r: Option<String>)
        ensures
            r is Some <==> 1 <= id <= self@.len(),
            r is Some ==> r->0@ == self@[id - 1],
    {
        if id == 0 || id as u128 > self.words.len() as u128 {
            None
        } else {
            Some(self.words[(id - 1) as usize].clone())
        }
    }

    /// The id of `word`, giving it the next free id if it has none; `None`
    /// only when every id is taken.
    pub fn resolve(&mut self, word: &String) -> (r: Option<u64>)
        requires
            old(self).wf(),
        ensures
            final(self).wf(),
            final(self)@.no_duplicates(),
            r is Some ==> 1 <= r->0 <= final(self)@.len() && final(self)@[r->0 - 1] == word@,
            old(self)@.contains(word@) ==> r is Some && final(self)@ == old(self)@,
            !old(self)@.contains(word@) ==> (r is Some <==> old(self)@.len() < u64::MAX),
            !old(self)@.contains(word@) && r is Some ==> final(self)@ == old(self)@.push(word@),
            r is None ==> final(self)@ == old(self)@,
    {
        proof {
            self.lemma_ids_distinct();
        }
        match self.id_of(word) {
            Some(id) => Some(id),
            None => {
                let n = self.words.len();
                if n as u128 >= u64::MAX as u128 {
                    return None;
                }
                let id = n as u64 + 1;
                let key = vec![word.clone()];
                proof {
                    assert(key_of(key) =~= seq![word@]);
                }
                let ghost old_words = self.words@;
                let ghost old_ids = dash_contents(self.ids);
                dash_insert(&mut self.ids, key, id);
                self.words.push(word.clone());
                proof {
                    assert(self@ =~= old(self)@.push(word@));
                    assert forall|i: int| 0 <= i < self.words@.len() implies dash_contents(
                        self.ids,
                    ).dom().contains(#[trigger] seq![self.words@[i]@]) && dash_contents(
                        self.ids,
                    )[seq![self.words@[i]@]] == i + 1 by {
                        if i < n {
                            assert(self.words@[i] == old_words[i]);
                            if seq![old_words[i]@] == seq![word@] {
                                assert(seq![old_words[i]@][0] == seq![word@][0]);
                                assert(old(self)@[i] == word@);
                            }
                        }
                    }
                    assert forall|k: Seq<Seq<char>>| #[trigger]
                        dash_contents(self.ids).dom().contains(k) implies exists|i: int|
                        0 <= i < self.words@.len() && k == seq![self.words@[i]@] by {
                        if k == seq![word@] {
                            assert(k == seq![self.words@[n as int]@]);
                        } else {
                            assert(old_ids.dom().contains(k));
                            let i = choose|i: int|
                                0 <= i < old_words.len() && k == seq![old_words[i]@];
                            assert(self.words@[i] == old_words[i]);
                        }
                    }
                    self.lemma_ids_distinct();
                }
                Some(id)
            },
        }
    }
}

} // verus!
