//! Append-only bidirectional map between words and dense integer identifiers.
//!
//! Identifiers are assigned in first-sight order, are never reused or freed,
//! and index directly into the word list, so resolving is a plain lookup.

use vstd::prelude::*;

verus! {

/// True when some entry of `words` equals `w`.
pub open spec fn has_word(words: Seq<Seq<char>>, w: Seq<char>) -> bool {
    exists|i: int| 0 <= i < words.len() && words[i] == w
}

/// The identifier of `w` in `words`; meaningful only when `has_word` holds
/// and the entries are distinct.
pub open spec fn id_of(words: Seq<Seq<char>>, w: Seq<char>) -> int {
    choose|i: int| 0 <= i < words.len() && words[i] == w
}

/// All entries of `words` differ from one another.
pub open spec fn distinct_words(words: Seq<Seq<char>>) -> bool {
    forall|i: int, j: int| 0 <= i < j < words.len() ==> words[i] != words[j]
}

/// Bidirectional word interner: the identifier of a word is its index in
/// the insertion-ordered list of distinct words.
#[derive(Debug)]
pub struct Dictionary {
    words: Vec<String>,
}

impl View for Dictionary {
    type V = Seq<Seq<char>>;

    closed spec fn view(&self) -> Seq<Seq<char>> {
        self.words@.map_values(|w: String| w@)
    }
}

impl Dictionary {
    /// Entries are distinct and their count leaves room for a fresh `u32` id.
    pub open spec fn wf(&self) -> bool {
        &&& distinct_words(self@)
        &&& self@.len() <= u32::MAX as int
    }

    pub fn new() -> (r: Dictionary)
        ensures
            r@ == Seq::<Seq<char>>::empty(),
            r.wf(),
    {
        Dictionary { words: Vec::new() }
    }

    pub fn len(&self) -> (r: usize)
        ensures
            r == self@.len(),
    {
        self.words.len()
    }

    /// The identifier of `word`, if it was interned before.
    pub fn get(&self, word: &str) -> (r: Option<u32>)
        requires
            self.wf(),
        ensures
            match r {
                Some(id) => has_word(self@, word@) && id == id_of(self@, word@),
                None => !has_word(self@, word@),
            },
    {
        let n = self.words.len();
        let target = word.to_owned();
        for i in 0..n
            invariant
                self.wf(),
                n == self@.len(),
                target@ == word@,
                forall|k: int| 0 <= k < i ==> self@[k] != word@,
        {
            if self.words[i] == target {
                assert(self@[i as int] == word@);
                assert(has_word(self@, word@));
                assert(id_of(self@, word@) == i as int) by {
                    let j = id_of(self@, word@);
                    assert(0 <= j < self@.len() && self@[j] == word@);
                    if j < i as int {
                        assert(self@[j] != self@[i as int]);
                    }
                    if (i as int) < j {
                        assert(self@[i as int] != self@[j]);
                    }
                }
                return Some(i as u32);
            }
        }
        None
    }

    /// The identifier of `word`, interning it first when it is new.
    pub fn get_or_intern(&mut self, word: &str) -> (id: u32)
        requires
            old(self).wf(),
            old(self)@.len() < u32::MAX as int,
        ensures
            final(self).wf(),
            has_word(final(self)@, word@),
            id == id_of(final(self)@, word@),
            if has_word(old(self)@, word@) {
                final(self)@ == old(self)@ && id == id_of(old(self)@, word@)
            } else {
                final(self)@ == old(self)@.push(word@) && id == old(self)@.len()
            },
    {
        match self.get(word) {
            Some(id) => id,
            None => {
                let id = self.words.len() as u32;
                self.words.push(word.to_owned());
                assert(self@ =~= old(self)@.push(word@));
                assert(self@[id as int] == word@);
                assert(distinct_words(self@)) by {
                    assert(forall|k: int|
                        0 <= k < old(self)@.len() ==> self@[k] == old(self)@[k]);
                }
                assert(id_of(self@, word@) == id as int) by {
                    let j = id_of(self@, word@);
                    assert(0 <= j < self@.len() && self@[j] == word@);
                    if j < id as int {
                        assert(self@[j] != self@[id as int]);
                    }
                }
                id
            },
        }
    }

    /// The word at one identifier, for iterating the dictionary in
    /// identifier order.
    pub fn word_at(&self, i: usize) -> (r: &String)
        requires
            i < self@.len(),
        ensures
            r@ == self@[i as int],
    {
        &self.words[i]
    }

    /// The word behind an identifier; `None` for an identifier this
    /// dictionary never issued.
    pub fn resolve(&self, id: u32) -> (r: Option<&String>)
        ensures
            match r {
                Some(w) => id < self@.len() && w@ == self@[id as int],
                None => id >= self@.len(),
            },
    {
        if (id as usize) < self.words.len() {
            Some(&self.words[id as usize])
        } else {
            None
        }
    }
}

} // verus!
