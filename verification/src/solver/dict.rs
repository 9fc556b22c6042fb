//! The solver's dictionary: a prefix tree walked one letter at a time.
use vstd::prelude::*;

use crate::words::{all_lower, is_ascii_lowercase, TrieNode};

verus! {

/// A word the dictionary keeps: nonempty and all lowercase letters.
pub open spec fn usable_word(w: Seq<char>) -> bool {
    w.len() > 0 && all_lower(w)
}

/// Whether `w` is nonempty and all lowercase letters.
pub fn usable_word_text(w: &str) -> (b: bool)
    ensures
        b == usable_word(w@),
{
    let c = crate::text::str_chars(w);
    if c.len() == 0 {
        return false;
    }
    let mut i: usize = 0;
    while i < c.len()
        invariant
            c@ == w@,
            i <= c@.len(),
            forall|k: int| 0 <= k < i ==> crate::words::is_lower(#[trigger] c@[k]),
        decreases c@.len() - i,
    {
        if !is_ascii_lowercase(c[i]) {
            return false;
        }
        i = i + 1;
    }
    true
}

/// The dictionary of all words that may appear on a board.
pub struct Trie {
    pub dict: crate::words::Trie,
}

impl View for Trie {
    type V = Set<Seq<char>>;

    open spec fn view(&self) -> Set<Seq<char>> {
        self.dict@
    }
}

impl Trie {
    /// Builds the dictionary, skipping empty words and words with anything but
    /// lowercase letters.
    pub fn new(words: Vec<String>) -> (t: Trie)
        ensures
            t@ =~= Set::new(
                |w: Seq<char>| usable_word(w) && exists|i: int| 0 <= i < words@.len() && #[trigger] words@[i]@ == w,
            ),
    {
        let mut kept: Vec<&str> = Vec::new();
        let mut i: usize = 0;
        while i < words.len()
            invariant
                i <= words@.len(),
                forall|k: int| 0 <= k < kept@.len() ==> usable_word(#[trigger] kept@[k]@),
                forall|w: Seq<char>|
                    (exists|k: int| 0 <= k < kept@.len() && #[trigger] kept@[k]@ == w) <==> usable_word(w)
                        && exists|k: int| 0 <= k < i && #[trigger] words@[k]@ == w,
            decreases words@.len() - i,
        {
            let word = words[i].as_str();
            let chars = crate::text::str_chars(word);
            let mut ok = chars.len() > 0;
            let mut j: usize = 0;
            while j < chars.len()
                invariant
                    j <= chars@.len(),
                    ok == (chars@.len() > 0 && forall|t: int| 0 <= t < j ==> crate::words::is_lower(#[trigger] chars@[t])),
                decreases chars@.len() - j,
            {
                if !is_ascii_lowercase(chars[j]) {
                    ok = false;
                }
                j = j + 1;
            }
            let ghost before = kept@;
            if ok {
                kept.push(word);
            }
            proof {
                assert forall|w: Seq<char>|
                    (exists|k: int| 0 <= k < kept@.len() && #[trigger] kept@[k]@ == w) <==> usable_word(w)
                        && exists|k: int| 0 <= k < i + 1 && #[trigger] words@[k]@ == w by {
                    if exists|k: int| 0 <= k < kept@.len() && #[trigger] kept@[k]@ == w {
                        let k = choose|k: int| 0 <= k < kept@.len() && #[trigger] kept@[k]@ == w;
                        if k < before.len() {
                            assert(before[k]@ == w);
                        } else {
                            assert(words@[i as int]@ == w);
                        }
                    }
                    if usable_word(w) && exists|k: int| 0 <= k < i + 1 && #[trigger] words@[k]@ == w {
                        let k = choose|k: int| 0 <= k < i + 1 && #[trigger] words@[k]@ == w;
                        if k == i {
                            assert(kept@[before.len() as int]@ == w);
                        } else {
                            let t = choose|t: int| 0 <= t < before.len() && #[trigger] before[t]@ == w;
                            assert(kept@[t]@ == w);
                        }
                    }
                }
            }
            i = i + 1;
        }
        proof {
            assert forall|k: int| 0 <= k < kept@.len() implies all_lower(#[trigger] kept@[k]@) by {
                assert(usable_word(kept@[k]@));
            }
        }
        Trie { dict: crate::words::Trie::new(kept) }
    }

    /// The node the letter `c` leads to from `node`, if any.
    pub fn step<'a>(&'a self, node: &'a TrieNode, c: char, Ghost(p): Ghost<Seq<char>>) -> (r: Option<
        &'a TrieNode,
    >)
        requires
            self.dict.reaches(p, *node),
        ensures
            r matches Some(m) ==> self.dict.reaches(p.push(c), *m),
            r is None ==> !self.dict.starts_word(p.push(c)),
    {
        self.dict.step(node, c, Ghost(p))
    }
}

} // verus!
