//! How rare each letter is among the target words, and the keys that order
//! words, letters and search states by it.
use vstd::prelude::*;

use super::grid::{shown, Board, BLANK, HOLE};
use crate::text::{push_char, str_chars};
use crate::words::{idx, is_ascii_lowercase, is_lower, letter, letter_index, views};

verus! {

/// How often `c` occurs in `s`.
pub open spec fn occurrences(s: Seq<char>, c: char) -> nat
    decreases s.len(),
{
    if s.len() == 0 {
        0
    } else {
        occurrences(s.drop_last(), c) + if s.last() == c {
            1nat
        } else {
            0nat
        }
    }
}

/// How often `c` occurs in all of `ws`.
pub open spec fn total_occurrences(ws: Seq<Seq<char>>, c: char) -> nat
    decreases ws.len(),
{
    if ws.len() == 0 {
        0
    } else {
        total_occurrences(ws.drop_last(), c) + occurrences(ws.last(), c)
    }
}

/// `n`, or `usize::MAX` where it does not fit.
pub open spec fn capped(n: nat) -> usize {
    if n <= usize::MAX {
        n as usize
    } else {
        usize::MAX
    }
}

/// The letter with alphabet position `i`.
pub open spec fn nth_letter(i: int) -> char {
    (i + 'a' as int) as char
}

/// Letter `j` is rarer than letter `i`: it occurs less often, or as often and
/// earlier in the alphabet.
pub open spec fn rarer(counts: Seq<usize>, j: int, i: int) -> bool {
    counts[j] < counts[i] || (counts[j] == counts[i] && j < i)
}

/// How many of the first `n` letters are rarer than letter `i`.
pub open spec fn rarer_count(counts: Seq<usize>, i: int, n: int) -> nat
    decreases n,
{
    if n <= 0 {
        0
    } else {
        rarer_count(counts, i, n - 1) + if rarer(counts, n - 1, i) {
            1nat
        } else {
            0nat
        }
    }
}

/// The letter counts of `ws`, capped to `usize`.
pub open spec fn letter_counts(ws: Seq<Seq<char>>) -> Seq<usize> {
    Seq::new(26, |l: int| capped(total_occurrences(ws, nth_letter(l))))
}

/// The rank of each letter: how many letters are rarer in `ws`.
pub open spec fn rank_of(ws: Seq<Seq<char>>) -> Seq<usize> {
    Seq::new(26, |i: int| rarer_count(letter_counts(ws), i, 26) as usize)
}

/// The smallest rank of a lowercase letter of `w`, `usize::MAX` if it has none.
pub open spec fn min_rank(rank: Seq<usize>, w: Seq<char>) -> usize
    decreases w.len(),
{
    if w.len() == 0 {
        usize::MAX
    } else {
        let rest = min_rank(rank, w.drop_last());
        if is_lower(w.last()) && rank[letter_index(w.last())] < rest {
            rank[letter_index(w.last())]
        } else {
            rest
        }
    }
}

proof fn lemma_rarer_count_bound(counts: Seq<usize>, i: int, n: int)
    requires
        n >= 0,
    ensures
        rarer_count(counts, i, n) <= n,
    decreases n,
{
    if n > 0 {
        lemma_rarer_count_bound(counts, i, n - 1);
    }
}

/// Every rank is below 26.
pub proof fn lemma_rank_bound(ws: Seq<Seq<char>>, i: int)
    requires
        0 <= i < 26,
    ensures
        rank_of(ws)[i] < 26,
{
    lemma_rarer_count_bound(letter_counts(ws), i, 26);
    lemma_rarer_irreflexive(letter_counts(ws), i, 26);
}

proof fn lemma_rarer_irreflexive(counts: Seq<usize>, i: int, n: int)
    requires
        0 <= i < n,
    ensures
        rarer_count(counts, i, n) < n,
    decreases n,
{
    if n - 1 == i {
        lemma_rarer_count_bound(counts, i, n - 1);
    } else {
        lemma_rarer_irreflexive(counts, i, n - 1);
    }
}

/// The rank of every letter among `words`: letters that occur less often come
/// first, ties in alphabet order.
pub fn rare_rank(words: &Vec<String>) -> (rank: [usize; 26])
    ensures
        rank@ == rank_of(views(words@)),
{
    let ghost ws = views(words@);
    let mut counts: [usize; 26] = [0usize; 26];
    let mut i: usize = 0;
    proof {
        assert(ws.take(0) =~= Seq::<Seq<char>>::empty());
    }
    while i < words.len()
        invariant
            i <= words@.len(),
            ws == views(words@),
            forall|l: int| 0 <= l < 26 ==> #[trigger] counts@[l] == capped(total_occurrences(ws.take(i as int), nth_letter(l))),
        decreases words@.len() - i,
    {
        let chars = str_chars(words[i].as_str());
        let ghost before = counts@;
        let mut j: usize = 0;
        proof {
            assert(chars@.take(0) =~= Seq::<char>::empty());
        }
        while j < chars.len()
            invariant
                j <= chars@.len(),
                i < words@.len(),
                chars@ == ws[i as int],
                ws == views(words@),
                forall|l: int|
                    0 <= l < 26 ==> #[trigger] counts@[l] == capped(
                        total_occurrences(ws.take(i as int), nth_letter(l)) + occurrences(chars@.take(j as int), nth_letter(l)),
                    ),
            decreases chars@.len() - j,
        {
            let c = chars[j];
            proof {
                assert(chars@.take(j + 1).drop_last() =~= chars@.take(j as int));
            }
            if is_ascii_lowercase(c) {
                let k = idx(c);
                counts[k] = counts[k].saturating_add(1);
                proof {
                    assert(nth_letter(k as int) == c);
                    assert forall|l: int| 0 <= l < 26 && l != k implies nth_letter(l) != c by {
                        assert(letter_index(nth_letter(l)) == l);
                    }
                }
            } else {
                proof {
                    assert forall|l: int| 0 <= l < 26 implies nth_letter(l) != c by {
                        assert(is_lower(nth_letter(l)));
                    }
                }
            }
            j = j + 1;
        }
        proof {
            assert(chars@.take(chars@.len() as int) =~= chars@);
            assert(ws.take(i + 1).drop_last() =~= ws.take(i as int));
            assert(ws.take(i + 1).last() == ws[i as int]);
        }
        i = i + 1;
    }
    proof {
        assert(ws.take(ws.len() as int) =~= ws);
        assert(counts@ =~= letter_counts(ws));
    }
    let mut rank: [usize; 26] = [0usize; 26];
    let mut a: usize = 0;
    while a < 26
        invariant
            a <= 26,
            counts@ == letter_counts(ws),
            forall|l: int| 0 <= l < a ==> #[trigger] rank@[l] == rank_of(ws)[l],
        decreases 26 - a,
    {
        let mut n: usize = 0;
        let mut b: usize = 0;
        while b < 26
            invariant
                b <= 26,
                a < 26,
                n == rarer_count(counts@, a as int, b as int),
                n <= b,
            decreases 26 - b,
        {
            if counts[b] < counts[a] || (counts[b] == counts[a] && b < a) {
                n = n + 1;
            }
            b = b + 1;
        }
        rank[a] = n;
        a = a + 1;
    }
    proof {
        assert(rank@ =~= rank_of(ws));
    }
    rank
}

/// The smallest rank among the lowercase letters of `word`, `usize::MAX` if
/// it has none, with ranks taken among `words`.
pub fn word_rarity_key(word: &str, words: &Vec<String>) -> (k: usize)
    ensures
        k == min_rank(rank_of(views(words@)), word@),
{
    let rank = rare_rank(words);
    let chars = str_chars(word);
    let mut best: usize = usize::MAX;
    let mut j: usize = 0;
    proof {
        assert(chars@.take(0) =~= Seq::<char>::empty());
    }
    while j < chars.len()
        invariant
            j <= chars@.len(),
            chars@ == word@,
            rank@ == rank_of(views(words@)),
            best == min_rank(rank@, chars@.take(j as int)),
        decreases chars@.len() - j,
    {
        let c = chars[j];
        proof {
            assert(chars@.take(j + 1).drop_last() =~= chars@.take(j as int));
        }
        if is_ascii_lowercase(c) {
            let r = rank[idx(c)];
            if r < best {
                best = r;
            }
        }
        j = j + 1;
    }
    proof {
        assert(chars@.take(chars@.len() as int) =~= chars@);
    }
    best
}

/// The key of a search state: one character per cell, a bar, then one digit
/// per target word telling whether it is placed.
pub open spec fn key_of(cells: Seq<Option<char>>, holes: Seq<bool>, placed: Seq<bool>) -> Seq<char> {
    Seq::new(cells.len(), |i: int| shown(cells[i], holes[i])).push('|') + Seq::new(
        placed.len(),
        |i: int|
            if placed[i] {
                '1'
            } else {
                '0'
            },
    )
}

/// The key that identifies a board and the set of placed words.
pub fn state_key(board: &Board, placed_words: &[bool]) -> (key: String)
    requires
        board.holes@.len() == board.cells@.len(),
    ensures
        key@ == key_of(board.cells@, board.holes@, placed_words@),
{
    let mut key = String::new();
    let mut i: usize = 0;
    proof {
        reveal_strlit("");
    }
    while i < board.cells.len()
        invariant
            i <= board.cells@.len(),
            board.holes@.len() == board.cells@.len(),
            key@ == Seq::new(i as nat, |k: int| shown(board.cells@[k], board.holes@[k])),
        decreases board.cells@.len() - i,
    {
        if board.is_hole_idx(i) {
            push_char(&mut key, HOLE);
        } else {
            match board.cells[i] {
                Some(c) => push_char(&mut key, c),
                None => push_char(&mut key, BLANK),
            }
        }
        proof {
            assert(key@ =~= Seq::new((i + 1) as nat, |k: int| shown(board.cells@[k], board.holes@[k])));
        }
        i = i + 1;
    }
    push_char(&mut key, '|');
    let ghost head = key@;
    let mut j: usize = 0;
    while j < placed_words.len()
        invariant
            j <= placed_words@.len(),
            key@ == head + Seq::new(
                j as nat,
                |k: int|
                    if placed_words@[k] {
                        '1'
                    } else {
                        '0'
                    },
            ),
        decreases placed_words@.len() - j,
    {
        if placed_words[j] {
            push_char(&mut key, '1');
        } else {
            push_char(&mut key, '0');
        }
        proof {
            assert(key@ =~= head + Seq::new(
                (j + 1) as nat,
                |k: int|
                    if placed_words@[k] {
                        '1'
                    } else {
                        '0'
                    },
            ));
        }
        j = j + 1;
    }
    proof {
        assert(key@ =~= key_of(board.cells@, board.holes@, placed_words@));
    }
    key
}

} // verus!
