//! Building a solver, and the choices a search makes: which word or cell to
//! fill next, and in which order to try its options.
use vstd::prelude::*;

use super::dict::{usable_word, Trie};
use super::grid::Board;
use super::order::{key_lt, key_less, lex_less, stable_order, stable_sort, str_less, Key};
use super::paths::{
    conflicts, fits_word, lists_completions, path_compatible, path_views, precompute_paths,
};
use super::rank::{min_rank, rank_of, rare_rank, word_rarity_key, lemma_rank_bound};
use super::search::{Solver, WordPaths};
use crate::board::all_distinct;
use crate::puzzle::word_set;
use crate::text::{append_str, str_chars};
use super::paths::byte_letters_of;
use crate::words::{all_lower, views};

verus! {

/// Some path of the board fits `w`.
pub open spec fn has_route(board: Board, w: Seq<char>) -> bool {
    exists|q: Seq<usize>| #[trigger] fits_word(board, w, q)
}

/// `q` has the length of `w`, never repeats and stays on open cells.
pub open spec fn route_shape(board: Board, w: Seq<char>, q: Seq<usize>) -> bool {
    &&& q.len() == w.len()
    &&& q.no_duplicates()
    &&& forall|k: int| 0 <= k < q.len() ==> board.open_at(#[trigger] q[k] as int)
}

/// `w` can be written along `q` on the board as it stands.
pub open spec fn compatible(board: Board, w: Seq<char>, q: Seq<usize>) -> bool {
    (forall|k: int| 0 <= k < q.len() ==> !board.holes@[#[trigger] q[k] as int]) && !conflicts(board.cells@, w, q)
}

/// How many words of `ts` come before `w` alphabetically.
pub open spec fn alpha_before(ts: Seq<Seq<char>>, w: Seq<char>) -> nat
    decreases ts.len(),
{
    if ts.len() == 0 {
        0
    } else {
        alpha_before(ts.drop_last(), w) + if lex_less(ts.last(), w) {
            1nat
        } else {
            0nat
        }
    }
}

/// The key that orders the target words `ts` for the search: rarest letter
/// first, then words of fewer bytes, then alphabetical order.
pub open spec fn word_key(ts: Seq<Seq<char>>, w: Seq<char>) -> Key {
    (min_rank(rank_of(ts), w), vstd::utf8::encode_utf8(w).len() as usize, alpha_before(ts, w) as usize)
}

/// The words of the entries, in order.
pub open spec fn entry_words(wp: Seq<WordPaths>) -> Seq<Seq<char>> {
    Seq::new(wp.len(), |i: int| wp[i].word@)
}

/// The message for a target word that no path fits.
pub open spec fn no_path_message(w: Seq<char>) -> Seq<char> {
    "target word has no realizable path: "@ + w
}

impl Solver {
    /// The targets are distinct and ranked, and every entry holds a usable
    /// word with paths of its length over open cells of `board`.
    pub open spec fn fits(self, board: Board) -> bool {
        &&& all_distinct(views(self.target_words@))
        &&& self.rare_rank@ == rank_of(views(self.target_words@))
        &&& forall|e: int| 0 <= e < self.word_paths@.len() ==> usable_word(#[trigger] self.word_paths@[e].word@)
        &&& forall|e: int, p: int|
            0 <= e < self.word_paths@.len() && 0 <= p < self.word_paths@[e].paths@.len() ==> route_shape(
                board,
                self.word_paths@[e].word@,
                #[trigger] self.word_paths@[e].paths@[p]@,
            )
    }
}

impl Solver {
    /// Every entry's word is a target, and every path its word fits along on
    /// `board` is among the entry's paths.
    pub open spec fn covers(self, board: Board) -> bool {
        &&& forall|e: int| 0 <= e < self.word_paths@.len() ==> self.targets().contains(#[trigger] self.word_paths@[e].word@)
        &&& forall|e: int, q: Seq<usize>|
            0 <= e < self.word_paths@.len() && #[trigger] fits_word(board, self.word_paths@[e].word@, q) ==> path_views(
                self.word_paths@[e].paths@,
            ).contains(q)
    }
}

/// A solver that covers a board covers every board that fills it in: a word
/// fits along fewer paths once more letters are set.
pub proof fn lemma_covers_fill(s: Solver, a: Board, b: Board)
    requires
        s.covers(a),
        b.fills_in(a),
    ensures
        s.covers(b),
{
    assert forall|e: int, q: Seq<usize>|
        0 <= e < s.word_paths@.len() && #[trigger] fits_word(b, s.word_paths@[e].word@, q) implies path_views(
        s.word_paths@[e].paths@,
    ).contains(q) by {
        let w = s.word_paths@[e].word@;
        assert forall|k: int| 0 <= k < q.len() implies a.open_at(#[trigger] q[k] as int) by {
            assert(b.open_at(q[k] as int));
        }
        if conflicts(a.cells@, w, q) {
            let k = choose|k: int|
                0 <= k < q.len() && (#[trigger] a.cells@[q[k] as int]) is Some && a.cells@[q[k] as int] != Some(w[k]);
            assert(b.open_at(q[k] as int));
            assert(b.cells@[q[k] as int] == a.cells@[q[k] as int]);
        }
        assert forall|k: int| 0 <= k < q.len() - 1 implies a.touches(#[trigger] q[k] as int, q[k + 1] as int) by {
            assert(b.touches(q[k] as int, q[k + 1] as int));
        }
        assert(fits_word(a, w, q));
    }
}

/// A solver that fits a board fits every board of the same shape and holes.
pub proof fn lemma_fits_same_shape(s: Solver, a: Board, b: Board)
    requires
        s.fits(a),
        a.holes@ == b.holes@,
        a.cells@.len() == b.cells@.len(),
    ensures
        s.fits(b),
{
    assert forall|e: int, p: int|
        0 <= e < s.word_paths@.len() && 0 <= p < s.word_paths@[e].paths@.len() implies route_shape(
        b,
        s.word_paths@[e].word@,
        #[trigger] s.word_paths@[e].paths@[p]@,
    ) by {
        let q = s.word_paths@[e].paths@[p]@;
        assert(route_shape(a, s.word_paths@[e].word@, q));
        assert forall|k: int| 0 <= k < q.len() implies b.open_at(#[trigger] q[k] as int) by {
            assert(a.open_at(q[k] as int));
        }
    }
}

/// How many words of `words` come before `w` alphabetically.
fn count_alpha_before(words: &Vec<String>, w: &str) -> (n: usize)
    ensures
        n == alpha_before(views(words@), w@),
{
    let ghost ts = views(words@);
    let mut n: usize = 0;
    let mut i: usize = 0;
    proof {
        assert(ts.take(0) =~= Seq::<Seq<char>>::empty());
    }
    while i < words.len()
        invariant
            i <= words@.len(),
            ts == views(words@),
            n == alpha_before(ts.take(i as int), w@),
            n <= i,
        decreases words@.len() - i,
    {
        proof {
            assert(ts.take(i + 1).drop_last() =~= ts.take(i as int));
        }
        if str_less(words[i].as_str(), w) {
            n = n + 1;
        }
        i = i + 1;
    }
    proof {
        assert(ts.take(ts.len() as int) =~= ts);
    }
    n
}

impl Solver {
    /// Sets up a search for `target_words` on `board`: orders the words by
    /// their key and lists every path each of them fits; fails, naming the
    /// first word in that order, when some word fits no path.
    pub fn new(board: &Board, target_words: Vec<String>, full_words: Trie) -> (r: Result<Solver, String>)
        requires
            board.wf(),
            all_distinct(views(target_words@)),
            forall|i: int| 0 <= i < target_words@.len() ==> (#[trigger] target_words@[i]@).len() > 0,
        ensures
            r is Ok <==> forall|w: Seq<char>| views(target_words@).contains(w) ==> has_route(*board, byte_letters_of(w)),
            r matches Ok(s) ==> {
                &&& s.target_words@ == target_words@
                &&& s.full_words@ == full_words@
                &&& all_distinct(entry_words(s.word_paths@))
                &&& forall|w: Seq<char>| #[trigger] entry_words(s.word_paths@).contains(w) <==> views(target_words@).contains(w)
                &&& forall|a: int, b: int|
                    0 <= a < b < s.word_paths@.len() ==> !key_less(
                        word_key(views(target_words@), #[trigger] entry_words(s.word_paths@)[b]),
                        word_key(views(target_words@), #[trigger] entry_words(s.word_paths@)[a]),
                    )
                &&& forall|e: int|
                    0 <= e < s.word_paths@.len() ==> lists_completions(
                        *board,
                        byte_letters_of(#[trigger] s.word_paths@[e].word@),
                        Seq::empty(),
                        path_views(s.word_paths@[e].paths@),
                    )
                &&& (forall|i: int| 0 <= i < target_words@.len() ==> usable_word(#[trigger] target_words@[i]@)) ==> s.fits(
                    *board,
                ) && s.covers(*board)
            },
            r matches Err(e) ==> exists|w: Seq<char>|
                #![trigger views(target_words@).contains(w)]
                views(target_words@).contains(w) && !has_route(*board, byte_letters_of(w)) && e@ == no_path_message(w)
                    && forall|v: Seq<char>|
                    views(target_words@).contains(v) && key_less(
                        #[trigger] word_key(views(target_words@), v),
                        word_key(views(target_words@), w),
                    ) ==> has_route(*board, byte_letters_of(v)),
    {
        let ghost ts = views(target_words@);
        let n = target_words.len();
        let mut keys: Vec<Key> = Vec::new();
        let mut copies: Vec<String> = Vec::new();
        let mut i: usize = 0;
        while i < n
            invariant
                n == target_words@.len(),
                ts == views(target_words@),
                i <= n,
                keys@.len() == i,
                copies@.len() == i,
                forall|k: int| 0 <= k < i ==> #[trigger] copies@[k]@ == ts[k],
                forall|k: int| 0 <= k < i ==> #[trigger] keys@[k] == word_key(ts, ts[k]),
                forall|k: int| 0 <= k < n ==> (#[trigger] ts[k]).len() > 0,
            decreases n - i,
        {
            let w = target_words[i].as_str();
            let rar = word_rarity_key(w, &target_words);
            let len = w.len();
            let alpha = count_alpha_before(&target_words, w);
            keys.push((rar, len, alpha));
            copies.push(target_words[i].clone());
            i = i + 1;
        }
        let (sorted, Ghost(perm)) = stable_sort(copies, &keys);
        let mut word_paths: Vec<WordPaths> = Vec::new();
        let mut j: usize = 0;
        while j < n
            invariant
                board.wf(),
                n == target_words@.len(),
                ts == views(target_words@),
                all_distinct(ts),
                forall|k: int| 0 <= k < n ==> (#[trigger] ts[k]).len() > 0,
                forall|k: int| 0 <= k < n ==> #[trigger] keys@[k] == word_key(ts, ts[k]),
                keys@.len() == n,
                copies@.len() == n,
                stable_order(copies@, keys@, sorted@, perm),
                forall|k: int| 0 <= k < n ==> #[trigger] copies@[k]@ == ts[k],
                j <= n,
                word_paths@.len() == j,
                forall|k: int| 0 <= k < j ==> #[trigger] word_paths@[k].word@ == sorted@[k]@,
                forall|k: int|
                    0 <= k < j ==> lists_completions(
                        *board,
                        byte_letters_of(#[trigger] word_paths@[k].word@),
                        Seq::empty(),
                        path_views(word_paths@[k].paths@),
                    ),
                forall|k: int| 0 <= k < j ==> has_route(*board, byte_letters_of(#[trigger] sorted@[k]@)),
            decreases n - j,
        {
            let word = sorted[j].clone();
            proof {
                assert(sorted@[j as int] == copies@[perm[j as int]]);
                assert(ts[perm[j as int]].len() > 0);
                super::paths::lemma_bytes_nonempty(word@);
            }
            let paths = precompute_paths(board, word.as_str());
            if paths.len() == 0 {
                let mut msg = String::from_str("target word has no realizable path: ");
                proof {
                    reveal_strlit("target word has no realizable path: ");
                }
                append_str(&mut msg, word.as_str());
                proof {
                    let w = word@;
                    let bw = byte_letters_of(w);
                    let pj = perm[j as int];
                    assert(ts[pj] == w);
                    assert(ts.contains(w));
                    assert(!has_route(*board, bw)) by {
                        if has_route(*board, bw) {
                            let q = choose|q: Seq<usize>| #[trigger] fits_word(*board, bw, q);
                            assert(q.subrange(0, 0) =~= Seq::<usize>::empty());
                            assert(super::paths::extends_with(*board, bw, Seq::empty(), q));
                        }
                    }
                    assert forall|v: Seq<char>|
                        ts.contains(v) && key_less(#[trigger] word_key(ts, v), word_key(ts, w)) implies has_route(
                        *board,
                        byte_letters_of(v),
                    ) by {
                        let kv = choose|kv: int| 0 <= kv < ts.len() && ts[kv] == v;
                        // v sits somewhere in the sorted order; it must come before j
                        let pos = lemma_perm_hit(perm, n as int, kv);
                        assert(sorted@[pos]@ == v);
                        if pos >= j {
                            if pos > j {
                                assert(super::order::placed_before(keys@, perm[j as int], perm[pos]));
                            }
                            assert(keys@[perm[pos]] == word_key(ts, v));
                            assert(keys@[perm[j as int]] == word_key(ts, w));
                        }
                    }
                }
                return Err(msg);
            }
            proof {
                let w = byte_letters_of(word@);
                assert(has_route(*board, w)) by {
                    let q = path_views(paths@)[0];
                    assert(super::paths::extends_with(*board, w, Seq::empty(), q));
                }
            }
            word_paths.push(WordPaths { word, paths });
            j = j + 1;
        }
        let rank = rare_rank(&target_words);
        let s = Solver { target_words, full_words, word_paths, rare_rank: rank };
        proof {
            let ew = entry_words(s.word_paths@);
            assert forall|k: int| 0 <= k < n implies #[trigger] ew[k] == ts[perm[k]] by {
                assert(sorted@[k] == copies@[perm[k]]);
            }
            assert forall|w: Seq<char>| #[trigger] ew.contains(w) <==> ts.contains(w) by {
                if ts.contains(w) {
                    let kv = choose|kv: int| 0 <= kv < ts.len() && ts[kv] == w;
                    let pos = lemma_perm_hit(perm, n as int, kv);
                    assert(ew[pos] == w);
                }
                if ew.contains(w) {
                    let k = choose|k: int| 0 <= k < ew.len() && ew[k] == w;
                    assert(ts[perm[k]] == w);
                }
            }
            assert forall|a: int, b: int| 0 <= a < ew.len() && 0 <= b < ew.len() && a != b implies ew[a] != ew[b] by {
                assert(perm[a] != perm[b]) by {
                    if a < b {
                        assert(super::order::placed_before(keys@, perm[a], perm[b]));
                    } else {
                        assert(super::order::placed_before(keys@, perm[b], perm[a]));
                    }
                }
            }
            assert forall|a: int, b: int| 0 <= a < b < s.word_paths@.len() implies !key_less(
                word_key(ts, #[trigger] ew[b]),
                word_key(ts, #[trigger] ew[a]),
            ) by {
                assert(super::order::placed_before(keys@, perm[a], perm[b]));
            }
            assert forall|w: Seq<char>| ts.contains(w) implies has_route(*board, byte_letters_of(w)) by {
                let kv = choose|kv: int| 0 <= kv < ts.len() && ts[kv] == w;
                let pos = lemma_perm_hit(perm, n as int, kv);
                assert(sorted@[pos]@ == w);
            }
            if forall|i: int| 0 <= i < target_words@.len() ==> usable_word(#[trigger] target_words@[i]@) {
                assert forall|e: int| 0 <= e < s.word_paths@.len() implies #[trigger] byte_letters_of(s.word_paths@[e].word@)
                    == s.word_paths@[e].word@ by {
                    assert(ew[e] == ts[perm[e]]);
                    assert(usable_word(target_words@[perm[e]]@));
                    super::paths::lemma_lower_letters(s.word_paths@[e].word@);
                }
                assert forall|e: int| 0 <= e < s.word_paths@.len() implies usable_word(#[trigger] s.word_paths@[e].word@) by {
                    assert(ew[e] == ts[perm[e]]);
                }
                assert forall|e: int, p: int|
                    0 <= e < s.word_paths@.len() && 0 <= p < s.word_paths@[e].paths@.len() implies route_shape(
                    *board,
                    s.word_paths@[e].word@,
                    #[trigger] s.word_paths@[e].paths@[p]@,
                ) by {
                    let q = s.word_paths@[e].paths@[p]@;
                    assert(path_views(s.word_paths@[e].paths@)[p] == q);
                }
                assert forall|e: int| 0 <= e < s.word_paths@.len() implies s.targets().contains(#[trigger] s.word_paths@[e].word@) by {
                    assert(ew[e] == ts[perm[e]]);
                    assert(views(s.target_words@)[perm[e]] == ts[perm[e]]);
                }
                assert forall|e: int, q: Seq<usize>|
                    0 <= e < s.word_paths@.len() && #[trigger] fits_word(*board, s.word_paths@[e].word@, q) implies path_views(
                    s.word_paths@[e].paths@,
                ).contains(q) by {
                    assert(q.subrange(0, 0) =~= Seq::<usize>::empty());
                    assert(super::paths::extends_with(*board, s.word_paths@[e].word@, Seq::empty(), q));
                }
            }
        }
        Ok(s)
    }
}

/// An injective map of `0..n` into itself hits every value.
proof fn lemma_perm_hit(perm: Seq<int>, n: int, v: int) -> (pos: int)
    requires
        perm.len() == n,
        0 <= v < n,
        forall|k: int| 0 <= k < n ==> 0 <= #[trigger] perm[k] < n,
        forall|a: int, b: int| 0 <= a < n && 0 <= b < n && a != b ==> perm[a] != perm[b],
    ensures
        0 <= pos < n,
        perm[pos] == v,
{
    if !perm.contains(v) {
        let s = perm.to_set();
        assert(s.subset_of(Set::new(|x: int| 0 <= x < n && x != v)));
        lemma_range_without(n, v);
        perm.unique_seq_to_set();
        vstd::set_lib::lemma_len_subset(s, Set::new(|x: int| 0 <= x < n && x != v));
    }
    choose|pos: int| 0 <= pos < n && perm[pos] == v
}

/// An injective map of `0..n` into itself hits every value.
pub proof fn lemma_perm_hit_pub(perm: Seq<int>, n: int, v: int) -> (pos: int)
    requires
        perm.len() == n,
        0 <= v < n,
        forall|k: int| 0 <= k < n ==> 0 <= #[trigger] perm[k] < n,
        forall|a: int, b: int| 0 <= a < n && 0 <= b < n && a != b ==> perm[a] != perm[b],
    ensures
        0 <= pos < n,
        perm[pos] == v,
{
    lemma_perm_hit(perm, n, v)
}

/// The integers below `n` other than `v` number `n - 1`.
proof fn lemma_range_without(n: int, v: int)
    requires
        0 <= v < n,
    ensures
        Set::new(|x: int| 0 <= x < n && x != v).finite(),
        Set::new(|x: int| 0 <= x < n && x != v).len() == n - 1,
{
    let r = Set::new(|x: int| 0 <= x < n && x != v);
    vstd::set_lib::lemma_int_range(0, n);
    let full = vstd::set_lib::set_int_range(0, n);
    assert(r =~= full.remove(v));
}

} // verus!

verus! {

/// The test that `w` can be written along a path of the board as it stands.
pub open spec fn compatible_with(board: Board, w: Seq<char>) -> spec_fn(Seq<usize>) -> bool {
    |q: Seq<usize>| compatible(board, w, q)
}

/// The number of characters of `s`.
pub fn char_count(s: &str) -> (n: usize)
    ensures
        n == s@.len(),
{
    str_chars(s).len()
}

impl Solver {
    /// The paths of entry `e` that fit the board as it stands, in order.
    pub open spec fn open_paths(self, board: Board, e: int) -> Seq<Seq<usize>> {
        path_views(self.word_paths@[e].paths@).filter(compatible_with(board, self.word_paths@[e].word@))
    }

    /// Entry `a` is a better next word than entry `b`: fewer paths fit, or
    /// as many and the word is longer, or as long and its rarest letter is
    /// rarer.
    pub open spec fn word_better(self, board: Board, a: int, b: int) -> bool {
        let ca = self.open_paths(board, a).len();
        let cb = self.open_paths(board, b).len();
        let wa = self.word_paths@[a].word@;
        let wb = self.word_paths@[b].word@;
        let rank = rank_of(views(self.target_words@));
        ||| ca < cb
        ||| ca == cb && wa.len() > wb.len()
        ||| ca == cb && wa.len() == wb.len() && min_rank(rank, wa) < min_rank(rank, wb)
    }

    /// Entry `e` can still be written along one of its paths.
    pub open spec fn entry_feasible(self, board: Board, e: int) -> bool {
        exists|p: int|
            0 <= p < self.word_paths@[e].paths@.len() && compatible(
                board,
                self.word_paths@[e].word@,
                #[trigger] self.word_paths@[e].paths@[p]@,
            )
    }

    /// Every entry can still be written along one of its paths.
    pub open spec fn feasible(self, board: Board) -> bool {
        forall|e: int| 0 <= e < self.word_paths@.len() ==> #[trigger] self.entry_feasible(board, e)
    }

    /// Every target word can still be written along one of its paths.
    pub fn target_feasible(&self, board: &Board) -> (b: bool)
        requires
            board.wf(),
            self.fits(*board),
        ensures
            b == self.feasible(*board),
    {
        let mut e: usize = 0;
        while e < self.word_paths.len()
            invariant
                e <= self.word_paths@.len(),
                board.wf(),
                self.fits(*board),
                forall|f: int| 0 <= f < e ==> #[trigger] self.entry_feasible(*board, f),
            decreases self.word_paths@.len() - e,
        {
            let wp = &self.word_paths[e];
            let mut found = false;
            let mut p: usize = 0;
            while p < wp.paths.len()
                invariant
                    e < self.word_paths@.len(),
                    *wp == self.word_paths@[e as int],
                    p <= wp.paths@.len(),
                    board.wf(),
                    self.fits(*board),
                    found == exists|p2: int| 0 <= p2 < p && compatible(*board, wp.word@, #[trigger] wp.paths@[p2]@),
                decreases wp.paths@.len() - p,
            {
                let path = &wp.paths[p];
                proof {
                    assert(route_shape(*board, wp.word@, self.word_paths@[e as int].paths@[p as int]@));
                    assert forall|k: int| 0 <= k < path@.len() implies #[trigger] path@[k] < board.cells@.len() by {
                        assert(board.open_at(path@[k] as int));
                    }
                }
                proof {
                    assert(usable_word(self.word_paths@[e as int].word@));
                    super::paths::lemma_lower_letters(wp.word@);
                }
                if path_compatible(board, wp.word.as_str(), path.as_slice()) {
                    found = true;
                }
                p = p + 1;
            }
            if !found {
                proof {
                    assert(!self.entry_feasible(*board, e as int));
                }
                return false;
            }
            e = e + 1;
        }
        true
    }

    /// The paths of `wp` that fit the board as it stands, in order.
    fn compatible_paths(&self, board: &Board, wp: &WordPaths) -> (out: Vec<Vec<usize>>)
        requires
            board.wf(),
            usable_word(wp.word@),
            forall|p: int| 0 <= p < wp.paths@.len() ==> route_shape(*board, wp.word@, #[trigger] wp.paths@[p]@),
        ensures
            path_views(out@) == path_views(wp.paths@).filter(compatible_with(*board, wp.word@)),
    {
        let ghost f = compatible_with(*board, wp.word@);
        let ghost all = path_views(wp.paths@);
        let mut out: Vec<Vec<usize>> = Vec::new();
        let mut p: usize = 0;
        proof {
            assert(all.take(0) =~= Seq::<Seq<usize>>::empty());
            reveal_with_fuel(Seq::<_>::filter, 1);
            assert(path_views(out@) =~= all.take(0).filter(f));
        }
        while p < wp.paths.len()
            invariant
                p <= wp.paths@.len(),
                board.wf(),
                all == path_views(wp.paths@),
                f == compatible_with(*board, wp.word@),
                usable_word(wp.word@),
                forall|p2: int| 0 <= p2 < wp.paths@.len() ==> route_shape(*board, wp.word@, #[trigger] wp.paths@[p2]@),
                path_views(out@) == all.take(p as int).filter(f),
            decreases wp.paths@.len() - p,
        {
            let path = &wp.paths[p];
            proof {
                assert(route_shape(*board, wp.word@, wp.paths@[p as int]@));
                assert forall|k: int| 0 <= k < path@.len() implies #[trigger] path@[k] < board.cells@.len() by {
                    assert(board.open_at(path@[k] as int));
                }
                assert(all.take(p + 1).drop_last() =~= all.take(p as int));
                assert(all.take(p + 1).last() == path@);
                reveal_with_fuel(Seq::<_>::filter, 1);
            }
            let ghost before = out@;
            proof {
                super::paths::lemma_lower_letters(wp.word@);
            }
            if path_compatible(board, wp.word.as_str(), path.as_slice()) {
                let copy = path.clone();
                proof {
                    assert(copy@ =~= path@);
                }
                out.push(copy);
                proof {
                    assert(path_views(out@) =~= path_views(before).push(path@));
                }
            }
            p = p + 1;
        }
        proof {
            assert(all.take(wp.paths@.len() as int) =~= all);
        }
        out
    }

    /// The unplaced target word with the fewest paths that still fit (ties:
    /// the longer word, then the one with the rarer letter, then the first),
    /// with those paths; `None` once every word is placed.
    pub fn next_word_and_paths(&self, board: &Board, placed_words: &[bool]) -> (r: Option<(usize, Vec<Vec<usize>>)>)
        requires
            board.wf(),
            self.fits(*board),
            placed_words@.len() == self.word_paths@.len(),
        ensures
            r is None <==> forall|e: int| 0 <= e < placed_words@.len() ==> #[trigger] placed_words@[e],
            r matches Some((i, ps)) ==> {
                &&& 0 <= i < self.word_paths@.len()
                &&& !placed_words@[i as int]
                &&& path_views(ps@) == self.open_paths(*board, i as int)
                &&& forall|j: int| 0 <= j < i && !placed_words@[j] ==> #[trigger] self.word_better(*board, i as int, j)
                &&& forall|j: int|
                    i < j < self.word_paths@.len() && !placed_words@[j] ==> !#[trigger] self.word_better(
                        *board,
                        j,
                        i as int,
                    )
            },
    {
        let mut best: Option<(usize, Vec<Vec<usize>>)> = None;
        let mut idx: usize = 0;
        while idx < self.word_paths.len()
            invariant
                idx <= self.word_paths@.len(),
                board.wf(),
                self.fits(*board),
                placed_words@.len() == self.word_paths@.len(),
                best is None <==> forall|e: int| 0 <= e < idx ==> #[trigger] placed_words@[e],
                best matches Some((b, ps)) ==> {
                    &&& 0 <= b < idx
                    &&& !placed_words@[b as int]
                    &&& path_views(ps@) == self.open_paths(*board, b as int)
                    &&& forall|j: int| 0 <= j < b && !placed_words@[j] ==> #[trigger] self.word_better(*board, b as int, j)
                    &&& forall|j: int| b < j < idx && !placed_words@[j] ==> !#[trigger] self.word_better(*board, j, b as int)
                },
            decreases self.word_paths@.len() - idx,
        {
            if placed_words[idx] {
                idx = idx + 1;
                continue;
            }
            let wp = &self.word_paths[idx];
            proof {
                assert forall|p: int| 0 <= p < wp.paths@.len() implies route_shape(*board, wp.word@, #[trigger] wp.paths@[p]@) by {
                    assert(route_shape(*board, wp.word@, self.word_paths@[idx as int].paths@[p]@));
                }
            }
            let paths = self.compatible_paths(board, wp);
            let take = match &best {
                None => true,
                Some((b, bps)) => {
                    let best_word = &self.word_paths[*b].word;
                    let wl = char_count(wp.word.as_str());
                    let bl = char_count(best_word.as_str());
                    paths.len() < bps.len() || (paths.len() == bps.len() && wl > bl) || (paths.len() == bps.len()
                        && wl == bl && word_rarity_key(wp.word.as_str(), &self.target_words) < word_rarity_key(
                        best_word.as_str(),
                        &self.target_words,
                    ))
                },
            };
            proof {
                if let Some((b, bps)) = &best {
                    assert(path_views(paths@).len() == paths@.len());
                    assert(path_views(bps@).len() == bps@.len());
                    assert(take == self.word_better(*board, idx as int, b as int));
                }
            }
            let ghost prev = best;
            if take {
                best = Some((idx, paths));
            }
            proof {
                if let Some((b, _)) = prev {
                    if take {
                        assert forall|j: int| 0 <= j < idx && !placed_words@[j] implies #[trigger] self.word_better(
                            *board,
                            idx as int,
                            j,
                        ) by {
                            if j < b {
                                assert(self.word_better(*board, b as int, j));
                            } else if j > b {
                                assert(!self.word_better(*board, j, b as int));
                            }
                        }
                    }
                }
            }
            idx = idx + 1;
        }
        best
    }

    /// The order in which to try the paths of a word: paths that fill fewer
    /// empty cells first, then those whose rarest letter sits on an early
    /// cell, then by starting cell.
    pub fn path_order_key(&self, board: &Board, word: &str, path: &[usize]) -> (k: Key)
        requires
            all_lower(word@),
            path@.len() > 0,
            forall|j: int| 0 <= j < path@.len() ==> #[trigger] path@[j] < board.cells@.len(),
            forall|l: int| 0 <= l < 26 ==> #[trigger] self.rare_rank@[l] < 26,
        ensures
            k == (
                (usize::MAX - new_cells(board.cells@, path@)) as usize,
                path_weight(self.rare_rank@, word@, path@, word@.len(), path@.len()),
                path@[0],
            ),
    {
        let w = str_chars(word);
        let mut fresh: usize = 0;
        let mut i: usize = 0;
        while i < path.len()
            invariant
                i <= path@.len(),
                forall|j: int| 0 <= j < path@.len() ==> #[trigger] path@[j] < board.cells@.len(),
                fresh == new_cells(board.cells@, path@.take(i as int)),
                fresh <= i,
            decreases path@.len() - i,
        {
            proof {
                assert(path@.take(i + 1).drop_last() =~= path@.take(i as int));
            }
            if board.cells[path[i]].is_none() {
                fresh = fresh + 1;
            }
            i = i + 1;
        }
        proof {
            assert(path@.take(path@.len() as int) =~= path@);
        }
        let mut best: usize = usize::MAX;
        let mut k: usize = 0;
        while k < w.len() && k < path.len()
            invariant
                w@ == word@,
                all_lower(word@),
                k <= w@.len(),
                k <= path@.len(),
                forall|l: int| 0 <= l < 26 ==> #[trigger] self.rare_rank@[l] < 26,
                best == weight_upto(self.rare_rank@, word@, path@, k as int),
            decreases w@.len() - k,
        {
            let r = self.rare_rank[crate::words::idx(w[k])];
            let v = (r * 100).saturating_add(path[k]);
            if v < best {
                best = v;
            }
            k = k + 1;
        }
        ((usize::MAX - fresh), best, path[0])
    }
}

/// How many positions of `q` are empty in `cells`.
pub open spec fn new_cells(cells: Seq<Option<char>>, q: Seq<usize>) -> nat
    decreases q.len(),
{
    if q.len() == 0 {
        0
    } else {
        new_cells(cells, q.drop_last()) + if cells[q.last() as int] is None {
            1nat
        } else {
            0nat
        }
    }
}

/// The smallest `100 * rank + cell` over the first `n` letters of `w`
/// written along `q`, capped to `usize`; `usize::MAX` when `n` is 0.
pub open spec fn weight_upto(rank: Seq<usize>, w: Seq<char>, q: Seq<usize>, n: int) -> usize
    decreases n,
{
    if n <= 0 {
        usize::MAX
    } else {
        let rest = weight_upto(rank, w, q, n - 1);
        let v = super::rank::capped((rank[crate::words::letter_index(w[n - 1])] * 100 + q[n - 1]) as nat);
        if v < rest {
            v
        } else {
            rest
        }
    }
}

/// The weight of writing `w` along `q`, over as many letters as both have.
pub open spec fn path_weight(rank: Seq<usize>, w: Seq<char>, q: Seq<usize>, wl: nat, ql: nat) -> usize {
    weight_upto(rank, w, q, if wl < ql { wl as int } else { ql as int })
}

} // verus!

verus! {

/// Whether `path` passes through position `idx`.
fn has_pos(path: &Vec<usize>, idx: usize) -> (b: bool)
    ensures
        b == path@.contains(idx),
{
    let mut k: usize = 0;
    while k < path.len()
        invariant
            k <= path@.len(),
            forall|j: int| 0 <= j < k ==> path@[j] != idx,
        decreases path@.len() - k,
    {
        if path[k] == idx {
            proof {
                assert(path@[k as int] == idx);
            }
            return true;
        }
        k = k + 1;
    }
    false
}

/// How many paths of `ps` pass through `idx`.
pub open spec fn paths_with(ps: Seq<Vec<usize>>, idx: usize) -> nat
    decreases ps.len(),
{
    if ps.len() == 0 {
        0
    } else {
        paths_with(ps.drop_last(), idx) + if ps.last()@.contains(idx) {
            1nat
        } else {
            0nat
        }
    }
}

/// How many paths of all entries of `wps` pass through `idx`.
pub open spec fn total_with(wps: Seq<WordPaths>, idx: usize) -> nat
    decreases wps.len(),
{
    if wps.len() == 0 {
        0
    } else {
        total_with(wps.drop_last(), idx) + paths_with(wps.last().paths@, idx)
    }
}

impl Solver {
    /// Entry `e` writes `c` at `idx` as letter `k` of its `p`-th path, and
    /// that path can still be written.
    pub open spec fn cand_from(self, board: Board, idx: int, e: int, p: int, k: int, c: char) -> bool {
        &&& 0 <= e < self.word_paths@.len()
        &&& 0 <= p < self.word_paths@[e].paths@.len()
        &&& compatible(board, self.word_paths@[e].word@, self.word_paths@[e].paths@[p]@)
        &&& 0 <= k < self.word_paths@[e].paths@[p]@.len()
        &&& self.word_paths@[e].paths@[p]@[k] == idx
        &&& self.word_paths@[e].word@[k] == c
    }

    /// Some path before entry `e`, path `p`, letter `k` puts `c` at `idx`.
    pub open spec fn cand_before(self, board: Board, idx: int, e: int, p: int, k: int, c: char) -> bool {
        exists|e2: int, p2: int, k2: int|
            #[trigger] self.cand_from(board, idx, e2, p2, k2, c) && (e2 < e || (e2 == e && (p2 < p || (p2 == p
                && k2 < k))))
    }

    /// The letters that paths which can still be written put at `idx`.
    pub open spec fn path_letters(self, board: Board, idx: int) -> Set<char> {
        Set::new(|c: char| exists|e: int, p: int, k: int| #[trigger] self.cand_from(board, idx, e, p, k, c))
    }

    /// The letters to try at `idx`: those of `path_letters`, or every
    /// lowercase letter when there are none.
    pub open spec fn cell_options(self, board: Board, idx: int) -> Set<char> {
        if self.path_letters(board, idx) == Set::<char>::empty() {
            Set::new(|c: char| crate::words::is_lower(c))
        } else {
            self.path_letters(board, idx)
        }
    }

    /// The letters to try at the empty cell `idx`, each once.
    pub fn candidates_for_cell(&self, board: &Board, idx: usize) -> (out: Vec<char>)
        requires
            board.wf(),
            self.fits(*board),
        ensures
            out@.no_duplicates(),
            forall|c: char| #[trigger] out@.contains(c) <==> self.cell_options(*board, idx as int).contains(c),
            forall|j: int| 0 <= j < out@.len() ==> crate::words::is_lower(#[trigger] out@[j]),
    {
        let mut out: Vec<char> = Vec::new();
        let mut e: usize = 0;
        while e < self.word_paths.len()
            invariant
                e <= self.word_paths@.len(),
                board.wf(),
                self.fits(*board),
                out@.no_duplicates(),
                forall|j: int| 0 <= j < out@.len() ==> crate::words::is_lower(#[trigger] out@[j]),
                forall|c: char| #[trigger] out@.contains(c) <==> self.cand_before(*board, idx as int, e as int, 0, 0, c),
            decreases self.word_paths@.len() - e,
        {
            let wp = &self.word_paths[e];
            let w = str_chars(wp.word.as_str());
            let mut p: usize = 0;
            while p < wp.paths.len()
                invariant
                    e < self.word_paths@.len(),
                    *wp == self.word_paths@[e as int],
                    w@ == wp.word@,
                    p <= wp.paths@.len(),
                    board.wf(),
                    self.fits(*board),
                    out@.no_duplicates(),
                    forall|j: int| 0 <= j < out@.len() ==> crate::words::is_lower(#[trigger] out@[j]),
                    forall|c: char| #[trigger] out@.contains(c) <==> self.cand_before(*board, idx as int, e as int, p as int, 0, c),
                decreases wp.paths@.len() - p,
            {
                let path = &wp.paths[p];
                proof {
                    assert(route_shape(*board, wp.word@, self.word_paths@[e as int].paths@[p as int]@));
                    assert(usable_word(wp.word@));
                    assert forall|k: int| 0 <= k < path@.len() implies #[trigger] path@[k] < board.cells@.len() by {
                        assert(board.open_at(path@[k] as int));
                    }
                }
                let ghost ok = path@.contains(idx) && compatible(*board, w@, path@);
                proof {
                    super::paths::lemma_lower_letters(wp.word@);
                }
                if !has_pos(path, idx) || !path_compatible(board, wp.word.as_str(), path.as_slice()) {
                    proof {
                        assert forall|c: char| #[trigger] out@.contains(c) <==> self.cand_before(*board, idx as int, e as int, p + 1, 0, c) by {
                            if self.cand_before(*board, idx as int, e as int, p + 1, 0, c) {
                                let (e2, p2, k2) = choose|e2: int, p2: int, k2: int|
                                    #[trigger] self.cand_from(*board, idx as int, e2, p2, k2, c) && (e2 < e || (e2 == e && (p2 < p + 1 || (p2 == p + 1 && k2 < 0))));
                                if e2 == e && p2 == p {
                                    assert(path@[k2] == idx);
                                    assert(path@.contains(idx));
                                }
                                assert(self.cand_before(*board, idx as int, e as int, p as int, 0, c));
                            }
                            if self.cand_before(*board, idx as int, e as int, p as int, 0, c) {
                                let (e2, p2, k2) = choose|e2: int, p2: int, k2: int|
                                    #[trigger] self.cand_from(*board, idx as int, e2, p2, k2, c) && (e2 < e || (e2 == e && (p2 < p || (p2 == p && k2 < 0))));
                                assert(self.cand_before(*board, idx as int, e as int, p + 1, 0, c));
                            }
                        }
                    }
                    p = p + 1;
                    continue;
                }
                let mut k: usize = 0;
                while k < path.len()
                    invariant
                        e < self.word_paths@.len(),
                        *wp == self.word_paths@[e as int],
                        p < wp.paths@.len(),
                        *path == wp.paths@[p as int],
                        w@ == wp.word@,
                        usable_word(w@),
                        path@.len() == w@.len(),
                        compatible(*board, w@, path@),
                        k <= path@.len(),
                        out@.no_duplicates(),
                        forall|j: int| 0 <= j < out@.len() ==> crate::words::is_lower(#[trigger] out@[j]),
                        forall|c: char| #[trigger] out@.contains(c) <==> self.cand_before(*board, idx as int, e as int, p as int, k as int, c),
                    decreases path@.len() - k,
                {
                    let ghost before = out@;
                    proof {
                        assert forall|c: char| #[trigger] before.contains(c) <==> self.cand_before(*board, idx as int, e as int, p as int, k as int, c) by {
                            assert(out@.contains(c) <==> self.cand_before(*board, idx as int, e as int, p as int, k as int, c));
                        }
                    }
                    if path[k] == idx {
                        let c = w[k];
                        let mut present = false;
                        let mut t: usize = 0;
                        while t < out.len()
                            invariant
                                t <= out@.len(),
                                present == exists|j: int| 0 <= j < t && out@[j] == c,
                            decreases out@.len() - t,
                        {
                            if out[t] == c {
                                present = true;
                            }
                            t = t + 1;
                        }
                        if !present {
                            out.push(c);
                        }
                        proof {
                            assert(self.cand_from(*board, idx as int, e as int, p as int, k as int, c));
                            assert(out@.no_duplicates()) by {
                                if !present {
                                    assert forall|a: int, b: int| 0 <= a < b < out@.len() implies out@[a] != out@[b] by {
                                        if b == out@.len() - 1 {
                                            assert(out@[a] == before[a]);
                                        } else {
                                            assert(out@[a] == before[a] && out@[b] == before[b]);
                                        }
                                    }
                                }
                            }
                        }
                    }
                    proof {
                        assert forall|c: char| #[trigger] out@.contains(c) <==> self.cand_before(*board, idx as int, e as int, p as int, k + 1, c) by {
                            if self.cand_before(*board, idx as int, e as int, p as int, k + 1, c) {
                                let (e2, p2, k2) = choose|e2: int, p2: int, k2: int|
                                    #[trigger] self.cand_from(*board, idx as int, e2, p2, k2, c) && (e2 < e || (e2 == e && (p2 < p || (p2 == p && k2 < k + 1))));
                                if e2 == e && p2 == p && k2 == k {
                                    assert(out@.contains(c)) by {
                                        if !before.contains(c) {
                                            assert(out@[out@.len() - 1] == c);
                                        } else {
                                            let j = choose|j: int| 0 <= j < before.len() && before[j] == c;
                                            assert(out@[j] == c);
                                        }
                                    }
                                } else {
                                    assert(self.cand_before(*board, idx as int, e as int, p as int, k as int, c));
                                    assert(before.contains(c));
                                    let j = choose|j: int| 0 <= j < before.len() && before[j] == c;
                                    assert(out@[j] == c);
                                }
                            }
                            if out@.contains(c) {
                                let j = choose|j: int| 0 <= j < out@.len() && out@[j] == c;
                                if j < before.len() {
                                    assert(before[j] == c);
                                    assert(before.contains(c));
                                    let (e2, p2, k2) = choose|e2: int, p2: int, k2: int|
                                        #[trigger] self.cand_from(*board, idx as int, e2, p2, k2, c) && (e2 < e || (e2 == e && (p2 < p || (p2 == p && k2 < k))));
                                } else {
                                    assert(self.cand_from(*board, idx as int, e as int, p as int, k as int, c));
                                }
                            }
                        }
                    }
                    k = k + 1;
                }
                proof {
                    assert forall|c: char| #[trigger] out@.contains(c) <==> self.cand_before(*board, idx as int, e as int, p + 1, 0, c) by {
                        if self.cand_before(*board, idx as int, e as int, p + 1, 0, c) {
                            let (e2, p2, k2) = choose|e2: int, p2: int, k2: int|
                                #[trigger] self.cand_from(*board, idx as int, e2, p2, k2, c) && (e2 < e || (e2 == e && (p2 < p + 1 || (p2 == p + 1 && k2 < 0))));
                            assert(self.cand_before(*board, idx as int, e as int, p as int, path@.len() as int, c));
                        }
                        if self.cand_before(*board, idx as int, e as int, p as int, path@.len() as int, c) {
                            let (e2, p2, k2) = choose|e2: int, p2: int, k2: int|
                                #[trigger] self.cand_from(*board, idx as int, e2, p2, k2, c) && (e2 < e || (e2 == e && (p2 < p || (p2 == p && k2 < path@.len()))));
                            assert(self.cand_before(*board, idx as int, e as int, p + 1, 0, c));
                        }
                    }
                }
                p = p + 1;
            }
            proof {
                assert forall|c: char| #[trigger] out@.contains(c) <==> self.cand_before(*board, idx as int, e + 1, 0, 0, c) by {
                    if self.cand_before(*board, idx as int, e + 1, 0, 0, c) {
                        let (e2, p2, k2) = choose|e2: int, p2: int, k2: int|
                            #[trigger] self.cand_from(*board, idx as int, e2, p2, k2, c) && (e2 < e + 1 || (e2 == e + 1 && (p2 < 0 || (p2 == 0 && k2 < 0))));
                        assert(self.cand_before(*board, idx as int, e as int, wp.paths@.len() as int, 0, c));
                    }
                    if self.cand_before(*board, idx as int, e as int, wp.paths@.len() as int, 0, c) {
                        let (e2, p2, k2) = choose|e2: int, p2: int, k2: int|
                            #[trigger] self.cand_from(*board, idx as int, e2, p2, k2, c) && (e2 < e || (e2 == e && (p2 < wp.paths@.len() || (p2 == wp.paths@.len() && k2 < 0))));
                        assert(self.cand_before(*board, idx as int, e + 1, 0, 0, c));
                    }
                }
            }
            e = e + 1;
        }
        proof {
            assert forall|c: char| #[trigger] out@.contains(c) <==> self.path_letters(*board, idx as int).contains(c) by {
                if self.path_letters(*board, idx as int).contains(c) {
                    let (e2, p2, k2) = choose|e2: int, p2: int, k2: int| #[trigger] self.cand_from(*board, idx as int, e2, p2, k2, c);
                    assert(self.cand_before(*board, idx as int, self.word_paths@.len() as int, 0, 0, c));
                }
            }
        }
        if out.len() == 0 {
            proof {
                assert(self.path_letters(*board, idx as int) =~= Set::<char>::empty()) by {
                    assert forall|c: char| !self.path_letters(*board, idx as int).contains(c) by {
                        assert(!out@.contains(c));
                    }
                }
            }
            let mut n: usize = 0;
            while n < 26
                invariant
                    n <= 26,
                    out@.len() == n,
                    forall|j: int| 0 <= j < n ==> crate::words::letter_index(#[trigger] out@[j]) == j && crate::words::is_lower(out@[j]),
                decreases 26 - n,
            {
                out.push(crate::words::letter(n));
                n = n + 1;
            }
            proof {
                assert(self.cell_options(*board, idx as int) == Set::new(|c: char| crate::words::is_lower(c)));
                assert forall|a: int, b: int| 0 <= a < b < out@.len() implies out@[a] != out@[b] by {
                    assert(crate::words::letter_index(out@[a]) != crate::words::letter_index(out@[b]));
                }
                assert forall|c: char| #[trigger] out@.contains(c) <==> crate::words::is_lower(c) by {
                    if crate::words::is_lower(c) {
                        let j = crate::words::letter_index(c);
                        assert(crate::words::letter_index(out@[j]) == j);
                        assert(out@[j] == c);
                    }
                }
            }
        } else {
            proof {
                let c0 = out@[0];
                assert(out@.contains(c0));
                assert(self.path_letters(*board, idx as int).contains(c0));
                assert(self.path_letters(*board, idx as int) != Set::<char>::empty());
            }
        }
        out
    }

    /// How many paths of all target words pass through `idx`, capped to
    /// `usize`.
    pub fn constraint_count(&self, idx: usize) -> (n: usize)
        ensures
            n == super::rank::capped(total_with(self.word_paths@, idx)),
    {
        let ghost wps = self.word_paths@;
        let mut total: usize = 0;
        let mut e: usize = 0;
        proof {
            assert(wps.take(0) =~= Seq::<WordPaths>::empty());
        }
        while e < self.word_paths.len()
            invariant
                e <= wps.len(),
                wps == self.word_paths@,
                total == super::rank::capped(total_with(wps.take(e as int), idx)),
            decreases wps.len() - e,
        {
            let ps = &self.word_paths[e].paths;
            let mut p: usize = 0;
            proof {
                assert(ps@.take(0) =~= Seq::<Vec<usize>>::empty());
            }
            while p < ps.len()
                invariant
                    e < wps.len(),
                    wps == self.word_paths@,
                    *ps == wps[e as int].paths,
                    p <= ps@.len(),
                    total == super::rank::capped(total_with(wps.take(e as int), idx) + paths_with(ps@.take(p as int), idx)),
                decreases ps@.len() - p,
            {
                proof {
                    assert(ps@.take(p + 1).drop_last() =~= ps@.take(p as int));
                }
                if has_pos(&ps[p], idx) {
                    total = total.saturating_add(1);
                }
                p = p + 1;
            }
            proof {
                assert(ps@.take(ps@.len() as int) =~= ps@);
                assert(wps.take(e + 1).drop_last() =~= wps.take(e as int));
            }
            e = e + 1;
        }
        proof {
            assert(wps.take(wps.len() as int) =~= wps);
        }
        total
    }

    /// Cell `a` is a better next cell than cell `b`: fewer letters to try, or
    /// as many and more paths through it.
    pub open spec fn cell_better(self, board: Board, a: int, b: int) -> bool {
        let na = self.cell_options(board, a).len();
        let nb = self.cell_options(board, b).len();
        let ca = super::rank::capped(total_with(self.word_paths@, a as usize));
        let cb = super::rank::capped(total_with(self.word_paths@, b as usize));
        na < nb || (na == nb && ca > cb)
    }

    /// The empty cell with the fewest letters to try (ties: the most paths
    /// through it, then the first), with those letters; `None` once no
    /// cell is empty.
    pub fn next_cell_and_candidates(&self, board: &Board) -> (r: Option<(usize, Vec<char>)>)
        requires
            board.wf(),
            self.fits(*board),
        ensures
            r is None <==> board.complete(),
            r matches Some((i, cs)) ==> {
                &&& board.open_at(i as int)
                &&& board.cells@[i as int] is None
                &&& cs@.no_duplicates()
                &&& forall|c: char| #[trigger] cs@.contains(c) <==> self.cell_options(*board, i as int).contains(c)
                &&& forall|j: int| 0 <= j < cs@.len() ==> crate::words::is_lower(#[trigger] cs@[j])
                &&& forall|j: int|
                    0 <= j < i && board.open_at(j) && board.cells@[j] is None ==> #[trigger] self.cell_better(*board, i as int, j)
                &&& forall|j: int|
                    i < j < board.cells@.len() && board.open_at(j) && board.cells@[j] is None ==> !#[trigger] self.cell_better(
                        *board,
                        j,
                        i as int,
                    )
            },
    {
        let mut best: Option<(usize, Vec<char>, usize)> = None;
        let mut idx: usize = 0;
        while idx < board.cells.len()
            invariant
                idx <= board.cells@.len(),
                board.wf(),
                self.fits(*board),
                best is None <==> forall|j: int| 0 <= j < idx ==> #[trigger] board.holes@[j] || board.cells@[j] is Some,
                best matches Some((b, cs, bc)) ==> {
                    &&& b < idx
                    &&& board.open_at(b as int)
                    &&& board.cells@[b as int] is None
                    &&& cs@.no_duplicates()
                    &&& forall|c: char| #[trigger] cs@.contains(c) <==> self.cell_options(*board, b as int).contains(c)
                    &&& forall|j: int| 0 <= j < cs@.len() ==> crate::words::is_lower(#[trigger] cs@[j])
                    &&& cs@.len() == self.cell_options(*board, b as int).len()
                    &&& bc == super::rank::capped(total_with(self.word_paths@, b))
                    &&& forall|j: int|
                        0 <= j < b && board.open_at(j) && board.cells@[j] is None ==> #[trigger] self.cell_better(*board, b as int, j)
                    &&& forall|j: int|
                        b < j < idx && board.open_at(j) && board.cells@[j] is None ==> !#[trigger] self.cell_better(*board, j, b as int)
                },
            decreases board.cells@.len() - idx,
        {
            if board.is_hole_idx(idx) || board.cells[idx].is_some() {
                idx = idx + 1;
                continue;
            }
            let candidates = self.candidates_for_cell(board, idx);
            let count = self.constraint_count(idx);
            proof {
                assert(candidates@.to_set() =~= self.cell_options(*board, idx as int));
                candidates@.unique_seq_to_set();
            }
            let take = match &best {
                None => true,
                Some((_, bcs, bc)) => candidates.len() < bcs.len() || (candidates.len() == bcs.len() && count > *bc),
            };
            let ghost prev = best;
            if take {
                best = Some((idx, candidates, count));
            }
            proof {
                if let Some((b, _, _)) = prev {
                    if take {
                        assert(self.cell_better(*board, idx as int, b as int));
                        assert forall|j: int| 0 <= j < idx && board.open_at(j) && board.cells@[j] is None implies #[trigger] self.cell_better(
                            *board,
                            idx as int,
                            j,
                        ) by {
                            if j < b {
                                assert(self.cell_better(*board, b as int, j));
                            } else if j > b {
                                assert(!self.cell_better(*board, j, b as int));
                            }
                        }
                    } else {
                        assert(!self.cell_better(*board, idx as int, b as int));
                    }
                }
            }
            idx = idx + 1;
        }
        match best {
            None => None,
            Some((i, cs, _)) => Some((i, cs)),
        }
    }
}

} // verus!
