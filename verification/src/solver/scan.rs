//! Reading the dictionary words a (partly filled) board spells.
use vstd::prelude::*;

use super::grid::{lemma_neighbors, neighbors, Board};
use super::search::Solver;
use crate::board::{add_unique, all_distinct};
use crate::puzzle::{contains_word, word_set};
use crate::text::{pop_char, push_char};
use crate::words::{views, TrieNode};

verus! {

impl Board {
    /// `w` is read along a trail that continues `base` from `start`.
    pub open spec fn extends(self, base: Seq<usize>, start: int, w: Seq<char>) -> bool {
        exists|ext: Seq<usize>|
            ext.len() > 0 && ext[0] == start && self.is_trail(base + ext) && #[trigger] self.trail_word(
                base + ext,
            ) == w
    }

    /// `w` is read along a trail that continues `base` from `start` and passes
    /// through a cell of `changed`.
    pub open spec fn extends_through(
        self,
        base: Seq<usize>,
        start: int,
        w: Seq<char>,
        changed: Seq<usize>,
    ) -> bool {
        exists|ext: Seq<usize>|
            ext.len() > 0 && ext[0] == start && self.is_trail(base + ext) && #[trigger] self.trail_word(
                base + ext,
            ) == w && meets(base + ext, changed)
    }

    /// The words of `dict` read along some trail through a cell of `changed`.
    pub open spec fn traced_through(self, dict: Set<Seq<char>>, changed: Seq<usize>) -> Set<
        Seq<char>,
    > {
        Set::new(
            |w: Seq<char>|
                dict.contains(w) && exists|path: Seq<usize>|
                    path.len() > 0 && self.is_trail(path) && #[trigger] self.trail_word(path) == w
                        && meets(path, changed),
        )
    }
}

/// Some position of `path` is listed in `changed`.
pub open spec fn meets(path: Seq<usize>, changed: Seq<usize>) -> bool {
    exists|k: int| 0 <= k < path.len() && changed.contains(#[trigger] path[k])
}

/// `visited` marks exactly the positions of `path`.
pub open spec fn marks(visited: Seq<bool>, path: Seq<usize>) -> bool {
    forall|i: int| 0 <= i < visited.len() ==> #[trigger] visited[i] == path.contains(i as usize)
}

/// A trail cut short is still a trail.
proof fn lemma_trail_prefix(board: Board, p: Seq<usize>, q: Seq<usize>)
    requires
        board.is_trail(p + q),
    ensures
        board.is_trail(p),
{
    let pq = p + q;
    assert forall|k: int| 0 <= k < p.len() implies board.open_at(#[trigger] p[k] as int)
        && board.cells@[p[k] as int] is Some by {
        assert(pq[k] == p[k]);
    }
    assert forall|i: int, j: int|
        0 <= i < p.len() && 0 <= j < p.len() && i != j implies p[i] != p[j] by {
        assert(pq[i] == p[i] && pq[j] == p[j]);
    }
    assert forall|k: int| 0 <= k < p.len() - 1 implies board.touches(#[trigger] p[k] as int, p[k + 1] as int) by {
        assert(pq[k] == p[k] && pq[k + 1] == p[k + 1]);
    }
}

/// A word read from `base` on through `idx` is the word up to `idx` or goes
/// on through some next position.
proof fn lemma_extends_step(board: Board, base: Seq<usize>, idx: int, x: Seq<char>, changed: Seq<usize>)
    requires
        0 <= idx <= usize::MAX,
    ensures
        board.extends(base, idx, x) <==> board.is_trail(base.push(idx as usize)) && (x
            == board.trail_word(base.push(idx as usize)) || exists|nb: int|
            #[trigger] board.extends(base.push(idx as usize), nb, x)),
        board.extends_through(base, idx, x, changed) <==> board.is_trail(base.push(idx as usize)) && (
        (x == board.trail_word(base.push(idx as usize)) && meets(base.push(idx as usize), changed))
            || exists|nb: int| #[trigger] board.extends_through(base.push(idx as usize), nb, x, changed)),
{
    let b = base.push(idx as usize);
    if board.extends(base, idx, x) {
        let ext = choose|ext: Seq<usize>|
            ext.len() > 0 && ext[0] == idx && board.is_trail(base + ext) && #[trigger] board.trail_word(
                base + ext,
            ) == x;
        let rest = ext.drop_first();
        assert(base + ext =~= b + rest);
        lemma_trail_prefix(board, b, rest);
        if rest.len() == 0 {
            assert(b + rest =~= b);
        } else {
            assert(board.trail_word(b + rest) == x);
            assert(board.extends(b, rest[0] as int, x));
        }
    }
    if board.is_trail(b) && x == board.trail_word(b) {
        let ext = seq![idx as usize];
        assert(base + ext =~= b);
        assert(board.trail_word(base + ext) == x);
    }
    if board.is_trail(b) && exists|nb: int| board.extends(b, nb, x) {
        let nb = choose|nb: int| board.extends(b, nb, x);
        let rest = choose|ext: Seq<usize>|
            ext.len() > 0 && ext[0] == nb && board.is_trail(b + ext) && #[trigger] board.trail_word(
                b + ext,
            ) == x;
        let ext = seq![idx as usize] + rest;
        assert(base + ext =~= b + rest);
        assert(board.trail_word(base + ext) == x);
    }
    if board.extends_through(base, idx, x, changed) {
        let ext = choose|ext: Seq<usize>|
            ext.len() > 0 && ext[0] == idx && board.is_trail(base + ext) && #[trigger] board.trail_word(
                base + ext,
            ) == x && meets(base + ext, changed);
        let rest = ext.drop_first();
        assert(base + ext =~= b + rest);
        lemma_trail_prefix(board, b, rest);
        if rest.len() == 0 {
            assert(b + rest =~= b);
        } else {
            assert(board.trail_word(b + rest) == x);
            assert(board.extends_through(b, rest[0] as int, x, changed));
        }
    }
    if board.is_trail(b) && x == board.trail_word(b) && meets(b, changed) {
        let ext = seq![idx as usize];
        assert(base + ext =~= b);
        assert(board.trail_word(base + ext) == x);
    }
    if board.is_trail(b) && exists|nb: int| board.extends_through(b, nb, x, changed) {
        let nb = choose|nb: int| board.extends_through(b, nb, x, changed);
        let rest = choose|ext: Seq<usize>|
            ext.len() > 0 && ext[0] == nb && board.is_trail(b + ext) && #[trigger] board.trail_word(
                b + ext,
            ) == x && meets(b + ext, changed);
        let ext = seq![idx as usize] + rest;
        assert(base + ext =~= b + rest);
        assert(board.trail_word(base + ext) == x);
    }
}

/// The word read along a continuation of `base` through `idx` starts with the
/// word read up to `idx`.
proof fn lemma_extends_prefix(board: Board, base: Seq<usize>, idx: int, x: Seq<char>)
    requires
        board.extends(base, idx, x),
        0 <= idx <= usize::MAX,
    ensures
        crate::words::is_prefix_of(board.trail_word(base.push(idx as usize)), x),
{
    let b = base.push(idx as usize);
    let ext = choose|ext: Seq<usize>|
        ext.len() > 0 && ext[0] == idx && board.is_trail(base + ext) && #[trigger] board.trail_word(
            base + ext,
        ) == x;
    let rest = ext.drop_first();
    assert(base + ext =~= b + rest);
    assert(x.subrange(0, b.len() as int) =~= board.trail_word(b));
}

/// A trail through `changed` is a trail.
proof fn lemma_through_is_extends(board: Board, base: Seq<usize>, idx: int, x: Seq<char>, changed: Seq<usize>)
    requires
        board.extends_through(base, idx, x, changed),
    ensures
        board.extends(base, idx, x),
{
    let ext = choose|ext: Seq<usize>|
        ext.len() > 0 && ext[0] == idx && board.is_trail(base + ext) && #[trigger] board.trail_word(
            base + ext,
        ) == x && meets(base + ext, changed);
    assert(board.extends(base, idx, x));
}

/// A trail cannot go on through a position it already visited, an empty cell,
/// a hole, or one that does not touch its last position.
proof fn lemma_extends_blocked(board: Board, b: Seq<usize>, nb: int, x: Seq<char>, changed: Seq<usize>)
    requires
        b.len() > 0,
        (0 <= nb <= usize::MAX && b.contains(nb as usize)) || !board.touches(b.last() as int, nb) || !board.open_at(nb)
            || board.cells@[nb] is None,
    ensures
        !board.extends(b, nb, x),
        !board.extends_through(b, nb, x, changed),
{
    if board.extends(b, nb, x) {
        let ext = choose|ext: Seq<usize>|
            ext.len() > 0 && ext[0] == nb && board.is_trail(b + ext) && #[trigger] board.trail_word(
                b + ext,
            ) == x;
        let be = b + ext;
        assert(be[b.len() as int] == nb);
        assert(be[b.len() - 1] == b.last());
        if 0 <= nb <= usize::MAX && b.contains(nb as usize) {
            let i = choose|i: int| 0 <= i < b.len() && b[i] == nb as usize;
            assert(be[i] == nb as usize);
        }
    }
    if board.extends_through(b, nb, x, changed) {
        lemma_through_is_extends(board, b, nb, x, changed);
    }
}

impl Solver {
    /// Whether `out` holds a word that is not a target.
    pub fn extra_in(&self, out: &Vec<String>) -> (b: bool)
        ensures
            b == self.has_extra(word_set(out@)),
    {
        let mut i: usize = 0;
        while i < out.len()
            invariant
                i <= out@.len(),
                forall|k: int| 0 <= k < i ==> self.targets().contains(#[trigger] out@[k]@),
            decreases out@.len() - i,
        {
            if !contains_word(&self.target_words, &out[i]) {
                proof {
                    assert(views(out@)[i as int] == out@[i as int]@);
                    assert(word_set(out@).contains(out@[i as int]@));
                }
                return true;
            }
            i = i + 1;
        }
        proof {
            assert forall|w: Seq<char>| word_set(out@).contains(w) implies self.targets().contains(w) by {
                let k = choose|k: int| 0 <= k < views(out@).len() && views(out@)[k] == w;
                assert(self.targets().contains(out@[k]@));
            }
        }
        false
    }
}

/// Distinct positions below `n` number at most `n`.
proof fn lemma_path_fits(path: Seq<usize>, n: int)
    requires
        forall|k: int| 0 <= k < path.len() ==> #[trigger] path[k] < n,
        path.no_duplicates(),
        0 <= n,
    ensures
        path.len() <= n,
{
    let codes = path.map_values(|c: usize| c as int);
    assert forall|i: int, j: int|
        0 <= i < codes.len() && 0 <= j < codes.len() && i != j implies codes[i] != codes[j] by {
        assert(path[i] != path[j]);
    }
    codes.unique_seq_to_set();
    assert forall|x: int| codes.to_set().contains(x) implies vstd::set_lib::set_int_range(0, n).contains(x) by {
        let i = choose|i: int| 0 <= i < codes.len() && codes[i] == x;
        assert(path[i] < n);
    }
    vstd::set_lib::lemma_int_range(0, n);
    vstd::set_lib::lemma_len_subset(codes.to_set(), vstd::set_lib::set_int_range(0, n));
}

/// Stepping from the end of a trail to a filled, unvisited, touching open
/// position makes a longer trail; `visited` then marks the longer trail.
proof fn lemma_push_trail(board: Board, path: Seq<usize>, idx: usize)
    requires
        board.is_trail(path),
        !path.contains(idx),
        path.len() > 0 ==> board.touches(path.last() as int, idx as int),
        board.open_at(idx as int),
        board.cells@[idx as int] is Some,
    ensures
        board.is_trail(path.push(idx)),
{
    let b = path.push(idx);
    assert forall|i: int, j: int|
        0 <= i < b.len() && 0 <= j < b.len() && i != j implies b[i] != b[j] by {
        if i < path.len() && j < path.len() {
        } else if i < path.len() {
            assert(path.contains(b[i]));
        } else {
            assert(path.contains(b[j]));
        }
    }
    assert forall|k: int| 0 <= k < b.len() - 1 implies board.touches(#[trigger] b[k] as int, b[k + 1] as int) by {
        if k == path.len() - 1 {
            assert(b[k] == path.last());
        }
    }
    assert forall|k: int|
        0 <= k < b.len() implies board.open_at(#[trigger] b[k] as int) && board.cells@[b[k] as int] is Some by {
        if k == path.len() {
            assert(b[k] == idx);
        }
    }
}

/// Marking `idx` extends the marks of `path` to `path.push(idx)`.
proof fn lemma_marks_push(visited: Seq<bool>, path: Seq<usize>, idx: usize)
    requires
        marks(visited, path),
        idx < visited.len(),
        visited.len() <= usize::MAX,
    ensures
        marks(visited.update(idx as int, true), path.push(idx)),
        marks(visited, path) && !path.contains(idx) ==> visited[idx as int] == false,
{
    let v = visited.update(idx as int, true);
    let b = path.push(idx);
    assert forall|i: int| 0 <= i < v.len() implies #[trigger] v[i] == b.contains(i as usize) by {
        if i == idx {
            assert(b[path.len() as int] == idx);
        } else {
            assert(v[i] == visited[i]);
            if b.contains(i as usize) {
                let k = choose|k: int| 0 <= k < b.len() && b[k] == i as usize;
                assert(b[path.len() as int] == idx);
                assert(k < path.len());
                assert(path[k] == i as usize);
            }
            if path.contains(i as usize) {
                let k = choose|k: int| 0 <= k < path.len() && path[k] == i as usize;
                assert(b[k] == i as usize);
            }
        }
    }
}

impl Solver {
    /// What is read on from the listed neighbours makes up what is read from
    /// `idx`.
    proof fn lemma_reads_upto(self, board: Board, path: Seq<usize>, idx: usize, nbrs: Seq<usize>, j: int)
        requires
            board.wf(),
            idx < board.cells@.len(),
            board.is_trail(path.push(idx)),
            nbrs == board.neighbors_upto(idx as int, 8),
            0 <= j <= nbrs.len(),
        ensures
            self.reads_upto(board, path.push(idx), nbrs, j).subset_of(self.reads_from(board, path, idx as int)),
            j == nbrs.len() ==> self.reads_upto(board, path.push(idx), nbrs, j) == self.reads_from(board, path, idx as int),
    {
        let b = path.push(idx);
        let rf = self.reads_from(board, path, idx as int);
        let sj = self.reads_upto(board, b, nbrs, j);
        assert forall|w: Seq<char>| sj.contains(w) implies rf.contains(w) by {
            lemma_extends_step(board, path, idx as int, w, Seq::empty());
            if w != board.trail_word(b) {
                let t = choose|t: int| 0 <= t < j && #[trigger] board.extends(b, nbrs[t] as int, w);
                assert(board.extends(b, nbrs[t] as int, w));
            }
        }
        if j == nbrs.len() {
            assert forall|w: Seq<char>| rf.contains(w) implies sj.contains(w) by {
                lemma_extends_step(board, path, idx as int, w, Seq::empty());
                if w != board.trail_word(b) {
                    let nb = choose|nb: int| #[trigger] board.extends(b, nb, w);
                    assert(b.last() == idx);
                    if !(0 <= nb <= usize::MAX && nbrs.contains(nb as usize)) {
                        if board.touches(idx as int, nb) && board.open_at(nb) {
                            lemma_neighbors(board, idx as int, nb);
                        }
                        lemma_extends_blocked(board, b, nb, w, Seq::empty());
                    } else {
                        let t = choose|t: int| 0 <= t < nbrs.len() && nbrs[t] == nb as usize;
                        assert(board.extends(b, nbrs[t] as int, w));
                    }
                }
            }
            assert(sj =~= rf);
        }
    }
}

impl Solver {
    /// The dictionary words read along trails continuing `base` from `idx`.
    pub open spec fn reads_from(self, board: Board, base: Seq<usize>, idx: int) -> Set<Seq<char>> {
        Set::new(|w: Seq<char>| self.full_words@.contains(w) && board.extends(base, idx, w))
    }

    /// The dictionary words read along `b` itself or on from one of the first
    /// `j` positions of `nbrs`.
    pub open spec fn reads_upto(self, board: Board, b: Seq<usize>, nbrs: Seq<usize>, j: int) -> Set<
        Seq<char>,
    > {
        Set::new(
            |w: Seq<char>|
                self.full_words@.contains(w) && (w == board.trail_word(b) || exists|t: int|
                    0 <= t < j && #[trigger] board.extends(b, nbrs[t] as int, w)),
        )
    }

    #[verifier::rlimit(100)]
    #[verifier::spinoff_prover]
    fn collect_complete_words_rec(
        &self,
        board: &Board,
        idx: usize,
        node: &TrieNode,
        visited: &mut Vec<bool>,
        curr: &mut String,
        out: &mut Vec<String>,
        stop_on_extra: bool,
        Ghost(path): Ghost<Seq<usize>>,
    )
        requires
            board.wf(),
            idx < board.cells@.len(),
            old(visited)@.len() == board.cells@.len(),
            marks(old(visited)@, path),
            board.is_trail(path),
            old(curr)@ == board.trail_word(path),
            self.full_words.dict.reaches(old(curr)@, *node),
            !path.contains(idx),
            path.len() > 0 ==> board.touches(path.last() as int, idx as int),
            all_distinct(views(old(out)@)),
        ensures
            final(visited)@ == old(visited)@,
            final(curr)@ == old(curr)@,
            all_distinct(views(final(out)@)),
            word_set(old(out)@).subset_of(word_set(final(out)@)),
            word_set(final(out)@).subset_of(word_set(old(out)@).union(self.reads_from(*board, path, idx as int))),
            !stop_on_extra || !self.has_extra(word_set(final(out)@)) ==> word_set(final(out)@)
                == word_set(old(out)@).union(self.reads_from(*board, path, idx as int)),
        decreases board.cells@.len() - path.len(),
    {
        let ghost out0 = out@;
        let ghost b = path.push(idx);
        let ghost v0 = visited@;
        let ghost rf = self.reads_from(*board, path, idx as int);
        proof {
            assert forall|k: int| 0 <= k < path.len() implies #[trigger] path[k] < board.cells@.len() by {}
            lemma_path_fits(path, board.cells@.len() as int);
        }
        let c = match board.cells[idx] {
            Some(c) => c,
            None => {
                proof {
                    assert forall|w: Seq<char>| !rf.contains(w) by {
                        lemma_extends_step(*board, path, idx as int, w, Seq::empty());
                        if board.is_trail(b) {
                            assert(b[b.len() - 1] == idx);
                        }
                    }
                    assert(word_set(out0).union(rf) =~= word_set(out0));
                }
                return;
            },
        };
        let next_node = match self.full_words.step(node, c, Ghost(curr@)) {
            Some(n) => n,
            None => {
                proof {
                    assert forall|w: Seq<char>| !rf.contains(w) by {
                        if rf.contains(w) {
                            lemma_extends_step(*board, path, idx as int, w, Seq::empty());
                            lemma_extends_prefix(*board, path, idx as int, w);
                            assert(board.trail_word(b) =~= curr@.push(c));
                            assert(self.full_words.dict@.contains(w));
                        }
                    }
                    assert(word_set(out0).union(rf) =~= word_set(out0));
                }
                return;
            },
        };
        proof {
            lemma_push_trail(*board, path, idx);
            assert forall|k: int| 0 <= k < b.len() implies #[trigger] b[k] < board.cells@.len() by {}
            lemma_path_fits(b, board.cells@.len() as int);
        }

        visited.set(idx, true);
        push_char(curr, c);
        let ghost word = curr@;
        proof {
            assert(word =~= board.trail_word(b));
            lemma_marks_push(old(visited)@, path, idx);
        }

        if self.full_words.dict.node_ends_word(next_node, Ghost(curr@)) {
            let ghost before = out@;
            add_unique(out, curr.clone());
            if stop_on_extra && !contains_word(&self.target_words, curr) {
                pop_char(curr);
                visited.set(idx, false);
                proof {
                    assert(visited@ =~= old(visited)@);
                    assert(rf.contains(word)) by {
                        lemma_extends_step(*board, path, idx as int, word, Seq::empty());
                    }
                    assert(word_set(out@) =~= word_set(before).insert(word));
                    assert(word_set(out@).contains(word));
                }
                return;
            }
        }
        proof {
            assert(word_set(out@) =~= word_set(out0).union(self.reads_upto(*board, b, Seq::empty(), 0)));
        }

        let nbrs = neighbors(board, idx);
        proof {
            assert forall|k: int| 0 <= k < nbrs@.len() implies board.open_at(#[trigger] nbrs@[k] as int)
                && board.touches(idx as int, nbrs@[k] as int) by {
                lemma_neighbors(*board, idx as int, nbrs@[k] as int);
                assert(nbrs@.contains(nbrs@[k]));
            }
        }
        let mut j: usize = 0;
        while j < nbrs.len()
            invariant
                j <= nbrs@.len(),
                board.wf(),
                idx < board.cells@.len(),
                nbrs@ == board.neighbors_upto(idx as int, 8),
                forall|k: int| 0 <= k < nbrs@.len() ==> board.open_at(#[trigger] nbrs@[k] as int)
                    && board.touches(idx as int, nbrs@[k] as int),
                visited@.len() == board.cells@.len(),
                marks(visited@, b),
                board.is_trail(b),
                b.len() <= board.cells@.len(),
                b.len() == path.len() + 1,
                b.last() == idx,
                curr@ == word,
                word == board.trail_word(b),
                self.full_words.dict.reaches(word, *next_node),
                all_distinct(views(out@)),
                word_set(out0).subset_of(word_set(out@)),
                word_set(out@).subset_of(word_set(out0).union(self.reads_upto(*board, b, nbrs@, j as int))),
                !stop_on_extra || !self.has_extra(word_set(out@)) ==> word_set(out@)
                    == word_set(out0).union(self.reads_upto(*board, b, nbrs@, j as int)),
            ensures
                j <= nbrs@.len(),
                visited@.len() == board.cells@.len(),
                marks(visited@, b),
                curr@ == word,
                all_distinct(views(out@)),
                word_set(out0).subset_of(word_set(out@)),
                word_set(out@).subset_of(word_set(out0).union(self.reads_upto(*board, b, nbrs@, j as int))),
                !stop_on_extra || !self.has_extra(word_set(out@)) ==> word_set(out@)
                    == word_set(out0).union(self.reads_upto(*board, b, nbrs@, j as int)),
                j == nbrs@.len() || (stop_on_extra && self.has_extra(word_set(out@))),
            decreases nbrs@.len() - j,
        {
            let next = nbrs[j];
            let ghost out_a = out@;
            proof {
                assert(board.open_at(nbrs@[j as int] as int) && board.touches(idx as int, nbrs@[j as int] as int));
            }
            if !visited[next] && board.cells[next].is_some() {
                self.collect_complete_words_rec(
                    board,
                    next,
                    next_node,
                    visited,
                    curr,
                    out,
                    stop_on_extra,
                    Ghost(b),
                );
                proof {
                    let s0 = self.reads_upto(*board, b, nbrs@, j as int);
                    let s1 = self.reads_upto(*board, b, nbrs@, j + 1);
                    let rn = self.reads_from(*board, b, next as int);
                    assert(s1 =~= s0.union(rn));
                    if stop_on_extra && !self.has_extra(word_set(out@)) {
                        assert(!self.has_extra(word_set(out_a))) by {
                            if self.has_extra(word_set(out_a)) {
                                let w = choose|w: Seq<char>| word_set(out_a).contains(w) && !self.targets().contains(w);
                                assert(word_set(out@).contains(w));
                            }
                        }
                    }
                }
                j = j + 1;
                if stop_on_extra && self.extra_in(out) {
                    break;
                }
            } else {
                proof {
                    let s0 = self.reads_upto(*board, b, nbrs@, j as int);
                    let s1 = self.reads_upto(*board, b, nbrs@, j + 1);
                    assert forall|w: Seq<char>| !board.extends(b, next as int, w) by {
                        if visited@[next as int] {
                            assert(b.contains(next));
                        }
                        lemma_extends_blocked(*board, b, next as int, w, Seq::empty());
                    }
                    assert(s1 =~= s0);
                }
                j = j + 1;
            }
        }
        proof {
            self.lemma_reads_upto(*board, path, idx, nbrs@, j as int);
        }
        pop_char(curr);
        let ghost vb = visited@;
        visited.set(idx, false);
        proof {
            assert forall|i: int| 0 <= i < visited@.len() implies visited@[i] == v0[i] by {
                assert(vb[i] == b.contains(i as usize));
                assert(v0[i] == path.contains(i as usize));
                if i != idx {
                    if b.contains(i as usize) {
                        let k = choose|k: int| 0 <= k < b.len() && b[k] == i as usize;
                        assert(b[path.len() as int] == idx);
                        assert(k < path.len());
                        assert(path[k] == i as usize);
                    }
                    if path.contains(i as usize) {
                        let k = choose|k: int| 0 <= k < path.len() && path[k] == i as usize;
                        assert(b[k] == i as usize);
                    }
                }
            }
            assert(visited@ =~= v0);
        }
    }

    /// The dictionary words read along trails continuing `base` from `idx`
    /// that pass through `changed`.
    pub open spec fn reads_through(self, board: Board, base: Seq<usize>, idx: int, changed: Seq<usize>) -> Set<Seq<char>> {
        Set::new(|w: Seq<char>| self.full_words@.contains(w) && board.extends_through(base, idx, w, changed))
    }

    /// The dictionary words read along `b` itself (when it passes through
    /// `changed`) or on from one of the first `j` positions of `nbrs`, through
    /// `changed`.
    pub open spec fn reads_through_upto(self, board: Board, b: Seq<usize>, nbrs: Seq<usize>, j: int, changed: Seq<usize>) -> Set<
        Seq<char>,
    > {
        Set::new(
            |w: Seq<char>|
                self.full_words@.contains(w) && ((w == board.trail_word(b) && meets(b, changed)) || exists|t: int|
                    0 <= t < j && #[trigger] board.extends_through(b, nbrs[t] as int, w, changed)),
        )
    }

    proof fn lemma_reads_through_upto(self, board: Board, path: Seq<usize>, idx: usize, nbrs: Seq<usize>, j: int, changed: Seq<usize>)
        requires
            board.wf(),
            idx < board.cells@.len(),
            board.is_trail(path.push(idx)),
            nbrs == board.neighbors_upto(idx as int, 8),
            0 <= j <= nbrs.len(),
        ensures
            self.reads_through_upto(board, path.push(idx), nbrs, j, changed).subset_of(self.reads_through(board, path, idx as int, changed)),
            j == nbrs.len() ==> self.reads_through_upto(board, path.push(idx), nbrs, j, changed) == self.reads_through(board, path, idx as int, changed),
    {
        let b = path.push(idx);
        let rf = self.reads_through(board, path, idx as int, changed);
        let sj = self.reads_through_upto(board, b, nbrs, j, changed);
        assert forall|w: Seq<char>| sj.contains(w) implies rf.contains(w) by {
            lemma_extends_step(board, path, idx as int, w, changed);
            if !(w == board.trail_word(b) && meets(b, changed)) {
                let t = choose|t: int| 0 <= t < j && #[trigger] board.extends_through(b, nbrs[t] as int, w, changed);
                assert(board.extends_through(b, nbrs[t] as int, w, changed));
            }
        }
        if j == nbrs.len() {
            assert forall|w: Seq<char>| rf.contains(w) implies sj.contains(w) by {
                lemma_extends_step(board, path, idx as int, w, changed);
                if !(w == board.trail_word(b) && meets(b, changed)) {
                    let nb = choose|nb: int| #[trigger] board.extends_through(b, nb, w, changed);
                    assert(b.last() == idx);
                    if !(0 <= nb <= usize::MAX && nbrs.contains(nb as usize)) {
                        if board.touches(idx as int, nb) && board.open_at(nb) {
                            lemma_neighbors(board, idx as int, nb);
                        }
                        lemma_extends_blocked(board, b, nb, w, changed);
                    } else {
                        let t = choose|t: int| 0 <= t < nbrs.len() && nbrs[t] == nb as usize;
                        assert(board.extends_through(b, nbrs[t] as int, w, changed));
                    }
                }
            }
            assert(sj =~= rf);
        }
    }

    #[verifier::rlimit(100)]
    #[verifier::spinoff_prover]
    fn collect_complete_words_from_rec(
        &self,
        board: &Board,
        idx: usize,
        node: &TrieNode,
        visited: &mut Vec<bool>,
        curr: &mut String,
        out: &mut Vec<String>,
        changed: &Vec<usize>,
        touched_changed: bool,
        Ghost(path): Ghost<Seq<usize>>,
    )
        requires
            board.wf(),
            idx < board.cells@.len(),
            old(visited)@.len() == board.cells@.len(),
            marks(old(visited)@, path),
            board.is_trail(path),
            old(curr)@ == board.trail_word(path),
            self.full_words.dict.reaches(old(curr)@, *node),
            !path.contains(idx),
            path.len() > 0 ==> board.touches(path.last() as int, idx as int),
            all_distinct(views(old(out)@)),
            touched_changed == meets(path, changed@),
        ensures
            final(visited)@ == old(visited)@,
            final(curr)@ == old(curr)@,
            all_distinct(views(final(out)@)),
            word_set(old(out)@).subset_of(word_set(final(out)@)),
            word_set(final(out)@).subset_of(word_set(old(out)@).union(self.reads_through(*board, path, idx as int, changed@))),
            !self.has_extra(word_set(final(out)@)) ==> word_set(final(out)@)
                == word_set(old(out)@).union(self.reads_through(*board, path, idx as int, changed@)),
        decreases board.cells@.len() - path.len(),
    {
        let ghost out0 = out@;
        let ghost b = path.push(idx);
        let ghost v0 = visited@;
        let ghost rf = self.reads_through(*board, path, idx as int, changed@);
        proof {
            assert forall|k: int| 0 <= k < path.len() implies #[trigger] path[k] < board.cells@.len() by {}
            lemma_path_fits(path, board.cells@.len() as int);
        }
        let c = match board.cells[idx] {
            Some(c) => c,
            None => {
                proof {
                    assert forall|w: Seq<char>| !rf.contains(w) by {
                        lemma_extends_step(*board, path, idx as int, w, changed@);
                        if board.is_trail(b) {
                            assert(b[b.len() - 1] == idx);
                        }
                    }
                    assert(word_set(out0).union(rf) =~= word_set(out0));
                }
                return;
            },
        };
        let next_node = match self.full_words.step(node, c, Ghost(curr@)) {
            Some(n) => n,
            None => {
                proof {
                    assert forall|w: Seq<char>| !rf.contains(w) by {
                        if rf.contains(w) {
                            lemma_extends_step(*board, path, idx as int, w, changed@);
                            lemma_through_is_extends(*board, path, idx as int, w, changed@);
                            lemma_extends_prefix(*board, path, idx as int, w);
                            assert(board.trail_word(b) =~= curr@.push(c));
                            assert(self.full_words.dict@.contains(w));
                        }
                    }
                    assert(word_set(out0).union(rf) =~= word_set(out0));
                }
                return;
            },
        };
        proof {
            lemma_push_trail(*board, path, idx);
            assert forall|k: int| 0 <= k < b.len() implies #[trigger] b[k] < board.cells@.len() by {}
            lemma_path_fits(b, board.cells@.len() as int);
        }

        visited.set(idx, true);
        push_char(curr, c);
        let ghost word = curr@;
        proof {
            assert(word =~= board.trail_word(b));
            lemma_marks_push(old(visited)@, path, idx);
        }

        let touched_changed = touched_changed || lists(changed, idx);
        proof {
            lemma_meets_push(path, idx, changed@);
        }
        if touched_changed && self.full_words.dict.node_ends_word(next_node, Ghost(curr@)) {
            let ghost before = out@;
            add_unique(out, curr.clone());
            if !contains_word(&self.target_words, curr) {
                pop_char(curr);
                let ghost vb = visited@;
                visited.set(idx, false);
                proof {
                    assert forall|i: int| 0 <= i < visited@.len() implies visited@[i] == v0[i] by {
                        assert(vb[i] == b.contains(i as usize));
                        assert(v0[i] == path.contains(i as usize));
                        if i != idx {
                            if b.contains(i as usize) {
                                let k = choose|k: int| 0 <= k < b.len() && b[k] == i as usize;
                                assert(b[path.len() as int] == idx);
                                assert(k < path.len());
                                assert(path[k] == i as usize);
                            }
                            if path.contains(i as usize) {
                                let k = choose|k: int| 0 <= k < path.len() && path[k] == i as usize;
                                assert(b[k] == i as usize);
                            }
                        }
                    }
                    assert(visited@ =~= v0);
                    assert(rf.contains(word)) by {
                        lemma_extends_step(*board, path, idx as int, word, changed@);
                    }
                    assert(word_set(out@) =~= word_set(before).insert(word));
                    assert(word_set(out@).contains(word));
                }
                return;
            }
        }
        proof {
            assert(word_set(out@) =~= word_set(out0).union(self.reads_through_upto(*board, b, Seq::empty(), 0, changed@)));
        }

        let nbrs = neighbors(board, idx);
        proof {
            assert forall|k: int| 0 <= k < nbrs@.len() implies board.open_at(#[trigger] nbrs@[k] as int)
                && board.touches(idx as int, nbrs@[k] as int) by {
                lemma_neighbors(*board, idx as int, nbrs@[k] as int);
                assert(nbrs@.contains(nbrs@[k]));
            }
        }
        let mut j: usize = 0;
        while j < nbrs.len()
            invariant
                j <= nbrs@.len(),
                board.wf(),
                idx < board.cells@.len(),
                nbrs@ == board.neighbors_upto(idx as int, 8),
                forall|k: int| 0 <= k < nbrs@.len() ==> board.open_at(#[trigger] nbrs@[k] as int)
                    && board.touches(idx as int, nbrs@[k] as int),
                visited@.len() == board.cells@.len(),
                marks(visited@, b),
                board.is_trail(b),
                b.len() <= board.cells@.len(),
                b.len() == path.len() + 1,
                b.last() == idx,
                curr@ == word,
                word == board.trail_word(b),
                self.full_words.dict.reaches(word, *next_node),
                touched_changed == meets(b, changed@),
                all_distinct(views(out@)),
                word_set(out0).subset_of(word_set(out@)),
                word_set(out@).subset_of(word_set(out0).union(self.reads_through_upto(*board, b, nbrs@, j as int, changed@))),
                !self.has_extra(word_set(out@)) ==> word_set(out@)
                    == word_set(out0).union(self.reads_through_upto(*board, b, nbrs@, j as int, changed@)),
            ensures
                j <= nbrs@.len(),
                visited@.len() == board.cells@.len(),
                marks(visited@, b),
                curr@ == word,
                all_distinct(views(out@)),
                word_set(out0).subset_of(word_set(out@)),
                word_set(out@).subset_of(word_set(out0).union(self.reads_through_upto(*board, b, nbrs@, j as int, changed@))),
                !self.has_extra(word_set(out@)) ==> word_set(out@)
                    == word_set(out0).union(self.reads_through_upto(*board, b, nbrs@, j as int, changed@)),
                j == nbrs@.len() || self.has_extra(word_set(out@)),
            decreases nbrs@.len() - j,
        {
            let next = nbrs[j];
            let ghost out_a = out@;
            proof {
                assert(board.open_at(nbrs@[j as int] as int) && board.touches(idx as int, nbrs@[j as int] as int));
            }
            if !visited[next] && board.cells[next].is_some() {
                self.collect_complete_words_from_rec(
                    board,
                    next,
                    next_node,
                    visited,
                    curr,
                    out,
                    changed,
                    touched_changed,
                    Ghost(b),
                );
                proof {
                    let s0 = self.reads_through_upto(*board, b, nbrs@, j as int, changed@);
                    let s1 = self.reads_through_upto(*board, b, nbrs@, j + 1, changed@);
                    let rn = self.reads_through(*board, b, next as int, changed@);
                    assert(s1 =~= s0.union(rn));
                    if !self.has_extra(word_set(out@)) {
                        assert(!self.has_extra(word_set(out_a))) by {
                            if self.has_extra(word_set(out_a)) {
                                let w = choose|w: Seq<char>| word_set(out_a).contains(w) && !self.targets().contains(w);
                                assert(word_set(out@).contains(w));
                            }
                        }
                    }
                }
                j = j + 1;
                if self.extra_in(out) {
                    break;
                }
            } else {
                proof {
                    let s0 = self.reads_through_upto(*board, b, nbrs@, j as int, changed@);
                    let s1 = self.reads_through_upto(*board, b, nbrs@, j + 1, changed@);
                    assert forall|w: Seq<char>| !board.extends_through(b, next as int, w, changed@) by {
                        if visited@[next as int] {
                            assert(b.contains(next));
                        }
                        lemma_extends_blocked(*board, b, next as int, w, changed@);
                    }
                    assert(s1 =~= s0);
                }
                j = j + 1;
            }
        }
        proof {
            self.lemma_reads_through_upto(*board, path, idx, nbrs@, j as int, changed@);
        }
        pop_char(curr);
        let ghost vb = visited@;
        visited.set(idx, false);
        proof {
            assert forall|i: int| 0 <= i < visited@.len() implies visited@[i] == v0[i] by {
                assert(vb[i] == b.contains(i as usize));
                assert(v0[i] == path.contains(i as usize));
                if i != idx {
                    if b.contains(i as usize) {
                        let k = choose|k: int| 0 <= k < b.len() && b[k] == i as usize;
                        assert(b[path.len() as int] == idx);
                        assert(k < path.len());
                        assert(path[k] == i as usize);
                    }
                    if path.contains(i as usize) {
                        let k = choose|k: int| 0 <= k < path.len() && path[k] == i as usize;
                        assert(b[k] == i as usize);
                    }
                }
            }
            assert(visited@ =~= v0);
        }
    }
}

/// Whether `v` lists `x`.
fn lists(v: &Vec<usize>, x: usize) -> (b: bool)
    ensures
        b == v@.contains(x),
{
    let mut i: usize = 0;
    while i < v.len()
        invariant
            i <= v@.len(),
            forall|k: int| 0 <= k < i ==> v@[k] != x,
        decreases v@.len() - i,
    {
        if v[i] == x {
            return true;
        }
        i = i + 1;
    }
    false
}

/// A trail meets `changed` after a step exactly when it did before or the new
/// position is listed.
proof fn lemma_meets_push(path: Seq<usize>, idx: usize, changed: Seq<usize>)
    ensures
        meets(path.push(idx), changed) <==> meets(path, changed) || changed.contains(idx),
{
    let b = path.push(idx);
    if meets(b, changed) {
        let k = choose|k: int| 0 <= k < b.len() && changed.contains(#[trigger] b[k]);
        if k < path.len() {
            assert(changed.contains(path[k]));
        }
    }
    if meets(path, changed) {
        let k = choose|k: int| 0 <= k < path.len() && changed.contains(#[trigger] path[k]);
        assert(changed.contains(b[k]));
    }
    if changed.contains(idx) {
        assert(changed.contains(b[path.len() as int]));
    }
}

/// No marks: the all-false vector marks the empty path.
proof fn lemma_no_marks(visited: Seq<bool>)
    requires
        forall|i: int| 0 <= i < visited.len() ==> !#[trigger] visited[i],
    ensures
        marks(visited, Seq::empty()),
{
}

impl Solver {
    /// The dictionary words read from a start position before `i`.
    pub open spec fn reads_before(self, board: Board, i: int) -> Set<Seq<char>> {
        Set::new(
            |w: Seq<char>|
                self.full_words@.contains(w) && exists|start: int|
                    0 <= start < i && #[trigger] board.extends(Seq::empty(), start, w),
        )
    }

    /// Reading from every start gives what the board traces.
    proof fn lemma_reads_before_all(self, board: Board)
        requires
            board.wf(),
        ensures
            self.reads_before(board, board.cells@.len() as int) == board.traced(self.full_words@),
    {
        let a = self.reads_before(board, board.cells@.len() as int);
        let t = board.traced(self.full_words@);
        assert forall|w: Seq<char>| a.contains(w) <==> t.contains(w) by {
            if a.contains(w) {
                let start = choose|start: int|
                    0 <= start < board.cells@.len() && #[trigger] board.extends(Seq::empty(), start, w);
                let ext = choose|ext: Seq<usize>|
                    ext.len() > 0 && ext[0] == start && board.is_trail(Seq::empty() + ext)
                        && #[trigger] board.trail_word(Seq::empty() + ext) == w;
                assert(Seq::<usize>::empty() + ext =~= ext);
                assert(board.trail_word(ext) == w);
            }
            if t.contains(w) {
                let path = choose|path: Seq<usize>|
                    path.len() > 0 && board.is_trail(path) && #[trigger] board.trail_word(path) == w;
                assert(Seq::<usize>::empty() + path =~= path);
                assert(board.open_at(path[0] as int));
                assert(board.extends(Seq::empty(), path[0] as int, w));
            }
        }
        assert(a =~= t);
    }

    fn collect_complete_words(&self, board: &Board, stop_on_extra: bool) -> (out: Vec<String>)
        requires
            board.wf(),
        ensures
            all_distinct(views(out@)),
            word_set(out@).subset_of(board.traced(self.full_words@)),
            !stop_on_extra || !self.has_extra(word_set(out@)) ==> word_set(out@) == board.traced(
                self.full_words@,
            ),
    {
        let mut out: Vec<String> = Vec::new();
        let n = board.cells.len();
        let mut visited: Vec<bool> = Vec::new();
        let mut k: usize = 0;
        while k < n
            invariant
                k <= n,
                visited@.len() == k,
                forall|i: int| 0 <= i < k ==> !#[trigger] visited@[i],
            decreases n - k,
        {
            visited.push(false);
            k = k + 1;
        }
        proof {
            lemma_no_marks(visited@);
        }
        let mut curr = String::new();
        let root = self.full_words.dict.root_node();
        let mut idx: usize = 0;
        proof {
            assert(word_set(out@) =~= self.reads_before(*board, 0));
            assert(board.trail_word(Seq::empty()) =~= curr@);
        }
        while idx < n
            invariant
                idx <= n,
                n == board.cells@.len(),
                board.wf(),
                visited@.len() == n,
                marks(visited@, Seq::empty()),
                curr@ == Seq::<char>::empty(),
                self.full_words.dict.reaches(Seq::empty(), *root),
                all_distinct(views(out@)),
                word_set(out@).subset_of(self.reads_before(*board, idx as int)),
                !stop_on_extra || !self.has_extra(word_set(out@)) ==> word_set(out@)
                    == self.reads_before(*board, idx as int),
            ensures
                all_distinct(views(out@)),
                word_set(out@).subset_of(self.reads_before(*board, n as int)),
                !stop_on_extra || !self.has_extra(word_set(out@)) ==> word_set(out@)
                    == self.reads_before(*board, n as int),
            decreases n - idx,
        {
            let ghost out_a = out@;
            proof {
                assert(board.trail_word(Seq::empty()) =~= curr@);
                assert(board.is_trail(Seq::empty()));
            }
            if board.is_hole_idx(idx) || board.cells[idx].is_none() {
                proof {
                    assert forall|w: Seq<char>| !board.extends(Seq::empty(), idx as int, w) by {
                        lemma_extends_step(*board, Seq::empty(), idx as int, w, Seq::empty());
                        if board.is_trail(Seq::<usize>::empty().push(idx)) {
                            assert(Seq::<usize>::empty().push(idx)[0] == idx);
                        }
                    }
                    assert(self.reads_before(*board, idx + 1) =~= self.reads_before(*board, idx as int));
                }
            } else {
                self.collect_complete_words_rec(
                    board,
                    idx,
                    root,
                    &mut visited,
                    &mut curr,
                    &mut out,
                    stop_on_extra,
                    Ghost(Seq::empty()),
                );
                proof {
                    let r = self.reads_from(*board, Seq::empty(), idx as int);
                    assert(self.reads_before(*board, idx + 1) =~= self.reads_before(*board, idx as int).union(r));
                    if stop_on_extra && !self.has_extra(word_set(out@)) {
                        assert(!self.has_extra(word_set(out_a))) by {
                            if self.has_extra(word_set(out_a)) {
                                let w = choose|w: Seq<char>| word_set(out_a).contains(w) && !self.targets().contains(w);
                                assert(word_set(out@).contains(w));
                            }
                        }
                    }
                }
                if stop_on_extra && self.extra_in(&out) {
                    proof {
                        assert(self.reads_before(*board, idx + 1).subset_of(self.reads_before(*board, n as int)));
                    }
                    return out;
                }
            }
            idx = idx + 1;
        }
        proof {
            self.lemma_reads_before_all(*board);
        }
        out
    }

    /// The dictionary words the board spells.
    pub fn found_words(&self, board: &Board) -> (out: Vec<String>)
        requires
            board.wf(),
        ensures
            all_distinct(views(out@)),
            word_set(out@) == board.traced(self.full_words@),
    {
        self.collect_complete_words(board, false)
    }

    /// The board spells a dictionary word that is not a target.
    pub fn has_extra_complete_word(&self, board: &Board) -> (b: bool)
        requires
            board.wf(),
        ensures
            b == self.has_extra(board.traced(self.full_words@)),
    {
        let words = self.collect_complete_words(board, true);
        let b = self.extra_in(&words);
        proof {
            if b {
                let w = choose|w: Seq<char>| word_set(words@).contains(w) && !self.targets().contains(w);
                assert(board.traced(self.full_words@).contains(w));
            }
        }
        b
    }
}

/// A vector of `n` false marks.
fn no_marks(n: usize) -> (v: Vec<bool>)
    ensures
        v@.len() == n,
        marks(v@, Seq::empty()),
{
    let mut visited: Vec<bool> = Vec::new();
    let mut k: usize = 0;
    while k < n
        invariant
            k <= n,
            visited@.len() == k,
            forall|i: int| 0 <= i < k ==> !#[trigger] visited@[i],
        decreases n - k,
    {
        visited.push(false);
        k = k + 1;
    }
    proof {
        lemma_no_marks(visited@);
    }
    visited
}

impl Solver {
    /// The dictionary words read from a start position before `i` along a
    /// trail through `changed`.
    pub open spec fn reads_through_before(self, board: Board, i: int, changed: Seq<usize>) -> Set<Seq<char>> {
        Set::new(
            |w: Seq<char>|
                self.full_words@.contains(w) && exists|start: int|
                    0 <= start < i && #[trigger] board.extends_through(Seq::empty(), start, w, changed),
        )
    }

    proof fn lemma_reads_through_before_all(self, board: Board, changed: Seq<usize>)
        requires
            board.wf(),
        ensures
            self.reads_through_before(board, board.cells@.len() as int, changed) == board.traced_through(self.full_words@, changed),
    {
        let a = self.reads_through_before(board, board.cells@.len() as int, changed);
        let t = board.traced_through(self.full_words@, changed);
        assert forall|w: Seq<char>| a.contains(w) <==> t.contains(w) by {
            if a.contains(w) {
                let start = choose|start: int|
                    0 <= start < board.cells@.len() && #[trigger] board.extends_through(Seq::empty(), start, w, changed);
                let ext = choose|ext: Seq<usize>|
                    ext.len() > 0 && ext[0] == start && board.is_trail(Seq::empty() + ext)
                        && #[trigger] board.trail_word(Seq::empty() + ext) == w && meets(Seq::empty() + ext, changed);
                assert(Seq::<usize>::empty() + ext =~= ext);
                assert(board.trail_word(ext) == w);
            }
            if t.contains(w) {
                let path = choose|path: Seq<usize>|
                    path.len() > 0 && board.is_trail(path) && #[trigger] board.trail_word(path) == w && meets(path, changed);
                assert(Seq::<usize>::empty() + path =~= path);
                assert(board.open_at(path[0] as int));
                assert(board.extends_through(Seq::empty(), path[0] as int, w, changed));
            }
        }
        assert(a =~= t);
    }

    fn collect_complete_words_from(&self, board: &Board, changed: &Vec<usize>) -> (out: Vec<String>)
        requires
            board.wf(),
        ensures
            all_distinct(views(out@)),
            word_set(out@).subset_of(board.traced_through(self.full_words@, changed@)),
            !self.has_extra(word_set(out@)) ==> word_set(out@) == board.traced_through(
                self.full_words@,
                changed@,
            ),
    {
        let mut out: Vec<String> = Vec::new();
        let n = board.cells.len();
        let root = self.full_words.dict.root_node();
        let mut start: usize = 0;
        proof {
            assert(word_set(out@) =~= self.reads_through_before(*board, 0, changed@));
            assert(!meets(Seq::empty(), changed@));
        }
        while start < n
            invariant
                start <= n,
                n == board.cells@.len(),
                board.wf(),
                self.full_words.dict.reaches(Seq::empty(), *root),
                !meets(Seq::empty(), changed@),
                all_distinct(views(out@)),
                word_set(out@).subset_of(self.reads_through_before(*board, start as int, changed@)),
                !self.has_extra(word_set(out@)) ==> word_set(out@)
                    == self.reads_through_before(*board, start as int, changed@),
            decreases n - start,
        {
            let ghost out_a = out@;
            if board.is_hole_idx(start) || board.cells[start].is_none() {
                proof {
                    assert forall|w: Seq<char>| !board.extends_through(Seq::empty(), start as int, w, changed@) by {
                        lemma_extends_step(*board, Seq::empty(), start as int, w, changed@);
                        if board.is_trail(Seq::<usize>::empty().push(start)) {
                            assert(Seq::<usize>::empty().push(start)[0] == start);
                        }
                    }
                    assert(self.reads_through_before(*board, start + 1, changed@) =~= self.reads_through_before(*board, start as int, changed@));
                }
            } else {
                let mut visited = no_marks(n);
                let mut curr = String::new();
                proof {
                    assert(board.trail_word(Seq::empty()) =~= curr@);
                    assert(board.is_trail(Seq::empty()));
                }
                self.collect_complete_words_from_rec(
                    board,
                    start,
                    root,
                    &mut visited,
                    &mut curr,
                    &mut out,
                    changed,
                    false,
                    Ghost(Seq::empty()),
                );
                proof {
                    let r = self.reads_through(*board, Seq::empty(), start as int, changed@);
                    assert(self.reads_through_before(*board, start + 1, changed@) =~= self.reads_through_before(*board, start as int, changed@).union(r));
                    if !self.has_extra(word_set(out@)) {
                        assert(!self.has_extra(word_set(out_a))) by {
                            if self.has_extra(word_set(out_a)) {
                                let w = choose|w: Seq<char>| word_set(out_a).contains(w) && !self.targets().contains(w);
                                assert(word_set(out@).contains(w));
                            }
                        }
                    }
                }
            }
            start = start + 1;
        }
        proof {
            self.lemma_reads_through_before_all(*board, changed@);
        }
        out
    }

    /// The board spells, along a trail through one of the `changed`
    /// positions, a dictionary word that is not a target.
    pub fn has_extra_complete_word_from(&self, board: &Board, changed: &Vec<usize>) -> (b: bool)
        requires
            board.wf(),
        ensures
            b == self.has_extra(board.traced_through(self.full_words@, changed@)),
    {
        if changed.len() == 0 {
            proof {
                assert forall|w: Seq<char>| !board.traced_through(self.full_words@, changed@).contains(w) by {
                    if board.traced_through(self.full_words@, changed@).contains(w) {
                        let path = choose|path: Seq<usize>|
                            path.len() > 0 && board.is_trail(path) && #[trigger] board.trail_word(path) == w && meets(path, changed@);
                        let k = choose|k: int| 0 <= k < path.len() && changed@.contains(#[trigger] path[k]);
                    }
                }
            }
            return false;
        }
        let words = self.collect_complete_words_from(board, changed);
        let b = self.extra_in(&words);
        proof {
            if b {
                let w = choose|w: Seq<char>| word_set(words@).contains(w) && !self.targets().contains(w);
                assert(board.traced_through(self.full_words@, changed@).contains(w));
            }
        }
        b
    }

    /// Whether to give up on the board after `changed` were filled in: with
    /// full checks, when the board spells any dictionary word that is not a
    /// target; otherwise when it does so through a changed position.
    pub fn extra_prune_after_assignment(
        &self,
        board: &Board,
        changed: &Vec<usize>,
        options: super::search::SolverOptions,
    ) -> (b: bool)
        requires
            board.wf(),
        ensures
            options.full_extra_checks ==> b == self.has_extra(board.traced(self.full_words@)),
            !options.full_extra_checks ==> b == self.has_extra(board.traced_through(self.full_words@, changed@)),
    {
        if options.full_extra_checks {
            self.has_extra_complete_word(board)
        } else {
            self.has_extra_complete_word_from(board, changed)
        }
    }
}

} // verus!
