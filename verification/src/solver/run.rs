//! The search: place whole target words along their paths, then fill the
//! cells that are still empty one letter at a time.
use vstd::prelude::*;

use super::grid::{shown, Board};
use super::order::{stable_order, stable_sort, Key};
use super::paths::{
    assign_path, conflicts, fits_word, lemma_write_then_clear, path_views, unassign_path, written,
};
use super::plan::{compatible, compatible_with, entry_words, lemma_covers_fill, lemma_fits_same_shape, route_shape};
use super::rank::{key_of, lemma_rank_bound, state_key};
use super::search::{SearchOutcome, SearchStats, Solver, SolverOptions};
use crate::puzzle::{contains_word, word_set};
use crate::words::{is_lower, views};

verus! {

/// How many of the first `n` cells are open and empty.
pub open spec fn empty_upto(cells: Seq<Option<char>>, holes: Seq<bool>, n: int) -> nat
    decreases n,
{
    if n <= 0 {
        0
    } else {
        empty_upto(cells, holes, n - 1) + if !holes[n - 1] && cells[n - 1] is None {
            1nat
        } else {
            0nat
        }
    }
}

/// How many cells of the board are open and empty.
pub open spec fn open_empty(b: Board) -> nat {
    empty_upto(b.cells@, b.holes@, b.cells@.len() as int)
}

/// Filling one open empty cell leaves one empty cell fewer.
proof fn lemma_fill_one(cells: Seq<Option<char>>, holes: Seq<bool>, i: int, c: char, n: int)
    requires
        0 <= i < cells.len(),
        0 <= n <= cells.len(),
        !holes[i],
        cells[i] is None,
    ensures
        i < n ==> empty_upto(cells.update(i, Some(c)), holes, n) + 1 == empty_upto(cells, holes, n),
        i >= n ==> empty_upto(cells.update(i, Some(c)), holes, n) == empty_upto(cells, holes, n),
    decreases n,
{
    if n > 0 {
        lemma_fill_one(cells, holes, i, c, n - 1);
    }
}

/// How many entries of `s` are false.
pub open spec fn unplaced(s: Seq<bool>) -> nat
    decreases s.len(),
{
    if s.len() == 0 {
        0
    } else {
        unplaced(s.drop_last()) + if s.last() {
            0nat
        } else {
            1nat
        }
    }
}

/// Placing one more word leaves one unplaced word fewer.
proof fn lemma_place_one(s: Seq<bool>, i: int)
    requires
        0 <= i < s.len(),
        !s[i],
    ensures
        unplaced(s.update(i, true)) + 1 == unplaced(s),
    decreases s.len(),
{
    if i == s.len() - 1 {
        assert(s.update(i, true).drop_last() =~= s.drop_last());
    } else {
        assert(s.update(i, true).drop_last() =~= s.drop_last().update(i, true));
        lemma_place_one(s.drop_last(), i);
    }
}

/// An element of a filtered sequence is an element of the sequence.
proof fn lemma_filter_member<A>(s: Seq<A>, pred: spec_fn(A) -> bool, i: int)
    requires
        0 <= i < s.filter(pred).len(),
    ensures
        s.contains(s.filter(pred)[i]),
        pred(s.filter(pred)[i]),
    decreases s.len(),
{
    reveal_with_fuel(Seq::<_>::filter, 1);
    s.lemma_filter_pred(pred, i);
    if s.len() > 0 {
        let sub = s.drop_last().filter(pred);
        if i < sub.len() {
            lemma_filter_member(s.drop_last(), pred, i);
            let j = choose|j: int| 0 <= j < s.drop_last().len() && s.drop_last()[j] == sub[i];
            assert(s[j] == s.filter(pred)[i]);
        } else {
            assert(s[s.len() - 1] == s.filter(pred)[i]);
        }
    }
}

/// Writing a word where it fits keeps every letter that was there.
proof fn lemma_written_keeps(cells: Seq<Option<char>>, w: Seq<char>, q: Seq<usize>)
    requires
        !conflicts(cells, w, q),
    ensures
        forall|i: int| 0 <= i < cells.len() && cells[i] is Some ==> #[trigger] written(cells, w, q)[i] == cells[i],
{
    assert forall|i: int| 0 <= i < cells.len() && cells[i] is Some implies #[trigger] written(cells, w, q)[i] == cells[i] by {
        if exists|k: int| 0 <= k < q.len() && q[k] == i {
            let k = choose|k: int| 0 <= k < q.len() && q[k] == i;
            assert(cells[q[k] as int] is Some);
        }
    }
}

/// Whether `a` and `b` hold the same words.
pub fn same_words(a: &Vec<String>, b: &Vec<String>) -> (r: bool)
    ensures
        r == (word_set(a@) == word_set(b@)),
{
    let mut i: usize = 0;
    while i < a.len()
        invariant
            i <= a@.len(),
            forall|k: int| 0 <= k < i ==> views(b@).contains(#[trigger] views(a@)[k]),
        decreases a@.len() - i,
    {
        proof {
            assert(views(a@)[i as int] == a@[i as int]@);
        }
        if !contains_word(b, &a[i]) {
            proof {
                assert(views(a@)[i as int] == a@[i as int]@);
                assert(views(a@).contains(a@[i as int]@));
                assert(word_set(a@).contains(a@[i as int]@));
                assert(!word_set(b@).contains(a@[i as int]@));
            }
            return false;
        }
        i = i + 1;
    }
    let mut j: usize = 0;
    while j < b.len()
        invariant
            j <= b@.len(),
            forall|k: int| 0 <= k < a@.len() ==> views(b@).contains(#[trigger] views(a@)[k]),
            forall|k: int| 0 <= k < j ==> views(a@).contains(#[trigger] views(b@)[k]),
        decreases b@.len() - j,
    {
        proof {
            assert(views(b@)[j as int] == b@[j as int]@);
        }
        if !contains_word(a, &b[j]) {
            proof {
                assert(views(b@)[j as int] == b@[j as int]@);
                assert(views(b@).contains(b@[j as int]@));
                assert(word_set(b@).contains(b@[j as int]@));
                assert(!word_set(a@).contains(b@[j as int]@));
            }
            return false;
        }
        j = j + 1;
    }
    proof {
        assert forall|x: Seq<char>| word_set(a@).contains(x) <==> word_set(b@).contains(x) by {
            if views(a@).contains(x) {
                let k = choose|k: int| 0 <= k < views(a@).len() && views(a@)[k] == x;
                assert(views(b@).contains(views(a@)[k]));
            }
            if views(b@).contains(x) {
                let k = choose|k: int| 0 <= k < views(b@).len() && views(b@)[k] == x;
                assert(views(a@).contains(views(b@)[k]));
            }
        }
        assert(word_set(a@) =~= word_set(b@));
    }
    true
}

impl Solver {
    /// `board` is already a solution: complete, spelling exactly the
    /// targets, with every path of every target listed.
    pub open spec fn already_solved(self, board: Board) -> bool {
        &&& board.complete()
        &&& board.traced(self.full_words@) == self.targets()
        &&& self.covers(board)
    }
}

/// A word read along a trail fits that trail.
proof fn lemma_trail_fits(board: Board, w: Seq<char>, p: Seq<usize>)
    requires
        board.is_trail(p),
        board.trail_word(p) == w,
    ensures
        fits_word(board, w, p),
        compatible(board, w, p),
{
    assert forall|k: int| 0 <= k < p.len() implies !board.holes@[#[trigger] p[k] as int] by {
        assert(board.open_at(p[k] as int));
    }
    if conflicts(board.cells@, w, p) {
        let k = choose|k: int|
            0 <= k < p.len() && (#[trigger] board.cells@[p[k] as int]) is Some && board.cells@[p[k] as int] != Some(w[k]);
        assert(w[k] == board.cells@[p[k] as int]->Some_0);
    }
}

/// Boards with the same sizes, cells and holes spell the same words.
proof fn lemma_same_traced(a: Board, b: Board, dict: Set<Seq<char>>)
    requires
        a.width == b.width,
        a.cells@ == b.cells@,
        a.holes@ == b.holes@,
    ensures
        a.traced(dict) == b.traced(dict),
{
    assert forall|w: Seq<char>| a.traced(dict).contains(w) <==> b.traced(dict).contains(w) by {
        if a.traced(dict).contains(w) {
            let p = choose|p: Seq<usize>| p.len() > 0 && a.is_trail(p) && #[trigger] a.trail_word(p) == w;
            assert(b.is_trail(p));
            assert(b.trail_word(p) =~= a.trail_word(p));
        }
        if b.traced(dict).contains(w) {
            let p = choose|p: Seq<usize>| p.len() > 0 && b.is_trail(p) && #[trigger] b.trail_word(p) == w;
            assert(a.is_trail(p));
            assert(a.trail_word(p) =~= b.trail_word(p));
        }
    }
    assert(a.traced(dict) =~= b.traced(dict));
}

impl Solver {
    /// The search's space of letters: on every board between `before` and
    /// `after`, each open empty cell gets in `after` one of the letters that
    /// the search tries there.
    pub open spec fn in_search_space(self, before: Board, after: Board) -> bool {
        forall|mid: Board, i: int|
            mid.fills_in(before) && after.fills_in(mid) && mid.open_at(i) && mid.cells@[i] is None
                ==> #[trigger] self.cell_options(mid, i).contains(after.cells@[i]->Some_0)
    }

    /// Some solution grown from `board` lies in the search's space.
    pub open spec fn reachable(self, board: Board) -> bool {
        exists|b: Board| #[trigger] self.solved(board, b) && self.in_search_space(board, b)
    }

    /// No board of these sizes and holes whose search state has key `key`,
    /// and whose every fitting path is listed, leads to a reachable solution.
    pub open spec fn dead_key(self, width: usize, height: usize, holes: Seq<bool>, key: Seq<char>) -> bool {
        forall|bd: Board, pl: Seq<bool>|
            bd.wf() && bd.width == width && bd.height == height && bd.holes@ == holes && #[trigger] key_of(
                bd.cells@,
                bd.holes@,
                pl,
            ) == key && self.covers(bd) ==> !self.reachable(bd)
    }

    /// Every key recorded as failed is dead.
    pub open spec fn memo_sound(self, width: usize, height: usize, holes: Seq<bool>, failed: Seq<String>) -> bool {
        forall|j: int| 0 <= j < failed.len() ==> self.dead_key(width, height, holes, #[trigger] failed[j]@)
    }
}

impl Solver {
    /// Every open cell of `b` lies on a trail of `b` that reads a target.
    pub open spec fn word_cells(self, b: Board) -> bool {
        forall|i: int|
            #![trigger b.open_at(i)]
            b.open_at(i) ==> exists|p: Seq<usize>, k: int|
                #![trigger b.trail_word(p), p[k]]
                0 <= k < p.len() && p[k] == i && b.is_trail(p) && self.targets().contains(b.trail_word(p))
    }
}

/// A solution in which every open cell belongs to a target word lies in the
/// search's space: when every fitting path of every target is listed, the
/// search tries that solution's letter at each cell it fills, so `solve`
/// finds a solution.
pub proof fn lemma_word_cells_reachable(s: Solver, before: Board, sol: Board)
    requires
        s.covers(before),
        forall|w: Seq<char>| s.targets().contains(w) ==> #[trigger] entry_words(s.word_paths@).contains(w),
        s.solved(before, sol),
        s.word_cells(sol),
    ensures
        s.in_search_space(before, sol),
        s.reachable(before),
{
    lemma_covers_fill(s, before, sol);
    assert forall|mid: Board, i: int|
        mid.fills_in(before) && sol.fills_in(mid) && mid.open_at(i) && mid.cells@[i] is None implies #[trigger] s.cell_options(
        mid,
        i,
    ).contains(sol.cells@[i]->Some_0) by {
        assert(sol.open_at(i));
        let (p, k) = choose|p: Seq<usize>, k: int|
            #![trigger sol.trail_word(p), p[k]]
            0 <= k < p.len() && p[k] == i && sol.is_trail(p) && s.targets().contains(sol.trail_word(p));
        let w = sol.trail_word(p);
        assert(entry_words(s.word_paths@).contains(w));
        let e = choose|e: int| 0 <= e < entry_words(s.word_paths@).len() && entry_words(s.word_paths@)[e] == w;
        assert(s.word_paths@[e].word@ == w);
        lemma_trail_fits(sol, w, p);
        let ps = path_views(s.word_paths@[e].paths@);
        assert(ps.contains(p));
        let j = choose|j: int| 0 <= j < ps.len() && ps[j] == p;
        assert(s.word_paths@[e].paths@[j]@ == p);
        lemma_trail_compatible(mid, sol, w, p);
        assert(w[k] == sol.cells@[i]->Some_0);
        assert(s.cand_from(mid, i, e, j, k, sol.cells@[i]->Some_0));
        assert(s.path_letters(mid, i).contains(sol.cells@[i]->Some_0));
        if s.path_letters(mid, i) == Set::<char>::empty() {
            assert(Set::<char>::empty().contains(sol.cells@[i]->Some_0));
        }
    }
}

/// Boards that agree on sizes, cells and holes have the same reachable
/// solutions and the same listed paths.
proof fn lemma_reach_same(s: Solver, a: Board, b: Board)
    requires
        a.width == b.width,
        a.height == b.height,
        a.cells@ == b.cells@,
        a.holes@ == b.holes@,
    ensures
        s.reachable(a) ==> s.reachable(b),
        s.covers(a) ==> s.covers(b),
{
    if s.reachable(a) {
        let sol = choose|sol: Board| #[trigger] s.solved(a, sol) && s.in_search_space(a, sol);
        assert(s.solved(b, sol));
        assert forall|mid: Board, i: int|
            mid.fills_in(b) && sol.fills_in(mid) && mid.open_at(i) && mid.cells@[i] is None implies #[trigger] s.cell_options(
            mid,
            i,
        ).contains(sol.cells@[i]->Some_0) by {
            assert(mid.fills_in(a));
        }
        assert(s.in_search_space(b, sol));
    }
    if s.covers(a) {
        assert forall|e: int, q: Seq<usize>|
            0 <= e < s.word_paths@.len() && #[trigger] fits_word(b, s.word_paths@[e].word@, q) implies path_views(
            s.word_paths@[e].paths@,
        ).contains(q) by {
            assert forall|k: int| 0 <= k < q.len() - 1 implies a.touches(#[trigger] q[k] as int, q[k + 1] as int) by {
                assert(b.touches(q[k] as int, q[k + 1] as int));
            }
            assert(fits_word(a, s.word_paths@[e].word@, q));
        }
    }
}

/// Two well-formed boards with the same holes and the same state key hold
/// the same cells.
proof fn lemma_key_cells(a: Board, b: Board, pa: Seq<bool>, pb: Seq<bool>)
    requires
        a.wf(),
        b.wf(),
        a.holes@ == b.holes@,
        key_of(a.cells@, a.holes@, pa) == key_of(b.cells@, b.holes@, pb),
    ensures
        a.cells@ == b.cells@,
{
    let ka = key_of(a.cells@, a.holes@, pa);
    assert forall|i: int| 0 <= i < a.cells@.len() implies a.cells@[i] == b.cells@[i] by {
        assert(ka[i] == shown(a.cells@[i], a.holes@[i]));
        assert(ka[i] == shown(b.cells@[i], b.holes@[i]));
        if !a.holes@[i] {
            if a.cells@[i] is Some {
                assert(is_lower(a.cells@[i]->Some_0));
            }
            if b.cells@[i] is Some {
                assert(is_lower(b.cells@[i]->Some_0));
            }
        }
    }
    assert(a.cells@ =~= b.cells@);
}

/// A key pushed for a board with no reachable solution is dead.
proof fn lemma_dead_push(s: Solver, board: Board, placed: Seq<bool>, failed: Seq<String>, key: String)
    requires
        board.wf(),
        key@ == key_of(board.cells@, board.holes@, placed),
        s.covers(board) ==> !s.reachable(board),
        s.memo_sound(board.width, board.height, board.holes@, failed),
    ensures
        s.memo_sound(board.width, board.height, board.holes@, failed.push(key)),
{
    assert forall|bd: Board, pl: Seq<bool>|
        bd.wf() && bd.width == board.width && bd.height == board.height && bd.holes@ == board.holes@ && #[trigger] key_of(
            bd.cells@,
            bd.holes@,
            pl,
        ) == key@ && s.covers(bd) implies !s.reachable(bd) by {
        lemma_key_cells(bd, board, pl, placed);
        lemma_reach_same(s, bd, board);
    }
    assert forall|j: int| 0 <= j < failed.push(key).len() implies s.dead_key(
        board.width,
        board.height,
        board.holes@,
        #[trigger] failed.push(key)[j]@,
    ) by {
        if j < failed.len() {
            assert(failed.push(key)[j] == failed[j]);
        }
    }
}

/// A key found among the dead keys has no reachable solution.
proof fn lemma_dead_hit(s: Solver, board: Board, placed: Seq<bool>, failed: Seq<String>, key: String)
    requires
        board.wf(),
        key@ == key_of(board.cells@, board.holes@, placed),
        s.memo_sound(board.width, board.height, board.holes@, failed),
        views(failed).contains(key@),
    ensures
        s.covers(board) ==> !s.reachable(board),
{
    let j = choose|j: int| 0 <= j < views(failed).len() && views(failed)[j] == key@;
    assert(views(failed)[j] == failed[j]@);
    assert(s.dead_key(board.width, board.height, board.holes@, failed[j]@));
}

/// A board that a solution fills in spells no more than the solution does.
proof fn lemma_traced_grows(a: Board, b: Board, dict: Set<Seq<char>>, changed: Seq<usize>)
    requires
        b.fills_in(a),
    ensures
        a.traced(dict).subset_of(b.traced(dict)),
        a.traced_through(dict, changed).subset_of(b.traced(dict)),
{
    assert forall|w: Seq<char>| a.traced(dict).contains(w) implies b.traced(dict).contains(w) by {
        let p = choose|p: Seq<usize>| p.len() > 0 && a.is_trail(p) && #[trigger] a.trail_word(p) == w;
        assert forall|k: int| 0 <= k < p.len() - 1 implies b.touches(#[trigger] p[k] as int, p[k + 1] as int) by {
            assert(a.touches(p[k] as int, p[k + 1] as int));
        }
        assert(b.is_trail(p));
        assert(b.trail_word(p) =~= a.trail_word(p));
    }
    assert forall|w: Seq<char>| a.traced_through(dict, changed).contains(w) implies b.traced(dict).contains(w) by {
        let p = choose|p: Seq<usize>|
            p.len() > 0 && a.is_trail(p) && #[trigger] a.trail_word(p) == w && super::scan::meets(p, changed);
        assert forall|k: int| 0 <= k < p.len() - 1 implies b.touches(#[trigger] p[k] as int, p[k + 1] as int) by {
            assert(a.touches(p[k] as int, p[k + 1] as int));
        }
        assert(b.is_trail(p));
        assert(b.trail_word(p) =~= a.trail_word(p));
    }
}

/// A board with a solution spells no word that is not a target, not even
/// through the cells just changed.
proof fn lemma_solution_no_extra(s: Solver, board: Board, sol: Board, changed: Seq<usize>)
    requires
        s.solved(board, sol),
    ensures
        !s.has_extra(board.traced(s.full_words@)),
        !s.has_extra(board.traced_through(s.full_words@, changed)),
{
    lemma_traced_grows(board, sol, s.full_words@, changed);
}

/// A board with a solution, whose fitting paths are listed, still has a
/// path for every target.
proof fn lemma_solution_feasible(s: Solver, board: Board, sol: Board)
    requires
        s.covers(board),
        s.solved(board, sol),
    ensures
        s.feasible(board),
{
    lemma_covers_fill(s, board, sol);
    assert forall|e: int| 0 <= e < s.word_paths@.len() implies #[trigger] s.entry_feasible(board, e) by {
        let w = s.word_paths@[e].word@;
        assert(s.targets().contains(w));
        assert(sol.traced(s.full_words@).contains(w));
        let p = choose|p: Seq<usize>| p.len() > 0 && sol.is_trail(p) && #[trigger] sol.trail_word(p) == w;
        lemma_trail_fits(sol, w, p);
        let ps = path_views(s.word_paths@[e].paths@);
        assert(ps.contains(p));
        let i = choose|i: int| 0 <= i < ps.len() && ps[i] == p;
        assert(s.word_paths@[e].paths@[i]@ == p);
        lemma_trail_compatible(board, sol, w, p);
    }
}

/// A word read along a trail of a board that fills `board` in can be
/// written along that trail on `board`.
proof fn lemma_trail_compatible(board: Board, sol: Board, w: Seq<char>, p: Seq<usize>)
    requires
        sol.fills_in(board),
        sol.is_trail(p),
        sol.trail_word(p) == w,
    ensures
        compatible(board, w, p),
{
    assert forall|k: int| 0 <= k < p.len() implies !board.holes@[#[trigger] p[k] as int] by {
        assert(sol.open_at(p[k] as int));
    }
    if conflicts(board.cells@, w, p) {
        let k = choose|k: int|
            0 <= k < p.len() && (#[trigger] board.cells@[p[k] as int]) is Some && board.cells@[p[k] as int] != Some(w[k]);
        assert(sol.open_at(p[k] as int));
        assert(w[k] == sol.cells@[p[k] as int]->Some_0);
    }
}

/// A solution grown from a board also grows from any board between the two,
/// staying in the search's space.
proof fn lemma_reach_mid(s: Solver, board: Board, mid: Board, sol: Board)
    requires
        s.solved(board, sol),
        s.in_search_space(board, sol),
        mid.fills_in(board),
        sol.fills_in(mid),
        mid.wf(),
    ensures
        s.solved(mid, sol),
        s.in_search_space(mid, sol),
        s.reachable(mid),
{
    assert forall|m: Board, i: int|
        m.fills_in(mid) && sol.fills_in(m) && m.open_at(i) && m.cells@[i] is None implies #[trigger] s.cell_options(
        m,
        i,
    ).contains(sol.cells@[i]->Some_0) by {
        assert(m.fills_in(board));
    }
}

/// A complete board that a solution fills in is the solution.
proof fn lemma_complete_solution(board: Board, sol: Board)
    requires
        board.wf(),
        board.complete(),
        sol.wf(),
        sol.fills_in(board),
    ensures
        sol.cells@ == board.cells@,
{
    assert forall|i: int| 0 <= i < board.cells@.len() implies sol.cells@[i] == board.cells@[i] by {
        if board.holes@[i] {
            assert(sol.holes@[i]);
        }
    }
    assert(sol.cells@ =~= board.cells@);
}

/// Writing along a trail of the solution a word it reads there keeps the
/// solution filling the board in.
proof fn lemma_write_toward(b0: Board, b1: Board, sol: Board, w: Seq<char>, q: Seq<usize>)
    requires
        sol.fills_in(b0),
        sol.is_trail(q),
        sol.trail_word(q) == w,
        b1.cells@ == written(b0.cells@, w, q),
        b1.holes@ == b0.holes@,
        b1.width == b0.width,
        b1.height == b0.height,
    ensures
        sol.fills_in(b1),
{
    assert forall|i: int| 0 <= i < b1.cells@.len() && #[trigger] b1.cells@[i] is Some implies sol.cells@[i]
        == b1.cells@[i] by {
        if exists|k: int| 0 <= k < q.len() && q[k] == i {
            let k = choose|k: int| 0 <= k < q.len() && q[k] == i;
            assert(sol.open_at(q[k] as int));
            assert(w[k] == sol.cells@[q[k] as int]->Some_0);
        }
    }
}

/// An already solved board, whose paths are listed, is its own reachable
/// solution.
proof fn lemma_already_reachable(s: Solver, board: Board)
    requires
        board.wf(),
        s.already_solved(board),
    ensures
        s.covers(board),
        s.reachable(board),
{
    assert forall|mid: Board, i: int|
        mid.fills_in(board) && board.fills_in(mid) && mid.open_at(i) && mid.cells@[i] is None implies #[trigger] s.cell_options(
        mid,
        i,
    ).contains(board.cells@[i]->Some_0) by {
        assert(board.holes@[i] || board.cells@[i] is Some);
    }
    assert(s.solved(board, board));
    assert(s.in_search_space(board, board));
}

impl Solver {
    /// `after` is a finished board grown from `before`: every open cell holds
    /// a lowercase letter, the letters of `before` are kept, and the
    /// dictionary words it spells are exactly the targets.
    pub open spec fn solved(self, before: Board, after: Board) -> bool {
        &&& after.wf()
        &&& after.complete()
        &&& after.fills_in(before)
        &&& after.traced(self.full_words@) == self.targets()
    }

    /// Fills the empty cells one at a time, trying at each step the cell
    /// with the fewest letters to choose from.
    fn solve_inner(
        &self,
        board: &mut Board,
        stats: &mut SearchStats,
        max_nodes: Option<u64>,
        failed_states: &mut Vec<String>,
        placed_words: &Vec<bool>,
        options: SolverOptions,
    ) -> (r: SearchOutcome)
        requires
            old(board).wf(),
            self.fits(*old(board)),
            self.memo_sound(old(board).width, old(board).height, old(board).holes@, old(failed_states)@),
        ensures
            r == SearchOutcome::Found ==> self.solved(*old(board), *final(board)),
            r != SearchOutcome::Found ==> final(board).same_as(*old(board)),
            r == SearchOutcome::NodeLimit ==> (max_nodes matches Some(m) && final(stats).nodes > m),
            max_nodes is Some && old(stats).nodes <= max_nodes->Some_0 ==> final(stats).nodes <= max_nodes->Some_0
                + 1,
            max_nodes is Some && old(stats).nodes <= max_nodes->Some_0 ==> (r == SearchOutcome::NodeLimit
                <==> final(stats).nodes == max_nodes->Some_0 + 1),
            final(stats).grew(*old(stats)),
            r == SearchOutcome::NotFound && self.covers(*old(board)) ==> !self.reachable(*old(board)),
            self.memo_sound(old(board).width, old(board).height, old(board).holes@, final(failed_states)@),
        decreases open_empty(*old(board)),
    {
        stats.nodes = stats.nodes.saturating_add(1);
        stats.cell_nodes = stats.cell_nodes.saturating_add(1);
        if let Some(m) = max_nodes {
            if stats.nodes > m {
                return SearchOutcome::NodeLimit;
            }
        }
        let ghost b0 = *board;
        let ghost reach = self.covers(b0) && self.reachable(b0);
        let ghost sol = choose|b: Board| #[trigger] self.solved(b0, b) && self.in_search_space(b0, b);
        let key = state_key(board, placed_words.as_slice());
        if !options.disable_memo && contains_word(failed_states, &key) {
            stats.memo_hits = stats.memo_hits.saturating_add(1);
            proof {
                lemma_dead_hit(*self, b0, placed_words@, failed_states@, key);
            }
            return SearchOutcome::NotFound;
        }
        proof {
            if reach {
                lemma_solution_no_extra(*self, b0, sol, Seq::empty());
                lemma_solution_feasible(*self, b0, sol);
            }
        }
        if options.full_extra_checks && self.has_extra_complete_word(board) {
            stats.extra_prunes = stats.extra_prunes.saturating_add(1);
            if !options.disable_memo {
                proof {
                    lemma_dead_push(*self, b0, placed_words@, failed_states@, key);
                }
                failed_states.push(key);
            }
            return SearchOutcome::NotFound;
        }
        if !self.target_feasible(board) {
            stats.target_prunes = stats.target_prunes.saturating_add(1);
            if !options.disable_memo {
                proof {
                    lemma_dead_push(*self, b0, placed_words@, failed_states@, key);
                }
                failed_states.push(key);
            }
            return SearchOutcome::NotFound;
        }
        if board.is_complete() {
            stats.complete_boards = stats.complete_boards.saturating_add(1);
            let found = self.found_words(board);
            proof {
                if reach {
                    lemma_complete_solution(b0, sol);
                    lemma_same_traced(b0, sol, self.full_words@);
                }
            }
            if same_words(&found, &self.target_words) {
                return SearchOutcome::Found;
            } else {
                return SearchOutcome::NotFound;
            }
        }
        match self.next_cell_and_candidates(board) {
            None => {
                stats.dead_ends = stats.dead_ends.saturating_add(1);
                if !options.disable_memo {
                    proof {
                        lemma_dead_push(*self, b0, placed_words@, failed_states@, key);
                    }
                    failed_states.push(key);
                }
                SearchOutcome::NotFound
            },
            Some((idx, candidates)) => {
                let mut keys: Vec<Key> = Vec::new();
                let mut k: usize = 0;
                while k < candidates.len()
                    invariant
                        k <= candidates@.len(),
                        keys@.len() == k,
                        forall|j: int| 0 <= j < candidates@.len() ==> is_lower(#[trigger] candidates@[j]),
                        self.rare_rank@.len() == 26,
                    decreases candidates@.len() - k,
                {
                    keys.push((self.rare_rank[crate::words::idx(candidates[k])], 0, 0));
                    k = k + 1;
                }
                let ghost cands0 = candidates@;
                let (cands, Ghost(perm)) = stable_sort(candidates, &keys);
                let ghost letter = sol.cells@[idx as int]->Some_0;
                let ghost mut tstar: int = 0;
                proof {
                    if reach {
                        assert(self.cell_options(b0, idx as int).contains(letter));
                        assert(cands0.contains(letter));
                        let v = choose|v: int| 0 <= v < cands0.len() && cands0[v] == letter;
                        tstar = super::order::lemma_sorted_hit(cands0, keys@, cands@, perm, v);
                    }
                }
                if cands.len() == 0 {
                    stats.dead_ends = stats.dead_ends.saturating_add(1);
                    if !options.disable_memo {
                        proof {
                            lemma_dead_push(*self, b0, placed_words@, failed_states@, key);
                        }
                        failed_states.push(key);
                    }
                    return SearchOutcome::NotFound;
                }
                let ghost s0 = *stats;
                let mut t: usize = 0;
                while t < cands.len()
                    invariant
                        b0 == *old(board),
                        b0.wf(),
                        self.fits(b0),
                        board.same_as(b0),
                        b0.open_at(idx as int),
                        b0.cells@[idx as int] is None,
                        stable_order(cands0, keys@, cands@, perm),
                        forall|j: int| 0 <= j < cands0.len() ==> is_lower(#[trigger] cands0[j]),
                        t <= cands@.len(),
                        stats.grew(*old(stats)),
                        max_nodes is Some && old(stats).nodes <= max_nodes->Some_0 ==> stats.nodes <= max_nodes->Some_0,
                        self.memo_sound(b0.width, b0.height, b0.holes@, failed_states@),
                        reach ==> 0 <= tstar < cands@.len() && t <= tstar && cands@[tstar] == letter,
                        reach ==> self.solved(b0, sol) && self.in_search_space(b0, sol) && self.covers(b0),
                        letter == sol.cells@[idx as int]->Some_0,
                        key@ == key_of(b0.cells@, b0.holes@, placed_words@),
                    decreases cands@.len() - t,
                {
                    let c = cands[t];
                    proof {
                        assert(cands@[t as int] == cands0[perm[t as int]]);
                    }
                    board.set(idx, c);
                    proof {
                        assert(board.wf()) by {
                            assert forall|i: int| 0 <= i < board.cells@.len() && #[trigger] board.holes@[i] implies board.cells@[i] is None by {
                                if i != idx {
                                    assert(board.cells@[i] == b0.cells@[i]);
                                }
                            }
                            assert forall|i: int| 0 <= i < board.cells@.len() && #[trigger] board.cells@[i] is Some implies is_lower(board.cells@[i]->Some_0) by {
                                if i != idx {
                                    assert(board.cells@[i] == b0.cells@[i]);
                                }
                            }
                        }
                        lemma_fits_same_shape(*self, b0, *board);
                        assert(board.cells@ == b0.cells@.update(idx as int, Some(c)));
                        lemma_fill_one(b0.cells@, b0.holes@, idx as int, c, b0.cells@.len() as int);
                        assert(open_empty(*board) < open_empty(b0));
                    }
                    let ghost b1 = *board;
                    proof {
                        if reach && t == tstar {
                            assert(c == letter);
                            assert(sol.holes@[idx as int] == b0.holes@[idx as int]);
                            assert(sol.complete());
                            assert(idx < sol.cells@.len());
                            assert(sol.holes@[idx as int] || sol.cells@[idx as int] is Some);
                            assert(!sol.holes@[idx as int]);
                            assert(sol.cells@[idx as int] is Some);
                            assert(sol.cells@[idx as int] == Some(letter));
                            assert(sol.fills_in(b1)) by {
                                assert forall|i: int| 0 <= i < b1.cells@.len() && #[trigger] b1.cells@[i] is Some implies sol.cells@[i]
                                    == b1.cells@[i] by {
                                    if i == idx {
                                        assert(b1.cells@[i] == Some(c));
                                        assert(sol.cells@[i] == Some(letter));
                                    } else {
                                        assert(b1.cells@[i] == b0.cells@[i]);
                                        assert(b0.cells@[i] is Some);
                                        assert(sol.fills_in(b0));
                                        assert(sol.cells@[i] == b0.cells@[i]);
                                    }
                                }
                            }
                            lemma_reach_mid(*self, b0, b1, sol);
                            lemma_covers_fill(*self, b0, b1);
                        }
                    }
                    let changed = vec![idx];
                    proof {
                        if reach && t == tstar {
                            lemma_solution_no_extra(*self, b1, sol, changed@);
                        }
                    }
                    let outcome = if self.extra_prune_after_assignment(board, &changed, options) {
                        stats.extra_prunes = stats.extra_prunes.saturating_add(1);
                        SearchOutcome::NotFound
                    } else {
                        self.solve_inner(board, stats, max_nodes, failed_states, placed_words, options)
                    };
                    if outcome == SearchOutcome::Found {
                        proof {
                            assert forall|i: int| 0 <= i < b0.cells@.len() && #[trigger] b0.cells@[i] is Some implies board.cells@[i] == b0.cells@[i] by {
                                assert(i != idx);
                                assert(b1.cells@[i] == b0.cells@[i]);
                            }
                        }
                        return SearchOutcome::Found;
                    }
                    board.clear(idx);
                    proof {
                        assert(board.cells@ =~= b0.cells@);
                    }
                    if outcome == SearchOutcome::NodeLimit {
                        return SearchOutcome::NodeLimit;
                    }
                    t = t + 1;
                }
                if !options.disable_memo {
                    proof {
                        lemma_dead_push(*self, b0, placed_words@, failed_states@, key);
                    }
                    failed_states.push(key);
                }
                SearchOutcome::NotFound
            },
        }
    }
}

} // verus!

verus! {

impl Solver {
    /// Places the target words one at a time, trying at each step the word
    /// with the fewest paths that still fit; once all are placed, fills the
    /// remaining cells.
    fn solve_by_words_inner(
        &self,
        board: &mut Board,
        placed_words: &mut Vec<bool>,
        stats: &mut SearchStats,
        max_nodes: Option<u64>,
        failed_states: &mut Vec<String>,
        options: SolverOptions,
    ) -> (r: SearchOutcome)
        requires
            old(board).wf(),
            self.fits(*old(board)),
            old(placed_words)@.len() == self.word_paths@.len(),
            self.memo_sound(old(board).width, old(board).height, old(board).holes@, old(failed_states)@),
        ensures
            r == SearchOutcome::Found ==> self.solved(*old(board), *final(board)),
            r == SearchOutcome::Found ==> forall|i: int| 0 <= i < final(placed_words)@.len() ==> #[trigger] final(placed_words)@[i],
            r != SearchOutcome::Found ==> final(board).same_as(*old(board)),
            r != SearchOutcome::Found ==> final(placed_words)@ == old(placed_words)@,
            final(placed_words)@.len() == old(placed_words)@.len(),
            r == SearchOutcome::NodeLimit ==> (max_nodes matches Some(m) && final(stats).nodes > m),
            max_nodes is Some && old(stats).nodes <= max_nodes->Some_0 ==> final(stats).nodes <= max_nodes->Some_0
                + 1,
            max_nodes is Some && old(stats).nodes <= max_nodes->Some_0 ==> (r == SearchOutcome::NodeLimit
                <==> final(stats).nodes == max_nodes->Some_0 + 1),
            final(stats).grew(*old(stats)),
            final(stats).word_nodes > 0,
            r == SearchOutcome::Found && (exists|i: int| 0 <= i < old(placed_words)@.len() && !#[trigger] old(placed_words)@[i])
                ==> final(stats).path_attempts > 0,
            r == SearchOutcome::NotFound && self.covers(*old(board)) ==> !self.reachable(*old(board)),
            self.memo_sound(old(board).width, old(board).height, old(board).holes@, final(failed_states)@),
        decreases unplaced(old(placed_words)@),
    {
        stats.nodes = stats.nodes.saturating_add(1);
        stats.word_nodes = stats.word_nodes.saturating_add(1);
        if let Some(m) = max_nodes {
            if stats.nodes > m {
                return SearchOutcome::NodeLimit;
            }
        }
        let ghost b0 = *board;
        let ghost reach = self.covers(b0) && self.reachable(b0);
        let ghost sol = choose|b: Board| #[trigger] self.solved(b0, b) && self.in_search_space(b0, b);
        let key = state_key(board, placed_words.as_slice());
        if !options.disable_memo && contains_word(failed_states, &key) {
            stats.memo_hits = stats.memo_hits.saturating_add(1);
            proof {
                lemma_dead_hit(*self, b0, placed_words@, failed_states@, key);
            }
            return SearchOutcome::NotFound;
        }
        proof {
            if reach {
                lemma_solution_no_extra(*self, b0, sol, Seq::empty());
                lemma_solution_feasible(*self, b0, sol);
            }
        }
        if options.full_extra_checks && self.has_extra_complete_word(board) {
            stats.extra_prunes = stats.extra_prunes.saturating_add(1);
            if !options.disable_memo {
                proof {
                    lemma_dead_push(*self, b0, placed_words@, failed_states@, key);
                }
                failed_states.push(key);
            }
            return SearchOutcome::NotFound;
        }
        if !self.target_feasible(board) {
            stats.target_prunes = stats.target_prunes.saturating_add(1);
            if !options.disable_memo {
                proof {
                    lemma_dead_push(*self, b0, placed_words@, failed_states@, key);
                }
                failed_states.push(key);
            }
            return SearchOutcome::NotFound;
        }
        let (word_idx, paths) = match self.next_word_and_paths(board, placed_words.as_slice()) {
            None => {
                let ghost f0 = failed_states@;
                let outcome = self.solve_inner(board, stats, max_nodes, failed_states, placed_words, options);
                if outcome == SearchOutcome::NotFound && !options.disable_memo {
                    proof {
                        lemma_dead_push(*self, b0, placed_words@, failed_states@, key);
                    }
                    failed_states.push(key);
                }
                return outcome;
            },
            Some(choice) => choice,
        };
        let word = self.word_paths[word_idx].word.as_str();
        let ghost w = word@;
        let ghost open = self.open_paths(*board, word_idx as int);
        proof {
            assert(super::dict::usable_word(w));
            assert forall|l: int| 0 <= l < 26 implies #[trigger] self.rare_rank@[l] < 26 by {
                lemma_rank_bound(views(self.target_words@), l);
            }
            assert forall|j: int| 0 <= j < open.len() implies route_shape(*board, w, #[trigger] open[j]) && compatible(*board, w, open[j]) by {
                let all = path_views(self.word_paths@[word_idx as int].paths@);
                lemma_filter_member(all, compatible_with(*board, w), j);
                let p = choose|p: int| 0 <= p < all.len() && all[p] == open[j];
                assert(route_shape(*board, w, self.word_paths@[word_idx as int].paths@[p]@));
            }
        }
        let mut keys: Vec<Key> = Vec::new();
        let mut k: usize = 0;
        while k < paths.len()
            invariant
                k <= paths@.len(),
                keys@.len() == k,
                board.wf(),
                path_views(paths@) == open,
                super::dict::usable_word(w),
                word@ == w,
                forall|l: int| 0 <= l < 26 ==> #[trigger] self.rare_rank@[l] < 26,
                forall|j: int| 0 <= j < open.len() ==> route_shape(*board, w, #[trigger] open[j]),
            decreases paths@.len() - k,
        {
            proof {
                assert(path_views(paths@)[k as int] == paths@[k as int]@);
                let q = paths@[k as int]@;
                assert(route_shape(*board, w, open[k as int]));
                assert forall|j: int| 0 <= j < q.len() implies #[trigger] q[j] < board.cells@.len() by {
                    assert(board.open_at(q[j] as int));
                }
            }
            keys.push(self.path_order_key(board, word, paths[k].as_slice()));
            k = k + 1;
        }
        let ghost paths0 = paths@;
        let (paths, Ghost(perm)) = stable_sort(paths, &keys);
        // Where the solution's own path for the word comes in the sorted list.
        let ghost mut tstar: int = 0;
        let ghost mut pstar: Seq<usize> = Seq::empty();
        proof {
            if reach {
                lemma_covers_fill(*self, b0, sol);
                assert(self.targets().contains(w));
                assert(sol.traced(self.full_words@).contains(w));
                let p = choose|p: Seq<usize>| p.len() > 0 && sol.is_trail(p) && #[trigger] sol.trail_word(p) == w;
                lemma_trail_fits(sol, w, p);
                let all = path_views(self.word_paths@[word_idx as int].paths@);
                assert(all.contains(p));
                let i = choose|i: int| 0 <= i < all.len() && all[i] == p;
                lemma_trail_compatible(b0, sol, w, p);
                all.lemma_filter_contains(compatible_with(b0, w), i);
                assert(open.contains(p));
                let v = choose|v: int| 0 <= v < open.len() && open[v] == p;
                assert(path_views(paths0)[v] == paths0[v]@);
                tstar = super::order::lemma_sorted_hit(paths0, keys@, paths@, perm, v);
                pstar = p;
            }
        }
        if paths.len() == 0 {
            stats.dead_ends = stats.dead_ends.saturating_add(1);
            if !options.disable_memo {
                proof {
                    lemma_dead_push(*self, b0, placed_words@, failed_states@, key);
                }
                failed_states.push(key);
            }
            return SearchOutcome::NotFound;
        }
        let ghost placed0 = placed_words@;
        placed_words.set(word_idx, true);
        proof {
            lemma_place_one(placed0, word_idx as int);
        }
        let mut t: usize = 0;
        while t < paths.len()
            invariant
                b0 == *old(board),
                b0.wf(),
                self.fits(b0),
                board.same_as(b0),
                placed0 == old(placed_words)@,
                0 <= word_idx < placed0.len(),
                !placed0[word_idx as int],
                placed_words@ == placed0.update(word_idx as int, true),
                placed0.len() == self.word_paths@.len(),
                unplaced(placed_words@) < unplaced(placed0),
                word@ == w,
                super::dict::usable_word(w),
                stable_order(paths0, keys@, paths@, perm),
                path_views(paths0) == open,
                forall|j: int| 0 <= j < open.len() ==> route_shape(b0, w, #[trigger] open[j]),
                forall|j: int| 0 <= j < open.len() ==> compatible(b0, w, #[trigger] open[j]),
                t <= paths@.len(),
                stats.grew(*old(stats)),
                stats.word_nodes > 0,
                max_nodes is Some && old(stats).nodes <= max_nodes->Some_0 ==> stats.nodes <= max_nodes->Some_0,
                self.memo_sound(b0.width, b0.height, b0.holes@, failed_states@),
                key@ == key_of(b0.cells@, b0.holes@, placed0),
                reach ==> 0 <= tstar < paths@.len() && t <= tstar && paths@[tstar]@ == pstar,
                reach ==> self.solved(b0, sol) && self.in_search_space(b0, sol) && self.covers(b0),
                reach ==> sol.is_trail(pstar) && sol.trail_word(pstar) == w,
            decreases paths@.len() - t,
        {
            stats.path_attempts = stats.path_attempts.saturating_add(1);
            let path = &paths[t];
            let ghost q = path@;
            proof {
                assert(paths@[t as int] == paths0[perm[t as int]]);
                assert(path_views(paths0)[perm[t as int]] == q);
                assert(route_shape(b0, w, q));
                assert(compatible(b0, w, q));
                assert(board.cells.len() == board.cells@.len());
            }
            proof {
                super::paths::lemma_lower_bytes(word);
            }
            let changed = match assign_path(board, word, path.as_slice()) {
                None => {
                    t = t + 1;
                    continue;
                },
                Some(changed) => changed,
            };
            let ghost b1 = *board;
            proof {
                lemma_fits_same_shape(*self, b0, *board);
                lemma_written_keeps(b0.cells@, w, q);
                if reach && t == tstar {
                    lemma_write_toward(b0, b1, sol, w, q);
                    lemma_reach_mid(*self, b0, b1, sol);
                    lemma_covers_fill(*self, b0, b1);
                    lemma_solution_no_extra(*self, b1, sol, changed@);
                }
            }
            let outcome = if self.extra_prune_after_assignment(board, &changed, options) {
                stats.extra_prunes = stats.extra_prunes.saturating_add(1);
                SearchOutcome::NotFound
            } else {
                self.solve_by_words_inner(board, placed_words, stats, max_nodes, failed_states, options)
            };
            if outcome == SearchOutcome::Found {
                proof {
                    assert forall|i: int| 0 <= i < b0.cells@.len() && #[trigger] b0.cells@[i] is Some implies board.cells@[i] == b0.cells@[i] by {
                        assert(b1.cells@[i] == b0.cells@[i]);
                    }
                }
                return SearchOutcome::Found;
            }
            unassign_path(board, &changed);
            proof {
                lemma_write_then_clear(b0.cells@, w, q);
            }
            if outcome == SearchOutcome::NodeLimit {
                placed_words.set(word_idx, false);
                proof {
                    assert(placed_words@ =~= placed0);
                }
                return SearchOutcome::NodeLimit;
            }
            t = t + 1;
        }
        placed_words.set(word_idx, false);
        proof {
            assert(placed_words@ =~= placed0);
        }
        if !options.disable_memo {
            proof {
                lemma_dead_push(*self, b0, placed0, failed_states@, key);
            }
            failed_states.push(key);
        }
        SearchOutcome::NotFound
    }

    /// Searches for a way to fill the board's empty cells so that it spells
    /// exactly the target words; counts its work in `stats` and gives up
    /// after `max_nodes` search nodes when a limit is given. Without a limit
    /// it finds a solution whenever one lies in its space of letters.
    pub fn solve_with_stats(
        &self,
        board: &mut Board,
        stats: &mut SearchStats,
        max_nodes: Option<u64>,
        options: SolverOptions,
    ) -> (r: SearchOutcome)
        requires
            old(board).wf(),
            self.fits(*old(board)),
        ensures
            r == SearchOutcome::Found ==> self.solved(*old(board), *final(board)),
            r != SearchOutcome::Found ==> final(board).same_as(*old(board)),
            r == SearchOutcome::NodeLimit ==> (max_nodes matches Some(m) && final(stats).nodes > m),
            max_nodes is Some && old(stats).nodes <= max_nodes->Some_0 ==> final(stats).nodes <= max_nodes->Some_0
                + 1,
            max_nodes is Some && old(stats).nodes <= max_nodes->Some_0 ==> (r == SearchOutcome::NodeLimit
                <==> final(stats).nodes == max_nodes->Some_0 + 1),
            final(stats).grew(*old(stats)),
            r == SearchOutcome::NotFound && self.covers(*old(board)) ==> !self.reachable(*old(board)),
            max_nodes is None && self.covers(*old(board)) && self.reachable(*old(board)) ==> r
                == SearchOutcome::Found,
            self.already_solved(*old(board)) && max_nodes is None ==> r == SearchOutcome::Found,
            !options.cell_search && !self.has_extra(old(board).traced(self.full_words@)) ==> final(stats).word_nodes
                > 0,
            r == SearchOutcome::Found && !options.cell_search && self.word_paths@.len() > 0
                ==> final(stats).path_attempts > 0,
    {
        proof {
            if self.already_solved(*board) {
                lemma_already_reachable(*self, *board);
            }
            if self.covers(*board) && self.reachable(*board) {
                let sol = choose|b: Board| #[trigger] self.solved(*board, b) && self.in_search_space(*board, b);
                lemma_solution_no_extra(*self, *board, sol, Seq::empty());
            }
        }
        if self.has_extra_complete_word(board) {
            stats.extra_prunes = stats.extra_prunes.saturating_add(1);
            return SearchOutcome::NotFound;
        }
        let mut placed_words = vec![false; self.word_paths.len()];
        let mut failed_states: Vec<String> = Vec::new();
        proof {
            assert(self.memo_sound(board.width, board.height, board.holes@, failed_states@));
            if self.word_paths@.len() > 0 {
                assert(!placed_words@[0]);
            }
        }
        if options.cell_search {
            return self.solve_inner(board, stats, max_nodes, &mut failed_states, &placed_words, options);
        }
        self.solve_by_words_inner(board, &mut placed_words, stats, max_nodes, &mut failed_states, options)
    }

    /// Searches with the default options; true when the board was filled in
    /// so that it spells exactly the target words, and otherwise the board
    /// is left as it was. It finds a solution whenever one lies in the
    /// search's space of letters.
    pub fn solve(&self, board: &mut Board) -> (found: bool)
        requires
            old(board).wf(),
            self.fits(*old(board)),
        ensures
            found ==> self.solved(*old(board), *final(board)),
            !found ==> final(board).same_as(*old(board)),
            self.covers(*old(board)) && self.reachable(*old(board)) ==> found,
            self.already_solved(*old(board)) ==> found,
    {
        let mut stats = SearchStats::default();
        let outcome = self.solve_with_stats(board, &mut stats, None, SolverOptions::default());
        outcome == SearchOutcome::Found
    }
}

} // verus!
