//! Figures about a puzzle before the search starts.
use vstd::prelude::*;

use super::grid::Board;
use super::order::{placed_before, stable_order, stable_sort, Key};
use super::plan::total_with;
use super::rank::capped;
use super::search::{Solver, WordPaths};

verus! {

/// How many of the first `n` cells are holes.
pub open spec fn holes_upto(holes: Seq<bool>, n: int) -> nat
    decreases n,
{
    if n <= 0 {
        0
    } else {
        holes_upto(holes, n - 1) + if holes[n - 1] {
            1nat
        } else {
            0nat
        }
    }
}

/// How many of the first `n` cells hold a letter.
pub open spec fn filled_upto(cells: Seq<Option<char>>, n: int) -> nat
    decreases n,
{
    if n <= 0 {
        0
    } else {
        filled_upto(cells, n - 1) + if cells[n - 1] is Some {
            1nat
        } else {
            0nat
        }
    }
}

/// How many paths the entries hold in all.
pub open spec fn paths_total(wps: Seq<WordPaths>) -> nat
    decreases wps.len(),
{
    if wps.len() == 0 {
        0
    } else {
        paths_total(wps.drop_last()) + wps.last().paths@.len()
    }
}

proof fn lemma_counts_fit(b: Board, n: int)
    requires
        b.wf(),
        0 <= n <= b.cells@.len(),
    ensures
        holes_upto(b.holes@, n) + filled_upto(b.cells@, n) <= n,
    decreases n,
{
    if n > 0 {
        lemma_counts_fit(b, n - 1);
        if b.holes@[n - 1] {
            assert(b.cells@[n - 1] is None);
        }
    }
}

/// The figures printed before a search.
pub struct StaticStats {
    pub width: usize,
    pub height: usize,
    pub fillable: usize,
    pub fixed: usize,
    pub blanks: usize,
    pub holes: usize,
    pub targets: usize,
    /// Each target word with its number of paths, fewest first.
    pub path_counts: Vec<(String, usize)>,
    pub total_paths: usize,
    pub min_paths: usize,
    pub max_paths: usize,
    /// The first cell the cell search would fill, as (row, column), with
    /// its letters, rarest first.
    pub first_cell: Option<(usize, usize, Vec<char>)>,
}

impl Solver {
    /// Each target word with its number of paths, in entry order.
    pub open spec fn count_items(self) -> Seq<(String, usize)> {
        Seq::new(self.word_paths@.len(), |e: int| (self.word_paths@[e].word, self.word_paths@[e].paths@.len() as usize))
    }

    /// The number of paths of each entry, as sort keys.
    pub open spec fn count_keys(self) -> Seq<Key> {
        Seq::new(self.word_paths@.len(), |e: int| (self.word_paths@[e].paths@.len() as usize, 0usize, 0usize))
    }

    /// `out` lists the words with their path counts, fewest paths first,
    /// words with equal counts in entry order.
    pub open spec fn counts_sorted(self, out: Seq<(String, usize)>) -> bool {
        exists|perm: Seq<int>| #[trigger] stable_order(self.count_items(), self.count_keys(), out, perm)
    }

    /// `i` is the cell the cell search fills first on `board`.
    pub open spec fn chosen_cell(self, board: Board, i: int) -> bool {
        &&& board.open_at(i)
        &&& board.cells@[i] is None
        &&& forall|j: int| 0 <= j < i && board.open_at(j) && board.cells@[j] is None ==> #[trigger] self.cell_better(board, i, j)
        &&& forall|j: int|
            i < j < board.cells@.len() && board.open_at(j) && board.cells@[j] is None ==> !#[trigger] self.cell_better(board, j, i)
    }

    /// The figures about `board` and the target words printed before a
    /// search.
    pub fn static_stats(&self, board: &Board) -> (st: StaticStats)
        requires
            board.wf(),
            self.fits(*board),
        ensures
            st.width == board.width,
            st.height == board.height,
            st.holes == holes_upto(board.holes@, board.cells@.len() as int),
            st.fixed == filled_upto(board.cells@, board.cells@.len() as int),
            st.fillable == board.cells@.len() - st.holes,
            st.blanks == board.cells@.len() - st.holes - st.fixed,
            st.targets == self.word_paths@.len(),
            self.counts_sorted(st.path_counts@),
            st.total_paths == capped(paths_total(self.word_paths@)),
            st.min_paths == if st.path_counts@.len() == 0 {
                0
            } else {
                st.path_counts@[0].1
            },
            st.max_paths == if st.path_counts@.len() == 0 {
                0
            } else {
                st.path_counts@.last().1
            },
            st.first_cell is None <==> board.complete(),
            st.first_cell matches Some((r, c, cs)) ==> {
                &&& r < board.height && c < board.width
                &&& self.chosen_cell(*board, r * board.width + c)
                &&& forall|x: char| #[trigger] cs@.contains(x) <==> self.cell_options(*board, r * board.width + c).contains(x)
                &&& cs@.no_duplicates()
                &&& forall|a: int, b: int|
                    0 <= a < b < cs@.len() ==> self.rare_rank@[crate::words::letter_index(#[trigger] cs@[a])]
                        <= self.rare_rank@[crate::words::letter_index(#[trigger] cs@[b])]
            },
    {
        let n = board.cells.len();
        let mut holes: usize = 0;
        let mut fixed: usize = 0;
        let mut i: usize = 0;
        while i < n
            invariant
                n == board.cells@.len(),
                board.wf(),
                i <= n,
                holes == holes_upto(board.holes@, i as int),
                fixed == filled_upto(board.cells@, i as int),
            decreases n - i,
        {
            proof {
                lemma_counts_fit(*board, i + 1);
            }
            if board.holes[i] {
                holes = holes + 1;
            }
            if board.cells[i].is_some() {
                fixed = fixed + 1;
            }
            i = i + 1;
        }
        proof {
            lemma_counts_fit(*board, n as int);
        }
        let ghost wps = self.word_paths@;
        let mut items: Vec<(String, usize)> = Vec::new();
        let mut keys: Vec<Key> = Vec::new();
        let mut total: usize = 0;
        let mut e: usize = 0;
        proof {
            assert(wps.take(0) =~= Seq::<WordPaths>::empty());
        }
        while e < self.word_paths.len()
            invariant
                wps == self.word_paths@,
                e <= wps.len(),
                items@.len() == e,
                keys@.len() == e,
                forall|k: int| 0 <= k < e ==> #[trigger] items@[k] == (wps[k].word, wps[k].paths@.len() as usize),
                forall|k: int| 0 <= k < e ==> #[trigger] keys@[k] == (wps[k].paths@.len() as usize, 0usize, 0usize),
                total == capped(paths_total(wps.take(e as int))),
            decreases wps.len() - e,
        {
            let wp = &self.word_paths[e];
            let count = wp.paths.len();
            items.push((wp.word.clone(), count));
            keys.push((count, 0, 0));
            proof {
                assert(wps.take(e + 1).drop_last() =~= wps.take(e as int));
            }
            total = total.saturating_add(count);
            e = e + 1;
        }
        proof {
            assert(wps.take(wps.len() as int) =~= wps);
            assert(items@ =~= self.count_items());
            assert(keys@ =~= self.count_keys());
        }
        let (path_counts, Ghost(perm)) = stable_sort(items, &keys);
        proof {
            assert(stable_order(self.count_items(), self.count_keys(), path_counts@, perm));
        }
        let min_paths = if path_counts.len() == 0 {
            0
        } else {
            path_counts[0].1
        };
        let max_paths = if path_counts.len() == 0 {
            0
        } else {
            path_counts[path_counts.len() - 1].1
        };
        let first_cell = match self.next_cell_and_candidates(board) {
            None => None,
            Some((idx, candidates)) => {
                let mut ckeys: Vec<Key> = Vec::new();
                let mut k: usize = 0;
                while k < candidates.len()
                    invariant
                        k <= candidates@.len(),
                        ckeys@.len() == k,
                        forall|j: int| 0 <= j < candidates@.len() ==> crate::words::is_lower(#[trigger] candidates@[j]),
                        forall|j: int|
                            0 <= j < k ==> #[trigger] ckeys@[j] == (
                                self.rare_rank@[crate::words::letter_index(candidates@[j])],
                                0usize,
                                0usize,
                            ),
                        self.rare_rank@.len() == 26,
                    decreases candidates@.len() - k,
                {
                    ckeys.push((self.rare_rank[crate::words::idx(candidates[k])], 0, 0));
                    k = k + 1;
                }
                let ghost c0 = candidates@;
                let (sorted, Ghost(cperm)) = stable_sort(candidates, &ckeys);
                proof {
                    lemma_index_cell_of(*board, idx as int);
                    assert forall|x: char| #[trigger] sorted@.contains(x) <==> c0.contains(x) by {
                        if sorted@.contains(x) {
                            let j = choose|j: int| 0 <= j < sorted@.len() && sorted@[j] == x;
                            assert(c0[cperm[j]] == x);
                        }
                        if c0.contains(x) {
                            let j = choose|j: int| 0 <= j < c0.len() && c0[j] == x;
                            let p = super::plan::lemma_perm_hit_pub(cperm, c0.len() as int, j);
                            assert(sorted@[p] == x);
                        }
                    }
                    assert forall|a: int, b: int| 0 <= a < sorted@.len() && 0 <= b < sorted@.len() && a != b implies sorted@[a] != sorted@[b] by {
                        if a < b {
                            assert(placed_before(ckeys@, cperm[a], cperm[b]));
                        } else {
                            assert(placed_before(ckeys@, cperm[b], cperm[a]));
                        }
                        assert(c0[cperm[a]] == sorted@[a] && c0[cperm[b]] == sorted@[b]);
                    }
                    assert forall|a: int, b: int| 0 <= a < b < sorted@.len() implies self.rare_rank@[crate::words::letter_index(#[trigger] sorted@[a])]
                        <= self.rare_rank@[crate::words::letter_index(#[trigger] sorted@[b])] by {
                        assert(placed_before(ckeys@, cperm[a], cperm[b]));
                        assert(c0[cperm[a]] == sorted@[a] && c0[cperm[b]] == sorted@[b]);
                    }
                }
                let cell = board.cell(idx);
                Some((cell.0, cell.1, sorted))
            },
        };
        StaticStats {
            width: board.width,
            height: board.height,
            fillable: n - holes,
            fixed,
            blanks: n - holes - fixed,
            holes,
            targets: self.word_paths.len(),
            path_counts,
            total_paths: total,
            min_paths,
            max_paths,
            first_cell,
        }
    }
}

/// An open position reads back as its row and column.
proof fn lemma_index_cell_of(b: Board, i: int)
    requires
        b.wf(),
        0 <= i < b.cells@.len(),
    ensures
        b.width > 0,
        0 <= b.row(i) < b.height,
        0 <= b.col(i) < b.width,
        b.row(i) * b.width + b.col(i) == i,
{
    let w = b.width as int;
    let h = b.height as int;
    assert(w > 0) by (nonlinear_arith)
        requires
            0 <= i < w * h,
            0 <= h,
    ;
    super::grid::lemma_index_cell(i, w, h);
}

} // verus!
