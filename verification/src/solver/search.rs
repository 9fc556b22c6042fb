//! The solver's state and the outcome of a search.
use vstd::prelude::*;

use super::dict::Trie;
use crate::puzzle::word_set;

verus! {

/// A target word with every path of the board it could be read along.
#[derive(Clone)]
pub struct WordPaths {
    pub word: String,
    pub paths: Vec<Vec<usize>>,
}

/// What the solver knows about a puzzle.
pub struct Solver {
    pub target_words: Vec<String>,
    pub full_words: Trie,
    pub word_paths: Vec<WordPaths>,
    pub rare_rank: [usize; 26],
}

#[derive(Debug, PartialEq, Eq, Structural)]
pub enum SearchOutcome {
    Found,
    NotFound,
    NodeLimit,
}

/// Counters of a search.
pub struct SearchStats {
    pub nodes: u64,
    pub word_nodes: u64,
    pub cell_nodes: u64,
    pub path_attempts: u64,
    pub memo_hits: u64,
    pub target_prunes: u64,
    pub extra_prunes: u64,
    pub dead_ends: u64,
    pub complete_boards: u64,
}

impl Default for SearchStats {
    fn default() -> (s: Self)
        ensures
            s.nodes == 0,
            s.word_nodes == 0,
            s.cell_nodes == 0,
            s.path_attempts == 0,
            s.memo_hits == 0,
            s.target_prunes == 0,
            s.extra_prunes == 0,
            s.dead_ends == 0,
            s.complete_boards == 0,
    {
        SearchStats {
            nodes: 0,
            word_nodes: 0,
            cell_nodes: 0,
            path_attempts: 0,
            memo_hits: 0,
            target_prunes: 0,
            extra_prunes: 0,
            dead_ends: 0,
            complete_boards: 0,
        }
    }
}

impl SearchStats {
    /// No counter is below its value in `before`.
    pub open spec fn grew(self, before: SearchStats) -> bool {
        &&& self.nodes >= before.nodes
        &&& self.word_nodes >= before.word_nodes
        &&& self.cell_nodes >= before.cell_nodes
        &&& self.path_attempts >= before.path_attempts
        &&& self.memo_hits >= before.memo_hits
        &&& self.target_prunes >= before.target_prunes
        &&& self.extra_prunes >= before.extra_prunes
        &&& self.dead_ends >= before.dead_ends
        &&& self.complete_boards >= before.complete_boards
    }
}

#[derive(Clone, Copy)]
pub struct SolverOptions {
    pub disable_memo: bool,
    pub full_extra_checks: bool,
    pub cell_search: bool,
}

impl Default for SolverOptions {
    fn default() -> (o: Self)
        ensures
            o.disable_memo,
            !o.full_extra_checks,
            !o.cell_search,
    {
        Self { disable_memo: true, full_extra_checks: false, cell_search: false }
    }
}

impl Solver {
    /// The words the board must spell.
    pub open spec fn targets(self) -> Set<Seq<char>> {
        word_set(self.target_words@)
    }

    /// `s` holds a word that is not a target.
    pub open spec fn has_extra(self, s: Set<Seq<char>>) -> bool {
        exists|w: Seq<char>| s.contains(w) && !self.targets().contains(w)
    }
}

} // verus!
