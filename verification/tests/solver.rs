use std::collections::HashSet;

use reweave::solver::dict::Trie;
use reweave::solver::grid::{Board, Puzzle};
use reweave::solver::paths::{assign_path, path_compatible, precompute_paths, unassign_path};
use reweave::solver::search::{SearchOutcome, SearchStats, Solver, SolverOptions};

fn puzzle(width: usize, height: usize, letters: &str, words: &[&str]) -> Puzzle {
    Puzzle {
        name: "test".to_string(),
        width,
        height,
        letters: letters.to_string(),
        words: words.iter().map(|w| w.to_string()).collect(),
    }
}

fn solver(board: &Board, targets: &[&str], dict: &[&str]) -> Solver {
    Solver::new(
        board,
        targets.iter().map(|w| w.to_string()).collect(),
        Trie::new(dict.iter().map(|w| w.to_string()).collect::<Vec<_>>()),
    )
    .unwrap()
}

#[test]
fn precomputes_compatible_paths() {
    let board = Board::from_puzzle(&puzzle(2, 2, "a___", &["abc"])).unwrap();
    let paths = precompute_paths(&board, "abc");

    assert!(!paths.is_empty());
    assert!(paths.iter().all(|path| path_compatible(&board, "abc", path)));
    assert!(paths.iter().any(|path| path[0] == 0));
}

#[test]
fn rejects_target_without_path() {
    let board = Board::from_puzzle(&puzzle(2, 2, "a!!!", &["ab"])).unwrap();
    let err = match Solver::new(
        &board,
        vec!["ab".to_string()],
        Trie::new(vec!["ab".to_string()]),
    ) {
        Ok(_) => panic!("expected impossible target to fail"),
        Err(err) => err,
    };

    assert!(err.contains("no realizable path"));
}

#[test]
fn detects_extra_dictionary_word() {
    let mut board = Board::from_puzzle(&puzzle(2, 2, "cat_", &["cat"])).unwrap();
    board.set(3, 's');
    let solver = solver(&board, &["cat"], &["cat", "cats"]);

    assert!(solver.has_extra_complete_word(&board));
}

#[test]
fn path_assignment_rejects_conflicts_and_restores() {
    let mut board = Board::from_puzzle(&puzzle(2, 2, "a___", &["abc"])).unwrap();
    let changed = assign_path(&mut board, "abc", &[0, 1, 2]).unwrap();

    assert_eq!(changed, vec![1, 2]);
    assert_eq!(board.cells[1], Some('b'));
    assert_eq!(board.cells[2], Some('c'));

    assert!(assign_path(&mut board, "adc", &[0, 1, 2]).is_none());
    assert_eq!(board.cells[1], Some('b'));
    assert_eq!(board.cells[2], Some('c'));

    unassign_path(&mut board, &changed);
    assert_eq!(board.cells[0], Some('a'));
    assert_eq!(board.cells[1], None);
    assert_eq!(board.cells[2], None);
}

#[test]
fn solves_small_puzzle() {
    let mut board = Board::from_puzzle(&puzzle(2, 2, "____", &["cat"])).unwrap();
    let solver = solver(&board, &["cat"], &["cat"]);

    assert!(solver.solve(&mut board));
    assert_eq!(
        solver.found_words(&board).into_iter().collect::<HashSet<String>>(),
        HashSet::from(["cat".to_string()])
    );
}

#[test]
fn word_path_search_records_word_nodes() {
    let mut board = Board::from_puzzle(&puzzle(2, 2, "____", &["cat"])).unwrap();
    let solver = solver(&board, &["cat"], &["cat"]);
    let mut stats = SearchStats::default();

    assert_eq!(
        solver.solve_with_stats(&mut board, &mut stats, None, SolverOptions::default()),
        SearchOutcome::Found
    );
    assert!(stats.word_nodes > 0);
    assert!(stats.path_attempts > 0);
}
