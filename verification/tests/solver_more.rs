use reweave::solver::cli::{parse_args, parse_u64, parse_words, usage};
use reweave::solver::dict::Trie;
use reweave::solver::grid::{Board, Puzzle};
use reweave::solver::paths::{assign_path, precompute_paths, unassign_path};
use reweave::solver::rank::{rare_rank, state_key, word_rarity_key};
use reweave::solver::search::{SearchOutcome, SearchStats, Solver, SolverOptions};

fn puzzle(width: usize, height: usize, letters: &str) -> Puzzle {
    Puzzle {
        name: "p".to_string(),
        width,
        height,
        letters: letters.to_string(),
        words: Vec::new(),
    }
}

fn words(ws: &[&str]) -> Vec<String> {
    ws.iter().map(|w| w.to_string()).collect()
}

#[test]
fn board_rejects_wrong_size() {
    match Board::from_puzzle(&puzzle(2, 2, "abc")) {
        Ok(_) => panic!("expected an error"),
        Err(e) => assert_eq!(e, "width and height do not match letters length"),
    }
}

#[test]
fn board_rejects_bad_character() {
    match Board::from_puzzle(&puzzle(2, 1, "aB")) {
        Ok(_) => panic!("expected an error"),
        Err(e) => assert_eq!(e, "invalid board character: B"),
    }
}

#[test]
fn board_renders_rows_and_holes() {
    let board = Board::from_puzzle(&puzzle(2, 2, "ab_!")).unwrap();
    assert_eq!(board.render(), "a b\n_ !");
}

#[test]
fn precompute_lists_each_path_once() {
    let board = Board::from_puzzle(&puzzle(2, 1, "__")).unwrap();
    let mut paths = precompute_paths(&board, "ab");
    paths.sort();
    assert_eq!(paths, vec![vec![0, 1], vec![1, 0]]);
}

#[test]
fn assign_then_unassign_restores_board() {
    let mut board = Board::from_puzzle(&puzzle(2, 2, "____")).unwrap();
    let changed = assign_path(&mut board, "cat", &[0, 1, 3]).unwrap();
    assert_eq!(changed, vec![0, 1, 3]);
    assert_eq!(board.cells, vec![Some('c'), Some('a'), None, Some('t')]);
    unassign_path(&mut board, &changed);
    assert_eq!(board.cells, vec![None, None, None, None]);
}

#[test]
fn solver_new_names_the_word_without_path() {
    let board = Board::from_puzzle(&puzzle(2, 2, "a!!!")).unwrap();
    match Solver::new(&board, words(&["ab"]), Trie::new(words(&["ab"]))) {
        Ok(_) => panic!("expected an error"),
        Err(e) => assert_eq!(e, "target word has no realizable path: ab"),
    }
}

#[test]
fn solved_board_spells_exactly_the_targets() {
    let mut board = Board::from_puzzle(&puzzle(3, 1, "c__")).unwrap();
    let solver = Solver::new(&board, words(&["cat"]), Trie::new(words(&["cat", "act"]))).unwrap();
    assert!(solver.solve(&mut board));
    assert_eq!(board.cells, vec![Some('c'), Some('a'), Some('t')]);
    assert_eq!(solver.found_words(&board), vec!["cat".to_string()]);
}

#[test]
fn unsolvable_board_is_left_as_it_was() {
    let mut board = Board::from_puzzle(&puzzle(2, 1, "__")).unwrap();
    let solver = Solver::new(&board, words(&["ab"]), Trie::new(words(&["ab", "ba"]))).unwrap();
    assert!(!solver.solve(&mut board));
    assert_eq!(board.cells, vec![None, None]);
}

#[test]
fn node_limit_stops_the_search() {
    let mut board = Board::from_puzzle(&puzzle(2, 2, "____")).unwrap();
    let solver = Solver::new(&board, words(&["cat"]), Trie::new(words(&["cat"]))).unwrap();
    let mut stats = SearchStats::default();
    let outcome = solver.solve_with_stats(&mut board, &mut stats, Some(0), SolverOptions::default());
    assert_eq!(outcome, SearchOutcome::NodeLimit);
    assert_eq!(stats.nodes, 1);
    assert_eq!(board.cells, vec![None, None, None, None]);
}

#[test]
fn cell_search_solves_too() {
    let mut board = Board::from_puzzle(&puzzle(2, 1, "a_")).unwrap();
    let solver = Solver::new(&board, words(&["ab"]), Trie::new(words(&["ab"]))).unwrap();
    let mut stats = SearchStats::default();
    let options = SolverOptions { disable_memo: false, full_extra_checks: true, cell_search: true };
    let outcome = solver.solve_with_stats(&mut board, &mut stats, None, options);
    assert_eq!(outcome, SearchOutcome::Found);
    assert_eq!(board.cells, vec![Some('a'), Some('b')]);
    assert!(stats.cell_nodes > 0);
}

#[test]
fn ranks_put_rare_letters_first() {
    let rank = rare_rank(&words(&["ab"]));
    assert_eq!(rank[2], 0);
    assert_eq!(rank[25], 23);
    assert_eq!(rank[0], 24);
    assert_eq!(rank[1], 25);
    assert_eq!(word_rarity_key("ab", &words(&["ab"])), 24);
    assert_eq!(word_rarity_key("", &words(&["ab"])), usize::MAX);
}

#[test]
fn state_key_shows_cells_then_placed_words() {
    let board = Board::from_puzzle(&puzzle(3, 1, "a_!")).unwrap();
    assert_eq!(state_key(&board, &[true, false]), "a_!|10");
}

#[test]
fn static_stats_count_cells_and_paths() {
    let board = Board::from_puzzle(&puzzle(2, 2, "a_!_")).unwrap();
    let solver = Solver::new(&board, words(&["ab"]), Trie::new(words(&["ab"]))).unwrap();
    let st = solver.static_stats(&board);
    assert_eq!(st.holes, 1);
    assert_eq!(st.fixed, 1);
    assert_eq!(st.blanks, 2);
    assert_eq!(st.fillable, 3);
    assert_eq!(st.targets, 1);
    assert_eq!(st.path_counts, vec![("ab".to_string(), 4)]);
    assert_eq!(st.total_paths, 4);
    assert_eq!(st.min_paths, 4);
    assert_eq!(st.max_paths, 4);
    let (row, col, cands) = st.first_cell.unwrap();
    assert_eq!((row, col), (0, 1));
    assert_eq!(cands, vec!['a', 'b']);
}

#[test]
fn parse_args_defaults() {
    let args = parse_args(words(&["puzzle.json"])).unwrap();
    assert_eq!(args.puzzle, "puzzle.json");
    assert_eq!(args.dict, "wordlist/wordlist.txt");
    assert!(!args.stats);
    assert_eq!(args.max_nodes, None);
    assert!(args.options.disable_memo);
}

#[test]
fn parse_args_reads_options() {
    let args = parse_args(words(&[
        "--stats",
        "--max-nodes",
        "+42",
        "--enable-memo",
        "--cell-search",
        "--full-extra-checks",
        "--dict",
        "d.txt",
        "-",
    ]))
    .unwrap();
    assert!(args.stats);
    assert_eq!(args.max_nodes, Some(42));
    assert!(!args.options.disable_memo);
    assert!(args.options.cell_search);
    assert!(args.options.full_extra_checks);
    assert_eq!(args.dict, "d.txt");
    assert_eq!(args.puzzle, "-");
}

#[test]
fn parse_args_errors() {
    assert_eq!(parse_args(words(&["--dict"])).err().unwrap(), "--dict requires a path");
    assert_eq!(parse_args(words(&["--max-nodes", "x"])).err().unwrap(), "--max-nodes requires a number");
    assert_eq!(parse_args(words(&["a", "b"])).err().unwrap(), usage());
    assert_eq!(parse_args(Vec::new()).err().unwrap(), usage());
}

#[test]
fn parse_u64_cases() {
    assert_eq!(parse_u64("0"), Some(0));
    assert_eq!(parse_u64("+7"), Some(7));
    assert_eq!(parse_u64("18446744073709551615"), Some(u64::MAX));
    assert_eq!(parse_u64("18446744073709551616"), None);
    assert_eq!(parse_u64("+"), None);
    assert_eq!(parse_u64("-1"), None);
    assert_eq!(parse_u64(""), None);
}

#[test]
fn parse_words_trims_lowercases_and_skips_blank_lines() {
    assert_eq!(parse_words("  Cat \n\nDOG\r\n"), vec!["cat".to_string(), "dog".to_string()]);
}

#[test]
fn answer_board_is_confirmed() {
    let mut board = Board::from_puzzle(&puzzle(3, 1, "cat")).unwrap();
    let solver = Solver::new(&board, words(&["cat"]), Trie::new(words(&["cat"]))).unwrap();
    assert!(solver.solve(&mut board));
    assert_eq!(board.render(), "c a t");
}

#[test]
fn wrong_answer_board_is_refused() {
    let mut board = Board::from_puzzle(&puzzle(3, 1, "cat")).unwrap();
    let solver = Solver::new(&board, words(&["cat"]), Trie::new(words(&["cat", "tac"]))).unwrap();
    assert!(!solver.solve(&mut board));
    assert_eq!(board.render(), "c a t");
}
