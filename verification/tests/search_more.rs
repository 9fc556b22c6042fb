use reweave::board::Board as LetterBoard;
use reweave::board::find_words;
use reweave::server::query::{puzzle_uuid, stat_request};
use reweave::server::records::PuzzleStat;
use reweave::solver::cli::run_result;
use reweave::solver::dict::Trie;
use reweave::solver::grid::{Board, Puzzle};
use reweave::solver::paths::{assign_path, path_compatible, precompute_paths, unassign_path};
use reweave::solver::search::{SearchOutcome, SearchStats, Solver, SolverOptions};
use reweave::text::trim;
use reweave::words::Trie as WordTrie;

fn grid(width: usize, height: usize, letters: &str) -> Board {
    Board::from_puzzle(&Puzzle {
        name: "p".to_string(),
        width,
        height,
        letters: letters.to_string(),
        words: Vec::new(),
    })
    .unwrap()
}

fn strings(ws: &[&str]) -> Vec<String> {
    ws.iter().map(|w| w.to_string()).collect()
}

#[test]
fn search_counts_at_most_one_node_past_limit() {
    let mut board = grid(2, 2, "____");
    let solver = Solver::new(&board, strings(&["cat"]), Trie::new(strings(&["cat"]))).unwrap();
    let mut stats = SearchStats::default();
    let outcome = solver.solve_with_stats(&mut board, &mut stats, Some(0), SolverOptions::default());
    assert_eq!(outcome, SearchOutcome::NodeLimit);
    assert_eq!(stats.nodes, 1);
    assert_eq!(board.cells, vec![None, None, None, None]);
}

#[test]
fn search_with_room_finds_solution_within_limit() {
    let mut board = grid(2, 2, "____");
    let solver = Solver::new(&board, strings(&["cat"]), Trie::new(strings(&["cat"]))).unwrap();
    let mut stats = SearchStats::default();
    let outcome = solver.solve_with_stats(&mut board, &mut stats, Some(1000), SolverOptions::default());
    assert_eq!(outcome, SearchOutcome::Found);
    assert!(stats.nodes <= 1000);
    assert!(stats.word_nodes > 0);
    assert!(stats.path_attempts > 0);
}

#[test]
fn search_with_memo_and_cell_search_solves() {
    let mut board = grid(2, 2, "____");
    let solver = Solver::new(&board, strings(&["cat"]), Trie::new(strings(&["cat"]))).unwrap();
    let mut stats = SearchStats::default();
    let options = SolverOptions { disable_memo: false, full_extra_checks: true, cell_search: true };
    assert_eq!(solver.solve_with_stats(&mut board, &mut stats, None, options), SearchOutcome::Found);
    assert!(board.cells.iter().all(|c| c.is_some()));
}

#[test]
fn search_only_tries_path_letters() {
    // "catzz" spells only "cat", but the search gives the last two cells
    // only letters of paths of "cat", which always spell "tac" too.
    let mut board = grid(5, 1, "cat__");
    let solver = Solver::new(&board, strings(&["cat"]), Trie::new(strings(&["cat", "tac"]))).unwrap();
    assert!(!solver.solve(&mut board));
    assert_eq!(board.cells, vec![Some('c'), Some('a'), Some('t'), None, None]);
}

#[test]
fn run_result_maps_outcomes() {
    assert_eq!(run_result(&SearchOutcome::Found, false), Ok(true));
    assert_eq!(run_result(&SearchOutcome::NodeLimit, true), Ok(false));
    assert_eq!(run_result(&SearchOutcome::NodeLimit, false), Err("node limit reached".to_string()));
    assert_eq!(run_result(&SearchOutcome::NotFound, true), Err("no solution found".to_string()));
}

#[test]
fn stat_request_reads_uuid() {
    let id: u128 = 0x550e8400_e29b_41d4_a716_446655440000;
    match stat_request("550e8400-e29b-41d4-a716-446655440000", PuzzleStat::Plays) {
        Ok((got, sql)) => {
            assert_eq!(got, id);
            assert_eq!(sql, "UPDATE puzzle_stats SET plays = plays + 1 WHERE puzzle_id = $1");
        }
        Err(e) => panic!("unexpected error {e}"),
    }
    match stat_request(
        "550e8400-e29b-41d4-a716-446655440000",
        PuzzleStat::Completions { completion_time_seconds: 3, used_hint: false },
    ) {
        Ok((_, sql)) => assert_eq!(sql, "UPDATE puzzle_stats SET completions = completions + 1 WHERE puzzle_id = $1"),
        Err(e) => panic!("unexpected error {e}"),
    }
}

#[test]
fn stat_request_refuses_bad_id() {
    assert!(stat_request("not-a-uuid", PuzzleStat::Plays).is_err());
    assert!(puzzle_uuid("").is_err());
    assert_eq!(puzzle_uuid("00000000-0000-0000-0000-00000000002a"), Ok(42));
}

#[test]
fn trim_drops_unicode_whitespace() {
    assert_eq!(trim("\u{3000}\tabc d\u{a0}\u{2028}"), "abc d");
    assert_eq!(trim("\u{200b}x"), "\u{200b}x");
}

#[test]
fn turned_board_spells_same_words() {
    let trie = WordTrie::new(vec!["both", "broth", "hob", "bot"]);
    let a = LetterBoard::create(3, 2, "bothr_".chars().collect());
    let b = LetterBoard::create(3, 2, "bothr_".chars().rev().collect());
    let mut wa = find_words(&a, &trie);
    let mut wb = find_words(&b, &trie);
    wa.sort();
    wb.sort();
    assert_eq!(wa, wb);
}

#[test]
fn render_without_layout_gives_letters() {
    let board = grid(3, 2, "a!_bcd");
    let shown: String = board.render().chars().filter(|c| *c != ' ' && *c != '\n').collect();
    assert_eq!(shown, "a!_bcd");
}

#[test]
fn assign_path_writes_bytes_anywhere_and_restores() {
    let mut board = grid(2, 2, "x!__");
    let before = board.cells.clone();
    let changed = assign_path(&mut board, "xYz", &[0, 1, 2]).unwrap();
    assert_eq!(changed, vec![1, 2]);
    assert_eq!(board.cells, vec![Some('x'), Some('Y'), Some('z'), None]);
    unassign_path(&mut board, &changed);
    assert_eq!(board.cells, before);
    assert!(assign_path(&mut board, "yy", &[0, 3]).is_none());
    assert_eq!(board.cells, before);
}

#[test]
fn solver_accepts_targets_of_any_letters() {
    let board = grid(2, 2, "____");
    assert!(Solver::new(&board, strings(&["CAT"]), Trie::new(strings(&["cat"]))).is_ok());
    let board = grid(2, 1, "a_");
    match Solver::new(&board, strings(&["Zz"]), Trie::new(strings(&["cat"]))) {
        Ok(_) => panic!("expected no path"),
        Err(e) => assert_eq!(e, "target word has no realizable path: Zz"),
    }
}

#[test]
fn paths_read_words_by_bytes() {
    let mut board = grid(2, 1, "__");
    let mut paths = precompute_paths(&board, "\u{e9}");
    paths.sort();
    assert_eq!(paths, vec![vec![0, 1], vec![1, 0]]);
    assert!(assign_path(&mut board, "\u{e9}", &[0, 1]).is_some());
    assert_eq!(board.cells, vec![Some('\u{c3}'), Some('\u{a9}')]);
    assert!(path_compatible(&board, "\u{e9}", &[0, 1]));
    assert!(!path_compatible(&board, "\u{e9}", &[1, 0]));
}
