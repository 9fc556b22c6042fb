use reweave::api::{check_puzzle, find, CheckInput, FindInput};
use reweave::board::{board_from_letters, find_words, Board};
use reweave::dictionary::{get_words, lines};
use reweave::frontend;
use reweave::puzzle::Puzzle;
use reweave::words::Trie;

#[test]
fn own_board_is_complete() {
    let board = Board::create(2, 2, vec!['c', 'a', 't', 's']);
    let word_list = Trie::new(vec!["act", "cat", "cats", "dog"]);
    let puzzle = Puzzle::from_board(&board, &word_list);
    let words = puzzle.compare_found_words(find_words(&board, &word_list));
    assert!(words.missing.is_empty());
    assert!(words.extra.is_empty());
    assert_eq!(words.found.len(), 3);
}

#[test]
fn trie_is_word() {
    let trie = Trie::new(vec!["abs", "abacus"]);
    assert!(trie.is_word("abs"));
    assert!(!trie.is_word("ab"));
}

#[test]
fn dictionary_lines_and_words() {
    assert_eq!(lines("ab\r\ncd\n"), vec!["ab".to_string(), "cd".to_string()]);
    let trie = get_words("cat\ncats\n");
    assert!(trie.is_word("cats"));
    assert_eq!(trie.search("ca"), vec!["cats".to_string(), "cat".to_string()]);
}

#[test]
fn board_from_letters_errors() {
    match board_from_letters(2, 2, "abc") {
        Ok(_) => panic!("expected an error"),
        Err(e) => assert_eq!(e, "Width and height do not match length of chars"),
    }
    match board_from_letters(1, 1, "A") {
        Ok(_) => panic!("expected an error"),
        Err(e) => assert_eq!(e, "Invalid character when creating board A"),
    }
}

#[test]
fn api_find_lists_words() {
    let trie = Trie::new(vec!["both"]);
    let out = match find(
        FindInput { width: 2, height: 2, letters: "otbh".to_string() },
        &trie,
    ) {
        Ok(out) => out,
        Err(_) => panic!("expected words"),
    };
    assert_eq!(out.words, vec!["both".to_string()]);
}

#[test]
fn api_check_without_puzzle() {
    let trie = Trie::new(vec!["both"]);
    match check_puzzle(None, CheckInput { letters: "hoot".to_string(), puzzle_id: "x".to_string() }, &trie) {
        Ok(_) => panic!("expected an error"),
        Err(e) => assert_eq!(e.0, "invalid puzzle id"),
    }
}

#[test]
fn puzzle_create_rejects_wrong_size() {
    assert_eq!(
        Puzzle::create(2, 2, vec!['a'], Vec::new()).err(),
        Some("Width and height do not match length of chars")
    );
}

#[test]
fn frontend_check_needs_a_puzzle() {
    let trie = Trie::new(vec!["hot"]);
    assert_eq!(frontend::check(None, "hoot".to_string(), &trie).err().unwrap(), "No puzzle loaded yet");
}

#[test]
fn frontend_check_compares_words() {
    let trie = Trie::new(vec!["hot", "tho", "hoot", "too"]);
    let puzzle = Puzzle {
        width: 2,
        height: 2,
        words: vec!["hot".to_string(), "both".to_string()],
        ..Default::default()
    };
    let words = frontend::check(Some(&puzzle), "hoot".to_string(), &trie).unwrap();
    assert_eq!(words.found, vec!["hot".to_string()]);
    assert_eq!(words.missing, vec!["both".to_string()]);
    let mut extra = words.extra.clone();
    extra.sort();
    assert_eq!(extra, vec!["hoot".to_string(), "tho".to_string(), "too".to_string()]);
}

#[test]
fn frontend_find_reports_bad_letters() {
    let trie = Trie::new(vec!["hot"]);
    assert_eq!(
        frontend::find(1, 1, "?".to_string(), &trie).err().unwrap(),
        "Invalid character when creating board ?"
    );
}
