use reweave::board::{find_words, Board};
use reweave::puzzle::{Puzzle, Words};
use reweave::words::Trie;

#[test]
fn find1() {
    let full_word_list = Trie::new(vec!["abc", "dab", "cab", "daba", "abe"]);
    let board = Board::create(2, 2, vec!['a', 'b', 'c', 'd']);

    let mut found_words = find_words(&board, &full_word_list);
    found_words.sort();

    assert_eq!(found_words, vec!["abc", "cab", "dab"]);
}

#[test]
fn find2() {
    let full_word_list = Trie::new(vec!["both", "broth", "foul", "trouble", "blur"]);
    let board = Board::create(3, 3, vec!['t', 'r', 'b', 'h', 'o', 'u', 'f', 'l', 'y']);

    let mut found_words = find_words(&board, &full_word_list);
    found_words.sort();

    assert_eq!(found_words, vec!["both", "broth", "foul"]);
}

#[test]
fn find3() {
    let full_word_list = Trie::new(vec!["both", "broth", "foul", "trouble", "blur"]);
    let board = Board::create(3, 3, vec!['t', 'r', 'b', 'h', 'o', 'u', 'f', 'l', '_']);

    let mut found_words = find_words(&board, &full_word_list);
    found_words.sort();

    assert_eq!(found_words, vec!["both", "broth", "foul"]);
}

#[test]
fn find4() {
    let full_word_list = Trie::new(vec!["both"]);
    let board = Board::create(2, 2, vec!['o', 't', 'b', 'h']);

    let mut found_words = find_words(&board, &full_word_list);
    found_words.sort();

    assert_eq!(found_words, vec!["both"]);
}

#[test]
fn find5() {
    let full_word_list = Trie::new(vec!["throb"]);
    let board = Board::create(3, 3, vec!['t', 'h', 'r', '_', '_', 'o', '_', '_', 'b']);

    let mut found_words = find_words(&board, &full_word_list);
    found_words.sort();

    assert_eq!(found_words, vec!["throb"]);
}

#[test]
fn cmp_words() {
    let puzzle = Puzzle {
        words: vec!["abc".to_string(), "def".to_string()],
        ..Default::default()
    };

    assert_eq!(
        puzzle.compare_found_words(vec!["abc".to_string(), "ghi".to_string()]),
        Words {
            found: vec!["abc".to_string()],
            missing: vec!["def".to_string()],
            extra: vec!["ghi".to_string()],
        }
    );
}

#[test]
fn cmp_puzzle_from() {
    let board = Board::create(2, 2, vec!['c', 'a', 't', 's']);
    let word_list = Trie::new(vec!["act", "cat", "cats"]);
    let puzzle = Puzzle::from_board(&board, &word_list);

    let mut words = puzzle.compare_found_words(vec![
        "act".to_string(),
        "cat".to_string(),
        "cart".to_string(),
    ]);
    words.found.sort();

    assert_eq!(
        words,
        Words {
            found: vec!["act".to_string(), "cat".to_string()],
            missing: vec!["cats".to_string()],
            extra: vec!["cart".to_string()],
        }
    );
}

#[test]
fn basic() {
    let words = vec!["abs", "abacus", "teeth", "tusk"];

    let trie = Trie::new(words);
    assert_eq!(trie.search("a"), vec!["abacus", "abs"]);
    assert_eq!(trie.search("ab"), vec!["abacus", "abs"]);
    assert_eq!(trie.search("aba"), vec!["abacus"]);
    assert_eq!(trie.search("t"), vec!["teeth", "tusk"]);
    assert_eq!(trie.search("tu"), vec!["tusk"]);
}

#[test]
fn no_search_matches() {
    let words = vec!["abs", "abacus", "teeth", "tusk"];

    let trie = Trie::new(words);
    assert_eq!(trie.search("x"), Vec::<String>::new());
    assert_eq!(trie.search("abas"), Vec::<String>::new());
}

#[test]
fn is_valid_prefix() {
    let words = vec!["test", "teach", "toaster"];

    let trie = Trie::new(words);
    assert!(trie.is_prefix("te"));
}

#[test]
fn is_not_valid_prefix() {
    let words = vec!["test", "teach", "toaster"];

    let trie = Trie::new(words);
    assert!(!trie.is_prefix("ta"));
}
