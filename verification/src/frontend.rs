//! What the browser asks of the library: the words of a board, and how a
//! player's board compares with the loaded puzzle.
use vstd::prelude::*;

use crate::api::{described_board, describes_board_error, spelled, valid_description};
use crate::board::{all_distinct, board_from_letters, find_words, Board};
use crate::puzzle::{word_set, Puzzle, Words};
use crate::words::{views, Trie};

verus! {

/// `ws` holds exactly the words of `word_list` that the board `letters`
/// describes spells.
pub open spec fn lists_board_words(
    ws: Seq<Seq<char>>,
    width: usize,
    height: usize,
    letters: Seq<char>,
    word_list: Set<Seq<char>>,
) -> bool {
    exists|board: Board|
        #[trigger] described_board(board, width, height, letters) && forall|x: Seq<char>|
            #[trigger] ws.contains(x) <==> word_list.contains(x) && board.spells(x)
}

/// Builds the board `letters` describes and lists the dictionary words in it.
pub fn find(width: u32, height: u32, letters: String, word_list: &Trie) -> (r: Result<Vec<String>, String>)
    ensures
        r is Ok <==> valid_description(width as usize, height as usize, letters@),
        r matches Err(e) ==> describes_board_error(width as usize, height as usize, letters@, e@),
        r matches Ok(words) ==> all_distinct(views(words@)) && lists_board_words(
            views(words@),
            width as usize,
            height as usize,
            letters@,
            word_list@,
        ),
{
    let board = match board_from_letters(width as usize, height as usize, letters.as_str()) {
        Ok(board) => board,
        Err(e) => {
            return Err(e);
        },
    };
    let words = find_words(&board, word_list);
    proof {
        assert(described_board(board, width as usize, height as usize, letters@));
    }
    Ok(words)
}

/// The message when no puzzle has been loaded.
pub open spec fn no_puzzle_message() -> Seq<char> {
    "No puzzle loaded yet"@
}

/// Compares the words the board `letters` spells with the loaded puzzle's.
pub fn check(puzzle: Option<&Puzzle>, letters: String, word_list: &Trie) -> (r: Result<Words, String>)
    requires
        puzzle matches Some(p) ==> all_distinct(views(p.words@)),
    ensures
        puzzle is None ==> (r matches Err(e) && e@ == no_puzzle_message()),
        puzzle matches Some(p) ==> {
            &&& r is Ok <==> valid_description(p.width, p.height, letters@)
            &&& r matches Err(e) ==> describes_board_error(p.width, p.height, letters@, e@)
            &&& r matches Ok(w) ==> exists|board: Board|
                {
                    &&& described_board(board, p.width, p.height, letters@)
                    &&& word_set(w.found@) == spelled(board, word_list).intersect(word_set(p.words@))
                    &&& word_set(w.missing@) == word_set(p.words@).difference(spelled(board, word_list))
                    &&& word_set(w.extra@) == spelled(board, word_list).difference(word_set(p.words@))
                }
        },
{
    let puzzle = match puzzle {
        Some(p) => p,
        None => return Err(String::from_str("No puzzle loaded yet")),
    };
    let board = match board_from_letters(puzzle.width, puzzle.height, letters.as_str()) {
        Ok(board) => board,
        Err(e) => return Err(e),
    };
    let found_words = find_words(&board, word_list);
    let ghost found = found_words@;
    let words = puzzle.compare_found_words(found_words);
    proof {
        assert(word_set(found) =~= spelled(board, word_list));
        assert(described_board(board, puzzle.width, puzzle.height, letters@));
    }
    Ok(words)
}

} // verus!
