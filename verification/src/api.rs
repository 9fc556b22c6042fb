//! Request and response shapes of the backend, and what each request computes.
use vstd::prelude::*;

use crate::board::{
    board_from_letters, find_words, invalid_char_message, length_mismatch_message, valid_board_char,
    Board,
};
use crate::puzzle::{word_set, Puzzle, Words};
use crate::words::{is_lower, views};
use crate::board::{all_distinct, BoardCell};

verus! {

pub struct ErrorResponse(pub String);

pub struct FindInput {
    pub width: usize,
    pub height: usize,
    pub letters: String,
}

pub struct FindOutput {
    pub words: Vec<String>,
}

pub struct CheckInput {
    pub letters: String,
    pub puzzle_id: String,
}

pub struct CheckOutput {
    pub words: Words,
}

pub struct CreateInput {
    pub puzzle_id: String,
    pub width: usize,
    pub height: usize,
    pub letters: String,
    pub words: Vec<String>,
}

pub struct LoadInput {
    pub puzzle_id: String,
}

/// The description `letters` of a `width` by `height` board is well formed.
pub open spec fn valid_description(width: usize, height: usize, letters: Seq<char>) -> bool {
    width * height == letters.len() && forall|i: int|
        0 <= i < letters.len() ==> valid_board_char(#[trigger] letters[i])
}

/// `e` says why the description `letters` of a `width` by `height` board is
/// not well formed.
pub open spec fn describes_board_error(
    width: usize,
    height: usize,
    letters: Seq<char>,
    e: Seq<char>,
) -> bool {
    ||| width * height != letters.len() && e == length_mismatch_message()
    ||| width * height == letters.len() && exists|i: int|
        0 <= i < letters.len() && !valid_board_char(letters[i]) && (forall|j: int|
            0 <= j < i ==> valid_board_char(#[trigger] letters[j])) && e == invalid_char_message(
            letters[i],
        )
}

/// The board described by `letters`, `width` wide and `height` high.
pub open spec fn described_board(board: Board, width: usize, height: usize, letters: Seq<char>) -> bool {
    &&& board.width == width
    &&& board.height == height
    &&& board.wf()
    &&& forall|r: int, c: int|
        0 <= r < height && 0 <= c < width ==> #[trigger] board.cells@[r]@[c]
            == crate::board::decode_cell(letters[r * width + c])
}

/// Given the parameters of a board, find all the words in it
pub fn find(inp: FindInput, word_list: &crate::words::Trie) -> (r: Result<FindOutput, ErrorResponse>)
    ensures
        r is Ok <==> valid_description(inp.width, inp.height, inp.letters@),
        r matches Err(e) ==> describes_board_error(inp.width, inp.height, inp.letters@, e.0@),
        r matches Ok(out) ==> all_distinct(views(out.words@)) && exists|board: Board|
            described_board(board, inp.width, inp.height, inp.letters@) && forall|x: Seq<char>|
                #[trigger] views(out.words@).contains(x) <==> word_list@.contains(x)
                    && board.spells(x),
{
    let board = match board_from_letters(inp.width, inp.height, inp.letters.as_str()) {
        Ok(board) => board,
        Err(error) => {
            return Err(ErrorResponse(error));
        },
    };
    let words = find_words(&board, word_list);
    proof {
        assert(described_board(board, inp.width, inp.height, inp.letters@));
    }
    Ok(FindOutput { words })
}

/// Checks the letters a player placed against a puzzle, when the puzzle was found.
pub fn check_puzzle(
    puzzle: Option<&Puzzle>,
    inp: CheckInput,
    word_list: &crate::words::Trie,
) -> (r: Result<CheckOutput, ErrorResponse>)
    requires
        puzzle matches Some(p) ==> all_distinct(views(p.words@)),
    ensures
        puzzle is None ==> (r matches Err(e) && e.0@ == "invalid puzzle id"@),
        puzzle matches Some(p) ==> {
            &&& r is Ok <==> valid_description(p.width, p.height, inp.letters@)
            &&& r matches Err(e) ==> describes_board_error(p.width, p.height, inp.letters@, e.0@)
            &&& r matches Ok(out) ==> exists|board: Board|
                {
                    &&& described_board(board, p.width, p.height, inp.letters@)
                    &&& word_set(out.words.found@) == spelled(board, word_list).intersect(
                        word_set(p.words@),
                    )
                    &&& word_set(out.words.missing@) == word_set(p.words@).difference(
                        spelled(board, word_list),
                    )
                    &&& word_set(out.words.extra@) == spelled(board, word_list).difference(
                        word_set(p.words@),
                    )
                }
        },
{
    let puzzle = match puzzle {
        Some(puzzle) => puzzle,
        None => return Err(ErrorResponse(String::from_str("invalid puzzle id"))),
    };
    let board = match board_from_letters(puzzle.width, puzzle.height, inp.letters.as_str()) {
        Ok(board) => board,
        Err(error) => return Err(ErrorResponse(error)),
    };
    let found_words = find_words(&board, word_list);
    let ghost found = found_words@;
    let words = puzzle.compare_found_words(found_words);
    proof {
        assert(word_set(found) =~= spelled(board, word_list));
        assert(described_board(board, puzzle.width, puzzle.height, inp.letters@));
    }
    Ok(CheckOutput { words })
}

/// The dictionary words `board` spells.
pub open spec fn spelled(board: Board, word_list: &crate::words::Trie) -> Set<Seq<char>> {
    Set::new(|x: Seq<char>| word_list@.contains(x) && board.spells(x))
}

/// Builds the puzzle a create request describes; the caller stores it under
/// the request's id.
pub fn create(inp: CreateInput) -> (r: Result<(String, Puzzle), ErrorResponse>)
    ensures
        r is Err <==> inp.width * inp.height != inp.letters@.len(),
        r matches Err(e) ==> e.0@ == length_mismatch_message(),
        r matches Ok((id, p)) ==> id@ == inp.puzzle_id@ && p.width == inp.width && p.height
            == inp.height && p.words == inp.words && p.laid_out(inp.width, inp.height, inp.letters@) && (forall|
            cell: BoardCell,
        |
            cell.0 < inp.height && cell.1 < inp.width ==> (#[trigger] p.holes@.contains(cell) <==> inp.letters@[cell.0
                * inp.width + cell.1] == '#')) && (forall|cell: BoardCell, c: char|
            cell.0 < inp.height && cell.1 < inp.width ==> (#[trigger] p.starting_letters@.contains((cell, c))
                <==> is_lower(c) && c == inp.letters@[cell.0 * inp.width + cell.1])),
{
    let chars = crate::text::str_chars(inp.letters.as_str());
    let puzzle = match Puzzle::create(inp.width, inp.height, chars, inp.words) {
        Ok(puzzle) => puzzle,
        Err(error) => {
            return Err(ErrorResponse(String::from_str(error)));
        },
    };
    Ok((inp.puzzle_id, puzzle))
}

/// The loaded puzzle, or an invalid-id error when none was found.
pub fn load_puzzle(found: Option<Puzzle>) -> (r: Result<Puzzle, ErrorResponse>)
    ensures
        found matches Some(p) ==> r == Ok::<Puzzle, ErrorResponse>(p),
        found is None ==> (r matches Err(e) && e.0@ == "invalid puzzle id"@),
{
    match found {
        Some(puzzle) => Ok(puzzle),
        None => Err(ErrorResponse(String::from_str("invalid puzzle id"))),
    }
}

} // verus!
