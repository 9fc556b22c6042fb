# reweave

Logic of a word-grid puzzle game, written in Verus. A board of letters and
holes spells a word by walking between adjacent tiles (diagonals included)
without reusing a tile; a puzzle is complete when the words found on the board
are exactly its required words.

## Layout

- `src/` — the verified library.
  - `words.rs`: the trie of dictionary words.
  - `board.rs`, `puzzle.rs`: boards, the words they spell, and puzzle checking.
  - `dictionary.rs`, `api.rs`, `frontend.rs`: the operations that the web
    front end and the backend call.
  - `wordlist.rs`: the rules that build the word list (variants, blacklist,
    length and case filters).
  - `server/`: request handling of the puzzle service: records, input checks,
    SQL text and arguments, answer updates, CORS.
  - `solver/`: a backtracking solver that fills the blanks of a board so that it
    spells exactly a set of target words, with its statistics and command line.
  - `text.rs`: string helpers, with the few calls into `std` that vstd does not
    specify.
- `app/` — ordinary Rust around the library: file, network and database I/O,
  JSON, the serverless handlers, WebAssembly bindings and the command lines.
- `tests/` — tests of the library on concrete values.
