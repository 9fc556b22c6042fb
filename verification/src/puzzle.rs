//! Puzzles: the word list a board must spell, and how a board measures up.
use vstd::prelude::*;

use crate::board::{add_unique, all_distinct, find_words, letters_lowercase, Board, BoardCell};
use crate::words::{is_ascii_lowercase, is_lower, views, Trie};

verus! {

/// A struct for the output of comparing words in a board
/// to words a puzzle requires.
#[derive(Debug, PartialEq)]
pub struct Words {
    pub found: Vec<String>,
    pub missing: Vec<String>,
    pub extra: Vec<String>,
}

/// A list of words that the player uses to create
/// a board.
#[derive(Default)]
pub struct Puzzle {
    pub width: usize,
    pub height: usize,
    /// Empty squares in the puzzle that the player knows will be empty
    pub holes: Vec<BoardCell>,
    /// Filled squares in the puzzle that the player is given at the start
    pub starting_letters: Vec<(BoardCell, char)>,
    /// The words, each held once
    pub words: Vec<String>,
}

/// The set of strings held by `v`.
pub open spec fn word_set(v: Seq<String>) -> Set<Seq<char>> {
    Set::new(|x: Seq<char>| views(v).contains(x))
}

/// Cells in reading order: row by row, left to right.
pub open spec fn reading_order(a: BoardCell, b: BoardCell) -> bool {
    a.0 < b.0 || (a.0 == b.0 && a.1 < b.1)
}

/// Whether `v` holds a string reading `s`.
pub fn contains_word(v: &Vec<String>, s: &String) -> (b: bool)
    ensures
        b == views(v@).contains(s@),
{
    let mut i: usize = 0;
    while i < v.len()
        invariant
            i <= v@.len(),
            forall|k: int| 0 <= k < i ==> (#[trigger] v@[k])@ != s@,
        decreases v@.len() - i,
    {
        if v[i] == *s {
            proof {
                assert(views(v@)[i as int] == s@);
            }
            return true;
        }
        i = i + 1;
    }
    proof {
        if views(v@).contains(s@) {
            let k = choose|k: int| 0 <= k < views(v@).len() && views(v@)[k] == s@;
            assert(v@[k]@ == s@);
        }
    }
    false
}

/// The strings of `v` that do (`keep` true) or do not (`keep` false) read as
/// some string of `other`, each held once.
fn select_by_membership(v: &Vec<String>, other: &Vec<String>, keep: bool) -> (out: Vec<String>)
    requires
        all_distinct(views(v@)),
    ensures
        all_distinct(views(out@)),
        forall|x: Seq<char>| #[trigger]
            views(out@).contains(x) <==> views(v@).contains(x) && (views(other@).contains(x) == keep),
{
    let mut out: Vec<String> = Vec::new();
    let mut i: usize = 0;
    while i < v.len()
        invariant
            i <= v@.len(),
            all_distinct(views(v@)),
            all_distinct(views(out@)),
            forall|x: Seq<char>| #[trigger]
                views(out@).contains(x) <==> views(v@.subrange(0, i as int)).contains(x) && (views(
                    other@,
                ).contains(x) == keep),
        decreases v@.len() - i,
    {
        let ghost before = out@;
        let inside = contains_word(other, &v[i]);
        if inside == keep {
            add_unique(&mut out, v[i].clone());
        }
        proof {
            let m0 = views(v@.subrange(0, i as int));
            let m1 = views(v@.subrange(0, i + 1));
            assert(m1 =~= m0.push(v@[i as int]@));
            assert forall|x: Seq<char>| #[trigger]
                views(out@).contains(x) <==> m1.contains(x) && (views(other@).contains(x) == keep) by {
                if m1.contains(x) {
                    let k = choose|k: int| 0 <= k < m1.len() && m1[k] == x;
                    if k < m0.len() {
                        assert(m0[k] == x);
                    }
                }
                if m0.contains(x) {
                    let k = choose|k: int| 0 <= k < m0.len() && m0[k] == x;
                    assert(m1[k] == x);
                }
                if x == v@[i as int]@ {
                    assert(m1[i as int] == x);
                }
            }
        }
        i = i + 1;
    }
    proof {
        assert(v@.subrange(0, v@.len() as int) =~= v@);
    }
    out
}

/// The strings of `v`, each held once.
pub(crate) fn dedup_words(v: Vec<String>) -> (out: Vec<String>)
    ensures
        all_distinct(views(out@)),
        forall|x: Seq<char>| #[trigger] views(out@).contains(x) <==> views(v@).contains(x),
{
    let mut out: Vec<String> = Vec::new();
    let mut i: usize = 0;
    while i < v.len()
        invariant
            i <= v@.len(),
            all_distinct(views(out@)),
            forall|x: Seq<char>| #[trigger]
                views(out@).contains(x) <==> views(v@.subrange(0, i as int)).contains(x),
        decreases v@.len() - i,
    {
        add_unique(&mut out, v[i].clone());
        proof {
            let m0 = views(v@.subrange(0, i as int));
            let m1 = views(v@.subrange(0, i + 1));
            assert(m1 =~= m0.push(v@[i as int]@));
            assert forall|x: Seq<char>| #[trigger] views(out@).contains(x) <==> m1.contains(x) by {
                if m1.contains(x) {
                    let k = choose|k: int| 0 <= k < m1.len() && m1[k] == x;
                    if k < m0.len() {
                        assert(m0[k] == x);
                    }
                }
                if m0.contains(x) {
                    let k = choose|k: int| 0 <= k < m0.len() && m0[k] == x;
                    assert(m1[k] == x);
                }
                if x == v@[i as int]@ {
                    assert(m1[i as int] == x);
                }
            }
        }
        i = i + 1;
    }
    proof {
        assert(v@.subrange(0, v@.len() as int) =~= v@);
    }
    out
}

/// Row `r`, column `c` sits at position `r * width + c` of the description.
proof fn lemma_position(r: int, c: int, w: int, h: int)
    requires
        0 <= r < h,
        0 <= c < w,
    ensures
        0 <= r * w + c < w * h,
        r * w + w == (r + 1) * w,
{
    assert(0 <= r * w + c < w * h) by (nonlinear_arith)
        requires
            0 <= r < h,
            0 <= c < w,
    ;
    assert(r * w + w == (r + 1) * w) by (nonlinear_arith);
}

/// Nothing is missing and nothing is extra exactly when the found words are
/// the puzzle's words.
pub proof fn lemma_complete_iff_same(found: Set<Seq<char>>, words: Set<Seq<char>>)
    ensures
        (words.difference(found) == Set::<Seq<char>>::empty() && found.difference(words) == Set::<Seq<char>>::empty())
            <==> found == words,
{
    if words.difference(found) == Set::<Seq<char>>::empty() && found.difference(words) == Set::<Seq<char>>::empty() {
        assert forall|x: Seq<char>| found.contains(x) <==> words.contains(x) by {
            if found.contains(x) && !words.contains(x) {
                assert(found.difference(words).contains(x));
            }
            if words.contains(x) && !found.contains(x) {
                assert(words.difference(found).contains(x));
            }
        }
        assert(found =~= words);
    }
    if found == words {
        assert(words.difference(found) =~= Set::<Seq<char>>::empty());
        assert(found.difference(words) =~= Set::<Seq<char>>::empty());
    }
}

/// The words a board spells, compared with the puzzle made from that board,
/// are all found: nothing is missing and nothing is extra.
pub proof fn lemma_own_board_complete(board: Board, word_list: Set<Seq<char>>, p: Puzzle, found: Seq<String>)
    requires
        forall|x: Seq<char>| #[trigger] views(p.words@).contains(x) <==> word_list.contains(x) && board.spells(x),
        forall|x: Seq<char>| #[trigger] views(found).contains(x) <==> word_list.contains(x) && board.spells(x),
    ensures
        word_set(p.words@).difference(word_set(found)) == Set::<Seq<char>>::empty(),
        word_set(found).difference(word_set(p.words@)) == Set::<Seq<char>>::empty(),
{
    assert(word_set(p.words@) =~= word_set(found));
    lemma_complete_iff_same(word_set(found), word_set(p.words@));
}

impl Puzzle {
    pub fn from_board(board: &Board, word_list: &Trie) -> (p: Puzzle)
        requires
            letters_lowercase(board),
        ensures
            p.width == board.width,
            p.height == board.height,
            forall|k: int|
                0 <= k < p.holes@.len() ==> board.in_bounds(#[trigger] p.holes@[k]) && board.letter_at(
                    p.holes@[k],
                ) is None,
            forall|cell: BoardCell|
                board.in_bounds(cell) && board.letter_at(cell) is None ==> #[trigger] p.holes@.contains(
                    cell,
                ),
            forall|k: int, l: int|
                0 <= k < l < p.holes@.len() ==> reading_order(
                    #[trigger] p.holes@[k],
                    #[trigger] p.holes@[l],
                ),
            p.starting_letters@.len() == 0,
            all_distinct(views(p.words@)),
            forall|x: Seq<char>| #[trigger]
                views(p.words@).contains(x) <==> word_list@.contains(x) && board.spells(x),
    {
        Puzzle {
            width: board.width,
            height: board.height,
            holes: board.get_empty_cells(),
            starting_letters: Vec::new(),
            words: find_words(board, word_list),
        }
    }

    /// The holes of the puzzle are exactly the cells of a `width` by `height`
    /// description `chars` that hold `#`, and its starting letters exactly
    /// the cells that hold a lowercase letter, each with that letter; both in
    /// reading order.
    pub open spec fn laid_out(self, width: usize, height: usize, chars: Seq<char>) -> bool {
        let p = self;
        &&& forall|k: int|
            0 <= k < p.holes@.len() ==> {
                let cell = #[trigger] p.holes@[k];
                &&& cell.0 < height
                &&& cell.1 < width
                &&& chars[cell.0 * width + cell.1] == '#'
            }
        &&& forall|cell: BoardCell|
            cell.0 < height && cell.1 < width && chars[cell.0 * width + cell.1] == '#'
                ==> #[trigger] p.holes@.contains(cell)
        &&& forall|k: int, l: int|
            0 <= k < l < p.holes@.len() ==> reading_order(
                #[trigger] p.holes@[k],
                #[trigger] p.holes@[l],
            )
        &&& forall|k: int|
            0 <= k < p.starting_letters@.len() ==> {
                let (cell, c) = #[trigger] p.starting_letters@[k];
                &&& cell.0 < height
                &&& cell.1 < width
                &&& c == chars[cell.0 * width + cell.1]
                &&& is_lower(c)
            }
        &&& forall|cell: BoardCell|
            cell.0 < height && cell.1 < width && is_lower(chars[cell.0 * width + cell.1])
                ==> #[trigger] p.starting_letters@.contains(
                (cell, chars[cell.0 * width + cell.1]),
            )
        &&& forall|k: int, l: int|
            0 <= k < l < p.starting_letters@.len() ==> reading_order(
                (#[trigger] p.starting_letters@[k]).0,
                (#[trigger] p.starting_letters@[l]).0,
            )
    }

    /// On a puzzle laid out from a description, a cell is a hole exactly when
    /// its character is `#`, and holds a starting letter exactly when its
    /// character is a lowercase letter, which is then that letter; any other
    /// character leaves the cell to the player: neither a hole nor a starting
    /// letter.
    pub proof fn lemma_laid_out_cells(self, width: usize, height: usize, chars: Seq<char>, cell: BoardCell, c: char)
        requires
            self.laid_out(width, height, chars),
            cell.0 < height,
            cell.1 < width,
        ensures
            self.holes@.contains(cell) <==> chars[cell.0 * width + cell.1] == '#',
            self.starting_letters@.contains((cell, c)) <==> is_lower(c) && c == chars[cell.0 * width + cell.1],
            chars[cell.0 * width + cell.1] != '#' && !is_lower(chars[cell.0 * width + cell.1]) ==> !self.holes@.contains(
                cell,
            ) && !self.starting_letters@.contains((cell, c)),
    {
        if self.holes@.contains(cell) {
            let k = choose|k: int| 0 <= k < self.holes@.len() && self.holes@[k] == cell;
            assert(self.holes@[k] == cell);
        }
        if self.starting_letters@.contains((cell, c)) {
            let k = choose|k: int| 0 <= k < self.starting_letters@.len() && self.starting_letters@[k] == (cell, c);
            assert(self.starting_letters@[k] == (cell, c));
        }
    }

    /// Reads a board description: `#` marks a hole, a lowercase letter a
    /// starting letter, anything else a cell left for the player.
    pub fn create(width: usize, height: usize, chars: Vec<char>, words: Vec<String>) -> (r: Result<
        Self,
        &'static str,
    >)
        ensures
            width * height != chars@.len() <==> r is Err,
            r matches Err(e) ==> e@ == "Width and height do not match length of chars"@,
            r matches Ok(p) ==> {
                &&& p.width == width
                &&& p.height == height
                &&& p.words == words
                &&& p.laid_out(width, height, chars@)
                &&& forall|cell: BoardCell|
                    cell.0 < height && cell.1 < width ==> (#[trigger] p.holes@.contains(cell) <==> chars@[cell.0
                        * width + cell.1] == '#')
                &&& forall|cell: BoardCell, c: char|
                    cell.0 < height && cell.1 < width ==> (#[trigger] p.starting_letters@.contains((cell, c))
                        <==> is_lower(c) && c == chars@[cell.0 * width + cell.1])
            },
    {
        let total = chars.len();
        let fits = match width.checked_mul(height) {
            Some(n) => n == total,
            None => false,
        };
        if !fits {
            return Err("Width and height do not match length of chars");
        }
        let mut holes: Vec<BoardCell> = Vec::new();
        let mut starting_letters: Vec<(BoardCell, char)> = Vec::new();

        let mut i: usize = 0;
        let mut x: usize = 0;
        while x < height
            invariant
                x <= height,
                width * height == chars@.len(),
                total == chars@.len(),
                i == x * width,
                forall|k: int|
                    0 <= k < holes@.len() ==> {
                        let cell = #[trigger] holes@[k];
                        &&& cell.0 < x
                        &&& cell.1 < width
                        &&& chars@[cell.0 * width + cell.1] == '#'
                    },
                forall|cell: BoardCell|
                    cell.0 < x && cell.1 < width && chars@[cell.0 * width + cell.1] == '#'
                        ==> #[trigger] holes@.contains(cell),
                forall|k: int, l: int|
                    0 <= k < l < holes@.len() ==> reading_order(
                        #[trigger] holes@[k],
                        #[trigger] holes@[l],
                    ),
                forall|k: int|
                    0 <= k < starting_letters@.len() ==> {
                        let (cell, c) = #[trigger] starting_letters@[k];
                        &&& cell.0 < x
                        &&& cell.1 < width
                        &&& c == chars@[cell.0 * width + cell.1]
                        &&& is_lower(c)
                    },
                forall|cell: BoardCell|
                    cell.0 < x && cell.1 < width && is_lower(chars@[cell.0 * width + cell.1])
                        ==> #[trigger] starting_letters@.contains(
                        (cell, chars@[cell.0 * width + cell.1]),
                    ),
                forall|k: int, l: int|
                    0 <= k < l < starting_letters@.len() ==> reading_order(
                        (#[trigger] starting_letters@[k]).0,
                        (#[trigger] starting_letters@[l]).0,
                    ),
            decreases height - x,
        {
            let ghost holes0 = holes@;
            let ghost letters0 = starting_letters@;
            let mut y: usize = 0;
            while y < width
                invariant
                    x < height,
                    y <= width,
                    width * height == chars@.len(),
                    total == chars@.len(),
                    i == x * width + y,
                    holes0.len() <= holes@.len(),
                    forall|k: int| 0 <= k < holes0.len() ==> #[trigger] holes@[k] == holes0[k],
                    forall|k: int| 0 <= k < holes0.len() ==> (#[trigger] holes0[k]).0 < x,
                    forall|k: int|
                        holes0.len() <= k < holes@.len() ==> (#[trigger] holes@[k]).0 == x
                            && holes@[k].1 < y,
                    forall|k: int|
                        0 <= k < holes@.len() ==> {
                            let cell = #[trigger] holes@[k];
                            &&& cell.0 <= x
                            &&& cell.1 < width
                            &&& chars@[cell.0 * width + cell.1] == '#'
                        },
                    forall|cell: BoardCell|
                        (cell.0 < x || (cell.0 == x && cell.1 < y)) && cell.1 < width && chars@[cell.0
                            * width + cell.1] == '#' ==> #[trigger] holes@.contains(cell),
                    forall|k: int, l: int|
                        0 <= k < l < holes@.len() ==> reading_order(
                            #[trigger] holes@[k],
                            #[trigger] holes@[l],
                        ),
                    letters0.len() <= starting_letters@.len(),
                    forall|k: int|
                        0 <= k < letters0.len() ==> #[trigger] starting_letters@[k] == letters0[k],
                    forall|k: int| 0 <= k < letters0.len() ==> (#[trigger] letters0[k]).0.0 < x,
                    forall|k: int|
                        letters0.len() <= k < starting_letters@.len() ==> (
                        #[trigger] starting_letters@[k]).0.0 == x && starting_letters@[k].0.1 < y,
                    forall|k: int|
                        0 <= k < starting_letters@.len() ==> {
                            let (cell, c) = #[trigger] starting_letters@[k];
                            &&& cell.0 <= x
                            &&& cell.1 < width
                            &&& c == chars@[cell.0 * width + cell.1]
                            &&& is_lower(c)
                        },
                    forall|cell: BoardCell|
                        (cell.0 < x || (cell.0 == x && cell.1 < y)) && cell.1 < width && is_lower(
                            chars@[cell.0 * width + cell.1],
                        ) ==> #[trigger] starting_letters@.contains(
                            (cell, chars@[cell.0 * width + cell.1]),
                        ),
                    forall|k: int, l: int|
                        0 <= k < l < starting_letters@.len() ==> reading_order(
                            (#[trigger] starting_letters@[k]).0,
                            (#[trigger] starting_letters@[l]).0,
                        ),
                decreases width - y,
            {
                proof {
                    lemma_position(x as int, y as int, width as int, height as int);
                }
                let c = chars[i];
                let cell = BoardCell(x, y);
                if c == '#' {
                    let ghost before = holes@;
                    holes.push(cell);
                    proof {
                        assert forall|c2: BoardCell|
                            (c2.0 < x || (c2.0 == x && c2.1 < y + 1)) && c2.1 < width && chars@[c2.0
                                * width + c2.1] == '#' implies #[trigger] holes@.contains(c2) by {
                            if c2 == cell {
                                assert(holes@[before.len() as int] == c2);
                            } else {
                                assert(before.contains(c2));
                                let k = choose|k: int| 0 <= k < before.len() && before[k] == c2;
                                assert(holes@[k] == c2);
                            }
                        }
                    }
                } else if is_ascii_lowercase(c) {
                    let ghost before = starting_letters@;
                    starting_letters.push((cell, c));
                    proof {
                        assert forall|c2: BoardCell|
                            (c2.0 < x || (c2.0 == x && c2.1 < y + 1)) && c2.1 < width && is_lower(
                                chars@[c2.0 * width + c2.1],
                            ) implies #[trigger] starting_letters@.contains(
                            (c2, chars@[c2.0 * width + c2.1]),
                        ) by {
                            if c2 == cell {
                                assert(starting_letters@[before.len() as int] == (
                                    c2,
                                    chars@[c2.0 * width + c2.1],
                                ));
                            } else {
                                assert(before.contains((c2, chars@[c2.0 * width + c2.1])));
                                let k = choose|k: int|
                                    0 <= k < before.len() && before[k] == (
                                        c2,
                                        chars@[c2.0 * width + c2.1],
                                    );
                                assert(starting_letters@[k] == (c2, chars@[c2.0 * width + c2.1]));
                            }
                        }
                    }
                } else {
                    proof {
                        assert forall|c2: BoardCell|
                            (c2.0 < x || (c2.0 == x && c2.1 < y + 1)) && c2.1 < width && chars@[c2.0
                                * width + c2.1] == '#' implies #[trigger] holes@.contains(c2) by {
                            if c2.0 == x && c2.1 == y {
                                assert(c2 == cell);
                            }
                        }
                        assert forall|c2: BoardCell|
                            (c2.0 < x || (c2.0 == x && c2.1 < y + 1)) && c2.1 < width && is_lower(
                                chars@[c2.0 * width + c2.1],
                            ) implies #[trigger] starting_letters@.contains(
                            (c2, chars@[c2.0 * width + c2.1]),
                        ) by {
                            if c2.0 == x && c2.1 == y {
                                assert(c2 == cell);
                            }
                        }
                    }
                }

                i = i + 1;
                y = y + 1;
            }
            proof {
                if width > 0 {
                    lemma_position(x as int, 0, width as int, height as int);
                } else {
                    assert(x * width == 0 && (x + 1) * width == 0) by (nonlinear_arith)
                        requires
                            width == 0,
                    ;
                }
            }
            x = x + 1;
        }

        let p = Puzzle { width, height, holes, starting_letters, words };
        proof {
            assert forall|cell: BoardCell| cell.0 < height && cell.1 < width implies (#[trigger] p.holes@.contains(cell)
                <==> chars@[cell.0 * width + cell.1] == '#') by {
                p.lemma_laid_out_cells(width, height, chars@, cell, ' ');
            }
            assert forall|cell: BoardCell, c: char| cell.0 < height && cell.1 < width implies (
            #[trigger] p.starting_letters@.contains((cell, c)) <==> is_lower(c) && c == chars@[cell.0 * width
                + cell.1]) by {
                p.lemma_laid_out_cells(width, height, chars@, cell, c);
            }
        }
        Ok(p)
    }

    /// Sorts the words a board spells into those the puzzle asks for, those it
    /// asks for that are missing, and those it does not ask for.
    pub fn compare_found_words(&self, found_words: Vec<String>) -> (w: Words)
        requires
            all_distinct(views(self.words@)),
        ensures
            all_distinct(views(w.found@)),
            all_distinct(views(w.missing@)),
            all_distinct(views(w.extra@)),
            word_set(w.found@) == word_set(found_words@).intersect(word_set(self.words@)),
            word_set(w.missing@) == word_set(self.words@).difference(word_set(found_words@)),
            word_set(w.extra@) == word_set(found_words@).difference(word_set(self.words@)),
            (word_set(w.missing@) == Set::<Seq<char>>::empty() && word_set(w.extra@) == Set::<Seq<char>>::empty())
                <==> word_set(found_words@) == word_set(self.words@),
    {
        let found_words_set = dedup_words(found_words);
        let found = select_by_membership(&found_words_set, &self.words, true);
        let missing = select_by_membership(&self.words, &found_words_set, false);
        let extra = select_by_membership(&found_words_set, &self.words, false);
        let w = Words { found, missing, extra };
        proof {
            assert(word_set(w.found@) =~= word_set(found_words@).intersect(word_set(self.words@)));
            assert(word_set(w.missing@) =~= word_set(self.words@).difference(word_set(found_words@)));
            assert(word_set(w.extra@) =~= word_set(found_words@).difference(word_set(self.words@)));
            lemma_complete_iff_same(word_set(found_words@), word_set(self.words@));
        }
        w
    }
}

} // verus!
