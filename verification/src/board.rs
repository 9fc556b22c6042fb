//! Boards of letters and the words that can be traced on them.
use vstd::prelude::*;

use crate::text::{pop_char, push_char};
use crate::words::{is_lower, views, Trie};
use vstd::set_lib::{lemma_int_range, lemma_len_subset, set_int_range};

verus! {

/// A cell of the board, indexed by its coordinates
#[derive(Clone, Copy, Debug, PartialEq, Eq, Structural)]
pub struct BoardCell(pub usize, pub usize);

/// A board of letters, some of which might not be filled in
pub struct Board {
    pub width: usize,
    pub height: usize,
    pub cells: Vec<Vec<Option<char>>>,
}

/// What a character of the board description stands for: `_` an empty cell,
/// anything else that letter.
pub open spec fn decode_cell(c: char) -> Option<char> {
    if c == '_' {
        None
    } else {
        Some(c)
    }
}

/// Only `_` reads as an empty cell; every other character of a description,
/// each lowercase letter among them, stays on the board as itself.
pub proof fn lemma_decode_cell(c: char)
    ensures
        decode_cell(c) is None <==> c == '_',
        c != '_' ==> decode_cell(c) == Some(c),
        is_lower(c) ==> decode_cell(c) == Some(c),
{
}

/// Two different cells that touch, diagonals included.
pub open spec fn adjacent(a: BoardCell, b: BoardCell) -> bool {
    a != b && -1 <= a.0 - b.0 <= 1 && -1 <= a.1 - b.1 <= 1
}

impl Board {
    /// The letter in `cell`, if the cell exists and is filled.
    pub open spec fn letter_at(self, cell: BoardCell) -> Option<char> {
        if cell.0 < self.cells@.len() && cell.1 < self.cells@[cell.0 as int]@.len() {
            self.cells@[cell.0 as int]@[cell.1 as int]
        } else {
            None
        }
    }

    /// `cell` lies within the board's width and height.
    pub open spec fn in_bounds(self, cell: BoardCell) -> bool {
        cell.0 < self.height && cell.1 < self.width
    }

    /// The rows match the height, each row matches the width, and every filled
    /// cell holds a lowercase letter.
    pub open spec fn wf(self) -> bool {
        &&& self.cells@.len() == self.height
        &&& forall|r: int| 0 <= r < self.height ==> (#[trigger] self.cells@[r])@.len() == self.width
        &&& forall|cell: BoardCell|
            self.in_bounds(cell) && #[trigger] self.letter_at(cell) is Some ==> is_lower(
                self.letter_at(cell)->Some_0,
            )
    }

    /// A path over distinct filled cells of the board, each touching the next.
    pub open spec fn is_trail(self, path: Seq<BoardCell>) -> bool {
        &&& forall|i: int|
            0 <= i < path.len() ==> self.in_bounds(#[trigger] path[i]) && self.letter_at(
                path[i],
            ) is Some
        &&& path.no_duplicates()
        &&& forall|i: int| 0 <= i < path.len() - 1 ==> adjacent(#[trigger] path[i], path[i + 1])
    }

    /// The letters read along `path`.
    pub open spec fn trail_word(self, path: Seq<BoardCell>) -> Seq<char> {
        Seq::new(path.len(), |i: int| self.letter_at(path[i])->Some_0)
    }

    /// Distinct filled cells of the board, in any order.
    pub open spec fn is_chain(self, path: Seq<BoardCell>) -> bool {
        &&& forall|i: int|
            0 <= i < path.len() ==> self.in_bounds(#[trigger] path[i]) && self.letter_at(
                path[i],
            ) is Some
        &&& path.no_duplicates()
    }

    /// `w` is read along some trail of the board.
    pub open spec fn spells(self, w: Seq<char>) -> bool {
        exists|path: Seq<BoardCell>|
            path.len() > 0 && self.is_trail(path) && #[trigger] self.trail_word(path) == w
    }

    /// `w` is the letters of `base` followed by those of a trail that starts
    /// at `start` and avoids the cells of `base`.
    pub open spec fn extends_to(self, base: Seq<BoardCell>, start: BoardCell, w: Seq<char>) -> bool {
        exists|ext: Seq<BoardCell>|
            ext.len() > 0 && ext[0] == start && self.is_trail(ext) && self.is_chain(base + ext)
                && #[trigger] self.trail_word(base + ext) == w
    }
}

/// Row `r`, column `c` sits at position `r * width + c` of the description.
proof fn lemma_cell_position(r: int, c: int, w: int, h: int)
    requires
        0 <= r < h,
        0 <= c < w,
    ensures
        0 <= r * w + c < w * h,
        r * w + w == (r + 1) * w,
{
    assert(0 <= r * w + c < w * h) by (nonlinear_arith)
        requires
            0 <= r < h,
            0 <= c < w,
    ;
    assert(r * w + w == (r + 1) * w) by (nonlinear_arith);
}

impl Board {
    /// Create a Board given a width, height, and a vector of characters
    /// For an empty cell, pass in '_'
    pub fn create(width: usize, height: usize, chars: Vec<char>) -> (board: Board)
        requires
            width * height == chars@.len(),
            forall|i: int| 0 <= i < chars@.len() ==> #[trigger] chars@[i] == '_' || is_lower(chars@[i]),
        ensures
            board.width == width,
            board.height == height,
            board.wf(),
            forall|r: int, c: int|
                0 <= r < height && 0 <= c < width ==> #[trigger] board.cells@[r]@[c] == decode_cell(
                    chars@[r * width + c],
                ),
            forall|r: int, c: int|
                0 <= r < height && 0 <= c < width ==> (chars@[r * width + c] == '_' ==> (
                #[trigger] board.cells@[r]@[c]) is None) && (is_lower(chars@[r * width + c]) ==> board.cells@[r]@[c]
                    == Some(chars@[r * width + c])),
    {
        let total = chars.len();
        let mut cells: Vec<Vec<Option<char>>> = Vec::new();
        let mut i: usize = 0;
        let mut r: usize = 0;
        while r < height
            invariant
                r <= height,
                total == chars@.len(),
                width * height == chars@.len(),
                forall|k: int| 0 <= k < chars@.len() ==> #[trigger] chars@[k] == '_' || is_lower(chars@[k]),
                i == r * width,
                cells@.len() == r,
                forall|rr: int| 0 <= rr < r ==> (#[trigger] cells@[rr])@.len() == width,
                forall|rr: int, c: int|
                    0 <= rr < r && 0 <= c < width ==> #[trigger] cells@[rr]@[c] == decode_cell(
                        chars@[rr * width + c],
                    ),
            decreases height - r,
        {
            let mut row: Vec<Option<char>> = Vec::new();
            let mut c: usize = 0;
            while c < width
                invariant
                    r < height,
                    c <= width,
                    total == chars@.len(),
                    width * height == chars@.len(),
                    i == r * width + c,
                    row@.len() == c,
                    forall|cc: int| 0 <= cc < c ==> #[trigger] row@[cc] == decode_cell(chars@[r * width + cc]),
                decreases width - c,
            {
                proof {
                    lemma_cell_position(r as int, c as int, width as int, height as int);
                }
                let ch = chars[i];
                i = i + 1;
                if ch == '_' {
                    row.push(None);
                } else {
                    row.push(Some(ch));
                }
                c = c + 1;
            }
            proof {
                if width > 0 {
                    lemma_cell_position(r as int, 0, width as int, height as int);
                } else {
                    assert(r * width == 0) by (nonlinear_arith)
                        requires
                            width == 0,
                    ;
                    assert((r + 1) * width == 0) by (nonlinear_arith)
                        requires
                            width == 0,
                    ;
                }
            }
            cells.push(row);
            r = r + 1;
        }
        let board = Board { width, height, cells };
        proof {
            assert forall|cell: BoardCell|
                board.in_bounds(cell) && #[trigger] board.letter_at(cell) is Some implies is_lower(
                board.letter_at(cell)->Some_0,
            ) by {
                let rr = cell.0 as int;
                let cc = cell.1 as int;
                lemma_cell_position(rr, cc, width as int, height as int);
                assert(board.cells@[rr]@[cc] == decode_cell(chars@[rr * width + cc]));
                assert(chars@[rr * width + cc] == '_' || is_lower(chars@[rr * width + cc]));
            }
        }
        board
    }

    pub fn get(&self, cell: BoardCell) -> (c: Option<char>)
        ensures
            c == self.letter_at(cell),
    {
        if cell.0 < self.cells.len() && cell.1 < self.cells[cell.0].len() {
            self.cells[cell.0][cell.1]
        } else {
            None
        }
    }

    /// The cells within the board's width and height that hold no letter, row by row.
    pub fn get_empty_cells(&self) -> (out: Vec<BoardCell>)
        ensures
            forall|k: int|
                0 <= k < out@.len() ==> self.in_bounds(#[trigger] out@[k]) && self.letter_at(out@[k]) is None,
            forall|cell: BoardCell|
                self.in_bounds(cell) && self.letter_at(cell) is None ==> #[trigger] out@.contains(cell),
            forall|k: int, l: int|
                0 <= k < l < out@.len() ==> (#[trigger] out@[k]).0 < (#[trigger] out@[l]).0 || (
                out@[k].0 == out@[l].0 && out@[k].1 < out@[l].1),
    {
        let mut out: Vec<BoardCell> = Vec::new();
        let mut i: usize = 0;
        while i < self.height
            invariant
                i <= self.height,
                forall|k: int|
                    0 <= k < out@.len() ==> self.in_bounds(#[trigger] out@[k]) && self.letter_at(out@[k]) is None
                        && out@[k].0 < i,
                forall|cell: BoardCell|
                    self.in_bounds(cell) && self.letter_at(cell) is None && cell.0 < i
                        ==> #[trigger] out@.contains(cell),
                forall|k: int, l: int|
                    0 <= k < l < out@.len() ==> (#[trigger] out@[k]).0 < (#[trigger] out@[l]).0 || (
                    out@[k].0 == out@[l].0 && out@[k].1 < out@[l].1),
            decreases self.height - i,
        {
            let mut j: usize = 0;
            let ghost start = out@;
            while j < self.width
                invariant
                    i < self.height,
                    j <= self.width,
                    start.len() <= out@.len(),
                    forall|k: int| 0 <= k < start.len() ==> #[trigger] out@[k] == start[k],
                    forall|k: int| 0 <= k < start.len() ==> (#[trigger] start[k]).0 < i,
                    forall|k: int|
                        start.len() <= k < out@.len() ==> (#[trigger] out@[k]).0 == i && out@[k].1 < j,
                    forall|k: int|
                        0 <= k < out@.len() ==> self.in_bounds(#[trigger] out@[k]) && self.letter_at(out@[k]) is None
                            && out@[k].0 <= i,
                    forall|cell: BoardCell|
                        self.in_bounds(cell) && self.letter_at(cell) is None && (cell.0 < i || (cell.0
                            == i && cell.1 < j)) ==> #[trigger] out@.contains(cell),
                    forall|k: int, l: int|
                        0 <= k < l < out@.len() ==> (#[trigger] out@[k]).0 < (#[trigger] out@[l]).0 || (
                        out@[k].0 == out@[l].0 && out@[k].1 < out@[l].1),
                decreases self.width - j,
            {
                let cell = BoardCell(i, j);
                if self.get(cell).is_none() {
                    let ghost before = out@;
                    out.push(cell);
                    proof {
                        assert forall|c2: BoardCell|
                            self.in_bounds(c2) && self.letter_at(c2) is None && (c2.0 < i || (c2.0 == i
                                && c2.1 < j + 1)) implies #[trigger] out@.contains(c2) by {
                            if c2 == cell {
                                assert(out@[before.len() as int] == c2);
                            } else {
                                assert(before.contains(c2));
                                let k = choose|k: int| 0 <= k < before.len() && before[k] == c2;
                                assert(out@[k] == c2);
                            }
                        }
                    }
                } else {
                    proof {
                        assert forall|c2: BoardCell|
                            self.in_bounds(c2) && self.letter_at(c2) is None && (c2.0 < i || (c2.0 == i
                                && c2.1 < j + 1)) implies #[trigger] out@.contains(c2) by {
                            if c2.0 == i && c2.1 == j {
                                assert(c2 == cell);
                            }
                        }
                    }
                }
                j = j + 1;
            }
            i = i + 1;
        }
        out
    }
}

} // verus!

verus! {

/// No two strings of `v` read the same.
pub open spec fn all_distinct(v: Seq<Seq<char>>) -> bool {
    forall|i: int, j: int| 0 <= i < v.len() && 0 <= j < v.len() && i != j ==> v[i] != v[j]
}

/// Adds `s` to `out` unless a string reading the same is already there.
pub fn add_unique(out: &mut Vec<String>, s: String)
    requires
        all_distinct(views(old(out)@)),
    ensures
        all_distinct(views(final(out)@)),
        forall|x: Seq<char>| #[trigger]
            views(final(out)@).contains(x) <==> views(old(out)@).contains(x) || x == s@,
{
    let mut i: usize = 0;
    while i < out.len()
        invariant
            i <= out@.len(),
            all_distinct(views(out@)),
            forall|k: int| 0 <= k < i ==> (#[trigger] out@[k])@ != s@,
        decreases out@.len() - i,
    {
        if out[i] == s {
            proof {
                assert(views(out@)[i as int] == s@);
            }
            return;
        }
        i = i + 1;
    }
    let ghost before = out@;
    out.push(s);
    proof {
        assert forall|a: int, b: int|
            0 <= a < views(out@).len() && 0 <= b < views(out@).len() && a != b implies views(out@)[a]
            != views(out@)[b] by {
            if a < before.len() && b < before.len() {
                assert(views(before)[a] == views(out@)[a]);
                assert(views(before)[b] == views(out@)[b]);
            } else if a < before.len() {
                assert(views(out@)[a] == before[a]@);
            } else {
                assert(views(out@)[b] == before[b]@);
            }
        }
        assert forall|x: Seq<char>| #[trigger]
            views(out@).contains(x) <==> views(before).contains(x) || x == s@ by {
            if views(out@).contains(x) {
                let k = choose|k: int| 0 <= k < views(out@).len() && views(out@)[k] == x;
                if k < before.len() {
                    assert(views(before)[k] == x);
                }
            }
            if views(before).contains(x) {
                let k = choose|k: int| 0 <= k < views(before).len() && views(before)[k] == x;
                assert(views(out@)[k] == x);
            }
            if x == s@ {
                assert(views(out@)[before.len() as int] == x);
            }
        }
    }
}

/// Adds every string of `more` to `out`, skipping those already there.
pub fn add_all_unique(out: &mut Vec<String>, more: &Vec<String>)
    requires
        all_distinct(views(old(out)@)),
    ensures
        all_distinct(views(final(out)@)),
        forall|x: Seq<char>| #[trigger]
            views(final(out)@).contains(x) <==> views(old(out)@).contains(x) || views(more@).contains(x),
{
    let ghost start = out@;
    let mut j: usize = 0;
    while j < more.len()
        invariant
            j <= more@.len(),
            all_distinct(views(out@)),
            forall|x: Seq<char>| #[trigger]
                views(out@).contains(x) <==> views(start).contains(x) || views(more@.subrange(0, j as int)).contains(x),
        decreases more@.len() - j,
    {
        let ghost before = out@;
        add_unique(out, more[j].clone());
        proof {
            assert forall|x: Seq<char>| #[trigger]
                views(out@).contains(x) <==> views(start).contains(x) || views(more@.subrange(0, j + 1)).contains(x) by {
                let m0 = views(more@.subrange(0, j as int));
                let m1 = views(more@.subrange(0, j + 1));
                assert(m1 =~= m0.push(more@[j as int]@));
                if m1.contains(x) {
                    let k = choose|k: int| 0 <= k < m1.len() && m1[k] == x;
                    if k < m0.len() {
                        assert(m0[k] == x);
                    }
                }
                if m0.contains(x) {
                    let k = choose|k: int| 0 <= k < m0.len() && m0[k] == x;
                    assert(m1[k] == x);
                }
                if x == more@[j as int]@ {
                    assert(m1[j as int] == x);
                }
            }
        }
        j = j + 1;
    }
    proof {
        assert(more@.subrange(0, more@.len() as int) =~= more@);
    }
}

/// Distinct cells within the board number at most its area.
proof fn lemma_trail_fits(board: Board, path: Seq<BoardCell>)
    requires
        forall|i: int| 0 <= i < path.len() ==> board.in_bounds(#[trigger] path[i]),
        path.no_duplicates(),
    ensures
        path.len() <= board.height * board.width,
{
    let w = board.width as int;
    let h = board.height as int;
    let codes = path.map_values(|c: BoardCell| c.0 as int * w + c.1 as int);
    assert forall|i: int, j: int|
        0 <= i < codes.len() && 0 <= j < codes.len() && i != j implies codes[i] != codes[j] by {
        let a = path[i];
        let b = path[j];
        assert(board.in_bounds(a) && board.in_bounds(b));
        if codes[i] == codes[j] {
            let (ar, ac, br, bc) = (a.0 as int, a.1 as int, b.0 as int, b.1 as int);
            assert(ar == br && ac == bc) by (nonlinear_arith)
                requires
                    ar * w + ac == br * w + bc,
                    0 <= ac < w,
                    0 <= bc < w,
                    0 <= ar,
                    0 <= br,
            {
                if ar < br {
                    assert(ar * w + w <= br * w);
                } else if br < ar {
                    assert(br * w + w <= ar * w);
                }
            }
            assert(a == b);
        }
    }
    codes.unique_seq_to_set();
    assert forall|x: int| codes.to_set().contains(x) implies set_int_range(0, h * w).contains(x) by {
        let i = choose|i: int| 0 <= i < codes.len() && codes[i] == x;
        let a = path[i];
        assert(board.in_bounds(a));
        lemma_cell_position(a.0 as int, a.1 as int, w, h);
    }
    assert(0 <= h * w) by (nonlinear_arith)
        requires
            0 <= h,
            0 <= w,
    ;
    lemma_int_range(0, h * w);
    lemma_len_subset(codes.to_set(), set_int_range(0, h * w));
    assert(w * h == h * w) by (nonlinear_arith);
}

/// The first cells of a chain are a chain.
proof fn lemma_chain_prefix(board: Board, p: Seq<BoardCell>, q: Seq<BoardCell>)
    requires
        board.is_chain(p + q),
    ensures
        board.is_chain(p),
{
    let pq = p + q;
    assert forall|i: int| 0 <= i < p.len() implies board.in_bounds(#[trigger] p[i]) && board.letter_at(
        p[i],
    ) is Some by {
        assert(pq[i] == p[i]);
    }
    assert forall|i: int, j: int|
        0 <= i < p.len() && 0 <= j < p.len() && i != j implies p[i] != p[j] by {
        assert(pq[i] == p[i] && pq[j] == p[j]);
    }
}

/// A word read from `base` on through `cell` is either the word up to `cell`
/// or goes on through a cell next to `cell`.
proof fn lemma_extends_step(board: Board, base: Seq<BoardCell>, cell: BoardCell, x: Seq<char>)
    ensures
        board.extends_to(base, cell, x) <==> board.is_chain(base.push(cell)) && (x == board.trail_word(
            base.push(cell),
        ) || exists|nb: BoardCell| adjacent(cell, nb) && board.extends_to(base.push(cell), nb, x)),
{
    let b = base.push(cell);
    if board.extends_to(base, cell, x) {
        let ext = choose|ext: Seq<BoardCell>|
            ext.len() > 0 && ext[0] == cell && board.is_trail(ext) && board.is_chain(base + ext)
                && #[trigger] board.trail_word(base + ext) == x;
        let rest = ext.drop_first();
        assert(base + ext =~= b + rest);
        lemma_chain_prefix(board, b, rest);
        if rest.len() == 0 {
            assert(b + rest =~= b);
        } else {
            assert(board.trail_word(b + rest) == x);
            assert(adjacent(ext[0], ext[1]));
            assert(board.is_trail(rest)) by {
                assert forall|i: int| 0 <= i < rest.len() - 1 implies adjacent(#[trigger] rest[i], rest[i + 1]) by {
                    assert(adjacent(ext[i + 1], ext[i + 2]));
                }
            }
            assert(board.extends_to(b, rest[0], x));
        }
    }
    if board.is_chain(b) && x == board.trail_word(b) {
        let ext = seq![cell];
        assert(base + ext =~= b);
        assert(b[b.len() - 1] == cell);
        assert(board.is_trail(ext));
        assert(board.trail_word(base + ext) == x);
    }
    if board.is_chain(b) && exists|nb: BoardCell| adjacent(cell, nb) && board.extends_to(b, nb, x) {
        let nb = choose|nb: BoardCell| adjacent(cell, nb) && board.extends_to(b, nb, x);
        let rest = choose|ext: Seq<BoardCell>|
            ext.len() > 0 && ext[0] == nb && board.is_trail(ext) && board.is_chain(b + ext)
                && #[trigger] board.trail_word(b + ext) == x;
        let ext = seq![cell] + rest;
        assert(base + ext =~= b + rest);
        assert(board.trail_word(base + ext) == x);
        assert(ext[0] == cell);
        let br = b + rest;
        assert(br[b.len() - 1] == cell);
        assert(board.is_trail(ext)) by {
            assert forall|i: int| 0 <= i < ext.len() implies board.in_bounds(#[trigger] ext[i]) && board.letter_at(
                ext[i],
            ) is Some by {
                if i > 0 {
                    assert(ext[i] == rest[i - 1]);
                }
            }
            assert forall|i: int, j: int| 0 <= i < ext.len() && 0 <= j < ext.len() && i != j implies ext[i] != ext[j] by {
                assert(ext[i] == br[b.len() - 1 + i]);
                assert(ext[j] == br[b.len() - 1 + j]);
            }
            assert forall|i: int| 0 <= i < ext.len() - 1 implies adjacent(#[trigger] ext[i], ext[i + 1]) by {
                if i > 0 {
                    assert(ext[i] == rest[i - 1]);
                    assert(ext[i + 1] == rest[i]);
                }
            }
        }
    }
}

/// The word read along a continuation of `base` through `cell` starts with
/// the word read up to `cell`.
proof fn lemma_extends_prefix(board: Board, base: Seq<BoardCell>, cell: BoardCell, x: Seq<char>)
    requires
        board.extends_to(base, cell, x),
    ensures
        crate::words::is_prefix_of(board.trail_word(base.push(cell)), x),
{
    let b = base.push(cell);
    let ext = choose|ext: Seq<BoardCell>|
        ext.len() > 0 && ext[0] == cell && board.is_trail(ext) && board.is_chain(base + ext)
            && #[trigger] board.trail_word(base + ext) == x;
    let rest = ext.drop_first();
    assert(base + ext =~= b + rest);
    assert(x.subrange(0, b.len() as int) =~= board.trail_word(b));
}

/// A trail cannot go on through a cell already read, nor leave the board.
proof fn lemma_extends_blocked(board: Board, b: Seq<BoardCell>, nb: BoardCell, x: Seq<char>)
    requires
        b.contains(nb) || !board.in_bounds(nb),
    ensures
        !board.extends_to(b, nb, x),
{
    if board.extends_to(b, nb, x) {
        let ext = choose|ext: Seq<BoardCell>|
            ext.len() > 0 && ext[0] == nb && board.is_trail(ext) && board.is_chain(b + ext)
                && #[trigger] board.trail_word(b + ext) == x;
        let be = b + ext;
        assert(be[b.len() as int] == nb);
        if b.contains(nb) {
            let i = choose|i: int| 0 <= i < b.len() && b[i] == nb;
            assert(be[i] == nb);
        }
    }
}

/// The cell that `cell` lands on when the board is turned half a turn.
pub open spec fn turn(board: Board, cell: BoardCell) -> BoardCell {
    BoardCell((board.height - 1 - cell.0) as usize, (board.width - 1 - cell.1) as usize)
}

/// `b` is `a` turned half a turn: same sizes, and each cell of `a` holds what
/// `b` holds at the turned cell.
pub open spec fn turned(a: Board, b: Board) -> bool {
    &&& a.width == b.width
    &&& a.height == b.height
    &&& forall|cell: BoardCell| a.in_bounds(cell) ==> #[trigger] b.letter_at(turn(a, cell)) == a.letter_at(cell)
}

/// Turning back undoes a half turn.
proof fn lemma_turned_back(a: Board, b: Board)
    requires
        turned(a, b),
    ensures
        turned(b, a),
{
    assert forall|cell: BoardCell| b.in_bounds(cell) implies #[trigger] a.letter_at(turn(b, cell)) == b.letter_at(cell) by {
        let t = turn(b, cell);
        assert(a.in_bounds(t));
        assert(turn(a, t) == cell);
        assert(b.letter_at(turn(a, t)) == a.letter_at(t));
    }
}

/// A word read along a trail of `a` is read along the turned trail of `b`.
proof fn lemma_turned_trail(a: Board, b: Board, x: Seq<char>)
    requires
        turned(a, b),
        a.spells(x),
    ensures
        b.spells(x),
{
    let p = choose|p: Seq<BoardCell>| p.len() > 0 && a.is_trail(p) && #[trigger] a.trail_word(p) == x;
    let q = p.map_values(|c: BoardCell| turn(a, c));
    assert forall|i: int| 0 <= i < q.len() implies b.in_bounds(#[trigger] q[i]) && b.letter_at(q[i]) is Some by {
        assert(a.in_bounds(p[i]));
        assert(q[i] == turn(a, p[i]));
    }
    assert forall|i: int, j: int| 0 <= i < q.len() && 0 <= j < q.len() && i != j implies q[i] != q[j] by {
        assert(a.in_bounds(p[i]) && a.in_bounds(p[j]));
        assert(p[i] != p[j]);
    }
    assert forall|i: int| 0 <= i < q.len() - 1 implies adjacent(#[trigger] q[i], q[i + 1]) by {
        assert(adjacent(p[i], p[i + 1]));
        assert(a.in_bounds(p[i]) && a.in_bounds(p[i + 1]));
    }
    assert(b.is_trail(q));
    assert forall|i: int| 0 <= i < q.len() implies #[trigger] b.trail_word(q)[i] == x[i] by {
        assert(a.in_bounds(p[i]));
        assert(b.letter_at(turn(a, p[i])) == a.letter_at(p[i]));
    }
    assert(b.trail_word(q) =~= x);
}

/// The letters of a board read backwards make the board turned half a turn.
proof fn lemma_reversed_turned(a: Board, b: Board, chars: Seq<char>)
    requires
        a.wf(),
        b.wf(),
        a.width == b.width,
        a.height == b.height,
        chars.len() == a.width * a.height,
        forall|r: int, c: int|
            0 <= r < a.height && 0 <= c < a.width ==> #[trigger] a.cells@[r]@[c] == decode_cell(chars[r * a.width + c]),
        forall|r: int, c: int|
            0 <= r < b.height && 0 <= c < b.width ==> #[trigger] b.cells@[r]@[c] == decode_cell(
                chars.reverse()[r * b.width + c],
            ),
    ensures
        turned(a, b),
{
    let w = a.width as int;
    let h = a.height as int;
    assert forall|cell: BoardCell| a.in_bounds(cell) implies #[trigger] b.letter_at(turn(a, cell)) == a.letter_at(cell) by {
        let r = cell.0 as int;
        let c = cell.1 as int;
        let t = turn(a, cell);
        assert(t.0 as int == h - 1 - r && t.1 as int == w - 1 - c);
        assert(a.cells@[r]@.len() == w);
        assert(b.cells@[t.0 as int]@.len() == w);
        assert((h - 1 - r) * w + (w - 1 - c) == w * h - 1 - (r * w + c) && 0 <= r * w + c < w * h) by (nonlinear_arith)
            requires
                0 <= r < h,
                0 <= c < w,
        {
            assert(r * w + c < (r + 1) * w);
            assert((r + 1) * w <= h * w);
        }
        assert(b.cells@[t.0 as int]@[t.1 as int] == decode_cell(chars.reverse()[(h - 1 - r) * w + (w - 1 - c)]));
    }
}

/// Turning a board half a turn changes none of the words it spells: a board
/// made from a description spells the same words as the board made from the
/// description read backwards.
pub proof fn lemma_turned_board_words(a: Board, b: Board, chars: Seq<char>)
    requires
        a.wf(),
        b.wf(),
        a.width == b.width,
        a.height == b.height,
        chars.len() == a.width * a.height,
        forall|r: int, c: int|
            0 <= r < a.height && 0 <= c < a.width ==> #[trigger] a.cells@[r]@[c] == decode_cell(chars[r * a.width + c]),
        forall|r: int, c: int|
            0 <= r < b.height && 0 <= c < b.width ==> #[trigger] b.cells@[r]@[c] == decode_cell(
                chars.reverse()[r * b.width + c],
            ),
    ensures
        forall|x: Seq<char>| a.spells(x) <==> b.spells(x),
{
    lemma_reversed_turned(a, b, chars);
    lemma_turned_back(a, b);
    assert forall|x: Seq<char>| a.spells(x) <==> b.spells(x) by {
        if a.spells(x) {
            lemma_turned_trail(a, b, x);
        }
        if b.spells(x) {
            lemma_turned_trail(b, a, x);
        }
    }
}

/// Which of the eight neighbours `b` is of `a`, in the order the search tries
/// them; 8 when `b` is not a neighbour.
pub open spec fn dir_of(a: BoardCell, b: BoardCell) -> int {
    let dr = b.0 - a.0;
    let dc = b.1 - a.1;
    if dr == 1 && dc == 1 {
        0
    } else if dr == 1 && dc == 0 {
        1
    } else if dr == 1 && dc == -1 {
        2
    } else if dr == 0 && dc == -1 {
        3
    } else if dr == -1 && dc == -1 {
        4
    } else if dr == -1 && dc == 0 {
        5
    } else if dr == -1 && dc == 1 {
        6
    } else if dr == 0 && dc == 1 {
        7
    } else {
        8
    }
}

/// The row and column steps of neighbour direction `k`.
fn adj(k: usize) -> (d: (i8, i8))
    requires
        k < 8,
    ensures
        -1 <= d.0 <= 1,
        -1 <= d.1 <= 1,
        forall|a: BoardCell, b: BoardCell|
            b.0 - a.0 == d.0 && b.1 - a.1 == d.1 <==> #[trigger] dir_of(a, b) == k,
{
    if k == 0 {
        (1, 1)
    } else if k == 1 {
        (1, 0)
    } else if k == 2 {
        (1, -1)
    } else if k == 3 {
        (0, -1)
    } else if k == 4 {
        (-1, -1)
    } else if k == 5 {
        (-1, 0)
    } else if k == 6 {
        (-1, 1)
    } else {
        (0, 1)
    }
}

/// `u` moved by one step `d` of -1, 0 or 1.
fn step(u: usize, d: i8) -> (v: usize)
    requires
        -1 <= d <= 1,
        d == -1 ==> u > 0,
        d == 1 ==> u < usize::MAX,
    ensures
        v == u + d,
{
    if d == 1 {
        u + 1
    } else if d == -1 {
        u - 1
    } else {
        u
    }
}

/// Whether `v` holds `cell`.
fn has_cell(v: &Vec<BoardCell>, cell: BoardCell) -> (b: bool)
    ensures
        b == v@.contains(cell),
{
    let mut i: usize = 0;
    while i < v.len()
        invariant
            i <= v@.len(),
            forall|k: int| 0 <= k < i ==> v@[k] != cell,
        decreases v@.len() - i,
    {
        if v[i] == cell {
            return true;
        }
        i = i + 1;
    }
    false
}

} // verus!

verus! {

/// Every filled cell of the board within its width and height holds a
/// lowercase letter.
pub open spec fn letters_lowercase(board: &Board) -> bool {
    forall|cell: BoardCell|
        board.in_bounds(cell) && #[trigger] board.letter_at(cell) is Some ==> is_lower(
            board.letter_at(cell)->Some_0,
        )
}

/// Recursive DFS to find all words in a board.
/// Returns each found word once.
fn find_words_rec(
    curr_cell: BoardCell,
    curr_s: &mut String,
    visited: &mut Vec<BoardCell>,
    board: &Board,
    word_list: &Trie,
) -> (out: Vec<String>)
    requires
        letters_lowercase(board),
        board.is_chain(old(visited)@),
        old(curr_s)@ == board.trail_word(old(visited)@),
        board.in_bounds(curr_cell),
        !old(visited)@.contains(curr_cell),
    ensures
        final(visited)@ == old(visited)@,
        final(curr_s)@ == old(curr_s)@,
        all_distinct(views(out@)),
        forall|x: Seq<char>|
            #[trigger] views(out@).contains(x) <==> word_list@.contains(x) && board.extends_to(
                old(visited)@,
                curr_cell,
                x,
            ),
    decreases board.height * board.width - old(visited)@.len(),
{
    let ghost base = visited@;
    let ghost b = base.push(curr_cell);
    let mut out: Vec<String> = Vec::new();

    // Empty cell
    let c = match board.get(curr_cell) {
        Some(c) => c,
        None => {
            proof {
                assert forall|x: Seq<char>| !board.extends_to(base, curr_cell, x) by {
                    lemma_extends_step(*board, base, curr_cell, x);
                    if board.is_chain(b) {
                        assert(b[b.len() - 1] == curr_cell);
                    }
                }
            }
            return out;
        },
    };

    proof {
        assert(board.is_chain(b)) by {
            assert forall|i: int, j: int|
                0 <= i < b.len() && 0 <= j < b.len() && i != j implies b[i] != b[j] by {
                if i < base.len() && j < base.len() {
                } else if i < base.len() {
                    assert(base.contains(b[i]));
                } else {
                    assert(base.contains(b[j]));
                }
            }
        }
        lemma_trail_fits(*board, b);
    }

    // Add to curr string and visited
    push_char(curr_s, c);
    visited.push(curr_cell);
    let ghost word = curr_s@;
    proof {
        assert(word =~= board.trail_word(b));
        assert(crate::words::all_lower(word)) by {
            assert forall|i: int| 0 <= i < word.len() implies is_lower(#[trigger] word[i]) by {
                assert(board.letter_at(b[i]) is Some);
            }
        }
    }

    // Process current string
    if !word_list.is_prefix(curr_s.as_str()) {
        proof {
            assert forall|x: Seq<char>|
                !(word_list@.contains(x) && board.extends_to(base, curr_cell, x)) by {
                if word_list@.contains(x) && board.extends_to(base, curr_cell, x) {
                    lemma_extends_prefix(*board, base, curr_cell, x);
                }
            }
        }
        pop_char(curr_s);
        visited.pop();
        return out;
    }

    if word_list.is_word(curr_s.as_str()) {
        out.push(curr_s.clone());
    }
    proof {
        assert forall|x: Seq<char>|
            #[trigger] views(out@).contains(x) <==> word_list@.contains(x) && x == word by {
            if views(out@).contains(x) {
                assert(views(out@)[0] == x);
            }
            if word_list@.contains(x) && x == word {
                assert(views(out@)[0] == x);
            }
        }
    }

    // Traverse adjacent cells
    let mut k: usize = 0;
    while k < 8
        invariant
            k <= 8,
            base == old(visited)@,
            letters_lowercase(board),
            board.in_bounds(curr_cell),
            board.is_chain(b),
            b.len() <= board.height * board.width,
            b.len() == base.len() + 1,
            b.last() == curr_cell,
            visited@ == b,
            curr_s@ == word,
            word == board.trail_word(b),
            all_distinct(views(out@)),
            forall|x: Seq<char>|
                #[trigger] views(out@).contains(x) <==> word_list@.contains(x) && (x == word || exists|nb: BoardCell|
                    dir_of(curr_cell, nb) < k && board.extends_to(b, nb, x)),
        decreases 8 - k,
    {
        let (dx, dy) = adj(k);
        let ghost out0 = out@;
        // Check for out of bounds
        let out_of_bounds = (curr_cell.0 == 0 && dx == -1) || (curr_cell.0 == board.height - 1
            && dx == 1) || (curr_cell.1 == 0 && dy == -1) || (curr_cell.1 == board.width - 1 && dy
            == 1);
        if !out_of_bounds {
            let next_cell = BoardCell(step(curr_cell.0, dx), step(curr_cell.1, dy));
            assert(dir_of(curr_cell, next_cell) == k);
            // Already visited
            if !has_cell(visited, next_cell) {
                let sub = find_words_rec(next_cell, curr_s, visited, board, word_list);
                add_all_unique(&mut out, &sub);
                proof {
                    assert forall|x: Seq<char>|
                        #[trigger] views(out@).contains(x) <==> word_list@.contains(x) && (x == word || exists|
                            nb: BoardCell,
                        | dir_of(curr_cell, nb) < k + 1 && board.extends_to(b, nb, x)) by {
                        if exists|nb: BoardCell|
                            dir_of(curr_cell, nb) < k + 1 && board.extends_to(b, nb, x) {
                            let nb = choose|nb: BoardCell|
                                dir_of(curr_cell, nb) < k + 1 && board.extends_to(b, nb, x);
                            if dir_of(curr_cell, nb) == k {
                                assert(nb == next_cell);
                            }
                        }
                        if views(sub@).contains(x) {
                            assert(dir_of(curr_cell, next_cell) < k + 1 && board.extends_to(
                                b,
                                next_cell,
                                x,
                            ));
                        }
                    }
                }
            } else {
                proof {
                    assert forall|x: Seq<char>|
                        #[trigger] views(out@).contains(x) <==> word_list@.contains(x) && (x == word || exists|
                            nb: BoardCell,
                        | dir_of(curr_cell, nb) < k + 1 && board.extends_to(b, nb, x)) by {
                        if exists|nb: BoardCell|
                            dir_of(curr_cell, nb) < k + 1 && board.extends_to(b, nb, x) {
                            let nb = choose|nb: BoardCell|
                                dir_of(curr_cell, nb) < k + 1 && board.extends_to(b, nb, x);
                            if dir_of(curr_cell, nb) == k {
                                assert(nb == next_cell);
                                lemma_extends_blocked(*board, b, nb, x);
                            }
                        }
                    }
                }
            }
        } else {
            proof {
                assert forall|x: Seq<char>|
                    #[trigger] views(out@).contains(x) <==> word_list@.contains(x) && (x == word || exists|
                        nb: BoardCell,
                    | dir_of(curr_cell, nb) < k + 1 && board.extends_to(b, nb, x)) by {
                    if exists|nb: BoardCell|
                        dir_of(curr_cell, nb) < k + 1 && board.extends_to(b, nb, x) {
                        let nb = choose|nb: BoardCell|
                            dir_of(curr_cell, nb) < k + 1 && board.extends_to(b, nb, x);
                        if dir_of(curr_cell, nb) == k {
                            assert(nb.0 - curr_cell.0 == dx && nb.1 - curr_cell.1 == dy);
                            assert(!board.in_bounds(nb));
                            lemma_extends_blocked(*board, b, nb, x);
                        }
                    }
                }
            }
        }
        k = k + 1;
    }

    // Remove from curr string and visited
    pop_char(curr_s);
    visited.pop();
    proof {
        assert(visited@ =~= base);
        assert forall|x: Seq<char>|
            #[trigger] views(out@).contains(x) <==> word_list@.contains(x) && board.extends_to(base, curr_cell, x) by {
            lemma_extends_step(*board, base, curr_cell, x);
            if exists|nb: BoardCell| adjacent(curr_cell, nb) && board.extends_to(b, nb, x) {
                let nb = choose|nb: BoardCell| adjacent(curr_cell, nb) && board.extends_to(b, nb, x);
                assert(dir_of(curr_cell, nb) < 8);
            }
            if exists|nb: BoardCell| dir_of(curr_cell, nb) < 8 && board.extends_to(b, nb, x) {
                let nb = choose|nb: BoardCell| dir_of(curr_cell, nb) < 8 && board.extends_to(b, nb, x);
                assert(adjacent(curr_cell, nb));
            }
        }
    }
    out
}

/// Whether two cells touch, diagonals included.
fn adjacent_cells(a: BoardCell, b: BoardCell) -> (r: bool)
    ensures
        r == adjacent(a, b),
{
    let dr_ok = if a.0 >= b.0 { a.0 - b.0 <= 1 } else { b.0 - a.0 <= 1 };
    let dc_ok = if a.1 >= b.1 { a.1 - b.1 <= 1 } else { b.1 - a.1 <= 1 };
    a != b && dr_ok && dc_ok
}

/// `x` is read from some start cell before row `i`, column `j` in reading order.
spec fn read_from_before(board: &Board, x: Seq<char>, i: int, j: int) -> bool {
    exists|cell: BoardCell|
        (cell.0 < i || (cell.0 == i && cell.1 < j)) && board.in_bounds(cell) && board.extends_to(
            Seq::empty(),
            cell,
            x,
        )
}

/// Given a Board of letters and a word list, find all words
pub fn find_words(board: &Board, word_list: &Trie) -> (out: Vec<String>)
    requires
        letters_lowercase(board),
    ensures
        all_distinct(views(out@)),
        forall|x: Seq<char>|
            #[trigger] views(out@).contains(x) <==> word_list@.contains(x) && board.spells(x),
{
    let mut out: Vec<String> = Vec::new();
    let mut i: usize = 0;
    // First letter: one of the cells in the board
    while i < board.height
        invariant
            i <= board.height,
            letters_lowercase(board),
            all_distinct(views(out@)),
            forall|x: Seq<char>|
                #[trigger] views(out@).contains(x) <==> word_list@.contains(x) && read_from_before(board, x, i as int, 0),
        decreases board.height - i,
    {
        let mut j: usize = 0;
        while j < board.width
            invariant
                i < board.height,
                j <= board.width,
                letters_lowercase(board),
                all_distinct(views(out@)),
                forall|x: Seq<char>|
                    #[trigger] views(out@).contains(x) <==> word_list@.contains(x) && read_from_before(board, x, i as int, j as int),
            decreases board.width - j,
        {
            let mut s = String::new();
            let mut visited: Vec<BoardCell> = Vec::new();
            let cell = BoardCell(i, j);
            proof {
                assert(board.trail_word(visited@) =~= s@);
            }
            let found = find_words_rec(cell, &mut s, &mut visited, board, word_list);
            add_all_unique(&mut out, &found);
            proof {
                assert forall|x: Seq<char>|
                    #[trigger] views(out@).contains(x) <==> word_list@.contains(x) && read_from_before(board, x, i as int, j + 1) by {
                    if read_from_before(board, x, i as int, j + 1) {
                        let c2 = choose|c2: BoardCell|
                            (c2.0 < i || (c2.0 == i && c2.1 < j + 1)) && board.in_bounds(c2)
                                && board.extends_to(Seq::empty(), c2, x);
                        if c2.0 == i && c2.1 == j {
                            assert(c2 == cell);
                        }
                    }
                }
            }
            j = j + 1;
        }
        proof {
            assert forall|x: Seq<char>|
                read_from_before(board, x, i as int, board.width as int) == read_from_before(board, x, i + 1, 0) by {
                if read_from_before(board, x, i + 1, 0) {
                    let c2 = choose|c2: BoardCell|
                        (c2.0 < i + 1 || (c2.0 == i + 1 && c2.1 < 0)) && board.in_bounds(c2)
                            && board.extends_to(Seq::empty(), c2, x);
                    assert((c2.0 < i || (c2.0 == i && c2.1 < board.width)));
                }
            }
        }
        i = i + 1;
    }
    proof {
        assert forall|x: Seq<char>|
            #[trigger] views(out@).contains(x) <==> word_list@.contains(x) && board.spells(x) by {
            if board.spells(x) {
                let path = choose|path: Seq<BoardCell>|
                    path.len() > 0 && board.is_trail(path) && #[trigger] board.trail_word(path) == x;
                assert(Seq::<BoardCell>::empty() + path =~= path);
                assert(board.in_bounds(path[0]));
                assert(board.extends_to(Seq::empty(), path[0], x));
                assert(read_from_before(board, x, board.height as int, 0));
            }
            if read_from_before(board, x, board.height as int, 0) {
                let cell = choose|cell: BoardCell|
                    (cell.0 < board.height || (cell.0 == board.height && cell.1 < 0)) && board.in_bounds(cell) && board.extends_to(
                        Seq::empty(),
                        cell,
                        x,
                    );
                let ext = choose|ext: Seq<BoardCell>|
                    ext.len() > 0 && ext[0] == cell && board.is_trail(ext) && board.is_chain(Seq::empty() + ext)
                        && #[trigger] board.trail_word(Seq::empty() + ext) == x;
                assert(Seq::<BoardCell>::empty() + ext =~= ext);
            }
        }
    }
    out
}

} // verus!

verus! {

/// A character allowed in a board description: `_` for an empty cell or a
/// lowercase letter.
pub open spec fn valid_board_char(c: char) -> bool {
    c == '_' || is_lower(c)
}

/// The message for a board description of the wrong length.
pub open spec fn length_mismatch_message() -> Seq<char> {
    "Width and height do not match length of chars"@
}

/// The message for a board description holding the character `c`.
pub open spec fn invalid_char_message(c: char) -> Seq<char> {
    "Invalid character when creating board "@.push(c)
}

/// Builds a board from its description, or says why it cannot.
pub fn board_from_letters(width: usize, height: usize, letters: &str) -> (r: Result<Board, String>)
    ensures
        r is Ok <==> width * height == letters@.len() && forall|i: int|
            0 <= i < letters@.len() ==> valid_board_char(#[trigger] letters@[i]),
        r matches Ok(board) ==> {
            &&& board.width == width
            &&& board.height == height
            &&& board.wf()
            &&& forall|r: int, c: int|
                0 <= r < height && 0 <= c < width ==> #[trigger] board.cells@[r]@[c] == decode_cell(
                    letters@[r * width + c],
                )
            &&& forall|r: int, c: int|
                0 <= r < height && 0 <= c < width ==> (letters@[r * width + c] == '_' ==> (
                #[trigger] board.cells@[r]@[c]) is None) && (is_lower(letters@[r * width + c])
                    ==> board.cells@[r]@[c] == Some(letters@[r * width + c]))
        },
        r matches Err(e) ==> {
            ||| width * height != letters@.len() && e@ == length_mismatch_message()
            ||| width * height == letters@.len() && exists|i: int|
                0 <= i < letters@.len() && !valid_board_char(letters@[i]) && (forall|j: int|
                    0 <= j < i ==> valid_board_char(#[trigger] letters@[j])) && e@
                    == invalid_char_message(letters@[i])
        },
{
    let chars = crate::text::str_chars(letters);
    let n_chars = chars.len();
    let fits = match width.checked_mul(height) {
        Some(n) => n == n_chars,
        None => false,
    };
    if !fits {
        return Err(String::from_str("Width and height do not match length of chars"));
    }
    let mut i: usize = 0;
    while i < chars.len()
        invariant
            i <= chars@.len(),
            chars@ == letters@,
            width * height == letters@.len(),
            forall|j: int| 0 <= j < i ==> valid_board_char(#[trigger] chars@[j]),
        decreases chars@.len() - i,
    {
        let c = chars[i];
        if !(c == '_' || crate::words::is_ascii_lowercase(c)) {
            let mut msg = String::from_str("Invalid character when creating board ");
            push_char(&mut msg, c);
            proof {
                assert(!valid_board_char(letters@[i as int]));
                assert(0 <= i < letters@.len() && !valid_board_char(letters@[i as int]) && (forall|j: int|
                    0 <= j < i ==> valid_board_char(#[trigger] letters@[j])) && msg@
                    == invalid_char_message(letters@[i as int]));
            }
            return Err(msg);
        }
        i = i + 1;
    }
    Ok(Board::create(width, height, chars))
}

} // verus!
