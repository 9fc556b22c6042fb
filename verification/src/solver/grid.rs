//! The solver's board: cells stored row by row, some of them holes.
use vstd::prelude::*;

use crate::text::push_char;
use crate::words::{is_ascii_lowercase, is_lower};
use vstd::arithmetic::div_mod::lemma_fundamental_div_mod_converse;

verus! {

/// A blank cell in a board description.
pub const BLANK: char = '_';

/// A hole in a board description.
pub const HOLE: char = '!';

/// A cell, by row and column.
#[derive(Clone, Copy, Debug, PartialEq, Eq, Structural)]
pub struct Cell(pub usize, pub usize);

/// A puzzle as the solver reads it.
pub struct Puzzle {
    pub name: String,
    pub width: usize,
    pub height: usize,
    pub letters: String,
    pub words: Vec<String>,
}

/// The board being filled in: one entry per cell, row by row.
#[derive(Clone)]
pub struct Board {
    pub width: usize,
    pub height: usize,
    pub cells: Vec<Option<char>>,
    pub holes: Vec<bool>,
}

/// What a board description character stands for, as (letter, hole).
pub open spec fn decode(c: char) -> (Option<char>, bool) {
    if c == BLANK {
        (None, false)
    } else if c == HOLE {
        (None, true)
    } else {
        (Some(c), false)
    }
}

/// A character allowed in a board description.
pub open spec fn valid_char(c: char) -> bool {
    c == BLANK || c == HOLE || is_lower(c)
}

impl Board {
    /// Sizes agree, holes hold no letter and letters are lowercase.
    pub open spec fn wf(self) -> bool {
        &&& self.cells@.len() == self.width * self.height
        &&& self.width * self.height <= usize::MAX
        &&& self.holes@.len() == self.cells@.len()
        &&& forall|i: int| 0 <= i < self.cells@.len() && #[trigger] self.holes@[i] ==> self.cells@[i] is None
        &&& forall|i: int|
            0 <= i < self.cells@.len() && #[trigger] self.cells@[i] is Some ==> is_lower(
                self.cells@[i]->Some_0,
            )
    }

    /// Row of position `i`.
    pub open spec fn row(self, i: int) -> int {
        i / (self.width as int)
    }

    /// Column of position `i`.
    pub open spec fn col(self, i: int) -> int {
        i % (self.width as int)
    }

    /// Position `i` is on the board and not a hole.
    pub open spec fn open_at(self, i: int) -> bool {
        0 <= i < self.cells@.len() && !self.holes@[i]
    }

    /// Two different positions whose cells touch, diagonals included.
    pub open spec fn touches(self, a: int, b: int) -> bool {
        a != b && -1 <= self.row(a) - self.row(b) <= 1 && -1 <= self.col(a) - self.col(b) <= 1
    }

    /// A path over distinct filled cells, each touching the next.
    pub open spec fn is_trail(self, path: Seq<usize>) -> bool {
        &&& forall|k: int|
            0 <= k < path.len() ==> self.open_at(#[trigger] path[k] as int) && self.cells@[path[k] as int] is Some
        &&& path.no_duplicates()
        &&& forall|k: int| 0 <= k < path.len() - 1 ==> self.touches(#[trigger] path[k] as int, path[k + 1] as int)
    }

    /// The letters read along `path`.
    pub open spec fn trail_word(self, path: Seq<usize>) -> Seq<char> {
        Seq::new(path.len(), |k: int| self.cells@[path[k] as int]->Some_0)
    }

    /// The words of `dict` read along some trail of the board.
    pub open spec fn traced(self, dict: Set<Seq<char>>) -> Set<Seq<char>> {
        Set::new(
            |w: Seq<char>|
                dict.contains(w) && exists|path: Seq<usize>|
                    path.len() > 0 && self.is_trail(path) && #[trigger] self.trail_word(path) == w,
        )
    }

    /// Every cell but the holes holds a letter.
    pub open spec fn complete(self) -> bool {
        forall|i: int| 0 <= i < self.cells@.len() ==> #[trigger] self.holes@[i] || self.cells@[i] is Some
    }

    /// This board is `other` with (possibly) more cells filled in.
    pub open spec fn fills_in(self, other: Board) -> bool {
        &&& self.width == other.width
        &&& self.height == other.height
        &&& self.holes@ == other.holes@
        &&& self.cells@.len() == other.cells@.len()
        &&& forall|i: int|
            0 <= i < other.cells@.len() && #[trigger] other.cells@[i] is Some ==> self.cells@[i]
                == other.cells@[i]
    }
}

/// The message for a description whose length does not fit the board.
pub open spec fn size_message() -> Seq<char> {
    "width and height do not match letters length"@
}

/// The message for a description holding the character `c`.
pub open spec fn bad_char_message(c: char) -> Seq<char> {
    "invalid board character: "@.push(c)
}

impl Board {
    pub fn from_puzzle(puzzle: &Puzzle) -> (r: Result<Self, String>)
        requires
            puzzle.width * puzzle.height <= usize::MAX,
        ensures
            r is Ok <==> puzzle.width * puzzle.height == puzzle.letters@.len() && forall|i: int|
                0 <= i < puzzle.letters@.len() ==> valid_char(#[trigger] puzzle.letters@[i]),
            r matches Err(e) ==> {
                ||| puzzle.width * puzzle.height != puzzle.letters@.len() && e@ == size_message()
                ||| puzzle.width * puzzle.height == puzzle.letters@.len() && exists|i: int|
                    0 <= i < puzzle.letters@.len() && !valid_char(puzzle.letters@[i]) && (forall|j: int|
                        0 <= j < i ==> valid_char(#[trigger] puzzle.letters@[j])) && e@ == bad_char_message(
                        puzzle.letters@[i],
                    )
            },
            r matches Ok(b) ==> {
                &&& b.wf()
                &&& b.width == puzzle.width
                &&& b.height == puzzle.height
                &&& forall|i: int|
                    0 <= i < b.cells@.len() ==> (#[trigger] b.cells@[i], b.holes@[i]) == decode(
                        puzzle.letters@[i],
                    )
                &&& drop_layout(b.rendered_rows(b.height as int)) == puzzle.letters@
            },
    {
        let letters = crate::text::str_chars(puzzle.letters.as_str());
        let size = puzzle.width * puzzle.height;
        if size != letters.len() {
            return Err(String::from_str("width and height do not match letters length"));
        }

        let mut cells: Vec<Option<char>> = Vec::new();
        let mut holes: Vec<bool> = Vec::new();
        let mut i: usize = 0;
        while i < letters.len()
            invariant
                i <= letters@.len(),
                letters@ == puzzle.letters@,
                size == letters@.len(),
                size == puzzle.width * puzzle.height,
                cells@.len() == i,
                holes@.len() == i,
                forall|j: int| 0 <= j < i ==> valid_char(#[trigger] letters@[j]),
                forall|j: int| 0 <= j < i ==> (#[trigger] cells@[j], holes@[j]) == decode(letters@[j]),
            decreases letters@.len() - i,
        {
            let c = letters[i];
            if c == BLANK {
                cells.push(None);
                holes.push(false);
            } else if c == HOLE {
                cells.push(None);
                holes.push(true);
            } else if is_ascii_lowercase(c) {
                cells.push(Some(c));
                holes.push(false);
            } else {
                let mut msg = String::from_str("invalid board character: ");
                push_char(&mut msg, c);
                proof {
                    assert(0 <= i < puzzle.letters@.len() && !valid_char(puzzle.letters@[i as int]) && (
                    forall|j: int| 0 <= j < i ==> valid_char(#[trigger] puzzle.letters@[j])) && msg@
                        == bad_char_message(puzzle.letters@[i as int]));
                }
                return Err(msg);
            }
            i = i + 1;
        }

        let b = Board { width: puzzle.width, height: puzzle.height, cells, holes };
        proof {
            assert forall|j: int| 0 <= j < b.cells@.len() && #[trigger] b.holes@[j] implies b.cells@[j] is None by {
                assert((b.cells@[j], b.holes@[j]) == decode(letters@[j]));
            }
            assert forall|j: int|
                0 <= j < b.cells@.len() && #[trigger] b.cells@[j] is Some implies is_lower(
                b.cells@[j]->Some_0,
            ) by {
                assert((b.cells@[j], b.holes@[j]) == decode(letters@[j]));
                assert(valid_char(letters@[j]));
            }
            lemma_render_letters(b, letters@);
        }
        Ok(b)
    }

    /// The position of `cell`.
    pub fn idx(&self, cell: Cell) -> (i: usize)
        requires
            cell.0 < self.height,
            cell.1 < self.width,
            self.width * self.height <= usize::MAX,
        ensures
            i == cell.0 * self.width + cell.1,
            i < self.width * self.height,
            self.row(i as int) == cell.0,
            self.col(i as int) == cell.1,
    {
        proof {
            lemma_cell_index(cell.0 as int, cell.1 as int, self.width as int, self.height as int);
        }
        cell.0 * self.width + cell.1
    }

    /// The cell at position `idx`.
    pub fn cell(&self, idx: usize) -> (c: Cell)
        requires
            self.width > 0,
        ensures
            c.0 == self.row(idx as int),
            c.1 == self.col(idx as int),
    {
        Cell(idx / self.width, idx % self.width)
    }

    pub fn set(&mut self, idx: usize, c: char)
        requires
            idx < old(self).cells@.len(),
        ensures
            final(self).cells@ == old(self).cells@.update(idx as int, Some(c)),
            final(self).holes@ == old(self).holes@,
            final(self).width == old(self).width,
            final(self).height == old(self).height,
    {
        self.cells[idx] = Some(c);
    }

    pub fn clear(&mut self, idx: usize)
        requires
            idx < old(self).cells@.len(),
        ensures
            final(self).cells@ == old(self).cells@.update(idx as int, None),
            final(self).holes@ == old(self).holes@,
            final(self).width == old(self).width,
            final(self).height == old(self).height,
    {
        self.cells[idx] = None;
    }

    pub fn is_hole_idx(&self, idx: usize) -> (b: bool)
        requires
            idx < self.holes@.len(),
        ensures
            b == self.holes@[idx as int],
    {
        self.holes[idx]
    }

    pub fn is_open_idx(&self, idx: usize) -> (b: bool)
        requires
            idx < self.holes@.len(),
        ensures
            b == !self.holes@[idx as int],
    {
        !self.holes[idx]
    }

    /// Every cell but the holes holds a letter.
    pub fn is_complete(&self) -> (b: bool)
        requires
            self.holes@.len() == self.cells@.len(),
        ensures
            b == self.complete(),
    {
        let mut i: usize = 0;
        while i < self.cells.len()
            invariant
                i <= self.cells@.len(),
                self.holes@.len() == self.cells@.len(),
                forall|j: int| 0 <= j < i ==> #[trigger] self.holes@[j] || self.cells@[j] is Some,
            decreases self.cells@.len() - i,
        {
            if !(self.is_hole_idx(i) || self.cells[i].is_some()) {
                return false;
            }
            i = i + 1;
        }
        true
    }
}

/// The character that shows a cell: its letter, `HOLE` or `BLANK`.
pub open spec fn shown(cell: Option<char>, hole: bool) -> char {
    if hole {
        HOLE
    } else {
        match cell {
            Some(c) => c,
            None => BLANK,
        }
    }
}

impl Board {
    /// The first `n` cells of row `r`, each followed by a space unless it is
    /// the last of the row.
    pub open spec fn row_prefix(self, r: int, n: int) -> Seq<char>
        decreases n,
    {
        if n <= 0 {
            Seq::empty()
        } else {
            let i = r * self.width + n - 1;
            let head = self.row_prefix(r, n - 1).push(shown(self.cells@[i], self.holes@[i]));
            if n < self.width {
                head.push(' ')
            } else {
                head
            }
        }
    }

    /// The first `n` rows, one per line.
    pub open spec fn rendered_rows(self, n: int) -> Seq<char>
        decreases n,
    {
        if n <= 0 {
            Seq::empty()
        } else {
            let before = self.rendered_rows(n - 1);
            let sep = if n > 1 {
                before.push('\n')
            } else {
                before
            };
            sep + self.row_prefix(n - 1, self.width as int)
        }
    }

    /// The board as text: one line per row, cells separated by spaces.
    pub fn render(&self) -> (out: String)
        requires
            self.wf(),
        ensures
            out@ == self.rendered_rows(self.height as int),
    {
        let mut out = String::new();
        proof {
            reveal_strlit("");
        }
        let mut row: usize = 0;
        while row < self.height
            invariant
                self.wf(),
                row <= self.height,
                out@ == self.rendered_rows(row as int),
            decreases self.height - row,
        {
            if row > 0 {
                push_char(&mut out, '\n');
            }
            let ghost head = out@;
            let mut col: usize = 0;
            proof {
                assert(head + self.row_prefix(row as int, 0) =~= head);
            }
            while col < self.width
                invariant
                    self.wf(),
                    row < self.height,
                    col <= self.width,
                    out@ == head + self.row_prefix(row as int, col as int),
                decreases self.width - col,
            {
                let idx = self.idx(Cell(row, col));
                let c = if self.is_hole_idx(idx) {
                    HOLE
                } else {
                    match self.cells[idx] {
                        Some(l) => l,
                        None => BLANK,
                    }
                };
                push_char(&mut out, c);
                if col + 1 < self.width {
                    push_char(&mut out, ' ');
                }
                proof {
                    assert(idx == row * self.width + (col + 1) - 1);
                    assert(out@ =~= head + self.row_prefix(row as int, col + 1));
                }
                col = col + 1;
            }
            row = row + 1;
        }
        out
    }
}

/// `s` without its spaces and line breaks.
pub open spec fn drop_layout(s: Seq<char>) -> Seq<char>
    decreases s.len(),
{
    if s.len() == 0 {
        Seq::empty()
    } else if s.last() == ' ' || s.last() == '\n' {
        drop_layout(s.drop_last())
    } else {
        drop_layout(s.drop_last()).push(s.last())
    }
}

/// Dropping the layout of two texts one after the other drops it from each.
proof fn lemma_drop_layout_add(a: Seq<char>, b: Seq<char>)
    ensures
        drop_layout(a + b) == drop_layout(a) + drop_layout(b),
    decreases b.len(),
{
    if b.len() == 0 {
        assert(a + b =~= a);
        assert(drop_layout(a) + drop_layout(b) =~= drop_layout(a));
    } else {
        assert((a + b).drop_last() =~= a + b.drop_last());
        lemma_drop_layout_add(a, b.drop_last());
        if !(b.last() == ' ' || b.last() == '\n') {
            assert(drop_layout(a) + drop_layout(b.drop_last()).push(b.last()) =~= (drop_layout(a) + drop_layout(
                b.drop_last(),
            )).push(b.last()));
        }
    }
}

/// A description character is shown as itself.
proof fn lemma_shown_decode(c: char)
    requires
        valid_char(c),
    ensures
        shown(decode(c).0, decode(c).1) == c,
        c != ' ' && c != '\n',
{
}

impl Board {
    /// Row `r`, without its spaces, is its slice of the description.
    proof fn lemma_row_letters(self, letters: Seq<char>, r: int, n: int)
        requires
            self.wf(),
            letters.len() == self.cells@.len(),
            forall|i: int| 0 <= i < letters.len() ==> valid_char(#[trigger] letters[i]),
            forall|i: int| 0 <= i < self.cells@.len() ==> (#[trigger] self.cells@[i], self.holes@[i]) == decode(letters[i]),
            0 <= r < self.height,
            0 <= n <= self.width,
        ensures
            drop_layout(self.row_prefix(r, n)) == letters.subrange(r * self.width, r * self.width + n),
        decreases n,
    {
        let w = self.width as int;
        let h = self.height as int;
        assert(self.cells@.len() == w * h) by (nonlinear_arith)
            requires
                self.cells@.len() == self.width * self.height,
                w == self.width,
                h == self.height,
        ;
        assert(0 <= r * w && r * w + n <= w * h) by (nonlinear_arith)
            requires
                0 <= r < h,
                0 <= n <= w,
        {
            assert(r * w + w <= h * w);
        }
        if n == 0 {
            assert(letters.subrange(r * w, r * w) =~= Seq::<char>::empty());
        } else {
            self.lemma_row_letters(letters, r, n - 1);
            let i = r * w + n - 1;
            assert(0 <= i < w * h) by (nonlinear_arith)
                requires
                    0 <= r < h,
                    1 <= n <= w,
                    i == r * w + n - 1,
            {
                assert(r * w + w <= h * w);
            }
            assert(self.cells@.len() == w * h) by (nonlinear_arith)
                requires
                    self.cells@.len() == self.width * self.height,
                    w == self.width,
                    h == self.height,
            ;
            lemma_shown_decode(letters[i]);
            assert(self.cells@[i] == decode(letters[i]).0);
            assert(self.holes@[i] == decode(letters[i]).1);
            assert(shown(self.cells@[i], self.holes@[i]) == letters[i]);
            let head = self.row_prefix(r, n - 1).push(shown(self.cells@[i], self.holes@[i]));
            assert(head.drop_last() =~= self.row_prefix(r, n - 1));
            assert(head.last() == letters[i]);
            assert(drop_layout(head) == drop_layout(self.row_prefix(r, n - 1)).push(letters[i]));
            if n < w {
                assert(head.push(' ').drop_last() =~= head);
                assert(self.row_prefix(r, n) == head.push(' '));
                assert(drop_layout(head.push(' ')) == drop_layout(head));
            } else {
                assert(self.row_prefix(r, n) == head);
            }
            assert(letters.subrange(r * w, r * w + n) =~= letters.subrange(r * w, r * w + n - 1).push(letters[i]));
        }
    }

    /// The first `n` rows, without spaces and line breaks, are the first
    /// `n` rows of the description.
    proof fn lemma_rows_letters(self, letters: Seq<char>, n: int)
        requires
            self.wf(),
            letters.len() == self.cells@.len(),
            forall|i: int| 0 <= i < letters.len() ==> valid_char(#[trigger] letters[i]),
            forall|i: int| 0 <= i < self.cells@.len() ==> (#[trigger] self.cells@[i], self.holes@[i]) == decode(letters[i]),
            0 <= n <= self.height,
        ensures
            drop_layout(self.rendered_rows(n)) == letters.subrange(0, n * self.width),
        decreases n,
    {
        let w = self.width as int;
        let h = self.height as int;
        assert(self.cells@.len() == w * h) by (nonlinear_arith)
            requires
                self.cells@.len() == self.width * self.height,
                w == self.width,
                h == self.height,
        ;
        assert(0 <= n * w <= h * w) by (nonlinear_arith)
            requires
                0 <= n <= h,
                0 <= w,
        ;
        if n == 0 {
            assert(n * w == 0) by (nonlinear_arith)
                requires
                    n == 0,
            ;
            assert(letters.subrange(0, 0) =~= Seq::<char>::empty());
        } else {
            self.lemma_rows_letters(letters, n - 1);
            self.lemma_row_letters(letters, n - 1, w);
            let before = self.rendered_rows(n - 1);
            let sep = if n > 1 {
                before.push('\n')
            } else {
                before
            };
            if n > 1 {
                assert(sep.drop_last() =~= before);
            }
            lemma_drop_layout_add(sep, self.row_prefix(n - 1, w));
            assert(drop_layout(sep) == drop_layout(before));
            assert(self.rendered_rows(n) == sep + self.row_prefix(n - 1, w));
            assert((n - 1) * w + w == n * w && 0 <= (n - 1) * w && n * w <= h * w) by (nonlinear_arith)
                requires
                    1 <= n <= h,
                    0 <= w,
            ;
            assert(self.cells@.len() == w * h) by (nonlinear_arith)
                requires
                    self.cells@.len() == self.width * self.height,
                    w == self.width,
                    h == self.height,
            ;
            assert(letters.subrange(0, n * w) =~= letters.subrange(0, (n - 1) * w) + letters.subrange(
                (n - 1) * w,
                (n - 1) * w + w,
            ));
        }
    }
}

/// Rendering a board and leaving out the spaces and line breaks gives back
/// the description it was read from.
pub proof fn lemma_render_letters(b: Board, letters: Seq<char>)
    requires
        b.wf(),
        letters.len() == b.cells@.len(),
        forall|i: int| 0 <= i < letters.len() ==> valid_char(#[trigger] letters[i]),
        forall|i: int| 0 <= i < b.cells@.len() ==> (#[trigger] b.cells@[i], b.holes@[i]) == decode(letters[i]),
    ensures
        drop_layout(b.rendered_rows(b.height as int)) == letters,
{
    b.lemma_rows_letters(letters, b.height as int);
    assert(b.height * b.width == b.cells@.len()) by (nonlinear_arith)
        requires
            b.cells@.len() == b.width * b.height,
    ;
    assert(letters.subrange(0, b.height * b.width) =~= letters);
}

/// Row `r`, column `c` sits at position `r * w + c`, which reads back as that
/// row and column.
pub proof fn lemma_cell_index(r: int, c: int, w: int, h: int)
    requires
        0 <= r < h,
        0 <= c < w,
    ensures
        0 <= r * w + c < w * h,
        (r * w + c) / w == r,
        (r * w + c) % w == c,
{
    assert(0 <= r * w + c < w * h) by (nonlinear_arith)
        requires
            0 <= r < h,
            0 <= c < w,
    ;
    lemma_fundamental_div_mod_converse(r * w + c, w, r, c);
}

/// A position on a board of `w` columns and `h` rows lies in some row and
/// column of it.
pub proof fn lemma_index_cell(i: int, w: int, h: int)
    requires
        0 <= i < w * h,
        w > 0,
    ensures
        0 <= i / w < h,
        0 <= i % w < w,
        i == (i / w) * w + i % w,
{
    vstd::arithmetic::div_mod::lemma_fundamental_div_mod(i, w);
    assert(i == w * (i / w) + i % w);
    assert(0 <= i % w < w) by {
        vstd::arithmetic::div_mod::lemma_mod_bound(i, w);
    }
    assert(0 <= i / w) by {
        vstd::arithmetic::div_mod::lemma_div_pos_is_pos(i, w);
    }
    assert(i / w < h) by (nonlinear_arith)
        requires
            i == w * (i / w) + i % w,
            0 <= i % w,
            i < w * h,
            w > 0,
    ;
    assert(i == (i / w) * w + i % w) by (nonlinear_arith)
        requires
            i == w * (i / w) + i % w,
    ;
}

} // verus!

verus! {

/// Row step of neighbour direction `k`.
pub open spec fn adj_dr(k: int) -> int {
    if k <= 2 {
        1
    } else if k == 3 || k == 7 {
        0
    } else {
        -1
    }
}

/// Column step of neighbour direction `k`.
pub open spec fn adj_dc(k: int) -> int {
    if k == 0 || k == 6 || k == 7 {
        1
    } else if k == 1 || k == 5 {
        0
    } else {
        -1
    }
}

impl Board {
    /// The open position one step from `i` in direction `k`, if any.
    pub open spec fn dir_target(self, i: int, k: int) -> Option<int> {
        let nr = self.row(i) + adj_dr(k);
        let nc = self.col(i) + adj_dc(k);
        if 0 <= nr < self.height && 0 <= nc < self.width && !self.holes@[nr * self.width + nc] {
            Some(nr * self.width + nc)
        } else {
            None
        }
    }

    /// The open neighbours of `i` in the first `k` directions, in order.
    pub open spec fn neighbors_upto(self, i: int, k: nat) -> Seq<usize>
        decreases k,
    {
        if k == 0 {
            Seq::empty()
        } else {
            let p = self.neighbors_upto(i, (k - 1) as nat);
            match self.dir_target(i, k - 1) {
                Some(v) => p.push(v as usize),
                None => p,
            }
        }
    }
}

/// The steps of neighbour direction `k`.
fn adj_step(k: usize) -> (d: (i8, i8))
    requires
        k < 8,
    ensures
        d.0 == adj_dr(k as int),
        d.1 == adj_dc(k as int),
{
    if k == 0 {
        (1, 1)
    } else if k == 1 {
        (1, 0)
    } else if k == 2 {
        (1, -1)
    } else if k == 3 {
        (0, -1)
    } else if k == 4 {
        (-1, -1)
    } else if k == 5 {
        (-1, 0)
    } else if k == 6 {
        (-1, 1)
    } else {
        (0, 1)
    }
}

/// The open neighbours of `idx`, in the fixed direction order.
pub fn neighbors(board: &Board, idx: usize) -> (out: Vec<usize>)
    requires
        board.wf(),
        idx < board.cells@.len(),
    ensures
        out@ == board.neighbors_upto(idx as int, 8),
{
    proof {
        lemma_index_cell(idx as int, board.width as int, board.height as int);
    }
    let Cell(row, col) = board.cell(idx);
    let mut out: Vec<usize> = Vec::new();
    let mut k: usize = 0;
    while k < 8
        invariant
            k <= 8,
            board.wf(),
            idx < board.cells@.len(),
            row == board.row(idx as int),
            col == board.col(idx as int),
            row < board.height,
            col < board.width,
            out@ == board.neighbors_upto(idx as int, k as nat),
        decreases 8 - k,
    {
        let (dr, dc) = adj_step(k);
        let skip = (row == 0 && dr == -1) || (dr == 1 && row + 1 >= board.height) || (col == 0
            && dc == -1) || (dc == 1 && col + 1 >= board.width);
        if !skip {
            let next_row = if dr == 1 {
                row + 1
            } else if dr == -1 {
                row - 1
            } else {
                row
            };
            let next_col = if dc == 1 {
                col + 1
            } else if dc == -1 {
                col - 1
            } else {
                col
            };
            let next = board.idx(Cell(next_row, next_col));
            if board.is_open_idx(next) {
                out.push(next);
            }
        }
        k = k + 1;
    }
    out
}

/// The listed neighbours of `i` are exactly the open positions touching it.
pub proof fn lemma_neighbors(board: Board, i: int, v: int)
    requires
        board.wf(),
        0 <= i < board.cells@.len(),
    ensures
        board.neighbors_upto(i, 8).contains(v as usize) && 0 <= v <= usize::MAX <==> board.open_at(v)
            && board.touches(i, v),
        forall|k: int|
            0 <= k < board.neighbors_upto(i, 8).len() ==> board.open_at(
                #[trigger] board.neighbors_upto(i, 8)[k] as int,
            ),
{
    let w = board.width as int;
    let h = board.height as int;
    assert(w > 0) by (nonlinear_arith)
        requires
            0 <= i < w * h,
            0 <= h,
    ;
    lemma_index_cell(i, w, h);
    let r = i / w;
    let c = i % w;
    lemma_neighbors_upto(board, i, 8, v);
    if board.open_at(v) && board.touches(i, v) {
        lemma_index_cell(v, w, h);
        let dr = v / w - r;
        let dc = v % w - c;
        let j: int = if dr == 1 && dc == 1 {
            0
        } else if dr == 1 && dc == 0 {
            1
        } else if dr == 1 && dc == -1 {
            2
        } else if dr == 0 && dc == -1 {
            3
        } else if dr == -1 && dc == -1 {
            4
        } else if dr == -1 && dc == 0 {
            5
        } else if dr == -1 && dc == 1 {
            6
        } else {
            7
        };
        if dr == 0 && dc == 0 {
            assert(v == i);
        }
        assert(board.dir_target(i, j) == Some(v));
        assert(board.neighbors_upto(i, 8).contains(v as usize));
    }
    if board.neighbors_upto(i, 8).contains(v as usize) && 0 <= v <= usize::MAX {
        let j = choose|j: int| 0 <= j < 8 && board.dir_target(i, j) == Some(v);
        let nr = r + adj_dr(j);
        let nc = c + adj_dc(j);
        lemma_cell_index(nr, nc, w, h);
        assert(board.row(v) == nr && board.col(v) == nc);
    }
    assert forall|k: int|
        0 <= k < board.neighbors_upto(i, 8).len() implies board.open_at(
        #[trigger] board.neighbors_upto(i, 8)[k] as int,
    ) by {
        let x = board.neighbors_upto(i, 8)[k];
        assert(board.neighbors_upto(i, 8).contains(x));
        lemma_neighbors_upto(board, i, 8, x as int);
        let j = choose|j: int| 0 <= j < 8 && board.dir_target(i, j) == Some(x as int);
        let nr = r + adj_dr(j);
        let nc = c + adj_dc(j);
        lemma_cell_index(nr, nc, w, h);
    }
}

/// The listed neighbours of `i` are pairwise distinct.
pub proof fn lemma_neighbors_distinct(board: Board, i: int)
    requires
        board.wf(),
        0 <= i < board.cells@.len(),
    ensures
        board.neighbors_upto(i, 8).no_duplicates(),
{
    lemma_neighbors_distinct_upto(board, i, 8);
}

proof fn lemma_neighbors_distinct_upto(board: Board, i: int, k: nat)
    requires
        board.wf(),
        0 <= i < board.cells@.len(),
        k <= 8,
    ensures
        board.neighbors_upto(i, k).no_duplicates(),
    decreases k,
{
    if k > 0 {
        lemma_neighbors_distinct_upto(board, i, (k - 1) as nat);
        let p = board.neighbors_upto(i, (k - 1) as nat);
        match board.dir_target(i, k - 1) {
            Some(v) => {
                let w = board.width as int;
                let h = board.height as int;
                assert(w > 0) by (nonlinear_arith)
                    requires
                        0 <= i < w * h,
                        0 <= h,
                ;
                lemma_index_cell(i, w, h);
                let nr = board.row(i) + adj_dr(k - 1);
                let nc = board.col(i) + adj_dc(k - 1);
                lemma_cell_index(nr, nc, w, h);
                lemma_neighbors_upto(board, i, (k - 1) as nat, v);
                if p.contains(v as usize) {
                    let j = choose|j: int| 0 <= j < k - 1 && board.dir_target(i, j) == Some(v);
                    let mr = board.row(i) + adj_dr(j);
                    let mc = board.col(i) + adj_dc(j);
                    lemma_cell_index(mr, mc, w, h);
                    assert(false);
                }
                let q = p.push(v as usize);
                assert forall|a: int, b: int| 0 <= a < b < q.len() implies q[a] != q[b] by {
                    if b == q.len() - 1 {
                        assert(p[a] == q[a]);
                    } else {
                        assert(p[a] == q[a] && p[b] == q[b]);
                    }
                }
            },
            None => {},
        }
    }
}

proof fn lemma_neighbors_upto(board: Board, i: int, k: nat, x: int)
    requires
        board.wf(),
        0 <= i < board.cells@.len(),
    ensures
        board.neighbors_upto(i, k).contains(x as usize) && 0 <= x <= usize::MAX <==> exists|j: int|
            0 <= j < k && board.dir_target(i, j) == Some(x),
    decreases k,
{
    let w = board.width as int;
    let h = board.height as int;
    if k > 0 {
        lemma_neighbors_upto(board, i, (k - 1) as nat, x);
        let p = board.neighbors_upto(i, (k - 1) as nat);
        assert(w > 0) by (nonlinear_arith)
            requires
                0 <= i < w * h,
                0 <= h,
        ;
        lemma_index_cell(i, w, h);
        match board.dir_target(i, k - 1) {
            Some(v) => {
                let nr = board.row(i) + adj_dr(k - 1);
                let nc = board.col(i) + adj_dc(k - 1);
                lemma_cell_index(nr, nc, w, h);
                assert(board.neighbors_upto(i, k) == p.push(v as usize));
                let q = p.push(v as usize);
                if q.contains(x as usize) && 0 <= x <= usize::MAX {
                    let t = choose|t: int| 0 <= t < q.len() && #[trigger] q[t] == x as usize;
                    if t < p.len() {
                        assert(p[t] == x as usize);
                        assert(p.contains(x as usize));
                    }
                }
                if exists|j: int| 0 <= j < k && board.dir_target(i, j) == Some(x) {
                    let j = choose|j: int| 0 <= j < k && board.dir_target(i, j) == Some(x);
                    if j == k - 1 {
                        assert(p.push(v as usize)[p.len() as int] == x as usize);
                    } else {
                        let t = choose|t: int| 0 <= t < p.len() && p[t] == x as usize;
                        assert(p.push(v as usize)[t] == x as usize);
                    }
                }
            },
            None => {},
        }
    }
}

} // verus!
