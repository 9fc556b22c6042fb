//! Paths along which a word could be read, and writing a word along one.
use vstd::prelude::*;

use super::grid::{lemma_neighbors, lemma_neighbors_distinct, neighbors, Board, BLANK, HOLE};
use super::scan::marks;
use crate::text::push_char;
use crate::words::{all_lower, is_lower};
use vstd::string::StringSliceAdditionalSpecFns;

verus! {

/// Some position of `path` holds a letter other than the one `w` puts there.
pub open spec fn conflicts(cells: Seq<Option<char>>, w: Seq<char>, path: Seq<usize>) -> bool {
    exists|k: int|
        0 <= k < path.len() && (#[trigger] cells[path[k] as int]) is Some && cells[path[k] as int]
            != Some(w[k])
}

/// `path` stays on open cells, never repeats, and each position touches the
/// next.
pub open spec fn is_route(board: Board, path: Seq<usize>) -> bool {
    &&& forall|k: int| 0 <= k < path.len() ==> board.open_at(#[trigger] path[k] as int)
    &&& path.no_duplicates()
    &&& forall|k: int| 0 <= k < path.len() - 1 ==> board.touches(#[trigger] path[k] as int, path[k + 1] as int)
}

/// `path` is a route of the length of `w` that `w` can be written along.
pub open spec fn fits_word(board: Board, w: Seq<char>, path: Seq<usize>) -> bool {
    is_route(board, path) && path.len() == w.len() && !conflicts(board.cells@, w, path)
}

/// The cells after writing the letters of `w` along `path`.
pub open spec fn written(cells: Seq<Option<char>>, w: Seq<char>, path: Seq<usize>) -> Seq<Option<char>> {
    Seq::new(
        cells.len(),
        |i: int|
            if exists|k: int| 0 <= k < path.len() && path[k] == i {
                Some(w[choose|k: int| 0 <= k < path.len() && path[k] == i])
            } else {
                cells[i]
            },
    )
}

/// The cells after emptying every position of `changed`.
pub open spec fn cleared(cells: Seq<Option<char>>, changed: Seq<usize>) -> Seq<Option<char>> {
    Seq::new(cells.len(), |i: int| if changed.contains(i as usize) { None } else { cells[i] })
}

impl Board {
    /// Both boards have the same sizes, cells and holes.
    pub open spec fn same_as(self, other: Board) -> bool {
        &&& self.width == other.width
        &&& self.height == other.height
        &&& self.cells@ == other.cells@
        &&& self.holes@ == other.holes@
    }
}

/// The positions of `path` that are empty in `cells`, in path order.
pub open spec fn empty_along(cells: Seq<Option<char>>, path: Seq<usize>) -> Seq<usize> {
    path.filter(empty_in(cells))
}

/// Whether a position is empty in `cells`.
pub open spec fn empty_in(cells: Seq<Option<char>>) -> spec_fn(usize) -> bool {
    |i: usize| cells[i as int] is None
}

/// Writing a word along a path and then emptying the cells that were empty
/// before gives back the board as it was.
pub proof fn lemma_write_then_clear(cells: Seq<Option<char>>, w: Seq<char>, path: Seq<usize>)
    requires
        cells.len() <= usize::MAX,
        path.no_duplicates(),
        forall|k: int| 0 <= k < path.len() ==> #[trigger] path[k] < cells.len(),
        path.len() <= w.len(),
        !conflicts(cells, w, path),
    ensures
        cleared(written(cells, w, path), empty_along(cells, path)) == cells,
{
    let pred = empty_in(cells);
    let e = empty_along(cells, path);
    let wr = written(cells, w, path);
    let cl = cleared(wr, e);
    assert forall|i: int| 0 <= i < cells.len() implies cl[i] == cells[i] by {
        lemma_filter_contains(path, pred, i);
        if exists|k: int| 0 <= k < path.len() && path[k] == i {
            let k = choose|k: int| 0 <= k < path.len() && path[k] == i;
            if cells[i] is Some {
                assert(cells[path[k] as int] == Some(w[k]));
            }
        }
    }
    assert(cl =~= cells);
}

/// A path a word fits along can be written with that word: it avoids the
/// holes and agrees with every letter already on the board.
pub proof fn lemma_fitting_path_compatible(board: Board, w: Seq<char>, q: Seq<usize>)
    requires
        fits_word(board, w, q),
    ensures
        forall|k: int| 0 <= k < q.len() ==> !board.holes@[#[trigger] q[k] as int],
        !conflicts(board.cells@, w, q),
{
    assert forall|k: int| 0 <= k < q.len() implies !board.holes@[#[trigger] q[k] as int] by {
        assert(board.open_at(q[k] as int));
    }
}

/// Membership in a filtered sequence.
proof fn lemma_filter_contains(path: Seq<usize>, pred: spec_fn(usize) -> bool, i: int)
    ensures
        0 <= i <= usize::MAX ==> (path.filter(pred).contains(i as usize) <==> path.contains(i as usize) && pred(
            i as usize,
        )),
    decreases path.len(),
{
    reveal_with_fuel(Seq::<_>::filter, 1);
    if path.len() > 0 {
        lemma_filter_contains(path.drop_last(), pred, i);
        if 0 <= i <= usize::MAX {
            let x = i as usize;
            let sub = path.drop_last().filter(pred);
            if path.contains(x) {
                let k = choose|k: int| 0 <= k < path.len() && path[k] == x;
                if k < path.len() - 1 {
                    assert(path.drop_last()[k] == x);
                }
            }
            if path.drop_last().contains(x) {
                let k = choose|k: int| 0 <= k < path.len() - 1 && path.drop_last()[k] == x;
                assert(path[k] == x);
            }
            if pred(path.last()) {
                let f = sub.push(path.last());
                if f.contains(x) {
                    let k = choose|k: int| 0 <= k < f.len() && f[k] == x;
                    if k < sub.len() {
                        assert(sub[k] == x);
                    }
                }
                if sub.contains(x) {
                    let k = choose|k: int| 0 <= k < sub.len() && sub[k] == x;
                    assert(f[k] == x);
                }
                if x == path.last() {
                    assert(f[sub.len() as int] == x);
                    assert(path[path.len() - 1] == x);
                }
            } else {
                if x == path.last() && !path.drop_last().contains(x) {
                    assert(path[path.len() - 1] == x);
                }
            }
        }
    }
}

/// Whether `word`, read byte by byte, can be written along `path` without a
/// hole or a clash.
pub fn path_compatible(board: &Board, word: &str, path: &[usize]) -> (b: bool)
    requires
        forall|k: int| 0 <= k < path@.len() ==> #[trigger] path@[k] < board.cells@.len(),
        board.holes@.len() == board.cells@.len(),
        path@.len() <= word.spec_bytes().len(),
    ensures
        b == ((forall|k: int| 0 <= k < path@.len() ==> !board.holes@[#[trigger] path@[k] as int])
            && !conflicts(board.cells@, byte_letters(word), path@)),
{
    let w = letters_of_bytes(word);
    let mut pos: usize = 0;
    while pos < path.len()
        invariant
            pos <= path@.len(),
            w@ == byte_letters(word),
            forall|k: int| 0 <= k < path@.len() ==> #[trigger] path@[k] < board.cells@.len(),
            board.holes@.len() == board.cells@.len(),
            path@.len() <= w@.len(),
            forall|k: int| 0 <= k < pos ==> !board.holes@[#[trigger] path@[k] as int],
            forall|k: int|
                0 <= k < pos ==> !((#[trigger] board.cells@[path@[k] as int]) is Some && board.cells@[path@[k] as int]
                    != Some(byte_letters(word)[k])),
        decreases path@.len() - pos,
    {
        let idx = path[pos];
        if board.is_hole_idx(idx) {
            return false;
        }
        match board.cells[idx] {
            Some(c) => {
                if c != w[pos] {
                    proof {
                        assert(board.cells@[path@[pos as int] as int] is Some);
                    }
                    return false;
                }
            },
            None => {},
        }
        pos = pos + 1;
    }
    true
}

/// The characters that the UTF-8 bytes of `w` stand for, one per byte.
pub open spec fn byte_letters_of(w: Seq<char>) -> Seq<char> {
    vstd::utf8::encode_utf8(w).map_values(|b: u8| b as char)
}

/// The characters that the bytes of `word` stand for, one per byte.
pub open spec fn byte_letters(word: &str) -> Seq<char> {
    byte_letters_of(word@)
}

/// A word of lowercase letters has one byte per letter, standing for it.
pub proof fn lemma_lower_letters(w: Seq<char>)
    requires
        all_lower(w),
    ensures
        vstd::utf8::encode_utf8(w).len() == w.len(),
        byte_letters_of(w) == w,
{
    assert(vstd::utf8::is_ascii_chars(w)) by {
        assert forall|i: int| 0 <= i < w.len() implies '\0' <= #[trigger] w[i] <= '\u{7f}' by {
            assert(is_lower(w[i]));
        }
    }
    vstd::utf8::is_ascii_chars_encode_utf8(w);
    assert forall|i: int| 0 <= i < w.len() implies #[trigger] byte_letters_of(w)[i] == w[i] by {
        assert(is_lower(w[i]));
        let c = w[i];
        let b = c as u8;
        assert(b as char == c);
    }
    assert(byte_letters_of(w) =~= w);
}

/// A word of lowercase letters has one byte per letter, standing for it.
pub proof fn lemma_lower_bytes(word: &str)
    requires
        all_lower(word@),
    ensures
        word.spec_bytes().len() == word@.len(),
        byte_letters(word) == word@,
{
    lemma_lower_letters(word@);
}

/// A nonempty word has at least one byte.
pub proof fn lemma_bytes_nonempty(w: Seq<char>)
    requires
        w.len() > 0,
    ensures
        vstd::utf8::encode_utf8(w).len() > 0,
        byte_letters_of(w).len() > 0,
{
    reveal_with_fuel(vstd::utf8::encode_utf8, 1);
    assert(vstd::utf8::encode_scalar(w[0] as u32).len() > 0);
}

/// The characters that the bytes of `word` stand for, one per byte.
pub fn letters_of_bytes(word: &str) -> (v: Vec<char>)
    ensures
        v@ == byte_letters(word),
{
    let bytes = word.as_bytes();
    let mut v: Vec<char> = Vec::new();
    let mut i: usize = 0;
    while i < bytes.len()
        invariant
            i <= bytes@.len(),
            bytes@ == word.spec_bytes(),
            v@ == byte_letters(word).take(i as int),
        decreases bytes@.len() - i,
    {
        v.push(bytes[i] as char);
        proof {
            assert(v@ =~= byte_letters(word).take(i + 1));
        }
        i = i + 1;
    }
    proof {
        assert(byte_letters(word).take(i as int) =~= byte_letters(word));
    }
    v
}

/// Writes `word` along `path`, one byte of the word per position; on a
/// clash leaves the board as it was and returns `None`, otherwise returns the
/// positions that were empty.
pub fn assign_path(board: &mut Board, word: &str, path: &[usize]) -> (r: Option<Vec<usize>>)
    requires
        path@.len() <= word.spec_bytes().len(),
        path@.no_duplicates(),
        forall|k: int| 0 <= k < path@.len() ==> #[trigger] path@[k] < old(board).cells@.len(),
    ensures
        r is None <==> conflicts(old(board).cells@, byte_letters(word), path@),
        r is None ==> final(board).same_as(*old(board)),
        r matches Some(changed) ==> {
            &&& final(board).cells@ == written(old(board).cells@, byte_letters(word), path@)
            &&& changed@ == empty_along(old(board).cells@, path@)
            &&& forall|k: int| 0 <= k < changed@.len() ==> #[trigger] changed@[k] < final(board).cells@.len()
            &&& final(board).holes@ == old(board).holes@
            &&& final(board).width == old(board).width
            &&& final(board).height == old(board).height
            &&& old(board).wf() && all_lower(byte_letters(word)) && (forall|k: int|
                0 <= k < path@.len() ==> !old(board).holes@[#[trigger] path@[k] as int]) ==> final(board).wf()
        },
{
    let bytes = word.as_bytes();
    let ghost letters = byte_letters(word);
    let mut changed: Vec<usize> = Vec::new();
    let ghost cells0 = board.cells@;
    let mut pos: usize = 0;
    proof {
        assert(path@.subrange(0, 0) =~= Seq::<usize>::empty());
        reveal_with_fuel(Seq::<_>::filter, 1);
    }
    while pos < path.len()
        invariant
            pos <= path@.len(),
            bytes@ == word.spec_bytes(),
            letters == byte_letters(word),
            old(board).wf() && all_lower(letters) && (forall|k: int|
                0 <= k < path@.len() ==> !old(board).holes@[#[trigger] path@[k] as int]) ==> board.wf(),
            path@.len() <= letters.len(),
            path@.no_duplicates(),
            forall|k: int| 0 <= k < path@.len() ==> #[trigger] path@[k] < board.cells@.len(),
            board.cells@.len() == old(board).cells@.len(),
            board.holes@ == old(board).holes@,
            board.width == old(board).width,
            board.height == old(board).height,
            cells0 == old(board).cells@,
            !conflicts(cells0, letters, path@.subrange(0, pos as int)),
            board.cells@ == written(cells0, letters, path@.subrange(0, pos as int)),
            changed@ == empty_along(cells0, path@.subrange(0, pos as int)),
            forall|k: int| 0 <= k < changed@.len() ==> #[trigger] changed@[k] < board.cells@.len(),
        decreases path@.len() - pos,
    {
        let idx = path[pos];
        let c = bytes[pos] as char;
        let ghost pre = path@.subrange(0, pos as int);
        let ghost post = path@.subrange(0, pos + 1);
        proof {
            assert(post.drop_last() =~= pre);
            assert(post.last() == idx);
            assert(!pre.contains(idx)) by {
                if pre.contains(idx) {
                    let k = choose|k: int| 0 <= k < pre.len() && pre[k] == idx;
                    assert(path@[k] == path@[pos as int]);
                }
            }
            assert(board.cells@[idx as int] == cells0[idx as int]) by {
                assert(!(exists|k: int| 0 <= k < pre.len() && pre[k] == idx as int));
            }
            reveal_with_fuel(Seq::<_>::filter, 1);
        }
        match board.cells[idx] {
            Some(existing) => {
                if existing != c {
                    proof {
                        assert(pre.no_duplicates()) by {
                            assert forall|a: int, b: int| 0 <= a < b < pre.len() implies pre[a] != pre[b] by {
                                assert(pre[a] == path@[a] && pre[b] == path@[b]);
                            }
                        }
                        assert forall|k: int| 0 <= k < pre.len() implies #[trigger] pre[k] < cells0.len() by {
                            assert(pre[k] == path@[k]);
                        }
                        assert(board.cells.len() == board.cells@.len());
                        lemma_write_then_clear(cells0, letters, pre);
                    }
                    unassign_path(board, &changed);
                    proof {
                        assert(conflicts(cells0, letters, path@)) by {
                            assert(cells0[path@[pos as int] as int] is Some);
                        }
                    }
                    return None;
                }
            },
            None => {
                let ghost before = *board;
                board.set(idx, c);
                proof {
                    assert(c == letters[pos as int]);
                    if old(board).wf() && all_lower(letters) && (forall|k: int|
                        0 <= k < path@.len() ==> !old(board).holes@[#[trigger] path@[k] as int]) {
                        assert(!board.holes@[path@[pos as int] as int]);
                        assert forall|i: int| 0 <= i < board.cells@.len() && #[trigger] board.holes@[i] implies board.cells@[i] is None by {
                            if i != idx {
                                assert(board.cells@[i] == before.cells@[i]);
                            }
                        }
                        assert forall|i: int| 0 <= i < board.cells@.len() && #[trigger] board.cells@[i] is Some implies is_lower(board.cells@[i]->Some_0) by {
                            if i != idx {
                                assert(board.cells@[i] == before.cells@[i]);
                            }
                        }
                    }
                }
                changed.push(idx);
            },
        }
        proof {
            assert(!conflicts(cells0, letters, post)) by {
                if conflicts(cells0, letters, post) {
                    let k = choose|k: int|
                        0 <= k < post.len() && (#[trigger] cells0[post[k] as int]) is Some && cells0[post[k] as int]
                            != Some(letters[k]);
                    if k < pre.len() {
                        assert(pre[k] == post[k]);
                        assert(conflicts(cells0, letters, pre));
                    }
                }
            }
            assert forall|i: int| 0 <= i < board.cells@.len() implies board.cells@[i] == written(cells0, letters, post)[i] by {
                if exists|k: int| 0 <= k < post.len() && post[k] == i {
                    let k = choose|k: int| 0 <= k < post.len() && post[k] == i;
                    if k < pre.len() {
                        assert(pre[k] == i);
                        let k2 = choose|k2: int| 0 <= k2 < pre.len() && pre[k2] == i;
                        assert(path@[k2] == path@[k]);
                        assert(k2 == k);
                    } else {
                        assert(i == idx);
                        if exists|k2: int| 0 <= k2 < pre.len() && pre[k2] == i {
                            let k2 = choose|k2: int| 0 <= k2 < pre.len() && pre[k2] == i;
                            assert(path@[k2] == path@[pos as int]);
                        }
                    }
                } else {
                    assert(i != idx) by {
                        assert(post[pos as int] == idx);
                    }
                    if exists|k: int| 0 <= k < pre.len() && pre[k] == i {
                        let k = choose|k: int| 0 <= k < pre.len() && pre[k] == i;
                        assert(post[k] == i);
                    }
                }
            }
            assert(board.cells@ =~= written(cells0, letters, post));
        }
        pos = pos + 1;
    }
    proof {
        assert(path@.subrange(0, path@.len() as int) =~= path@);
    }
    Some(changed)
}

/// Empties every position of `changed`, last first.
pub fn unassign_path(board: &mut Board, changed: &[usize])
    requires
        forall|k: int| 0 <= k < changed@.len() ==> #[trigger] changed@[k] < old(board).cells@.len(),
    ensures
        final(board).cells@ == cleared(old(board).cells@, changed@),
        final(board).holes@ == old(board).holes@,
        final(board).width == old(board).width,
        final(board).height == old(board).height,
{
    let mut k: usize = changed.len();
    while k > 0
        invariant
            k <= changed@.len(),
            forall|t: int| 0 <= t < changed@.len() ==> #[trigger] changed@[t] < old(board).cells@.len(),
            board.cells@.len() == old(board).cells@.len(),
            board.holes@ == old(board).holes@,
            board.width == old(board).width,
            board.height == old(board).height,
            forall|i: int|
                0 <= i < board.cells@.len() ==> #[trigger] board.cells@[i] == if changed@.subrange(
                    k as int,
                    changed@.len() as int,
                ).contains(i as usize) {
                    None
                } else {
                    old(board).cells@[i]
                },
        decreases k,
    {
        k = k - 1;
        let ghost before = board.cells@;
        board.clear(changed[k]);
        proof {
            let s1 = changed@.subrange(k + 1, changed@.len() as int);
            let s0 = changed@.subrange(k as int, changed@.len() as int);
            assert forall|i: int| 0 <= i < board.cells@.len() implies #[trigger] board.cells@[i] == if s0.contains(i as usize) {
                None
            } else {
                old(board).cells@[i]
            } by {
                assert(board.cells.len() == board.cells@.len());
                if s0.contains(i as usize) && i != changed@[k as int] {
                    let t = choose|t: int| 0 <= t < s0.len() && s0[t] == i as usize;
                    assert(t > 0);
                    assert(s1[t - 1] == i as usize);
                }
                if s1.contains(i as usize) {
                    let t = choose|t: int| 0 <= t < s1.len() && s1[t] == i as usize;
                    assert(s0[t + 1] == i as usize);
                }
                if i == changed@[k as int] {
                    assert(s0[0] == i as usize);
                }
            }
        }
    }
    proof {
        assert(changed@.subrange(0, changed@.len() as int) =~= changed@);
        assert(board.cells@ =~= cleared(old(board).cells@, changed@));
    }
}

} // verus!

verus! {

/// `q` is a path `w` fits along that starts with `prefix`.
pub open spec fn extends_with(board: Board, w: Seq<char>, prefix: Seq<usize>, q: Seq<usize>) -> bool {
    &&& fits_word(board, w, q)
    &&& prefix.len() <= q.len()
    &&& q.subrange(0, prefix.len() as int) == prefix
}

/// The paths held in `v`, as sequences.
pub open spec fn path_views(v: Seq<Vec<usize>>) -> Seq<Seq<usize>> {
    Seq::new(v.len(), |i: int| v[i]@)
}

/// `seg` lists, once each, exactly the paths that `w` fits along and that
/// start with `prefix`.
pub open spec fn lists_completions(board: Board, w: Seq<char>, prefix: Seq<usize>, seg: Seq<Seq<usize>>) -> bool {
    &&& seg.no_duplicates()
    &&& forall|j: int| 0 <= j < seg.len() ==> extends_with(board, w, prefix, #[trigger] seg[j])
    &&& forall|q: Seq<usize>| #[trigger] extends_with(board, w, prefix, q) ==> seg.contains(q)
}

/// Every path of the board that `word`, read byte by byte, fits along, each
/// once; none for an empty word, on a board of holes only.
pub fn precompute_paths(board: &Board, word: &str) -> (out: Vec<Vec<usize>>)
    requires
        board.wf(),
        word.spec_bytes().len() > 0 || forall|i: int| 0 <= i < board.cells@.len() ==> #[trigger] board.holes@[i],
    ensures
        byte_letters(word).len() > 0 ==> lists_completions(*board, byte_letters(word), Seq::empty(), path_views(out@)),
        byte_letters(word).len() == 0 ==> out@.len() == 0,
{
    let w = letters_of_bytes(word);
    if w.len() == 0 {
        return Vec::new();
    }
    let mut out: Vec<Vec<usize>> = Vec::new();
    let mut visited: Vec<bool> = Vec::new();
    let mut i: usize = 0;
    while i < board.cells.len()
        invariant
            i <= board.cells@.len(),
            visited@.len() == i,
            forall|j: int| 0 <= j < i ==> !visited@[j],
        decreases board.cells@.len() - i,
    {
        visited.push(false);
        i = i + 1;
    }
    let mut path: Vec<usize> = Vec::new();
    let mut idx: usize = 0;
    while idx < board.cells.len()
        invariant
            board.wf(),
            w@ == byte_letters(word),
            w@.len() > 0,
            idx <= board.cells@.len(),
            path@ == Seq::<usize>::empty(),
            visited@.len() == board.cells@.len(),
            forall|j: int| 0 <= j < visited@.len() ==> !#[trigger] visited@[j],
            path_views(out@).no_duplicates(),
            forall|j: int|
                0 <= j < out@.len() ==> extends_with(*board, w@, Seq::empty(), #[trigger] path_views(out@)[j])
                    && path_views(out@)[j][0] < idx,
            forall|q: Seq<usize>|
                #[trigger] extends_with(*board, w@, Seq::empty(), q) && q[0] < idx ==> path_views(out@).contains(q),
        decreases board.cells@.len() - idx,
    {
        let ghost before = path_views(out@);
        let ghost base = out@.len();
        proof {
            assert(fits_word(*board, w@.take(0), Seq::empty())) by {
                assert(!conflicts(board.cells@, w@.take(0), Seq::empty()));
            }
            assert forall|j: int| 0 <= j < visited@.len() implies visited@[j] == Seq::<usize>::empty().contains(j as usize) by {
                assert(!visited@[j]);
            }
        }
        precompute_paths_rec(board, &w, idx, 0, &mut visited, &mut path, &mut out);
        proof {
            let all = path_views(out@);
            let seg = all.subrange(base as int, all.len() as int);
            let pre = Seq::<usize>::empty().push(idx);
            assert(all.subrange(0, base as int) == before);
            assert forall|j: int| 0 <= j < all.len() implies extends_with(*board, w@, Seq::empty(), #[trigger] all[j])
                && all[j][0] < idx + 1 by {
                if j < base {
                    assert(all[j] == before[j]);
                } else {
                    assert(all[j] == seg[j - base]);
                    assert(extends_with(*board, w@, pre, seg[j - base]));
                    assert(all[j].subrange(0, 1)[0] == all[j][0]);
                    assert(all[j].subrange(0, 0) =~= Seq::<usize>::empty());
                }
            }
            assert forall|a: int, b: int| 0 <= a < b < all.len() implies all[a] != all[b] by {
                if b < base {
                    assert(all[a] == before[a] && all[b] == before[b]);
                } else if a >= base {
                    assert(all[a] == seg[a - base] && all[b] == seg[b - base]);
                } else {
                    assert(all[a] == before[a]);
                    assert(all[b] == seg[b - base]);
                    assert(extends_with(*board, w@, pre, seg[b - base]));
                    assert(all[b].subrange(0, 1)[0] == all[b][0]);
                    assert(all[a][0] < idx);
                }
            }
            assert forall|q: Seq<usize>|
                #[trigger] extends_with(*board, w@, Seq::empty(), q) && q[0] < idx + 1 implies all.contains(q) by {
                if q[0] < idx {
                    let j = choose|j: int| 0 <= j < before.len() && before[j] == q;
                    assert(all[j] == before[j]);
                } else {
                    assert(q.subrange(0, 1) =~= pre);
                    assert(extends_with(*board, w@, pre, q));
                    let j = choose|j: int| 0 <= j < seg.len() && seg[j] == q;
                    assert(all[base + j] == seg[j]);
                }
            }
        }
        idx = idx + 1;
    }
    proof {
        let all = path_views(out@);
        assert forall|q: Seq<usize>| #[trigger] extends_with(*board, w@, Seq::empty(), q) implies all.contains(q) by {
            assert(board.open_at(q[0] as int));
        }
    }
    out
}

fn precompute_paths_rec(
    board: &Board,
    word: &Vec<char>,
    idx: usize,
    pos: usize,
    visited: &mut Vec<bool>,
    path: &mut Vec<usize>,
    out: &mut Vec<Vec<usize>>,
)
    requires
        board.wf(),
        pos < word@.len(),
        idx < board.cells@.len(),
        old(path)@.len() == pos,
        old(visited)@.len() == board.cells@.len(),
        forall|j: int| 0 <= j < old(visited)@.len() ==> #[trigger] old(visited)@[j] == old(path)@.contains(j as usize),
        fits_word(*board, word@.take(pos as int), old(path)@),
        pos > 0 ==> board.touches(old(path)@.last() as int, idx as int),
    ensures
        final(path)@ == old(path)@,
        final(visited)@ == old(visited)@,
        final(out)@.len() >= old(out)@.len(),
        path_views(final(out)@).subrange(0, old(out)@.len() as int) == path_views(old(out)@),
        lists_completions(
            *board,
            word@,
            old(path)@.push(idx),
            path_views(final(out)@).subrange(old(out)@.len() as int, final(out)@.len() as int),
        ),
    decreases word@.len() - pos,
{
    let ghost pp = path@.push(idx);
    let ghost base = out@.len();
    let ghost before = path_views(out@);
    proof {
        assert(board.cells.len() == board.cells@.len());
        assert(word.len() == word@.len());
    }
    let want = word[pos];
    let blocked = board.is_hole_idx(idx) || visited[idx] || match board.cells[idx] {
        Some(have) => have != want,
        None => false,
    };
    if blocked {
        proof {
            assert(path_views(out@).subrange(base as int, base as int) =~= Seq::<Seq<usize>>::empty());
            assert(path_views(out@).subrange(0, base as int) =~= before);
            assert forall|q: Seq<usize>| #[trigger] extends_with(*board, word@, pp, q) implies false by {
                assert(q[pos as int] == pp[pos as int]);
                assert(board.open_at(q[pos as int] as int));
                if visited@[idx as int] {
                    let k = choose|k: int| 0 <= k < path@.len() && path@[k] == idx;
                    assert(q[k] == pp[k]);
                }
                if board.cells@[idx as int] is Some && board.cells@[idx as int] != Some(word@[pos as int]) {
                    assert(conflicts(board.cells@, word@, q));
                }
            }
        }
        return;
    }
    visited.set(idx, true);
    path.push(idx);
    proof {
        assert(path@ == pp);
        assert forall|j: int| 0 <= j < visited@.len() implies #[trigger] visited@[j] == pp.contains(j as usize) by {
            if j == idx {
                assert(pp[pos as int] == idx);
            } else {
                assert(visited@[j] == old(visited)@[j]);
                if pp.contains(j as usize) {
                    let k = choose|k: int| 0 <= k < pp.len() && pp[k] == j as usize;
                    assert(old(path)@[k] == pp[k]);
                }
                if old(path)@.contains(j as usize) {
                    let k = choose|k: int| 0 <= k < old(path)@.len() && old(path)@[k] == j as usize;
                    assert(old(path)@[k] == pp[k]);
                }
            }
        }
        assert(pp.no_duplicates()) by {
            assert forall|a: int, b: int| 0 <= a < b < pp.len() implies pp[a] != pp[b] by {
                if b == pp.len() - 1 {
                    assert(old(path)@[a] == pp[a]);
                    assert(old(path)@.contains(pp[a]));
                } else {
                    assert(old(path)@[a] == pp[a] && old(path)@[b] == pp[b]);
                }
            }
        }
        assert(fits_word(*board, word@.take(pos + 1), pp)) by {
            assert forall|k: int| 0 <= k < pp.len() implies board.open_at(#[trigger] pp[k] as int) by {
                if k < pos {
                    assert(pp[k] == old(path)@[k]);
                }
            }
            assert forall|k: int| 0 <= k < pp.len() - 1 implies board.touches(#[trigger] pp[k] as int, pp[k + 1] as int) by {
                if k < pos - 1 {
                    assert(pp[k] == old(path)@[k] && pp[k + 1] == old(path)@[k + 1]);
                } else {
                    assert(pp[k] == old(path)@.last());
                }
            }
            if conflicts(board.cells@, word@.take(pos + 1), pp) {
                let k = choose|k: int|
                    0 <= k < pp.len() && (#[trigger] board.cells@[pp[k] as int]) is Some && board.cells@[pp[k] as int]
                        != Some(word@.take(pos + 1)[k]);
                if k < pos {
                    assert(pp[k] == old(path)@[k]);
                    assert(word@.take(pos + 1)[k] == word@.take(pos as int)[k]);
                    assert(conflicts(board.cells@, word@.take(pos as int), old(path)@));
                }
            }
        }
    }
    if pos + 1 == word.len() {
        let copy = path.clone();
        proof {
            assert(copy@ =~= path@);
        }
        out.push(copy);
        proof {
            let all = path_views(out@);
            let seg = all.subrange(base as int, all.len() as int);
            assert(all.subrange(0, base as int) =~= before);
            assert(seg =~= seq![pp]);
            assert(word@.take(pos + 1) =~= word@);
            assert(pp.subrange(0, pp.len() as int) =~= pp);
            assert forall|q: Seq<usize>| #[trigger] extends_with(*board, word@, pp, q) implies seg.contains(q) by {
                assert(q =~= pp);
                assert(seg[0] == pp);
            }
        }
    } else {
        proof {
            lemma_neighbors_distinct(*board, idx as int);
        }
        let nbrs = neighbors(board, idx);
        let ghost vis = visited@;
        let mut t: usize = 0;
        while t < nbrs.len()
            invariant
                board.wf(),
                pos + 1 < word@.len(),
                word@.len() == word.len(),
                idx < board.cells@.len(),
                path@ == pp,
                pp == old(path)@.push(idx),
                pp.len() == pos + 1,
                visited@ == vis,
                vis.len() == board.cells@.len(),
                forall|j: int| 0 <= j < vis.len() ==> #[trigger] vis[j] == pp.contains(j as usize),
                fits_word(*board, word@.take(pos + 1), pp),
                nbrs@ == board.neighbors_upto(idx as int, 8),
                nbrs@.no_duplicates(),
                t <= nbrs@.len(),
                out@.len() >= base,
                path_views(out@).subrange(0, base as int) == before,
                path_views(out@).subrange(base as int, out@.len() as int).no_duplicates(),
                forall|j: int|
                    base <= j < out@.len() ==> extends_with(*board, word@, pp, #[trigger] path_views(out@)[j])
                        && nbrs@.subrange(0, t as int).contains(path_views(out@)[j][pos + 1]),
                forall|q: Seq<usize>|
                    #[trigger] extends_with(*board, word@, pp, q) && nbrs@.subrange(0, t as int).contains(q[pos + 1])
                        ==> path_views(out@).subrange(base as int, out@.len() as int).contains(q),
            decreases nbrs@.len() - t,
        {
            let next = nbrs[t];
            let ghost mid = path_views(out@);
            let ghost mid_len = out@.len();
            proof {
                lemma_neighbors(*board, idx as int, next as int);
                assert(nbrs@.contains(next));
                assert(board.open_at(next as int));
                assert(pp.last() == idx);
            }
            precompute_paths_rec(board, word, next, pos + 1, visited, path, out);
            proof {
                let all = path_views(out@);
                let seg = all.subrange(mid_len as int, all.len() as int);
                let p2 = pp.push(next);
                let cur = mid.subrange(base as int, mid_len as int);
                assert(all.subrange(0, mid_len as int) == mid);
                assert(all.subrange(0, base as int) =~= before) by {
                    assert(all.subrange(0, base as int) =~= mid.subrange(0, base as int));
                }
                assert forall|j: int| base <= j < all.len() implies extends_with(*board, word@, pp, #[trigger] all[j])
                    && nbrs@.subrange(0, t + 1).contains(all[j][pos + 1]) by {
                    if j < mid_len {
                        assert(all[j] == mid[j]);
                        let m = choose|m: int| 0 <= m < t && nbrs@.subrange(0, t as int)[m] == mid[j][pos + 1];
                        assert(nbrs@.subrange(0, t + 1)[m] == mid[j][pos + 1]);
                    } else {
                        assert(all[j] == seg[j - mid_len]);
                        assert(extends_with(*board, word@, p2, seg[j - mid_len]));
                        assert(all[j].subrange(0, pos + 2)[pos + 1] == all[j][pos + 1]);
                        assert(all[j].subrange(0, pos + 1) =~= all[j].subrange(0, pos + 2).subrange(0, pos + 1));
                        assert(p2.subrange(0, pos + 1) =~= pp);
                        assert(nbrs@.subrange(0, t + 1)[t as int] == next);
                    }
                }
                let nseg = all.subrange(base as int, all.len() as int);
                assert forall|a: int, b: int| 0 <= a < b < nseg.len() implies nseg[a] != nseg[b] by {
                    let ja = a + base;
                    let jb = b + base;
                    assert(nseg[a] == all[ja] && nseg[b] == all[jb]);
                    if jb < mid_len {
                        assert(all[ja] == cur[a] && all[jb] == cur[b]);
                    } else if ja >= mid_len {
                        assert(all[ja] == seg[ja - mid_len] && all[jb] == seg[jb - mid_len]);
                    } else {
                        assert(all[ja] == mid[ja]);
                        let m = choose|m: int| 0 <= m < t && nbrs@.subrange(0, t as int)[m] == mid[ja][pos + 1];
                        assert(nbrs@[m] == all[ja][pos + 1]);
                        assert(all[jb] == seg[jb - mid_len]);
                        assert(extends_with(*board, word@, p2, seg[jb - mid_len]));
                        assert(all[jb].subrange(0, pos + 2)[pos + 1] == all[jb][pos + 1]);
                        assert(nbrs@[t as int] == next);
                    }
                }
                assert forall|q: Seq<usize>|
                    #[trigger] extends_with(*board, word@, pp, q) && nbrs@.subrange(0, t + 1).contains(q[pos + 1])
                        implies nseg.contains(q) by {
                    let s1 = nbrs@.subrange(0, t + 1);
                    let m = choose|m: int| 0 <= m < s1.len() && s1[m] == q[pos + 1];
                    if m < t {
                        assert(nbrs@.subrange(0, t as int)[m] == q[pos + 1]);
                        let j = choose|j: int| 0 <= j < cur.len() && cur[j] == q;
                        assert(nseg[j] == cur[j]);
                    } else {
                        assert(q.subrange(0, pos + 2) =~= p2) by {
                            assert(q.subrange(0, pos + 1) == pp);
                            assert forall|k: int| 0 <= k < pos + 1 implies q[k] == p2[k] by {
                                assert(q.subrange(0, pos + 1)[k] == q[k]);
                            }
                        }
                        assert(extends_with(*board, word@, p2, q));
                        let j = choose|j: int| 0 <= j < seg.len() && seg[j] == q;
                        assert(nseg[(mid_len - base) + j] == seg[j]);
                    }
                }
            }
            t = t + 1;
        }
        proof {
            let all = path_views(out@);
            let nseg = all.subrange(base as int, all.len() as int);
            assert forall|j: int| 0 <= j < nseg.len() implies extends_with(*board, word@, pp, #[trigger] nseg[j]) by {
                assert(nseg[j] == all[j + base]);
            }
            assert forall|q: Seq<usize>| #[trigger] extends_with(*board, word@, pp, q) implies nseg.contains(q) by {
                assert(q.subrange(0, pos + 1)[pos as int] == q[pos as int]);
                assert(q[pos as int] == idx);
                assert(board.touches(q[pos as int] as int, q[pos + 1] as int));
                assert(board.open_at(q[pos + 1] as int));
                lemma_neighbors(*board, idx as int, q[pos + 1] as int);
                assert(nbrs@.subrange(0, nbrs@.len() as int) =~= nbrs@);
            }
        }
    }
    path.pop();
    visited.set(idx, false);
    proof {
        assert(path@ =~= old(path)@);
        assert(visited@ =~= old(visited)@) by {
            assert(!old(path)@.contains(idx));
        }
    }
}

} // verus!
