//! Orders: alphabetical order of words, and a stable sort by numeric keys.
use vstd::prelude::*;

use crate::text::str_chars;

verus! {

/// A sort key, compared field by field.
pub type Key = (usize, usize, usize);

/// `a` comes before `b` in alphabetical (code point) order.
pub open spec fn lex_less(a: Seq<char>, b: Seq<char>) -> bool
    decreases a.len(),
{
    if a.len() == 0 {
        b.len() > 0
    } else if b.len() == 0 {
        false
    } else if a[0] != b[0] {
        a[0] < b[0]
    } else {
        lex_less(a.drop_first(), b.drop_first())
    }
}

/// Whether `a` comes before `b` in alphabetical order.
pub fn str_less(a: &str, b: &str) -> (r: bool)
    ensures
        r == lex_less(a@, b@),
{
    let x = str_chars(a);
    let y = str_chars(b);
    let mut i: usize = 0;
    proof {
        assert(a@.skip(0) =~= a@);
        assert(b@.skip(0) =~= b@);
    }
    while i < x.len() && i < y.len()
        invariant
            i <= x@.len(),
            i <= y@.len(),
            x@ == a@,
            y@ == b@,
            lex_less(a@, b@) == lex_less(a@.skip(i as int), b@.skip(i as int)),
            forall|k: int| 0 <= k < i ==> x@[k] == y@[k],
        decreases x@.len() - i,
    {
        if x[i] != y[i] {
            return x[i] < y[i];
        }
        proof {
            assert(a@.skip(i as int).drop_first() =~= a@.skip(i + 1));
            assert(b@.skip(i as int).drop_first() =~= b@.skip(i + 1));
        }
        i = i + 1;
    }
    x.len() < y.len()
}

/// Key `a` is smaller than key `b`, comparing field by field.
pub open spec fn key_less(a: Key, b: Key) -> bool {
    a.0 < b.0 || (a.0 == b.0 && (a.1 < b.1 || (a.1 == b.1 && a.2 < b.2)))
}

/// Whether key `a` is smaller than key `b`.
pub fn key_lt(a: Key, b: Key) -> (r: bool)
    ensures
        r == key_less(a, b),
{
    a.0 < b.0 || (a.0 == b.0 && (a.1 < b.1 || (a.1 == b.1 && a.2 < b.2)))
}

/// Item `i` goes before item `j`: its key is smaller, or the keys are equal
/// and it came first.
pub open spec fn placed_before(keys: Seq<Key>, i: int, j: int) -> bool {
    key_less(keys[i], keys[j]) || (keys[i] == keys[j] && i < j)
}

/// `out` is `items` rearranged by `perm` (out[k] is items[perm[k]]) so that
/// keys never decrease and items with equal keys keep their order.
pub open spec fn stable_order<T>(items: Seq<T>, keys: Seq<Key>, out: Seq<T>, perm: Seq<int>) -> bool {
    &&& perm.len() == items.len()
    &&& out.len() == items.len()
    &&& forall|k: int| 0 <= k < perm.len() ==> 0 <= #[trigger] perm[k] < items.len() && out[k] == items[perm[k]]
    &&& forall|a: int, b: int| 0 <= a < b < perm.len() ==> placed_before(keys, #[trigger] perm[a], #[trigger] perm[b])
}

/// Sorts `items` by `keys` (one per item), keeping the order of items with
/// equal keys; also gives where each item came from.
pub fn stable_sort<T>(items: Vec<T>, keys: &Vec<Key>) -> (r: (Vec<T>, Ghost<Seq<int>>))
    requires
        keys@.len() == items@.len(),
    ensures
        stable_order(items@, keys@, r.0@, r.1@),
{
    let ghost orig = items@;
    let n = keys.len();
    let mut rest = items;
    let mut out: Vec<T> = Vec::new();
    let mut out_keys: Vec<Key> = Vec::new();
    let ghost mut perm: Seq<int> = Seq::empty();
    let mut i: usize = 0;
    proof {
        assert(rest@ =~= orig.subrange(0, n as int));
    }
    while i < n
        invariant
            n == keys@.len(),
            n == orig.len(),
            i <= n,
            rest@ == orig.subrange(i as int, n as int),
            out@.len() == i,
            out_keys@.len() == i,
            perm.len() == i,
            forall|k: int|
                0 <= k < i ==> 0 <= #[trigger] perm[k] < i && out@[k] == orig[perm[k]] && out_keys@[k]
                    == keys@[perm[k]],
            forall|a: int, b: int| 0 <= a < b < i ==> placed_before(keys@, #[trigger] perm[a], #[trigger] perm[b]),
        decreases n - i,
    {
        let x = rest.remove(0);
        let kx = keys[i];
        let mut p: usize = 0;
        while p < out_keys.len() && !key_lt(kx, out_keys[p])
            invariant
                p <= out_keys@.len(),
                forall|q: int| 0 <= q < p ==> !key_less(kx, #[trigger] out_keys@[q]),
            decreases out_keys@.len() - p,
        {
            p = p + 1;
        }
        let ghost old_perm = perm;
        let ghost old_out = out@;
        let ghost old_keys = out_keys@;
        out.insert(p, x);
        out_keys.insert(p, kx);
        proof {
            perm = old_perm.insert(p as int, i as int);
            assert(x == orig[i as int]) by {
                assert(rest@.len() + 1 == n - i);
            }
            assert forall|k: int| 0 <= k < i + 1 implies 0 <= #[trigger] perm[k] < i + 1 && out@[k] == orig[perm[k]]
                && out_keys@[k] == keys@[perm[k]] by {
                if k < p {
                    assert(perm[k] == old_perm[k]);
                } else if k > p {
                    assert(perm[k] == old_perm[k - 1]);
                }
            }
            assert forall|a: int, b: int| 0 <= a < b < i + 1 implies placed_before(keys@, #[trigger] perm[a], #[trigger] perm[b]) by {
                if b < p {
                    assert(perm[a] == old_perm[a] && perm[b] == old_perm[b]);
                } else if a > p {
                    assert(perm[a] == old_perm[a - 1] && perm[b] == old_perm[b - 1]);
                } else if a == p {
                    assert(perm[b] == old_perm[b - 1]);
                    assert(key_less(kx, old_keys[p as int]));
                    if b - 1 > p {
                        assert(placed_before(keys@, old_perm[p as int], old_perm[b - 1]));
                    }
                } else if b == p {
                    assert(perm[a] == old_perm[a]);
                    assert(!key_less(kx, old_keys[a]));
                } else {
                    assert(perm[a] == old_perm[a] && perm[b] == old_perm[b - 1]);
                }
            }
            assert(rest@ =~= orig.subrange(i + 1, n as int));
        }
        i = i + 1;
    }
    (out, Ghost(perm))
}


/// Every item of a stably sorted sequence shows up in the output: the output
/// position of item `v`.
pub proof fn lemma_sorted_hit<T>(items: Seq<T>, keys: Seq<Key>, out: Seq<T>, perm: Seq<int>, v: int) -> (pos: int)
    requires
        stable_order(items, keys, out, perm),
        0 <= v < items.len(),
    ensures
        0 <= pos < out.len(),
        out[pos] == items[v],
{
    let n = items.len() as int;
    assert forall|a: int, b: int| 0 <= a < n && 0 <= b < n && a != b implies perm[a] != perm[b] by {
        if a < b {
            assert(placed_before(keys, perm[a], perm[b]));
        } else {
            assert(placed_before(keys, perm[b], perm[a]));
        }
    }
    let pos = crate::solver::plan::lemma_perm_hit_pub(perm, n, v);
    pos
}

} // verus!
