//! Prefix tree over lowercase words.
use vstd::prelude::*;

use crate::text::{push_char, str_chars};

verus! {

/// A lowercase ASCII letter, the only characters a trie edge can carry.
pub open spec fn is_lower(c: char) -> bool {
    'a' <= c && c <= 'z'
}

/// Whether `c` is a lowercase ASCII letter.
pub fn is_ascii_lowercase(c: char) -> (b: bool)
    ensures
        b == is_lower(c),
{
    'a' <= c && c <= 'z'
}

/// Every character of `s` is a lowercase ASCII letter.
pub open spec fn all_lower(s: Seq<char>) -> bool {
    forall|i: int| 0 <= i < s.len() ==> is_lower(#[trigger] s[i])
}

/// Position of a lowercase letter in the alphabet.
pub open spec fn letter_index(c: char) -> int {
    c as int - 'a' as int
}

/// `p` is a prefix of `s`.
pub open spec fn is_prefix_of(p: Seq<char>, s: Seq<char>) -> bool {
    p.len() <= s.len() && s.subrange(0, p.len() as int) =~= p
}

/// Converts a lowercase letter to its slot among a node's children.
pub(crate) fn idx(c: char) -> (i: usize)
    requires
        is_lower(c),
    ensures
        i as int == letter_index(c),
        i < 26,
{
    ((c as u32) - ('a' as u32)) as usize
}

/// One node of the prefix tree: one optional child per letter.
pub struct TrieNode {
    pub(crate) children: Vec<Option<Box<TrieNode>>>,
    pub(crate) is_word: bool,
}

impl TrieNode {
    /// The node reached from this one by following the letters of `p`.
    pub closed spec fn node_at(self, p: Seq<char>) -> Option<TrieNode>
        decreases p.len(),
    {
        if p.len() == 0 {
            Some(self)
        } else if is_lower(p[0]) && 0 <= letter_index(p[0]) < self.children@.len() {
            match self.children@[letter_index(p[0])] {
                Some(child) => (*child).node_at(p.drop_first()),
                None => None,
            }
        } else {
            None
        }
    }

    /// A node is reached by following `p`.
    pub closed spec fn has_path(self, p: Seq<char>) -> bool {
        self.node_at(p) is Some
    }

    /// `w` is stored below this node.
    pub closed spec fn contains(self, w: Seq<char>) -> bool {
        self.node_at(w) matches Some(n) && n.is_word
    }

    /// Every reachable node has one slot per letter.
    pub closed spec fn shaped(self) -> bool {
        forall|p: Seq<char>|
            #[trigger] self.node_at(p) matches Some(n) ==> n.children@.len() == 26
    }

    /// Every reachable node but this one leads to a stored word.
    pub closed spec fn productive(self) -> bool {
        forall|p: Seq<char>|
            p.len() > 0 && #[trigger] self.has_path(p) ==> exists|w: Seq<char>|
                #[trigger] self.contains(p + w)
    }

    pub closed spec fn wf(self) -> bool {
        self.shaped() && self.productive()
    }

    /// A node with no children that ends no word.
    pub(crate) fn new() -> (n: TrieNode)
        ensures
            n.children@.len() == 26,
            forall|i: int| 0 <= i < 26 ==> n.children@[i] is None,
            !n.is_word,
    {
        let mut children: Vec<Option<Box<TrieNode>>> = Vec::new();
        let mut i: usize = 0;
        while i < 26
            invariant
                i <= 26,
                children@.len() == i,
                forall|j: int| 0 <= j < i ==> children@[j] is None,
            decreases 26 - i,
        {
            children.push(None);
            i = i + 1;
        }
        TrieNode { children, is_word: false }
    }
}

/// A fresh node reaches only itself and stores nothing.
proof fn lemma_fresh_node(n: TrieNode)
    requires
        n.children@.len() == 26,
        forall|i: int| 0 <= i < 26 ==> n.children@[i] is None,
        !n.is_word,
    ensures
        forall|p: Seq<char>| #[trigger] n.has_path(p) <==> p.len() == 0,
        forall|w: Seq<char>| !(#[trigger] n.contains(w)),
        n.shaped(),
{
    assert forall|p: Seq<char>| #[trigger] n.has_path(p) <==> p.len() == 0 by {
        if p.len() > 0 && is_lower(p[0]) {
            assert(n.children@[letter_index(p[0])] is None);
        }
    }
    assert forall|w: Seq<char>| !(#[trigger] n.contains(w)) by {
        if w.len() > 0 && is_lower(w[0]) {
            assert(n.children@[letter_index(w[0])] is None);
        }
    }
    assert forall|p: Seq<char>| #[trigger] n.node_at(p) is Some implies n.node_at(p)->Some_0.children@.len()
        == 26 by {
        if p.len() > 0 && is_lower(p[0]) {
            assert(n.children@[letter_index(p[0])] is None);
        }
    }
}

/// Following `c` then `q` from a node is following `q` from its child for `c`.
proof fn lemma_node_at_cons(n: TrieNode, c: char, q: Seq<char>)
    requires
        is_lower(c),
        n.children@.len() == 26,
    ensures
        n.node_at(seq![c] + q) == (match n.children@[letter_index(c)] {
            Some(child) => (*child).node_at(q),
            None => None,
        }),
{
    let p = seq![c] + q;
    assert(p[0] == c);
    assert(p.drop_first() =~= q);
}

/// The subtree below a child of a shaped node is shaped.
proof fn lemma_child_shaped(n: TrieNode, c: char)
    requires
        is_lower(c),
        n.shaped(),
        n.children@.len() == 26,
        n.children@[letter_index(c)] is Some,
    ensures
        (*n.children@[letter_index(c)]->Some_0).shaped(),
{
    let child = *n.children@[letter_index(c)]->Some_0;
    assert forall|q: Seq<char>| #[trigger] child.node_at(q) is Some implies child.node_at(q)->Some_0.children@.len()
        == 26 by {
        lemma_node_at_cons(n, c, q);
        assert(n.node_at(seq![c] + q) == child.node_at(q));
    }
}

impl TrieNode {
    /// Stores the suffix `word[i..]` below this node.
    fn insert(&mut self, word: &Vec<char>, i: usize)
        requires
            i <= word@.len(),
            all_lower(word@),
            old(self).shaped(),
        ensures
            final(self).shaped(),
            forall|p: Seq<char>| #[trigger]
                final(self).has_path(p) <==> old(self).has_path(p) || is_prefix_of(
                    p,
                    word@.skip(i as int),
                ),
            forall|w: Seq<char>| #[trigger]
                final(self).contains(w) <==> old(self).contains(w) || w =~= word@.skip(i as int),
        decreases word@.len() - i,
    {
        let ghost pre = *self;
        assert(pre.node_at(Seq::empty()) == Some(pre));
        if i == word.len() {
            self.is_word = true;
            let ghost post = *self;
            assert(word@.skip(i as int) =~= Seq::<char>::empty());
            assert forall|p: Seq<char>| #[trigger]
                post.has_path(p) <==> pre.has_path(p) || is_prefix_of(p, word@.skip(i as int)) by {
            }
            assert forall|w: Seq<char>| #[trigger]
                post.contains(w) <==> pre.contains(w) || w =~= word@.skip(i as int) by {
            }
            assert forall|p: Seq<char>| #[trigger] post.node_at(p) is Some implies post.node_at(p)->Some_0.children@.len()
                == 26 by {
                if p.len() > 0 {
                    assert(post.node_at(p) == pre.node_at(p));
                }
            }
        } else {
            let c = word[i];
            assert(is_lower(word@[i as int]));
            let k = idx(c);
            let mut slot: Option<Box<TrieNode>> = None;
            std::mem::swap(&mut slot, &mut self.children[k]);
            let mut child: Box<TrieNode> = match slot {
                Some(b) => b,
                None => Box::new(TrieNode::new()),
            };
            let ghost before = *child;
            proof {
                if pre.children@[k as int] is Some {
                    lemma_child_shaped(pre, c);
                } else {
                    lemma_fresh_node(before);
                }
            }
            (&mut *child).insert(word, i + 1);
            let ghost after = *child;
            self.children[k] = Some(child);
            let ghost post = *self;
            let ghost s = word@.skip(i as int);
            let ghost s1 = word@.skip(i + 1);
            assert(s1 =~= s.drop_first());
            assert(s[0] == c);
            assert forall|p: Seq<char>| #[trigger]
                post.has_path(p) <==> pre.has_path(p) || is_prefix_of(p, s) by {
                if p.len() > 0 && p[0] == c {
                    let q = p.drop_first();
                    assert(p =~= seq![c] + q);
                    lemma_node_at_cons(pre, c, q);
                    lemma_node_at_cons(post, c, q);
                    assert(post.node_at(p) == after.node_at(q));
                    assert(after.has_path(q) <==> before.has_path(q) || is_prefix_of(q, s1));
                    assert(before.has_path(q) || pre.children@[k as int] is Some ==> (
                    before.has_path(q) <==> (q.len() == 0 || pre.has_path(p))));
                    assert(is_prefix_of(p, s) <==> is_prefix_of(q, s1)) by {
                        if is_prefix_of(q, s1) {
                            assert(s.subrange(0, p.len() as int) =~= seq![c] + s1.subrange(
                                0,
                                q.len() as int,
                            ));
                        }
                        if is_prefix_of(p, s) {
                            assert(s1.subrange(0, q.len() as int) =~= s.subrange(
                                0,
                                p.len() as int,
                            ).drop_first());
                        }
                    }
                    if pre.children@[k as int] is Some {
                        assert(pre.node_at(p) == before.node_at(q));
                    } else {
                        assert(pre.node_at(p) is None);
                    }
                } else if p.len() > 0 {
                    if is_lower(p[0]) {
                        assert(post.children@[letter_index(p[0])] == pre.children@[letter_index(
                            p[0],
                        )]);
                    }
                    assert(!is_prefix_of(p, s)) by {
                        if is_prefix_of(p, s) {
                            assert(s.subrange(0, p.len() as int)[0] == p[0]);
                        }
                    }
                }
            }
            assert forall|w: Seq<char>| #[trigger]
                post.contains(w) <==> pre.contains(w) || w =~= s by {
                if w.len() > 0 && w[0] == c {
                    let q = w.drop_first();
                    assert(w =~= seq![c] + q);
                    lemma_node_at_cons(pre, c, q);
                    lemma_node_at_cons(post, c, q);
                    assert(post.node_at(w) == after.node_at(q));
                    assert(after.contains(q) <==> before.contains(q) || q =~= s1);
                    assert(w =~= s <==> q =~= s1) by {
                        if q =~= s1 {
                            assert(w =~= seq![c] + s1);
                            assert(s =~= seq![c] + s1);
                        }
                    }
                    if pre.children@[k as int] is Some {
                        assert(pre.node_at(w) == before.node_at(q));
                    } else {
                        assert(pre.node_at(w) is None);
                    }
                } else if w.len() > 0 {
                    if is_lower(w[0]) {
                        assert(post.children@[letter_index(w[0])] == pre.children@[letter_index(
                            w[0],
                        )]);
                    }
                    assert(!(w =~= s)) by {
                        if w =~= s {
                            assert(w[0] == s[0]);
                        }
                    }
                } else {
                    assert(!(w =~= s)) by {
                        if w =~= s {
                            assert(w.len() == s.len());
                        }
                    }
                }
            }
            assert forall|p: Seq<char>| #[trigger] post.node_at(p) is Some implies post.node_at(p)->Some_0.children@.len()
                == 26 by {
                if p.len() > 0 && p[0] == c {
                    let q = p.drop_first();
                    assert(p =~= seq![c] + q);
                    lemma_node_at_cons(post, c, q);
                    assert(after.node_at(q) is Some);
                } else if p.len() > 0 && is_lower(p[0]) {
                    assert(post.children@[letter_index(p[0])] == pre.children@[letter_index(p[0])]);
                    assert(post.node_at(p) == pre.node_at(p));
                }
            }
        }
    }
}

} // verus!

verus! {

/// `a` is listed before `b`: at the first place where they differ `a` has the
/// smaller letter, or `b` stops there (a word is listed after its extensions).
pub open spec fn listed_before(a: Seq<char>, b: Seq<char>) -> bool {
    exists|k: int|
        0 <= k <= a.len() && k <= b.len() && #[trigger] a.subrange(0, k) =~= b.subrange(0, k) && (
        (k < a.len() && k < b.len() && a[k] < b[k]) || (k == b.len() && k < a.len()))
}

/// The strings of `v`, each read as its characters.
pub open spec fn views(v: Seq<String>) -> Seq<Seq<char>> {
    v.map_values(|s: String| s@)
}

/// Each string of `v` is listed before every later one.
pub open spec fn listed_in_order(v: Seq<Seq<char>>) -> bool {
    forall|i: int, j: int| 0 <= i < j < v.len() ==> listed_before(#[trigger] v[i], #[trigger] v[j])
}

/// Following `q` then `r` is following `q + r`.
proof fn lemma_node_at_append(n: TrieNode, q: Seq<char>, r: Seq<char>)
    ensures
        n.node_at(q + r) == (match n.node_at(q) {
            Some(m) => m.node_at(r),
            None => None,
        }),
    decreases q.len(),
{
    if q.len() > 0 {
        assert((q + r)[0] == q[0]);
        assert((q + r).drop_first() =~= q.drop_first() + r);
        if is_lower(q[0]) && 0 <= letter_index(q[0]) < n.children@.len() {
            match n.children@[letter_index(q[0])] {
                Some(child) => {
                    lemma_node_at_append(*child, q.drop_first(), r);
                },
                None => {},
            }
        }
    } else {
        assert(q + r =~= r);
    }
}

/// In a well formed node, a path is reached exactly when some stored word
/// continues it.
proof fn lemma_path_iff_stored_extension(n: TrieNode, q: Seq<char>)
    requires
        n.wf(),
    ensures
        n.has_path(q) <==> (q.len() == 0 || exists|w: Seq<char>|
            n.contains(w) && is_prefix_of(q, w)),
{
    if q.len() > 0 && n.has_path(q) {
        let w = choose|w: Seq<char>| #[trigger] n.contains(q + w);
        assert(n.contains(q + w));
        assert((q + w).subrange(0, q.len() as int) =~= q);
    }
    if q.len() > 0 && exists|w: Seq<char>| n.contains(w) && is_prefix_of(q, w) {
        let w = choose|w: Seq<char>| n.contains(w) && is_prefix_of(q, w);
        let r = w.subrange(q.len() as int, w.len() as int);
        assert(q + r =~= w);
        lemma_node_at_append(n, q, r);
    }
    if q.len() == 0 {
        assert(n.node_at(q) == Some(n));
    }
}

/// Insertion keeps every reachable node leading to a stored word.
proof fn lemma_insert_keeps_productive(
    pre: TrieNode,
    post: TrieNode,
    s: Seq<char>,
)
    requires
        pre.productive(),
        forall|p: Seq<char>| #[trigger]
            post.has_path(p) <==> pre.has_path(p) || is_prefix_of(p, s),
        forall|w: Seq<char>| #[trigger] post.contains(w) <==> pre.contains(w) || w =~= s,
    ensures
        post.productive(),
{
    assert forall|p: Seq<char>| p.len() > 0 && #[trigger] post.has_path(p) implies exists|
        w: Seq<char>,
    | #[trigger] post.contains(p + w) by {
        if pre.has_path(p) {
            let w = choose|w: Seq<char>| #[trigger] pre.contains(p + w);
            assert(post.contains(p + w));
        } else {
            let w = s.subrange(p.len() as int, s.len() as int);
            assert(p + w =~= s);
            assert(post.contains(p + w));
        }
    }
}

/// Putting the same letter in front of two strings keeps their order.
proof fn lemma_listed_before_cons(c: char, a: Seq<char>, b: Seq<char>)
    requires
        listed_before(a, b),
    ensures
        listed_before(seq![c] + a, seq![c] + b),
{
    let k = choose|k: int|
        0 <= k <= a.len() && k <= b.len() && #[trigger] a.subrange(0, k) =~= b.subrange(0, k) && (
        (k < a.len() && k < b.len() && a[k] < b[k]) || (k == b.len() && k < a.len()));
    let ca = seq![c] + a;
    let cb = seq![c] + b;
    assert(ca.subrange(0, k + 1) =~= seq![c] + a.subrange(0, k));
    assert(cb.subrange(0, k + 1) =~= seq![c] + b.subrange(0, k));
    assert(ca.subrange(0, k + 1) =~= cb.subrange(0, k + 1));
}

/// Strings starting with different letters are listed by those letters.
proof fn lemma_listed_before_first(a: Seq<char>, b: Seq<char>)
    requires
        a.len() > 0,
        b.len() > 0,
        a[0] < b[0],
    ensures
        listed_before(a, b),
{
    assert(a.subrange(0, 0) =~= b.subrange(0, 0));
}

/// Every nonempty string is listed before the empty one.
proof fn lemma_listed_before_empty(a: Seq<char>)
    requires
        a.len() > 0,
    ensures
        listed_before(a, Seq::empty()),
{
    assert(a.subrange(0, 0) =~= Seq::<char>::empty().subrange(0, 0));
}

/// The string made of `c` followed by `word`.
fn prepend(c: char, word: &String) -> (s: String)
    ensures
        s@ == seq![c] + word@,
{
    let mut s = String::new();
    push_char(&mut s, c);
    s.append(word.as_str());
    s
}

/// The lowercase letter in slot `n` of a node.
pub(crate) fn letter(n: usize) -> (c: char)
    requires
        n < 26,
    ensures
        is_lower(c),
        letter_index(c) == n,
{
    ((n as u8) + 97u8) as char
}

impl TrieNode {
    /// All words stored below this node, each listed before the next.
    fn return_words(&self) -> (out: Vec<String>)
        requires
            self.shaped(),
        ensures
            listed_in_order(views(out@)),
            forall|x: Seq<char>| #[trigger] views(out@).contains(x) <==> self.contains(x),
        decreases self,
    {
        let mut out: Vec<String> = Vec::new();
        assert(self.node_at(Seq::empty()) == Some(*self));
        let mut n: usize = 0;
        while n < 26
            invariant
                n <= 26,
                self.shaped(),
                self.children@.len() == 26,
                listed_in_order(views(out@)),
                forall|i: int|
                    0 <= i < out@.len() ==> (#[trigger] out@[i])@.len() > 0 && letter_index(
                        out@[i]@[0],
                    ) < n,
                forall|x: Seq<char>|
                    #[trigger] views(out@).contains(x) <==> x.len() > 0 && letter_index(x[0]) < n
                        && self.contains(x),
            decreases 26 - n,
        {
            if let Some(next) = &self.children[n] {
                let c = letter(n);
                proof {
                    lemma_child_shaped(*self, c);
                }
                let sub = next.return_words();
                let ghost out0 = out@;
                let mut j: usize = 0;
                while j < sub.len()
                    invariant
                        j <= sub@.len(),
                        n < 26,
                        is_lower(c),
                        letter_index(c) == n,
                        self.children@.len() == 26,
                        self.children@[n as int] is Some,
                        **next == *self.children@[n as int]->Some_0,
                        listed_in_order(views(sub@)),
                        forall|x: Seq<char>| #[trigger] views(sub@).contains(x) <==> (**next).contains(x),
                        forall|i: int|
                            0 <= i < out0.len() ==> (#[trigger] out0[i])@.len() > 0 && letter_index(
                                out0[i]@[0],
                            ) < n,
                        listed_in_order(views(out0)),
                        out@.len() == out0.len() + j,
                        forall|i: int| 0 <= i < out0.len() ==> #[trigger] out@[i] == out0[i],
                        forall|i: int|
                            out0.len() <= i < out@.len() ==> (#[trigger] out@[i])@ == seq![c]
                                + sub@[i - out0.len()]@,
                        listed_in_order(views(out@)),
                    decreases sub@.len() - j,
                {
                    let word = prepend(c, &sub[j]);
                    let ghost before = out@;
                    out.push(word);
                    proof {
                        assert forall|a: int, b: int|
                            0 <= a < b < out@.len() implies listed_before(
                            #[trigger] views(out@)[a],
                            #[trigger] views(out@)[b],
                        ) by {
                            if b < before.len() {
                                assert(views(before)[a] == views(out@)[a]);
                                assert(views(before)[b] == views(out@)[b]);
                            } else if a < out0.len() {
                                assert(views(out@)[a] == out0[a]@);
                                assert(views(out@)[b] == seq![c] + sub@[j as int]@);
                                lemma_listed_before_first(views(out@)[a], views(out@)[b]);
                            } else {
                                let ia = a - out0.len();
                                assert(views(out@)[a] == seq![c] + sub@[ia]@);
                                assert(views(out@)[b] == seq![c] + sub@[j as int]@);
                                assert(listed_before(views(sub@)[ia], views(sub@)[j as int]));
                                lemma_listed_before_cons(c, sub@[ia]@, sub@[j as int]@);
                            }
                        }
                    }
                    j = j + 1;
                }
                proof {
                    assert forall|i: int|
                        0 <= i < out@.len() implies (#[trigger] out@[i])@.len() > 0 && letter_index(
                        out@[i]@[0],
                    ) < n + 1 by {
                        if i >= out0.len() {
                            assert(out@[i]@ == seq![c] + sub@[i - out0.len()]@);
                        }
                    }
                    assert forall|x: Seq<char>|
                        #[trigger] views(out@).contains(x) <==> x.len() > 0 && letter_index(x[0]) < n + 1
                            && self.contains(x) by {
                        if views(out@).contains(x) {
                            let i = choose|i: int| 0 <= i < views(out@).len() && views(out@)[i] == x;
                            if i >= out0.len() {
                                let r = sub@[i - out0.len()]@;
                                assert(x == seq![c] + r);
                                assert(views(sub@)[i - out0.len()] == r);
                                assert(views(sub@).contains(r));
                                assert((**next).contains(r));
                                lemma_node_at_cons(*self, c, r);
                            } else {
                                assert(views(out0)[i] == x);
                                assert(views(out0).contains(x));
                            }
                        }
                        if x.len() > 0 && letter_index(x[0]) < n + 1 && self.contains(x) {
                            if letter_index(x[0]) == n {
                                let r = x.drop_first();
                                assert(x[0] == c);
                                assert(x =~= seq![c] + r);
                                lemma_node_at_cons(*self, c, r);
                                assert((**next).contains(r));
                                assert(views(sub@).contains(r));
                                let i = choose|i: int| 0 <= i < views(sub@).len() && views(sub@)[i] == r;
                                assert(views(out@)[out0.len() + i] == x);
                            } else {
                                assert(views(out0).contains(x));
                                let i = choose|i: int| 0 <= i < views(out0).len() && views(out0)[i] == x;
                                assert(views(out@)[i] == x);
                            }
                        }
                    }
                }
            } else {
                proof {
                    assert forall|x: Seq<char>|
                        #[trigger] views(out@).contains(x) <==> x.len() > 0 && letter_index(x[0]) < n + 1
                            && self.contains(x) by {
                        if x.len() > 0 && letter_index(x[0]) == n && is_lower(x[0]) {
                            assert(self.node_at(x) is None);
                        }
                    }
                }
            }
            n = n + 1;
        }
        if self.is_word {
            let ghost before = out@;
            out.push(String::new());
            proof {
                assert forall|a: int, b: int|
                    0 <= a < b < out@.len() implies listed_before(
                    #[trigger] views(out@)[a],
                    #[trigger] views(out@)[b],
                ) by {
                    if b < before.len() {
                        assert(views(before)[a] == views(out@)[a]);
                        assert(views(before)[b] == views(out@)[b]);
                    } else {
                        assert(views(out@)[b] =~= Seq::<char>::empty());
                        assert(views(out@)[a] == before[a]@);
                        lemma_listed_before_empty(views(out@)[a]);
                    }
                }
                assert forall|x: Seq<char>| #[trigger] views(out@).contains(x) <==> self.contains(x) by {
                    if x.len() == 0 {
                        assert(self.node_at(x) == Some(*self));
                        assert(views(out@)[before.len() as int] =~= x);
                    } else if views(out@).contains(x) {
                        let i = choose|i: int| 0 <= i < views(out@).len() && views(out@)[i] == x;
                        assert(i < before.len());
                        assert(views(before)[i] == x);
                        assert(views(before).contains(x));
                    } else if self.contains(x) {
                        if !is_lower(x[0]) {
                            assert(self.node_at(x) is None);
                        } else {
                            assert(views(before).contains(x));
                            let i = choose|i: int| 0 <= i < views(before).len() && views(before)[i] == x;
                            assert(views(out@)[i] == x);
                        }
                    }
                }
            }
        } else {
            proof {
                assert forall|x: Seq<char>| #[trigger] views(out@).contains(x) <==> self.contains(x) by {
                    if x.len() == 0 {
                        assert(self.node_at(x) == Some(*self));
                        if views(out@).contains(x) {
                            let i = choose|i: int| 0 <= i < views(out@).len() && views(out@)[i] == x;
                            assert(out@[i]@.len() > 0);
                        }
                    } else if self.contains(x) && !is_lower(x[0]) {
                        assert(self.node_at(x) is None);
                    }
                }
            }
        }
        out
    }
}

/// Putting the same string in front of two strings keeps their order.
proof fn lemma_listed_before_prepend(p: Seq<char>, a: Seq<char>, b: Seq<char>)
    requires
        listed_before(a, b),
    ensures
        listed_before(p + a, p + b),
{
    let k = choose|k: int|
        0 <= k <= a.len() && k <= b.len() && #[trigger] a.subrange(0, k) =~= b.subrange(0, k) && (
        (k < a.len() && k < b.len() && a[k] < b[k]) || (k == b.len() && k < a.len()));
    let pa = p + a;
    let pb = p + b;
    let kk = p.len() + k;
    assert(pa.subrange(0, kk) =~= p + a.subrange(0, k));
    assert(pb.subrange(0, kk) =~= p + b.subrange(0, k));
    assert(pa.subrange(0, kk) =~= pb.subrange(0, kk));
    if k < a.len() {
        assert(pa[kk] == a[k]);
    }
    if k < b.len() {
        assert(pb[kk] == b[k]);
    }
}

/// Only lowercase letters lead anywhere.
proof fn lemma_node_at_lowercase(n: TrieNode, w: Seq<char>)
    requires
        n.node_at(w) is Some,
    ensures
        all_lower(w),
    decreases w.len(),
{
    if w.len() > 0 {
        match n.children@[letter_index(w[0])] {
            Some(child) => {
                lemma_node_at_lowercase(*child, w.drop_first());
                assert forall|i: int| 0 <= i < w.len() implies is_lower(#[trigger] w[i]) by {
                    if i > 0 {
                        assert(w[i] == w.drop_first()[i - 1]);
                    }
                }
            },
            None => {},
        }
    }
}

/// Prefix tree - data structure used to efficiently store many words
pub struct Trie {
    root: Box<TrieNode>,
}

impl View for Trie {
    type V = Set<Seq<char>>;

    /// The words stored in the tree.
    closed spec fn view(&self) -> Set<Seq<char>> {
        Set::new(|w: Seq<char>| self.root.contains(w))
    }
}

impl Trie {
    #[verifier::type_invariant]
    closed spec fn well_formed(self) -> bool {
        self.root.wf()
    }

    /// Some stored word starts with `q` (every string starts with the empty one).
    pub open spec fn starts_word(self, q: Seq<char>) -> bool {
        q.len() == 0 || exists|w: Seq<char>| #[trigger] self@.contains(w) && is_prefix_of(q, w)
    }

    /// Walking the letters of `p` from the root never meets a character that is
    /// not a lowercase letter while the walk can still go on.
    pub open spec fn walkable(self, p: Seq<char>) -> bool {
        forall|i: int|
            0 <= i < p.len() && !is_lower(#[trigger] p[i]) ==> !self.starts_word(p.subrange(0, i))
    }

    /// Construct a new Trie from a list of words
    pub fn new(words: Vec<&str>) -> (t: Trie)
        requires
            forall|i: int| 0 <= i < words@.len() ==> all_lower(#[trigger] words@[i]@),
        ensures
            t@ =~= Set::new(|w: Seq<char>| exists|i: int| 0 <= i < words@.len() && #[trigger] words@[i]@ == w),
    {
        let mut root = TrieNode::new();
        proof {
            lemma_fresh_node(root);
            assert forall|p: Seq<char>| p.len() > 0 && #[trigger] root.has_path(p) implies exists|
                w: Seq<char>,
            | #[trigger] root.contains(p + w) by {}
        }
        let mut j: usize = 0;
        while j < words.len()
            invariant
                j <= words@.len(),
                forall|i: int| 0 <= i < words@.len() ==> all_lower(#[trigger] words@[i]@),
                root.wf(),
                forall|w: Seq<char>| #[trigger]
                    root.contains(w) <==> exists|i: int| 0 <= i < j && #[trigger] words@[i]@ == w,
            decreases words@.len() - j,
        {
            let word = str_chars(words[j]);
            assert(all_lower(words@[j as int]@));
            let ghost pre = root;
            root.insert(&word, 0);
            proof {
                assert(word@.skip(0) =~= word@);
                lemma_insert_keeps_productive(pre, root, word@);
                assert forall|w: Seq<char>| #[trigger]
                    root.contains(w) <==> exists|i: int| 0 <= i < j + 1 && #[trigger] words@[i]@ == w by {
                    if w =~= word@ {
                        assert(words@[j as int]@ == w);
                    }
                    if exists|i: int| 0 <= i < j + 1 && #[trigger] words@[i]@ == w {
                        let i = choose|i: int| 0 <= i < j + 1 && #[trigger] words@[i]@ == w;
                        if i == j {
                            assert(w =~= word@);
                        }
                    }
                }
            }
            j = j + 1;
        }
        Trie { root: Box::new(root) }
    }

    /// The node reached from the root by the letters of `p`, if any.
    fn walk(&self, p: &Vec<char>) -> (n: Option<&TrieNode>)
        requires
            self.walkable(p@),
        ensures
            match n {
                Some(node) => self.root.node_at(p@) == Some(*node) && node.shaped(),
                None => self.root.node_at(p@) is None,
            },
    {
        proof {
            use_type_invariant(self);
        }
        let mut curr: &TrieNode = &self.root;
        let mut i: usize = 0;
        proof {
            assert(p@.subrange(0, 0) =~= Seq::<char>::empty());
        }
        while i < p.len()
            invariant
                i <= p@.len(),
                self.root.wf(),
                self.walkable(p@),
                self.root.node_at(p@.subrange(0, i as int)) == Some(*curr),
            decreases p@.len() - i,
        {
            let ghost q = p@.subrange(0, i as int);
            proof {
                lemma_path_iff_stored_extension(*self.root, q);
                if q.len() > 0 {
                    let w = choose|w: Seq<char>| self.root.contains(w) && is_prefix_of(q, w);
                    assert(self@.contains(w));
                }
                assert(self.starts_word(q));
                assert(is_lower(p@[i as int]));
                assert(self.root.node_at(q) is Some);
                lemma_node_at_append(*self.root, q, seq![p@[i as int]]);
                assert(q + seq![p@[i as int]] =~= p@.subrange(0, i + 1));
                assert((*curr).children@.len() == 26);
                lemma_node_at_cons(*curr, p@[i as int], Seq::empty());
                assert(seq![p@[i as int]] + Seq::<char>::empty() =~= seq![p@[i as int]]);
            }
            let k = idx(p[i]);
            match &curr.children[k] {
                Some(next) => {
                    curr = next;
                },
                None => {
                    proof {
                        lemma_node_at_append(*self.root, p@.subrange(0, i + 1), p@.subrange(i + 1, p@.len() as int));
                        assert(p@.subrange(0, i + 1) + p@.subrange(i + 1, p@.len() as int) =~= p@);
                    }
                    return None;
                },
            }
            i = i + 1;
        }
        proof {
            assert(p@.subrange(0, p@.len() as int) =~= p@);
            assert(self.root.node_at(p@) is Some);
            assert(self.root.node_at(p@) == Some(*curr));
            lemma_node_at_append(*self.root, p@, Seq::empty());
            assert forall|r: Seq<char>| #[trigger] (*curr).node_at(r) is Some implies (*curr).node_at(r)->Some_0.children@.len() == 26 by {
                lemma_node_at_append(*self.root, p@, r);
            }
        }
        Some(curr)
    }

    /// Are there words in the Trie starting with the given prefix?
    pub fn is_prefix(&self, prefix: &str) -> (b: bool)
        requires
            self.walkable(prefix@),
        ensures
            b == self.starts_word(prefix@),
    {
        proof {
            use_type_invariant(self);
        }
        let p = str_chars(prefix);
        let found = self.walk(&p).is_some();
        proof {
            lemma_path_iff_stored_extension(*self.root, p@);
            if found && p@.len() > 0 {
                let w = choose|w: Seq<char>| self.root.contains(w) && is_prefix_of(p@, w);
                assert(self@.contains(w));
            }
        }
        found
    }

    /// Search for all words in the Trie starting with prefix
    pub fn search(&self, prefix: &str) -> (out: Vec<String>)
        requires
            self.walkable(prefix@),
        ensures
            listed_in_order(views(out@)),
            forall|x: Seq<char>|
                #[trigger] views(out@).contains(x) <==> self@.contains(x) && is_prefix_of(prefix@, x),
    {
        proof {
            use_type_invariant(self);
        }
        let p = str_chars(prefix);
        let mut out: Vec<String> = Vec::new();
        match self.walk(&p) {
            None => {
                proof {
                    assert forall|x: Seq<char>|
                        #[trigger] views(out@).contains(x) <==> self@.contains(x) && is_prefix_of(prefix@, x) by {
                        if self@.contains(x) && is_prefix_of(prefix@, x) {
                            lemma_path_iff_stored_extension(*self.root, p@);
                            assert(self.root.contains(x));
                        }
                    }
                }
            },
            Some(node) => {
                let found = node.return_words();
                let mut j: usize = 0;
                while j < found.len()
                    invariant
                        j <= found@.len(),
                        p@ == prefix@,
                        self.root.node_at(p@) == Some(*node),
                        listed_in_order(views(found@)),
                        forall|x: Seq<char>| #[trigger] views(found@).contains(x) <==> (*node).contains(x),
                        out@.len() == j,
                        forall|i: int| 0 <= i < j ==> (#[trigger] out@[i])@ == p@ + found@[i]@,
                        listed_in_order(views(out@)),
                    decreases found@.len() - j,
                {
                    let mut word = prefix.to_owned();
                    word.append(found[j].as_str());
                    let ghost before = out@;
                    out.push(word);
                    proof {
                        assert forall|a: int, b: int|
                            0 <= a < b < out@.len() implies listed_before(
                            #[trigger] views(out@)[a],
                            #[trigger] views(out@)[b],
                        ) by {
                            if b < before.len() {
                                assert(views(before)[a] == views(out@)[a]);
                                assert(views(before)[b] == views(out@)[b]);
                            } else {
                                assert(listed_before(views(found@)[a], views(found@)[b]));
                                lemma_listed_before_prepend(p@, found@[a]@, found@[b]@);
                            }
                        }
                    }
                    j = j + 1;
                }
                proof {
                    assert forall|x: Seq<char>|
                        #[trigger] views(out@).contains(x) <==> self@.contains(x) && is_prefix_of(prefix@, x) by {
                        if views(out@).contains(x) {
                            let i = choose|i: int| 0 <= i < views(out@).len() && views(out@)[i] == x;
                            let r = found@[i]@;
                            assert(x == p@ + r);
                            assert(views(found@)[i] == r);
                            assert(views(found@).contains(r));
                            assert((*node).contains(r));
                            lemma_node_at_append(*self.root, p@, r);
                            assert(self.root.contains(x));
                            assert(x.subrange(0, p@.len() as int) =~= p@);
                        }
                        if self@.contains(x) && is_prefix_of(prefix@, x) {
                            let r = x.subrange(p@.len() as int, x.len() as int);
                            assert(p@ + r =~= x);
                            assert(self.root.contains(x));
                            lemma_node_at_append(*self.root, p@, r);
                            assert((*node).contains(r));
                            assert(views(found@).contains(r));
                            let i = choose|i: int| 0 <= i < views(found@).len() && views(found@)[i] == r;
                            assert(views(out@)[i] == x);
                        }
                    }
                }
            },
        }
        out
    }

    /// Following the letters of `p` from the root leads to `n`.
    pub closed spec fn reaches(self, p: Seq<char>, n: TrieNode) -> bool {
        self.root.node_at(p) == Some(n)
    }

    /// The node every walk starts from.
    pub fn root_node(&self) -> (n: &TrieNode)
        ensures
            self.reaches(Seq::empty(), *n),
    {
        proof {
            assert(self.root.node_at(Seq::empty()) == Some(*self.root));
        }
        &self.root
    }

    /// Goes from `node`, reached by `p`, one letter further down.
    pub fn step<'a>(&'a self, node: &'a TrieNode, c: char, Ghost(p): Ghost<Seq<char>>) -> (r: Option<
        &'a TrieNode,
    >)
        requires
            self.reaches(p, *node),
        ensures
            r matches Some(m) ==> self.reaches(p.push(c), *m),
            r is None ==> !self.starts_word(p.push(c)),
    {
        proof {
            use_type_invariant(self);
            lemma_path_iff_stored_extension(*self.root, p.push(c));
            lemma_node_at_append(*self.root, p, seq![c]);
            assert(p + seq![c] =~= p.push(c));
            assert(self.root.node_at(Seq::empty()) == Some(*self.root));
            assert(node.children@.len() == 26);
            if is_lower(c) {
                lemma_node_at_cons(*node, c, Seq::empty());
            }
            assert(seq![c] + Seq::<char>::empty() =~= seq![c]);
            if self.starts_word(p.push(c)) && p.push(c).len() > 0 {
                let w = choose|w: Seq<char>| #[trigger] self@.contains(w) && is_prefix_of(p.push(c), w);
                assert(self.root.contains(w));
            }
        }
        if !is_ascii_lowercase(c) {
            proof {
                assert(self.root.node_at(p.push(c)) is None);
            }
            return None;
        }
        match &node.children[idx(c)] {
            Some(next) => Some(next),
            None => None,
        }
    }

    /// Whether the path `p` leading to `node` spells a stored word.
    pub fn node_ends_word(&self, node: &TrieNode, Ghost(p): Ghost<Seq<char>>) -> (b: bool)
        requires
            self.reaches(p, *node),
        ensures
            b == self@.contains(p),
    {
        node.is_word
    }

    /// Every stored word is made of lowercase letters.
    pub fn lowercase_words(&self)
        ensures
            forall|w: Seq<char>| #[trigger] self@.contains(w) ==> all_lower(w),
    {
        proof {
            assert forall|w: Seq<char>| #[trigger] self@.contains(w) implies all_lower(w) by {
                lemma_node_at_lowercase(*self.root, w);
            }
        }
    }

    /// Is `word` one of the stored words?
    pub fn is_word(&self, word: &str) -> (b: bool)
        requires
            self.walkable(word@),
        ensures
            b == self@.contains(word@),
    {
        let p = str_chars(word);
        match self.walk(&p) {
            Some(node) => node.is_word,
            None => false,
        }
    }
}

} // verus!
