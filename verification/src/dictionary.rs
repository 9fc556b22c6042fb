//! The playable dictionary: one word per line of a text.
use vstd::prelude::*;

use crate::text::push_char;
use crate::words::{all_lower, views, Trie};

verus! {

/// The pieces of `s` between `\n` characters (one more piece than there are
/// `\n`s; pieces may be empty).
pub open spec fn newline_pieces(s: Seq<char>) -> Seq<Seq<char>>
    decreases s.len(),
{
    if s.len() == 0 {
        seq![Seq::empty()]
    } else {
        let p = newline_pieces(s.drop_last());
        if s.last() == '\n' {
            p.push(Seq::empty())
        } else {
            p.update(p.len() - 1, p.last().push(s.last()))
        }
    }
}

/// `s` without one trailing `\r`.
pub open spec fn strip_cr(s: Seq<char>) -> Seq<char> {
    if s.len() > 0 && s.last() == '\r' {
        s.drop_last()
    } else {
        s
    }
}

/// The lines of `s`: the pieces between `\n`s, a `\r` just before each `\n`
/// dropped, and no empty line after a final `\n`.
pub open spec fn lines_of(s: Seq<char>) -> Seq<Seq<char>> {
    let p = newline_pieces(s);
    let body = Seq::new((p.len() - 1) as nat, |i: int| strip_cr(p[i]));
    if p.last().len() == 0 {
        body
    } else {
        body.push(p.last())
    }
}

proof fn lemma_pieces_nonempty(s: Seq<char>)
    ensures
        newline_pieces(s).len() >= 1,
    decreases s.len(),
{
    if s.len() > 0 {
        lemma_pieces_nonempty(s.drop_last());
    }
}

/// A text with no `\n` is a single piece.
proof fn lemma_pieces_single(s: Seq<char>)
    requires
        !s.contains('\n'),
    ensures
        newline_pieces(s) == seq![s],
    decreases s.len(),
{
    if s.len() > 0 {
        assert(!s.drop_last().contains('\n')) by {
            if s.drop_last().contains('\n') {
                let i = choose|i: int| 0 <= i < s.drop_last().len() && s.drop_last()[i] == '\n';
                assert(s[i] == '\n');
            }
        }
        lemma_pieces_single(s.drop_last());
        assert(s.last() != '\n') by {
            assert(s[s.len() - 1] == s.last());
        }
        assert(s.drop_last().push(s.last()) =~= s);
        assert(seq![s.drop_last()].update(0, s.drop_last().push(s.last())) =~= seq![s]);
    } else {
        assert(s =~= Seq::<char>::empty());
    }
}

/// The pieces of `x`, a `\n` and `y` are those of `x` followed by those of `y`.
proof fn lemma_pieces_split(x: Seq<char>, y: Seq<char>)
    ensures
        newline_pieces(x.push('\n') + y) == newline_pieces(x) + newline_pieces(y),
    decreases y.len(),
{
    if y.len() == 0 {
        assert(x.push('\n') + y =~= x.push('\n'));
        assert(x.push('\n').drop_last() =~= x);
        assert(newline_pieces(x).push(Seq::empty()) =~= newline_pieces(x) + seq![Seq::<char>::empty()]);
    } else {
        let s = x.push('\n') + y;
        assert(s.drop_last() =~= x.push('\n') + y.drop_last());
        assert(s.last() == y.last());
        lemma_pieces_split(x, y.drop_last());
        lemma_pieces_nonempty(y.drop_last());
        let px = newline_pieces(x);
        let py = newline_pieces(y.drop_last());
        if y.last() == '\n' {
            assert((px + py).push(Seq::empty()) =~= px + py.push(Seq::empty()));
        } else {
            let both = px + py;
            assert(both.last() == py.last());
            assert(both.update(both.len() - 1, both.last().push(y.last())) =~= px + py.update(
                py.len() - 1,
                py.last().push(y.last()),
            ));
        }
    }
}

/// The empty text has no lines.
pub proof fn lemma_lines_empty()
    ensures
        lines_of(Seq::empty()).len() == 0,
{
    assert(lines_of(Seq::empty()) =~= Seq::<Seq<char>>::empty());
}

/// A nonempty text with no line break is one line, kept whole (a final
/// line needs no line break, and keeps a `\r` it ends with).
pub proof fn lemma_lines_unterminated(s: Seq<char>)
    requires
        s.len() > 0,
        !s.contains('\n'),
    ensures
        lines_of(s) == seq![s],
{
    lemma_pieces_single(s);
    assert(lines_of(s) =~= seq![s]);
}

/// A text with no line break, followed by one, is one line, without a `\r`
/// just before the break.
pub proof fn lemma_lines_terminated(s: Seq<char>)
    requires
        !s.contains('\n'),
    ensures
        lines_of(s.push('\n')) == seq![strip_cr(s)],
{
    lemma_pieces_single(s);
    assert(s.push('\n').drop_last() =~= s);
    assert(lines_of(s.push('\n')) =~= seq![strip_cr(s)]);
}

/// The lines of a text that breaks after `x` are the lines up to that break
/// followed by the lines of the rest.
pub proof fn lemma_lines_split(x: Seq<char>, y: Seq<char>)
    ensures
        lines_of(x.push('\n') + y) == lines_of(x.push('\n')) + lines_of(y),
{
    lemma_pieces_split(x, y);
    lemma_pieces_split(x, Seq::empty());
    assert(x.push('\n') + Seq::<char>::empty() =~= x.push('\n'));
    lemma_pieces_nonempty(x);
    lemma_pieces_nonempty(y);
    let px = newline_pieces(x);
    let py = newline_pieces(y);
    let a = lines_of(x.push('\n'));
    let b = lines_of(y);
    assert(newline_pieces(Seq::<char>::empty()) == seq![Seq::<char>::empty()]);
    assert(a =~= Seq::new(px.len(), |i: int| strip_cr(px[i])));
    let both = px + py;
    let body = Seq::new((both.len() - 1) as nat, |i: int| strip_cr(both[i]));
    let bbody = Seq::new((py.len() - 1) as nat, |i: int| strip_cr(py[i]));
    assert(body =~= a + bbody);
    if py.last().len() == 0 {
        assert(lines_of(x.push('\n') + y) =~= a + b);
    } else {
        assert(both.last() == py.last());
        assert(body.push(both.last()) =~= a + bbody.push(py.last()));
    }
}

/// The string made of the characters of `v`, without one trailing `\r`.
fn chars_to_line(v: &Vec<char>) -> (s: String)
    ensures
        s@ == strip_cr(v@),
{
    let mut n = v.len();
    if n > 0 && v[n - 1] == '\r' {
        n = n - 1;
    }
    let mut s = String::new();
    let mut i: usize = 0;
    while i < n
        invariant
            n <= v@.len(),
            i <= n,
            s@ == v@.subrange(0, i as int),
        decreases n - i,
    {
        push_char(&mut s, v[i]);
        proof {
            assert(v@.subrange(0, i + 1) =~= v@.subrange(0, i as int).push(v@[i as int]));
        }
        i = i + 1;
    }
    proof {
        if v@.len() > 0 && v@.last() == '\r' {
            assert(v@.subrange(0, n as int) =~= v@.drop_last());
        } else {
            assert(v@.subrange(0, n as int) =~= v@);
        }
    }
    s
}

/// Splits a text into its lines (`str::lines`).
pub fn lines(text: &str) -> (out: Vec<String>)
    ensures
        views(out@) == lines_of(text@),
{
    let chars = crate::text::str_chars(text);
    let mut out: Vec<String> = Vec::new();
    let mut cur: Vec<char> = Vec::new();
    let mut i: usize = 0;
    proof {
        assert(chars@.subrange(0, 0) =~= Seq::<char>::empty());
    }
    while i < chars.len()
        invariant
            i <= chars@.len(),
            chars@ == text@,
            newline_pieces(chars@.subrange(0, i as int)).len() == out@.len() + 1,
            forall|k: int|
                0 <= k < out@.len() ==> (#[trigger] out@[k])@ == strip_cr(
                    newline_pieces(chars@.subrange(0, i as int))[k],
                ),
            cur@ == newline_pieces(chars@.subrange(0, i as int)).last(),
        decreases chars@.len() - i,
    {
        let c = chars[i];
        let ghost prev = chars@.subrange(0, i as int);
        proof {
            let next = chars@.subrange(0, i + 1);
            assert(next.drop_last() =~= prev);
            assert(next.last() == c);
            lemma_pieces_nonempty(prev);
        }
        if c == '\n' {
            let line = chars_to_line(&cur);
            out.push(line);
            cur = Vec::new();
        } else {
            cur.push(c);
        }
        i = i + 1;
    }
    let ghost pieces = newline_pieces(chars@);
    proof {
        assert(chars@.subrange(0, chars@.len() as int) =~= chars@);
    }
    if cur.len() > 0 {
        let mut last = String::new();
        let mut j: usize = 0;
        while j < cur.len()
            invariant
                j <= cur@.len(),
                last@ == cur@.subrange(0, j as int),
            decreases cur@.len() - j,
        {
            push_char(&mut last, cur[j]);
            proof {
                assert(cur@.subrange(0, j + 1) =~= cur@.subrange(0, j as int).push(cur@[j as int]));
            }
            j = j + 1;
        }
        proof {
            assert(cur@.subrange(0, cur@.len() as int) =~= cur@);
        }
        out.push(last);
    }
    proof {
        assert(views(out@) =~= lines_of(text@));
    }
    out
}

/// Builds the word list from a dictionary text holding one word per line.
pub fn get_words(dictionary: &str) -> (t: Trie)
    requires
        forall|i: int|
            0 <= i < lines_of(dictionary@).len() ==> all_lower(#[trigger] lines_of(dictionary@)[i]),
    ensures
        t@ =~= lines_of(dictionary@).to_set(),
{
    let all = lines(dictionary);
    let mut refs: Vec<&str> = Vec::new();
    let mut i: usize = 0;
    while i < all.len()
        invariant
            i <= all@.len(),
            refs@.len() == i,
            forall|k: int| 0 <= k < i ==> (#[trigger] refs@[k])@ == all@[k]@,
        decreases all@.len() - i,
    {
        refs.push(all[i].as_str());
        i = i + 1;
    }
    proof {
        assert forall|k: int| 0 <= k < refs@.len() implies all_lower(#[trigger] refs@[k]@) by {
            assert(views(all@)[k] == refs@[k]@);
        }
    }
    let t = Trie::new(refs);
    proof {
        assert forall|w: Seq<char>|
            t@.contains(w) <==> lines_of(dictionary@).to_set().contains(w) by {
            if t@.contains(w) {
                let k = choose|k: int| 0 <= k < refs@.len() && #[trigger] refs@[k]@ == w;
                assert(lines_of(dictionary@)[k] == w);
            }
            if lines_of(dictionary@).to_set().contains(w) {
                let k = choose|k: int|
                    0 <= k < lines_of(dictionary@).len() && lines_of(dictionary@)[k] == w;
                assert(refs@[k]@ == w);
            }
        }
    }
    t
}

} // verus!
