//! Building the playable dictionary from a raw word list and a blacklist.
use vstd::prelude::*;

use crate::board::{add_unique, all_distinct};
use crate::dictionary::{lines, lines_of};
use crate::puzzle::contains_word;
use crate::text::{append_str, lowercased, to_lower, trim, trimmed};
use crate::words::{all_lower, is_ascii_lowercase, views};

verus! {

/// The suffixes a blacklisted root is expanded with, the empty one first.
pub open spec fn suffixes() -> Seq<Seq<char>> {
    seq![""@, "s"@, "es"@, "d"@, "ed"@, "ing"@]
}

/// The simple variants of `w`: `w` itself, then `w` with each suffix.
pub open spec fn variants(w: Seq<char>) -> Seq<Seq<char>> {
    Seq::new(6, |i: int| w + suffixes()[i])
}

/// `w` followed by `suffix`.
fn with_suffix(word: &str, suffix: &str) -> (r: String)
    ensures
        r@ == word@ + suffix@,
{
    let mut s = String::new();
    proof {
        reveal_strlit("");
        assert(""@ + word@ =~= word@);
    }
    append_str(&mut s, word);
    append_str(&mut s, suffix);
    s
}

/// The simple suffix variants of `word`, such as `working` from `work`.
pub fn generate_variants(word: &str) -> (out: Vec<String>)
    ensures
        views(out@) == variants(word@),
{
    let mut out: Vec<String> = Vec::new();
    out.push(with_suffix(word, ""));
    out.push(with_suffix(word, "s"));
    out.push(with_suffix(word, "es"));
    out.push(with_suffix(word, "d"));
    out.push(with_suffix(word, "ed"));
    out.push(with_suffix(word, "ing"));
    proof {
        assert(views(out@) =~= variants(word@));
    }
    out
}

/// Some word of `base` has `v` among its variants.
pub open spec fn is_variant_of(base: Seq<Seq<char>>, v: Seq<char>) -> bool {
    exists|i: int, j: int| 0 <= i < base.len() && 0 <= j < 6 && #[trigger] variants(base[i])[j] == v
}

/// Every variant of every word of `base`, each once.
pub fn expand_blacklist(base: &Vec<String>) -> (out: Vec<String>)
    ensures
        all_distinct(views(out@)),
        forall|v: Seq<char>| #[trigger] views(out@).contains(v) <==> is_variant_of(views(base@), v),
{
    let ghost bv = views(base@);
    let mut out: Vec<String> = Vec::new();
    let mut i: usize = 0;
    while i < base.len()
        invariant
            i <= base@.len(),
            bv == views(base@),
            all_distinct(views(out@)),
            forall|v: Seq<char>|
                #[trigger] views(out@).contains(v) <==> exists|a: int, j: int|
                    0 <= a < i && 0 <= j < 6 && #[trigger] variants(bv[a])[j] == v,
        decreases base@.len() - i,
    {
        let vs = generate_variants(base[i].as_str());
        let ghost before = views(out@);
        let mut k: usize = 0;
        while k < vs.len()
            invariant
                i < base@.len(),
                bv == views(base@),
                views(vs@) == variants(bv[i as int]),
                k <= vs@.len(),
                all_distinct(views(out@)),
                forall|v: Seq<char>|
                    #[trigger] views(out@).contains(v) <==> before.contains(v) || exists|j: int|
                        0 <= j < k && #[trigger] variants(bv[i as int])[j] == v,
            decreases vs@.len() - k,
        {
            let ghost mid = views(out@);
            add_unique(&mut out, vs[k].clone());
            proof {
                assert(views(vs@)[k as int] == vs@[k as int]@);
                assert forall|v: Seq<char>|
                    #[trigger] views(out@).contains(v) <==> before.contains(v) || exists|j: int|
                        0 <= j < k + 1 && #[trigger] variants(bv[i as int])[j] == v by {
                    if exists|j: int| 0 <= j < k + 1 && #[trigger] variants(bv[i as int])[j] == v {
                        let j = choose|j: int| 0 <= j < k + 1 && #[trigger] variants(bv[i as int])[j] == v;
                        if j < k {
                            assert(mid.contains(v));
                        }
                    }
                }
            }
            k = k + 1;
        }
        proof {
            assert forall|v: Seq<char>|
                #[trigger] views(out@).contains(v) <==> exists|a: int, j: int|
                    0 <= a < i + 1 && 0 <= j < 6 && #[trigger] variants(bv[a])[j] == v by {
                if exists|a: int, j: int| 0 <= a < i + 1 && 0 <= j < 6 && #[trigger] variants(bv[a])[j] == v {
                    let (a, j) = choose|a: int, j: int| 0 <= a < i + 1 && 0 <= j < 6 && #[trigger] variants(bv[a])[j] == v;
                    if a < i {
                        assert(before.contains(v));
                    }
                }
                if before.contains(v) {
                    let (a, j) = choose|a: int, j: int| 0 <= a < i && 0 <= j < 6 && #[trigger] variants(bv[a])[j] == v;
                    assert(0 <= a < i + 1);
                }
            }
        }
        i = i + 1;
    }
    out
}

/// Every blacklisted root is itself blacklisted after the expansion.
pub proof fn lemma_expansion_keeps_roots(base: Seq<Seq<char>>, w: Seq<char>)
    requires
        base.contains(w),
    ensures
        is_variant_of(base, w),
{
    let i = choose|i: int| 0 <= i < base.len() && base[i] == w;
    assert(variants(base[i])[0] == w) by {
        assert(""@.len() == 0) by {
            reveal_strlit("");
        }
        assert(w + ""@ =~= w);
    }
}

/// No word the filter keeps is on the blacklist.
pub proof fn lemma_filtered_not_blacklisted(words: Seq<Seq<char>>, blacklist: Seq<Seq<char>>, i: int)
    requires
        0 <= i < words.filter(not_listed(blacklist)).len(),
    ensures
        !blacklist.contains(words.filter(not_listed(blacklist))[i]),
{
    words.lemma_filter_pred(not_listed(blacklist), i);
}

/// `w` takes at least `length` bytes in UTF-8.
pub open spec fn long_enough(length: usize) -> spec_fn(Seq<char>) -> bool {
    |w: Seq<char>| vstd::utf8::encode_utf8(w).len() >= length
}

/// `w` holds only lowercase ASCII letters.
pub open spec fn lowercase_only() -> spec_fn(Seq<char>) -> bool {
    |w: Seq<char>| all_lower(w)
}

/// `w` is not listed in `blacklist`.
pub open spec fn not_listed(blacklist: Seq<Seq<char>>) -> spec_fn(Seq<char>) -> bool {
    |w: Seq<char>| !blacklist.contains(w)
}

/// Keeps the words for which `keep` said yes, in order.
proof fn lemma_filter_step(ws: Seq<Seq<char>>, i: int, p: spec_fn(Seq<char>) -> bool)
    requires
        0 <= i < ws.len(),
    ensures
        ws.take(i + 1).filter(p) == if p(ws[i]) {
            ws.take(i).filter(p).push(ws[i])
        } else {
            ws.take(i).filter(p)
        },
{
    reveal_with_fuel(Seq::<_>::filter, 1);
    assert(ws.take(i + 1).drop_last() =~= ws.take(i));
}

/// The words at least `length` bytes long, in order.
pub fn remove_short_words(words: Vec<String>, length: usize) -> (out: Vec<String>)
    ensures
        views(out@) == views(words@).filter(long_enough(length)),
{
    let ghost wv = views(words@);
    let mut out: Vec<String> = Vec::new();
    let mut i: usize = 0;
    proof {
        reveal_with_fuel(Seq::<_>::filter, 1);
        assert(wv.take(0) =~= Seq::<Seq<char>>::empty());
        assert(views(out@) =~= wv.take(0).filter(long_enough(length)));
    }
    while i < words.len()
        invariant
            i <= words@.len(),
            wv == views(words@),
            views(out@) == wv.take(i as int).filter(long_enough(length)),
        decreases words@.len() - i,
    {
        proof {
            lemma_filter_step(wv, i as int, long_enough(length));
            assert(wv[i as int] == words@[i as int]@);
        }
        let ghost before = out@;
        if words[i].as_str().as_bytes().len() >= length {
            out.push(words[i].clone());
            proof {
                assert(views(out@) =~= views(before).push(wv[i as int]));
            }
        }
        i = i + 1;
    }
    proof {
        assert(wv.take(wv.len() as int) =~= wv);
    }
    out
}

/// Whether every character of `s` is a lowercase ASCII letter.
fn only_lowercase(s: &str) -> (b: bool)
    ensures
        b == all_lower(s@),
{
    let c = crate::text::str_chars(s);
    let mut i: usize = 0;
    while i < c.len()
        invariant
            c@ == s@,
            i <= c@.len(),
            forall|k: int| 0 <= k < i ==> crate::words::is_lower(#[trigger] c@[k]),
        decreases c@.len() - i,
    {
        if !is_ascii_lowercase(c[i]) {
            return false;
        }
        i = i + 1;
    }
    true
}

/// The words made only of lowercase ASCII letters, in order.
pub fn remove_non_lowercase(words: Vec<String>) -> (out: Vec<String>)
    ensures
        views(out@) == views(words@).filter(lowercase_only()),
{
    let ghost wv = views(words@);
    let mut out: Vec<String> = Vec::new();
    let mut i: usize = 0;
    proof {
        reveal_with_fuel(Seq::<_>::filter, 1);
        assert(wv.take(0) =~= Seq::<Seq<char>>::empty());
        assert(views(out@) =~= wv.take(0).filter(lowercase_only()));
    }
    while i < words.len()
        invariant
            i <= words@.len(),
            wv == views(words@),
            views(out@) == wv.take(i as int).filter(lowercase_only()),
        decreases words@.len() - i,
    {
        proof {
            lemma_filter_step(wv, i as int, lowercase_only());
            assert(wv[i as int] == words@[i as int]@);
        }
        let ghost before = out@;
        if only_lowercase(words[i].as_str()) {
            out.push(words[i].clone());
            proof {
                assert(views(out@) =~= views(before).push(wv[i as int]));
            }
        }
        i = i + 1;
    }
    proof {
        assert(wv.take(wv.len() as int) =~= wv);
    }
    out
}

/// The words not in `blacklist`, in order.
pub fn filter_words(words: Vec<String>, blacklist: &Vec<String>) -> (out: Vec<String>)
    ensures
        views(out@) == views(words@).filter(not_listed(views(blacklist@))),
{
    let ghost wv = views(words@);
    let ghost p = not_listed(views(blacklist@));
    let mut out: Vec<String> = Vec::new();
    let mut i: usize = 0;
    proof {
        reveal_with_fuel(Seq::<_>::filter, 1);
        assert(wv.take(0) =~= Seq::<Seq<char>>::empty());
        assert(views(out@) =~= wv.take(0).filter(p));
    }
    while i < words.len()
        invariant
            i <= words@.len(),
            wv == views(words@),
            p == not_listed(views(blacklist@)),
            views(out@) == wv.take(i as int).filter(p),
        decreases words@.len() - i,
    {
        proof {
            lemma_filter_step(wv, i as int, p);
            assert(wv[i as int] == words@[i as int]@);
        }
        let ghost before = out@;
        if !contains_word(blacklist, &words[i]) {
            out.push(words[i].clone());
            proof {
                assert(views(out@) =~= views(before).push(wv[i as int]));
            }
        }
        i = i + 1;
    }
    proof {
        assert(wv.take(wv.len() as int) =~= wv);
    }
    out
}

/// The words of a word file's text: each line trimmed and lowercased, each
/// word once.
pub fn parse_word_set(contents: &str) -> (out: Vec<String>)
    ensures
        all_distinct(views(out@)),
        forall|w: Seq<char>| #[trigger] views(out@).contains(w) <==> exists|i: int|
            0 <= i < lines_of(contents@).len() && w == lowercased(trimmed(#[trigger] lines_of(contents@)[i])),
{
    let ls = lines(contents);
    let ghost lv = views(ls@);
    let mut out: Vec<String> = Vec::new();
    let mut i: usize = 0;
    while i < ls.len()
        invariant
            i <= ls@.len(),
            lv == views(ls@),
            lv == lines_of(contents@),
            all_distinct(views(out@)),
            forall|w: Seq<char>| #[trigger] views(out@).contains(w) <==> exists|k: int|
                0 <= k < i && w == lowercased(trimmed(#[trigger] lv[k])),
        decreases ls@.len() - i,
    {
        let t = trim(ls[i].as_str());
        let lw = to_lower(t.as_str());
        let ghost before = views(out@);
        proof {
            assert(lv[i as int] == ls@[i as int]@);
        }
        add_unique(&mut out, lw);
        proof {
            assert forall|w: Seq<char>| #[trigger] views(out@).contains(w) <==> exists|k: int|
                0 <= k < i + 1 && w == lowercased(trimmed(#[trigger] lv[k])) by {
                if exists|k: int| 0 <= k < i + 1 && w == lowercased(trimmed(#[trigger] lv[k])) {
                    let k = choose|k: int| 0 <= k < i + 1 && w == lowercased(trimmed(#[trigger] lv[k]));
                    if k < i {
                        assert(before.contains(w));
                    }
                }
            }
        }
        i = i + 1;
    }
    out
}

} // verus!
