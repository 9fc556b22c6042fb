//! Recomputing a stored puzzle's word list from its solved board.
use vstd::prelude::*;

use super::query::push_decimal;
use super::records::{hyphenated, uuid_text};
use crate::api::{described_board, describes_board_error, spelled, valid_description};
use crate::board::{all_distinct, board_from_letters, find_words, Board};
use crate::puzzle::word_set;
use crate::solver::order::{placed_before, stable_order, stable_sort, str_less, Key};
use crate::solver::plan::alpha_before;
use crate::text::append_str;
use crate::words::{views, Trie};

verus! {

/// Sort keys that put words in alphabetical order: how many words of `v`
/// come before each.
pub open spec fn alpha_keys(v: Seq<Seq<char>>) -> Seq<Key> {
    Seq::new(v.len(), |i: int| (alpha_before(v, v[i]) as usize, 0usize, 0usize))
}

/// `out` holds the words of `v` in alphabetical order.
pub open spec fn alphabetical(v: Seq<Seq<char>>, out: Seq<String>) -> bool {
    exists|perm: Seq<int>|
        #[trigger] stable_order(v, alpha_keys(v), views(out), perm)
}

/// The words of `words`, in alphabetical order.
pub fn sort_words(words: Vec<String>) -> (out: Vec<String>)
    ensures
        alphabetical(views(words@), out@),
{
    let ghost wv = views(words@);
    let n = words.len();
    let mut keys: Vec<Key> = Vec::new();
    let mut i: usize = 0;
    while i < n
        invariant
            n == words@.len(),
            wv == views(words@),
            i <= n,
            keys@.len() == i,
            forall|k: int| 0 <= k < i ==> #[trigger] keys@[k] == (alpha_before(wv, wv[k]) as usize, 0usize, 0usize),
        decreases n - i,
    {
        let mut count: usize = 0;
        let mut j: usize = 0;
        proof {
            assert(wv.take(0) =~= Seq::<Seq<char>>::empty());
        }
        while j < n
            invariant
                n == words@.len(),
                wv == views(words@),
                i < n,
                j <= n,
                count == alpha_before(wv.take(j as int), wv[i as int]),
                count <= j,
            decreases n - j,
        {
            proof {
                assert(wv.take(j + 1).drop_last() =~= wv.take(j as int));
                assert(wv[j as int] == words@[j as int]@);
                assert(wv[i as int] == words@[i as int]@);
            }
            if str_less(words[j].as_str(), words[i].as_str()) {
                count = count + 1;
            }
            j = j + 1;
        }
        proof {
            assert(wv.take(n as int) =~= wv);
        }
        keys.push((count, 0, 0));
        i = i + 1;
    }
    proof {
        assert(keys@ =~= alpha_keys(wv));
    }
    let ghost w0 = words@;
    let (out, Ghost(perm)) = stable_sort(words, &keys);
    proof {
        assert forall|k: int| 0 <= k < perm.len() implies 0 <= #[trigger] perm[k] < wv.len() && views(out@)[k]
            == wv[perm[k]] by {
            assert(out@[k] == w0[perm[k]]);
        }
        assert(stable_order(wv, alpha_keys(wv), views(out@), perm));
    }
    out
}

/// The message for a stored answer that is not a board.
pub open spec fn invalid_answer_message(id: u128, e: Seq<char>) -> Seq<char> {
    "invalid answer for puzzle "@ + hyphenated(id) + ": "@ + e
}

/// The dictionary words a stored answer board spells, in alphabetical order;
/// refused, naming the puzzle, when the answer is not a board.
pub fn answer_words(width: usize, height: usize, answer: &str, word_list: &Trie, puzzle_id: u128) -> (r: Result<
    Vec<String>,
    String,
>)
    ensures
        r is Ok <==> valid_description(width, height, answer@),
        r matches Err(e) ==> exists|m: Seq<char>|
            describes_board_error(width, height, answer@, m) && e@ == invalid_answer_message(puzzle_id, m),
        r matches Ok(words) ==> all_distinct(views(words@)) && exists|board: Board|
            #[trigger] described_board(board, width, height, answer@) && word_set(words@) == spelled(
                board,
                word_list,
            ),
{
    let board = match board_from_letters(width, height, answer) {
        Ok(board) => board,
        Err(error) => {
            let mut msg = String::from_str("invalid answer for puzzle ");
            proof {
                reveal_strlit("invalid answer for puzzle ");
                reveal_strlit(": ");
            }
            let id = uuid_text(puzzle_id);
            append_str(&mut msg, id.as_str());
            append_str(&mut msg, ": ");
            append_str(&mut msg, error.as_str());
            proof {
                assert(describes_board_error(width, height, answer@, error@));
                assert(msg@ =~= invalid_answer_message(puzzle_id, error@));
            }
            return Err(msg);
        },
    };
    let found = find_words(&board, word_list);
    let ghost f = found@;
    let sorted = sort_words(found);
    proof {
        assert(described_board(board, width, height, answer@));
        let perm = choose|perm: Seq<int>| #[trigger] stable_order(views(f), alpha_keys(views(f)), views(sorted@), perm);
        let keys = alpha_keys(views(f));
        assert forall|a: int, b: int| 0 <= a < views(sorted@).len() && 0 <= b < views(sorted@).len() && a != b implies views(
            sorted@,
        )[a] != views(sorted@)[b] by {
            assert(perm[a] != perm[b]) by {
                if a < b {
                    assert(placed_before(keys, perm[a], perm[b]));
                } else {
                    assert(placed_before(keys, perm[b], perm[a]));
                }
            }
        }
        assert forall|x: Seq<char>| word_set(sorted@).contains(x) <==> spelled(board, word_list).contains(x) by {
            if views(sorted@).contains(x) {
                let k = choose|k: int| 0 <= k < views(sorted@).len() && views(sorted@)[k] == x;
                assert(views(f)[perm[k]] == x);
            }
            if views(f).contains(x) {
                let j = choose|j: int| 0 <= j < views(f).len() && views(f)[j] == x;
                let pos = crate::solver::plan::lemma_perm_hit_pub(perm, views(f).len() as int, j);
                assert(views(sorted@)[pos] == x);
            }
        }
        assert(word_set(sorted@) =~= spelled(board, word_list));
    }
    Ok(sorted)
}

/// The message when an update did not touch exactly one row.
pub open spec fn update_count_message(id: u128, rows: nat) -> Seq<char> {
    "expected to update puzzle "@ + hyphenated(id) + ", updated "@ + super::query::decimal(rows) + " rows"@
}

/// The result of storing a puzzle's words: exactly one row must change.
pub fn update_outcome(rows_affected: u64, puzzle_id: u128) -> (r: Result<(), String>)
    ensures
        r is Ok <==> rows_affected == 1,
        r matches Err(e) ==> e@ == update_count_message(puzzle_id, rows_affected as nat),
{
    if rows_affected == 1 {
        return Ok(());
    }
    let mut msg = String::from_str("expected to update puzzle ");
    proof {
        reveal_strlit("expected to update puzzle ");
    }
    let id = uuid_text(puzzle_id);
    append_str(&mut msg, id.as_str());
    append_str(&mut msg, ", updated ");
    push_decimal(&mut msg, rows_affected);
    append_str(&mut msg, " rows");
    Err(msg)
}

} // verus!
