//! What the database stores and returns, as plain values.
use vstd::prelude::*;

use crate::puzzle::dedup_words;
use crate::text::{append_str, is_white, push_char, str_chars, trimmed, white_space};
use crate::board::all_distinct;
use crate::words::views;

verus! {

/// A stat event to record for a puzzle.
#[derive(Clone, Copy)]
pub enum PuzzleStat {
    /// A play.
    Plays,
    /// A completion, with its time and whether a hint was used.
    Completions { completion_time_seconds: u32, used_hint: bool },
}

/// A stored puzzle: its title, its description, its board and its answer.
pub struct Puzzle {
    pub name: String,
    pub description: Option<String>,
    pub width: usize,
    pub height: usize,
    pub letters: String,
    pub words: Vec<String>,
    pub answer: String,
}

/// A public user profile.
pub struct UserProfileRecord {
    pub username: String,
    pub display_name: Option<String>,
    pub avatar_url: Option<String>,
    pub role: String,
    pub created_at: String,
}

/// A puzzle summary as the database returns it.
pub struct PuzzleSummaryRecord {
    pub id: String,
    pub name: String,
    pub description: Option<String>,
    pub width: usize,
    pub height: usize,
    pub letters: String,
    pub plays: u64,
    pub completions: u64,
    pub likes: u64,
    pub created_at: String,
    pub creator_username: String,
    pub creator_display_name: Option<String>,
    pub creator_role: String,
}

/// A playable puzzle with its creator.
pub struct LoadedPuzzleRecord {
    pub puzzle: Puzzle,
    pub creator_username: String,
    pub creator_display_name: Option<String>,
    pub creator_role: String,
}

/// A completion of a puzzle, with the puzzle's summary.
pub struct CompletedPuzzleRecord {
    pub puzzle: PuzzleSummaryRecord,
    pub completion_time_seconds: u32,
    pub used_hint: bool,
    pub completed_at: String,
}

/// A signed-in user of the site; `id` is the user's UUID as a number.
pub struct AppUser {
    pub id: u128,
    pub username: String,
    pub display_name: Option<String>,
    pub role: String,
}

/// What the sign-in service knows of a user.
pub struct ClerkUserData {
    pub clerk_user_id: String,
    pub username: Option<String>,
    pub display_name: Option<String>,
    pub avatar_url: Option<String>,
    pub email: Option<String>,
}

/// Filters of a puzzle listing.
pub struct PuzzleRecordFilters {
    pub query: Option<String>,
    pub min_dimensions: Option<(usize, usize)>,
    pub max_dimensions: Option<(usize, usize)>,
    pub min_given_percent: Option<u8>,
    pub max_given_percent: Option<u8>,
}

/// A puzzle row as the database returns it; `id` is the UUID as a number.
pub struct PuzzleRow {
    pub name: String,
    pub description: Option<String>,
    pub width: i32,
    pub height: i32,
    pub letters: String,
    pub words: Vec<String>,
    pub answer: String,
    pub creator_username: String,
    pub creator_display_name: Option<String>,
    pub creator_role: String,
}

/// A puzzle summary row as the database returns it.
pub struct PuzzleSummaryRow {
    pub id: u128,
    pub name: String,
    pub description: Option<String>,
    pub width: i32,
    pub height: i32,
    pub letters: String,
    pub plays: i64,
    pub completions: i64,
    pub likes: i64,
    pub created_at: String,
    pub creator_username: String,
    pub creator_display_name: Option<String>,
    pub creator_role: String,
}

/// A completion row joined with its puzzle's summary.
pub struct CompletedPuzzleRow {
    pub summary: PuzzleSummaryRow,
    pub completion_time_seconds: i32,
    pub used_hint: bool,
    pub completed_at: String,
}

/// The hexadecimal digit for `n` below 16, lowercase.
pub open spec fn hex_digit(n: int) -> char {
    if n < 10 {
        (n + '0' as int) as char
    } else {
        (n - 10 + 'a' as int) as char
    }
}

/// Hex digit `k` (0 the most significant) of a 128-bit value.
pub open spec fn nibble(id: u128, k: int) -> int {
    (id as int / vstd::arithmetic::power::pow(16, (31 - k) as nat)) % 16
}

/// How many dashes of the hyphenated form stand before position `i`.
pub open spec fn dashes_before(i: int) -> int {
    (if i > 8 { 1int } else { 0int }) + (if i > 13 { 1int } else { 0int }) + (if i > 18 { 1int } else { 0int }) + (if i
        > 23 {
        1int
    } else {
        0int
    })
}

/// The hyphenated lowercase form of a UUID: 32 hex digits, most significant
/// first, with dashes after the 8th, 12th, 16th and 20th.
pub open spec fn hyphenated(id: u128) -> Seq<char> {
    Seq::new(
        36,
        |i: int|
            if i == 8 || i == 13 || i == 18 || i == 23 {
                '-'
            } else {
                hex_digit(nibble(id, i - dashes_before(i)))
            },
    )
}

/// `Uuid::from_u128(id).to_string()`: the UUID whose big-endian bytes are
/// `id`, in its hyphenated lowercase form, which the uuid crate's `Display`
/// writes.
#[verifier::external_body]
pub(crate) fn uuid_text(id: u128) -> (s: String)
    ensures
        s@ == hyphenated(id),
{
    uuid::Uuid::from_u128(id).to_string()
}

/// The id that `uuid::Uuid::parse_str` reads from a text, as a number;
/// `None` where the text is no UUID.
pub uninterp spec fn parsed_uuid(text: Seq<char>) -> Option<u128>;

/// `uuid::Uuid::parse_str(text)`, its UUID taken as a number: the result is
/// the one the crate's parser gives for the text, and the hyphenated
/// lowercase form that `uuid_text` writes reads back as its id (the crate's
/// documentation lists that form among those it parses). On failure the
/// crate's error message is handed on; what it says is left unstated.
#[verifier::external_body]
pub(crate) fn parse_uuid(text: &str) -> (r: Result<u128, String>)
    ensures
        r is Ok <==> parsed_uuid(text@) is Some,
        r matches Ok(id) ==> parsed_uuid(text@) == Some(id),
        forall|id: u128| #[trigger] hyphenated(id) == text@ ==> (r is Ok && r->Ok_0 == id),
{
    match uuid::Uuid::parse_str(text) {
        Ok(u) => Ok(u.as_u128()),
        Err(e) => Err(e.to_string()),
    }
}

/// `r` is the record of the summary row `row`: the id as its hyphenated
/// text, the counts as unsigned, every other field taken over.
pub open spec fn summary_of_row(r: PuzzleSummaryRecord, row: PuzzleSummaryRow) -> bool {
    &&& r.id@ == hyphenated(row.id)
    &&& r.name == row.name
    &&& r.description == row.description
    &&& r.width == row.width as usize
    &&& r.height == row.height as usize
    &&& r.letters == row.letters
    &&& r.plays == row.plays as u64
    &&& r.completions == row.completions as u64
    &&& r.likes == row.likes as u64
    &&& r.created_at == row.created_at
    &&& r.creator_username == row.creator_username
    &&& r.creator_display_name == row.creator_display_name
    &&& r.creator_role == row.creator_role
}

impl PuzzleSummaryRecord {
    /// The record of a summary row: the id as text, the counts as unsigned.
    pub fn from_row(row: PuzzleSummaryRow) -> (r: PuzzleSummaryRecord)
        ensures
            summary_of_row(r, row),
    {
        PuzzleSummaryRecord {
            id: uuid_text(row.id),
            name: row.name,
            description: row.description,
            width: row.width as usize,
            height: row.height as usize,
            letters: row.letters,
            plays: row.plays as u64,
            completions: row.completions as u64,
            likes: row.likes as u64,
            created_at: row.created_at,
            creator_username: row.creator_username,
            creator_display_name: row.creator_display_name,
            creator_role: row.creator_role,
        }
    }
}

impl CompletedPuzzleRecord {
    /// The record of a completion row: the summary, then the completion.
    pub fn from_row(row: CompletedPuzzleRow) -> (r: CompletedPuzzleRecord)
        ensures
            summary_of_row(r.puzzle, row.summary),
            r.completion_time_seconds == row.completion_time_seconds as u32,
            r.used_hint == row.used_hint,
            r.completed_at == row.completed_at,
    {
        CompletedPuzzleRecord {
            puzzle: PuzzleSummaryRecord::from_row(row.summary),
            completion_time_seconds: row.completion_time_seconds as u32,
            used_hint: row.used_hint,
            completed_at: row.completed_at,
        }
    }
}

impl LoadedPuzzleRecord {
    /// The playable puzzle of a puzzle row, with its creator.
    pub fn from_row(row: PuzzleRow) -> (r: LoadedPuzzleRecord)
        ensures
            r.puzzle.name == row.name,
            r.puzzle.description == row.description,
            r.puzzle.width == row.width as usize,
            r.puzzle.height == row.height as usize,
            r.puzzle.letters == row.letters,
            all_distinct(views(r.puzzle.words@)),
            forall|x: Seq<char>| #[trigger] views(r.puzzle.words@).contains(x) <==> views(row.words@).contains(x),
            r.puzzle.answer == row.answer,
            r.creator_username == row.creator_username,
            r.creator_display_name == row.creator_display_name,
            r.creator_role == row.creator_role,
    {
        LoadedPuzzleRecord {
            puzzle: Puzzle {
                name: row.name,
                description: row.description,
                width: row.width as usize,
                height: row.height as usize,
                letters: row.letters,
                words: dedup_words(row.words),
                answer: row.answer,
            },
            creator_username: row.creator_username,
            creator_display_name: row.creator_display_name,
            creator_role: row.creator_role,
        }
    }
}

/// `c` is an ASCII letter or digit.
pub open spec fn ascii_alnum(c: char) -> bool {
    ('a' <= c && c <= 'z') || ('A' <= c && c <= 'Z') || ('0' <= c && c <= '9')
}

/// The ASCII letters and digits of `s`, in order.
pub open spec fn alnum_of(s: Seq<char>) -> Seq<char> {
    s.filter(|c: char| ascii_alnum(c))
}

/// The generated username for a sign-in id: `user_` and its first twelve
/// ASCII letters and digits, or `user` when it has none.
pub open spec fn fallback_name(id: Seq<char>) -> Seq<char> {
    let a = alnum_of(id);
    if a.len() == 0 {
        "user"@
    } else {
        "user_"@ + a.take(if a.len() < 12 { a.len() as int } else { 12 })
    }
}

/// A generated username is `user`, or `user_` and at most twelve ASCII
/// letters and digits, so it is safe to show publicly.
pub proof fn lemma_fallback_is_safe(id: Seq<char>)
    ensures
        fallback_name(id) == "user"@ || (fallback_name(id).len() <= "user_"@.len() + 12 && fallback_name(id).subrange(
            0,
            "user_"@.len() as int,
        ) == "user_"@ && forall|i: int|
            "user_"@.len() <= i < fallback_name(id).len() ==> ascii_alnum(#[trigger] fallback_name(id)[i])),
{
    let a = alnum_of(id);
    if a.len() > 0 {
        let k: int = if a.len() < 12 { a.len() as int } else { 12 };
        let f = fallback_name(id);
        assert(f.subrange(0, "user_"@.len() as int) =~= "user_"@);
        assert forall|i: int| "user_"@.len() <= i < f.len() implies ascii_alnum(#[trigger] f[i]) by {
            let j = i - "user_"@.len();
            assert(f[i] == a[j]);
            id.lemma_filter_pred(|c: char| ascii_alnum(c), j);
        }
    }
}

/// Builds a stable fallback username from a sign-in id.
pub fn fallback_username(clerk_user_id: &str) -> (r: String)
    ensures
        r@ == fallback_name(clerk_user_id@),
{
    let c = str_chars(clerk_user_id);
    let ghost pred = |ch: char| ascii_alnum(ch);
    let mut suffix: Vec<char> = Vec::new();
    let mut i: usize = 0;
    proof {
        reveal_with_fuel(Seq::<_>::filter, 1);
        assert(c@.take(0) =~= Seq::<char>::empty());
    }
    while i < c.len() && suffix.len() < 12
        invariant
            c@ == clerk_user_id@,
            i <= c@.len(),
            pred == (|ch: char| ascii_alnum(ch)),
            suffix@ == c@.take(i as int).filter(pred),
            suffix@.len() <= 12,
        decreases c@.len() - i,
    {
        let ch = c[i];
        proof {
            reveal_with_fuel(Seq::<_>::filter, 1);
            assert(c@.take(i + 1).drop_last() =~= c@.take(i as int));
        }
        if ('a' <= ch && ch <= 'z') || ('A' <= ch && ch <= 'Z') || ('0' <= ch && ch <= '9') {
            suffix.push(ch);
        }
        i = i + 1;
    }
    proof {
        lemma_filter_prefix(c@, pred, i as int);
    }
    if suffix.len() == 0 {
        proof {
            reveal_strlit("user");
        }
        String::from_str("user")
    } else {
        let mut out = String::from_str("user_");
        proof {
            reveal_strlit("user_");
        }
        let mut k: usize = 0;
        while k < suffix.len()
            invariant
                k <= suffix@.len(),
                out@ == "user_"@ + suffix@.take(k as int),
            decreases suffix@.len() - k,
        {
            push_char(&mut out, suffix[k]);
            proof {
                assert(suffix@.take(k + 1) =~= suffix@.take(k as int).push(suffix@[k as int]));
            }
            k = k + 1;
        }
        proof {
            assert(suffix@.take(suffix@.len() as int) =~= suffix@);
        }
        out
    }
}

/// After reading `s` up to `i`, either the whole of `s` was read or twelve
/// letters and digits were kept: either way the kept ones are the first of
/// `s`'s letters and digits, up to twelve.
proof fn lemma_filter_prefix(s: Seq<char>, pred: spec_fn(char) -> bool, i: int)
    requires
        0 <= i <= s.len(),
        pred == (|ch: char| ascii_alnum(ch)),
        s.take(i).filter(pred).len() <= 12,
        i < s.len() ==> s.take(i).filter(pred).len() == 12,
    ensures
        s.take(i).filter(pred) == alnum_of(s).take(
            if alnum_of(s).len() < 12 {
                alnum_of(s).len() as int
            } else {
                12
            },
        ),
    decreases s.len() - i,
{
    if i == s.len() {
        assert(s.take(i) =~= s);
        assert(alnum_of(s) =~= s.filter(pred));
        assert(s.filter(pred).take(s.filter(pred).len() as int) =~= s.filter(pred));
    } else {
        lemma_filter_append(s.take(i), s.skip(i), pred);
        assert(s.take(i) + s.skip(i) =~= s);
        assert(alnum_of(s) =~= s.filter(pred));
        let a = s.take(i).filter(pred);
        let b = s.skip(i).filter(pred);
        assert((a + b).take(12) =~= a);
    }
}

/// Filtering a concatenation filters each part.
proof fn lemma_filter_append(a: Seq<char>, b: Seq<char>, pred: spec_fn(char) -> bool)
    ensures
        (a + b).filter(pred) == a.filter(pred) + b.filter(pred),
    decreases b.len(),
{
    reveal_with_fuel(Seq::<_>::filter, 1);
    if b.len() == 0 {
        assert(a + b =~= a);
        assert(a.filter(pred) + b.filter(pred) =~= a.filter(pred));
    } else {
        lemma_filter_append(a, b.drop_last(), pred);
        assert((a + b).drop_last() =~= a + b.drop_last());
        assert((a + b).last() == b.last());
        if pred(b.last()) {
            assert(a.filter(pred) + b.drop_last().filter(pred).push(b.last()) =~= (a.filter(pred)
                + b.drop_last().filter(pred)).push(b.last()));
        }
    }
}

/// The username to store for a signed-in user, and whether the sign-in
/// service gave one: its username when it is not blank, else the fallback.
pub open spec fn chosen_username(user: ClerkUserData) -> (bool, Seq<char>) {
    match user.username {
        Some(u) => if trimmed(u@).len() > 0 {
            (true, u@)
        } else {
            (false, fallback_name(user.clerk_user_id@))
        },
        None => (false, fallback_name(user.clerk_user_id@)),
    }
}

/// Whether the sign-in service gave a username, and the username to store.
pub fn clerk_username(user: &ClerkUserData) -> (r: (bool, String))
    ensures
        r.0 == chosen_username(*user).0,
        r.1@ == chosen_username(*user).1,
{
    match &user.username {
        Some(u) => {
            let t = crate::text::trim(u.as_str());
            if !t.as_str().is_empty() {
                (true, u.clone())
            } else {
                (false, fallback_username(user.clerk_user_id.as_str()))
            }
        },
        None => (false, fallback_username(user.clerk_user_id.as_str())),
    }
}

} // verus!
