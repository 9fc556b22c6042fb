//! Request validation and response shapes of the puzzle site.
use vstd::prelude::*;

use super::records::{
    AppUser, CompletedPuzzleRecord, LoadedPuzzleRecord, Puzzle, PuzzleRecordFilters, PuzzleStat,
    PuzzleSummaryRecord, UserProfileRecord,
};
use crate::text::{append_str, push_char, same_text, str_chars, trim, trimmed};

verus! {

/// An error to send back as `{ "error": ... }`.
pub struct ErrorResponse(pub String);

/// How many puzzles a listing returns unless asked otherwise.
pub const DEFAULT_PUZZLES_LIMIT: usize = 24;

/// The most puzzles a listing returns.
pub const MAX_PUZZLES_LIMIT: usize = 100;

/// The longest puzzle title, in characters.
pub const PUZZLE_TITLE_LIMIT: usize = 40;

/// The longest puzzle description, in characters.
pub const DESCRIPTION_LIMIT: usize = 60;

/// The longest display name, in characters.
pub const DISPLAY_NAME_LIMIT: usize = 60;

/// A request to create a puzzle.
pub struct CreateInput {
    pub name: String,
    pub description: Option<String>,
    pub width: usize,
    pub height: usize,
    pub letters: String,
    pub words: Vec<String>,
    pub answer: String,
}

/// The id of a created puzzle.
pub struct CreateOutput {
    pub id: String,
}

/// The signed-in user as the site shows it.
pub struct MeOutput {
    pub username: String,
    pub display_name: Option<String>,
    pub official: bool,
}

/// A request to change the signed-in user's display name.
pub struct UpdateMeInput {
    pub display_name: Option<String>,
}

/// A request to load a puzzle.
pub struct LoadInput {
    pub puzzle_id: String,
}

/// A playable puzzle with its creator.
pub struct LoadPuzzleOutput {
    pub puzzle: Puzzle,
    pub creator: PuzzleCreator,
}

/// A request to change a puzzle's title and description.
pub struct UpdatePuzzleInput {
    pub puzzle_id: String,
    pub name: String,
    pub description: Option<String>,
}

/// A request to record a play or a completion.
pub struct IncrementPuzzleStatInput {
    pub puzzle_id: String,
    pub event: String,
    pub completion_time_seconds: Option<u32>,
    pub used_hint: Option<bool>,
}

/// The answer to a recorded stat.
pub struct IncrementPuzzleStatOutput {
    pub ok: bool,
}

/// A puzzle card.
pub struct PuzzleSummary {
    pub id: String,
    pub name: String,
    pub width: usize,
    pub height: usize,
    pub starting_letters: usize,
    pub total_cells: usize,
    pub given_percent: u8,
    pub plays: u64,
    pub completions: u64,
    pub creator: PuzzleCreator,
    pub description: Option<String>,
}

/// Who made a puzzle.
pub struct PuzzleCreator {
    pub username: String,
    pub display_name: Option<String>,
    pub official: bool,
}

/// The user a profile page shows.
pub struct ProfileUser {
    pub username: String,
    pub display_name: Option<String>,
    pub avatar_url: Option<String>,
    pub official: bool,
    pub created_at: String,
}

/// A completion shown on a profile page.
pub struct CompletedPuzzleSummary {
    pub puzzle: PuzzleSummary,
    pub completion_time_seconds: u32,
    pub used_hint: bool,
    pub completed_at: String,
}

/// A profile page.
pub struct ProfileOutput {
    pub user: ProfileUser,
    pub created_puzzles: Vec<PuzzleSummary>,
    pub completed_puzzles: Vec<CompletedPuzzleSummary>,
}

/// A request for a profile page.
pub struct ProfileInput {
    pub username: String,
}

/// A request to list puzzles.
pub struct ListPuzzlesInput {
    pub limit: Option<usize>,
    pub query: Option<String>,
    pub min_width: Option<usize>,
    pub min_height: Option<usize>,
    pub max_width: Option<usize>,
    pub max_height: Option<usize>,
    pub min_given_percent: Option<u8>,
    pub max_given_percent: Option<u8>,
}

/// A copy of an optional string.
fn copy_opt(o: &Option<String>) -> (r: Option<String>)
    ensures
        r == *o,
{
    match o {
        Some(s) => Some(s.clone()),
        None => None,
    }
}

/// Whether `role` is the administrators' role.
pub fn is_admin(role: &String) -> (b: bool)
    ensures
        b == (role@ == "admin"@),
{
    same_text(role.as_str(), "admin")
}

/// The signed-in user as the site shows it; official means an administrator.
pub fn current_user(user: &AppUser) -> (r: Result<MeOutput, ErrorResponse>)
    ensures
        r matches Ok(out) && out.username == user.username && out.display_name == user.display_name
            && out.official == (user.role@ == "admin"@),
{
    Ok(MeOutput { username: user.username.clone(), display_name: copy_opt(&user.display_name), official: is_admin(&user.role) })
}

/// The message for a display name that is too long.
pub open spec fn display_name_too_long() -> Seq<char> {
    "display name must be 60 characters or fewer"@
}

/// The message for a title that is too long.
pub open spec fn title_too_long() -> Seq<char> {
    "puzzle title must be 40 characters or fewer"@
}

/// The message for a description that is too long.
pub open spec fn description_too_long() -> Seq<char> {
    "description must be 60 characters or fewer"@
}

/// What an optional text becomes once trimmed: nothing when blank.
pub open spec fn cleaned(o: Option<String>) -> Option<Seq<char>> {
    match o {
        Some(s) => if trimmed(s@).len() == 0 {
            None
        } else {
            Some(trimmed(s@))
        },
        None => None,
    }
}

/// The trimmed text is longer than `limit` characters.
pub open spec fn over_limit(o: Option<String>, limit: usize) -> bool {
    match o {
        Some(s) => trimmed(s@).len() > limit,
        None => false,
    }
}

/// Trims an optional text, refusing it over `limit` characters with `msg`,
/// and drops it when blank.
fn clean_optional(o: Option<String>, limit: usize, msg: &str) -> (r: Result<Option<String>, ErrorResponse>)
    ensures
        r is Err <==> over_limit(o, limit),
        r matches Err(e) ==> e.0@ == msg@,
        r matches Ok(v) ==> match v {
            Some(s) => cleaned(o) == Some(s@),
            None => cleaned(o) is None,
        },
{
    match o {
        None => Ok(None),
        Some(s) => {
            let t = trim(s.as_str());
            if str_chars(t.as_str()).len() > limit {
                return Err(ErrorResponse(String::from_str(msg)));
            }
            if t.as_str().is_empty() {
                Ok(None)
            } else {
                Ok(Some(t))
            }
        },
    }
}

/// The display name to store for the signed-in user: trimmed, nothing when
/// blank, refused over the limit.
pub fn display_name_update(inp: UpdateMeInput) -> (r: Result<Option<String>, ErrorResponse>)
    ensures
        r is Err <==> over_limit(inp.display_name, DISPLAY_NAME_LIMIT),
        r matches Err(e) ==> e.0@ == display_name_too_long(),
        r matches Ok(v) ==> match v {
            Some(s) => cleaned(inp.display_name) == Some(s@),
            None => cleaned(inp.display_name) is None,
        },
{
    proof {
        reveal_strlit("display name must be 60 characters or fewer");
    }
    clean_optional(inp.display_name, DISPLAY_NAME_LIMIT, "display name must be 60 characters or fewer")
}

/// A puzzle's title and description as they are stored: trimmed, the
/// description dropped when blank; refused when the title or the
/// description is too long, the title checked first.
pub fn clean_metadata(name: &str, description: Option<String>) -> (r: Result<(String, Option<String>), ErrorResponse>)
    ensures
        r is Err <==> trimmed(name@).len() > PUZZLE_TITLE_LIMIT || over_limit(description, DESCRIPTION_LIMIT),
        r matches Err(e) ==> if trimmed(name@).len() > PUZZLE_TITLE_LIMIT {
            e.0@ == title_too_long()
        } else {
            e.0@ == description_too_long()
        },
        r matches Ok((n, d)) ==> n@ == trimmed(name@) && match d {
            Some(s) => cleaned(description) == Some(s@),
            None => cleaned(description) is None,
        },
{
    let n = trim(name);
    if str_chars(n.as_str()).len() > PUZZLE_TITLE_LIMIT {
        proof {
            reveal_strlit("puzzle title must be 40 characters or fewer");
        }
        return Err(ErrorResponse(String::from_str("puzzle title must be 40 characters or fewer")));
    }
    proof {
        reveal_strlit("description must be 60 characters or fewer");
    }
    let d = clean_optional(description, DESCRIPTION_LIMIT, "description must be 60 characters or fewer")?;
    Ok((n, d))
}

/// The message for a puzzle id that was not found.
pub open spec fn invalid_puzzle_id(id: Seq<char>) -> Seq<char> {
    "invalid puzzle id: "@ + id
}

/// The playable puzzle that was found, or an invalid-id error naming the id.
pub fn load_puzzle(found: Option<LoadedPuzzleRecord>, puzzle_id: &str) -> (r: Result<LoadPuzzleOutput, ErrorResponse>)
    ensures
        found is None ==> (r matches Err(e) && e.0@ == invalid_puzzle_id(puzzle_id@)),
        found matches Some(rec) ==> (r matches Ok(out) && out.puzzle == rec.puzzle && out.creator.username
            == rec.creator_username && out.creator.display_name == rec.creator_display_name
            && out.creator.official == (rec.creator_role@ == "admin"@)),
{
    match found {
        Some(record) => {
            let official = is_admin(&record.creator_role);
            Ok(LoadPuzzleOutput {
                puzzle: record.puzzle,
                creator: PuzzleCreator {
                    username: record.creator_username,
                    display_name: record.creator_display_name,
                    official,
                },
            })
        },
        None => {
            let mut msg = String::from_str("invalid puzzle id: ");
            proof {
                reveal_strlit("invalid puzzle id: ");
            }
            append_str(&mut msg, puzzle_id);
            Err(ErrorResponse(msg))
        },
    }
}

/// Whether a hint was used, false when not told.
pub open spec fn hint_of(h: Option<bool>) -> bool {
    match h {
        Some(v) => v,
        None => false,
    }
}

/// A hint the request reports is recorded as it was reported; an unreported
/// one counts as not used.
pub proof fn lemma_hint_of(h: Option<bool>)
    ensures
        h matches Some(v) ==> hint_of(h) == v,
        h is None ==> !hint_of(h),
        hint_of(h) <==> h == Some(true),
{
}

/// The stat a request records: a play, or a completion that needs its time
/// (the hint flag defaults to false); any other event is refused.
pub fn stat_event(inp: &IncrementPuzzleStatInput) -> (r: Result<PuzzleStat, ErrorResponse>)
    ensures
        inp.event@ == "play"@ ==> r matches Ok(PuzzleStat::Plays),
        inp.event@ == "completion"@ ==> match inp.completion_time_seconds {
            Some(t) => r == Ok::<PuzzleStat, ErrorResponse>(
                PuzzleStat::Completions { completion_time_seconds: t, used_hint: hint_of(inp.used_hint) },
            ),
            None => r matches Err(e) && e.0@ == "missing completion time"@,
        },
        inp.event@ != "play"@ && inp.event@ != "completion"@ ==> (r matches Err(e) && e.0@ == "invalid stat event"@),
        r matches Ok(PuzzleStat::Completions { completion_time_seconds, used_hint }) ==> {
            &&& inp.event@ == "completion"@
            &&& inp.completion_time_seconds == Some(completion_time_seconds)
            &&& (inp.used_hint matches Some(h) ==> used_hint == h)
            &&& (inp.used_hint is None ==> !used_hint)
        },
{
    proof {
        reveal_strlit("play");
        reveal_strlit("completion");
        assert("play"@.len() == 4);
        assert("play"@ != "completion"@);
    }
    if same_text(inp.event.as_str(), "play") {
        Ok(PuzzleStat::Plays)
    } else if same_text(inp.event.as_str(), "completion") {
        match inp.completion_time_seconds {
            Some(t) => Ok(
                PuzzleStat::Completions {
                    completion_time_seconds: t,
                    used_hint: match inp.used_hint {
                        Some(h) => h,
                        None => false,
                    },
                },
            ),
            None => Err(ErrorResponse(String::from_str("missing completion time"))),
        }
    } else {
        Err(ErrorResponse(String::from_str("invalid stat event")))
    }
}

/// How many cells of a board description hold a letter (neither `_` nor `!`).
pub open spec fn given_count(letters: Seq<char>) -> nat
    decreases letters.len(),
{
    if letters.len() == 0 {
        0
    } else {
        given_count(letters.drop_last()) + if letters.last() != '_' && letters.last() != '!' {
            1nat
        } else {
            0nat
        }
    }
}

/// The numbers of a summary fit in `usize`.
pub open spec fn summary_fits(record: PuzzleSummaryRecord) -> bool {
    &&& record.width * record.height <= usize::MAX
    &&& given_count(record.letters@) * 100 + record.width * record.height / 2 <= usize::MAX
}

/// The rounded percentage of given cells.
pub open spec fn percent_given(given: nat, total: nat) -> u8 {
    if total == 0 {
        0
    } else {
        ((given * 100 + total / 2) / total) as u8
    }
}

/// `s` is the card of `record`: every field taken over or computed from it.
pub open spec fn card_of(s: PuzzleSummary, record: PuzzleSummaryRecord) -> bool {
    &&& s.id == record.id
    &&& s.name == record.name
    &&& s.width == record.width
    &&& s.height == record.height
    &&& s.total_cells == record.width * record.height
    &&& s.starting_letters == given_count(record.letters@)
    &&& s.given_percent == percent_given(given_count(record.letters@), (record.width * record.height) as nat)
    &&& s.plays == record.plays
    &&& s.completions == record.completions
    &&& s.creator.username == record.creator_username
    &&& s.creator.display_name == record.creator_display_name
    &&& s.creator.official == (record.creator_role@ == "admin"@)
    &&& s.description == record.description
}

/// The puzzle card of a stored summary: cell counts, the rounded share of
/// given letters, and whether the creator is official.
pub fn puzzle_summary_from_record(record: PuzzleSummaryRecord) -> (s: PuzzleSummary)
    requires
        summary_fits(record),
    ensures
        s.id == record.id,
        s.name == record.name,
        s.width == record.width,
        s.height == record.height,
        s.total_cells == record.width * record.height,
        s.starting_letters == given_count(record.letters@),
        s.given_percent == percent_given(given_count(record.letters@), (record.width * record.height) as nat),
        s.plays == record.plays,
        s.completions == record.completions,
        s.creator.username == record.creator_username,
        s.creator.display_name == record.creator_display_name,
        s.creator.official == (record.creator_role@ == "admin"@),
        s.description == record.description,
{
    let total_cells = record.width * record.height;
    let c = str_chars(record.letters.as_str());
    let mut starting_letters: usize = 0;
    let mut i: usize = 0;
    proof {
        assert(c@.take(0) =~= Seq::<char>::empty());
    }
    while i < c.len()
        invariant
            c@ == record.letters@,
            i <= c@.len(),
            starting_letters == given_count(c@.take(i as int)),
            summary_fits(record),
        decreases c@.len() - i,
    {
        proof {
            assert(c@.take(i + 1).drop_last() =~= c@.take(i as int));
            lemma_given_count_prefix(c@, i + 1);
        }
        if c[i] != '_' && c[i] != '!' {
            starting_letters = starting_letters + 1;
        }
        i = i + 1;
    }
    proof {
        assert(c@.take(c@.len() as int) =~= c@);
    }
    let given_percent: u8 = if total_cells == 0 {
        0
    } else {
        ((starting_letters * 100 + total_cells / 2) / total_cells) as u8
    };
    let official = is_admin(&record.creator_role);
    PuzzleSummary {
        id: record.id,
        name: record.name,
        width: record.width,
        height: record.height,
        starting_letters,
        total_cells,
        given_percent,
        plays: record.plays,
        completions: record.completions,
        creator: PuzzleCreator {
            username: record.creator_username,
            display_name: record.creator_display_name,
            official,
        },
        description: record.description,
    }
}

/// A prefix never gives more letters than the whole.
proof fn lemma_given_count_prefix(s: Seq<char>, k: int)
    requires
        0 <= k <= s.len(),
    ensures
        given_count(s.take(k)) <= given_count(s),
    decreases s.len() - k,
{
    if k < s.len() {
        lemma_given_count_prefix(s, k + 1);
        assert(s.take(k + 1).drop_last() =~= s.take(k));
    } else {
        assert(s.take(k) =~= s);
    }
}

/// The message for a zero dimension.
pub open spec fn zero_dimension_message(label: Seq<char>) -> Seq<char> {
    label + " dimensions must be greater than 0"@
}

/// The message for a width given without a height, or the reverse.
pub open spec fn unpaired_dimension_message(label: Seq<char>) -> Seq<char> {
    label + "Width and "@ + label + "Height must be provided together"@
}

/// A width and height as (short side, long side).
pub open spec fn short_long(w: usize, h: usize) -> (usize, usize) {
    (if w < h { w } else { h }, if w < h { h } else { w })
}

/// A filter does not depend on the orientation: `w` by `h` and `h` by `w`
/// give the same bounds.
pub proof fn lemma_orientation_free(w: usize, h: usize)
    ensures
        short_long(w, h) == short_long(h, w),
{
}

/// The share of given letters is at most 100 percent when no more letters
/// are given than the board has cells.
pub proof fn lemma_percent_at_most_100(given: nat, total: nat)
    requires
        given <= total,
    ensures
        percent_given(given, total) <= 100,
{
    if total > 0 {
        assert((given * 100 + total / 2) / total <= 100) by (nonlinear_arith)
            requires
                given <= total,
                total > 0,
        {
            assert(given * 100 <= total * 100);
            assert(total / 2 < total);
            assert(given * 100 + total / 2 < total * 101);
        }
    }
}

/// A width and height filter as (short side, long side), so that `3x5` and
/// `5x3` mean the same; both or neither must be given, and none may be 0.
pub fn normalized_dimension_filter(width: Option<usize>, height: Option<usize>, label: &str) -> (r: Result<
    Option<(usize, usize)>,
    ErrorResponse,
>)
    ensures
        match (width, height) {
            (Some(w), Some(h)) => if w == 0 || h == 0 {
                r matches Err(e) && e.0@ == zero_dimension_message(label@)
            } else {
                r matches Ok(Some(pair)) && pair == short_long(w, h)
            },
            (None, None) => r matches Ok(None),
            _ => r matches Err(e) && e.0@ == unpaired_dimension_message(label@),
        },
{
    match (width, height) {
        (Some(w), Some(h)) => {
            if w == 0 || h == 0 {
                let mut msg = String::new();
                proof {
                    reveal_strlit("");
                    assert(""@ + label@ =~= label@);
                }
                append_str(&mut msg, label);
                append_str(&mut msg, " dimensions must be greater than 0");
                return Err(ErrorResponse(msg));
            }
            Ok(Some((if w < h { w } else { h }, if w < h { h } else { w })))
        },
        (None, None) => Ok(None),
        _ => {
            let mut msg = String::new();
            proof {
                reveal_strlit("");
                assert(""@ + label@ =~= label@);
            }
            append_str(&mut msg, label);
            append_str(&mut msg, "Width and ");
            append_str(&mut msg, label);
            append_str(&mut msg, "Height must be provided together");
            Err(ErrorResponse(msg))
        },
    }
}

/// The percent is above 100.
pub open spec fn bad_percent(p: Option<u8>) -> bool {
    match p {
        Some(v) => v > 100,
        None => false,
    }
}

/// The limit a listing asks for, 24 when none is given.
pub open spec fn asked_limit(inp: ListPuzzlesInput) -> usize {
    match inp.limit {
        Some(l) => l,
        None => DEFAULT_PUZZLES_LIMIT,
    }
}

/// Checks a listing request and turns it into a limit and database filters:
/// the limit must not pass 100, percents must not pass 100, the text query
/// is trimmed and dropped when blank, and dimension pairs are normalized
/// (the minimum pair first).
pub fn list_request(inp: ListPuzzlesInput) -> (r: Result<(usize, PuzzleRecordFilters), ErrorResponse>)
    ensures
        asked_limit(inp) > MAX_PUZZLES_LIMIT ==> (r matches Err(e) && e.0@ == "limit must be less than or equal to 100"@),
        asked_limit(inp) <= MAX_PUZZLES_LIMIT && (bad_percent(inp.min_given_percent) || bad_percent(
            inp.max_given_percent,
        )) ==> (r matches Err(e) && e.0@ == "given letter percentages must be between 0 and 100"@),
        r matches Ok((limit, f)) ==> {
            &&& limit == asked_limit(inp)
            &&& limit <= MAX_PUZZLES_LIMIT
            &&& !bad_percent(inp.min_given_percent) && !bad_percent(inp.max_given_percent)
            &&& f.min_given_percent == inp.min_given_percent
            &&& f.max_given_percent == inp.max_given_percent
            &&& match f.query {
                Some(q) => cleaned(inp.query) == Some(q@),
                None => cleaned(inp.query) is None,
            }
            &&& match (inp.min_width, inp.min_height) {
                (Some(w), Some(h)) => w > 0 && h > 0 && f.min_dimensions == Some(
                    (if w < h { w } else { h }, if w < h { h } else { w }),
                ),
                (None, None) => f.min_dimensions is None,
                _ => false,
            }
            &&& match (inp.max_width, inp.max_height) {
                (Some(w), Some(h)) => w > 0 && h > 0 && f.max_dimensions == Some(
                    (if w < h { w } else { h }, if w < h { h } else { w }),
                ),
                (None, None) => f.max_dimensions is None,
                _ => false,
            }
        },
        r matches Err(e) ==> {
            ||| asked_limit(inp) > MAX_PUZZLES_LIMIT && e.0@ == "limit must be less than or equal to 100"@
            ||| bad_percent(inp.min_given_percent) || bad_percent(inp.max_given_percent)
            ||| match (inp.min_width, inp.min_height) {
                (Some(w), Some(h)) => (w == 0 || h == 0) && e.0@ == zero_dimension_message("min"@),
                (None, None) => false,
                _ => e.0@ == unpaired_dimension_message("min"@),
            }
            ||| match (inp.max_width, inp.max_height) {
                (Some(w), Some(h)) => (w == 0 || h == 0) && e.0@ == zero_dimension_message("max"@),
                (None, None) => false,
                _ => e.0@ == unpaired_dimension_message("max"@),
            }
        },
{
    let limit = match inp.limit {
        Some(l) => l,
        None => DEFAULT_PUZZLES_LIMIT,
    };
    if limit > MAX_PUZZLES_LIMIT {
        return Err(ErrorResponse(String::from_str("limit must be less than or equal to 100")));
    }
    let too_big = |p: Option<u8>| -> (b: bool)
        ensures
            b == bad_percent(p),
        {
            match p {
                Some(v) => v > 100,
                None => false,
            }
        };
    if too_big(inp.min_given_percent) || too_big(inp.max_given_percent) {
        return Err(ErrorResponse(String::from_str("given letter percentages must be between 0 and 100")));
    }
    let query = match inp.query {
        Some(q) => {
            let t = trim(q.as_str());
            if t.as_str().is_empty() {
                None
            } else {
                Some(t)
            }
        },
        None => None,
    };
    proof {
        reveal_strlit("min");
        reveal_strlit("max");
    }
    let min_dimensions = normalized_dimension_filter(inp.min_width, inp.min_height, "min")?;
    let max_dimensions = normalized_dimension_filter(inp.max_width, inp.max_height, "max")?;
    Ok(
        (
            limit,
            PuzzleRecordFilters {
                query,
                min_dimensions,
                max_dimensions,
                min_given_percent: inp.min_given_percent,
                max_given_percent: inp.max_given_percent,
            },
        ),
    )
}

/// The puzzle cards of stored summaries, in order.
pub fn summaries(records: Vec<PuzzleSummaryRecord>) -> (out: Vec<PuzzleSummary>)
    requires
        forall|i: int| 0 <= i < records@.len() ==> summary_fits(#[trigger] records@[i]),
    ensures
        out@.len() == records@.len(),
        forall|i: int| 0 <= i < records@.len() ==> card_of(#[trigger] out@[i], records@[i]),
{
    let ghost orig = records@;
    let mut rest = records;
    let mut out: Vec<PuzzleSummary> = Vec::new();
    let n = rest.len();
    let mut i: usize = 0;
    while i < n
        invariant
            n == orig.len(),
            i <= n,
            rest@ == orig.subrange(i as int, n as int),
            out@.len() == i,
            forall|k: int| 0 <= k < orig.len() ==> summary_fits(#[trigger] orig[k]),
            forall|k: int| 0 <= k < i ==> card_of(#[trigger] out@[k], orig[k]),
        decreases n - i,
    {
        let rec = rest.remove(0);
        proof {
            assert(rec == orig[i as int]);
        }
        out.push(puzzle_summary_from_record(rec));
        proof {
            assert(rest@ =~= orig.subrange(i + 1, n as int));
        }
        i = i + 1;
    }
    out
}

/// The username a profile request names, trimmed; refused when blank.
pub fn profile_username(inp: &ProfileInput) -> (r: Result<String, ErrorResponse>)
    ensures
        r is Err <==> trimmed(inp.username@).len() == 0,
        r matches Err(e) ==> e.0@ == "missing username"@,
        r matches Ok(u) ==> u@ == trimmed(inp.username@),
{
    let u = trim(inp.username.as_str());
    if u.as_str().is_empty() {
        return Err(ErrorResponse(String::from_str("missing username")));
    }
    Ok(u)
}

/// The profile that was found, or an error naming the username.
pub fn require_profile(found: Option<UserProfileRecord>, username: &str) -> (r: Result<UserProfileRecord, ErrorResponse>)
    ensures
        found matches Some(p) ==> r matches Ok(q) && q == p,
        found is None ==> (r matches Err(e) && e.0@ == "invalid username: "@ + username@),
{
    match found {
        Some(p) => Ok(p),
        None => {
            let mut msg = String::from_str("invalid username: ");
            proof {
                reveal_strlit("invalid username: ");
            }
            append_str(&mut msg, username);
            Err(ErrorResponse(msg))
        },
    }
}

/// A profile page from the profile and the user's created and completed
/// puzzles, in the order given.
pub fn profile_output(
    user: UserProfileRecord,
    created: Vec<PuzzleSummaryRecord>,
    completed: Vec<CompletedPuzzleRecord>,
) -> (out: ProfileOutput)
    requires
        forall|i: int| 0 <= i < created@.len() ==> summary_fits(#[trigger] created@[i]),
        forall|i: int| 0 <= i < completed@.len() ==> summary_fits(#[trigger] completed@[i].puzzle),
    ensures
        out.user.username == user.username,
        out.user.display_name == user.display_name,
        out.user.avatar_url == user.avatar_url,
        out.user.official == (user.role@ == "admin"@),
        out.user.created_at == user.created_at,
        out.created_puzzles@.len() == created@.len(),
        forall|i: int| 0 <= i < created@.len() ==> card_of(#[trigger] out.created_puzzles@[i], created@[i]),
        out.completed_puzzles@.len() == completed@.len(),
        forall|i: int|
            0 <= i < completed@.len() ==> card_of((#[trigger] out.completed_puzzles@[i]).puzzle, completed@[i].puzzle)
                && out.completed_puzzles@[i].completion_time_seconds == completed@[i].completion_time_seconds
                && out.completed_puzzles@[i].used_hint == completed@[i].used_hint
                && out.completed_puzzles@[i].completed_at == completed@[i].completed_at,
{
    let created_puzzles = summaries(created);
    let ghost orig = completed@;
    let mut rest = completed;
    let n = rest.len();
    let mut completed_puzzles: Vec<CompletedPuzzleSummary> = Vec::new();
    let mut i: usize = 0;
    while i < n
        invariant
            n == orig.len(),
            i <= n,
            rest@ == orig.subrange(i as int, n as int),
            completed_puzzles@.len() == i,
            forall|k: int| 0 <= k < orig.len() ==> summary_fits(#[trigger] orig[k].puzzle),
            forall|k: int|
                0 <= k < i ==> card_of((#[trigger] completed_puzzles@[k]).puzzle, orig[k].puzzle)
                    && completed_puzzles@[k].completion_time_seconds == orig[k].completion_time_seconds
                    && completed_puzzles@[k].used_hint == orig[k].used_hint
                    && completed_puzzles@[k].completed_at == orig[k].completed_at,
        decreases n - i,
    {
        let rec = rest.remove(0);
        proof {
            assert(rec == orig[i as int]);
        }
        completed_puzzles.push(
            CompletedPuzzleSummary {
                puzzle: puzzle_summary_from_record(rec.puzzle),
                completion_time_seconds: rec.completion_time_seconds,
                used_hint: rec.used_hint,
                completed_at: rec.completed_at,
            },
        );
        proof {
            assert(rest@ =~= orig.subrange(i + 1, n as int));
        }
        i = i + 1;
    }
    let official = is_admin(&user.role);
    ProfileOutput {
        user: ProfileUser {
            username: user.username,
            display_name: user.display_name,
            avatar_url: user.avatar_url,
            official,
            created_at: user.created_at,
        },
        created_puzzles,
        completed_puzzles,
    }
}

/// The pieces of `s` between the `sep` characters, in order (`str::split`).
pub open spec fn split_on(s: Seq<char>, sep: char) -> Seq<Seq<char>>
    decreases s.len(),
{
    if s.len() == 0 {
        seq![Seq::empty()]
    } else {
        let p = split_on(s.drop_last(), sep);
        if s.last() == sep {
            p.push(Seq::empty())
        } else {
            p.update(p.len() - 1, p.last().push(s.last()))
        }
    }
}

proof fn lemma_split_nonempty(s: Seq<char>, sep: char)
    ensures
        split_on(s, sep).len() > 0,
    decreases s.len(),
{
    if s.len() > 0 {
        lemma_split_nonempty(s.drop_last(), sep);
    }
}

/// `origin` is one of the comma-separated entries of `allowed`, each
/// trimmed.
pub open spec fn origin_listed(allowed: Seq<char>, origin: Seq<char>) -> bool {
    exists|i: int| 0 <= i < split_on(allowed, ',').len() && trimmed(#[trigger] split_on(allowed, ',')[i]) == origin
}

/// Whether `origin` is one of the comma-separated entries of `allowed`.
pub fn is_allowed_origin(allowed: &str, origin: &str) -> (b: bool)
    ensures
        b == origin_listed(allowed@, origin@),
{
    let c = str_chars(allowed);
    let mut piece = String::new();
    let mut found = false;
    let mut i: usize = 0;
    proof {
        reveal_strlit("");
        assert(c@.take(0) =~= Seq::<char>::empty());
    }
    while i < c.len()
        invariant
            c@ == allowed@,
            i <= c@.len(),
            split_on(c@.take(i as int), ',').len() > 0,
            piece@ == split_on(c@.take(i as int), ',').last(),
            found == exists|k: int|
                0 <= k < split_on(c@.take(i as int), ',').len() - 1 && trimmed(
                    #[trigger] split_on(c@.take(i as int), ',')[k],
                ) == origin@,
        decreases c@.len() - i,
    {
        let ghost before = split_on(c@.take(i as int), ',');
        proof {
            assert(c@.take(i + 1).drop_last() =~= c@.take(i as int));
            assert(c@.take(i + 1).last() == c@[i as int]);
        }
        if c[i] == ',' {
            let t = trim(piece.as_str());
            if same_text(t.as_str(), origin) {
                found = true;
            }
            piece = String::new();
            proof {
                let after = split_on(c@.take(i + 1), ',');
                assert(after == before.push(Seq::empty()));
                assert forall|k: int| 0 <= k < after.len() - 1 implies #[trigger] after[k] == before[k] by {}
                let ex = exists|k: int| 0 <= k < after.len() - 1 && trimmed(#[trigger] after[k]) == origin@;
                if found {
                    if trimmed(before.last()) == origin@ {
                        assert(trimmed(after[before.len() - 1]) == origin@);
                    } else {
                        let k = choose|k: int| 0 <= k < before.len() - 1 && trimmed(#[trigger] before[k]) == origin@;
                        assert(after[k] == before[k]);
                    }
                    assert(ex);
                }
                if ex {
                    let k = choose|k: int| 0 <= k < after.len() - 1 && trimmed(#[trigger] after[k]) == origin@;
                    assert(after[k] == before[k]);
                    if k < before.len() - 1 {
                        assert(trimmed(before[k]) == origin@);
                    }
                }
            }
        } else {
            push_char(&mut piece, c[i]);
            proof {
                let after = split_on(c@.take(i + 1), ',');
                assert(after.len() == before.len());
                assert forall|k: int| 0 <= k < after.len() - 1 implies #[trigger] after[k] == before[k] by {}
                let ex = exists|k: int| 0 <= k < after.len() - 1 && trimmed(#[trigger] after[k]) == origin@;
                if found {
                    let k = choose|k: int| 0 <= k < before.len() - 1 && trimmed(#[trigger] before[k]) == origin@;
                    assert(after[k] == before[k]);
                }
                if ex {
                    let k = choose|k: int| 0 <= k < after.len() - 1 && trimmed(#[trigger] after[k]) == origin@;
                    assert(after[k] == before[k]);
                }
            }
        }
        i = i + 1;
    }
    let t = trim(piece.as_str());
    let last = same_text(t.as_str(), origin);
    proof {
        assert(c@.take(c@.len() as int) =~= c@);
        lemma_split_nonempty(allowed@, ',');
        let ps = split_on(allowed@, ',');
        if found || last {
            if last {
                assert(trimmed(ps[ps.len() - 1]) == origin@);
            }
        }
        if origin_listed(allowed@, origin@) {
            let k = choose|k: int| 0 <= k < ps.len() && trimmed(#[trigger] ps[k]) == origin@;
            if k < ps.len() - 1 {
                assert(found);
            }
        }
    }
    found || last
}

/// The message for a browser origin that is not allowed.
pub open spec fn forbidden_origin() -> Seq<char> {
    "Forbidden origin"@
}

/// Checks a request's origin against the allowed list: requests without an
/// origin pass, listed origins pass and are given back, others are refused.
pub fn require_allowed_origin(origin: Option<&str>, allowed: Option<&str>) -> (r: Result<Option<String>, ErrorResponse>)
    ensures
        origin is None ==> r matches Ok(None),
        origin matches Some(o) ==> match allowed {
            Some(a) => if origin_listed(a@, o@) {
                r matches Ok(Some(s)) && s@ == o@
            } else {
                r matches Err(e) && e.0@ == forbidden_origin()
            },
            None => r matches Err(e) && e.0@ == forbidden_origin(),
        },
{
    let o = match origin {
        None => return Ok(None),
        Some(o) => o,
    };
    let ok = match allowed {
        Some(a) => is_allowed_origin(a, o),
        None => false,
    };
    if ok {
        Ok(Some(String::from_str(o)))
    } else {
        Err(ErrorResponse(String::from_str("Forbidden origin")))
    }
}

/// The headers of a response to an allowed browser origin.
pub open spec fn cors_header_views(origin: Seq<char>) -> Seq<(Seq<char>, Seq<char>)> {
    seq![
        ("Access-Control-Allow-Origin"@, origin),
        ("Access-Control-Allow-Methods"@, "GET,POST,PATCH,OPTIONS"@),
        ("Access-Control-Allow-Headers"@, "Content-Type,Authorization"@),
        ("Vary"@, "Origin"@),
    ]
}

/// The headers of a response to an allowed browser origin, as name and
/// value.
pub fn cors_headers(origin: &str) -> (h: Vec<(String, String)>)
    ensures
        Seq::new(h@.len(), |i: int| (h@[i].0@, h@[i].1@)) == cors_header_views(origin@),
{
    let mut h: Vec<(String, String)> = Vec::new();
    h.push((String::from_str("Access-Control-Allow-Origin"), String::from_str(origin)));
    h.push((String::from_str("Access-Control-Allow-Methods"), String::from_str("GET,POST,PATCH,OPTIONS")));
    h.push((String::from_str("Access-Control-Allow-Headers"), String::from_str("Content-Type,Authorization")));
    h.push((String::from_str("Vary"), String::from_str("Origin")));
    proof {
        assert(Seq::new(h@.len(), |i: int| (h@[i].0@, h@[i].1@)) =~= cors_header_views(origin@));
    }
    h
}

/// The status of a JSON answer: 200 for a result, 400 for an error.
pub fn json_status(is_ok: bool) -> (s: u16)
    ensures
        s == if is_ok { 200u16 } else { 400u16 },
{
    if is_ok {
        200
    } else {
        400
    }
}

} // verus!
