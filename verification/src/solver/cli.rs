//! The solver's command line: its options, and the dictionary text it reads.
use vstd::prelude::*;

use super::search::{SearchOutcome, SolverOptions};
use crate::dictionary::{lines, lines_of};
use crate::text::{lowercased, same_text, to_lower, trim, trimmed};
use crate::words::views;

verus! {

/// What the command line asks for.
pub struct Args {
    pub puzzle: String,
    pub dict: String,
    pub stats: bool,
    pub max_nodes: Option<u64>,
    pub options: SolverOptions,
}

/// The options read so far from a command line.
pub struct ArgState {
    pub puzzle: Option<Seq<char>>,
    pub dict: Seq<char>,
    pub stats: bool,
    pub max_nodes: Option<u64>,
    pub options: SolverOptions,
}

/// The usage line.
pub open spec fn usage_text() -> Seq<char> {
    "usage: solver [--stats] [--max-nodes N] [--cell-search] [--enable-memo] [--disable-memo] [--full-extra-checks] [--dict path/to/wordlist.txt] path/to/puzzle.json|-"@
}

/// The usage line.
pub fn usage() -> (s: String)
    ensures
        s@ == usage_text(),
{
    String::from_str(
        "usage: solver [--stats] [--max-nodes N] [--cell-search] [--enable-memo] [--disable-memo] [--full-extra-checks] [--dict path/to/wordlist.txt] path/to/puzzle.json|-",
    )
}

/// Every character of `d` is a decimal digit.
pub open spec fn all_digits(d: Seq<char>) -> bool {
    forall|i: int| 0 <= i < d.len() ==> '0' <= #[trigger] d[i] <= '9'
}

/// The number the decimal digits `d` write.
pub open spec fn digits_value(d: Seq<char>) -> nat
    decreases d.len(),
{
    if d.len() == 0 {
        0
    } else {
        digits_value(d.drop_last()) * 10 + (d.last() as nat - '0' as nat) as nat
    }
}

/// The `u64` that `s` writes in decimal, with an optional leading `+`, if
/// it is one.
pub open spec fn parses_u64(s: Seq<char>) -> Option<u64> {
    let d = if s.len() > 0 && s[0] == '+' {
        s.drop_first()
    } else {
        s
    };
    if d.len() > 0 && all_digits(d) && digits_value(d) <= u64::MAX {
        Some(digits_value(d) as u64)
    } else {
        None
    }
}

proof fn lemma_digits_grow(d: Seq<char>, k: int)
    requires
        0 <= k <= d.len(),
        all_digits(d),
    ensures
        digits_value(d.take(k)) <= digits_value(d),
    decreases d.len() - k,
{
    if k < d.len() {
        lemma_digits_grow(d, k + 1);
        assert(d.take(k + 1).drop_last() =~= d.take(k));
    } else {
        assert(d.take(k) =~= d);
    }
}

/// Reads a `u64` written in decimal (as `str::parse::<u64>` does).
pub fn parse_u64(s: &str) -> (r: Option<u64>)
    ensures
        r == parses_u64(s@),
{
    let c = crate::text::str_chars(s);
    let start: usize = if c.len() > 0 && c[0] == '+' {
        1
    } else {
        0
    };
    let ghost d = if s@.len() > 0 && s@[0] == '+' {
        s@.drop_first()
    } else {
        s@
    };
    proof {
        assert(d =~= s@.skip(start as int));
    }
    if start == c.len() {
        return None;
    }
    let mut value: u64 = 0;
    let mut k: usize = start;
    proof {
        assert(d.take(0) =~= Seq::<char>::empty());
    }
    while k < c.len()
        invariant
            c@ == s@,
            start <= k <= c@.len(),
            d == s@.skip(start as int),
            d == (if s@.len() > 0 && s@[0] == '+' {
                s@.drop_first()
            } else {
                s@
            }),
            value == digits_value(d.take(k - start)),
            all_digits(d.take(k - start)),
        decreases c@.len() - k,
    {
        let ch = c[k];
        if !('0' <= ch && ch <= '9') {
            proof {
                assert(d[k - start] == ch);
                assert(!('0' <= d[k - start] && d[k - start] <= '9'));
                assert(!all_digits(d));
            }
            return None;
        }
        let digit = ((ch as u32) - ('0' as u32)) as u64;
        proof {
            assert(d.take(k + 1 - start).drop_last() =~= d.take(k - start));
            assert(d.take(k + 1 - start).last() == ch);
        }
        let next = match value.checked_mul(10) {
            Some(v) => v.checked_add(digit),
            None => None,
        };
        match next {
            Some(v) => {
                value = v;
            },
            None => {
                proof {
                    assert(digits_value(d.take(k + 1 - start)) == value * 10 + digit);
                    assert(digits_value(d.take(k + 1 - start)) > u64::MAX);
                    if all_digits(d) {
                        lemma_digits_grow(d, k + 1 - start);
                    }
                }
                return None;
            },
        }
        k = k + 1;
    }
    proof {
        assert(d.take(d.len() as int) =~= d);
    }
    Some(value)
}

/// Reads the command line from position `i` on, starting from `st`.
pub open spec fn scan_args(args: Seq<Seq<char>>, i: int, st: ArgState) -> Result<ArgState, Seq<char>>
    decreases args.len() - i,
{
    if i < 0 || i >= args.len() {
        Ok(st)
    } else {
        let a = args[i];
        if a == "--dict"@ {
            if i + 1 < args.len() {
                scan_args(args, i + 2, ArgState { dict: args[i + 1], ..st })
            } else {
                Err("--dict requires a path"@)
            }
        } else if a == "--stats"@ {
            scan_args(args, i + 1, ArgState { stats: true, ..st })
        } else if a == "--enable-memo"@ {
            scan_args(args, i + 1, ArgState { options: SolverOptions { disable_memo: false, ..st.options }, ..st })
        } else if a == "--disable-memo"@ {
            scan_args(args, i + 1, ArgState { options: SolverOptions { disable_memo: true, ..st.options }, ..st })
        } else if a == "--full-extra-checks"@ {
            scan_args(
                args,
                i + 1,
                ArgState { options: SolverOptions { full_extra_checks: true, ..st.options }, ..st },
            )
        } else if a == "--cell-search"@ {
            scan_args(args, i + 1, ArgState { options: SolverOptions { cell_search: true, ..st.options }, ..st })
        } else if a == "--max-nodes"@ {
            if i + 1 < args.len() {
                match parses_u64(args[i + 1]) {
                    Some(v) => scan_args(args, i + 2, ArgState { max_nodes: Some(v), ..st }),
                    None => Err("--max-nodes requires a number"@),
                }
            } else {
                Err("--max-nodes requires a number"@)
            }
        } else if st.puzzle is None {
            scan_args(args, i + 1, ArgState { puzzle: Some(a), ..st })
        } else {
            Err(usage_text())
        }
    }
}

/// The state before any argument is read.
pub open spec fn initial_args() -> ArgState {
    ArgState {
        puzzle: None,
        dict: "wordlist/wordlist.txt"@,
        stats: false,
        max_nodes: None,
        options: SolverOptions { disable_memo: true, full_extra_checks: false, cell_search: false },
    }
}

/// The view of the options read so far.
pub open spec fn state_of(
    puzzle: Option<String>,
    dict: String,
    stats: bool,
    max_nodes: Option<u64>,
    options: SolverOptions,
) -> ArgState {
    ArgState {
        puzzle: match puzzle {
            Some(p) => Some(p@),
            None => None,
        },
        dict: dict@,
        stats,
        max_nodes,
        options,
    }
}

/// Reads the command line (the arguments after the program's name).
pub fn parse_args(args: Vec<String>) -> (r: Result<Args, String>)
    ensures
        match scan_args(views(args@), 0, initial_args()) {
            Err(e) => r matches Err(m) && m@ == e,
            Ok(st) => match st.puzzle {
                None => r matches Err(m) && m@ == usage_text(),
                Some(p) => r matches Ok(a) && a.puzzle@ == p && a.dict@ == st.dict && a.stats == st.stats
                    && a.max_nodes == st.max_nodes && a.options == st.options,
            },
        },
{
    let ghost av = views(args@);
    let mut dict = String::from_str("wordlist/wordlist.txt");
    let mut puzzle: Option<String> = None;
    let mut stats = false;
    let mut max_nodes: Option<u64> = None;
    let mut options = SolverOptions::default();
    let mut i: usize = 0;
    proof {
        reveal_strlit("wordlist/wordlist.txt");
    }
    while i < args.len()
        invariant
            av == views(args@),
            i <= args@.len(),
            scan_args(av, 0, initial_args()) == scan_args(av, i as int, state_of(puzzle, dict, stats, max_nodes, options)),
        decreases args@.len() - i,
    {
        let arg = args[i].as_str();
        proof {
            assert(av[i as int] == arg@);
        }
        if same_text(arg, "--dict") {
            if i + 1 < args.len() {
                dict = args[i + 1].clone();
                proof {
                    assert(av[i + 1] == dict@);
                }
                i = i + 2;
            } else {
                return Err(String::from_str("--dict requires a path"));
            }
        } else if same_text(arg, "--stats") {
            stats = true;
            i = i + 1;
        } else if same_text(arg, "--enable-memo") {
            options.disable_memo = false;
            i = i + 1;
        } else if same_text(arg, "--disable-memo") {
            options.disable_memo = true;
            i = i + 1;
        } else if same_text(arg, "--full-extra-checks") {
            options.full_extra_checks = true;
            i = i + 1;
        } else if same_text(arg, "--cell-search") {
            options.cell_search = true;
            i = i + 1;
        } else if same_text(arg, "--max-nodes") {
            if i + 1 < args.len() {
                proof {
                    assert(av[i + 1] == args@[i + 1]@);
                }
                match parse_u64(args[i + 1].as_str()) {
                    Some(v) => {
                        max_nodes = Some(v);
                        i = i + 2;
                    },
                    None => {
                        return Err(String::from_str("--max-nodes requires a number"));
                    },
                }
            } else {
                return Err(String::from_str("--max-nodes requires a number"));
            }
        } else if puzzle.is_none() {
            puzzle = Some(args[i].clone());
            i = i + 1;
        } else {
            return Err(usage());
        }
    }
    match puzzle {
        None => Err(usage()),
        Some(p) => Ok(Args { puzzle: p, dict, stats, max_nodes, options }),
    }
}

/// The words of a dictionary file: each line trimmed, empty lines dropped,
/// the rest lowercased.
pub open spec fn kept_words(ls: Seq<Seq<char>>) -> Seq<Seq<char>>
    decreases ls.len(),
{
    if ls.len() == 0 {
        Seq::empty()
    } else {
        let rest = kept_words(ls.drop_last());
        let t = trimmed(ls.last());
        if t.len() > 0 {
            rest.push(lowercased(t))
        } else {
            rest
        }
    }
}

/// The words of a dictionary file's text, one per nonempty line, trimmed and
/// lowercased.
pub fn parse_words(contents: &str) -> (out: Vec<String>)
    ensures
        views(out@) == kept_words(lines_of(contents@)),
{
    let ls = lines(contents);
    let ghost lv = views(ls@);
    let mut out: Vec<String> = Vec::new();
    let mut i: usize = 0;
    proof {
        assert(lv.take(0) =~= Seq::<Seq<char>>::empty());
        assert(views(out@) =~= Seq::<Seq<char>>::empty());
    }
    while i < ls.len()
        invariant
            i <= ls@.len(),
            lv == views(ls@),
            lv == lines_of(contents@),
            views(out@) == kept_words(lv.take(i as int)),
        decreases ls@.len() - i,
    {
        let t = trim(ls[i].as_str());
        proof {
            assert(lv.take(i + 1).drop_last() =~= lv.take(i as int));
            assert(lv.take(i + 1).last() == ls@[i as int]@);
        }
        let ghost before = out@;
        if !t.as_str().is_empty() {
            out.push(to_lower(t.as_str()));
            proof {
                assert(views(out@) =~= views(before).push(lowercased(t@)));
            }
        }
        i = i + 1;
    }
    proof {
        assert(lv.take(lv.len() as int) =~= lv);
    }
    out
}

/// How a run ends after the search: `Ok(true)` when the solution is to be
/// shown, `Ok(false)` when a run that reports its statistics stopped at its
/// node limit, and otherwise the message the program fails with.
pub fn run_result(outcome: &SearchOutcome, with_stats: bool) -> (r: Result<bool, String>)
    ensures
        *outcome is Found ==> r == Ok::<bool, String>(true),
        *outcome is NodeLimit && with_stats ==> r == Ok::<bool, String>(false),
        *outcome is NodeLimit && !with_stats ==> (r matches Err(e) && e@ == "node limit reached"@),
        *outcome is NotFound ==> (r matches Err(e) && e@ == "no solution found"@),
{
    match outcome {
        SearchOutcome::Found => Ok(true),
        SearchOutcome::NodeLimit => {
            if with_stats {
                Ok(false)
            } else {
                Err(String::from_str("node limit reached"))
            }
        },
        SearchOutcome::NotFound => Err(String::from_str("no solution found")),
    }
}

} // verus!
