//! The database statements the site runs.
use vstd::prelude::*;

use super::helper::invalid_puzzle_id;
use super::records::{hyphenated, parse_uuid, parsed_uuid, uuid_text, PuzzleRecordFilters, PuzzleStat};
use crate::text::{append_str, push_char};

verus! {

/// A value bound to a statement's placeholder.
pub enum SqlArg {
    Text(String),
    Int(i32),
    BigInt(i64),
}

/// A bound value as the contracts see it.
pub enum ArgView {
    Text(Seq<char>),
    Int(i32),
    BigInt(i64),
}

/// The view of a bound value.
pub open spec fn arg_view(a: SqlArg) -> ArgView {
    match a {
        SqlArg::Text(s) => ArgView::Text(s@),
        SqlArg::Int(i) => ArgView::Int(i),
        SqlArg::BigInt(i) => ArgView::BigInt(i),
    }
}

/// The views of bound values.
pub open spec fn arg_views(v: Seq<SqlArg>) -> Seq<ArgView> {
    Seq::new(v.len(), |i: int| arg_view(v[i]))
}

/// The decimal digits of `n`.
pub open spec fn decimal(n: nat) -> Seq<char>
    decreases n,
{
    if n < 10 {
        seq![(n + '0' as nat) as char]
    } else {
        decimal(n / 10).push(((n % 10) + '0' as nat) as char)
    }
}

/// Placeholder number `n`: `$n`.
pub open spec fn placeholder(n: nat) -> Seq<char> {
    "$"@ + decimal(n)
}

/// Appends the decimal digits of `n`.
pub(crate) fn push_decimal(s: &mut String, n: u64)
    ensures
        final(s)@ == old(s)@ + decimal(n as nat),
    decreases n,
{
    if n < 10 {
        push_char(s, ((n as u8) + 48u8) as char);
        proof {
            assert(old(s)@.push((n + '0' as nat) as char) =~= old(s)@ + decimal(n as nat));
        }
    } else {
        push_decimal(s, n / 10);
        push_char(s, (((n % 10) as u8) + 48u8) as char);
        proof {
            assert(old(s)@ + decimal((n / 10) as nat) + seq![((n % 10) + '0' as nat) as char] =~= old(s)@ + decimal(
                n as nat,
            ));
        }
    }
}

/// The columns and tables of a puzzle listing.
pub open spec fn list_select() -> Seq<char> {
    "SELECT p.id, p.name, p.description, p.width, p.height, p.letters, COALESCE(ps.plays, 0) AS plays, COALESCE(ps.completions, 0) AS completions, COALESCE(ps.likes, 0) AS likes, p.created_at::text AS created_at, u.username AS creator_username, u.display_name AS creator_display_name, u.role AS creator_role FROM puzzles p LEFT JOIN puzzle_stats ps ON ps.puzzle_id = p.id JOIN users u ON u.id = p.created_by_user_id"@
}

/// The rounded percentage of given letters, computed by the database with
/// the same integer arithmetic as the site's summaries.
pub open spec fn percent_sql() -> Seq<char> {
    "((length(replace(replace(p.letters, '_', ''), '!', '')) * 100 + (p.width * p.height / 2)) / (p.width * p.height))"@
}

/// Conditions of a listing and the values they bind, placeholders counted
/// from 1.
pub struct Conditions {
    pub texts: Seq<Seq<char>>,
    pub args: Seq<ArgView>,
}

/// Adds a condition and its values.
pub open spec fn add_condition(c: Conditions, text: Seq<char>, args: Seq<ArgView>) -> Conditions {
    Conditions { texts: c.texts.push(text), args: c.args + args }
}

/// The next free placeholder after `c`.
pub open spec fn next_slot(c: Conditions) -> nat {
    c.args.len() + 1
}

/// The condition of the text query, if any.
pub open spec fn step_text(f: PuzzleRecordFilters, c: Conditions) -> Conditions {
    match f.query {
        Some(q) => {
            let pattern = "%"@ + q@ + "%"@;
            add_condition(
                c,
                "(p.name ILIKE "@ + placeholder(next_slot(c)) + " OR p.description ILIKE "@ + placeholder(
                    next_slot(c) + 1,
                ) + ")"@,
                seq![ArgView::Text(pattern), ArgView::Text(pattern)],
            )
        },
        None => c,
    }
}

/// The condition of a pair of dimension bounds, if any; `op` compares.
pub open spec fn step_dims(dims: Option<(usize, usize)>, op: Seq<char>, c: Conditions) -> Conditions {
    match dims {
        Some((small, large)) => add_condition(
            c,
            "LEAST(p.width, p.height) "@ + op + " "@ + placeholder(next_slot(c)) + " AND GREATEST(p.width, p.height) "@
                + op + " "@ + placeholder(next_slot(c) + 1),
            seq![ArgView::Int(small as i32), ArgView::Int(large as i32)],
        ),
        None => c,
    }
}

/// The condition of a percent bound, if any; `op` compares.
pub open spec fn step_percent(p: Option<u8>, op: Seq<char>, c: Conditions) -> Conditions {
    match p {
        Some(v) => add_condition(c, percent_sql() + " "@ + op + " "@ + placeholder(next_slot(c)), seq![ArgView::Int(v as i32)]),
        None => c,
    }
}

/// The conditions of a listing's filters, in the order text, minimum
/// dimensions, maximum dimensions, minimum percent, maximum percent.
pub open spec fn list_conditions(f: PuzzleRecordFilters) -> Conditions {
    let c0 = Conditions { texts: Seq::empty(), args: Seq::empty() };
    step_percent(
        f.max_given_percent,
        "<="@,
        step_percent(
            f.min_given_percent,
            ">="@,
            step_dims(f.max_dimensions, "<="@, step_dims(f.min_dimensions, ">="@, step_text(f, c0))),
        ),
    )
}

/// The conditions joined into a `WHERE` clause; nothing when there are none.
pub open spec fn where_clause(texts: Seq<Seq<char>>) -> Seq<char>
    decreases texts.len(),
{
    if texts.len() == 0 {
        Seq::empty()
    } else {
        where_clause(texts.drop_last()) + (if texts.len() == 1 {
            " WHERE "@
        } else {
            " AND "@
        }) + texts.last()
    }
}

/// The statement of a listing: matching puzzles by name, at most `limit`.
pub open spec fn list_sql(limit: usize, f: PuzzleRecordFilters) -> Seq<char> {
    let c = list_conditions(f);
    list_select() + where_clause(c.texts) + " ORDER BY p.name ASC LIMIT "@ + placeholder(next_slot(c))
}

/// The values a listing binds, in placeholder order.
pub open spec fn list_args(limit: usize, f: PuzzleRecordFilters) -> Seq<ArgView> {
    list_conditions(f).args.push(ArgView::BigInt(limit as i64))
}

/// A statement being built: its text, its values and whether it has a
/// `WHERE` yet.
struct Builder {
    sql: String,
    args: Vec<SqlArg>,
    has_where: bool,
}

impl Builder {
    /// Starts a condition: ` WHERE ` for the first, ` AND ` after.
    fn push_where(&mut self)
        ensures
            final(self).sql@ == old(self).sql@ + if old(self).has_where {
                " AND "@
            } else {
                " WHERE "@
            },
            final(self).has_where,
            final(self).args == old(self).args,
    {
        if self.has_where {
            append_str(&mut self.sql, " AND ");
        } else {
            append_str(&mut self.sql, " WHERE ");
            self.has_where = true;
        }
    }

    /// Binds a value at the next placeholder.
    fn push_bind(&mut self, a: SqlArg)
        requires
            old(self).args@.len() < usize::MAX,
        ensures
            final(self).sql@ == old(self).sql@ + placeholder((old(self).args@.len() + 1) as nat),
            final(self).args@ == old(self).args@.push(a),
            final(self).has_where == old(self).has_where,
    {
        push_char(&mut self.sql, '$');
        push_decimal(&mut self.sql, (self.args.len() + 1) as u64);
        proof {
            reveal_strlit("$");
            assert(old(self).sql@.push('$') + decimal((old(self).args@.len() + 1) as nat) =~= old(self).sql@
                + placeholder((old(self).args@.len() + 1) as nat));
        }
        self.args.push(a);
    }
}

/// The builder holds the statement and values of `c`.
pub open spec fn builds(sql: Seq<char>, args: Seq<ArgView>, has_where: bool, c: Conditions) -> bool {
    &&& sql == list_select() + where_clause(c.texts)
    &&& args == c.args
    &&& has_where == (c.texts.len() > 0)
    &&& c.args.len() <= 8
}

/// Adding a condition adds its separator and its text to the clause.
proof fn lemma_where_push(texts: Seq<Seq<char>>, t: Seq<char>)
    ensures
        where_clause(texts.push(t)) == where_clause(texts) + (if texts.len() == 0 {
            " WHERE "@
        } else {
            " AND "@
        }) + t,
{
    assert(texts.push(t).drop_last() =~= texts);
}

/// `sql` holds the condition `cond` compared with a placeholder whose bound
/// value is `value`.
pub open spec fn binds(sql: Seq<char>, args: Seq<ArgView>, cond: Seq<char>, value: ArgView) -> bool {
    exists|pre: Seq<char>, post: Seq<char>, k: nat|
        #![trigger pre + cond + placeholder(k) + post]
        sql == pre + cond + placeholder(k) + post && 1 <= k <= args.len() && args[k - 1] == value
}

/// `d` is `c` with conditions and values added after them.
spec fn grows(c: Conditions, d: Conditions) -> bool {
    &&& c.texts.len() <= d.texts.len()
    &&& d.texts.subrange(0, c.texts.len() as int) == c.texts
    &&& c.args.len() <= d.args.len()
    &&& d.args.subrange(0, c.args.len() as int) == c.args
}

/// Each condition of a list stands in its `WHERE` clause.
proof fn lemma_where_contains(texts: Seq<Seq<char>>, j: int) -> (r: (Seq<char>, Seq<char>))
    requires
        0 <= j < texts.len(),
    ensures
        where_clause(texts) == r.0 + texts[j] + r.1,
    decreases texts.len(),
{
    let sep: Seq<char> = if texts.len() == 1 {
        " WHERE "@
    } else {
        " AND "@
    };
    if j == texts.len() - 1 {
        let pre = where_clause(texts.drop_last()) + sep;
        assert(where_clause(texts) =~= pre + texts[j] + Seq::<char>::empty());
        (pre, Seq::empty())
    } else {
        let (pre, post) = lemma_where_contains(texts.drop_last(), j);
        assert(texts.drop_last()[j] == texts[j]);
        let post2 = post + sep + texts.last();
        assert(where_clause(texts) =~= pre + texts[j] + post2);
        (pre, post2)
    }
}

/// Growing is transitive.
proof fn lemma_grows_trans(a: Conditions, b: Conditions, c: Conditions)
    requires
        grows(a, b),
        grows(b, c),
    ensures
        grows(a, c),
{
    assert(c.texts.subrange(0, a.texts.len() as int) =~= b.texts.subrange(0, a.texts.len() as int));
    assert(c.args.subrange(0, a.args.len() as int) =~= b.args.subrange(0, a.args.len() as int));
}

/// Adding a condition grows the conditions.
proof fn lemma_add_grows(c: Conditions, text: Seq<char>, args: Seq<ArgView>)
    ensures
        grows(c, add_condition(c, text, args)),
{
    let d = add_condition(c, text, args);
    assert(d.texts.subrange(0, c.texts.len() as int) =~= c.texts);
    assert(d.args.subrange(0, c.args.len() as int) =~= c.args);
}

/// Each step of a listing grows its conditions.
proof fn lemma_steps_grow(f: PuzzleRecordFilters)
    ensures
        ({
            let c0 = Conditions { texts: Seq::empty(), args: Seq::empty() };
            let c1 = step_text(f, c0);
            let c2 = step_dims(f.min_dimensions, ">="@, c1);
            let c3 = step_dims(f.max_dimensions, "<="@, c2);
            let c4 = step_percent(f.min_given_percent, ">="@, c3);
            let c5 = step_percent(f.max_given_percent, "<="@, c4);
            &&& grows(c1, c5)
            &&& grows(c2, c5)
            &&& grows(c3, c5)
            &&& grows(c4, c5)
            &&& c5 == list_conditions(f)
        }),
{
    let c0 = Conditions { texts: Seq::empty(), args: Seq::empty() };
    let c1 = step_text(f, c0);
    let c2 = step_dims(f.min_dimensions, ">="@, c1);
    let c3 = step_dims(f.max_dimensions, "<="@, c2);
    let c4 = step_percent(f.min_given_percent, ">="@, c3);
    let c5 = step_percent(f.max_given_percent, "<="@, c4);
    assert forall|c: Conditions| grows(c, c) by {
        assert(c.texts.subrange(0, c.texts.len() as int) =~= c.texts);
        assert(c.args.subrange(0, c.args.len() as int) =~= c.args);
    }
    match f.min_dimensions {
        Some((a, b)) => lemma_add_grows(c1, c2.texts.last(), seq![ArgView::Int(a as i32), ArgView::Int(b as i32)]),
        None => {},
    }
    match f.max_dimensions {
        Some((a, b)) => lemma_add_grows(c2, c3.texts.last(), seq![ArgView::Int(a as i32), ArgView::Int(b as i32)]),
        None => {},
    }
    match f.min_given_percent {
        Some(v) => lemma_add_grows(c3, c4.texts.last(), seq![ArgView::Int(v as i32)]),
        None => {},
    }
    match f.max_given_percent {
        Some(v) => lemma_add_grows(c4, c5.texts.last(), seq![ArgView::Int(v as i32)]),
        None => {},
    }
    lemma_grows_trans(c3, c4, c5);
    lemma_grows_trans(c2, c3, c5);
    lemma_grows_trans(c1, c2, c5);
}

/// A condition added on the way to a listing's conditions stands in the
/// listing's statement, bound to its value.
proof fn lemma_condition_listed(
    limit: usize,
    f: PuzzleRecordFilters,
    c: Conditions,
    lead: Seq<char>,
    cond: Seq<char>,
    k: nat,
    tail: Seq<char>,
    value: ArgView,
)
    requires
        grows(c, list_conditions(f)),
        c.texts.len() > 0,
        c.texts.last() == lead + cond + placeholder(k) + tail,
        1 <= k <= c.args.len(),
        c.args[k - 1] == value,
    ensures
        binds(list_sql(limit, f), list_args(limit, f), cond, value),
{
    let d = list_conditions(f);
    let j = c.texts.len() - 1;
    assert(d.texts[j] == d.texts.subrange(0, c.texts.len() as int)[j]);
    assert(d.args[k - 1] == d.args.subrange(0, c.args.len() as int)[k - 1]);
    let (pre, post) = lemma_where_contains(d.texts, j);
    let pre2 = list_select() + pre + lead;
    let post2 = tail + post + " ORDER BY p.name ASC LIMIT "@ + placeholder(next_slot(d));
    assert(list_sql(limit, f) =~= pre2 + cond + placeholder(k) + post2);
    assert(list_args(limit, f)[k - 1] == value);
}

/// A listing with a minimum or maximum share of given letters compares the
/// share the database computes with `>=` (minimum) or `<=` (maximum) against
/// a placeholder bound to that bound.
pub proof fn lemma_percent_bounds_listed(limit: usize, f: PuzzleRecordFilters)
    ensures
        f.min_given_percent matches Some(v) ==> binds(
            list_sql(limit, f),
            list_args(limit, f),
            percent_sql() + " >= "@,
            ArgView::Int(v as i32),
        ),
        f.max_given_percent matches Some(v) ==> binds(
            list_sql(limit, f),
            list_args(limit, f),
            percent_sql() + " <= "@,
            ArgView::Int(v as i32),
        ),
{
    lemma_steps_grow(f);
    let c0 = Conditions { texts: Seq::empty(), args: Seq::empty() };
    let c1 = step_text(f, c0);
    let c2 = step_dims(f.min_dimensions, ">="@, c1);
    let c3 = step_dims(f.max_dimensions, "<="@, c2);
    let c4 = step_percent(f.min_given_percent, ">="@, c3);
    let c5 = step_percent(f.max_given_percent, "<="@, c4);
    reveal_strlit(" ");
    reveal_strlit(">=");
    reveal_strlit("<=");
    reveal_strlit(" >= ");
    reveal_strlit(" <= ");
    assert(c5.texts.subrange(0, c5.texts.len() as int) =~= c5.texts);
    assert(c5.args.subrange(0, c5.args.len() as int) =~= c5.args);
    if let Some(v) = f.min_given_percent {
        let k = next_slot(c3);
        assert(c4.texts.last() =~= Seq::<char>::empty() + (percent_sql() + " >= "@) + placeholder(k) + Seq::<char>::empty());
        lemma_condition_listed(limit, f, c4, Seq::empty(), percent_sql() + " >= "@, k, Seq::empty(), ArgView::Int(v as i32));
    }
    if let Some(v) = f.max_given_percent {
        let k = next_slot(c4);
        assert(c5.texts.last() =~= Seq::<char>::empty() + (percent_sql() + " <= "@) + placeholder(k) + Seq::<char>::empty());
        lemma_condition_listed(limit, f, c5, Seq::empty(), percent_sql() + " <= "@, k, Seq::empty(), ArgView::Int(v as i32));
    }
}

/// A listing with a text query matches it, with `%` around it, against both
/// the name and the description of each puzzle.
pub proof fn lemma_query_listed(limit: usize, f: PuzzleRecordFilters)
    ensures
        f.query matches Some(q) ==> binds(
            list_sql(limit, f),
            list_args(limit, f),
            "(p.name ILIKE "@,
            ArgView::Text("%"@ + q@ + "%"@),
        ) && binds(
            list_sql(limit, f),
            list_args(limit, f),
            " OR p.description ILIKE "@,
            ArgView::Text("%"@ + q@ + "%"@),
        ),
{
    lemma_steps_grow(f);
    let c0 = Conditions { texts: Seq::empty(), args: Seq::empty() };
    let c1 = step_text(f, c0);
    if let Some(q) = f.query {
        let pattern = "%"@ + q@ + "%"@;
        let name = "(p.name ILIKE "@;
        let desc = " OR p.description ILIKE "@;
        assert(c1.texts.last() =~= Seq::<char>::empty() + name + placeholder(1) + (desc + placeholder(2) + ")"@));
        lemma_condition_listed(limit, f, c1, Seq::empty(), name, 1, desc + placeholder(2) + ")"@, ArgView::Text(pattern));
        assert(c1.texts.last() =~= (name + placeholder(1)) + desc + placeholder(2) + ")"@);
        lemma_condition_listed(limit, f, c1, name + placeholder(1), desc, 2, ")"@, ArgView::Text(pattern));
    }
}

/// A listing ends by ordering puzzles by name and limiting them to `limit`,
/// bound at its last placeholder; with no filters it has no conditions.
pub proof fn lemma_limit_listed(limit: usize, f: PuzzleRecordFilters)
    ensures
        exists|pre: Seq<char>|
            #![trigger pre + " ORDER BY p.name ASC LIMIT "@]
            list_sql(limit, f) == pre + " ORDER BY p.name ASC LIMIT "@ + placeholder(list_args(limit, f).len()),
        list_args(limit, f).last() == ArgView::BigInt(limit as i64),
        f.query is None && f.min_dimensions is None && f.max_dimensions is None && f.min_given_percent is None
            && f.max_given_percent is None ==> list_sql(limit, f) == list_select() + " ORDER BY p.name ASC LIMIT "@
            + placeholder(1) && list_args(limit, f) == seq![ArgView::BigInt(limit as i64)],
{
    let c = list_conditions(f);
    let pre = list_select() + where_clause(c.texts);
    assert(list_sql(limit, f) == pre + " ORDER BY p.name ASC LIMIT "@ + placeholder(list_args(limit, f).len()));
    if f.query is None && f.min_dimensions is None && f.max_dimensions is None && f.min_given_percent is None
        && f.max_given_percent is None {
        assert(where_clause(c.texts) =~= Seq::<char>::empty());
        assert(pre =~= list_select());
        assert(list_args(limit, f) =~= seq![ArgView::BigInt(limit as i64)]);
    }
}

/// A listing with minimum or maximum dimensions compares the shorter side
/// and the longer side of each puzzle, with `>=` (minimum) or `<=` (maximum),
/// against placeholders bound to the smaller and the larger bound.
pub proof fn lemma_dimension_bounds_listed(limit: usize, f: PuzzleRecordFilters)
    ensures
        f.min_dimensions matches Some((small, large)) ==> binds(
            list_sql(limit, f),
            list_args(limit, f),
            "LEAST(p.width, p.height) >= "@,
            ArgView::Int(small as i32),
        ) && binds(
            list_sql(limit, f),
            list_args(limit, f),
            "GREATEST(p.width, p.height) >= "@,
            ArgView::Int(large as i32),
        ),
        f.max_dimensions matches Some((small, large)) ==> binds(
            list_sql(limit, f),
            list_args(limit, f),
            "LEAST(p.width, p.height) <= "@,
            ArgView::Int(small as i32),
        ) && binds(
            list_sql(limit, f),
            list_args(limit, f),
            "GREATEST(p.width, p.height) <= "@,
            ArgView::Int(large as i32),
        ),
{
    lemma_steps_grow(f);
    let c0 = Conditions { texts: Seq::empty(), args: Seq::empty() };
    let c1 = step_text(f, c0);
    let c2 = step_dims(f.min_dimensions, ">="@, c1);
    let c3 = step_dims(f.max_dimensions, "<="@, c2);
    if let Some((small, large)) = f.min_dimensions {
        let k = next_slot(c1);
        let least = "LEAST(p.width, p.height) >= "@;
        let greatest = "GREATEST(p.width, p.height) >= "@;
        reveal_strlit("LEAST(p.width, p.height) ");
        reveal_strlit(" ");
        reveal_strlit(" AND GREATEST(p.width, p.height) ");
        reveal_strlit(">=");
        reveal_strlit("LEAST(p.width, p.height) >= ");
        reveal_strlit("GREATEST(p.width, p.height) >= ");
        reveal_strlit(" AND ");
        assert(c2.texts.last() =~= Seq::<char>::empty() + least + placeholder(k) + (" AND "@ + greatest + placeholder(
            k + 1,
        )));
        lemma_condition_listed(limit, f, c2, Seq::empty(), least, k, " AND "@ + greatest + placeholder(k + 1), ArgView::Int(small as i32));
        assert(c2.texts.last() =~= (least + placeholder(k) + " AND "@) + greatest + placeholder(k + 1) + Seq::<char>::empty());
        lemma_condition_listed(
            limit,
            f,
            c2,
            least + placeholder(k) + " AND "@,
            greatest,
            k + 1,
            Seq::empty(),
            ArgView::Int(large as i32),
        );
    }
    if let Some((small, large)) = f.max_dimensions {
        let k = next_slot(c2);
        let least = "LEAST(p.width, p.height) <= "@;
        let greatest = "GREATEST(p.width, p.height) <= "@;
        reveal_strlit("LEAST(p.width, p.height) ");
        reveal_strlit(" ");
        reveal_strlit(" AND GREATEST(p.width, p.height) ");
        reveal_strlit("<=");
        reveal_strlit("LEAST(p.width, p.height) <= ");
        reveal_strlit("GREATEST(p.width, p.height) <= ");
        reveal_strlit(" AND ");
        assert(c3.texts.last() =~= Seq::<char>::empty() + least + placeholder(k) + (" AND "@ + greatest + placeholder(
            k + 1,
        )));
        lemma_condition_listed(limit, f, c3, Seq::empty(), least, k, " AND "@ + greatest + placeholder(k + 1), ArgView::Int(small as i32));
        assert(c3.texts.last() =~= (least + placeholder(k) + " AND "@) + greatest + placeholder(k + 1) + Seq::<char>::empty());
        lemma_condition_listed(
            limit,
            f,
            c3,
            least + placeholder(k) + " AND "@,
            greatest,
            k + 1,
            Seq::empty(),
            ArgView::Int(large as i32),
        );
    }
}

impl Builder {
    /// Adds a dimension condition when there is one.
    fn push_dims(&mut self, dims: Option<(usize, usize)>, op: &str, Ghost(c): Ghost<Conditions>)
        requires
            builds(old(self).sql@, arg_views(old(self).args@), old(self).has_where, c),
            c.args.len() <= 4,
        ensures
            builds(final(self).sql@, arg_views(final(self).args@), final(self).has_where, step_dims(dims, op@, c)),
            step_dims(dims, op@, c).args.len() <= c.args.len() + 2,
    {
        if let Some((small, large)) = dims {
            let ghost sql0 = self.sql@;
            self.push_where();
            append_str(&mut self.sql, "LEAST(p.width, p.height) ");
            append_str(&mut self.sql, op);
            append_str(&mut self.sql, " ");
            proof {
                assert(self.args@.len() == c.args.len()) by {
                    assert(arg_views(self.args@).len() == self.args@.len());
                }
            }
            self.push_bind(SqlArg::Int(small as i32));
            append_str(&mut self.sql, " AND GREATEST(p.width, p.height) ");
            append_str(&mut self.sql, op);
            append_str(&mut self.sql, " ");
            self.push_bind(SqlArg::Int(large as i32));
            proof {
                reveal_strlit(" ");
                let n = step_dims(dims, op@, c);
                let text = n.texts.last();
                assert(n.texts =~= c.texts.push(text));
                lemma_where_push(c.texts, text);
                assert(self.sql@ =~= sql0 + (if c.texts.len() == 0 {
                    " WHERE "@
                } else {
                    " AND "@
                }) + text);
                assert(self.sql@ =~= list_select() + where_clause(n.texts));
                assert(arg_views(self.args@) =~= n.args);
            }
        }
    }

    /// Adds a percent condition when there is one.
    fn push_percent(&mut self, p: Option<u8>, op: &str, Ghost(c): Ghost<Conditions>)
        requires
            builds(old(self).sql@, arg_views(old(self).args@), old(self).has_where, c),
            c.args.len() <= 7,
        ensures
            builds(final(self).sql@, arg_views(final(self).args@), final(self).has_where, step_percent(p, op@, c)),
            step_percent(p, op@, c).args.len() <= c.args.len() + 1,
    {
        if let Some(v) = p {
            let ghost sql0 = self.sql@;
            self.push_where();
            append_str(
                &mut self.sql,
                "((length(replace(replace(p.letters, '_', ''), '!', '')) * 100 + (p.width * p.height / 2)) / (p.width * p.height))",
            );
            append_str(&mut self.sql, " ");
            append_str(&mut self.sql, op);
            append_str(&mut self.sql, " ");
            proof {
                assert(self.args@.len() == c.args.len()) by {
                    assert(arg_views(self.args@).len() == self.args@.len());
                }
            }
            self.push_bind(SqlArg::Int(v as i32));
            proof {
                let n = step_percent(p, op@, c);
                let text = n.texts.last();
                assert(n.texts =~= c.texts.push(text));
                lemma_where_push(c.texts, text);
                assert(self.sql@ =~= sql0 + (if c.texts.len() == 0 {
                    " WHERE "@
                } else {
                    " AND "@
                }) + text);
                assert(self.sql@ =~= list_select() + where_clause(n.texts));
                assert(arg_views(self.args@) =~= n.args);
            }
        }
    }
}

/// The statement and values that list puzzles matching `filters`, ordered
/// by name, at most `limit`.
pub fn list_puzzle_query(limit: usize, filters: PuzzleRecordFilters) -> (r: (String, Vec<SqlArg>))
    ensures
        r.0@ == list_sql(limit, filters),
        arg_views(r.1@) == list_args(limit, filters),
{
    let ghost f = filters;
    let ghost c0 = Conditions { texts: Seq::empty(), args: Seq::empty() };
    let mut b = Builder {
        sql: String::from_str(
            "SELECT p.id, p.name, p.description, p.width, p.height, p.letters, COALESCE(ps.plays, 0) AS plays, COALESCE(ps.completions, 0) AS completions, COALESCE(ps.likes, 0) AS likes, p.created_at::text AS created_at, u.username AS creator_username, u.display_name AS creator_display_name, u.role AS creator_role FROM puzzles p LEFT JOIN puzzle_stats ps ON ps.puzzle_id = p.id JOIN users u ON u.id = p.created_by_user_id",
        ),
        args: Vec::new(),
        has_where: false,
    };
    proof {
        assert(list_select() + where_clause(c0.texts) =~= list_select());
        assert(arg_views(b.args@) =~= c0.args);
    }
    if let Some(text_query) = filters.query {
        let ghost sql0 = b.sql@;
        let mut pattern = String::from_str("%");
        append_str(&mut pattern, text_query.as_str());
        push_char(&mut pattern, '%');
        proof {
            reveal_strlit("%");
            assert(pattern@ =~= "%"@ + text_query@ + "%"@);
        }
        b.push_where();
        append_str(&mut b.sql, "(p.name ILIKE ");
        b.push_bind(SqlArg::Text(pattern.clone()));
        append_str(&mut b.sql, " OR p.description ILIKE ");
        b.push_bind(SqlArg::Text(pattern));
        append_str(&mut b.sql, ")");
        proof {
            let n = step_text(f, c0);
            assert(n.texts =~= c0.texts.push(n.texts.last()));
            lemma_where_push(c0.texts, n.texts.last());
            assert(b.sql@ =~= sql0 + " WHERE "@ + n.texts.last());
            assert(b.sql@ =~= list_select() + where_clause(n.texts));
            assert(arg_views(b.args@) =~= n.args);
        }
    }
    let ghost c1 = step_text(f, c0);
    proof {
        reveal_strlit(">=");
        reveal_strlit("<=");
    }
    b.push_dims(filters.min_dimensions, ">=", Ghost(c1));
    let ghost c2 = step_dims(f.min_dimensions, ">="@, c1);
    b.push_dims(filters.max_dimensions, "<=", Ghost(c2));
    let ghost c3 = step_dims(f.max_dimensions, "<="@, c2);
    b.push_percent(filters.min_given_percent, ">=", Ghost(c3));
    let ghost c4 = step_percent(f.min_given_percent, ">="@, c3);
    b.push_percent(filters.max_given_percent, "<=", Ghost(c4));
    let ghost c5 = step_percent(f.max_given_percent, "<="@, c4);
    append_str(&mut b.sql, " ORDER BY p.name ASC LIMIT ");
    proof {
        assert(b.args@.len() == c5.args.len()) by {
            assert(arg_views(b.args@).len() == b.args@.len());
        }
    }
    b.push_bind(SqlArg::BigInt(limit as i64));
    proof {
        assert(arg_views(b.args@) =~= list_args(limit, filters));
    }
    (b.sql, b.args)
}

/// The statement that counts a play.
pub open spec fn play_update_sql() -> Seq<char> {
    "UPDATE puzzle_stats SET plays = plays + 1 WHERE puzzle_id = $1"@
}

/// The statement that counts a completion.
pub open spec fn completion_update_sql() -> Seq<char> {
    "UPDATE puzzle_stats SET completions = completions + 1 WHERE puzzle_id = $1"@
}

/// The statement that updates a puzzle's counters for `stat`.
pub fn stat_update_sql(stat: PuzzleStat) -> (s: String)
    ensures
        stat is Plays ==> s@ == play_update_sql(),
        stat is Completions ==> s@ == completion_update_sql(),
{
    match stat {
        PuzzleStat::Plays => String::from_str("UPDATE puzzle_stats SET plays = plays + 1 WHERE puzzle_id = $1"),
        PuzzleStat::Completions { .. } => String::from_str(
            "UPDATE puzzle_stats SET completions = completions + 1 WHERE puzzle_id = $1",
        ),
    }
}

/// Whether a completion event row is written: for a completion whose
/// counter update touched a row.
pub fn records_event(stat: PuzzleStat, rows_affected: u64) -> (b: bool)
    ensures
        b == (stat is Completions && rows_affected > 0),
{
    match stat {
        PuzzleStat::Plays => false,
        PuzzleStat::Completions { .. } => rows_affected > 0,
    }
}

/// The result of recording a stat: refused, naming the puzzle's UUID, when
/// no row was updated.
pub fn stat_outcome(rows_affected: u64, puzzle_id: u128) -> (r: Result<(), String>)
    ensures
        r is Ok <==> rows_affected > 0,
        r matches Err(e) ==> e@ == invalid_puzzle_id(hyphenated(puzzle_id)),
{
    if rows_affected == 0 {
        let mut msg = String::from_str("invalid puzzle id: ");
        proof {
            reveal_strlit("invalid puzzle id: ");
        }
        let id = uuid_text(puzzle_id);
        append_str(&mut msg, id.as_str());
        Err(msg)
    } else {
        Ok(())
    }
}

/// The UUID a puzzle id names, as a number; the parser's message when the id
/// is no UUID.
pub fn puzzle_uuid(puzzle_id: &str) -> (r: Result<u128, String>)
    ensures
        r is Ok <==> parsed_uuid(puzzle_id@) is Some,
        r matches Ok(id) ==> parsed_uuid(puzzle_id@) == Some(id),
        forall|id: u128| #[trigger] hyphenated(id) == puzzle_id@ ==> (r is Ok && r->Ok_0 == id),
{
    parse_uuid(puzzle_id)
}

/// What recording a stat runs: the puzzle's UUID and the statement that
/// updates its counter; the parser's message when the id is no UUID.
pub fn stat_request(puzzle_id: &str, stat: PuzzleStat) -> (r: Result<(u128, String), String>)
    ensures
        r is Err <==> parsed_uuid(puzzle_id@) is None,
        r matches Ok((id, sql)) ==> {
            &&& parsed_uuid(puzzle_id@) == Some(id)
            &&& (stat is Plays ==> sql@ == play_update_sql())
            &&& (stat is Completions ==> sql@ == completion_update_sql())
        },
        forall|id: u128| #[trigger] hyphenated(id) == puzzle_id@ ==> (r is Ok && r->Ok_0.0 == id),
{
    match puzzle_uuid(puzzle_id) {
        Ok(id) => Ok((id, stat_update_sql(stat))),
        Err(e) => Err(e),
    }
}

} // verus!
