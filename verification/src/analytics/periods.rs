//! The periods a selected range is compared against: the current calendar
//! week, month or year with the five before it, a full week, month or year
//! with the five before it, or any other span with the five equally long
//! spans before it. Calendar arithmetic is SQLite's, asked through a
//! connection.
use vstd::prelude::*;
use crate::analytics::types::AnalyticsTrendMode;
use crate::analytics::labels_period::{
    period_label, year_slice_ok, format_period_label, lemma_ascii_prefix_char_boundary,
};
use crate::text::{
    seq_lt, str_eq, str_lt, concat2, concat3, i64_to_decimal, int_decimal, strs_view,
    eq_ignore_ascii_case,
};

verus! {

#[verifier::external_type_specification]
#[verifier::external_body]
pub struct ExConnection(rusqlite::Connection);

#[verifier::external_type_specification]
#[verifier::external_body]
pub struct ExSqliteError(rusqlite::Error);

/// One period of a comparison.
pub struct ComparisonPeriod {
    pub label: String,
    pub start_date: String,
    pub end_date: String,
    pub is_current: bool,
}

/// A period as values.
pub struct PeriodSpec {
    pub label: Seq<char>,
    pub start: Seq<char>,
    pub end: Seq<char>,
    pub current: bool,
}

pub open spec fn period_view(p: ComparisonPeriod) -> PeriodSpec {
    PeriodSpec { label: p.label@, start: p.start_date@, end: p.end_date@, current: p.is_current }
}

pub open spec fn periods_view(v: Seq<ComparisonPeriod>) -> Seq<PeriodSpec> {
    v.map_values(|p: ComparisonPeriod| period_view(p))
}

pub open spec fn start_of_week_sql() -> Seq<char> {
    "SELECT date(?1, '-' || ((CAST(strftime('%w', ?1) AS INTEGER) + 6) % 7) || ' days')"@
}

pub open spec fn start_of_month_sql() -> Seq<char> {
    "SELECT date(?1, 'start of month')"@
}

pub open spec fn end_of_month_sql() -> Seq<char> {
    "SELECT date(?1, 'start of month', '+1 month', '-1 day')"@
}

pub open spec fn start_of_year_sql() -> Seq<char> {
    "SELECT date(?1, 'start of year')"@
}

pub open spec fn end_of_year_sql() -> Seq<char> {
    "SELECT date(?1, 'start of year', '+1 year', '-1 day')"@
}

pub open spec fn shift_sql() -> Seq<char> {
    "SELECT date(?1, ?2)"@
}

pub open spec fn day_diff_sql() -> Seq<char> {
    "SELECT CAST(julianday(?2) - julianday(?1) AS INTEGER)"@
}

pub open spec fn today_sql() -> Seq<char> {
    "SELECT date('now', 'localtime')"@
}

/// The queries whose single value is SQLite's `date()` of text parameters,
/// with no table read and no clock.
pub open spec fn is_date_query(sql: Seq<char>) -> bool {
    ||| sql == start_of_week_sql()
    ||| sql == start_of_month_sql()
    ||| sql == end_of_month_sql()
    ||| sql == start_of_year_sql()
    ||| sql == end_of_year_sql()
    ||| sql == shift_sql()
}

/// The part of a text that SQLite's date functions read: up to its first NUL.
pub open spec fn c_text(t: Seq<char>) -> Seq<char>
    decreases t.len(),
{
    if t.len() == 0 || t[0] == '\0' {
        Seq::empty()
    } else {
        seq![t[0]] + c_text(t.drop_first())
    }
}

/// A time value that SQLite reads as the current moment (`parseDateOrTime`
/// in the bundled `sqlite3.c`): `now`, `subsec` or `subsecond`, compared
/// without ASCII case.
pub open spec fn reads_clock(t: Seq<char>) -> bool {
    ||| eq_ignore_ascii_case(c_text(t), "now"@)
    ||| eq_ignore_ascii_case(c_text(t), "subsec"@)
    ||| eq_ignore_ascii_case(c_text(t), "subsecond"@)
}

/// No parameter is read as the current moment.
pub open spec fn clock_free(params: Seq<Seq<char>>) -> bool {
    forall|i: int| 0 <= i < params.len() ==> !reads_clock(#[trigger] params[i])
}

/// The units the periods are shifted by.
pub open spec fn shift_unit(u: Seq<char>) -> bool {
    u == "days"@ || u == "months"@ || u == "years"@
}

/// The shift query gets a date and a whole number of days, months or years.
pub open spec fn shift_params_ok(params: Seq<Seq<char>>) -> bool {
    params.len() == 2 && exists|n: int, u: Seq<char>| shift_unit(u) && params[1] == #[trigger] spec_modifier(n, u)
}

/// A text that starts with a sign or a digit is not read as the current moment.
pub proof fn lemma_not_clock(t: Seq<char>)
    requires
        t.len() > 0,
        t[0] == '+' || t[0] == '-' || ('0' <= t[0] && t[0] <= '9'),
    ensures
        !reads_clock(t),
{
    reveal_strlit("now");
    reveal_strlit("subsec");
    reveal_strlit("subsecond");
    let c = c_text(t);
    assert(c.len() > 0 && c[0] == t[0]);
    assert(crate::text::ascii_lower_code("now"@[0]) == 110);
    assert(crate::text::ascii_lower_code("subsec"@[0]) == 115);
    assert(crate::text::ascii_lower_code("subsecond"@[0]) == 115);
    assert(crate::text::ascii_lower_code(c[0]) < 60);
}

/// SQLite's own dates are not read as the current moment.
pub proof fn lemma_date_text_not_clock(t: Seq<char>)
    requires
        is_sqlite_date_text(t),
    ensures
        !reads_clock(t),
{
    if !(t.len() == 11 && t[0] == '-') {
        assert('0' <= date_body(t)[0] && date_body(t)[0] <= '9');
    }
    lemma_not_clock(t);
}

proof fn lemma_modifier_not_clock(n: int, u: Seq<char>)
    ensures
        !reads_clock(spec_modifier(n, u)),
{
    reveal_strlit("+");
    let m = spec_modifier(n, u);
    if n >= 0 {
        assert(m[0] == '+');
    } else {
        assert(int_decimal(n)[0] == '-');
        assert(m[0] == '-');
    }
    lemma_not_clock(m);
}

/// What SQLite's `date()` writes: `YYYY-MM-DD`, with a leading `-` for a
/// year before zero.
pub open spec fn is_sqlite_date_text(t: Seq<char>) -> bool {
    &&& date_body(t).len() == 10
    &&& (t.len() == 10 || t.len() == 11)
    &&& forall|i: int|
        0 <= i < 10 && i != 4 && i != 7 ==> '0' <= #[trigger] date_body(t)[i] && date_body(t)[i] <= '9'
    &&& date_body(t)[4] == '-'
    &&& date_body(t)[7] == '-'
}

/// A date text without its sign.
pub open spec fn date_body(t: Seq<char>) -> Seq<char> {
    if t.len() == 11 && t[0] == '-' {
        t.drop_first()
    } else {
        t
    }
}

/// The text value of a one-column date query over text parameters that are
/// not read as the current moment, none when SQLite gives NULL (an input it
/// cannot read as a date).
pub uninterp spec fn sqlite_date_value(sql: Seq<char>, params: Seq<Seq<char>>) -> Option<Seq<char>>;

/// The integer value of a one-column query over text parameters that are not
/// read as the current moment, none when SQLite gives NULL.
pub uninterp spec fn sqlite_integer_value(sql: Seq<char>, params: Seq<Seq<char>>) -> Option<int>;

/// Calls `rusqlite::Connection::query_row` with a date query and its text
/// parameters and reads column 0 as text. Every value of SQLite's `date()`
/// (`dateFunc` in the bundled `sqlite3.c`) has the form `YYYY-MM-DD`. When
/// no parameter is read as the current moment, and the modifier of the
/// shift query is a whole number of days, months or years, SQLite computes
/// the value from the query and the parameters alone; a NULL value then
/// makes the read fail. A parameter read as the current moment makes the
/// value depend on the clock, and nothing more is stated of it. A failure
/// for other reasons (the connection's state) is not ruled out.
#[verifier::external_body]
fn query_date(connection: &rusqlite::Connection, sql: &str, params: &Vec<String>) -> (r: Result<
    String,
    rusqlite::Error,
>)
    requires
        is_date_query(sql@),
        sql@ == shift_sql() ==> shift_params_ok(strs_view(params@)),
    ensures
        r matches Ok(v) ==> is_sqlite_date_text(v@),
        clock_free(strs_view(params@)) ==> (r matches Ok(v) ==> sqlite_date_value(
            sql@,
            strs_view(params@),
        ) == Some(v@)),
        clock_free(strs_view(params@)) && sqlite_date_value(sql@, strs_view(params@)) is None ==> r is Err,
{
    connection.query_row(sql, rusqlite::params_from_iter(params.iter()), |row| row.get::<_, String>(0))
}

/// Calls `rusqlite::Connection::query_row` with the day-difference query and
/// reads column 0 as an integer. SQLite's Julian days lie between 0 and
/// 5373484.5 (`validJulianDay` in the bundled `sqlite3.c`), which bounds the
/// difference. When no parameter is read as the current moment, SQLite
/// computes the value from the parameters alone, and a NULL value makes the
/// read fail; otherwise the value depends on the clock and only its bound is
/// stated. A failure for other reasons is not ruled out.
#[verifier::external_body]
fn query_integer(connection: &rusqlite::Connection, sql: &str, params: &Vec<String>) -> (r: Result<
    i64,
    rusqlite::Error,
>)
    requires
        sql@ == day_diff_sql(),
    ensures
        r matches Ok(v) ==> -5373485 < v < 5373485,
        clock_free(strs_view(params@)) ==> (r matches Ok(v) ==> sqlite_integer_value(
            sql@,
            strs_view(params@),
        ) == Some(v as int)),
        clock_free(strs_view(params@)) && sqlite_integer_value(sql@, strs_view(params@)) is None ==> r is Err,
{
    connection.query_row(sql, rusqlite::params_from_iter(params.iter()), |row| row.get::<_, i64>(0))
}

/// Calls `rusqlite::Connection::query_row` with the query for the current
/// local day and reads it as text. Which day it is depends on the clock and
/// the time zone, so only its form is stated: like every value of SQLite's
/// `date()` (`dateFunc` in the bundled `sqlite3.c`) it is `YYYY-MM-DD`.
#[verifier::external_body]
fn query_current_date(connection: &rusqlite::Connection, sql: &str) -> (r: Result<String, rusqlite::Error>)
    requires
        sql@ == today_sql(),
    ensures
        r matches Ok(v) ==> is_sqlite_date_text(v@),
{
    connection.query_row(sql, [], |row| row.get::<_, String>(0))
}

/// Calls `to_string` on a `rusqlite::Error`, its `Display` text; nothing
/// is stated of the text.
#[verifier::external_body]
fn sqlite_error_text(e: &rusqlite::Error) -> String {
    e.to_string()
}

/// The start of the error text of a date expression that SQLite could not
/// evaluate; SQLite's own message follows it.
pub open spec fn date_error_prefix() -> Seq<char> {
    "failed to evaluate analytics date expression: "@
}

/// The start of the error text of a day difference that SQLite could not
/// compute; SQLite's own message follows it.
pub open spec fn day_diff_error_prefix() -> Seq<char> {
    "failed to calculate analytics trend day diff: "@
}

/// `r` is a date when it succeeds; when its inputs are `fixed` (none read
/// as the current moment) it is the expected date, and it fails when there
/// is none.
pub open spec fn date_result(r: Result<String, String>, expected: Option<Seq<char>>, fixed: bool) -> bool {
    &&& match r {
        Ok(v) => is_sqlite_date_text(v@) && (fixed ==> expected == Some(v@)),
        Err(e) => date_error_prefix().is_prefix_of(e@),
    }
    &&& (fixed && expected is None ==> r is Err)
}

pub open spec fn bool_result(r: Result<bool, String>, expected: Option<bool>, fixed: bool) -> bool {
    &&& match r {
        Ok(v) => fixed ==> expected == Some(v),
        Err(e) => date_error_prefix().is_prefix_of(e@),
    }
    &&& (fixed && expected is None ==> r is Err)
}

fn scalar_date(connection: &rusqlite::Connection, sql: &str, params: &Vec<String>) -> (r: Result<
    String,
    String,
>)
    requires
        is_date_query(sql@),
        sql@ == shift_sql() ==> shift_params_ok(strs_view(params@)),
    ensures
        date_result(r, sqlite_date_value(sql@, strs_view(params@)), clock_free(strs_view(params@))),
{
    match query_date(connection, sql, params) {
        Ok(v) => Ok(v),
        Err(e) => {
            let text = sqlite_error_text(&e);
            Err(concat2("failed to evaluate analytics date expression: ", text.as_str()))
        },
    }
}

proof fn lemma_single_param_clock_free(d: Seq<char>)
    ensures
        clock_free(seq![d]) == !reads_clock(d),
{
    if !reads_clock(d) {
        assert forall|i: int| 0 <= i < 1 implies !reads_clock(#[trigger] seq![d][i]) by {
            assert(seq![d][i] == d);
        }
    } else {
        assert(seq![d][0] == d);
    }
}

fn one_param(a: &str) -> (v: Vec<String>)
    ensures
        strs_view(v@) == seq![a@],
{
    let v = vec![a.to_owned()];
    proof {
        assert(strs_view(v@) =~= seq![a@]);
    }
    v
}

fn two_params(a: &str, b: &str) -> (v: Vec<String>)
    ensures
        strs_view(v@) == seq![a@, b@],
{
    let v = vec![a.to_owned(), b.to_owned()];
    proof {
        assert(strs_view(v@) =~= seq![a@, b@]);
    }
    v
}

pub open spec fn spec_start_of_week(d: Seq<char>) -> Option<Seq<char>> {
    sqlite_date_value(start_of_week_sql(), seq![d])
}

pub open spec fn spec_start_of_month(d: Seq<char>) -> Option<Seq<char>> {
    sqlite_date_value(start_of_month_sql(), seq![d])
}

pub open spec fn spec_end_of_month(d: Seq<char>) -> Option<Seq<char>> {
    sqlite_date_value(end_of_month_sql(), seq![d])
}

pub open spec fn spec_start_of_year(d: Seq<char>) -> Option<Seq<char>> {
    sqlite_date_value(start_of_year_sql(), seq![d])
}

pub open spec fn spec_end_of_year(d: Seq<char>) -> Option<Seq<char>> {
    sqlite_date_value(end_of_year_sql(), seq![d])
}

/// The SQLite modifier `+3 days` or `-7 days`.
pub open spec fn spec_modifier(offset: int, unit: Seq<char>) -> Seq<char> {
    if offset >= 0 {
        "+"@ + int_decimal(offset) + " "@ + unit
    } else {
        int_decimal(offset) + " "@ + unit
    }
}

pub open spec fn spec_shift(d: Seq<char>, offset: int, unit: Seq<char>) -> Option<Seq<char>> {
    sqlite_date_value(shift_sql(), seq![d, spec_modifier(offset, unit)])
}

pub open spec fn spec_end_of_week(d: Seq<char>) -> Option<Seq<char>> {
    match spec_start_of_week(d) {
        Some(s) => spec_shift(s, 6, "days"@),
        None => None,
    }
}

pub open spec fn spec_day_diff(a: Seq<char>, b: Seq<char>) -> Option<int> {
    sqlite_integer_value(day_diff_sql(), seq![a, b])
}

/// The SQLite modifier for an offset and a unit.
pub fn build_modifier(offset: i64, unit: &str) -> (r: String)
    ensures
        r@ == spec_modifier(offset as int, unit@),
{
    let digits = i64_to_decimal(offset);
    if offset >= 0 {
        let a = concat3("+", digits.as_str(), " ");
        concat2(a.as_str(), unit)
    } else {
        concat3(digits.as_str(), " ", unit)
    }
}

fn start_of_week(c: &rusqlite::Connection, d: &str) -> (r: Result<String, String>)
    ensures
        date_result(r, spec_start_of_week(d@), !reads_clock(d@)),
{
    proof {
        lemma_single_param_clock_free(d@);
        assert("SELECT date(?1, '-' || ((CAST(strftime('%w', ?1) AS INTEGER) + 6) % 7) || ' days')"@ != shift_sql()) by {
            reveal_strlit("SELECT date(?1, '-' || ((CAST(strftime('%w', ?1) AS INTEGER) + 6) % 7) || ' days')");
            reveal_strlit("SELECT date(?1, ?2)");
            assert("SELECT date(?1, '-' || ((CAST(strftime('%w', ?1) AS INTEGER) + 6) % 7) || ' days')"@.len() != "SELECT date(?1, ?2)"@.len());
        }
    }
    scalar_date(
        c,
        "SELECT date(?1, '-' || ((CAST(strftime('%w', ?1) AS INTEGER) + 6) % 7) || ' days')",
        &one_param(d),
    )
}

fn start_of_month(c: &rusqlite::Connection, d: &str) -> (r: Result<String, String>)
    ensures
        date_result(r, spec_start_of_month(d@), !reads_clock(d@)),
{
    proof {
        lemma_single_param_clock_free(d@);
        assert("SELECT date(?1, 'start of month')"@ != shift_sql()) by {
            reveal_strlit("SELECT date(?1, 'start of month')");
            reveal_strlit("SELECT date(?1, ?2)");
            assert("SELECT date(?1, 'start of month')"@.len() != "SELECT date(?1, ?2)"@.len());
        }
    }
    scalar_date(c, "SELECT date(?1, 'start of month')", &one_param(d))
}

fn end_of_month(c: &rusqlite::Connection, d: &str) -> (r: Result<String, String>)
    ensures
        date_result(r, spec_end_of_month(d@), !reads_clock(d@)),
{
    proof {
        lemma_single_param_clock_free(d@);
        assert("SELECT date(?1, 'start of month', '+1 month', '-1 day')"@ != shift_sql()) by {
            reveal_strlit("SELECT date(?1, 'start of month', '+1 month', '-1 day')");
            reveal_strlit("SELECT date(?1, ?2)");
            assert("SELECT date(?1, 'start of month', '+1 month', '-1 day')"@.len() != "SELECT date(?1, ?2)"@.len());
        }
    }
    scalar_date(c, "SELECT date(?1, 'start of month', '+1 month', '-1 day')", &one_param(d))
}

fn start_of_year(c: &rusqlite::Connection, d: &str) -> (r: Result<String, String>)
    ensures
        date_result(r, spec_start_of_year(d@), !reads_clock(d@)),
{
    proof {
        lemma_single_param_clock_free(d@);
        assert("SELECT date(?1, 'start of year')"@ != shift_sql()) by {
            reveal_strlit("SELECT date(?1, 'start of year')");
            reveal_strlit("SELECT date(?1, ?2)");
            assert("SELECT date(?1, 'start of year')"@.len() != "SELECT date(?1, ?2)"@.len());
        }
    }
    scalar_date(c, "SELECT date(?1, 'start of year')", &one_param(d))
}

fn end_of_year(c: &rusqlite::Connection, d: &str) -> (r: Result<String, String>)
    ensures
        date_result(r, spec_end_of_year(d@), !reads_clock(d@)),
{
    proof {
        lemma_single_param_clock_free(d@);
        assert("SELECT date(?1, 'start of year', '+1 year', '-1 day')"@ != shift_sql()) by {
            reveal_strlit("SELECT date(?1, 'start of year', '+1 year', '-1 day')");
            reveal_strlit("SELECT date(?1, ?2)");
            assert("SELECT date(?1, 'start of year', '+1 year', '-1 day')"@.len() != "SELECT date(?1, ?2)"@.len());
        }
    }
    scalar_date(c, "SELECT date(?1, 'start of year', '+1 year', '-1 day')", &one_param(d))
}

fn shift(c: &rusqlite::Connection, d: &str, offset: i64, unit: &str) -> (r: Result<String, String>)
    requires
        shift_unit(unit@),
    ensures
        date_result(r, spec_shift(d@, offset as int, unit@), !reads_clock(d@)),
{
    let modifier = build_modifier(offset, unit);
    let params = two_params(d, modifier.as_str());
    proof {
        let p = strs_view(params@);
        assert(p[1] == spec_modifier(offset as int, unit@));
        assert(shift_params_ok(p));
        lemma_modifier_not_clock(offset as int, unit@);
        if !reads_clock(d@) {
            assert forall|i: int| 0 <= i < p.len() implies !reads_clock(#[trigger] p[i]) by {
                if i == 0 {
                    assert(p[0] == d@);
                }
            }
        } else {
            assert(p[0] == d@);
        }
    }
    scalar_date(c, "SELECT date(?1, ?2)", &params)
}

fn end_of_week(c: &rusqlite::Connection, d: &str) -> (r: Result<String, String>)
    ensures
        date_result(r, spec_end_of_week(d@), !reads_clock(d@)),
{
    let s = start_of_week(c, d)?;
    proof {
        lemma_date_text_not_clock(s@);
    }
    shift(c, s.as_str(), 6, "days")
}

fn day_diff(c: &rusqlite::Connection, a: &str, b: &str) -> (r: Result<i64, String>)
    ensures
        match r {
            Ok(v) => -5373485 < v < 5373485 && (!reads_clock(a@) && !reads_clock(b@) ==> spec_day_diff(
                a@,
                b@,
            ) == Some(v as int)),
            Err(e) => day_diff_error_prefix().is_prefix_of(e@),
        },
        !reads_clock(a@) && !reads_clock(b@) && spec_day_diff(a@, b@) is None ==> r is Err,
{
    let params = two_params(a, b);
    proof {
        let p = strs_view(params@);
        if !reads_clock(a@) && !reads_clock(b@) {
            assert forall|i: int| 0 <= i < p.len() implies !reads_clock(#[trigger] p[i]) by {
                if i == 0 {
                    assert(p[0] == a@);
                } else {
                    assert(p[1] == b@);
                }
            }
        }
    }
    match query_integer(c, "SELECT CAST(julianday(?2) - julianday(?1) AS INTEGER)", &params) {
        Ok(v) => Ok(v),
        Err(e) => {
            let text = sqlite_error_text(&e);
            Err(concat2("failed to calculate analytics trend day diff: ", text.as_str()))
        },
    }
}

/// How the periods before a current one are laid out.
pub enum PeriodStep {
    /// Whole weeks, each starting seven days after the one before.
    Weekly,
    /// Whole calendar months.
    Monthly,
    /// Whole calendar years.
    Yearly,
    /// Spans of this many days.
    Span(i64),
}

pub open spec fn spec_period(start: Seq<char>, end: Seq<char>, current: bool, mode: AnalyticsTrendMode) -> PeriodSpec {
    PeriodSpec { label: period_label(start, end, mode), start, end, current }
}

/// The bounds of the period `offset` steps before the one at `anchor`.
pub open spec fn previous_bounds(step: PeriodStep, anchor: Seq<char>, offset: int) -> Option<
    (Seq<char>, Seq<char>),
> {
    match step {
        PeriodStep::Weekly => match spec_shift(anchor, -7 * offset, "days"@) {
            Some(s) => match spec_shift(s, 6, "days"@) {
                Some(e) => Some((s, e)),
                None => None,
            },
            None => None,
        },
        PeriodStep::Monthly => match spec_shift(anchor, -offset, "months"@) {
            Some(s) => match spec_end_of_month(s) {
                Some(e) => Some((s, e)),
                None => None,
            },
            None => None,
        },
        PeriodStep::Yearly => match spec_shift(anchor, -offset, "years"@) {
            Some(s) => match spec_end_of_year(s) {
                Some(e) => Some((s, e)),
                None => None,
            },
            None => None,
        },
        PeriodStep::Span(len) => match spec_shift(anchor, -(len * offset), "days"@) {
            Some(s) => match spec_shift(anchor, -((len * (offset - 1)) + 1), "days"@) {
                Some(e) => Some((s, e)),
                None => None,
            },
            None => None,
        },
    }
}

/// The bounds of the periods 5, 4, ... down to `6 - j` steps before the
/// anchor, oldest first.
pub open spec fn previous_bounds_list(step: PeriodStep, anchor: Seq<char>, j: nat) -> Option<
    Seq<(Seq<char>, Seq<char>)>,
>
    decreases j,
{
    if j == 0 {
        Some(Seq::empty())
    } else {
        match previous_bounds_list(step, anchor, (j - 1) as nat) {
            Some(bs) => match previous_bounds(step, anchor, 6 - j) {
                Some(b) => Some(bs.push(b)),
                None => None,
            },
            None => None,
        }
    }
}

/// Previous periods with the given bounds, oldest first, then the current one.
pub open spec fn spec_periods_from_bounds(
    bounds: Seq<(Seq<char>, Seq<char>)>,
    mode: AnalyticsTrendMode,
    current_start: Seq<char>,
    current_end: Seq<char>,
) -> Seq<PeriodSpec> {
    bounds.map_values(|b: (Seq<char>, Seq<char>)| spec_period(b.0, b.1, false, mode)).push(
        spec_period(current_start, current_end, true, mode),
    )
}

/// The five previous periods, then the current one.
pub open spec fn periods_with_current(
    step: PeriodStep,
    mode: AnalyticsTrendMode,
    anchor: Seq<char>,
    current_start: Seq<char>,
    current_end: Seq<char>,
) -> Option<Seq<PeriodSpec>> {
    match previous_bounds_list(step, anchor, 5) {
        Some(bs) => Some(spec_periods_from_bounds(bs, mode, current_start, current_end)),
        None => None,
    }
}

pub open spec fn bounds_view(v: Seq<(String, String)>) -> Seq<(Seq<char>, Seq<char>)> {
    v.map_values(|b: (String, String)| (b.0@, b.1@))
}

/// The year of SQLite's own dates can be cut out of its first four bytes.
pub proof fn lemma_date_text_year_prefix(t: Seq<char>)
    requires
        is_sqlite_date_text(t),
    ensures
        year_slice_ok(t),
{
    let u = date_body(t);
    assert forall|i: int| 0 <= i < 4 implies (#[trigger] t[i] as u32) < 128 by {
        if t.len() == 11 && t[0] == '-' {
            if i > 0 {
                assert(t[i] == u[i - 1]);
                assert('0' <= date_body(t)[i - 1] && date_body(t)[i - 1] <= '9');
            }
        } else {
            assert('0' <= date_body(t)[i] && date_body(t)[i] <= '9');
        }
    }
    lemma_ascii_prefix_char_boundary(t, 4);
}

pub open spec fn step_bound_ok(step: PeriodStep) -> bool {
    match step {
        PeriodStep::Span(len) => -5373486 <= len <= 5373486,
        _ => true,
    }
}

fn previous_period_bounds(c: &rusqlite::Connection, step: &PeriodStep, anchor: &str, offset: i64) -> (r:
    Result<(String, String), String>)
    requires
        1 <= offset <= 5,
        step_bound_ok(*step),
    ensures
        match r {
            Ok(b) => is_sqlite_date_text(b.0@) && (!reads_clock(anchor@) ==> previous_bounds(
                *step,
                anchor@,
                offset as int,
            ) == Some((b.0@, b.1@))),
            Err(e) => date_error_prefix().is_prefix_of(e@),
        },
        !reads_clock(anchor@) && previous_bounds(*step, anchor@, offset as int) is None ==> r is Err,
{
    match step {
        PeriodStep::Weekly => {
            let s = shift(c, anchor, -7 * offset, "days")?;
            proof {
                lemma_date_text_not_clock(s@);
            }
            let e = shift(c, s.as_str(), 6, "days")?;
            Ok((s, e))
        },
        PeriodStep::Monthly => {
            let s = shift(c, anchor, -offset, "months")?;
            proof {
                lemma_date_text_not_clock(s@);
            }
            let e = end_of_month(c, s.as_str())?;
            Ok((s, e))
        },
        PeriodStep::Yearly => {
            let s = shift(c, anchor, -offset, "years")?;
            proof {
                lemma_date_text_not_clock(s@);
            }
            let e = end_of_year(c, s.as_str())?;
            Ok((s, e))
        },
        PeriodStep::Span(len) => {
            let len = *len;
            assert(-26867430 <= len * offset <= 26867430) by (nonlinear_arith)
                requires
                    -5373486 <= len <= 5373486,
                    1 <= offset <= 5,
            ;
            assert(-21493944 <= len * (offset - 1) <= 21493944) by (nonlinear_arith)
                requires
                    -5373486 <= len <= 5373486,
                    1 <= offset <= 5,
            ;
            let s = shift(c, anchor, -(len * offset), "days")?;
            let e = shift(c, anchor, -((len * (offset - 1)) + 1), "days")?;
            Ok((s, e))
        },
    }
}

pub fn comparison_period(start: &str, end: &str, is_current: bool, mode: AnalyticsTrendMode) -> (p:
    ComparisonPeriod)
    requires
        mode == AnalyticsTrendMode::Year ==> year_slice_ok(start@),
    ensures
        period_view(p) == spec_period(start@, end@, is_current, mode),
{
    ComparisonPeriod {
        label: format_period_label(start, end, mode),
        start_date: start.to_owned(),
        end_date: end.to_owned(),
        is_current,
    }
}

pub open spec fn periods_result(
    r: Result<Vec<ComparisonPeriod>, String>,
    expected: Option<Seq<PeriodSpec>>,
    fixed: bool,
) -> bool {
    &&& match r {
        Ok(v) => fixed ==> expected == Some(periods_view(v@)),
        Err(e) => date_error_prefix().is_prefix_of(e@),
    }
    &&& (fixed && expected is None ==> r is Err)
}

/// The comparison periods with the given bounds, oldest first, and then the
/// current period.
pub fn periods_from_bounds(
    bounds: &Vec<(String, String)>,
    mode: AnalyticsTrendMode,
    current_start: &str,
    current_end: &str,
) -> (r: Vec<ComparisonPeriod>)
    requires
        mode == AnalyticsTrendMode::Year ==> year_slice_ok(current_start@),
        mode == AnalyticsTrendMode::Year ==> forall|k: int|
            0 <= k < bounds@.len() ==> year_slice_ok(#[trigger] bounds@[k].0@),
    ensures
        periods_view(r@) == spec_periods_from_bounds(bounds_view(bounds@), mode, current_start@, current_end@),
{
    let mut periods: Vec<ComparisonPeriod> = Vec::new();
    let mut k: usize = 0;
    while k < bounds.len()
        invariant
            0 <= k <= bounds@.len(),
            mode == AnalyticsTrendMode::Year ==> forall|i: int|
                0 <= i < bounds@.len() ==> year_slice_ok(#[trigger] bounds@[i].0@),
            periods_view(periods@) == bounds_view(bounds@).take(k as int).map_values(
                |b: (Seq<char>, Seq<char>)| spec_period(b.0, b.1, false, mode),
            ),
        decreases bounds@.len() - k,
    {
        let ghost before = periods_view(periods@);
        let b = &bounds[k];
        let p = comparison_period(b.0.as_str(), b.1.as_str(), false, mode);
        periods.push(p);
        proof {
            assert(periods_view(periods@) =~= before.push(period_view(p)));
            assert(bounds_view(bounds@).take(k + 1) =~= bounds_view(bounds@).take(k as int).push(
                bounds_view(bounds@)[k as int],
            ));
            assert(periods_view(periods@) =~= bounds_view(bounds@).take(k + 1).map_values(
                |b: (Seq<char>, Seq<char>)| spec_period(b.0, b.1, false, mode),
            ));
        }
        k = k + 1;
    }
    let ghost before = periods_view(periods@);
    let current = comparison_period(current_start, current_end, true, mode);
    periods.push(current);
    proof {
        assert(bounds_view(bounds@).take(k as int) =~= bounds_view(bounds@));
        assert(periods_view(periods@) =~= before.push(period_view(current)));
    }
    periods
}

/// The five periods before the one at `anchor`, then the current one.
fn build_periods(
    c: &rusqlite::Connection,
    step: &PeriodStep,
    mode: AnalyticsTrendMode,
    anchor: &str,
    current_start: &str,
    current_end: &str,
) -> (r: Result<Vec<ComparisonPeriod>, String>)
    requires
        step_bound_ok(*step),
        mode == AnalyticsTrendMode::Year ==> year_slice_ok(current_start@),
    ensures
        periods_result(
            r,
            periods_with_current(*step, mode, anchor@, current_start@, current_end@),
            !reads_clock(anchor@),
        ),
{
    let mut bounds: Vec<(String, String)> = Vec::new();
    let mut j: i64 = 0;
    while j < 5
        invariant
            0 <= j <= 5,
            step_bound_ok(*step),
            bounds@.len() == j,
            !reads_clock(anchor@) ==> previous_bounds_list(*step, anchor@, j as nat) == Some(
                bounds_view(bounds@),
            ),
            forall|k: int| 0 <= k < bounds@.len() ==> is_sqlite_date_text(#[trigger] bounds@[k].0@),
        decreases 5 - j,
    {
        let offset = 5 - j;
        let ghost before = bounds@;
        let b = previous_period_bounds(c, step, anchor, offset);
        let (s, e) = match b {
            Ok(b) => b,
            Err(message) => {
                return Err(message);
            },
        };
        let ghost pair = (s, e);
        bounds.push((s, e));
        proof {
            assert(bounds@ == before.push(pair));
            assert(bounds_view(bounds@) =~= bounds_view(before).push((pair.0@, pair.1@)));
            assert forall|k: int| 0 <= k < bounds@.len() implies is_sqlite_date_text(
                #[trigger] bounds@[k].0@,
            ) by {
                if k < before.len() {
                    assert(bounds@[k] == before[k]);
                }
            }
        }
        j = j + 1;
    }
    proof {
        assert forall|k: int| 0 <= k < bounds@.len() implies year_slice_ok(#[trigger] bounds@[k].0@) by {
            lemma_date_text_year_prefix(bounds@[k].0@);
        }
    }
    Ok(periods_from_bounds(&bounds, mode, current_start, current_end))
}

/// The range is this week (Monday to Sunday) and the week is not over.
pub open spec fn spec_is_current_calendar_week(start: Seq<char>, end: Seq<char>, today: Seq<char>) -> Option<bool> {
    match spec_start_of_week(today) {
        None => None,
        Some(s) => if start != s {
            Some(false)
        } else {
            match spec_end_of_week(today) {
                None => None,
                Some(e) => Some(end == e && seq_lt(today, end)),
            }
        },
    }
}

pub open spec fn spec_is_current_calendar_month(start: Seq<char>, end: Seq<char>, today: Seq<char>) -> Option<bool> {
    match spec_start_of_month(today) {
        None => None,
        Some(s) => if start != s {
            Some(false)
        } else {
            match spec_end_of_month(today) {
                None => None,
                Some(e) => Some(end == e && seq_lt(today, end)),
            }
        },
    }
}

pub open spec fn spec_is_current_calendar_year(start: Seq<char>, end: Seq<char>, today: Seq<char>) -> Option<bool> {
    match spec_start_of_year(today) {
        None => None,
        Some(s) => if start != s {
            Some(false)
        } else {
            match spec_end_of_year(today) {
                None => None,
                Some(e) => Some(end == e && seq_lt(today, end)),
            }
        },
    }
}

/// The range is one whole week, Monday to Sunday.
pub open spec fn spec_is_full_week(start: Seq<char>, end: Seq<char>) -> Option<bool> {
    match spec_start_of_week(start) {
        None => None,
        Some(s) => if start != s {
            Some(false)
        } else {
            match spec_end_of_week(start) {
                None => None,
                Some(e) => Some(end == e),
            }
        },
    }
}

pub open spec fn spec_is_full_month(start: Seq<char>, end: Seq<char>) -> Option<bool> {
    match spec_start_of_month(start) {
        None => None,
        Some(s) => if start != s {
            Some(false)
        } else {
            match spec_end_of_month(start) {
                None => None,
                Some(e) => Some(end == e),
            }
        },
    }
}

pub open spec fn spec_is_full_year(start: Seq<char>, end: Seq<char>) -> Option<bool> {
    match spec_start_of_year(start) {
        None => None,
        Some(s) => if start != s {
            Some(false)
        } else {
            match spec_end_of_year(start) {
                None => None,
                Some(e) => Some(end == e),
            }
        },
    }
}

fn is_current_calendar_week(c: &rusqlite::Connection, start: &str, end: &str, today: &str) -> (r: Result<bool, String>)
    ensures
        bool_result(r, spec_is_current_calendar_week(start@, end@, today@), !reads_clock(today@)),
{
    let s = start_of_week(c, today)?;
    if !str_eq(start, s.as_str()) {
        return Ok(false);
    }
    let e = end_of_week(c, today)?;
    Ok(str_eq(end, e.as_str()) && str_lt(today, end))
}

fn is_current_calendar_month(c: &rusqlite::Connection, start: &str, end: &str, today: &str) -> (r: Result<bool, String>)
    ensures
        bool_result(r, spec_is_current_calendar_month(start@, end@, today@), !reads_clock(today@)),
{
    let s = start_of_month(c, today)?;
    if !str_eq(start, s.as_str()) {
        return Ok(false);
    }
    let e = end_of_month(c, today)?;
    Ok(str_eq(end, e.as_str()) && str_lt(today, end))
}

fn is_current_calendar_year(c: &rusqlite::Connection, start: &str, end: &str, today: &str) -> (r: Result<bool, String>)
    ensures
        bool_result(r, spec_is_current_calendar_year(start@, end@, today@), !reads_clock(today@)),
{
    let s = start_of_year(c, today)?;
    if !str_eq(start, s.as_str()) {
        return Ok(false);
    }
    let e = end_of_year(c, today)?;
    Ok(str_eq(end, e.as_str()) && str_lt(today, end))
}

fn is_full_week(c: &rusqlite::Connection, start: &str, end: &str) -> (r: Result<bool, String>)
    ensures
        bool_result(r, spec_is_full_week(start@, end@), !reads_clock(start@)),
{
    let s = start_of_week(c, start)?;
    if !str_eq(start, s.as_str()) {
        return Ok(false);
    }
    let e = end_of_week(c, start)?;
    Ok(str_eq(end, e.as_str()))
}

fn is_full_month(c: &rusqlite::Connection, start: &str, end: &str) -> (r: Result<bool, String>)
    ensures
        bool_result(r, spec_is_full_month(start@, end@), !reads_clock(start@)),
{
    let s = start_of_month(c, start)?;
    if !str_eq(start, s.as_str()) {
        return Ok(false);
    }
    let e = end_of_month(c, start)?;
    Ok(str_eq(end, e.as_str()))
}

fn is_full_year(c: &rusqlite::Connection, start: &str, end: &str) -> (r: Result<bool, String>)
    ensures
        bool_result(r, spec_is_full_year(start@, end@), !reads_clock(start@)),
        r == Ok::<bool, String>(true) ==> is_sqlite_date_text(start@),
{
    let s = start_of_year(c, start)?;
    if !str_eq(start, s.as_str()) {
        return Ok(false);
    }
    let e = end_of_year(c, start)?;
    Ok(str_eq(end, e.as_str()))
}

pub open spec fn with_mode(mode: AnalyticsTrendMode, ps: Option<Seq<PeriodSpec>>) -> Option<
    (AnalyticsTrendMode, Seq<PeriodSpec>),
> {
    match ps {
        Some(p) => Some((mode, p)),
        None => None,
    }
}

/// The current period anchored at a start computed from `today`.
pub open spec fn current_periods(
    anchor: Option<Seq<char>>,
    step: PeriodStep,
    mode: AnalyticsTrendMode,
    today: Seq<char>,
) -> Option<(AnalyticsTrendMode, Seq<PeriodSpec>)> {
    match anchor {
        Some(cs) => with_mode(mode, periods_with_current(step, mode, cs, cs, today)),
        None => None,
    }
}

/// The comparison periods of the range `start..=end`, `today` being the
/// current day: the first kind of range that matches, in the order current
/// week, current month, current year, full week, full month, full year,
/// any other span.
pub open spec fn spec_trend_periods(start: Seq<char>, end: Seq<char>, today: Seq<char>) -> Option<
    (AnalyticsTrendMode, Seq<PeriodSpec>),
> {
    match spec_is_current_calendar_week(start, end, today) {
        None => None,
        Some(true) => current_periods(spec_start_of_week(today), PeriodStep::Weekly, AnalyticsTrendMode::Week, today),
        Some(false) => match spec_is_current_calendar_month(start, end, today) {
            None => None,
            Some(true) => current_periods(spec_start_of_month(today), PeriodStep::Monthly, AnalyticsTrendMode::Month, today),
            Some(false) => match spec_is_current_calendar_year(start, end, today) {
                None => None,
                Some(true) => current_periods(spec_start_of_year(today), PeriodStep::Yearly, AnalyticsTrendMode::Year, today),
                Some(false) => match spec_is_full_week(start, end) {
                    None => None,
                    Some(true) => with_mode(
                        AnalyticsTrendMode::Week,
                        periods_with_current(PeriodStep::Weekly, AnalyticsTrendMode::Week, start, start, end),
                    ),
                    Some(false) => match spec_is_full_month(start, end) {
                        None => None,
                        Some(true) => with_mode(
                            AnalyticsTrendMode::Month,
                            periods_with_current(PeriodStep::Monthly, AnalyticsTrendMode::Month, start, start, end),
                        ),
                        Some(false) => match spec_is_full_year(start, end) {
                            None => None,
                            Some(true) => with_mode(
                                AnalyticsTrendMode::Year,
                                periods_with_current(PeriodStep::Yearly, AnalyticsTrendMode::Year, start, start, end),
                            ),
                            Some(false) => match spec_day_diff(start, end) {
                                None => None,
                                Some(d) => with_mode(
                                    AnalyticsTrendMode::Custom,
                                    periods_with_current(PeriodStep::Span((d + 1) as i64), AnalyticsTrendMode::Custom, start, start, end),
                                ),
                            },
                        },
                    },
                },
            },
        },
    }
}

pub open spec fn trend_periods_result(
    r: Result<(AnalyticsTrendMode, Vec<ComparisonPeriod>), String>,
    expected: Option<(AnalyticsTrendMode, Seq<PeriodSpec>)>,
    fixed: bool,
) -> bool {
    &&& match r {
        Ok(v) => fixed ==> expected == Some((v.0, periods_view(v.1@))),
        Err(e) => date_error_prefix().is_prefix_of(e@) || day_diff_error_prefix().is_prefix_of(e@),
    }
    &&& (fixed && expected is None ==> r is Err)
}

fn current_week_periods(c: &rusqlite::Connection, today: &str) -> (r: Result<Vec<ComparisonPeriod>, String>)
    ensures
        periods_result(
            r,
            match current_periods(spec_start_of_week(today@), PeriodStep::Weekly, AnalyticsTrendMode::Week, today@) {
                Some(x) => Some(x.1),
                None => None,
            },
            !reads_clock(today@),
        ),
{
    let cs = start_of_week(c, today)?;
    proof {
        lemma_date_text_not_clock(cs@);
    }
    build_periods(c, &PeriodStep::Weekly, AnalyticsTrendMode::Week, cs.as_str(), cs.as_str(), today)
}

fn current_month_periods(c: &rusqlite::Connection, today: &str) -> (r: Result<Vec<ComparisonPeriod>, String>)
    ensures
        periods_result(
            r,
            match current_periods(spec_start_of_month(today@), PeriodStep::Monthly, AnalyticsTrendMode::Month, today@) {
                Some(x) => Some(x.1),
                None => None,
            },
            !reads_clock(today@),
        ),
{
    let cs = start_of_month(c, today)?;
    proof {
        lemma_date_text_not_clock(cs@);
    }
    build_periods(c, &PeriodStep::Monthly, AnalyticsTrendMode::Month, cs.as_str(), cs.as_str(), today)
}

fn current_year_periods(c: &rusqlite::Connection, today: &str) -> (r: Result<Vec<ComparisonPeriod>, String>)
    ensures
        periods_result(
            r,
            match current_periods(spec_start_of_year(today@), PeriodStep::Yearly, AnalyticsTrendMode::Year, today@) {
                Some(x) => Some(x.1),
                None => None,
            },
            !reads_clock(today@),
        ),
{
    let cs = start_of_year(c, today)?;
    proof {
        lemma_date_text_not_clock(cs@);
    }
    proof {
        lemma_date_text_year_prefix(cs@);
    }
    build_periods(c, &PeriodStep::Yearly, AnalyticsTrendMode::Year, cs.as_str(), cs.as_str(), today)
}

fn tag_mode(
    mode: AnalyticsTrendMode,
    r: Result<Vec<ComparisonPeriod>, String>,
) -> (out: Result<(AnalyticsTrendMode, Vec<ComparisonPeriod>), String>)
    ensures
        match r {
            Ok(v) => out == Ok::<(AnalyticsTrendMode, Vec<ComparisonPeriod>), String>((mode, v)),
            Err(e) => out == Err::<(AnalyticsTrendMode, Vec<ComparisonPeriod>), String>(e),
        },
{
    match r {
        Ok(v) => Ok((mode, v)),
        Err(e) => Err(e),
    }
}

/// The comparison periods of a range, `today` being the current day.
pub fn build_trend_periods_for_reference_date(
    connection: &rusqlite::Connection,
    start_date: &str,
    end_date: &str,
    today: &str,
) -> (r: Result<(AnalyticsTrendMode, Vec<ComparisonPeriod>), String>)
    ensures
        trend_periods_result(
            r,
            spec_trend_periods(start_date@, end_date@, today@),
            !reads_clock(start_date@) && !reads_clock(end_date@) && !reads_clock(today@),
        ),
{
    let c = connection;
    if is_current_calendar_week(c, start_date, end_date, today)? {
        return tag_mode(AnalyticsTrendMode::Week, current_week_periods(c, today));
    }
    if is_current_calendar_month(c, start_date, end_date, today)? {
        return tag_mode(AnalyticsTrendMode::Month, current_month_periods(c, today));
    }
    if is_current_calendar_year(c, start_date, end_date, today)? {
        return tag_mode(AnalyticsTrendMode::Year, current_year_periods(c, today));
    }
    if is_full_week(c, start_date, end_date)? {
        return tag_mode(
            AnalyticsTrendMode::Week,
            build_periods(c, &PeriodStep::Weekly, AnalyticsTrendMode::Week, start_date, start_date, end_date),
        );
    }
    if is_full_month(c, start_date, end_date)? {
        return tag_mode(
            AnalyticsTrendMode::Month,
            build_periods(c, &PeriodStep::Monthly, AnalyticsTrendMode::Month, start_date, start_date, end_date),
        );
    }
    if is_full_year(c, start_date, end_date)? {
        proof {
            lemma_date_text_year_prefix(start_date@);
        }
        return tag_mode(
            AnalyticsTrendMode::Year,
            build_periods(c, &PeriodStep::Yearly, AnalyticsTrendMode::Year, start_date, start_date, end_date),
        );
    }
    let diff = day_diff(c, start_date, end_date)?;
    let range_length_days = diff + 1;
    tag_mode(
        AnalyticsTrendMode::Custom,
        build_periods(c, &PeriodStep::Span(range_length_days), AnalyticsTrendMode::Custom, start_date, start_date, end_date),
    )
}

/// The current local day, as SQLite gives it.
fn load_today(connection: &rusqlite::Connection) -> (r: Result<String, String>)
    ensures
        match r {
            Ok(v) => is_sqlite_date_text(v@),
            Err(e) => date_error_prefix().is_prefix_of(e@),
        },
{
    match query_current_date(connection, "SELECT date('now', 'localtime')") {
        Ok(v) => Ok(v),
        Err(e) => {
            let text = sqlite_error_text(&e);
            Err(concat2("failed to evaluate analytics date expression: ", text.as_str()))
        },
    }
}

/// The comparison periods of a range, today being read from SQLite's clock.
pub fn build_trend_periods(connection: &rusqlite::Connection, start_date: &str, end_date: &str) -> (r:
    Result<(AnalyticsTrendMode, Vec<ComparisonPeriod>), String>)
    ensures
        r is Ok ==> exists|today: Seq<char>|
            is_sqlite_date_text(today) && trend_periods_result(
                r,
                #[trigger] spec_trend_periods(start_date@, end_date@, today),
                !reads_clock(start_date@) && !reads_clock(end_date@),
            ),
        r matches Err(e) ==> date_error_prefix().is_prefix_of(e@) || day_diff_error_prefix().is_prefix_of(
            e@,
        ),
{
    let today = load_today(connection)?;
    proof {
        lemma_date_text_not_clock(today@);
    }
    build_trend_periods_for_reference_date(connection, start_date, end_date, today.as_str())
}

proof fn lemma_previous_bounds_list(step: PeriodStep, anchor: Seq<char>, j: nat, bs: Seq<(Seq<char>, Seq<char>)>)
    requires
        previous_bounds_list(step, anchor, j) == Some(bs),
    ensures
        bs.len() == j,
        forall|k: int| 0 <= k < j ==> previous_bounds(step, anchor, 5 - k) == Some(#[trigger] bs[k]),
    decreases j,
{
    if j > 0 {
        let prev = previous_bounds_list(step, anchor, (j - 1) as nat);
        let pb = prev->Some_0;
        lemma_previous_bounds_list(step, anchor, (j - 1) as nat, pb);
        assert(bs == pb.push(previous_bounds(step, anchor, 6 - j)->Some_0));
        assert forall|k: int| 0 <= k < j implies previous_bounds(step, anchor, 5 - k) == Some(
            #[trigger] bs[k],
        ) by {
            if k < j - 1 {
                assert(bs[k] == pb[k]);
            }
        }
    }
}

/// Weekly comparisons step back in whole weeks: the `k`-th of the five
/// previous periods (oldest first) starts exactly `7 * (5 - k)` days before
/// the anchor and ends 6 days after its own start; the sixth period is the
/// current one, with the given bounds.
pub proof fn law_weekly_periods_step_back_whole_weeks(
    mode: AnalyticsTrendMode,
    anchor: Seq<char>,
    current_start: Seq<char>,
    current_end: Seq<char>,
    ps: Seq<PeriodSpec>,
)
    requires
        periods_with_current(PeriodStep::Weekly, mode, anchor, current_start, current_end) == Some(ps),
    ensures
        ps.len() == 6,
        forall|k: int|
            0 <= k < 5 ==> {
                &&& spec_shift(anchor, -7 * (5 - k), "days"@) == Some((#[trigger] ps[k]).start)
                &&& spec_shift(ps[k].start, 6, "days"@) == Some(ps[k].end)
                &&& !ps[k].current
            },
        ps[5].start == current_start,
        ps[5].end == current_end,
        ps[5].current,
{
    let bs = previous_bounds_list(PeriodStep::Weekly, anchor, 5)->Some_0;
    lemma_previous_bounds_list(PeriodStep::Weekly, anchor, 5, bs);
    assert forall|k: int| 0 <= k < 5 implies {
        &&& spec_shift(anchor, -7 * (5 - k), "days"@) == Some((#[trigger] ps[k]).start)
        &&& spec_shift(ps[k].start, 6, "days"@) == Some(ps[k].end)
        &&& !ps[k].current
    } by {
        assert(previous_bounds(PeriodStep::Weekly, anchor, 5 - k) == Some(bs[k]));
        assert(ps[k] == spec_period(bs[k].0, bs[k].1, false, mode));
    }
}

/// Monthly, yearly and custom comparisons step back by their own unit: the
/// `k`-th of the five previous periods (oldest first) starts `5 - k` months
/// (or years) before the anchor and ends at the end of that month (or year);
/// a custom span of `len` days starts `len * (5 - k)` days before the anchor
/// and ends the day before the next span starts. The sixth period is the
/// current one.
pub proof fn law_other_periods_step_back_by_their_unit(
    step: PeriodStep,
    mode: AnalyticsTrendMode,
    anchor: Seq<char>,
    current_start: Seq<char>,
    current_end: Seq<char>,
    ps: Seq<PeriodSpec>,
)
    requires
        periods_with_current(step, mode, anchor, current_start, current_end) == Some(ps),
    ensures
        ps.len() == 6,
        forall|k: int|
            0 <= k < 5 ==> match step {
                PeriodStep::Monthly => {
                    &&& spec_shift(anchor, -(5 - k), "months"@) == Some((#[trigger] ps[k]).start)
                    &&& spec_end_of_month(ps[k].start) == Some(ps[k].end)
                },
                PeriodStep::Yearly => {
                    &&& spec_shift(anchor, -(5 - k), "years"@) == Some(ps[k].start)
                    &&& spec_end_of_year(ps[k].start) == Some(ps[k].end)
                },
                PeriodStep::Span(len) => {
                    &&& spec_shift(anchor, -(len * (5 - k)), "days"@) == Some(ps[k].start)
                    &&& spec_shift(anchor, -((len * (4 - k)) + 1), "days"@) == Some(ps[k].end)
                },
                PeriodStep::Weekly => true,
            },
        forall|k: int| 0 <= k < 5 ==> !(#[trigger] ps[k]).current,
        ps[5].start == current_start,
        ps[5].end == current_end,
        ps[5].current,
{
    let bs = previous_bounds_list(step, anchor, 5)->Some_0;
    lemma_previous_bounds_list(step, anchor, 5, bs);
    assert forall|k: int| 0 <= k < 5 implies ps[k] == spec_period(bs[k].0, bs[k].1, false, mode)
        && previous_bounds(step, anchor, 5 - k) == Some(#[trigger] bs[k]) by {
    }
    assert forall|k: int| 0 <= k < 5 implies match step {
        PeriodStep::Monthly => {
            &&& spec_shift(anchor, -(5 - k), "months"@) == Some((#[trigger] ps[k]).start)
            &&& spec_end_of_month(ps[k].start) == Some(ps[k].end)
        },
        PeriodStep::Yearly => {
            &&& spec_shift(anchor, -(5 - k), "years"@) == Some(ps[k].start)
            &&& spec_end_of_year(ps[k].start) == Some(ps[k].end)
        },
        PeriodStep::Span(len) => {
            &&& spec_shift(anchor, -(len * (5 - k)), "days"@) == Some(ps[k].start)
            &&& spec_shift(anchor, -((len * (4 - k)) + 1), "days"@) == Some(ps[k].end)
        },
        PeriodStep::Weekly => true,
    } by {
        assert(ps[k] == spec_period(bs[k].0, bs[k].1, false, mode));
        assert(previous_bounds(step, anchor, 5 - k) == Some(bs[k]));
        match step {
            PeriodStep::Span(len) => {
                assert(len * ((5 - k) - 1) == len * (4 - k)) by (nonlinear_arith);
            },
            _ => {},
        }
    }
}

} // verus!
