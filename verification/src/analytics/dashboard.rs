//! The analytics dashboard of a date range, assembled from what was loaded
//! for it: the codificator, the tasks of the range, the day-by-day figures
//! and the tasks of each comparison period.
use vstd::prelude::*;
use crate::analytics::types::{
    AnalyticsTaskRow, AnalyticsDashboardInput, AnalyticsDashboardData, AnalyticsDailyChartKind,
    AnalyticsDailyPoint, AnalyticsTrendMode,
};
use crate::analytics::rows::{rows_fit, abs_minutes, filtered_rows, lemma_abs_nonneg};
use crate::analytics::tree::{forest_rows, subtree_rows, in_category};
use crate::analytics::roots::{root_summaries_for, root_share_items_for, build_category_summaries, build_root_share_items};
use crate::analytics::projects::{project_summaries_for, build_project_summaries};
use crate::analytics::daily::{daily_series_for, commented_tasks_for, build_daily_series, build_commented_tasks};
use crate::analytics::trends::{trend_comparison_for, period_rows_view, build_trend_comparison};
use crate::analytics::periods::ComparisonPeriod;
use crate::categories::TaskCategoryNode;
use crate::text::{seq_lt, str_lt, trim};
use crate::validation::{spec_normalize_iso_date, iso_date_slicing_panics, normalize_iso_date};

verus! {

/// What was loaded for a range: the codificator, the range's tasks, the
/// total the database sums for the range, one point per day of the range,
/// and the comparison periods with the tasks of each.
pub struct DashboardSources {
    pub category_tree: Vec<TaskCategoryNode>,
    pub task_rows: Vec<AnalyticsTaskRow>,
    pub total_minutes: i64,
    pub daily_series: Vec<AnalyticsDailyPoint>,
    pub trend_mode: AnalyticsTrendMode,
    pub trend_periods: Vec<ComparisonPeriod>,
    pub trend_period_rows: Vec<Vec<AnalyticsTaskRow>>,
}

pub open spec fn reversed_range_message() -> Seq<char> {
    "start_date cannot be later than end_date"@
}

/// The range asked for: both dates normalised, the start not after the end.
pub open spec fn spec_validate_dashboard_input(start_raw: Seq<char>, end_raw: Seq<char>) -> Result<
    (Seq<char>, Seq<char>),
    Seq<char>,
> {
    match spec_normalize_iso_date(start_raw, "start_date"@) {
        Err(e) => Err(e),
        Ok(s) => match spec_normalize_iso_date(end_raw, "end_date"@) {
            Err(e) => Err(e),
            Ok(e) => if seq_lt(e, s) {
                Err(reversed_range_message())
            } else {
                Ok((s, e))
            },
        },
    }
}

pub open spec fn range_result_view(r: Result<(String, String), String>) -> Result<(Seq<char>, Seq<char>), Seq<char>> {
    match r {
        Ok(v) => Ok((v.0@, v.1@)),
        Err(e) => Err(e@),
    }
}

/// Normalises the dates of a dashboard request and checks their order.
pub fn validate_dashboard_input(input: &AnalyticsDashboardInput) -> (r: Result<(String, String), String>)
    requires
        !iso_date_slicing_panics(trim(input.start_date@)),
        !iso_date_slicing_panics(trim(input.end_date@)),
    ensures
        range_result_view(r) == spec_validate_dashboard_input(input.start_date@, input.end_date@),
{
    let start_date = match normalize_iso_date(input.start_date.as_str(), "start_date") {
        Ok(v) => v,
        Err(e) => {
            return Err(e);
        },
    };
    let end_date = match normalize_iso_date(input.end_date.as_str(), "end_date") {
        Ok(v) => v,
        Err(e) => {
            return Err(e);
        },
    };
    if str_lt(end_date.as_str(), start_date.as_str()) {
        return Err("start_date cannot be later than end_date".to_owned());
    }
    Ok((start_date, end_date))
}

/// Bars for at most a month of days, a line beyond.
pub open spec fn spec_daily_chart_kind(days: int) -> AnalyticsDailyChartKind {
    if days <= 31 {
        AnalyticsDailyChartKind::Bar
    } else {
        AnalyticsDailyChartKind::Line
    }
}

pub fn daily_chart_kind(days: usize) -> (k: AnalyticsDailyChartKind)
    ensures
        k == spec_daily_chart_kind(days as int),
{
    if days <= 31 {
        AnalyticsDailyChartKind::Bar
    } else {
        AnalyticsDailyChartKind::Line
    }
}

/// The sums over the loaded tasks fit `i64`.
pub open spec fn sources_fit(src: DashboardSources) -> bool {
    &&& rows_fit(forest_rows(src.category_tree@, src.task_rows@))
    &&& rows_fit(src.task_rows@)
    &&& src.trend_period_rows@.len() == src.trend_periods@.len()
    &&& forall|k: int| 0 <= k < src.trend_period_rows@.len() ==> rows_fit(#[trigger] src.trend_period_rows@[k]@)
}

/// The dashboard assembled from the sources for the range `start..=end`.
pub open spec fn dashboard_matches(
    d: AnalyticsDashboardData,
    start: Seq<char>,
    end: Seq<char>,
    src: DashboardSources,
) -> bool {
    let tree = src.category_tree@;
    let rows = src.task_rows@;
    &&& d.start_date@ == start
    &&& d.end_date@ == end
    &&& d.total_minutes == src.total_minutes
    &&& root_summaries_for(d.category_summaries@, tree, rows)
    &&& project_summaries_for(d.project_summaries@, tree, rows)
    &&& root_share_items_for(d.root_share_items@, d.category_summaries@)
    &&& daily_series_for(d.daily_series@, src.daily_series@, tree, rows)
    &&& commented_tasks_for(d.commented_tasks@, tree, rows)
    &&& d.daily_chart_kind == spec_daily_chart_kind(src.daily_series@.len() as int)
    &&& trend_comparison_for(
        d.trend_comparison,
        tree,
        src.trend_mode,
        src.trend_periods@,
        period_rows_view(src.trend_period_rows@),
    )
}

/// The dashboard of a range: the request's error when its dates are not
/// valid or out of order, otherwise everything the screen shows, computed
/// from the sources loaded for the range.
pub fn load_dashboard(input: &AnalyticsDashboardInput, sources: DashboardSources) -> (r: Result<
    AnalyticsDashboardData,
    String,
>)
    requires
        !iso_date_slicing_panics(trim(input.start_date@)),
        !iso_date_slicing_panics(trim(input.end_date@)),
        sources_fit(sources),
    ensures
        match spec_validate_dashboard_input(input.start_date@, input.end_date@) {
            Err(e) => r is Err && r->Err_0@ == e,
            Ok(range) => r is Ok && dashboard_matches(r->Ok_0, range.0, range.1, sources),
        },
{
    let (start_date, end_date) = match validate_dashboard_input(input) {
        Ok(range) => range,
        Err(e) => {
            return Err(e);
        },
    };
    let tree = &sources.category_tree;
    let rows = &sources.task_rows;
    let category_summaries = build_category_summaries(tree, rows);
    let project_summaries = build_project_summaries(tree, rows);
    let root_share_items = build_root_share_items(&category_summaries);
    let days = sources.daily_series.len();
    let daily_series = build_daily_series(tree, sources.daily_series, rows);
    let commented_tasks = build_commented_tasks(tree, rows);
    let trend_comparison = build_trend_comparison(
        tree,
        sources.trend_mode,
        &sources.trend_periods,
        &sources.trend_period_rows,
    );
    let daily_chart_kind = daily_chart_kind(days);
    Ok(
        AnalyticsDashboardData {
            start_date,
            end_date,
            total_minutes: sources.total_minutes,
            category_summaries,
            project_summaries,
            root_share_items,
            daily_series,
            commented_tasks,
            daily_chart_kind,
            trend_comparison,
        },
    )
}

/// What `rows_fit` bounds: the absolute minutes and the number of rows.
pub open spec fn rows_weight(rows: Seq<AnalyticsTaskRow>) -> int {
    abs_minutes(rows) + rows.len()
}

proof fn lemma_weight_append(a: Seq<AnalyticsTaskRow>, b: Seq<AnalyticsTaskRow>)
    ensures
        rows_weight(a + b) == rows_weight(a) + rows_weight(b),
        rows_weight(a) >= 0,
        rows_weight(b) >= 0,
    decreases b.len(),
{
    lemma_abs_nonneg(a);
    lemma_abs_nonneg(b);
    if b.len() > 0 {
        lemma_weight_append(a, b.drop_last());
        assert((a + b).drop_last() =~= a + b.drop_last());
        assert((a + b).last() == b.last());
    } else {
        assert(a + b =~= a);
    }
}

proof fn lemma_forest_rows_append(a: Seq<TaskCategoryNode>, b: Seq<TaskCategoryNode>, rows: Seq<AnalyticsTaskRow>)
    ensures
        forest_rows(a + b, rows) == forest_rows(a, rows) + forest_rows(b, rows),
    decreases a.len(),
{
    if a.len() == 0 {
        assert(a + b =~= b);
    } else {
        lemma_forest_rows_append(a.drop_first(), b, rows);
        assert((a + b).drop_first() =~= a.drop_first() + b);
        assert((a + b)[0] == a[0]);
    }
}

/// The absolute value of a number of minutes.
fn minutes_magnitude(t: i64) -> (r: u64)
    ensures
        r == if t >= 0 { t as int } else { -(t as int) },
{
    if t >= 0 {
        t as u64
    } else {
        ((-(t + 1)) as u64) + 1
    }
}

/// `acc` plus the weight of the rows of category `id`, none once the sum
/// passes `i64::MAX`.
fn add_category_weight(acc: u64, rows: &Vec<AnalyticsTaskRow>, id: &str) -> (r: Option<u64>)
    requires
        acc <= i64::MAX,
    ensures
        match r {
            Some(w) => w == acc + rows_weight(filtered_rows(rows@, in_category(id@))) && w <= i64::MAX,
            None => acc + rows_weight(filtered_rows(rows@, in_category(id@))) > i64::MAX,
        },
{
    let mut w: u64 = acc;
    let mut j: usize = 0;
    proof {
        assert(rows@.take(0) =~= Seq::<AnalyticsTaskRow>::empty());
    }
    while j < rows.len()
        invariant
            0 <= j <= rows@.len(),
            w <= i64::MAX,
            w == acc + rows_weight(filtered_rows(rows@.take(j as int), in_category(id@))),
        decreases rows@.len() - j,
    {
        let ghost before = filtered_rows(rows@.take(j as int), in_category(id@));
        proof {
            assert(rows@.take(j + 1).drop_last() =~= rows@.take(j as int));
            assert(rows@.take(j + 1).last() == rows@[j as int]);
            lemma_abs_nonneg(before);
        }
        if crate::text::str_eq(rows[j].category_id.as_str(), id) {
            let a = minutes_magnitude(rows[j].time_length);
            let room: u64 = 9223372036854775807u64 - w;
            proof {
                let after = filtered_rows(rows@.take(j + 1), in_category(id@));
                assert(after == before.push(rows@[j as int]));
                assert(after.drop_last() =~= before);
            }
            if a >= room {
                proof {
                    lemma_weight_tail(rows@, j as int + 1, id@);
                }
                return None;
            }
            w = w + a + 1;
        }
        j = j + 1;
    }
    proof {
        assert(rows@.take(j as int) =~= rows@);
    }
    Some(w)
}

/// The weight of the rows of a category up to some row is at most that of
/// all of them.
proof fn lemma_weight_tail(rows: Seq<AnalyticsTaskRow>, j: int, id: Seq<char>)
    requires
        0 <= j <= rows.len(),
    ensures
        rows_weight(filtered_rows(rows.take(j), in_category(id))) <= rows_weight(
            filtered_rows(rows, in_category(id)),
        ),
    decreases rows.len() - j,
{
    if j < rows.len() {
        lemma_weight_tail(rows, j + 1, id);
        let before = filtered_rows(rows.take(j), in_category(id));
        assert(rows.take(j + 1).drop_last() =~= rows.take(j));
        assert(rows.take(j + 1).last() == rows[j]);
        lemma_abs_nonneg(before);
        if in_category(id)(rows[j]) {
            assert(filtered_rows(rows.take(j + 1), in_category(id)).drop_last() =~= before);
        }
    } else {
        assert(rows.take(j) =~= rows);
    }
}

/// `acc` plus the weight of the rows that the subtrees of `nodes` gather,
/// none once the sum passes `i64::MAX`.
fn add_forest_weight(nodes: &Vec<TaskCategoryNode>, rows: &Vec<AnalyticsTaskRow>, acc: u64) -> (r: Option<u64>)
    requires
        acc <= i64::MAX,
    ensures
        match r {
            Some(w) => w == acc + rows_weight(forest_rows(nodes@, rows@)) && w <= i64::MAX,
            None => acc + rows_weight(forest_rows(nodes@, rows@)) > i64::MAX,
        },
    decreases nodes@,
{
    let mut w: u64 = acc;
    let mut k: usize = 0;
    proof {
        assert(nodes@.take(0) =~= Seq::<TaskCategoryNode>::empty());
    }
    while k < nodes.len()
        invariant
            0 <= k <= nodes@.len(),
            w <= i64::MAX,
            w == acc + rows_weight(forest_rows(nodes@.take(k as int), rows@)),
        decreases nodes@.len() - k,
    {
        let node = &nodes[k];
        let ghost pre = forest_rows(nodes@.take(k as int), rows@);
        let ghost own = filtered_rows(rows@, in_category(node.id@));
        let ghost below = forest_rows(crate::categories::node_children(nodes@[k as int]), rows@);
        let ghost rest = forest_rows(nodes@.skip(k + 1), rows@);
        proof {
            assert(nodes@.take(k + 1) =~= nodes@.take(k as int) + seq![nodes@[k as int]]);
            lemma_forest_rows_append(nodes@.take(k as int), seq![nodes@[k as int]], rows@);
            assert(seq![nodes@[k as int]].drop_first() =~= Seq::<TaskCategoryNode>::empty());
            let single = seq![nodes@[k as int]];
            assert(single[0] == nodes@[k as int]);
            assert(forest_rows(single.drop_first(), rows@) =~= Seq::<AnalyticsTaskRow>::empty());
            assert(forest_rows(single, rows@) == subtree_rows(nodes@[k as int], rows@) + forest_rows(
                single.drop_first(),
                rows@,
            ));
            assert(forest_rows(single, rows@) =~= subtree_rows(nodes@[k as int], rows@));
            assert(subtree_rows(nodes@[k as int], rows@) == own + below);
            lemma_weight_append(own, below);
            lemma_weight_append(pre, own + below);
            assert(nodes@ =~= nodes@.take(k + 1) + nodes@.skip(k + 1));
            lemma_forest_rows_append(nodes@.take(k + 1), nodes@.skip(k + 1), rows@);
            lemma_weight_append(forest_rows(nodes@.take(k + 1), rows@), rest);
        }
        let w1 = match add_category_weight(w, rows, node.id.as_str()) {
            Some(x) => x,
            None => {
                return None;
            },
        };
        let w2 = match &node.children {
            Some(children) => {
                proof {
                    assert(decreases_to!(nodes@ => nodes@[k as int]));
                }
                match add_forest_weight(children, rows, w1) {
                    Some(x) => x,
                    None => {
                        return None;
                    },
                }
            },
            None => w1,
        };
        w = w2;
        k = k + 1;
    }
    proof {
        assert(nodes@.take(k as int) =~= nodes@);
    }
    Some(w)
}

/// Whether all the rows fit, as `rows_fit` says.
fn rows_fit_check(rows: &Vec<AnalyticsTaskRow>) -> (r: bool)
    ensures
        r == rows_fit(rows@),
{
    let mut w: u64 = 0;
    let mut j: usize = 0;
    proof {
        assert(rows@.take(0) =~= Seq::<AnalyticsTaskRow>::empty());
    }
    while j < rows.len()
        invariant
            0 <= j <= rows@.len(),
            w <= i64::MAX,
            w == rows_weight(rows@.take(j as int)),
        decreases rows@.len() - j,
    {
        proof {
            assert(rows@.take(j + 1).drop_last() =~= rows@.take(j as int));
            assert(rows@.take(j + 1).last() == rows@[j as int]);
            assert(rows@.take(j + 1) =~= rows@.take(j as int) + rows@.skip(j as int).take(1));
            assert(rows@ =~= rows@.take(j + 1) + rows@.skip(j + 1));
            lemma_weight_append(rows@.take(j + 1), rows@.skip(j + 1));
        }
        let a = minutes_magnitude(rows[j].time_length);
        let room: u64 = 9223372036854775807u64 - w;
        if a >= room {
            return false;
        }
        w = w + a + 1;
        j = j + 1;
    }
    proof {
        assert(rows@.take(j as int) =~= rows@);
    }
    true
}

/// Whether the sources meet what `load_dashboard` requires of their sums:
/// callers that cannot prove it test it first.
pub fn sources_fit_check(src: &DashboardSources) -> (r: bool)
    ensures
        r == sources_fit(*src),
{
    if !rows_fit_check(&src.task_rows) {
        return false;
    }
    match add_forest_weight(&src.category_tree, &src.task_rows, 0) {
        Some(_) => {},
        None => {
            return false;
        },
    }
    if src.trend_period_rows.len() != src.trend_periods.len() {
        return false;
    }
    let mut k: usize = 0;
    while k < src.trend_period_rows.len()
        invariant
            0 <= k <= src.trend_period_rows@.len(),
            forall|i: int| 0 <= i < k ==> rows_fit(#[trigger] src.trend_period_rows@[i]@),
        decreases src.trend_period_rows@.len() - k,
    {
        if !rows_fit_check(&src.trend_period_rows[k]) {
            return false;
        }
        k = k + 1;
    }
    true
}

} // verus!
