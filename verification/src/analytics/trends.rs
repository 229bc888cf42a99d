//! Comparison of the selected period with the five before it: the total
//! line and one line per root category of the business order.
use vstd::prelude::*;
use crate::analytics::types::{
    AnalyticsTaskRow, AnalyticsTrendComparison, AnalyticsTrendMode, AnalyticsTrendPoint,
    AnalyticsTrendSeries,
};
use crate::analytics::rows::{
    filtered_minutes, sum_minutes, rows_fit, lemma_filtered_bounds, lemma_prefix_abs, lemma_filtered_step,
};
use crate::analytics::labels::{spec_normalize_root_label, normalize_root_label};
use crate::analytics::daily::{root_refs, last_root, refs_view, build_root_category_map};
use crate::analytics::periods::ComparisonPeriod;
use crate::analytics::tree::total_minutes_of;
use crate::categories::TaskCategoryNode;
use crate::text::str_eq;

verus! {

/// The id of the `k`-th root line.
pub open spec fn trend_series_id(k: int) -> Seq<char> {
    if k == 0 {
        "money"@
    } else if k == 1 {
        "health"@
    } else if k == 2 {
        "logic"@
    } else if k == 3 {
        "mind"@
    } else if k == 4 {
        "relationships"@
    } else if k == 5 {
        "routine"@
    } else {
        "system"@
    }
}

/// The label of the `k`-th root line.
pub open spec fn trend_series_label(k: int) -> Seq<char> {
    if k == 0 {
        "Деньги"@
    } else if k == 1 {
        "Здоровье"@
    } else if k == 2 {
        "Логика"@
    } else if k == 3 {
        "Психика"@
    } else if k == 4 {
        "Отношения"@
    } else if k == 5 {
        "Рутина"@
    } else {
        "Система"@
    }
}

fn trend_series_names(k: usize) -> (r: (String, String))
    requires
        k < 7,
    ensures
        r.0@ == trend_series_id(k as int),
        r.1@ == trend_series_label(k as int),
{
    if k == 0 {
        ("money".to_owned(), "Деньги".to_owned())
    } else if k == 1 {
        ("health".to_owned(), "Здоровье".to_owned())
    } else if k == 2 {
        ("logic".to_owned(), "Логика".to_owned())
    } else if k == 3 {
        ("mind".to_owned(), "Психика".to_owned())
    } else if k == 4 {
        ("relationships".to_owned(), "Отношения".to_owned())
    } else if k == 5 {
        ("routine".to_owned(), "Рутина".to_owned())
    } else {
        ("system".to_owned(), "Система".to_owned())
    }
}

/// Rows of a category of the codificator whose root, labelled again
/// canonically, is `label`.
pub open spec fn under_root_label(tree: Seq<TaskCategoryNode>, label: Seq<char>) -> spec_fn(
    AnalyticsTaskRow,
) -> bool {
    |r: AnalyticsTaskRow|
        match last_root(root_refs(tree), r.category_id@) {
            Some(x) => spec_normalize_root_label(x.1) == label,
            None => false,
        }
}

/// The time of a period under a root label.
pub open spec fn root_total(tree: Seq<TaskCategoryNode>, rows: Seq<AnalyticsTaskRow>, label: Seq<char>) -> int {
    filtered_minutes(rows, under_root_label(tree, label))
}

/// A point of a line: the period's label and bounds with a time.
pub open spec fn point_matches(p: AnalyticsTrendPoint, period: ComparisonPeriod, total: int) -> bool {
    &&& p.label@ == period.label@
    &&& p.start_date@ == period.start_date@
    &&& p.end_date@ == period.end_date@
    &&& p.total_minutes == total
    &&& p.is_current == period.is_current
}

/// The comparison over periods whose rows are given period by period: a
/// total line and the seven root lines, one point per period each.
pub open spec fn trend_comparison_for(
    c: AnalyticsTrendComparison,
    tree: Seq<TaskCategoryNode>,
    mode: AnalyticsTrendMode,
    periods: Seq<ComparisonPeriod>,
    period_rows: Seq<Seq<AnalyticsTaskRow>>,
) -> bool {
    &&& c.mode == mode
    &&& c.total.series_id@ == "total"@
    &&& c.total.label@ == "Суммарное время"@
    &&& c.total.points@.len() == periods.len()
    &&& forall|k: int|
        0 <= k < periods.len() ==> point_matches(
            #[trigger] c.total.points@[k],
            periods[k],
            sum_minutes(period_rows[k]),
        )
    &&& c.categories@.len() == 7
    &&& forall|s: int|
        0 <= s < 7 ==> {
            &&& (#[trigger] c.categories@[s]).series_id@ == trend_series_id(s)
            &&& c.categories@[s].label@ == trend_series_label(s)
            &&& c.categories@[s].points@.len() == periods.len()
            &&& forall|k: int|
                0 <= k < periods.len() ==> point_matches(
                    #[trigger] c.categories@[s].points@[k],
                    periods[k],
                    root_total(tree, period_rows[k], trend_series_label(s)),
                )
        }
}

pub open spec fn period_rows_view(v: Seq<Vec<AnalyticsTaskRow>>) -> Seq<Seq<AnalyticsTaskRow>> {
    v.map_values(|r: Vec<AnalyticsTaskRow>| r@)
}

/// A point of a line.
pub fn build_point(period: &ComparisonPeriod, total_minutes: i64) -> (p: AnalyticsTrendPoint)
    ensures
        point_matches(p, *period, total_minutes as int),
{
    AnalyticsTrendPoint {
        label: period.label.clone(),
        start_date: period.start_date.clone(),
        end_date: period.end_date.clone(),
        total_minutes,
        is_current: period.is_current,
    }
}

/// The time of a period's rows under one root label.
fn collect_root_total(
    tree: Ghost<Seq<TaskCategoryNode>>,
    refs: &Vec<(String, (String, String))>,
    rows: &Vec<AnalyticsTaskRow>,
    label: &str,
) -> (t: i64)
    requires
        refs_view(refs@) == root_refs(tree@),
        rows_fit(rows@),
    ensures
        t == root_total(tree@, rows@, label@),
{
    let mut t: i64 = 0;
    let mut i: usize = 0;
    while i < rows.len()
        invariant
            0 <= i <= rows@.len(),
            refs_view(refs@) == root_refs(tree@),
            rows_fit(rows@),
            t == filtered_minutes(rows@.take(i as int), under_root_label(tree@, label@)),
        decreases rows@.len() - i,
    {
        proof {
            lemma_filtered_step(rows@, i as int, under_root_label(tree@, label@));
            lemma_filtered_bounds(rows@.take(i + 1), under_root_label(tree@, label@));
            lemma_prefix_abs(rows@, i + 1);
        }
        let root = crate::analytics::daily::lookup_root(refs, rows[i].category_id.as_str());
        match root {
            Some(x) => {
                let normalized = normalize_root_label(x.1.as_str());
                if str_eq(normalized.as_str(), label) {
                    t = t + rows[i].time_length;
                }
            },
            None => {},
        }
        i = i + 1;
    }
    proof {
        assert(rows@.take(i as int) =~= rows@);
    }
    t
}

/// The comparison of the periods, given the rows of each period.
pub fn build_trend_comparison(
    tree: &Vec<TaskCategoryNode>,
    mode: AnalyticsTrendMode,
    periods: &Vec<ComparisonPeriod>,
    period_rows: &Vec<Vec<AnalyticsTaskRow>>,
) -> (c: AnalyticsTrendComparison)
    requires
        period_rows@.len() == periods@.len(),
        forall|k: int| 0 <= k < period_rows@.len() ==> rows_fit(#[trigger] period_rows@[k]@),
    ensures
        trend_comparison_for(c, tree@, mode, periods@, period_rows_view(period_rows@)),
{
    let refs = build_root_category_map(tree);
    let ghost prv = period_rows_view(period_rows@);
    let mut total_points: Vec<AnalyticsTrendPoint> = Vec::new();
    let mut k: usize = 0;
    while k < periods.len()
        invariant
            0 <= k <= periods@.len(),
            period_rows@.len() == periods@.len(),
            prv == period_rows_view(period_rows@),
            forall|j: int| 0 <= j < period_rows@.len() ==> rows_fit(#[trigger] period_rows@[j]@),
            total_points@.len() == k,
            forall|j: int|
                0 <= j < k ==> point_matches(#[trigger] total_points@[j], periods@[j], sum_minutes(prv[j])),
        decreases periods@.len() - k,
    {
        proof {
            assert(rows_fit(period_rows@[k as int]@));
        }
        let total = total_minutes_of(&period_rows[k]);
        total_points.push(build_point(&periods[k], total));
        k = k + 1;
    }
    let mut categories: Vec<AnalyticsTrendSeries> = Vec::new();
    let mut s: usize = 0;
    while s < 7
        invariant
            0 <= s <= 7,
            period_rows@.len() == periods@.len(),
            prv == period_rows_view(period_rows@),
            refs_view(refs@) == root_refs(tree@),
            forall|j: int| 0 <= j < period_rows@.len() ==> rows_fit(#[trigger] period_rows@[j]@),
            categories@.len() == s,
            forall|q: int|
                0 <= q < s ==> {
                    &&& (#[trigger] categories@[q]).series_id@ == trend_series_id(q)
                    &&& categories@[q].label@ == trend_series_label(q)
                    &&& categories@[q].points@.len() == periods@.len()
                    &&& forall|j: int|
                        0 <= j < periods@.len() ==> point_matches(
                            #[trigger] categories@[q].points@[j],
                            periods@[j],
                            root_total(tree@, prv[j], trend_series_label(q)),
                        )
                },
        decreases 7 - s,
    {
        let (series_id, label) = trend_series_names(s);
        let mut points: Vec<AnalyticsTrendPoint> = Vec::new();
        let mut k: usize = 0;
        while k < periods.len()
            invariant
                0 <= k <= periods@.len(),
                s < 7,
                label@ == trend_series_label(s as int),
                period_rows@.len() == periods@.len(),
                prv == period_rows_view(period_rows@),
                refs_view(refs@) == root_refs(tree@),
                forall|j: int| 0 <= j < period_rows@.len() ==> rows_fit(#[trigger] period_rows@[j]@),
                points@.len() == k,
                forall|j: int|
                    0 <= j < k ==> point_matches(
                        #[trigger] points@[j],
                        periods@[j],
                        root_total(tree@, prv[j], trend_series_label(s as int)),
                    ),
            decreases periods@.len() - k,
        {
            proof {
                assert(rows_fit(period_rows@[k as int]@));
            }
            let total = collect_root_total(Ghost(tree@), &refs, &period_rows[k], label.as_str());
            points.push(build_point(&periods[k], total));
            k = k + 1;
        }
        categories.push(AnalyticsTrendSeries { series_id, label, points });
        s = s + 1;
    }
    AnalyticsTrendComparison {
        mode,
        total: AnalyticsTrendSeries {
            series_id: "total".to_owned(),
            label: "Суммарное время".to_owned(),
            points: total_points,
        },
        categories,
    }
}

} // verus!
