//! The analytics payload and the orders its lists are sorted in.
use vstd::prelude::*;
use crate::sorting::SortKey;
use crate::text::{
    seq_lt, str_lt, lemma_seq_lt_irreflexive, lemma_seq_lt_transitive, lemma_seq_lt_total,
    lemma_seq_lt_asymmetric,
};
use crate::analytics::labels::{spec_root_category_rank, root_category_rank};

verus! {

/// One logged task of the range, joined with its project.
pub struct AnalyticsTaskRow {
    pub id: String,
    pub category_id: String,
    pub time_length: i64,
    pub date: String,
    pub note: Option<String>,
    pub project_id: Option<String>,
    pub project_label: Option<String>,
    pub project_is_done: bool,
    pub is_project_closing_task: bool,
}

/// The range asked for.
pub struct AnalyticsDashboardInput {
    pub start_date: String,
    pub end_date: String,
}

/// Time of a category and its subtree in the range.
pub struct AnalyticsCategorySummaryNode {
    pub category_id: String,
    pub label: String,
    pub total_minutes: i64,
    pub task_count: i64,
    pub projects: Vec<AnalyticsProjectPeriodItem>,
    pub children: Vec<AnalyticsCategorySummaryNode>,
}

/// Time of one project within a category summary.
pub struct AnalyticsProjectPeriodItem {
    pub project_id: String,
    pub label: String,
    pub total_minutes: i64,
    pub finished_in_period: bool,
}

/// Time of one project across all categories.
pub struct AnalyticsProjectSummaryItem {
    pub project_id: String,
    pub label: String,
    pub total_minutes: i64,
    pub task_count: i64,
    pub start_date: Option<String>,
    pub end_date: Option<String>,
    pub is_done: bool,
    pub finished_in_period: bool,
    pub category_breakdown: Vec<AnalyticsProjectCategoryBreakdownItem>,
}

/// Time of a project in one category.
pub struct AnalyticsProjectCategoryBreakdownItem {
    pub category_id: String,
    pub label: String,
    pub total_minutes: i64,
    pub task_count: i64,
}

/// Share of one root category.
pub struct AnalyticsRootShareItem {
    pub category_id: String,
    pub label: String,
    pub total_minutes: i64,
}

/// One day of the range.
pub struct AnalyticsDailyPoint {
    pub date: String,
    pub total_minutes: i64,
    pub task_count: i64,
    pub category_breakdown: Vec<AnalyticsDailyCategorySlice>,
}

/// Time of one root category on one day.
pub struct AnalyticsDailyCategorySlice {
    pub category_id: String,
    pub label: String,
    pub total_minutes: i64,
}

/// A task of the range that carries a note.
pub struct AnalyticsCommentedTaskItem {
    pub task_id: String,
    pub date: String,
    pub category_label: String,
    pub project_label: Option<String>,
    pub time_length: i64,
    pub note: String,
}

/// How the daily series is drawn.
#[derive(PartialEq, Eq, Structural, Clone, Copy, Debug)]
pub enum AnalyticsDailyChartKind {
    Bar,
    Line,
}

/// The current period against the five before it.
pub struct AnalyticsTrendComparison {
    pub mode: AnalyticsTrendMode,
    pub total: AnalyticsTrendSeries,
    pub categories: Vec<AnalyticsTrendSeries>,
}

/// The kind of period compared.
#[derive(PartialEq, Eq, Structural, Clone, Copy, Debug)]
pub enum AnalyticsTrendMode {
    Week,
    Month,
    Year,
    Custom,
}

/// One line of the comparison chart.
pub struct AnalyticsTrendSeries {
    pub series_id: String,
    pub label: String,
    pub points: Vec<AnalyticsTrendPoint>,
}

/// One period of a comparison line.
pub struct AnalyticsTrendPoint {
    pub label: String,
    pub start_date: String,
    pub end_date: String,
    pub total_minutes: i64,
    pub is_current: bool,
}

/// Everything the analytics screen shows.
pub struct AnalyticsDashboardData {
    pub start_date: String,
    pub end_date: String,
    pub total_minutes: i64,
    pub category_summaries: Vec<AnalyticsCategorySummaryNode>,
    pub project_summaries: Vec<AnalyticsProjectSummaryItem>,
    pub root_share_items: Vec<AnalyticsRootShareItem>,
    pub daily_series: Vec<AnalyticsDailyPoint>,
    pub commented_tasks: Vec<AnalyticsCommentedTaskItem>,
    pub daily_chart_kind: AnalyticsDailyChartKind,
    pub trend_comparison: AnalyticsTrendComparison,
}

/// Lexicographic order on (integer key, text): a strict total order on pairs.
pub open spec fn pair_before(ka: int, la: Seq<char>, kb: int, lb: Seq<char>) -> bool {
    ka < kb || (ka == kb && seq_lt(la, lb))
}

pub proof fn lemma_pair_order(ka: int, la: Seq<char>, kb: int, lb: Seq<char>, kc: int, lc: Seq<char>)
    ensures
        !pair_before(ka, la, ka, la),
        pair_before(ka, la, kb, lb) && pair_before(kb, lb, kc, lc) ==> pair_before(ka, la, kc, lc),
        pair_before(ka, la, kc, lc) ==> pair_before(ka, la, kb, lb) || pair_before(
            kb,
            lb,
            kc,
            lc,
        ),
{
    lemma_seq_lt_irreflexive(la);
    if ka == kb && kb == kc {
        if seq_lt(la, lb) && seq_lt(lb, lc) {
            lemma_seq_lt_transitive(la, lb, lc);
        }
        if seq_lt(la, lc) {
            lemma_seq_lt_total(la, lb);
            lemma_seq_lt_total(lb, lc);
            if !seq_lt(la, lb) && !seq_lt(lb, lc) {
                if lb != la {
                    if lc != lb {
                        lemma_seq_lt_transitive(lc, lb, la);
                        lemma_seq_lt_asymmetric(la, lc);
                    } else {
                        lemma_seq_lt_asymmetric(la, lb);
                    }
                } else {
                    if lc != lb {
                        lemma_seq_lt_asymmetric(la, lc);
                    } else {
                        lemma_seq_lt_irreflexive(la);
                    }
                }
            }
        }
    }
}

/// Root summaries and daily slices: business rank of the label, then label.
pub open spec fn rank_label_before(a: Seq<char>, b: Seq<char>) -> bool {
    pair_before(spec_root_category_rank(a), a, spec_root_category_rank(b), b)
}

/// Larger totals first, then label.
pub open spec fn minutes_label_before(am: int, al: Seq<char>, bm: int, bl: Seq<char>) -> bool {
    pair_before(-am, al, -bm, bl)
}

fn rank_label_precedes(a: &str, b: &str) -> (r: bool)
    ensures
        r == rank_label_before(a@, b@),
{
    let ra = root_category_rank(a);
    let rb = root_category_rank(b);
    ra < rb || (ra == rb && str_lt(a, b))
}

fn minutes_label_precedes(am: i64, al: &str, bm: i64, bl: &str) -> (r: bool)
    ensures
        r == minutes_label_before(am as int, al@, bm as int, bl@),
{
    bm < am || (am == bm && str_lt(al, bl))
}

impl SortKey for AnalyticsCategorySummaryNode {
    open spec fn before(a: Self, b: Self) -> bool {
        rank_label_before(a.label@, b.label@)
    }

    proof fn lemma_strict_weak_order(a: Self, b: Self, c: Self) {
        lemma_pair_order(
            spec_root_category_rank(a.label@),
            a.label@,
            spec_root_category_rank(b.label@),
            b.label@,
            spec_root_category_rank(c.label@),
            c.label@,
        );
    }

    fn precedes(&self, other: &Self) -> (r: bool) {
        rank_label_precedes(self.label.as_str(), other.label.as_str())
    }
}

impl SortKey for AnalyticsDailyCategorySlice {
    open spec fn before(a: Self, b: Self) -> bool {
        rank_label_before(a.label@, b.label@)
    }

    proof fn lemma_strict_weak_order(a: Self, b: Self, c: Self) {
        lemma_pair_order(
            spec_root_category_rank(a.label@),
            a.label@,
            spec_root_category_rank(b.label@),
            b.label@,
            spec_root_category_rank(c.label@),
            c.label@,
        );
    }

    fn precedes(&self, other: &Self) -> (r: bool) {
        rank_label_precedes(self.label.as_str(), other.label.as_str())
    }
}

impl SortKey for AnalyticsRootShareItem {
    open spec fn before(a: Self, b: Self) -> bool {
        minutes_label_before(a.total_minutes as int, a.label@, b.total_minutes as int, b.label@)
    }

    proof fn lemma_strict_weak_order(a: Self, b: Self, c: Self) {
        lemma_pair_order(
            -a.total_minutes,
            a.label@,
            -b.total_minutes,
            b.label@,
            -c.total_minutes,
            c.label@,
        );
    }

    fn precedes(&self, other: &Self) -> (r: bool) {
        minutes_label_precedes(
            self.total_minutes,
            self.label.as_str(),
            other.total_minutes,
            other.label.as_str(),
        )
    }
}

impl SortKey for AnalyticsProjectSummaryItem {
    open spec fn before(a: Self, b: Self) -> bool {
        minutes_label_before(a.total_minutes as int, a.label@, b.total_minutes as int, b.label@)
    }

    proof fn lemma_strict_weak_order(a: Self, b: Self, c: Self) {
        lemma_pair_order(
            -a.total_minutes,
            a.label@,
            -b.total_minutes,
            b.label@,
            -c.total_minutes,
            c.label@,
        );
    }

    fn precedes(&self, other: &Self) -> (r: bool) {
        minutes_label_precedes(
            self.total_minutes,
            self.label.as_str(),
            other.total_minutes,
            other.label.as_str(),
        )
    }
}

impl SortKey for AnalyticsProjectCategoryBreakdownItem {
    open spec fn before(a: Self, b: Self) -> bool {
        minutes_label_before(a.total_minutes as int, a.label@, b.total_minutes as int, b.label@)
    }

    proof fn lemma_strict_weak_order(a: Self, b: Self, c: Self) {
        lemma_pair_order(
            -a.total_minutes,
            a.label@,
            -b.total_minutes,
            b.label@,
            -c.total_minutes,
            c.label@,
        );
    }

    fn precedes(&self, other: &Self) -> (r: bool) {
        minutes_label_precedes(
            self.total_minutes,
            self.label.as_str(),
            other.total_minutes,
            other.label.as_str(),
        )
    }
}

impl SortKey for AnalyticsProjectPeriodItem {
    open spec fn before(a: Self, b: Self) -> bool {
        seq_lt(a.label@, b.label@)
    }

    proof fn lemma_strict_weak_order(a: Self, b: Self, c: Self) {
        lemma_pair_order(0, a.label@, 0, b.label@, 0, c.label@);
    }

    fn precedes(&self, other: &Self) -> (r: bool) {
        str_lt(self.label.as_str(), other.label.as_str())
    }
}

} // verus!
