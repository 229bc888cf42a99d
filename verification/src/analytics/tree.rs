//! Category summaries of a range: each node of the codificator with the time
//! of its whole subtree and the projects worked on there, plus a bucket for
//! tasks whose category is no longer in the codificator.
use vstd::prelude::*;
use crate::analytics::types::{AnalyticsTaskRow, AnalyticsCategorySummaryNode, AnalyticsProjectPeriodItem, AnalyticsRootShareItem};
use crate::analytics::rows::{filtered_minutes, filtered_count, filtered_rows, any_row, sum_minutes, abs_minutes, rows_fit, lemma_filtered_bounds, lemma_prefix_abs, lemma_abs_nonneg, lemma_filtered_step, lemma_sum_append, lemma_any_row_step};
use crate::analytics::labels::{spec_normalize_root_label, normalize_root_label};
use crate::categories::{TaskCategoryNode, flatten, node_children, lemma_flatten_take_step};
use crate::ordered_ids::{
    ascending, ascending_listing, lemma_ascending_listing_is, insert_ascending,
};
use crate::sorting::{SortKey, stable_sort, sort_stable, insert_sorted};
use crate::text::{seq_lt, str_eq, str_lt, strs_view, strs_contain, lemma_strs_push_set};

verus! {



pub open spec fn has_project(r: AnalyticsTaskRow) -> bool {
    r.project_id is Some && r.project_label is Some
}

pub open spec fn row_project_id(r: AnalyticsTaskRow) -> Seq<char> {
    r.project_id->0@
}

pub open spec fn row_project_label(r: AnalyticsTaskRow) -> Seq<char> {
    r.project_label->0@
}

/// Rows booked on project `pid` (with a project label, as the join gives it).
pub open spec fn in_project(pid: Seq<char>) -> spec_fn(AnalyticsTaskRow) -> bool {
    |r: AnalyticsTaskRow| has_project(r) && row_project_id(r) == pid
}

/// Rows of `pid` that close the project.
pub open spec fn closing_in_project(pid: Seq<char>) -> spec_fn(AnalyticsTaskRow) -> bool {
    |r: AnalyticsTaskRow| has_project(r) && row_project_id(r) == pid && r.is_project_closing_task
}

pub open spec fn in_category(id: Seq<char>) -> spec_fn(AnalyticsTaskRow) -> bool {
    |r: AnalyticsTaskRow| r.category_id@ == id
}

/// Ids of the projects that rows are booked on.
pub open spec fn project_id_set(rows: Seq<AnalyticsTaskRow>) -> Set<Seq<char>> {
    Set::new(|pid: Seq<char>| any_row(rows, in_project(pid)))
}

/// The label of the last row booked on `pid`.
pub open spec fn project_last_label(rows: Seq<AnalyticsTaskRow>, pid: Seq<char>) -> Seq<char> {
    row_project_label(filtered_rows(rows, in_project(pid)).last())
}

/// The item of project `pid` over a list of rows.
pub open spec fn period_item_matches(
    item: AnalyticsProjectPeriodItem,
    rows: Seq<AnalyticsTaskRow>,
    pid: Seq<char>,
) -> bool {
    &&& item.project_id@ == pid
    &&& item.label@ == project_last_label(rows, pid)
    &&& item.total_minutes == filtered_minutes(rows, in_project(pid))
    &&& item.finished_in_period == any_row(rows, closing_in_project(pid))
}

/// One item per project of the rows, taken in increasing id order and then
/// sorted stably by label.
pub open spec fn project_items_for(
    items: Seq<AnalyticsProjectPeriodItem>,
    rows: Seq<AnalyticsTaskRow>,
) -> bool {
    let pids = ascending_listing(project_id_set(rows));
    exists|pre: Seq<AnalyticsProjectPeriodItem>|
        {
            &&& pre.len() == pids.len()
            &&& forall|k: int|
                0 <= k < pre.len() ==> period_item_matches(#[trigger] pre[k], rows, pids[k])
            &&& items == stable_sort(pre)
        }
}

proof fn lemma_project_id_set_step(rows: Seq<AnalyticsTaskRow>, i: int)
    requires
        0 <= i < rows.len(),
    ensures
        project_id_set(rows.take(i + 1)) == if has_project(rows[i]) {
            project_id_set(rows.take(i)).insert(row_project_id(rows[i]))
        } else {
            project_id_set(rows.take(i))
        },
{
    let a = project_id_set(rows.take(i + 1));
    let b = if has_project(rows[i]) {
        project_id_set(rows.take(i)).insert(row_project_id(rows[i]))
    } else {
        project_id_set(rows.take(i))
    };
    assert forall|pid: Seq<char>| a.contains(pid) <==> b.contains(pid) by {
        lemma_any_row_step(rows, i, in_project(pid));
    }
    assert(a =~= b);
}

fn row_has_project(r: &AnalyticsTaskRow) -> (b: bool)
    ensures
        b == has_project(*r),
{
    r.project_id.is_some() && r.project_label.is_some()
}

pub(crate) fn row_in_project(r: &AnalyticsTaskRow, pid: &str) -> (b: bool)
    ensures
        b == in_project(pid@)(*r),
{
    match (&r.project_id, &r.project_label) {
        (Some(p), Some(_)) => str_eq(p.as_str(), pid),
        _ => false,
    }
}

/// Project ids of the rows in increasing order.
pub(crate) fn ascending_project_ids(rows: &Vec<AnalyticsTaskRow>) -> (r: Vec<String>)
    ensures
        ascending(strs_view(r@)),
        strs_view(r@).to_set() == project_id_set(rows@),
{
    let mut r: Vec<String> = Vec::new();
    let mut i: usize = 0;
    proof {
        assert(strs_view(r@).to_set() =~= Set::empty());
        assert(project_id_set(rows@.take(0)) =~= Set::empty());
    }
    while i < rows.len()
        invariant
            0 <= i <= rows@.len(),
            ascending(strs_view(r@)),
            strs_view(r@).to_set() == project_id_set(rows@.take(i as int)),
        decreases rows@.len() - i,
    {
        proof {
            lemma_project_id_set_step(rows@, i as int);
        }
        let row = &rows[i];
        if row_has_project(row) {
            match &row.project_id {
                Some(pid) => {
                    insert_ascending(&mut r, pid.as_str());
                },
                None => {},
            }
        }
        i = i + 1;
    }
    proof {
        assert(rows@.take(i as int) =~= rows@);
    }
    r
}

/// Aggregates the rows of one project.
fn project_period_item(rows: &Vec<AnalyticsTaskRow>, pid: &str) -> (item: AnalyticsProjectPeriodItem)
    requires
        rows_fit(rows@),
        project_id_set(rows@).contains(pid@),
    ensures
        period_item_matches(item, rows@, pid@),
{
    let mut total: i64 = 0;
    let mut finished = false;
    let mut label: String = String::new();
    let mut i: usize = 0;
    while i < rows.len()
        invariant
            0 <= i <= rows@.len(),
            rows_fit(rows@),
            total == filtered_minutes(rows@.take(i as int), in_project(pid@)),
            finished == any_row(rows@.take(i as int), closing_in_project(pid@)),
            filtered_rows(rows@.take(i as int), in_project(pid@)).len() > 0 ==> label@
                == row_project_label(filtered_rows(rows@.take(i as int), in_project(pid@)).last()),
        decreases rows@.len() - i,
    {
        let row = &rows[i];
        proof {
            lemma_filtered_step(rows@, i as int, in_project(pid@));
            lemma_any_row_step(rows@, i as int, closing_in_project(pid@));
            lemma_filtered_bounds(rows@.take(i + 1), in_project(pid@));
            lemma_prefix_abs(rows@, i + 1);
        }
        if row_in_project(row, pid) {
            total = total + row.time_length;
            if row.is_project_closing_task {
                finished = true;
            }
            match &row.project_label {
                Some(l) => {
                    label = l.clone();
                },
                None => {},
            }
        }
        i = i + 1;
    }
    proof {
        assert(rows@.take(i as int) =~= rows@);
        let k = choose|k: int| 0 <= k < rows@.len() && in_project(pid@)(#[trigger] rows@[k]);
        lemma_filtered_nonempty(rows@, in_project(pid@), k);
    }
    AnalyticsProjectPeriodItem {
        project_id: pid.to_owned(),
        label,
        total_minutes: total,
        finished_in_period: finished,
    }
}

pub proof fn lemma_filtered_nonempty(rows: Seq<AnalyticsTaskRow>, p: spec_fn(AnalyticsTaskRow) -> bool, k: int)
    requires
        0 <= k < rows.len(),
        p(rows[k]),
    ensures
        filtered_rows(rows, p).len() > 0,
    decreases rows.len(),
{
    if k < rows.len() - 1 {
        assert(rows.drop_last()[k] == rows[k]);
        lemma_filtered_nonempty(rows.drop_last(), p, k);
    }
}

/// The project items of a list of rows.
pub fn project_items_from_rows(rows: &Vec<AnalyticsTaskRow>) -> (items: Vec<AnalyticsProjectPeriodItem>)
    requires
        rows_fit(rows@),
    ensures
        project_items_for(items@, rows@),
{
    let pids = ascending_project_ids(rows);
    let ghost listing = strs_view(pids@);
    proof {
        lemma_ascending_listing_is(listing, project_id_set(rows@));
    }
    let mut pre: Vec<AnalyticsProjectPeriodItem> = Vec::new();
    let mut k: usize = 0;
    while k < pids.len()
        invariant
            0 <= k <= pids@.len(),
            rows_fit(rows@),
            listing == strs_view(pids@),
            listing.to_set() == project_id_set(rows@),
            pre@.len() == k,
            forall|j: int| 0 <= j < k ==> period_item_matches(#[trigger] pre@[j], rows@, listing[j]),
        decreases pids@.len() - k,
    {
        proof {
            assert(listing.to_set().contains(listing[k as int]));
        }
        let item = project_period_item(rows, pids[k].as_str());
        pre.push(item);
        k = k + 1;
    }
    let ghost witness = pre@;
    let items = sort_stable(pre);
    proof {
        assert(witness.len() == ascending_listing(project_id_set(rows@)).len());
    }
    items
}

/// The rows of a node's subtree: its own rows in order, then those of each
/// child subtree in child order.
pub open spec fn subtree_rows(node: TaskCategoryNode, rows: Seq<AnalyticsTaskRow>) -> Seq<
    AnalyticsTaskRow,
>
    decreases node, 1int,
{
    filtered_rows(rows, in_category(node.id@)) + match node.children {
        Some(c) => forest_rows(c@, rows),
        None => Seq::empty(),
    }
}

/// The rows of the subtrees of a forest, tree after tree.
pub open spec fn forest_rows(nodes: Seq<TaskCategoryNode>, rows: Seq<AnalyticsTaskRow>) -> Seq<
    AnalyticsTaskRow,
>
    decreases nodes, 0int,
{
    if nodes.len() == 0 {
        Seq::empty()
    } else {
        subtree_rows(nodes[0], rows) + forest_rows(nodes.drop_first(), rows)
    }
}

/// `s` summarises `node`: total and count of its subtree's rows, the
/// projects of those rows, and the summaries of the children that have rows.
pub open spec fn is_category_summary(
    s: AnalyticsCategorySummaryNode,
    node: TaskCategoryNode,
    rows: Seq<AnalyticsTaskRow>,
) -> bool
    decreases node, 1int,
{
    let sr = subtree_rows(node, rows);
    &&& sr.len() > 0
    &&& s.category_id@ == node.id@
    &&& s.label@ == node.label@
    &&& s.total_minutes == sum_minutes(sr)
    &&& s.task_count == sr.len()
    &&& project_items_for(s.projects@, sr)
    &&& match node.children {
        Some(c) => summaries_for(s.children@, c@, rows),
        None => s.children@.len() == 0,
    }
}

/// `outs` are the summaries of the nodes that have rows, in node order.
pub open spec fn summaries_for(
    outs: Seq<AnalyticsCategorySummaryNode>,
    nodes: Seq<TaskCategoryNode>,
    rows: Seq<AnalyticsTaskRow>,
) -> bool
    decreases nodes, 0int,
{
    if nodes.len() == 0 {
        outs.len() == 0
    } else if subtree_rows(nodes[0], rows).len() == 0 {
        summaries_for(outs, nodes.drop_first(), rows)
    } else {
        &&& outs.len() > 0
        &&& is_category_summary(outs[0], nodes[0], rows)
        &&& summaries_for(outs.drop_first(), nodes.drop_first(), rows)
    }
}

proof fn lemma_forest_rows_append(
    a: Seq<TaskCategoryNode>,
    b: Seq<TaskCategoryNode>,
    rows: Seq<AnalyticsTaskRow>,
)
    ensures
        forest_rows(a + b, rows) == forest_rows(a, rows) + forest_rows(b, rows),
    decreases a.len(),
{
    if a.len() == 0 {
        assert(a + b =~= b);
        assert(forest_rows(a, rows) + forest_rows(b, rows) =~= forest_rows(b, rows));
    } else {
        assert((a + b).drop_first() =~= a.drop_first() + b);
        assert((a + b)[0] == a[0]);
        lemma_forest_rows_append(a.drop_first(), b, rows);
        assert(forest_rows(a + b, rows) =~= forest_rows(a, rows) + forest_rows(b, rows));
    }
}

proof fn lemma_forest_rows_single(n: TaskCategoryNode, rows: Seq<AnalyticsTaskRow>)
    ensures
        forest_rows(seq![n], rows) == subtree_rows(n, rows),
{
    assert(seq![n].drop_first() =~= Seq::<TaskCategoryNode>::empty());
    assert(seq![n][0] == n);
    assert(forest_rows(Seq::<TaskCategoryNode>::empty(), rows) =~= Seq::<AnalyticsTaskRow>::empty());
    assert(subtree_rows(n, rows) + Seq::<AnalyticsTaskRow>::empty() =~= subtree_rows(n, rows));
}

proof fn lemma_summaries_append(
    a: Seq<AnalyticsCategorySummaryNode>,
    x: Seq<TaskCategoryNode>,
    b: Seq<AnalyticsCategorySummaryNode>,
    y: Seq<TaskCategoryNode>,
    rows: Seq<AnalyticsTaskRow>,
)
    requires
        summaries_for(a, x, rows),
        summaries_for(b, y, rows),
    ensures
        summaries_for(a + b, x + y, rows),
    decreases x.len(),
{
    if x.len() == 0 {
        assert(a + b =~= b);
        assert(x + y =~= y);
    } else {
        assert((x + y).drop_first() =~= x.drop_first() + y);
        assert((x + y)[0] == x[0]);
        if subtree_rows(x[0], rows).len() == 0 {
            lemma_summaries_append(a, x.drop_first(), b, y, rows);
        } else {
            lemma_summaries_append(a.drop_first(), x.drop_first(), b, y, rows);
            assert((a + b).drop_first() =~= a.drop_first() + b);
            assert((a + b)[0] == a[0]);
        }
    }
}

proof fn lemma_fit_parts(a: Seq<AnalyticsTaskRow>, b: Seq<AnalyticsTaskRow>)
    requires
        rows_fit(a + b),
    ensures
        rows_fit(a),
        rows_fit(b),
{
    lemma_sum_append(a, b, |r: AnalyticsTaskRow| true);
    lemma_abs_nonneg(a);
    lemma_abs_nonneg(b);
}

/// The rows of `rows` booked on category `id`, in order.
pub(crate) fn rows_in_category(rows: &Vec<AnalyticsTaskRow>, id: &str) -> (r: Vec<AnalyticsTaskRow>)
    ensures
        r@ == filtered_rows(rows@, in_category(id@)),
{
    let mut r: Vec<AnalyticsTaskRow> = Vec::new();
    let mut i: usize = 0;
    while i < rows.len()
        invariant
            0 <= i <= rows@.len(),
            r@ == filtered_rows(rows@.take(i as int), in_category(id@)),
        decreases rows@.len() - i,
    {
        proof {
            lemma_filtered_step(rows@, i as int, in_category(id@));
        }
        if str_eq(rows[i].category_id.as_str(), id) {
            r.push(rows[i].duplicate());
        }
        i = i + 1;
    }
    proof {
        assert(rows@.take(i as int) =~= rows@);
    }
    r
}

/// Sum of the minutes of the rows.
pub fn total_minutes_of(rows: &Vec<AnalyticsTaskRow>) -> (t: i64)
    requires
        rows_fit(rows@),
    ensures
        t == sum_minutes(rows@),
{
    let mut t: i64 = 0;
    let mut i: usize = 0;
    while i < rows.len()
        invariant
            0 <= i <= rows@.len(),
            rows_fit(rows@),
            t == filtered_minutes(rows@.take(i as int), |r: AnalyticsTaskRow| true),
        decreases rows@.len() - i,
    {
        proof {
            lemma_filtered_step(rows@, i as int, |r: AnalyticsTaskRow| true);
            lemma_filtered_bounds(rows@.take(i + 1), |r: AnalyticsTaskRow| true);
            lemma_prefix_abs(rows@, i + 1);
        }
        t = t + rows[i].time_length;
        i = i + 1;
    }
    proof {
        assert(rows@.take(i as int) =~= rows@);
    }
    t
}

/// The summary of a node (none when its subtree has no rows) and the rows
/// of its subtree.
fn build_category_summary(node: &TaskCategoryNode, rows: &Vec<AnalyticsTaskRow>) -> (r: (
    Option<AnalyticsCategorySummaryNode>,
    Vec<AnalyticsTaskRow>,
))
    requires
        rows_fit(subtree_rows(*node, rows@)),
    ensures
        r.1@ == subtree_rows(*node, rows@),
        match r.0 {
            None => r.1@.len() == 0,
            Some(s) => is_category_summary(s, *node, rows@),
        },
    decreases *node, 1int,
{
    let mut all = rows_in_category(rows, node.id.as_str());
    let ghost direct = all@;
    let mut child_summaries: Vec<AnalyticsCategorySummaryNode> = Vec::new();
    match &node.children {
        Some(children) => {
            proof {
                lemma_fit_parts(direct, forest_rows(children@, rows@));
            }
            let (summaries, mut child_rows) = build_children_summaries(children, rows);
            all.append(&mut child_rows);
            child_summaries = summaries;
        },
        None => {
            proof {
                assert(direct + Seq::<AnalyticsTaskRow>::empty() =~= direct);
            }
        },
    }
    proof {
        assert(all@ == subtree_rows(*node, rows@));
        assert(match node.children {
            Some(c) => summaries_for(child_summaries@, c@, rows@),
            None => child_summaries@.len() == 0,
        });
        lemma_abs_nonneg(all@);
    }
    if all.len() == 0 {
        return (None, all);
    }
    let total = total_minutes_of(&all);
    let count = all.len() as i64;
    let projects = project_items_from_rows(&all);
    let summary = AnalyticsCategorySummaryNode {
        category_id: node.id.clone(),
        label: node.label.clone(),
        total_minutes: total,
        task_count: count,
        projects,
        children: child_summaries,
    };
    (Some(summary), all)
}

/// The summaries of the nodes of a forest that have rows, and the rows of
/// the whole forest.
pub(crate) fn build_children_summaries(nodes: &Vec<TaskCategoryNode>, rows: &Vec<AnalyticsTaskRow>) -> (r: (
    Vec<AnalyticsCategorySummaryNode>,
    Vec<AnalyticsTaskRow>,
))
    requires
        rows_fit(forest_rows(nodes@, rows@)),
    ensures
        r.1@ == forest_rows(nodes@, rows@),
        summaries_for(r.0@, nodes@, rows@),
    decreases nodes@, 0int,
{
    let mut outs: Vec<AnalyticsCategorySummaryNode> = Vec::new();
    let mut all: Vec<AnalyticsTaskRow> = Vec::new();
    let mut i: usize = 0;
    proof {
        assert(nodes@.take(0) =~= Seq::<TaskCategoryNode>::empty());
    }
    while i < nodes.len()
        invariant
            0 <= i <= nodes@.len(),
            rows_fit(forest_rows(nodes@, rows@)),
            all@ == forest_rows(nodes@.take(i as int), rows@),
            summaries_for(outs@, nodes@.take(i as int), rows@),
        decreases nodes@.len() - i,
    {
        proof {
            assert(nodes@ =~= nodes@.take(i as int) + seq![nodes@[i as int]] + nodes@.skip(i + 1));
            lemma_forest_rows_append(nodes@.take(i as int) + seq![nodes@[i as int]], nodes@.skip(i + 1), rows@);
            lemma_forest_rows_append(nodes@.take(i as int), seq![nodes@[i as int]], rows@);
            lemma_forest_rows_single(nodes@[i as int], rows@);
            lemma_fit_parts(forest_rows(nodes@.take(i as int) + seq![nodes@[i as int]], rows@), forest_rows(nodes@.skip(i + 1), rows@));
            lemma_fit_parts(forest_rows(nodes@.take(i as int), rows@), subtree_rows(nodes@[i as int], rows@));
            assert(nodes@.take(i + 1) =~= nodes@.take(i as int) + seq![nodes@[i as int]]);
            assert(decreases_to!(nodes@ => nodes@[i as int]));
        }
        let (summary, mut sub_rows) = build_category_summary(&nodes[i], rows);
        let ghost sub = sub_rows@;
        let ghost outs_before = outs@;
        all.append(&mut sub_rows);
        match summary {
            Some(s) => {
                outs.push(s);
                proof {
                    assert(summaries_for(seq![s], seq![nodes@[i as int]], rows@)) by {
                        assert(summaries_for(Seq::<AnalyticsCategorySummaryNode>::empty(), Seq::<TaskCategoryNode>::empty(), rows@));
                        assert(is_category_summary(s, nodes@[i as int], rows@));
                        assert(subtree_rows(nodes@[i as int], rows@).len() > 0);
                        assert(seq![s].drop_first() =~= Seq::<AnalyticsCategorySummaryNode>::empty());
                        assert(seq![nodes@[i as int]].drop_first() =~= Seq::<TaskCategoryNode>::empty());
                        assert(seq![s][0] == s);
                        assert(seq![nodes@[i as int]][0] == nodes@[i as int]);
                    }
                    lemma_summaries_append(outs_before, nodes@.take(i as int), seq![s], seq![nodes@[i as int]], rows@);
                    assert(outs@ =~= outs_before + seq![s]);
                }
            },
            None => {
                proof {
                    assert(summaries_for(Seq::<AnalyticsCategorySummaryNode>::empty(), seq![nodes@[i as int]], rows@)) by {
                        assert(summaries_for(Seq::<AnalyticsCategorySummaryNode>::empty(), Seq::<TaskCategoryNode>::empty(), rows@));
                        assert(subtree_rows(nodes@[i as int], rows@).len() == 0);
                        assert(seq![nodes@[i as int]].drop_first() =~= Seq::<TaskCategoryNode>::empty());
                        assert(seq![nodes@[i as int]][0] == nodes@[i as int]);
                    }
                    lemma_summaries_append(outs_before, nodes@.take(i as int), Seq::empty(), seq![nodes@[i as int]], rows@);
                    assert(outs@ =~= outs_before + Seq::<AnalyticsCategorySummaryNode>::empty());
                }
            },
        }
        i = i + 1;
    }
    proof {
        assert(nodes@.take(i as int) =~= nodes@);
    }
    (outs, all)
}

} // verus!
