//! Project summaries of a range: per project its time, tasks, first and last
//! day, state, and the split of its time over categories.
use vstd::prelude::*;
use crate::analytics::types::{
    AnalyticsTaskRow, AnalyticsProjectSummaryItem, AnalyticsProjectCategoryBreakdownItem,
};
use crate::analytics::rows::{
    filtered_minutes, filtered_count, filtered_rows, any_row, sum_minutes, abs_minutes, rows_fit,
    lemma_filtered_bounds, lemma_prefix_abs, lemma_filtered_step, lemma_any_row_step, lemma_abs_nonneg,
    keyed, keyed_minutes, keyed_count, distinct_keys, lemma_keyed_partition,
};
use crate::analytics::tree::{
    in_project, project_id_set, project_last_label, row_project_label, ascending_project_ids,
    row_in_project, lemma_filtered_nonempty,
};
use crate::categories::{TaskCategoryNode, flatten, node_children, lemma_flatten_take_step};
use crate::ordered_ids::{ascending, ascending_listing, lemma_ascending_listing_is, insert_ascending, lemma_ascending_listing_exists};
use crate::sorting::{stable_sort, sort_stable, seq_sum, lemma_stable_sort_sum};
use crate::text::{seq_lt, str_eq, str_lt, strs_view};
use crate::validation::option_view;

verus! {

/// An (id, label) pair of the codificator.
pub open spec fn node_pair(n: TaskCategoryNode) -> (Seq<char>, Seq<char>) {
    (n.id@, n.label@)
}

/// The (id, label) pairs of nodes, in order.
pub open spec fn label_pairs(nodes: Seq<TaskCategoryNode>) -> Seq<(Seq<char>, Seq<char>)> {
    nodes.map_values(|n: TaskCategoryNode| node_pair(n))
}

pub open spec fn pairs_view(v: Seq<(String, String)>) -> Seq<(Seq<char>, Seq<char>)> {
    v.map_values(|p: (String, String)| (p.0@, p.1@))
}

/// The label of the last pair with this id.
pub open spec fn last_label(pairs: Seq<(Seq<char>, Seq<char>)>, id: Seq<char>) -> Option<Seq<char>>
    decreases pairs.len(),
{
    if pairs.len() == 0 {
        None
    } else if pairs.last().0 == id {
        Some(pairs.last().1)
    } else {
        last_label(pairs.drop_last(), id)
    }
}

/// The label of a category id: that of its last node in pre-order.
pub open spec fn category_label(tree: Seq<TaskCategoryNode>, id: Seq<char>) -> Option<Seq<char>> {
    last_label(label_pairs(flatten(tree)), id)
}

/// Appends the (id, label) pairs of a forest in pre-order.
pub fn collect_category_labels(nodes: &Vec<TaskCategoryNode>, out: &mut Vec<(String, String)>)
    ensures
        pairs_view(final(out)@) == pairs_view(old(out)@) + label_pairs(flatten(nodes@)),
    decreases nodes@,
{
    let ghost start = pairs_view(out@);
    let mut i: usize = 0;
    proof {
        assert(flatten(nodes@.take(0)) =~= Seq::<TaskCategoryNode>::empty()) by {
            assert(nodes@.take(0) =~= Seq::<TaskCategoryNode>::empty());
        }
        assert(start + label_pairs(flatten(nodes@.take(0))) =~= start);
    }
    while i < nodes.len()
        invariant
            0 <= i <= nodes@.len(),
            pairs_view(out@) == start + label_pairs(flatten(nodes@.take(i as int))),
        decreases nodes@.len() - i,
    {
        let node = &nodes[i];
        let ghost before = pairs_view(out@);
        out.push((node.id.clone(), node.label.clone()));
        proof {
            assert(pairs_view(out@) =~= before.push(node_pair(nodes@[i as int])));
        }
        match &node.children {
            Some(children) => {
                proof {
                    assert(decreases_to!(nodes@ => nodes@[i as int]));
                }
                collect_category_labels(children, out);
            },
            None => {
                proof {
                    assert(flatten(node_children(nodes@[i as int])) =~= Seq::<TaskCategoryNode>::empty());
                }
            },
        }
        proof {
            lemma_flatten_take_step(nodes@, i as int);
            let a = flatten(nodes@.take(i as int));
            let c = flatten(node_children(nodes@[i as int]));
            assert(label_pairs(a + seq![nodes@[i as int]] + c) =~= label_pairs(a) + seq![
                node_pair(nodes@[i as int]),
            ] + label_pairs(c));
            assert(node_children(nodes@[i as int]) == match nodes@[i as int].children {
                Some(ch) => ch@,
                None => Seq::<TaskCategoryNode>::empty(),
            });
        }
        i = i + 1;
    }
    proof {
        assert(nodes@.take(i as int) =~= nodes@);
    }
}

/// The label of the last pair with this id, if any.
pub fn lookup_label(pairs: &Vec<(String, String)>, id: &str) -> (r: Option<String>)
    ensures
        option_view(r) == last_label(pairs_view(pairs@), id@),
{
    let ghost pv = pairs_view(pairs@);
    let mut i: usize = pairs.len();
    proof {
        assert(pv.take(i as int) =~= pv);
    }
    while i > 0
        invariant
            0 <= i <= pairs@.len(),
            pv == pairs_view(pairs@),
            last_label(pv, id@) == last_label(pv.take(i as int), id@),
        decreases i,
    {
        proof {
            assert(pv.take(i as int).drop_last() =~= pv.take(i - 1));
            assert(pv.take(i as int).last() == pv[i - 1]);
        }
        if str_eq(pairs[i - 1].0.as_str(), id) {
            return Some(pairs[i - 1].1.clone());
        }
        i = i - 1;
    }
    None
}

/// The category a task counts under in a project's breakdown: its own id
/// when the codificator knows it, the bucket id otherwise.
pub open spec fn breakdown_key(tree: Seq<TaskCategoryNode>, id: Seq<char>) -> Seq<char> {
    if category_label(tree, id) is Some {
        id
    } else {
        "__unknown__"@
    }
}

pub open spec fn in_breakdown(tree: Seq<TaskCategoryNode>, key: Seq<char>) -> spec_fn(
    AnalyticsTaskRow,
) -> bool {
    |r: AnalyticsTaskRow| breakdown_key(tree, r.category_id@) == key
}

pub open spec fn breakdown_key_set(tree: Seq<TaskCategoryNode>, rows: Seq<AnalyticsTaskRow>) -> Set<
    Seq<char>,
> {
    Set::new(|key: Seq<char>| any_row(rows, in_breakdown(tree, key)))
}

/// The label shown for a breakdown key.
pub open spec fn breakdown_label(tree: Seq<TaskCategoryNode>, key: Seq<char>) -> Seq<char> {
    match category_label(tree, key) {
        Some(l) => l,
        None => "Остальное"@,
    }
}

pub open spec fn breakdown_item_matches(
    item: AnalyticsProjectCategoryBreakdownItem,
    tree: Seq<TaskCategoryNode>,
    prows: Seq<AnalyticsTaskRow>,
    key: Seq<char>,
) -> bool {
    &&& item.category_id@ == key
    &&& item.label@ == breakdown_label(tree, key)
    &&& item.total_minutes == filtered_minutes(prows, in_breakdown(tree, key))
    &&& item.task_count == filtered_count(prows, in_breakdown(tree, key))
}

/// One item per breakdown key of a project's rows, keys in increasing order,
/// then sorted stably by time (largest first) and label.
pub open spec fn breakdown_for(
    items: Seq<AnalyticsProjectCategoryBreakdownItem>,
    tree: Seq<TaskCategoryNode>,
    prows: Seq<AnalyticsTaskRow>,
) -> bool {
    let keys = ascending_listing(breakdown_key_set(tree, prows));
    exists|pre: Seq<AnalyticsProjectCategoryBreakdownItem>|
        {
            &&& pre.len() == keys.len()
            &&& forall|k: int|
                0 <= k < pre.len() ==> breakdown_item_matches(#[trigger] pre[k], tree, prows, keys[k])
            &&& items == stable_sort(pre)
        }
}

/// The earliest day among rows (the first of equal ones).
pub open spec fn first_date(rows: Seq<AnalyticsTaskRow>) -> Seq<char>
    decreases rows.len(),
{
    if rows.len() <= 1 {
        rows[0].date@
    } else {
        let m = first_date(rows.drop_last());
        if seq_lt(rows.last().date@, m) {
            rows.last().date@
        } else {
            m
        }
    }
}

/// The latest day among rows.
pub open spec fn last_date(rows: Seq<AnalyticsTaskRow>) -> Seq<char>
    decreases rows.len(),
{
    if rows.len() <= 1 {
        rows[0].date@
    } else {
        let m = last_date(rows.drop_last());
        if seq_lt(m, rows.last().date@) {
            rows.last().date@
        } else {
            m
        }
    }
}

pub open spec fn project_done(r: AnalyticsTaskRow) -> bool {
    r.project_is_done
}

pub open spec fn project_closing(r: AnalyticsTaskRow) -> bool {
    r.is_project_closing_task
}

/// The summary of project `pid` over the rows of a range.
pub open spec fn project_summary_matches(
    item: AnalyticsProjectSummaryItem,
    tree: Seq<TaskCategoryNode>,
    rows: Seq<AnalyticsTaskRow>,
    pid: Seq<char>,
) -> bool {
    let prows = filtered_rows(rows, in_project(pid));
    &&& item.project_id@ == pid
    &&& item.label@ == project_last_label(rows, pid)
    &&& item.total_minutes == sum_minutes(prows)
    &&& item.task_count == prows.len()
    &&& option_view(item.start_date) == Some(first_date(prows))
    &&& option_view(item.end_date) == Some(last_date(prows))
    &&& item.is_done == any_row(prows, |r: AnalyticsTaskRow| project_done(r))
    &&& item.finished_in_period == any_row(prows, |r: AnalyticsTaskRow| project_closing(r))
    &&& breakdown_for(item.category_breakdown@, tree, prows)
}

/// One summary per project of the rows, projects in increasing id order,
/// then sorted stably by time (largest first) and label.
pub open spec fn project_summaries_for(
    out: Seq<AnalyticsProjectSummaryItem>,
    tree: Seq<TaskCategoryNode>,
    rows: Seq<AnalyticsTaskRow>,
) -> bool {
    let pids = ascending_listing(project_id_set(rows));
    exists|pre: Seq<AnalyticsProjectSummaryItem>|
        {
            &&& pre.len() == pids.len()
            &&& forall|k: int|
                0 <= k < pre.len() ==> project_summary_matches(#[trigger] pre[k], tree, rows, pids[k])
            &&& out == stable_sort(pre)
        }
}

/// The breakdown key of a category id, looked up in the label pairs.
fn breakdown_key_of(pairs: &Vec<(String, String)>, id: &str) -> (r: String)
    ensures
        r@ == (if last_label(pairs_view(pairs@), id@) is Some {
            id@
        } else {
            "__unknown__"@
        }),
{
    match lookup_label(pairs, id) {
        Some(_) => id.to_owned(),
        None => "__unknown__".to_owned(),
    }
}

proof fn lemma_key_set_step(tree: Seq<TaskCategoryNode>, rows: Seq<AnalyticsTaskRow>, i: int)
    requires
        0 <= i < rows.len(),
    ensures
        breakdown_key_set(tree, rows.take(i + 1)) == breakdown_key_set(tree, rows.take(i)).insert(
            breakdown_key(tree, rows[i].category_id@),
        ),
{
    let a = breakdown_key_set(tree, rows.take(i + 1));
    let b = breakdown_key_set(tree, rows.take(i)).insert(breakdown_key(tree, rows[i].category_id@));
    assert forall|k: Seq<char>| a.contains(k) <==> b.contains(k) by {
        lemma_any_row_step(rows, i, in_breakdown(tree, k));
    }
    assert(a =~= b);
}

/// The breakdown of a project's rows.
fn project_breakdown(
    tree: Ghost<Seq<TaskCategoryNode>>,
    pairs: &Vec<(String, String)>,
    prows: &Vec<AnalyticsTaskRow>,
) -> (items: Vec<AnalyticsProjectCategoryBreakdownItem>)
    requires
        pairs_view(pairs@) == label_pairs(flatten(tree@)),
        rows_fit(prows@),
    ensures
        breakdown_for(items@, tree@, prows@),
{
    let mut keys: Vec<String> = Vec::new();
    let mut i: usize = 0;
    proof {
        assert(strs_view(keys@).to_set() =~= Set::empty());
        assert(breakdown_key_set(tree@, prows@.take(0)) =~= Set::empty());
    }
    while i < prows.len()
        invariant
            0 <= i <= prows@.len(),
            pairs_view(pairs@) == label_pairs(flatten(tree@)),
            ascending(strs_view(keys@)),
            strs_view(keys@).to_set() == breakdown_key_set(tree@, prows@.take(i as int)),
        decreases prows@.len() - i,
    {
        proof {
            lemma_key_set_step(tree@, prows@, i as int);
        }
        let key = breakdown_key_of(pairs, prows[i].category_id.as_str());
        insert_ascending(&mut keys, key.as_str());
        i = i + 1;
    }
    proof {
        assert(prows@.take(i as int) =~= prows@);
    }
    let ghost listing = strs_view(keys@);
    proof {
        lemma_ascending_listing_is(listing, breakdown_key_set(tree@, prows@));
    }
    let mut pre: Vec<AnalyticsProjectCategoryBreakdownItem> = Vec::new();
    let mut k: usize = 0;
    while k < keys.len()
        invariant
            0 <= k <= keys@.len(),
            listing == strs_view(keys@),
            pairs_view(pairs@) == label_pairs(flatten(tree@)),
            rows_fit(prows@),
            pre@.len() == k,
            forall|j: int|
                0 <= j < k ==> breakdown_item_matches(#[trigger] pre@[j], tree@, prows@, listing[j]),
        decreases keys@.len() - k,
    {
        let key = keys[k].as_str();
        let mut total: i64 = 0;
        let mut count: i64 = 0;
        let mut j: usize = 0;
        while j < prows.len()
            invariant
                0 <= j <= prows@.len(),
                key@ == listing[k as int],
                pairs_view(pairs@) == label_pairs(flatten(tree@)),
                rows_fit(prows@),
                total == filtered_minutes(prows@.take(j as int), in_breakdown(tree@, key@)),
                count == filtered_count(prows@.take(j as int), in_breakdown(tree@, key@)),
            decreases prows@.len() - j,
        {
            proof {
                lemma_filtered_step(prows@, j as int, in_breakdown(tree@, key@));
                lemma_filtered_bounds(prows@.take(j + 1), in_breakdown(tree@, key@));
                lemma_prefix_abs(prows@, j + 1);
            }
            let row_key = breakdown_key_of(pairs, prows[j].category_id.as_str());
            if str_eq(row_key.as_str(), key) {
                total = total + prows[j].time_length;
                count = count + 1;
            }
            j = j + 1;
        }
        proof {
            assert(prows@.take(j as int) =~= prows@);
        }
        let label = match lookup_label(pairs, key) {
            Some(l) => l,
            None => "Остальное".to_owned(),
        };
        pre.push(
            AnalyticsProjectCategoryBreakdownItem {
                category_id: key.to_owned(),
                label,
                total_minutes: total,
                task_count: count,
            },
        );
        k = k + 1;
    }
    let ghost witness = pre@;
    sort_stable(pre)
}

/// The rows of project `pid`, in order.
fn project_rows(rows: &Vec<AnalyticsTaskRow>, pid: &str) -> (r: Vec<AnalyticsTaskRow>)
    ensures
        r@ == filtered_rows(rows@, in_project(pid@)),
{
    let mut r: Vec<AnalyticsTaskRow> = Vec::new();
    let mut i: usize = 0;
    while i < rows.len()
        invariant
            0 <= i <= rows@.len(),
            r@ == filtered_rows(rows@.take(i as int), in_project(pid@)),
        decreases rows@.len() - i,
    {
        proof {
            lemma_filtered_step(rows@, i as int, in_project(pid@));
        }
        if row_in_project(&rows[i], pid) {
            r.push(rows[i].duplicate());
        }
        i = i + 1;
    }
    proof {
        assert(rows@.take(i as int) =~= rows@);
    }
    r
}

/// The summary of one project of the range.
fn project_summary(
    tree: Ghost<Seq<TaskCategoryNode>>,
    pairs: &Vec<(String, String)>,
    rows: &Vec<AnalyticsTaskRow>,
    pid: &str,
) -> (item: AnalyticsProjectSummaryItem)
    requires
        pairs_view(pairs@) == label_pairs(flatten(tree@)),
        rows_fit(rows@),
        project_id_set(rows@).contains(pid@),
    ensures
        project_summary_matches(item, tree@, rows@, pid@),
{
    let prows = project_rows(rows, pid);
    proof {
        lemma_filtered_bounds(rows@, in_project(pid@));
        lemma_abs_nonneg(prows@);
        let k = choose|k: int| 0 <= k < rows@.len() && in_project(pid@)(#[trigger] rows@[k]);
        lemma_filtered_nonempty(rows@, in_project(pid@), k);
        lemma_filtered_members(rows@, in_project(pid@));
    }
    let mut total: i64 = 0;
    let mut is_done = false;
    let mut finished = false;
    let mut label = String::new();
    let mut start = prows[0].date.clone();
    let mut end = prows[0].date.clone();
    let mut i: usize = 0;
    while i < prows.len()
        invariant
            0 <= i <= prows@.len(),
            prows@.len() > 0,
            prows@ == filtered_rows(rows@, in_project(pid@)),
            forall|k: int| 0 <= k < prows@.len() ==> in_project(pid@)(#[trigger] prows@[k]),
            rows_fit(prows@),
            total == sum_minutes(prows@.take(i as int)),
            is_done == any_row(prows@.take(i as int), |r: AnalyticsTaskRow| project_done(r)),
            finished == any_row(prows@.take(i as int), |r: AnalyticsTaskRow| project_closing(r)),
            i > 0 ==> label@ == row_project_label(prows@.take(i as int).last()),
            i > 0 ==> start@ == first_date(prows@.take(i as int)),
            i > 0 ==> end@ == last_date(prows@.take(i as int)),
            i == 0 ==> start@ == prows@[0].date@ && end@ == prows@[0].date@,
        decreases prows@.len() - i,
    {
        let row = &prows[i];
        proof {
            lemma_filtered_step(prows@, i as int, |r: AnalyticsTaskRow| true);
            lemma_filtered_bounds(prows@.take(i + 1), |r: AnalyticsTaskRow| true);
            lemma_prefix_abs(prows@, i + 1);
            lemma_any_row_step(prows@, i as int, |r: AnalyticsTaskRow| project_done(r));
            lemma_any_row_step(prows@, i as int, |r: AnalyticsTaskRow| project_closing(r));
            assert(prows@.take(i + 1).drop_last() =~= prows@.take(i as int));
            assert(prows@.take(i + 1).last() == prows@[i as int]);
        }
        total = total + row.time_length;
        if row.project_is_done {
            is_done = true;
        }
        if row.is_project_closing_task {
            finished = true;
        }
        match &row.project_label {
            Some(l) => {
                label = l.clone();
            },
            None => {},
        }
        if i > 0 {
            if str_lt(row.date.as_str(), start.as_str()) {
                start = row.date.clone();
            }
            if str_lt(end.as_str(), row.date.as_str()) {
                end = row.date.clone();
            }
        }
        i = i + 1;
    }
    proof {
        assert(prows@.take(i as int) =~= prows@);
    }
    let breakdown = project_breakdown(tree, pairs, &prows);
    AnalyticsProjectSummaryItem {
        project_id: pid.to_owned(),
        label,
        total_minutes: total,
        task_count: prows.len() as i64,
        start_date: Some(start),
        end_date: Some(end),
        is_done,
        finished_in_period: finished,
        category_breakdown: breakdown,
    }
}

/// Every filtered row satisfies the filter.
proof fn lemma_filtered_members(rows: Seq<AnalyticsTaskRow>, p: spec_fn(AnalyticsTaskRow) -> bool)
    ensures
        forall|k: int|
            0 <= k < filtered_rows(rows, p).len() ==> p(#[trigger] filtered_rows(rows, p)[k]),
    decreases rows.len(),
{
    if rows.len() > 0 {
        lemma_filtered_members(rows.drop_last(), p);
        let f = filtered_rows(rows.drop_last(), p);
        if p(rows.last()) {
            assert forall|k: int| 0 <= k < f.push(rows.last()).len() implies p(
                #[trigger] f.push(rows.last())[k],
            ) by {
                if k < f.len() {
                    assert(f.push(rows.last())[k] == f[k]);
                }
            }
        }
    }
}

/// The project summaries of a range, largest first.
pub fn build_project_summaries(tree: &Vec<TaskCategoryNode>, rows: &Vec<AnalyticsTaskRow>) -> (r: Vec<
    AnalyticsProjectSummaryItem,
>)
    requires
        rows_fit(rows@),
    ensures
        project_summaries_for(r@, tree@, rows@),
{
    let mut pairs: Vec<(String, String)> = Vec::new();
    collect_category_labels(tree, &mut pairs);
    proof {
        assert(pairs_view(pairs@) =~= label_pairs(flatten(tree@)));
    }
    let pids = ascending_project_ids(rows);
    let ghost listing = strs_view(pids@);
    proof {
        lemma_ascending_listing_is(listing, project_id_set(rows@));
    }
    let mut pre: Vec<AnalyticsProjectSummaryItem> = Vec::new();
    let mut k: usize = 0;
    while k < pids.len()
        invariant
            0 <= k <= pids@.len(),
            rows_fit(rows@),
            pairs_view(pairs@) == label_pairs(flatten(tree@)),
            listing == strs_view(pids@),
            listing.to_set() == project_id_set(rows@),
            pre@.len() == k,
            forall|j: int|
                0 <= j < k ==> project_summary_matches(#[trigger] pre@[j], tree@, rows@, listing[j]),
        decreases pids@.len() - k,
    {
        proof {
            assert(listing.to_set().contains(listing[k as int]));
        }
        let item = project_summary(Ghost(tree@), &pairs, rows, pids[k].as_str());
        pre.push(item);
        k = k + 1;
    }
    let ghost witness = pre@;
    let r = sort_stable(pre);
    proof {
        assert(witness.len() == ascending_listing(project_id_set(rows@)).len());
    }
    r
}

/// The key a row counts under in a project's breakdown.
pub open spec fn breakdown_key_of_row(tree: Seq<TaskCategoryNode>) -> spec_fn(AnalyticsTaskRow) -> Seq<char> {
    |r: AnalyticsTaskRow| breakdown_key(tree, r.category_id@)
}

proof fn lemma_breakdown_prefix_sums(
    pre: Seq<AnalyticsProjectCategoryBreakdownItem>,
    tree: Seq<TaskCategoryNode>,
    prows: Seq<AnalyticsTaskRow>,
    keys: Seq<Seq<char>>,
    n: int,
)
    requires
        0 <= n <= pre.len(),
        pre.len() == keys.len(),
        forall|k: int| 0 <= k < pre.len() ==> breakdown_item_matches(#[trigger] pre[k], tree, prows, keys[k]),
    ensures
        seq_sum(pre.take(n), |b: AnalyticsProjectCategoryBreakdownItem| b.total_minutes as int)
            == keyed_minutes(prows, keys.take(n), breakdown_key_of_row(tree)),
        seq_sum(pre.take(n), |b: AnalyticsProjectCategoryBreakdownItem| b.task_count as int)
            == keyed_count(prows, keys.take(n), breakdown_key_of_row(tree)),
    decreases n,
{
    if n > 0 {
        lemma_breakdown_prefix_sums(pre, tree, prows, keys, n - 1);
        assert(pre.take(n).drop_last() =~= pre.take(n - 1));
        assert(keys.take(n).drop_last() =~= keys.take(n - 1));
        assert(pre.take(n).last() == pre[n - 1]);
        assert(keys.take(n).last() == keys[n - 1]);
        assert(keyed(breakdown_key_of_row(tree), keys[n - 1]) =~= in_breakdown(tree, keys[n - 1]));
        assert(breakdown_item_matches(pre[n - 1], tree, prows, keys[n - 1]));
    } else {
        assert(pre.take(0) =~= Seq::<AnalyticsProjectCategoryBreakdownItem>::empty());
        assert(keys.take(0) =~= Seq::<Seq<char>>::empty());
    }
}

proof fn lemma_breakdown_key_set_finite(tree: Seq<TaskCategoryNode>, rows: Seq<AnalyticsTaskRow>)
    ensures
        breakdown_key_set(tree, rows).finite(),
{
    let keys = rows.map_values(breakdown_key_of_row(tree));
    assert(breakdown_key_set(tree, rows).subset_of(keys.to_set())) by {
        assert forall|k: Seq<char>| #[trigger] breakdown_key_set(tree, rows).contains(k) implies keys.to_set().contains(k) by {
            let i = choose|i: int| 0 <= i < rows.len() && in_breakdown(tree, k)(#[trigger] rows[i]);
            assert(keys[i] == k);
        }
    }
    vstd::set_lib::lemma_len_subset(breakdown_key_set(tree, rows), keys.to_set());
}

/// A project's time and tasks are split over its categories without loss:
/// the times of its breakdown add up to its time, their task counts to its
/// number of tasks.
pub proof fn law_project_breakdown_adds_up(
    item: AnalyticsProjectSummaryItem,
    tree: Seq<TaskCategoryNode>,
    rows: Seq<AnalyticsTaskRow>,
    pid: Seq<char>,
)
    requires
        project_summary_matches(item, tree, rows, pid),
    ensures
        seq_sum(item.category_breakdown@, |b: AnalyticsProjectCategoryBreakdownItem| b.total_minutes as int)
            == item.total_minutes,
        seq_sum(item.category_breakdown@, |b: AnalyticsProjectCategoryBreakdownItem| b.task_count as int)
            == item.task_count,
{
    let prows = filtered_rows(rows, in_project(pid));
    let set = breakdown_key_set(tree, prows);
    let keys = ascending_listing(set);
    lemma_breakdown_key_set_finite(tree, prows);
    lemma_ascending_listing_exists(set);
    let pre = choose|pre: Seq<AnalyticsProjectCategoryBreakdownItem>|
        {
            &&& pre.len() == keys.len()
            &&& forall|k: int|
                0 <= k < pre.len() ==> breakdown_item_matches(#[trigger] pre[k], tree, prows, keys[k])
            &&& item.category_breakdown@ == stable_sort(pre)
        };
    lemma_stable_sort_sum(pre, |b: AnalyticsProjectCategoryBreakdownItem| b.total_minutes as int);
    lemma_stable_sort_sum(pre, |b: AnalyticsProjectCategoryBreakdownItem| b.task_count as int);
    lemma_breakdown_prefix_sums(pre, tree, prows, keys, pre.len() as int);
    assert(pre.take(pre.len() as int) =~= pre);
    assert(keys.take(keys.len() as int) =~= keys);
    assert(distinct_keys(keys)) by {
        assert forall|i: int, j: int| 0 <= i < j < keys.len() implies keys[i] != keys[j] by {
            assert(seq_lt(keys[i], keys[j]));
            crate::text::lemma_seq_lt_irreflexive(keys[i]);
        }
    }
    assert forall|k: int| 0 <= k < prows.len() implies keys.contains(breakdown_key_of_row(tree)(#[trigger] prows[k])) by {
        let key = breakdown_key_of_row(tree)(prows[k]);
        assert(in_breakdown(tree, key)(prows[k]));
        assert(set.contains(key));
        assert(keys.to_set().contains(key));
    }
    lemma_keyed_partition(prows, keys, breakdown_key_of_row(tree));
}

} // verus!
