//! The root level of the category summaries: the summaries of the root
//! categories, a bucket for tasks whose category left the codificator, the
//! business order of the roots, and the shares of the roots.
use vstd::prelude::*;
use crate::analytics::types::{AnalyticsTaskRow, AnalyticsCategorySummaryNode, AnalyticsRootShareItem};
use crate::analytics::rows::{
    filtered_rows, filtered_count, filtered_minutes, any_row, sum_minutes, abs_minutes, rows_fit, lemma_filtered_bounds,
    lemma_filtered_step, lemma_sum_append, lemma_any_row_step, lemma_abs_nonneg,
    keyed, keyed_minutes, keyed_count, distinct_keys, lemma_keyed_partition, lemma_keyed_filter,
    lemma_keyed_append, lemma_filter_complement,
};
use crate::analytics::tree::{
    in_category, project_items_for, forest_rows, subtree_rows, summaries_for, is_category_summary, rows_in_category, total_minutes_of,
    project_items_from_rows, build_children_summaries,
};
use crate::analytics::labels::{spec_normalize_root_label, normalize_root_label};
use crate::categories::{TaskCategoryNode, forest_has_id, category_tree_contains_id, flatten, node_children, lemma_flatten_cons};
use crate::ordered_ids::{ascending, ascending_listing, lemma_ascending_listing_is, insert_ascending, lemma_ascending_listing_exists};
use crate::sorting::{stable_sort, sort_stable, seq_sum, lemma_seq_sum_first, lemma_seq_sum_append, lemma_stable_sort_sum};
use crate::text::{seq_lt, strs_view, lemma_seq_lt_irreflexive};

verus! {

/// Ids of the categories that rows are booked on.
pub open spec fn category_id_set(rows: Seq<AnalyticsTaskRow>) -> Set<Seq<char>> {
    Set::new(|id: Seq<char>| any_row(rows, in_category(id)))
}

/// The rows of each category of `ids` in turn, each group in row order.
pub open spec fn rows_by_category(ids: Seq<Seq<char>>, rows: Seq<AnalyticsTaskRow>) -> Seq<
    AnalyticsTaskRow,
>
    decreases ids.len(),
{
    if ids.len() == 0 {
        Seq::empty()
    } else {
        rows_by_category(ids.drop_last(), rows) + filtered_rows(rows, in_category(ids.last()))
    }
}

/// The rows regrouped by category, categories in increasing id order.
pub open spec fn grouped_by_category(rows: Seq<AnalyticsTaskRow>) -> Seq<AnalyticsTaskRow> {
    rows_by_category(ascending_listing(category_id_set(rows)), rows)
}

/// Rows whose category is not a node of the codificator.
pub open spec fn unknown_category(tree: Seq<TaskCategoryNode>) -> spec_fn(AnalyticsTaskRow) -> bool {
    |r: AnalyticsTaskRow| !forest_has_id(tree, r.category_id@)
}

/// The rows of the bucket for categories outside the codificator.
pub open spec fn unknown_rows(tree: Seq<TaskCategoryNode>, rows: Seq<AnalyticsTaskRow>) -> Seq<
    AnalyticsTaskRow,
> {
    grouped_by_category(filtered_rows(rows, unknown_category(tree)))
}

/// `s` is the bucket of the rows `ur`.
pub open spec fn is_unknown_summary(s: AnalyticsCategorySummaryNode, ur: Seq<AnalyticsTaskRow>) -> bool {
    &&& s.category_id@ == "__unknown__"@
    &&& s.label@ == "Остальное"@
    &&& s.total_minutes == sum_minutes(ur)
    &&& s.task_count == ur.len()
    &&& project_items_for(s.projects@, ur)
    &&& s.children@.len() == 0
}

/// `extra` holds the bucket when some row lies outside the codificator, and
/// nothing otherwise.
pub open spec fn unknown_bucket_for(
    extra: Seq<AnalyticsCategorySummaryNode>,
    tree: Seq<TaskCategoryNode>,
    rows: Seq<AnalyticsTaskRow>,
) -> bool {
    let ur = unknown_rows(tree, rows);
    if ur.len() == 0 {
        extra.len() == 0
    } else {
        extra.len() == 1 && is_unknown_summary(extra[0], ur)
    }
}

/// The root summaries of a range: the summaries of the roots that have rows,
/// then the bucket, sorted stably by business rank and label.
pub open spec fn root_summaries_for(
    out: Seq<AnalyticsCategorySummaryNode>,
    tree: Seq<TaskCategoryNode>,
    rows: Seq<AnalyticsTaskRow>,
) -> bool {
    exists|known: Seq<AnalyticsCategorySummaryNode>, extra: Seq<AnalyticsCategorySummaryNode>|
        {
            &&& summaries_for(known, tree, rows)
            &&& unknown_bucket_for(extra, tree, rows)
            &&& out == stable_sort(known + extra)
        }
}

pub open spec fn either(
    p: spec_fn(AnalyticsTaskRow) -> bool,
    q: spec_fn(AnalyticsTaskRow) -> bool,
) -> spec_fn(AnalyticsTaskRow) -> bool {
    |r: AnalyticsTaskRow| p(r) || q(r)
}

pub open spec fn in_categories(ids: Seq<Seq<char>>) -> spec_fn(AnalyticsTaskRow) -> bool {
    |r: AnalyticsTaskRow| ids.contains(r.category_id@)
}

proof fn lemma_abs_push(s: Seq<AnalyticsTaskRow>, x: AnalyticsTaskRow)
    ensures
        abs_minutes(s.push(x)) == abs_minutes(s) + if x.time_length >= 0 {
            x.time_length as int
        } else {
            -(x.time_length as int)
        },
{
    assert(s.push(x).drop_last() =~= s);
}

/// Filtering by one of two disjoint conditions splits the measures.
proof fn lemma_disjoint_filter(
    rows: Seq<AnalyticsTaskRow>,
    p: spec_fn(AnalyticsTaskRow) -> bool,
    q: spec_fn(AnalyticsTaskRow) -> bool,
)
    requires
        forall|r: AnalyticsTaskRow| !(#[trigger] p(r) && q(r)),
    ensures
        abs_minutes(filtered_rows(rows, either(p, q))) == abs_minutes(filtered_rows(rows, p))
            + abs_minutes(filtered_rows(rows, q)),
        filtered_rows(rows, either(p, q)).len() == filtered_rows(rows, p).len() + filtered_rows(
            rows,
            q,
        ).len(),
    decreases rows.len(),
{
    if rows.len() > 0 {
        let d = rows.drop_last();
        let x = rows.last();
        lemma_disjoint_filter(d, p, q);
        lemma_abs_push(filtered_rows(d, either(p, q)), x);
        lemma_abs_push(filtered_rows(d, p), x);
        lemma_abs_push(filtered_rows(d, q), x);
    }
}

/// Regrouping rows by distinct categories keeps the measures of the rows
/// of those categories.
proof fn lemma_rows_by_category_measures(ids: Seq<Seq<char>>, rows: Seq<AnalyticsTaskRow>)
    requires
        ascending(ids),
    ensures
        abs_minutes(rows_by_category(ids, rows)) == abs_minutes(
            filtered_rows(rows, in_categories(ids)),
        ),
        rows_by_category(ids, rows).len() == filtered_rows(rows, in_categories(ids)).len(),
    decreases ids.len(),
{
    if ids.len() == 0 {
        let f = filtered_rows(rows, in_categories(ids));
        lemma_filtered_bounds(rows, in_categories(ids));
        assert(filtered_count(rows, in_categories(ids)) == 0) by {
            lemma_count_none(rows, in_categories(ids));
        }
        assert(f.len() == 0);
        assert(f =~= Seq::<AnalyticsTaskRow>::empty());
    } else {
        let d = ids.drop_last();
        let l = ids.last();
        assert(ascending(d)) by {
            assert forall|i: int, j: int| 0 <= i < j < d.len() implies seq_lt(
                #[trigger] d[i],
                #[trigger] d[j],
            ) by {
                assert(d[i] == ids[i] && d[j] == ids[j]);
            }
        }
        lemma_rows_by_category_measures(d, rows);
        lemma_sum_append(
            rows_by_category(d, rows),
            filtered_rows(rows, in_category(l)),
            |r: AnalyticsTaskRow| true,
        );
        assert forall|r: AnalyticsTaskRow| !(#[trigger] in_categories(d)(r) && in_category(l)(r)) by {
            if in_categories(d)(r) && in_category(l)(r) {
                let k = choose|k: int| 0 <= k < d.len() && d[k] == r.category_id@;
                assert(seq_lt(ids[k], ids[ids.len() - 1]));
                lemma_seq_lt_irreflexive(l);
            }
        }
        lemma_disjoint_filter(rows, in_categories(d), in_category(l));
        assert(either(in_categories(d), in_category(l)) =~= in_categories(ids)) by {
            assert forall|r: AnalyticsTaskRow| #[trigger] in_categories(ids)(r) == (in_categories(d)(
                r,
            ) || in_category(l)(r)) by {
                if ids.contains(r.category_id@) {
                    let k = choose|k: int| 0 <= k < ids.len() && ids[k] == r.category_id@;
                    if k < ids.len() - 1 {
                        assert(d[k] == ids[k]);
                    }
                }
                if d.contains(r.category_id@) {
                    let k = choose|k: int| 0 <= k < d.len() && d[k] == r.category_id@;
                    assert(ids[k] == d[k]);
                }
                if r.category_id@ == l {
                    assert(ids[ids.len() - 1] == l);
                }
            }
        }
    }
}

proof fn lemma_count_none(rows: Seq<AnalyticsTaskRow>, p: spec_fn(AnalyticsTaskRow) -> bool)
    requires
        forall|r: AnalyticsTaskRow| !#[trigger] p(r),
    ensures
        filtered_count(rows, p) == 0,
    decreases rows.len(),
{
    if rows.len() > 0 {
        lemma_count_none(rows.drop_last(), p);
    }
}

fn row_category_is(r: &AnalyticsTaskRow, id: &str) -> (b: bool)
    ensures
        b == in_category(id@)(*r),
{
    crate::text::str_eq(r.category_id.as_str(), id)
}

proof fn lemma_category_id_set_step(rows: Seq<AnalyticsTaskRow>, i: int)
    requires
        0 <= i < rows.len(),
    ensures
        category_id_set(rows.take(i + 1)) == category_id_set(rows.take(i)).insert(
            rows[i].category_id@,
        ),
{
    let a = category_id_set(rows.take(i + 1));
    let b = category_id_set(rows.take(i)).insert(rows[i].category_id@);
    assert forall|id: Seq<char>| a.contains(id) <==> b.contains(id) by {
        lemma_any_row_step(rows, i, in_category(id));
    }
    assert(a =~= b);
}

/// Category ids of the rows in increasing order.
fn ascending_category_ids(rows: &Vec<AnalyticsTaskRow>) -> (r: Vec<String>)
    ensures
        ascending(strs_view(r@)),
        strs_view(r@).to_set() == category_id_set(rows@),
{
    let mut r: Vec<String> = Vec::new();
    let mut i: usize = 0;
    proof {
        assert(strs_view(r@).to_set() =~= Set::empty());
        assert(category_id_set(rows@.take(0)) =~= Set::empty());
    }
    while i < rows.len()
        invariant
            0 <= i <= rows@.len(),
            ascending(strs_view(r@)),
            strs_view(r@).to_set() == category_id_set(rows@.take(i as int)),
        decreases rows@.len() - i,
    {
        proof {
            lemma_category_id_set_step(rows@, i as int);
        }
        insert_ascending(&mut r, rows[i].category_id.as_str());
        i = i + 1;
    }
    proof {
        assert(rows@.take(i as int) =~= rows@);
    }
    r
}

/// The rows regrouped by category in increasing id order.
fn group_by_category(rows: &Vec<AnalyticsTaskRow>) -> (r: Vec<AnalyticsTaskRow>)
    ensures
        r@ == grouped_by_category(rows@),
        abs_minutes(r@) <= abs_minutes(rows@),
        r@.len() <= rows@.len(),
{
    let ids = ascending_category_ids(rows);
    let ghost listing = strs_view(ids@);
    proof {
        lemma_ascending_listing_is(listing, category_id_set(rows@));
    }
    let mut r: Vec<AnalyticsTaskRow> = Vec::new();
    let mut k: usize = 0;
    proof {
        assert(listing.take(0) =~= Seq::<Seq<char>>::empty());
    }
    while k < ids.len()
        invariant
            0 <= k <= ids@.len(),
            listing == strs_view(ids@),
            r@ == rows_by_category(listing.take(k as int), rows@),
        decreases ids@.len() - k,
    {
        proof {
            assert(listing.take(k + 1).drop_last() =~= listing.take(k as int));
            assert(listing.take(k + 1).last() == ids@[k as int]@);
        }
        let mut part = rows_in_category(rows, ids[k].as_str());
        r.append(&mut part);
        k = k + 1;
    }
    proof {
        assert(listing.take(k as int) =~= listing);
        lemma_rows_by_category_measures(listing, rows@);
        lemma_filtered_bounds(rows@, in_categories(listing));
    }
    r
}

/// The rows whose category is outside the codificator, regrouped by category.
fn unknown_category_rows(tree: &Vec<TaskCategoryNode>, rows: &Vec<AnalyticsTaskRow>) -> (r: Vec<
    AnalyticsTaskRow,
>)
    ensures
        r@ == unknown_rows(tree@, rows@),
        abs_minutes(r@) <= abs_minutes(rows@),
        r@.len() <= rows@.len(),
{
    let mut u: Vec<AnalyticsTaskRow> = Vec::new();
    let mut i: usize = 0;
    while i < rows.len()
        invariant
            0 <= i <= rows@.len(),
            u@ == filtered_rows(rows@.take(i as int), unknown_category(tree@)),
        decreases rows@.len() - i,
    {
        proof {
            lemma_filtered_step(rows@, i as int, unknown_category(tree@));
        }
        if !category_tree_contains_id(tree, rows[i].category_id.as_str()) {
            u.push(rows[i].duplicate());
        }
        i = i + 1;
    }
    proof {
        assert(rows@.take(i as int) =~= rows@);
        lemma_filtered_bounds(rows@, unknown_category(tree@));
    }
    group_by_category(&u)
}

/// The bucket for rows outside the codificator, when there are any.
fn build_unknown_category_summary(tree: &Vec<TaskCategoryNode>, rows: &Vec<AnalyticsTaskRow>) -> (r:
    Option<AnalyticsCategorySummaryNode>)
    requires
        rows_fit(rows@),
    ensures
        match r {
            None => unknown_rows(tree@, rows@).len() == 0,
            Some(s) => unknown_rows(tree@, rows@).len() > 0 && is_unknown_summary(
                s,
                unknown_rows(tree@, rows@),
            ),
        },
{
    let ur = unknown_category_rows(tree, rows);
    proof {
        lemma_abs_nonneg(ur@);
    }
    if ur.len() == 0 {
        return None;
    }
    let total = total_minutes_of(&ur);
    let count = ur.len() as i64;
    let projects = project_items_from_rows(&ur);
    Some(
        AnalyticsCategorySummaryNode {
            category_id: "__unknown__".to_owned(),
            label: "Остальное".to_owned(),
            total_minutes: total,
            task_count: count,
            projects,
            children: Vec::new(),
        },
    )
}

/// The summaries of the root categories of a range, with the bucket for
/// tasks outside the codificator, in business order.
pub fn build_category_summaries(tree: &Vec<TaskCategoryNode>, rows: &Vec<AnalyticsTaskRow>) -> (r:
    Vec<AnalyticsCategorySummaryNode>)
    requires
        rows_fit(forest_rows(tree@, rows@)),
        rows_fit(rows@),
    ensures
        root_summaries_for(r@, tree@, rows@),
{
    let (mut known, _tree_rows) = build_children_summaries(tree, rows);
    let ghost known_view = known@;
    let unknown = build_unknown_category_summary(tree, rows);
    let ghost extra: Seq<AnalyticsCategorySummaryNode>;
    match unknown {
        Some(s) => {
            proof {
                extra = seq![s];
            }
            known.push(s);
        },
        None => {
            proof {
                extra = Seq::empty();
            }
        },
    }
    proof {
        assert(known@ =~= known_view + extra);
        assert(unknown_bucket_for(extra, tree@, rows@));
    }
    sort_stable(known)
}

/// The summaries with positive time, in order.
pub open spec fn timed_summaries(summaries: Seq<AnalyticsCategorySummaryNode>) -> Seq<
    AnalyticsCategorySummaryNode,
>
    decreases summaries.len(),
{
    if summaries.len() == 0 {
        Seq::empty()
    } else if summaries.last().total_minutes > 0 {
        timed_summaries(summaries.drop_last()).push(summaries.last())
    } else {
        timed_summaries(summaries.drop_last())
    }
}

/// The share item of a root summary: its id, its canonical label, its time.
pub open spec fn share_item_matches(item: AnalyticsRootShareItem, s: AnalyticsCategorySummaryNode) -> bool {
    &&& item.category_id@ == s.category_id@
    &&& item.label@ == spec_normalize_root_label(s.label@)
    &&& item.total_minutes == s.total_minutes
}

/// The share of each root that has time, sorted stably by time (largest
/// first) and label.
pub open spec fn root_share_items_for(
    out: Seq<AnalyticsRootShareItem>,
    summaries: Seq<AnalyticsCategorySummaryNode>,
) -> bool {
    let timed = timed_summaries(summaries);
    exists|pre: Seq<AnalyticsRootShareItem>|
        {
            &&& pre.len() == timed.len()
            &&& forall|k: int| 0 <= k < pre.len() ==> share_item_matches(#[trigger] pre[k], timed[k])
            &&& out == stable_sort(pre)
        }
}

/// The shares of the root categories, largest first.
pub fn build_root_share_items(root_summaries: &Vec<AnalyticsCategorySummaryNode>) -> (r: Vec<
    AnalyticsRootShareItem,
>)
    ensures
        root_share_items_for(r@, root_summaries@),
{
    let mut pre: Vec<AnalyticsRootShareItem> = Vec::new();
    let mut i: usize = 0;
    while i < root_summaries.len()
        invariant
            0 <= i <= root_summaries@.len(),
            pre@.len() == timed_summaries(root_summaries@.take(i as int)).len(),
            forall|k: int|
                0 <= k < pre@.len() ==> share_item_matches(
                    #[trigger] pre@[k],
                    timed_summaries(root_summaries@.take(i as int))[k],
                ),
        decreases root_summaries@.len() - i,
    {
        let s = &root_summaries[i];
        proof {
            assert(root_summaries@.take(i + 1).drop_last() =~= root_summaries@.take(i as int));
            assert(root_summaries@.take(i + 1).last() == root_summaries@[i as int]);
        }
        if s.total_minutes > 0 {
            let item = AnalyticsRootShareItem {
                category_id: s.category_id.clone(),
                label: normalize_root_label(s.label.as_str()),
                total_minutes: s.total_minutes,
            };
            pre.push(item);
        }
        i = i + 1;
    }
    proof {
        assert(root_summaries@.take(i as int) =~= root_summaries@);
    }
    let ghost witness = pre@;
    sort_stable(pre)
}

/// The ids of the codificator's nodes in pre-order.
pub open spec fn tree_ids(tree: Seq<TaskCategoryNode>) -> Seq<Seq<char>> {
    flatten(tree).map_values(|n: TaskCategoryNode| n.id@)
}

pub open spec fn row_category(r: AnalyticsTaskRow) -> Seq<char> {
    r.category_id@
}

/// The rows of a forest's subtrees are the rows of each of its nodes, node
/// by node in pre-order.
proof fn lemma_forest_rows_keyed(nodes: Seq<TaskCategoryNode>, rows: Seq<AnalyticsTaskRow>)
    ensures
        sum_minutes(forest_rows(nodes, rows)) == keyed_minutes(rows, tree_ids(nodes), |r: AnalyticsTaskRow| row_category(r)),
        forest_rows(nodes, rows).len() == keyed_count(rows, tree_ids(nodes), |r: AnalyticsTaskRow| row_category(r)),
    decreases nodes,
{
    let key = |r: AnalyticsTaskRow| row_category(r);
    if nodes.len() == 0 {
        assert(tree_ids(nodes) =~= Seq::<Seq<char>>::empty());
    } else {
        let n0 = nodes[0];
        let rest = nodes.drop_first();
        let ch = node_children(n0);
        match n0.children {
            Some(c) => {
                assert(decreases_to!(nodes => n0));
                lemma_forest_rows_keyed(c@, rows);
            },
            None => {
                assert(forest_rows(Seq::<TaskCategoryNode>::empty(), rows) =~= Seq::<AnalyticsTaskRow>::empty());
                assert(tree_ids(Seq::<TaskCategoryNode>::empty()) =~= Seq::<Seq<char>>::empty());
            },
        }
        lemma_forest_rows_keyed(rest, rows);
        lemma_flatten_cons(nodes);
        let id0 = n0.id@;
        assert(tree_ids(nodes) =~= seq![id0] + tree_ids(ch) + tree_ids(rest));
        lemma_keyed_append(rows, seq![id0] + tree_ids(ch), tree_ids(rest), key);
        lemma_keyed_append(rows, seq![id0], tree_ids(ch), key);
        assert(seq![id0].drop_last() =~= Seq::<Seq<char>>::empty());
        assert(seq![id0].last() == id0);
        assert(keyed(key, id0) =~= in_category(id0));
        let one = seq![id0];
        assert(keyed_minutes(rows, one, key) == keyed_minutes(rows, one.drop_last(), key) + filtered_minutes(rows, keyed(key, one.last())));
        assert(keyed_minutes(rows, one.drop_last(), key) == 0);
        assert(filtered_minutes(rows, keyed(key, one.last())) == filtered_minutes(rows, in_category(id0)));
        assert(keyed_minutes(rows, seq![id0], key) == filtered_minutes(rows, in_category(id0)));
        assert(keyed_count(rows, one, key) == keyed_count(rows, one.drop_last(), key) + filtered_count(rows, keyed(key, one.last())));
        assert(keyed_count(rows, one.drop_last(), key) == 0);
        assert(keyed_count(rows, seq![id0], key) == filtered_count(rows, in_category(id0)));
        let own = filtered_rows(rows, in_category(id0));
        let below = forest_rows(ch, rows);
        assert(sum_minutes(below) == keyed_minutes(rows, tree_ids(ch), key));
        assert(below.len() == keyed_count(rows, tree_ids(ch), key));
        assert(subtree_rows(n0, rows) =~= own + below);
        assert(forest_rows(nodes, rows) == subtree_rows(n0, rows) + forest_rows(rest, rows));
        lemma_sum_append(own, below, |r: AnalyticsTaskRow| true);
        lemma_sum_append(subtree_rows(n0, rows), forest_rows(rest, rows), |r: AnalyticsTaskRow| true);
        lemma_filtered_bounds(rows, in_category(id0));
        assert(sum_minutes(own) == filtered_minutes(rows, in_category(id0)));
        assert(own.len() == filtered_count(rows, in_category(id0)));
    }
}

/// The summaries of a forest's nodes hold the time and tasks of the whole
/// forest.
proof fn lemma_summaries_total(
    known: Seq<AnalyticsCategorySummaryNode>,
    nodes: Seq<TaskCategoryNode>,
    rows: Seq<AnalyticsTaskRow>,
)
    requires
        summaries_for(known, nodes, rows),
    ensures
        seq_sum(known, |s: AnalyticsCategorySummaryNode| s.total_minutes as int) == sum_minutes(forest_rows(nodes, rows)),
        seq_sum(known, |s: AnalyticsCategorySummaryNode| s.task_count as int) == forest_rows(nodes, rows).len(),
    decreases nodes.len(),
{
    let ft = |s: AnalyticsCategorySummaryNode| s.total_minutes as int;
    let fc = |s: AnalyticsCategorySummaryNode| s.task_count as int;
    if nodes.len() == 0 {
        assert(known.len() == 0);
    } else {
        let rest = nodes.drop_first();
        let sub = subtree_rows(nodes[0], rows);
        lemma_sum_append(sub, forest_rows(rest, rows), |r: AnalyticsTaskRow| true);
        if sub.len() == 0 {
            lemma_summaries_total(known, rest, rows);
            assert(sub =~= Seq::<AnalyticsTaskRow>::empty());
            assert(sum_minutes(sub) == 0);
        } else {
            lemma_summaries_total(known.drop_first(), rest, rows);
            lemma_seq_sum_first(known, ft);
            lemma_seq_sum_first(known, fc);
            assert(is_category_summary(known[0], nodes[0], rows));
        }
    }
}

proof fn lemma_category_id_set_finite(rows: Seq<AnalyticsTaskRow>)
    ensures
        category_id_set(rows).finite(),
{
    let ids = rows.map_values(|r: AnalyticsTaskRow| r.category_id@);
    assert(category_id_set(rows).subset_of(ids.to_set())) by {
        assert forall|id: Seq<char>| #[trigger] category_id_set(rows).contains(id) implies ids.to_set().contains(id) by {
            let k = choose|k: int| 0 <= k < rows.len() && in_category(id)(#[trigger] rows[k]);
            assert(ids[k] == id);
        }
    }
    vstd::set_lib::lemma_len_subset(category_id_set(rows), ids.to_set());
}

proof fn lemma_rows_by_category_keyed(ids: Seq<Seq<char>>, rows: Seq<AnalyticsTaskRow>)
    ensures
        sum_minutes(rows_by_category(ids, rows)) == keyed_minutes(rows, ids, |r: AnalyticsTaskRow| row_category(r)),
        rows_by_category(ids, rows).len() == keyed_count(rows, ids, |r: AnalyticsTaskRow| row_category(r)),
    decreases ids.len(),
{
    if ids.len() > 0 {
        lemma_rows_by_category_keyed(ids.drop_last(), rows);
        let part = filtered_rows(rows, in_category(ids.last()));
        lemma_sum_append(rows_by_category(ids.drop_last(), rows), part, |r: AnalyticsTaskRow| true);
        assert(keyed(|r: AnalyticsTaskRow| row_category(r), ids.last()) =~= in_category(ids.last()));
        lemma_filtered_bounds(rows, in_category(ids.last()));
    }
}

/// The bucket holds the time and tasks of the rows outside the codificator.
proof fn lemma_unknown_rows_total(tree: Seq<TaskCategoryNode>, rows: Seq<AnalyticsTaskRow>)
    ensures
        sum_minutes(unknown_rows(tree, rows)) == filtered_minutes(rows, unknown_category(tree)),
        unknown_rows(tree, rows).len() == filtered_count(rows, unknown_category(tree)),
{
    let u = filtered_rows(rows, unknown_category(tree));
    let set = category_id_set(u);
    let ids = ascending_listing(set);
    lemma_category_id_set_finite(u);
    lemma_ascending_listing_exists(set);
    lemma_rows_by_category_keyed(ids, u);
    assert(distinct_keys(ids)) by {
        assert forall|i: int, j: int| 0 <= i < j < ids.len() implies ids[i] != ids[j] by {
            assert(seq_lt(ids[i], ids[j]));
            crate::text::lemma_seq_lt_irreflexive(ids[i]);
        }
    }
    assert forall|k: int| 0 <= k < u.len() implies ids.contains((|r: AnalyticsTaskRow| row_category(r))(#[trigger] u[k])) by {
        assert(in_category(u[k].category_id@)(u[k]));
        assert(set.contains(u[k].category_id@));
        assert(ids.to_set().contains(u[k].category_id@));
    }
    lemma_keyed_partition(u, ids, |r: AnalyticsTaskRow| row_category(r));
    lemma_filtered_bounds(rows, unknown_category(tree));
}

/// A category id is in the listing of the codificator's ids exactly when
/// some node carries it.
proof fn lemma_tree_ids_has(tree: Seq<TaskCategoryNode>, id: Seq<char>)
    ensures
        tree_ids(tree).contains(id) == forest_has_id(tree, id),
{
    if tree_ids(tree).contains(id) {
        let k = choose|k: int| 0 <= k < tree_ids(tree).len() && tree_ids(tree)[k] == id;
        assert(flatten(tree)[k].id@ == id);
    }
    if forest_has_id(tree, id) {
        let k = choose|k: int| 0 <= k < flatten(tree).len() && (#[trigger] flatten(tree)[k]).id@ == id;
        assert(tree_ids(tree)[k] == id);
    }
}

/// When no two nodes of the codificator share an id, every task of the
/// range is counted exactly once among the root summaries: their times add
/// up to the time of all the tasks and their task counts to the number of
/// tasks.
pub proof fn law_root_summaries_cover_every_task(
    out: Seq<AnalyticsCategorySummaryNode>,
    tree: Seq<TaskCategoryNode>,
    rows: Seq<AnalyticsTaskRow>,
)
    requires
        root_summaries_for(out, tree, rows),
        distinct_keys(tree_ids(tree)),
    ensures
        seq_sum(out, |s: AnalyticsCategorySummaryNode| s.total_minutes as int) == sum_minutes(rows),
        seq_sum(out, |s: AnalyticsCategorySummaryNode| s.task_count as int) == rows.len(),
{
    let ft = |s: AnalyticsCategorySummaryNode| s.total_minutes as int;
    let fc = |s: AnalyticsCategorySummaryNode| s.task_count as int;
    let key = |r: AnalyticsTaskRow| row_category(r);
    let (known, extra) = choose|known: Seq<AnalyticsCategorySummaryNode>, extra: Seq<AnalyticsCategorySummaryNode>|
        {
            &&& summaries_for(known, tree, rows)
            &&& unknown_bucket_for(extra, tree, rows)
            &&& out == stable_sort(known + extra)
        };
    lemma_stable_sort_sum(known + extra, ft);
    lemma_stable_sort_sum(known + extra, fc);
    lemma_seq_sum_append(known, extra, ft);
    lemma_seq_sum_append(known, extra, fc);
    lemma_summaries_total(known, tree, rows);
    lemma_forest_rows_keyed(tree, rows);
    lemma_keyed_filter(rows, tree_ids(tree), key);
    let ids = tree_ids(tree);
    assert((|r: AnalyticsTaskRow| ids.contains(key(r))) =~= (|r: AnalyticsTaskRow| !unknown_category(tree)(r))) by {
        assert forall|r: AnalyticsTaskRow| #[trigger] ids.contains(key(r)) == !unknown_category(tree)(r) by {
            lemma_tree_ids_has(tree, r.category_id@);
        }
    }
    lemma_unknown_rows_total(tree, rows);
    lemma_filter_complement(rows, unknown_category(tree));
    let unk = unknown_category(tree);
    assert((|r: AnalyticsTaskRow| ids.contains(key(r))) =~= (|r: AnalyticsTaskRow| !unk(r)));
    let fr = forest_rows(tree, rows);
    assert(seq_sum(known, ft) == sum_minutes(fr));
    assert(sum_minutes(fr) == keyed_minutes(rows, ids, key));
    assert(keyed_minutes(rows, ids, key) == filtered_minutes(rows, |r: AnalyticsTaskRow| ids.contains(key(r))));
    assert(filtered_minutes(rows, |r: AnalyticsTaskRow| ids.contains(key(r))) == filtered_minutes(rows, |r: AnalyticsTaskRow| !unk(r)));
    assert(seq_sum(known, fc) == fr.len());
    assert(fr.len() == keyed_count(rows, ids, key));
    assert(filtered_count(rows, |r: AnalyticsTaskRow| ids.contains(key(r))) == filtered_count(rows, |r: AnalyticsTaskRow| !unk(r)));
    let ur = unknown_rows(tree, rows);
    if ur.len() == 0 {
        assert(extra =~= Seq::<AnalyticsCategorySummaryNode>::empty());
        assert(ur =~= Seq::<AnalyticsTaskRow>::empty());
        assert(seq_sum(extra, ft) == 0);
        assert(seq_sum(extra, fc) == 0);
        assert(sum_minutes(ur) == 0);
    } else {
        assert(extra.len() == 1);
        assert(extra.drop_last() =~= Seq::<AnalyticsCategorySummaryNode>::empty());
        assert(is_unknown_summary(extra[0], ur));
        assert(seq_sum(extra, ft) == seq_sum(extra.drop_last(), ft) + ft(extra.last()));
        assert(seq_sum(extra.drop_last(), ft) == 0);
        assert(seq_sum(extra, fc) == seq_sum(extra.drop_last(), fc) + fc(extra.last()));
        assert(seq_sum(extra.drop_last(), fc) == 0);
    }
    assert(seq_sum(extra, ft) == sum_minutes(ur));
    assert(seq_sum(extra, fc) == ur.len());
}

} // verus!
