//! Per-day series with the split of each day over root categories, and the
//! list of commented tasks.
use vstd::prelude::*;
use crate::analytics::types::{
    AnalyticsTaskRow, AnalyticsDailyPoint, AnalyticsDailyCategorySlice, AnalyticsCommentedTaskItem,
};
use crate::analytics::rows::{
    filtered_minutes, filtered_rows, any_row, abs_minutes, rows_fit, lemma_filtered_bounds,
    lemma_prefix_abs, lemma_filtered_step, lemma_any_row_step,
};
use crate::analytics::labels::{spec_normalize_root_label, normalize_root_label};
use crate::analytics::projects::{
    label_pairs, pairs_view, last_label, category_label, collect_category_labels, lookup_label,
};
use crate::categories::{TaskCategoryNode, flatten, node_children, lemma_flatten_take_step};
use crate::ordered_ids::{
    ascending, ascending_listing, lemma_ascending_listing_is, lemma_ascending_listing_exists,
    insert_ascending,
};
use crate::sorting::{stable_sort, sort_stable, seq_sum, lemma_stable_sort_sum};
use crate::text::{str_eq, strs_view, trim, trim_str};
use crate::validation::option_view;

verus! {

/// A category id with the id and canonical label of its root.
pub open spec fn root_ref(n: TaskCategoryNode, root: TaskCategoryNode) -> (Seq<char>, (Seq<char>, Seq<char>)) {
    (n.id@, (root.id@, spec_normalize_root_label(root.label@)))
}

/// For each root in turn, each node of its subtree in pre-order with that
/// root.
pub open spec fn root_refs(tree: Seq<TaskCategoryNode>) -> Seq<(Seq<char>, (Seq<char>, Seq<char>))>
    decreases tree.len(),
{
    if tree.len() == 0 {
        Seq::empty()
    } else {
        let root = tree.last();
        root_refs(tree.drop_last()) + flatten(seq![root]).map_values(
            |n: TaskCategoryNode| root_ref(n, root),
        )
    }
}

/// The root of the last entry for this id.
pub open spec fn last_root(refs: Seq<(Seq<char>, (Seq<char>, Seq<char>))>, id: Seq<char>) -> Option<
    (Seq<char>, Seq<char>),
>
    decreases refs.len(),
{
    if refs.len() == 0 {
        None
    } else if refs.last().0 == id {
        Some(refs.last().1)
    } else {
        last_root(refs.drop_last(), id)
    }
}

/// The root (id, label) a row counts under: that of its category, or the
/// bucket for categories outside the codificator.
pub open spec fn row_root(tree: Seq<TaskCategoryNode>, r: AnalyticsTaskRow) -> (Seq<char>, Seq<char>) {
    match last_root(root_refs(tree), r.category_id@) {
        Some(x) => x,
        None => ("__unknown__"@, "Остальное"@),
    }
}

pub open spec fn refs_view(v: Seq<(String, (String, String))>) -> Seq<(Seq<char>, (Seq<char>, Seq<char>))> {
    v.map_values(|e: (String, (String, String))| (e.0@, (e.1.0@, e.1.1@)))
}

pub open spec fn sub_ref(n: TaskCategoryNode, rid: Seq<char>, rlabel: Seq<char>) -> (Seq<char>, (Seq<char>, Seq<char>)) {
    (n.id@, (rid, rlabel))
}

/// Appends every node of a forest, in pre-order, with the given root.
fn collect_subtree_refs(
    nodes: &Vec<TaskCategoryNode>,
    root_id: &str,
    root_label: &str,
    out: &mut Vec<(String, (String, String))>,
)
    ensures
        refs_view(final(out)@) == refs_view(old(out)@) + flatten(nodes@).map_values(
            |n: TaskCategoryNode| sub_ref(n, root_id@, root_label@),
        ),
    decreases nodes@,
{
    let ghost start = refs_view(out@);
    let ghost f = |n: TaskCategoryNode| sub_ref(n, root_id@, root_label@);
    let mut i: usize = 0;
    proof {
        assert(nodes@.take(0) =~= Seq::<TaskCategoryNode>::empty());
        assert(start + flatten(nodes@.take(0)).map_values(f) =~= start);
    }
    while i < nodes.len()
        invariant
            0 <= i <= nodes@.len(),
            f == (|n: TaskCategoryNode| sub_ref(n, root_id@, root_label@)),
            refs_view(out@) == start + flatten(nodes@.take(i as int)).map_values(f),
        decreases nodes@.len() - i,
    {
        let node = &nodes[i];
        let ghost before = refs_view(out@);
        out.push((node.id.clone(), (root_id.to_owned(), root_label.to_owned())));
        proof {
            assert(refs_view(out@) =~= before.push(f(nodes@[i as int])));
        }
        match &node.children {
            Some(children) => {
                proof {
                    assert(decreases_to!(nodes@ => nodes@[i as int]));
                }
                collect_subtree_refs(children, root_id, root_label, out);
            },
            None => {
                proof {
                    assert(flatten(node_children(nodes@[i as int])) =~= Seq::<TaskCategoryNode>::empty());
                }
            },
        }
        proof {
            lemma_flatten_take_step(nodes@, i as int);
            let a = flatten(nodes@.take(i as int));
            let c = flatten(node_children(nodes@[i as int]));
            assert((a + seq![nodes@[i as int]] + c).map_values(f) =~= a.map_values(f) + seq![
                f(nodes@[i as int]),
            ] + c.map_values(f));
        }
        i = i + 1;
    }
    proof {
        assert(nodes@.take(i as int) =~= nodes@);
    }
}

/// Every node of the codificator with its root.
pub fn build_root_category_map(tree: &Vec<TaskCategoryNode>) -> (r: Vec<(String, (String, String))>)
    ensures
        refs_view(r@) == root_refs(tree@),
{
    let mut out: Vec<(String, (String, String))> = Vec::new();
    let mut i: usize = 0;
    proof {
        assert(refs_view(out@) =~= root_refs(tree@.take(0)));
    }
    while i < tree.len()
        invariant
            0 <= i <= tree@.len(),
            refs_view(out@) == root_refs(tree@.take(i as int)),
        decreases tree@.len() - i,
    {
        let root = &tree[i];
        let label = normalize_root_label(root.label.as_str());
        let ghost rt = tree@[i as int];
        let ghost f1 = |n: TaskCategoryNode| sub_ref(n, root.id@, label@);
        let ghost before = refs_view(out@);
        out.push((root.id.clone(), (root.id.clone(), label.clone())));
        proof {
            assert(refs_view(out@) =~= before.push(f1(rt)));
        }
        match &root.children {
            Some(children) => {
                collect_subtree_refs(children, root.id.as_str(), label.as_str(), &mut out);
            },
            None => {
                proof {
                    assert(refs_view(out@) =~= refs_view(out@) + flatten(Seq::<TaskCategoryNode>::empty()).map_values(f1));
                }
            },
        }
        proof {
            let f2 = |n: TaskCategoryNode| root_ref(n, rt);
            crate::categories::lemma_flatten_cons(seq![rt]);
            assert(seq![rt].drop_first() =~= Seq::<TaskCategoryNode>::empty());
            assert(seq![rt][0] == rt);
            let c = flatten(node_children(rt));
            assert(flatten(seq![rt]) =~= seq![rt] + c);
            assert(node_children(rt) == match rt.children { Some(ch) => ch@, None => Seq::<TaskCategoryNode>::empty() });
            assert(flatten(seq![rt]).map_values(f2) =~= seq![f1(rt)] + c.map_values(f1));
            assert(tree@.take(i + 1).drop_last() =~= tree@.take(i as int));
            assert(tree@.take(i + 1).last() == rt);
        }
        i = i + 1;
    }
    proof {
        assert(tree@.take(i as int) =~= tree@);
    }
    out
}

/// The root (id, label) of the last entry for this id, if any.
pub(crate) fn lookup_root(refs: &Vec<(String, (String, String))>, id: &str) -> (r: Option<(String, String)>)
    ensures
        match r {
            Some(x) => last_root(refs_view(refs@), id@) == Some((x.0@, x.1@)),
            None => last_root(refs_view(refs@), id@) is None,
        },
{
    let ghost rv = refs_view(refs@);
    let mut i: usize = refs.len();
    proof {
        assert(rv.take(i as int) =~= rv);
    }
    while i > 0
        invariant
            0 <= i <= refs@.len(),
            rv == refs_view(refs@),
            last_root(rv, id@) == last_root(rv.take(i as int), id@),
        decreases i,
    {
        proof {
            assert(rv.take(i as int).drop_last() =~= rv.take(i - 1));
            assert(rv.take(i as int).last() == rv[i - 1]);
        }
        if str_eq(refs[i - 1].0.as_str(), id) {
            return Some((refs[i - 1].1.0.clone(), refs[i - 1].1.1.clone()));
        }
        i = i - 1;
    }
    None
}

/// The root (id, label) of a row.
fn root_of_row(
    tree: Ghost<Seq<TaskCategoryNode>>,
    refs: &Vec<(String, (String, String))>,
    row: &AnalyticsTaskRow,
) -> (r: (String, String))
    requires
        refs_view(refs@) == root_refs(tree@),
    ensures
        (r.0@, r.1@) == row_root(tree@, *row),
{
    match lookup_root(refs, row.category_id.as_str()) {
        Some(x) => x,
        None => ("__unknown__".to_owned(), "Остальное".to_owned()),
    }
}

pub open spec fn in_root(tree: Seq<TaskCategoryNode>, rid: Seq<char>) -> spec_fn(AnalyticsTaskRow) -> bool {
    |r: AnalyticsTaskRow| row_root(tree, r).0 == rid
}

pub open spec fn on_day_in_root(tree: Seq<TaskCategoryNode>, date: Seq<char>, rid: Seq<char>) -> spec_fn(
    AnalyticsTaskRow,
) -> bool {
    |r: AnalyticsTaskRow| r.date@ == date && row_root(tree, r).0 == rid
}

/// The roots that rows count under.
pub open spec fn root_id_set(tree: Seq<TaskCategoryNode>, rows: Seq<AnalyticsTaskRow>) -> Set<Seq<char>> {
    Set::new(|rid: Seq<char>| any_row(rows, in_root(tree, rid)))
}

/// The label a root is shown with: that of the last row counted under it.
pub open spec fn root_label_of(tree: Seq<TaskCategoryNode>, rows: Seq<AnalyticsTaskRow>, rid: Seq<char>) -> Seq<char> {
    row_root(tree, filtered_rows(rows, in_root(tree, rid)).last()).1
}

pub open spec fn day_root_minutes(
    tree: Seq<TaskCategoryNode>,
    rows: Seq<AnalyticsTaskRow>,
    date: Seq<char>,
    rid: Seq<char>,
) -> int {
    filtered_minutes(rows, on_day_in_root(tree, date, rid))
}

/// The roots of `rids` with time on the day, in order.
pub open spec fn roots_with_time(
    rids: Seq<Seq<char>>,
    tree: Seq<TaskCategoryNode>,
    rows: Seq<AnalyticsTaskRow>,
    date: Seq<char>,
) -> Seq<Seq<char>>
    decreases rids.len(),
{
    if rids.len() == 0 {
        Seq::empty()
    } else if day_root_minutes(tree, rows, date, rids.last()) != 0 {
        roots_with_time(rids.drop_last(), tree, rows, date).push(rids.last())
    } else {
        roots_with_time(rids.drop_last(), tree, rows, date)
    }
}

pub open spec fn slice_matches(
    s: AnalyticsDailyCategorySlice,
    tree: Seq<TaskCategoryNode>,
    rows: Seq<AnalyticsTaskRow>,
    date: Seq<char>,
    rid: Seq<char>,
) -> bool {
    &&& s.category_id@ == rid
    &&& s.label@ == root_label_of(tree, rows, rid)
    &&& s.total_minutes == day_root_minutes(tree, rows, date, rid)
}

/// One slice per root with time on the day, roots taken in increasing id
/// order, then sorted stably by business rank and label.
pub open spec fn day_slices_for(
    out: Seq<AnalyticsDailyCategorySlice>,
    tree: Seq<TaskCategoryNode>,
    rows: Seq<AnalyticsTaskRow>,
    date: Seq<char>,
) -> bool {
    let nz = roots_with_time(ascending_listing(root_id_set(tree, rows)), tree, rows, date);
    exists|pre: Seq<AnalyticsDailyCategorySlice>|
        {
            &&& pre.len() == nz.len()
            &&& forall|k: int| 0 <= k < pre.len() ==> slice_matches(#[trigger] pre[k], tree, rows, date, nz[k])
            &&& out == stable_sort(pre)
        }
}

/// A day of the series: the day's figures kept, its split over roots
/// filled in.
pub open spec fn daily_point_matches(
    p: AnalyticsDailyPoint,
    base: AnalyticsDailyPoint,
    tree: Seq<TaskCategoryNode>,
    rows: Seq<AnalyticsTaskRow>,
) -> bool {
    &&& p.date@ == base.date@
    &&& p.total_minutes == base.total_minutes
    &&& p.task_count == base.task_count
    &&& day_slices_for(p.category_breakdown@, tree, rows, base.date@)
}

pub open spec fn daily_series_for(
    out: Seq<AnalyticsDailyPoint>,
    base: Seq<AnalyticsDailyPoint>,
    tree: Seq<TaskCategoryNode>,
    rows: Seq<AnalyticsTaskRow>,
) -> bool {
    &&& out.len() == base.len()
    &&& forall|k: int| 0 <= k < out.len() ==> daily_point_matches(#[trigger] out[k], base[k], tree, rows)
}

proof fn lemma_root_id_set_step(tree: Seq<TaskCategoryNode>, rows: Seq<AnalyticsTaskRow>, i: int)
    requires
        0 <= i < rows.len(),
    ensures
        root_id_set(tree, rows.take(i + 1)) == root_id_set(tree, rows.take(i)).insert(
            row_root(tree, rows[i]).0,
        ),
{
    let a = root_id_set(tree, rows.take(i + 1));
    let b = root_id_set(tree, rows.take(i)).insert(row_root(tree, rows[i]).0);
    assert forall|rid: Seq<char>| a.contains(rid) <==> b.contains(rid) by {
        lemma_any_row_step(rows, i, in_root(tree, rid));
    }
    assert(a =~= b);
}

/// The slices of one day.
fn day_slices(
    tree: Ghost<Seq<TaskCategoryNode>>,
    refs: &Vec<(String, (String, String))>,
    rids: &Vec<String>,
    rows: &Vec<AnalyticsTaskRow>,
    date: &str,
) -> (out: Vec<AnalyticsDailyCategorySlice>)
    requires
        refs_view(refs@) == root_refs(tree@),
        ascending(strs_view(rids@)),
        strs_view(rids@) == ascending_listing(root_id_set(tree@, rows@)),
        strs_view(rids@).to_set() == root_id_set(tree@, rows@),
        rows_fit(rows@),
    ensures
        day_slices_for(out@, tree@, rows@, date@),
{
    let ghost listing = strs_view(rids@);
    let mut pre: Vec<AnalyticsDailyCategorySlice> = Vec::new();
    let mut k: usize = 0;
    proof {
        assert(listing.take(0) =~= Seq::<Seq<char>>::empty());
    }
    while k < rids.len()
        invariant
            0 <= k <= rids@.len(),
            listing == strs_view(rids@),
            listing == ascending_listing(root_id_set(tree@, rows@)),
            listing.to_set() == root_id_set(tree@, rows@),
            refs_view(refs@) == root_refs(tree@),
            rows_fit(rows@),
            pre@.len() == roots_with_time(listing.take(k as int), tree@, rows@, date@).len(),
            forall|j: int|
                0 <= j < pre@.len() ==> slice_matches(
                    #[trigger] pre@[j],
                    tree@,
                    rows@,
                    date@,
                    roots_with_time(listing.take(k as int), tree@, rows@, date@)[j],
                ),
        decreases rids@.len() - k,
    {
        let rid = rids[k].as_str();
        let mut total: i64 = 0;
        let mut label = String::new();
        let mut j: usize = 0;
        while j < rows.len()
            invariant
                0 <= j <= rows@.len(),
                refs_view(refs@) == root_refs(tree@),
                rows_fit(rows@),
                total == filtered_minutes(rows@.take(j as int), on_day_in_root(tree@, date@, rid@)),
                filtered_rows(rows@.take(j as int), in_root(tree@, rid@)).len() > 0 ==> label@
                    == row_root(tree@, filtered_rows(rows@.take(j as int), in_root(tree@, rid@)).last()).1,
            decreases rows@.len() - j,
        {
            proof {
                lemma_filtered_step(rows@, j as int, on_day_in_root(tree@, date@, rid@));
                lemma_filtered_step(rows@, j as int, in_root(tree@, rid@));
                lemma_filtered_bounds(rows@.take(j + 1), on_day_in_root(tree@, date@, rid@));
                lemma_prefix_abs(rows@, j + 1);
            }
            let root = root_of_row(tree, refs, &rows[j]);
            if str_eq(root.0.as_str(), rid) {
                label = root.1;
                if str_eq(rows[j].date.as_str(), date) {
                    total = total + rows[j].time_length;
                }
            }
            j = j + 1;
        }
        proof {
            assert(rows@.take(j as int) =~= rows@);
            assert(listing.take(k + 1).drop_last() =~= listing.take(k as int));
            assert(listing.take(k + 1).last() == listing[k as int]);
            assert(listing.to_set().contains(listing[k as int]));
            let w = choose|w: int| 0 <= w < rows@.len() && in_root(tree@, rid@)(#[trigger] rows@[w]);
            crate::analytics::tree::lemma_filtered_nonempty(rows@, in_root(tree@, rid@), w);
        }
        if total != 0 {
            pre.push(AnalyticsDailyCategorySlice { category_id: rid.to_owned(), label, total_minutes: total });
        }
        k = k + 1;
    }
    proof {
        assert(listing.take(k as int) =~= listing);
    }
    let ghost witness = pre@;
    sort_stable(pre)
}

/// The daily series of a range with each day's split over root categories.
pub fn build_daily_series(
    tree: &Vec<TaskCategoryNode>,
    base_series: Vec<AnalyticsDailyPoint>,
    rows: &Vec<AnalyticsTaskRow>,
) -> (out: Vec<AnalyticsDailyPoint>)
    requires
        rows_fit(rows@),
    ensures
        daily_series_for(out@, base_series@, tree@, rows@),
{
    let refs = build_root_category_map(tree);
    let mut rids: Vec<String> = Vec::new();
    let mut i: usize = 0;
    proof {
        assert(strs_view(rids@).to_set() =~= Set::empty());
        assert(root_id_set(tree@, rows@.take(0)) =~= Set::empty());
    }
    while i < rows.len()
        invariant
            0 <= i <= rows@.len(),
            refs_view(refs@) == root_refs(tree@),
            ascending(strs_view(rids@)),
            strs_view(rids@).to_set() == root_id_set(tree@, rows@.take(i as int)),
        decreases rows@.len() - i,
    {
        proof {
            lemma_root_id_set_step(tree@, rows@, i as int);
        }
        let root = root_of_row(Ghost(tree@), &refs, &rows[i]);
        insert_ascending(&mut rids, root.0.as_str());
        i = i + 1;
    }
    proof {
        assert(rows@.take(i as int) =~= rows@);
        lemma_ascending_listing_is(strs_view(rids@), root_id_set(tree@, rows@));
    }
    let mut out: Vec<AnalyticsDailyPoint> = Vec::new();
    let mut k: usize = 0;
    while k < base_series.len()
        invariant
            0 <= k <= base_series@.len(),
            refs_view(refs@) == root_refs(tree@),
            ascending(strs_view(rids@)),
            strs_view(rids@) == ascending_listing(root_id_set(tree@, rows@)),
            strs_view(rids@).to_set() == root_id_set(tree@, rows@),
            rows_fit(rows@),
            out@.len() == k,
            forall|j: int| 0 <= j < k ==> daily_point_matches(#[trigger] out@[j], base_series@[j], tree@, rows@),
        decreases base_series@.len() - k,
    {
        let base = &base_series[k];
        let breakdown = day_slices(Ghost(tree@), &refs, &rids, rows, base.date.as_str());
        out.push(
            AnalyticsDailyPoint {
                date: base.date.clone(),
                total_minutes: base.total_minutes,
                task_count: base.task_count,
                category_breakdown: breakdown,
            },
        );
        k = k + 1;
    }
    out
}

/// A row carries a note that is not blank.
pub open spec fn has_note(r: AnalyticsTaskRow) -> bool {
    r.note is Some && trim(r.note->0@).len() > 0
}

/// The commented item of a row.
pub open spec fn commented_item_matches(
    item: AnalyticsCommentedTaskItem,
    tree: Seq<TaskCategoryNode>,
    r: AnalyticsTaskRow,
) -> bool {
    &&& item.task_id@ == r.id@
    &&& item.date@ == r.date@
    &&& item.category_label@ == match category_label(tree, r.category_id@) {
        Some(l) => l,
        None => "Остальное"@,
    }
    &&& option_view(item.project_label) == option_view(r.project_label)
    &&& item.time_length == r.time_length
    &&& item.note@ == trim(r.note->0@)
}

/// The rows with a note, newest (last) first, each as an item.
pub open spec fn commented_tasks_for(
    out: Seq<AnalyticsCommentedTaskItem>,
    tree: Seq<TaskCategoryNode>,
    rows: Seq<AnalyticsTaskRow>,
) -> bool {
    let noted = filtered_rows(rows, |r: AnalyticsTaskRow| has_note(r));
    &&& out.len() == noted.len()
    &&& forall|k: int|
        0 <= k < out.len() ==> commented_item_matches(#[trigger] out[k], tree, noted[noted.len() - 1 - k])
}

/// The tasks of a range that carry a note, last logged first.
pub fn build_commented_tasks(tree: &Vec<TaskCategoryNode>, rows: &Vec<AnalyticsTaskRow>) -> (out: Vec<
    AnalyticsCommentedTaskItem,
>)
    ensures
        commented_tasks_for(out@, tree@, rows@),
{
    let mut pairs: Vec<(String, String)> = Vec::new();
    collect_category_labels(tree, &mut pairs);
    proof {
        assert(pairs_view(pairs@) =~= label_pairs(crate::categories::flatten(tree@)));
    }
    let ghost noted = filtered_rows(rows@, |r: AnalyticsTaskRow| has_note(r));
    let mut out: Vec<AnalyticsCommentedTaskItem> = Vec::new();
    let mut i: usize = rows.len();
    proof {
        assert(rows@.take(i as int) =~= rows@);
    }
    while i > 0
        invariant
            0 <= i <= rows@.len(),
            pairs_view(pairs@) == label_pairs(crate::categories::flatten(tree@)),
            noted == filtered_rows(rows@, |r: AnalyticsTaskRow| has_note(r)),
            out@.len() + filtered_rows(rows@.take(i as int), |r: AnalyticsTaskRow| has_note(r)).len() == noted.len(),
            filtered_rows(rows@.take(i as int), |r: AnalyticsTaskRow| has_note(r)) == noted.take(
                noted.len() - out@.len(),
            ),
            forall|k: int|
                0 <= k < out@.len() ==> commented_item_matches(
                    #[trigger] out@[k],
                    tree@,
                    noted[noted.len() - 1 - k],
                ),
        decreases i,
    {
        let row = &rows[i - 1];
        proof {
            lemma_filtered_step(rows@, i - 1, |r: AnalyticsTaskRow| has_note(r));
        }
        match &row.note {
            Some(n) => {
                let note = trim_str(n.as_str());
                if !note.as_str().is_empty() {
                    let category_label = match lookup_label(&pairs, row.category_id.as_str()) {
                        Some(l) => l,
                        None => "Остальное".to_owned(),
                    };
                    let item = AnalyticsCommentedTaskItem {
                        task_id: row.id.clone(),
                        date: row.date.clone(),
                        category_label,
                        project_label: match &row.project_label {
                            Some(l) => Some(l.clone()),
                            None => None,
                        },
                        time_length: row.time_length,
                        note,
                    };
                    proof {
                        let m = noted.len() - out@.len();
                        assert(noted.take(m - 1) =~= noted.take(m).drop_last());
                        assert(noted.take(m).last() == noted[m - 1]);
                    }
                    out.push(item);
                }
            },
            None => {},
        }
        i = i - 1;
    }
    proof {
        assert(rows@.take(0) =~= Seq::<AnalyticsTaskRow>::empty());
    }
    out
}

/// The root a row counts under, as a key.
pub open spec fn root_key(tree: Seq<TaskCategoryNode>) -> spec_fn(AnalyticsTaskRow) -> Seq<char> {
    |r: AnalyticsTaskRow| row_root(tree, r).0
}

/// Rows logged on `date`.
pub open spec fn on_day(date: Seq<char>) -> spec_fn(AnalyticsTaskRow) -> bool {
    |r: AnalyticsTaskRow| r.date@ == date
}

/// Filtering by `p` and then by `q` sums what filtering by both does.
proof fn lemma_filter_within(
    rows: Seq<AnalyticsTaskRow>,
    p: spec_fn(AnalyticsTaskRow) -> bool,
    q: spec_fn(AnalyticsTaskRow) -> bool,
    c: spec_fn(AnalyticsTaskRow) -> bool,
)
    requires
        forall|r: AnalyticsTaskRow| #[trigger] c(r) == (p(r) && q(r)),
    ensures
        filtered_minutes(rows, c) == filtered_minutes(filtered_rows(rows, p), q),
    decreases rows.len(),
{
    if rows.len() > 0 {
        lemma_filter_within(rows.drop_last(), p, q, c);
        let d = filtered_rows(rows.drop_last(), p);
        if p(rows.last()) {
            assert(d.push(rows.last()).drop_last() =~= d);
        }
        assert(c(rows.last()) == (p(rows.last()) && q(rows.last())));
    }
}

/// A property of every row holds of every row that a filter keeps.
proof fn lemma_filtered_rows_keep(
    rows: Seq<AnalyticsTaskRow>,
    p: spec_fn(AnalyticsTaskRow) -> bool,
    good: spec_fn(AnalyticsTaskRow) -> bool,
)
    requires
        forall|j: int| 0 <= j < rows.len() ==> good(#[trigger] rows[j]),
    ensures
        forall|k: int| 0 <= k < filtered_rows(rows, p).len() ==> good(#[trigger] filtered_rows(rows, p)[k]),
    decreases rows.len(),
{
    if rows.len() > 0 {
        let d = rows.drop_last();
        assert forall|j: int| 0 <= j < d.len() implies good(#[trigger] d[j]) by {
            assert(d[j] == rows[j]);
        }
        lemma_filtered_rows_keep(d, p, good);
        assert(good(rows[rows.len() - 1]));
        let fd = filtered_rows(d, p);
        if p(rows.last()) {
            assert forall|k: int| 0 <= k < filtered_rows(rows, p).len() implies good(
                #[trigger] filtered_rows(rows, p)[k],
            ) by {
                if k < fd.len() {
                    assert(filtered_rows(rows, p)[k] == fd[k]);
                } else {
                    assert(filtered_rows(rows, p)[k] == rows.last());
                }
            }
        }
    }
}

proof fn lemma_day_root_minutes_keyed(
    tree: Seq<TaskCategoryNode>,
    rows: Seq<AnalyticsTaskRow>,
    date: Seq<char>,
    rid: Seq<char>,
)
    ensures
        day_root_minutes(tree, rows, date, rid) == filtered_minutes(
            filtered_rows(rows, on_day(date)),
            crate::analytics::rows::keyed(root_key(tree), rid),
        ),
{
    lemma_filter_within(
        rows,
        on_day(date),
        crate::analytics::rows::keyed(root_key(tree), rid),
        on_day_in_root(tree, date, rid),
    );
}

/// Leaving out the roots without time on the day changes no sum.
proof fn lemma_roots_with_time_keyed(
    keys: Seq<Seq<char>>,
    tree: Seq<TaskCategoryNode>,
    rows: Seq<AnalyticsTaskRow>,
    date: Seq<char>,
)
    ensures
        crate::analytics::rows::keyed_minutes(
            filtered_rows(rows, on_day(date)),
            roots_with_time(keys, tree, rows, date),
            root_key(tree),
        ) == crate::analytics::rows::keyed_minutes(filtered_rows(rows, on_day(date)), keys, root_key(tree)),
    decreases keys.len(),
{
    if keys.len() > 0 {
        let rid = keys.last();
        let x = roots_with_time(keys.drop_last(), tree, rows, date);
        lemma_roots_with_time_keyed(keys.drop_last(), tree, rows, date);
        lemma_day_root_minutes_keyed(tree, rows, date, rid);
        if day_root_minutes(tree, rows, date, rid) != 0 {
            assert(x.push(rid).drop_last() =~= x);
            assert(x.push(rid).last() == rid);
        }
    }
}

proof fn lemma_slice_prefix_sums(
    pre: Seq<AnalyticsDailyCategorySlice>,
    tree: Seq<TaskCategoryNode>,
    rows: Seq<AnalyticsTaskRow>,
    date: Seq<char>,
    nz: Seq<Seq<char>>,
    n: int,
)
    requires
        0 <= n <= pre.len(),
        pre.len() == nz.len(),
        forall|k: int| 0 <= k < pre.len() ==> slice_matches(#[trigger] pre[k], tree, rows, date, nz[k]),
    ensures
        seq_sum(pre.take(n), |s: AnalyticsDailyCategorySlice| s.total_minutes as int)
            == crate::analytics::rows::keyed_minutes(filtered_rows(rows, on_day(date)), nz.take(n), root_key(tree)),
    decreases n,
{
    if n > 0 {
        lemma_slice_prefix_sums(pre, tree, rows, date, nz, n - 1);
        assert(pre.take(n).drop_last() =~= pre.take(n - 1));
        assert(nz.take(n).drop_last() =~= nz.take(n - 1));
        assert(pre.take(n).last() == pre[n - 1]);
        assert(nz.take(n).last() == nz[n - 1]);
        assert(slice_matches(pre[n - 1], tree, rows, date, nz[n - 1]));
        lemma_day_root_minutes_keyed(tree, rows, date, nz[n - 1]);
    } else {
        assert(pre.take(0) =~= Seq::<AnalyticsDailyCategorySlice>::empty());
        assert(nz.take(0) =~= Seq::<Seq<char>>::empty());
    }
}

proof fn lemma_root_id_set_finite(tree: Seq<TaskCategoryNode>, rows: Seq<AnalyticsTaskRow>)
    ensures
        root_id_set(tree, rows).finite(),
{
    let keys = rows.map_values(root_key(tree));
    assert(root_id_set(tree, rows).subset_of(keys.to_set())) by {
        assert forall|k: Seq<char>| #[trigger] root_id_set(tree, rows).contains(k) implies keys.to_set().contains(k) by {
            let i = choose|i: int| 0 <= i < rows.len() && in_root(tree, k)(#[trigger] rows[i]);
            assert(keys[i] == k);
        }
    }
    vstd::set_lib::lemma_len_subset(root_id_set(tree, rows), keys.to_set());
}

/// A day's split over root categories loses no time: the minutes of its
/// slices add up to the minutes logged on that day.
pub proof fn law_day_slices_add_up(
    slices: Seq<AnalyticsDailyCategorySlice>,
    tree: Seq<TaskCategoryNode>,
    rows: Seq<AnalyticsTaskRow>,
    date: Seq<char>,
)
    requires
        day_slices_for(slices, tree, rows, date),
    ensures
        seq_sum(slices, |s: AnalyticsDailyCategorySlice| s.total_minutes as int) == filtered_minutes(
            rows,
            on_day(date),
        ),
{
    let set = root_id_set(tree, rows);
    lemma_root_id_set_finite(tree, rows);
    lemma_ascending_listing_exists(set);
    let keys = ascending_listing(set);
    let nz = roots_with_time(keys, tree, rows, date);
    let pre = choose|pre: Seq<AnalyticsDailyCategorySlice>|
        {
            &&& pre.len() == nz.len()
            &&& forall|k: int| 0 <= k < pre.len() ==> slice_matches(#[trigger] pre[k], tree, rows, date, nz[k])
            &&& slices == stable_sort(pre)
        };
    let f = |s: AnalyticsDailyCategorySlice| s.total_minutes as int;
    let dr = filtered_rows(rows, on_day(date));
    lemma_stable_sort_sum(pre, f);
    lemma_slice_prefix_sums(pre, tree, rows, date, nz, pre.len() as int);
    assert(pre.take(pre.len() as int) =~= pre);
    assert(nz.take(nz.len() as int) =~= nz);
    lemma_roots_with_time_keyed(keys, tree, rows, date);
    assert(crate::analytics::rows::distinct_keys(keys)) by {
        assert forall|i: int, j: int| 0 <= i < j < keys.len() implies keys[i] != keys[j] by {
            assert(crate::text::seq_lt(keys[i], keys[j]));
            crate::text::lemma_seq_lt_irreflexive(keys[i]);
        }
    }
    let good = |r: AnalyticsTaskRow| keys.contains(root_key(tree)(r));
    assert forall|j: int| 0 <= j < rows.len() implies good(#[trigger] rows[j]) by {
        let rid = root_key(tree)(rows[j]);
        assert(in_root(tree, rid)(rows[j]));
        assert(set.contains(rid));
        assert(keys.to_set().contains(rid));
    }
    lemma_filtered_rows_keep(rows, on_day(date), good);
    assert forall|k: int| 0 <= k < dr.len() implies keys.contains(root_key(tree)(#[trigger] dr[k])) by {
        assert(good(dr[k]));
    }
    crate::analytics::rows::lemma_keyed_partition(dr, keys, root_key(tree));
    lemma_filter_within(rows, on_day(date), |r: AnalyticsTaskRow| true, on_day(date));
}

} // verus!
