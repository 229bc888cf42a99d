//! The lines appended to the category change log when the codificator is
//! saved: every id that appeared, disappeared, or changed its label.
use vstd::prelude::*;
use crate::categories::{TaskCategoryNode, flatten, forest_has_id, node_children, lemma_flatten_cons};
use crate::text::{strs_view, strs_contain, str_eq, trim, trim_str, concat2, concat3};
use crate::ordered_ids::{
    ascending, ascending_listing, lemma_ascending_listing_is, insert_ascending,
    lemma_ascending_push_from, lemma_take_push_set, lemma_ascending_listing_exists,
};

verus! {

/// A node as the change log sees it: its id, label, and the labels of the
/// path from the root joined with `" / "`.
pub struct LogEntry {
    pub id: Seq<char>,
    pub label: Seq<char>,
    pub path: Seq<char>,
}

/// `labels.join(" / ")`.
pub open spec fn join_labels(labels: Seq<Seq<char>>) -> Seq<char>
    decreases labels.len(),
{
    if labels.len() == 0 {
        Seq::empty()
    } else if labels.len() == 1 {
        labels[0]
    } else {
        join_labels(labels.drop_last()) + " / "@ + labels.last()
    }
}

/// Pre-order entries of a forest whose ancestors carry `parents`.
pub open spec fn log_entries(nodes: Seq<TaskCategoryNode>, parents: Seq<Seq<char>>) -> Seq<
    LogEntry,
>
    decreases nodes,
{
    if nodes.len() == 0 {
        Seq::empty()
    } else {
        let n = nodes[0];
        let labels = parents.push(n.label@);
        let below = match n.children {
            Some(c) => log_entries(c@, labels),
            None => Seq::empty(),
        };
        seq![LogEntry { id: n.id@, label: n.label@, path: join_labels(labels) }] + below
            + log_entries(nodes.drop_first(), parents)
    }
}

pub open spec fn entry_ids(es: Seq<LogEntry>) -> Set<Seq<char>> {
    es.map_values(|e: LogEntry| e.id).to_set()
}

/// The last entry carrying `id` (a later node with the same id replaces an
/// earlier one when entries are keyed by id).
pub open spec fn last_entry(es: Seq<LogEntry>, id: Seq<char>) -> LogEntry
    decreases es.len(),
{
    if es.len() == 0 {
        LogEntry { id, label: Seq::empty(), path: Seq::empty() }
    } else if es.last().id == id {
        es.last()
    } else {
        last_entry(es.drop_last(), id)
    }
}

pub open spec fn log_timestamp(changed_at: Seq<char>) -> Seq<char> {
    if trim(changed_at).len() == 0 {
        "unknown-time"@
    } else {
        trim(changed_at)
    }
}

pub open spec fn added_line(ts: Seq<char>, e: LogEntry) -> Seq<char> {
    ts + " | added | "@ + e.path + " ["@ + e.id + "]"@
}

pub open spec fn removed_line(ts: Seq<char>, e: LogEntry) -> Seq<char> {
    ts + " | removed | "@ + e.path + " ["@ + e.id + "]"@
}

pub open spec fn renamed_line(ts: Seq<char>, before: LogEntry, after: LogEntry) -> Seq<char> {
    ts + " | renamed | "@ + before.path + " -> "@ + after.path + " ["@ + after.id + "]"@
}

/// Ids in both trees whose (last) label differs.
pub open spec fn relabelled_ids(pe: Seq<LogEntry>, ne: Seq<LogEntry>) -> Set<Seq<char>> {
    entry_ids(pe).intersect(entry_ids(ne)).filter(
        |id: Seq<char>| last_entry(pe, id).label != last_entry(ne, id).label,
    )
}

/// The change log lines: added ids, then removed ids, then relabelled ids,
/// each group in increasing id order.
pub open spec fn spec_change_log_lines(
    previous: Seq<TaskCategoryNode>,
    next: Seq<TaskCategoryNode>,
    changed_at: Seq<char>,
) -> Seq<Seq<char>> {
    let ts = log_timestamp(changed_at);
    let pe = log_entries(previous, Seq::empty());
    let ne = log_entries(next, Seq::empty());
    let added = ascending_listing(entry_ids(ne).difference(entry_ids(pe)));
    let removed = ascending_listing(entry_ids(pe).difference(entry_ids(ne)));
    let renamed = ascending_listing(relabelled_ids(pe, ne));
    added.map_values(|id: Seq<char>| added_line(ts, last_entry(ne, id))) + removed.map_values(
        |id: Seq<char>| removed_line(ts, last_entry(pe, id)),
    ) + renamed.map_values(
        |id: Seq<char>| renamed_line(ts, last_entry(pe, id), last_entry(ne, id)),
    )
}

/// A node of the walk as the executable code carries it.
pub struct CategoryLogNode {
    pub id: String,
    pub label: String,
    pub display_path: String,
}

pub open spec fn log_node_view(n: CategoryLogNode) -> LogEntry {
    LogEntry { id: n.id@, label: n.label@, path: n.display_path@ }
}

pub open spec fn log_nodes_view(s: Seq<CategoryLogNode>) -> Seq<LogEntry> {
    s.map_values(|n: CategoryLogNode| log_node_view(n))
}

proof fn lemma_log_entries_cons(nodes: Seq<TaskCategoryNode>, parents: Seq<Seq<char>>)
    requires
        nodes.len() > 0,
    ensures
        log_entries(nodes, parents) == seq![
            LogEntry {
                id: nodes[0].id@,
                label: nodes[0].label@,
                path: join_labels(parents.push(nodes[0].label@)),
            },
        ] + match nodes[0].children {
            Some(c) => log_entries(c@, parents.push(nodes[0].label@)),
            None => Seq::empty(),
        } + log_entries(nodes.drop_first(), parents),
{
}

proof fn lemma_log_entries_append(
    a: Seq<TaskCategoryNode>,
    b: Seq<TaskCategoryNode>,
    parents: Seq<Seq<char>>,
)
    ensures
        log_entries(a + b, parents) == log_entries(a, parents) + log_entries(b, parents),
    decreases a.len(),
{
    if a.len() == 0 {
        assert(a + b =~= b);
        assert(log_entries(a, parents) =~= Seq::<LogEntry>::empty());
        assert(log_entries(a, parents) + log_entries(b, parents) =~= log_entries(b, parents));
    } else {
        assert((a + b).drop_first() =~= a.drop_first() + b);
        assert((a + b)[0] == a[0]);
        lemma_log_entries_append(a.drop_first(), b, parents);
        lemma_log_entries_cons(a + b, parents);
        lemma_log_entries_cons(a, parents);
        assert(log_entries(a + b, parents) =~= log_entries(a, parents) + log_entries(b, parents));
    }
}

proof fn lemma_log_entries_take_step(nodes: Seq<TaskCategoryNode>, i: int, parents: Seq<Seq<char>>)
    requires
        0 <= i < nodes.len(),
    ensures
        log_entries(nodes.take(i + 1), parents) == log_entries(nodes.take(i), parents) + seq![
            LogEntry {
                id: nodes[i].id@,
                label: nodes[i].label@,
                path: join_labels(parents.push(nodes[i].label@)),
            },
        ] + match nodes[i].children {
            Some(c) => log_entries(c@, parents.push(nodes[i].label@)),
            None => Seq::empty(),
        },
{
    assert(nodes.take(i + 1) =~= nodes.take(i) + seq![nodes[i]]);
    lemma_log_entries_append(nodes.take(i), seq![nodes[i]], parents);
    lemma_log_entries_cons(seq![nodes[i]], parents);
    assert(seq![nodes[i]].drop_first() =~= Seq::<TaskCategoryNode>::empty());
    assert(log_entries(Seq::<TaskCategoryNode>::empty(), parents) =~= Seq::<LogEntry>::empty());
    assert(seq![nodes[i]][0] == nodes[i]);
    let tail = match nodes[i].children {
        Some(c) => log_entries(c@, parents.push(nodes[i].label@)),
        None => Seq::empty(),
    };
    let head = seq![
        LogEntry {
            id: nodes[i].id@,
            label: nodes[i].label@,
            path: join_labels(parents.push(nodes[i].label@)),
        },
    ];
    assert(log_entries(seq![nodes[i]], parents) =~= head + tail);
    assert(log_entries(nodes.take(i + 1), parents) =~= log_entries(nodes.take(i), parents) + head + tail);
}

/// Appends the entries of `tree` (below ancestors `parents`, whose joined path
/// is `parent_path`) to `out`.
fn flatten_category_tree_for_log_with_path(
    tree: &Vec<TaskCategoryNode>,
    parents: Ghost<Seq<Seq<char>>>,
    parent_path: &str,
    has_parent: bool,
    out: &mut Vec<CategoryLogNode>,
)
    requires
        parent_path@ == join_labels(parents@),
        has_parent == (parents@.len() > 0),
    ensures
        log_nodes_view(final(out)@) == log_nodes_view(old(out)@) + log_entries(tree@, parents@),
    decreases tree@,
{
    let ghost start = log_nodes_view(out@);
    let mut i: usize = 0;
    proof {
        assert(tree@.take(0) =~= Seq::<TaskCategoryNode>::empty());
        assert(start + log_entries(Seq::<TaskCategoryNode>::empty(), parents@) =~= start);
    }
    while i < tree.len()
        invariant
            0 <= i <= tree@.len(),
            parent_path@ == join_labels(parents@),
            has_parent == (parents@.len() > 0),
            log_nodes_view(out@) == start + log_entries(tree@.take(i as int), parents@),
        decreases tree@.len() - i,
    {
        let node = &tree[i];
        let path = if !has_parent {
            node.label.clone()
        } else {
            concat3(parent_path, " / ", node.label.as_str())
        };
        let ghost labels = parents@.push(node.label@);
        proof {
            assert(labels.drop_last() =~= parents@);
            assert(path@ == join_labels(labels));
        }
        let child_path = path.clone();
        let entry = CategoryLogNode { id: node.id.clone(), label: node.label.clone(), display_path: path };
        let ghost before = log_nodes_view(out@);
        out.push(entry);
        proof {
            assert(log_nodes_view(out@) =~= before.push(log_node_view(entry)));
        }
        let ghost after_self = log_nodes_view(out@);
        match &node.children {
            Some(children) => {
                proof {
                    assert(decreases_to!(tree@ => tree@[i as int]));
                }
                flatten_category_tree_for_log_with_path(children, Ghost(labels), child_path.as_str(), true, out);
            },
            None => {},
        }
        proof {
            lemma_log_entries_take_step(tree@, i as int, parents@);
        }
        i = i + 1;
    }
    proof {
        assert(tree@.take(i as int) =~= tree@);
    }
}

/// The distinct ids of the entries in increasing order.
fn ascending_entry_ids(es: &Vec<CategoryLogNode>) -> (r: Vec<String>)
    ensures
        ascending(strs_view(r@)),
        strs_view(r@).to_set() == entry_ids(log_nodes_view(es@)),
{
    let mut r: Vec<String> = Vec::new();
    let mut i: usize = 0;
    proof {
        assert(strs_view(r@).to_set() =~= Set::empty());
    }
    while i < es.len()
        invariant
            0 <= i <= es@.len(),
            ascending(strs_view(r@)),
            strs_view(r@).to_set() == entry_ids(log_nodes_view(es@.take(i as int))),
        decreases es@.len() - i,
    {
        insert_ascending(&mut r, es[i].id.as_str());
        proof {
            let f = |e: LogEntry| e.id;
            let a = log_nodes_view(es@.take(i as int));
            let b = log_nodes_view(es@.take(i + 1));
            assert(b =~= a.push(log_node_view(es@[i as int])));
            assert(b.map_values(f) =~= a.map_values(f).push(es@[i as int].id@));
            assert(b.map_values(f).to_set() =~= a.map_values(f).to_set().insert(es@[i as int].id@))
                by {
                assert forall|y| b.map_values(f).to_set().contains(y) <==> a.map_values(
                    f,
                ).to_set().insert(es@[i as int].id@).contains(y) by {
                    if b.map_values(f).to_set().contains(y) {
                        let k = choose|k: int|
                            0 <= k < b.map_values(f).len() && b.map_values(f)[k] == y;
                        if k < a.len() {
                            assert(a.map_values(f)[k] == y);
                        }
                    }
                    if a.map_values(f).to_set().contains(y) {
                        let k = choose|k: int|
                            0 <= k < a.map_values(f).len() && a.map_values(f)[k] == y;
                        assert(b.map_values(f)[k] == y);
                    }
                    if y == es@[i as int].id@ {
                        assert(b.map_values(f)[a.len() as int] == y);
                    }
                }
            }
        }
        i = i + 1;
    }
    proof {
        assert(es@.take(i as int) =~= es@);
    }
    r
}

/// Index of the last entry carrying `id`, which must be present.
fn find_last_entry(es: &Vec<CategoryLogNode>, id: &str) -> (k: usize)
    requires
        entry_ids(log_nodes_view(es@)).contains(id@),
    ensures
        k < es@.len(),
        log_node_view(es@[k as int]) == last_entry(log_nodes_view(es@), id@),
{
    let ghost all = log_nodes_view(es@);
    let mut j: usize = es.len();
    proof {
        assert(all.take(j as int) =~= all);
    }
    while j > 0
        invariant
            0 <= j <= es@.len(),
            all == log_nodes_view(es@),
            last_entry(all, id@) == last_entry(all.take(j as int), id@),
            entry_ids(all.take(j as int)).contains(id@),
        decreases j,
    {
        let ghost t = all.take(j as int);
        proof {
            assert(t.last() == log_node_view(es@[j - 1]));
            assert(t.drop_last() =~= all.take(j - 1));
        }
        if str_eq(es[j - 1].id.as_str(), id) {
            return j - 1;
        }
        proof {
            let f = |e: LogEntry| e.id;
            let k = choose|k: int| 0 <= k < t.map_values(f).len() && t.map_values(f)[k] == id@;
            assert(k != j - 1);
            assert(all.take(j - 1).map_values(f)[k] == id@);
        }
        j = j - 1;
    }
    proof {
        let f = |e: LogEntry| e.id;
        assert(all.take(0).map_values(f).len() == 0);
    }
    0
}

pub open spec fn added_lines(ts: Seq<char>, ne: Seq<LogEntry>, ids: Seq<Seq<char>>) -> Seq<Seq<char>> {
    ids.map_values(|id: Seq<char>| added_line(ts, last_entry(ne, id)))
}

pub open spec fn removed_lines(ts: Seq<char>, pe: Seq<LogEntry>, ids: Seq<Seq<char>>) -> Seq<Seq<char>> {
    ids.map_values(|id: Seq<char>| removed_line(ts, last_entry(pe, id)))
}

pub open spec fn renamed_lines(
    ts: Seq<char>,
    pe: Seq<LogEntry>,
    ne: Seq<LogEntry>,
    ids: Seq<Seq<char>>,
) -> Seq<Seq<char>> {
    ids.map_values(|id: Seq<char>| renamed_line(ts, last_entry(pe, id), last_entry(ne, id)))
}

/// The change-log lines between two trees, stamped with the trimmed
/// `changed_at` (or `unknown-time` when it is blank).
pub fn collect_category_change_log_lines(
    previous_tree: &Vec<TaskCategoryNode>,
    next_tree: &Vec<TaskCategoryNode>,
    changed_at: &str,
) -> (lines: Vec<String>)
    ensures
        strs_view(lines@) == spec_change_log_lines(previous_tree@, next_tree@, changed_at@),
{
    let trimmed = trim_str(changed_at);
    let ts = if trimmed.unicode_len() == 0 {
        "unknown-time".to_owned()
    } else {
        trimmed
    };
    proof {
        reveal_strlit("unknown-time");
    }
    let mut prev_entries: Vec<CategoryLogNode> = Vec::new();
    let mut next_entries: Vec<CategoryLogNode> = Vec::new();
    proof {
        assert(join_labels(Seq::<Seq<char>>::empty()) == ""@) by {
            reveal_strlit("");
        }
    }
    flatten_category_tree_for_log_with_path(previous_tree, Ghost(Seq::empty()), "", false, &mut prev_entries);
    flatten_category_tree_for_log_with_path(next_tree, Ghost(Seq::empty()), "", false, &mut next_entries);
    let ghost pe = log_entries(previous_tree@, Seq::empty());
    let ghost ne = log_entries(next_tree@, Seq::empty());
    proof {
        assert(log_nodes_view(prev_entries@) =~= pe);
        assert(log_nodes_view(next_entries@) =~= ne);
    }
    let prev_ids = ascending_entry_ids(&prev_entries);
    let next_ids = ascending_entry_ids(&next_entries);
    let ghost pids = entry_ids(pe);
    let ghost nids = entry_ids(ne);
    let ghost ps = strs_view(prev_ids@);
    let ghost ns = strs_view(next_ids@);
    let mut lines: Vec<String> = Vec::new();

    // added
    let ghost mut added: Seq<Seq<char>> = Seq::empty();
    let mut i: usize = 0;
    proof {
        assert(ns.take(0).to_set() =~= Set::<Seq<char>>::empty());
        assert(added.to_set() =~= Set::<Seq<char>>::empty());
    }
    while i < next_ids.len()
        invariant
            0 <= i <= ns.len(),
            ns == strs_view(next_ids@),
            ps == strs_view(prev_ids@),
            ascending(ns),
            ns.to_set() == nids,
            ps.to_set() == pids,
            ne == log_nodes_view(next_entries@),
            nids == entry_ids(ne),
            ascending(added),
            forall|k: int| 0 <= k < added.len() ==> ns.take(i as int).contains(#[trigger] added[k]),
            added.to_set() == ns.take(i as int).to_set().difference(pids),
            strs_view(lines@) == added_lines(ts@, ne, added),
        decreases ns.len() - i,
    {
        let id = &next_ids[i];
        proof {
            lemma_take_push_set(ns, i as int);
        }
        if !strs_contain(&prev_ids, id.as_str()) {
            proof {
                assert(nids.contains(id@)) by {
                    assert(ns[i as int] == id@);
                }
            }
            let k = find_last_entry(&next_entries, id.as_str());
            let e = &next_entries[k];
            let a = concat3(ts.as_str(), " | added | ", e.display_path.as_str());
            let b = concat3(a.as_str(), " [", e.id.as_str());
            let line = concat2(b.as_str(), "]");
            proof {
                lemma_ascending_push_from(added, ns, i as int);
                let new_added = added.push(id@);
                assert(added_lines(ts@, ne, new_added) =~= added_lines(ts@, ne, added).push(line@));
                added = new_added;
                assert(added.to_set() =~= ns.take(i + 1).to_set().difference(pids));
                assert forall|k: int| 0 <= k < added.len() implies ns.take(i + 1).contains(#[trigger] added[k]) by {
                    if k < added.len() - 1 {
                        let j = choose|j: int| 0 <= j < ns.take(i as int).len() && ns.take(i as int)[j] == added[k];
                        assert(ns.take(i + 1)[j] == added[k]);
                    } else {
                        assert(ns.take(i + 1)[i as int] == added[k]);
                    }
                }
            }
            lines.push(line);
        } else {
            proof {
                assert(added.to_set() =~= ns.take(i + 1).to_set().difference(pids));
                assert forall|k: int| 0 <= k < added.len() implies ns.take(i + 1).contains(#[trigger] added[k]) by {
                    let j = choose|j: int| 0 <= j < ns.take(i as int).len() && ns.take(i as int)[j] == added[k];
                    assert(ns.take(i + 1)[j] == added[k]);
                }
            }
        }
        i = i + 1;
    }
    proof {
        assert(ns.take(ns.len() as int) =~= ns);
        lemma_ascending_listing_is(added, nids.difference(pids));
    }
    let ghost lines_after_added = strs_view(lines@);

    // removed
    let ghost mut removed: Seq<Seq<char>> = Seq::empty();
    let mut i: usize = 0;
    proof {
        assert(ps.take(0).to_set() =~= Set::<Seq<char>>::empty());
        assert(removed.to_set() =~= Set::<Seq<char>>::empty());
        assert(lines_after_added + removed_lines(ts@, pe, removed) =~= lines_after_added);
    }
    while i < prev_ids.len()
        invariant
            0 <= i <= ps.len(),
            ns == strs_view(next_ids@),
            ps == strs_view(prev_ids@),
            ascending(ps),
            ns.to_set() == nids,
            ps.to_set() == pids,
            pe == log_nodes_view(prev_entries@),
            pids == entry_ids(pe),
            ascending(removed),
            forall|k: int| 0 <= k < removed.len() ==> ps.take(i as int).contains(#[trigger] removed[k]),
            removed.to_set() == ps.take(i as int).to_set().difference(nids),
            strs_view(lines@) == lines_after_added + removed_lines(ts@, pe, removed),
        decreases ps.len() - i,
    {
        let id = &prev_ids[i];
        proof {
            lemma_take_push_set(ps, i as int);
        }
        if !strs_contain(&next_ids, id.as_str()) {
            proof {
                assert(pids.contains(id@)) by {
                    assert(ps[i as int] == id@);
                }
            }
            let k = find_last_entry(&prev_entries, id.as_str());
            let e = &prev_entries[k];
            let a = concat3(ts.as_str(), " | removed | ", e.display_path.as_str());
            let b = concat3(a.as_str(), " [", e.id.as_str());
            let line = concat2(b.as_str(), "]");
            proof {
                lemma_ascending_push_from(removed, ps, i as int);
                let new_removed = removed.push(id@);
                assert(removed_lines(ts@, pe, new_removed) =~= removed_lines(ts@, pe, removed).push(line@));
                removed = new_removed;
                assert(removed.to_set() =~= ps.take(i + 1).to_set().difference(nids));
                assert forall|k: int| 0 <= k < removed.len() implies ps.take(i + 1).contains(#[trigger] removed[k]) by {
                    if k < removed.len() - 1 {
                        let j = choose|j: int| 0 <= j < ps.take(i as int).len() && ps.take(i as int)[j] == removed[k];
                        assert(ps.take(i + 1)[j] == removed[k]);
                    } else {
                        assert(ps.take(i + 1)[i as int] == removed[k]);
                    }
                }
                assert(lines_after_added + removed_lines(ts@, pe, removed) =~= strs_view(lines@).push(line@));
            }
            lines.push(line);
        } else {
            proof {
                assert(removed.to_set() =~= ps.take(i + 1).to_set().difference(nids));
                assert forall|k: int| 0 <= k < removed.len() implies ps.take(i + 1).contains(#[trigger] removed[k]) by {
                    let j = choose|j: int| 0 <= j < ps.take(i as int).len() && ps.take(i as int)[j] == removed[k];
                    assert(ps.take(i + 1)[j] == removed[k]);
                }
            }
        }
        i = i + 1;
    }
    proof {
        assert(ps.take(ps.len() as int) =~= ps);
        lemma_ascending_listing_is(removed, pids.difference(nids));
    }
    let ghost lines_after_removed = strs_view(lines@);

    // renamed
    let ghost mut renamed: Seq<Seq<char>> = Seq::empty();
    let ghost target = relabelled_ids(pe, ne);
    let mut i: usize = 0;
    proof {
        assert(ns.take(0).to_set() =~= Set::<Seq<char>>::empty());
        assert(renamed.to_set() =~= Set::<Seq<char>>::empty());
        assert(lines_after_removed + renamed_lines(ts@, pe, ne, renamed) =~= lines_after_removed);
    }
    while i < next_ids.len()
        invariant
            0 <= i <= ns.len(),
            ns == strs_view(next_ids@),
            ps == strs_view(prev_ids@),
            ascending(ns),
            ns.to_set() == nids,
            ps.to_set() == pids,
            pe == log_nodes_view(prev_entries@),
            ne == log_nodes_view(next_entries@),
            pids == entry_ids(pe),
            nids == entry_ids(ne),
            target == relabelled_ids(pe, ne),
            ascending(renamed),
            forall|k: int| 0 <= k < renamed.len() ==> ns.take(i as int).contains(#[trigger] renamed[k]),
            renamed.to_set() == ns.take(i as int).to_set().intersect(target),
            strs_view(lines@) == lines_after_removed + renamed_lines(ts@, pe, ne, renamed),
        decreases ns.len() - i,
    {
        let id = &next_ids[i];
        proof {
            lemma_take_push_set(ns, i as int);
            assert(nids.contains(id@)) by {
                assert(ns[i as int] == id@);
            }
        }
        if strs_contain(&prev_ids, id.as_str()) {
            let kp = find_last_entry(&prev_entries, id.as_str());
            let kn = find_last_entry(&next_entries, id.as_str());
            let ep = &prev_entries[kp];
            let en = &next_entries[kn];
            if !str_eq(ep.label.as_str(), en.label.as_str()) {
                let a = concat3(ts.as_str(), " | renamed | ", ep.display_path.as_str());
                let b = concat3(a.as_str(), " -> ", en.display_path.as_str());
                let c = concat3(b.as_str(), " [", en.id.as_str());
                let line = concat2(c.as_str(), "]");
                proof {
                    assert(target.contains(id@));
                    lemma_ascending_push_from(renamed, ns, i as int);
                    let new_renamed = renamed.push(id@);
                    assert(renamed_lines(ts@, pe, ne, new_renamed) =~= renamed_lines(ts@, pe, ne, renamed).push(line@));
                    renamed = new_renamed;
                    assert(renamed.to_set() =~= ns.take(i + 1).to_set().intersect(target));
                    assert forall|k: int| 0 <= k < renamed.len() implies ns.take(i + 1).contains(#[trigger] renamed[k]) by {
                        if k < renamed.len() - 1 {
                            let j = choose|j: int| 0 <= j < ns.take(i as int).len() && ns.take(i as int)[j] == renamed[k];
                            assert(ns.take(i + 1)[j] == renamed[k]);
                        } else {
                            assert(ns.take(i + 1)[i as int] == renamed[k]);
                        }
                    }
                    assert(lines_after_removed + renamed_lines(ts@, pe, ne, renamed) =~= strs_view(lines@).push(line@));
                }
                lines.push(line);
            } else {
                proof {
                    assert(!target.contains(id@));
                    assert(renamed.to_set() =~= ns.take(i + 1).to_set().intersect(target));
                    assert forall|k: int| 0 <= k < renamed.len() implies ns.take(i + 1).contains(#[trigger] renamed[k]) by {
                        let j = choose|j: int| 0 <= j < ns.take(i as int).len() && ns.take(i as int)[j] == renamed[k];
                        assert(ns.take(i + 1)[j] == renamed[k]);
                    }
                }
            }
        } else {
            proof {
                assert(!target.contains(id@));
                assert(renamed.to_set() =~= ns.take(i + 1).to_set().intersect(target));
                assert forall|k: int| 0 <= k < renamed.len() implies ns.take(i + 1).contains(#[trigger] renamed[k]) by {
                    let j = choose|j: int| 0 <= j < ns.take(i as int).len() && ns.take(i as int)[j] == renamed[k];
                    assert(ns.take(i + 1)[j] == renamed[k]);
                }
            }
        }
        i = i + 1;
    }
    proof {
        assert(ns.take(ns.len() as int) =~= ns);
        assert(target.subset_of(nids));
        assert(nids.intersect(target) =~= target);
        lemma_ascending_listing_is(renamed, target);
        assert(ts@ == log_timestamp(changed_at@));
    }
    lines
}

/// Saving a tree over itself logs nothing.
pub proof fn law_unchanged_tree_logs_nothing(tree: Seq<TaskCategoryNode>, changed_at: Seq<char>)
    ensures
        spec_change_log_lines(tree, tree, changed_at).len() == 0,
{
    let es = log_entries(tree, Seq::empty());
    let ids = entry_ids(es);
    assert(ids.difference(ids) =~= Set::empty());
    assert(relabelled_ids(es, es) =~= Set::empty());
    assert(Seq::<Seq<char>>::empty().to_set() =~= Set::empty());
    lemma_ascending_listing_is(Seq::empty(), ids.difference(ids));
    lemma_ascending_listing_is(Seq::empty(), relabelled_ids(es, es));
}

/// The entries of the walk are the nodes of the tree in pre-order, with
/// their ids and labels.
proof fn lemma_log_entries_are_flatten(nodes: Seq<TaskCategoryNode>, parents: Seq<Seq<char>>)
    ensures
        log_entries(nodes, parents).len() == flatten(nodes).len(),
        forall|k: int|
            0 <= k < flatten(nodes).len() ==> (#[trigger] log_entries(nodes, parents)[k]).id
                == flatten(nodes)[k].id@ && log_entries(nodes, parents)[k].label == flatten(
                nodes,
            )[k].label@,
    decreases nodes,
{
    if nodes.len() > 0 {
        let n = nodes[0];
        let labels = parents.push(n.label@);
        lemma_log_entries_cons(nodes, parents);
        lemma_flatten_cons(nodes);
        let below = match n.children {
            Some(c) => log_entries(c@, labels),
            None => Seq::empty(),
        };
        match n.children {
            Some(c) => {
                assert(decreases_to!(nodes => nodes[0]));
                lemma_log_entries_are_flatten(c@, labels);
            },
            None => {
                assert(flatten(node_children(n)) =~= Seq::<TaskCategoryNode>::empty());
            },
        }
        lemma_log_entries_are_flatten(nodes.drop_first(), parents);
        let es = log_entries(nodes, parents);
        let rest = log_entries(nodes.drop_first(), parents);
        let fl = flatten(nodes);
        let fc = flatten(node_children(n));
        assert(below.len() == fc.len());
        assert forall|k: int| 0 <= k < fl.len() implies (#[trigger] es[k]).id == fl[k].id@
            && es[k].label == fl[k].label@ by {
            if k == 0 {
            } else if k < 1 + fc.len() {
                assert(es[k] == below[k - 1]);
                assert(fl[k] == fc[k - 1]);
            } else {
                assert(es[k] == rest[k - 1 - fc.len()]);
                assert(fl[k] == flatten(nodes.drop_first())[k - 1 - fc.len()]);
            }
        }
    }
}

/// The last entry with an id is the one at the only position carrying it.
proof fn lemma_last_entry_at(es: Seq<LogEntry>, id: Seq<char>, k: int)
    requires
        0 <= k < es.len(),
        es[k].id == id,
        forall|j: int| k < j < es.len() ==> (#[trigger] es[j]).id != id,
    ensures
        last_entry(es, id) == es[k],
    decreases es.len(),
{
    if k < es.len() - 1 {
        assert(es.last() == es[es.len() - 1]);
        let d = es.drop_last();
        assert forall|j: int| k < j < d.len() implies (#[trigger] d[j]).id != id by {
            assert(d[j] == es[j]);
        }
        lemma_last_entry_at(d, id, k);
    }
}

/// No id occurs twice among the nodes of the tree.
pub open spec fn tree_ids_distinct(tree: Seq<TaskCategoryNode>) -> bool {
    forall|i: int, j: int|
        0 <= i < j < flatten(tree).len() ==> (#[trigger] flatten(tree)[i]).id@ != (#[trigger] flatten(
            tree,
        )[j]).id@
}

/// The label of the tree's node with this id.
pub open spec fn tree_label(tree: Seq<TaskCategoryNode>, id: Seq<char>) -> Seq<char> {
    flatten(tree)[choose|k: int| 0 <= k < flatten(tree).len() && (#[trigger] flatten(tree)[k]).id@ == id].label@
}

/// In a tree without repeated ids, the id's entry in the walk has the label
/// of its node, and the walk lists exactly the tree's ids.
proof fn lemma_entries_of_distinct_tree(tree: Seq<TaskCategoryNode>, id: Seq<char>)
    requires
        tree_ids_distinct(tree),
    ensures
        entry_ids(log_entries(tree, Seq::empty())).contains(id) == forest_has_id(tree, id),
        forest_has_id(tree, id) ==> last_entry(log_entries(tree, Seq::empty()), id).label == tree_label(
            tree,
            id,
        ),
{
    let es = log_entries(tree, Seq::empty());
    let fl = flatten(tree);
    lemma_log_entries_are_flatten(tree, Seq::empty());
    let ids = es.map_values(|e: LogEntry| e.id);
    if entry_ids(es).contains(id) {
        let k = choose|k: int| 0 <= k < ids.len() && ids[k] == id;
        assert(es[k].id == fl[k].id@);
        assert(forest_has_id(tree, id));
    }
    if forest_has_id(tree, id) {
        let k = choose|k: int| 0 <= k < fl.len() && (#[trigger] fl[k]).id@ == id;
        assert(es[k].id == id);
        assert(ids[k] == id);
        assert(entry_ids(es).contains(id));
        assert forall|j: int| k < j < es.len() implies (#[trigger] es[j]).id != id by {
            assert(es[j].id == fl[j].id@);
        }
        lemma_last_entry_at(es, id, k);
        let c = choose|c: int| 0 <= c < fl.len() && (#[trigger] fl[c]).id@ == id;
        if c != k {
            if c < k {
                assert(fl[c].id@ != fl[k].id@);
            } else {
                assert(fl[k].id@ != fl[c].id@);
            }
        }
    }
}

proof fn lemma_listing_len(set: Set<Seq<char>>)
    requires
        set.finite(),
    ensures
        ascending_listing(set).len() == set.len(),
{
    lemma_ascending_listing_exists(set);
    let s = ascending_listing(set);
    assert(s.no_duplicates()) by {
        assert forall|i: int, j: int| 0 <= i < s.len() && 0 <= j < s.len() && i != j implies s[i]
            != s[j] by {
            if i < j {
                assert(crate::text::seq_lt(s[i], s[j]));
                crate::text::lemma_seq_lt_irreflexive(s[i]);
            } else {
                assert(crate::text::seq_lt(s[j], s[i]));
                crate::text::lemma_seq_lt_irreflexive(s[j]);
            }
        }
    }
    s.unique_seq_to_set();
}

/// When the codificator is saved, the log lists first one added line per id
/// only in the new tree, then one removed line per id only in the old tree,
/// each in increasing id order; and a node is reported as renamed exactly
/// when its own label changed: after those lines, there is one
/// renamed line per id present in both trees whose node's label differs,
/// in increasing id order, and none for an id whose label is the same,
/// whatever happened to the labels of its ancestors.
pub proof fn law_renamed_lines_are_own_label_changes(
    previous: Seq<TaskCategoryNode>,
    next: Seq<TaskCategoryNode>,
    changed_at: Seq<char>,
)
    requires
        tree_ids_distinct(previous),
        tree_ids_distinct(next),
    ensures
        ({
            let out = spec_change_log_lines(previous, next, changed_at);
            let p = Set::new(|id: Seq<char>| forest_has_id(previous, id));
            let n = Set::new(|id: Seq<char>| forest_has_id(next, id));
            let relabelled = Set::new(
                |id: Seq<char>|
                    forest_has_id(previous, id) && forest_has_id(next, id) && tree_label(previous, id)
                        != tree_label(next, id),
            );
            let ts = log_timestamp(changed_at);
            let na = n.difference(p).len() as int;
            let nr = p.difference(n).len() as int;
            &&& out.take(na) == ascending_listing(n.difference(p)).map_values(
                |id: Seq<char>| added_line(ts, last_entry(log_entries(next, Seq::empty()), id)),
            )
            &&& out.subrange(na, na + nr) == ascending_listing(p.difference(n)).map_values(
                |id: Seq<char>| removed_line(ts, last_entry(log_entries(previous, Seq::empty()), id)),
            )
            &&& out.skip(na + nr) == ascending_listing(
                relabelled,
            ).map_values(
                |id: Seq<char>|
                    renamed_line(
                        log_timestamp(changed_at),
                        last_entry(log_entries(previous, Seq::empty()), id),
                        last_entry(log_entries(next, Seq::empty()), id),
                    ),
            )
        }),
{
    broadcast use vstd::seq_lib::seq_to_set_is_finite;

    let ts = log_timestamp(changed_at);
    let pe = log_entries(previous, Seq::empty());
    let ne = log_entries(next, Seq::empty());
    let p = Set::new(|id: Seq<char>| forest_has_id(previous, id));
    let n = Set::new(|id: Seq<char>| forest_has_id(next, id));
    let relabelled = Set::new(
        |id: Seq<char>|
            forest_has_id(previous, id) && forest_has_id(next, id) && tree_label(previous, id)
                != tree_label(next, id),
    );
    assert forall|id: Seq<char>| #[trigger] entry_ids(pe).contains(id) == p.contains(id) by {
        lemma_entries_of_distinct_tree(previous, id);
    }
    assert forall|id: Seq<char>| #[trigger] entry_ids(ne).contains(id) == n.contains(id) by {
        lemma_entries_of_distinct_tree(next, id);
    }
    assert(entry_ids(pe) =~= p);
    assert(entry_ids(ne) =~= n);
    assert forall|id: Seq<char>| #[trigger] relabelled_ids(pe, ne).contains(id) == relabelled.contains(id) by {
        lemma_entries_of_distinct_tree(previous, id);
        lemma_entries_of_distinct_tree(next, id);
    }
    assert(relabelled_ids(pe, ne) =~= relabelled);
    let sa = entry_ids(ne).difference(entry_ids(pe));
    let sr = entry_ids(pe).difference(entry_ids(ne));
    assert(entry_ids(ne).finite());
    assert(entry_ids(pe).finite());
    lemma_listing_len(sa);
    lemma_listing_len(sr);
    let added = ascending_listing(sa).map_values(|id: Seq<char>| added_line(ts, last_entry(ne, id)));
    let removed = ascending_listing(sr).map_values(|id: Seq<char>| removed_line(ts, last_entry(pe, id)));
    let renamed = ascending_listing(relabelled_ids(pe, ne)).map_values(
        |id: Seq<char>| renamed_line(ts, last_entry(pe, id), last_entry(ne, id)),
    );
    let out = spec_change_log_lines(previous, next, changed_at);
    assert(out == added + removed + renamed);
    assert(out.skip((added.len() + removed.len()) as int) =~= renamed);
    assert(out.take(added.len() as int) =~= added);
    assert(out.subrange(added.len() as int, (added.len() + removed.len()) as int) =~= removed);
}

} // verus!
