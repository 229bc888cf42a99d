//! Loading and saving the codificator file and reading its change log:
//! what is checked, what is written, what the log lines are.
use vstd::prelude::*;
use crate::categories::{TaskCategoryNode, forest_visits, first_visit_problem, normalized_forest, normalize_category_tree};
use crate::change_log::{spec_change_log_lines, collect_category_change_log_lines};
use crate::text::{concat2, concat3, strs_view, split_pieces, nonblank_trimmed, split_nonblank_trimmed, trim, lemma_split_after_separator, lemma_split_single, lemma_split_pieces_nonempty, lemma_nonblank_append, lemma_nonblank_keeps};
use crate::validation::tree_result_view;

verus! {

pub open spec fn category_tree_problem(tree: Seq<TaskCategoryNode>) -> Option<Seq<char>> {
    first_visit_problem(forest_visits(tree, 1, "root"@, 0), Set::empty())
}

/// The codificator read from the file at `path`: normalised, or refused
/// with the file named in the message.
pub fn load_task_category_tree(path: &str, parsed: &Vec<TaskCategoryNode>) -> (r: Result<
    Vec<TaskCategoryNode>,
    String,
>)
    ensures
        match r {
            Err(m) => match category_tree_problem(parsed@) {
                Some(e) => m@ == "failed to validate task category file at "@ + path@ + ": "@ + e,
                None => false,
            },
            Ok(out) => category_tree_problem(parsed@) is None && normalized_forest(out@, parsed@),
        },
{
    match normalize_category_tree(parsed) {
        Ok(out) => Ok(out),
        Err(e) => {
            let a = concat3("failed to validate task category file at ", path, ": ");
            Err(concat2(a.as_str(), e.as_str()))
        },
    }
}

/// The change log's entries, newest first: its lines trimmed, blank ones
/// left out, in reverse order.
pub open spec fn spec_change_log_entries(contents: Seq<char>) -> Seq<Seq<char>> {
    nonblank_trimmed(split_pieces(contents, '\n')).reverse()
}

/// The entries of the change log file's contents, newest first.
pub fn load_task_category_change_log(contents: &str) -> (r: Vec<String>)
    ensures
        strs_view(r@) == spec_change_log_entries(contents@),
{
    let lines = split_nonblank_trimmed(contents, '\n');
    let ghost lv = strs_view(lines@);
    let mut out: Vec<String> = Vec::new();
    let mut i: usize = lines.len();
    proof {
        assert(strs_view(out@) =~= lv.skip(i as int).reverse());
    }
    while i > 0
        invariant
            0 <= i <= lines@.len(),
            lv == strs_view(lines@),
            strs_view(out@) == lv.skip(i as int).reverse(),
        decreases i,
    {
        let ghost before = strs_view(out@);
        out.push(lines[i - 1].clone());
        proof {
            assert(lv.skip(i - 1).reverse() =~= lv.skip(i as int).reverse().push(lv[i - 1]));
            assert(strs_view(out@) =~= before.push(lines@[i - 1]@));
        }
        i = i - 1;
    }
    proof {
        assert(lv.skip(0) =~= lv);
    }
    out
}

/// What saving a codificator writes: the normalised tree and the change
/// log lines against the previous tree.
pub struct CategoryTreeSave {
    pub tree: Vec<TaskCategoryNode>,
    pub log_lines: Vec<String>,
}

/// The previous tree, or none when it could not be loaded.
pub open spec fn previous_or_empty(previous: Result<Seq<TaskCategoryNode>, Seq<char>>) -> Seq<TaskCategoryNode> {
    match previous {
        Ok(t) => t,
        Err(_) => Seq::empty(),
    }
}

/// Saving a codificator: the new tree is normalised (or refused with the
/// normalisation error) and compared with the previous one, an empty tree
/// when the previous could not be loaded.
pub fn save_task_category_tree(
    previous: &Result<Vec<TaskCategoryNode>, String>,
    tree: &Vec<TaskCategoryNode>,
    changed_at: &str,
) -> (r: Result<CategoryTreeSave, String>)
    ensures
        match r {
            Err(m) => category_tree_problem(tree@) == Some(m@),
            Ok(save) => {
                &&& category_tree_problem(tree@) is None
                &&& normalized_forest(save.tree@, tree@)
                &&& strs_view(save.log_lines@) == spec_change_log_lines(
                    previous_or_empty(tree_result_view(*previous)),
                    save.tree@,
                    changed_at@,
                )
            },
        },
{
    let empty: Vec<TaskCategoryNode> = Vec::new();
    let previous_tree = match previous {
        Ok(t) => t,
        Err(_) => &empty,
    };
    let normalized = match normalize_category_tree(tree) {
        Ok(t) => t,
        Err(e) => {
            return Err(e);
        },
    };
    let log_lines = collect_category_change_log_lines(previous_tree, &normalized, changed_at);
    Ok(CategoryTreeSave { tree: normalized, log_lines })
}

/// The text appended to the change log: each line followed by a newline.
pub open spec fn spec_log_append_text(lines: Seq<Seq<char>>) -> Seq<char>
    decreases lines.len(),
{
    if lines.len() == 0 {
        Seq::empty()
    } else {
        spec_log_append_text(lines.drop_last()) + lines.last() + "\n"@
    }
}

pub fn change_log_append_text(lines: &Vec<String>) -> (r: String)
    ensures
        r@ == spec_log_append_text(strs_view(lines@)),
{
    let ghost lv = strs_view(lines@);
    let mut r = String::new();
    let mut i: usize = 0;
    proof {
        assert(lv.take(0) =~= Seq::<Seq<char>>::empty());
    }
    while i < lines.len()
        invariant
            0 <= i <= lines@.len(),
            lv == strs_view(lines@),
            r@ == spec_log_append_text(lv.take(i as int)),
        decreases lines@.len() - i,
    {
        proof {
            assert(lv.take(i + 1).drop_last() =~= lv.take(i as int));
            assert(lv.take(i + 1).last() == lines@[i as int]@);
        }
        r = concat3(r.as_str(), lines[i].as_str(), "\n");
        i = i + 1;
    }
    proof {
        assert(lv.take(i as int) =~= lv);
    }
    r
}

/// A line the log can hold on its own: trimmed, not blank, one line.
pub open spec fn log_line_ok(l: Seq<char>) -> bool {
    trim(l) == l && l.len() > 0 && !l.contains('\n')
}

proof fn lemma_append_text_pieces(lines: Seq<Seq<char>>)
    requires
        forall|i: int| 0 <= i < lines.len() ==> log_line_ok(#[trigger] lines[i]),
    ensures
        split_pieces(spec_log_append_text(lines), '\n') == lines.push(Seq::empty()),
        spec_log_append_text(lines).len() == 0 || spec_log_append_text(lines).last() == '\n',
    decreases lines.len(),
{
    reveal_strlit("\n");
    if lines.len() == 0 {
        assert(split_pieces(Seq::<char>::empty(), '\n') =~= seq![Seq::<char>::empty()]);
        assert(lines.push(Seq::<char>::empty()) =~= seq![Seq::<char>::empty()]);
    } else {
        let d = lines.drop_last();
        let l = lines.last();
        assert forall|i: int| 0 <= i < d.len() implies log_line_ok(#[trigger] d[i]) by {
            assert(d[i] == lines[i]);
        }
        lemma_append_text_pieces(d);
        assert(log_line_ok(lines[lines.len() - 1]));
        let x = spec_log_append_text(d);
        let tail = l + "\n"@;
        assert(spec_log_append_text(lines) =~= x + tail);
        lemma_split_after_separator(x, tail, '\n');
        lemma_split_single(l, '\n');
        assert(tail =~= l.push('\n'));
        assert(split_pieces(tail, '\n') =~= seq![l, Seq::<char>::empty()]) by {
            assert(tail.drop_last() =~= l);
        }
        assert(d.push(Seq::<char>::empty()).drop_last() =~= d);
        assert(d + seq![l, Seq::<char>::empty()] =~= lines.push(Seq::<char>::empty()));
    }
}

/// What a read of the log gives back of an append: the appended lines,
/// newest first, then the entries that were there, when the log ended with
/// a complete line (or was empty) and each appended line is trimmed, not
/// blank and one line.
pub proof fn law_change_log_read_after_append(existing: Seq<char>, lines: Seq<Seq<char>>)
    requires
        existing.len() == 0 || existing.last() == '\n',
        forall|i: int| 0 <= i < lines.len() ==> log_line_ok(#[trigger] lines[i]),
    ensures
        spec_change_log_entries(existing + spec_log_append_text(lines)) == lines.reverse()
            + spec_change_log_entries(existing),
{
    lemma_append_text_pieces(lines);
    lemma_split_after_separator(existing, spec_log_append_text(lines), '\n');
    lemma_split_pieces_nonempty(existing, '\n');
    let p = split_pieces(existing, '\n');
    let pd = p.drop_last();
    if existing.len() > 0 {
        assert(existing =~= existing.drop_last().push('\n'));
        lemma_split_pieces_nonempty(existing.drop_last(), '\n');
    }
    assert(p.last() =~= Seq::<char>::empty());
    assert(p =~= pd.push(Seq::<char>::empty()));
    assert(pd + lines.push(Seq::<char>::empty()) =~= (pd + lines) + seq![Seq::<char>::empty()]);
    lemma_nonblank_append(pd + lines, seq![Seq::<char>::empty()]);
    lemma_nonblank_append(pd, lines);
    lemma_nonblank_append(pd, seq![Seq::<char>::empty()]);
    assert(seq![Seq::<char>::empty()].drop_last() =~= Seq::<Seq<char>>::empty());
    assert(trim(Seq::<char>::empty()).len() == 0);
    let e1 = seq![Seq::<char>::empty()];
    assert(e1.last() == Seq::<char>::empty());
    assert(e1.drop_last() =~= Seq::<Seq<char>>::empty());
    assert(nonblank_trimmed(e1.drop_last()) =~= Seq::<Seq<char>>::empty());
    assert(nonblank_trimmed(seq![Seq::<char>::empty()]) =~= Seq::<Seq<char>>::empty());
    assert forall|i: int| 0 <= i < lines.len() implies trim(#[trigger] lines[i]) == lines[i] && lines[i].len() > 0 by {
        assert(log_line_ok(lines[i]));
    }
    lemma_nonblank_keeps(lines);
    let a = nonblank_trimmed(pd);
    assert(pd.push(Seq::<char>::empty()) =~= pd + seq![Seq::<char>::empty()]);
    assert((a + lines).reverse() =~= lines.reverse() + a.reverse());
    assert(a + Seq::<Seq<char>>::empty() =~= a);
}

/// What a load reads back of a save: the tree that a save writes, read
/// again as written, is accepted by the load and comes back unchanged.
pub proof fn law_load_after_save_gives_saved_tree(tree: Seq<TaskCategoryNode>, saved: Seq<TaskCategoryNode>)
    requires
        category_tree_problem(tree) is None,
        normalized_forest(saved, tree),
    ensures
        category_tree_problem(saved) is None,
        normalized_forest(saved, saved),
{
    crate::categories::law_normalize_category_tree_idempotent(tree, saved);
}

} // verus!
