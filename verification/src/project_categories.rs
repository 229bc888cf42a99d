//! The flat, ordered list of project categories (e.g. book, film): its
//! normalisation, and which categories a save removes or a project row
//! refers to without the category existing.
use vstd::prelude::*;
use crate::sorting::{SortKey, stable_sort, sort_stable, insert_sorted};
use crate::text::{
    trim, trim_str, lowercase, to_lowercase_str, nat_decimal, u64_to_decimal, concat2, concat3,
    strs_view, strs_contain, lemma_trim_idempotent, lemma_strs_push_set,
};
use crate::validation::{spec_normalize_non_empty_text, normalize_non_empty_text, result_view};

verus! {

/// A project category and its place in the list.
#[derive(Clone, Debug)]
pub struct ProjectCategoryNode {
    pub id: String,
    pub label: String,
    pub order: usize,
}

impl SortKey for ProjectCategoryNode {
    open spec fn before(a: Self, b: Self) -> bool {
        a.order < b.order
    }

    proof fn lemma_strict_weak_order(a: Self, b: Self, c: Self) {
    }

    fn precedes(&self, other: &Self) -> (r: bool) {
        self.order < other.order
    }
}

impl ProjectCategoryNode {
    /// A field-by-field copy.
    pub fn duplicate(&self) -> (r: Self)
        ensures
            r == *self,
    {
        ProjectCategoryNode { id: self.id.clone(), label: self.label.clone(), order: self.order }
    }
}

/// What is wrong with the category at `index` of the ordered list, given the
/// ids and lower-cased labels already taken.
pub open spec fn project_category_problem(
    c: ProjectCategoryNode,
    index: nat,
    ids: Set<Seq<char>>,
    label_keys: Set<Seq<char>>,
) -> Option<Seq<char>> {
    if trim(c.id@).len() == 0 {
        Some("project category id cannot be empty at index "@ + nat_decimal(index))
    } else if trim(c.label@).len() == 0 {
        Some("project category label cannot be empty at index "@ + nat_decimal(index))
    } else if ids.contains(trim(c.id@)) {
        Some("duplicate project category id '"@ + trim(c.id@) + "'"@)
    } else if label_keys.contains(lowercase(trim(c.label@))) {
        Some("duplicate project category label '"@ + trim(c.label@) + "'"@)
    } else {
        None
    }
}

/// The first problem along the ordered list starting at `index`.
pub open spec fn first_project_category_problem(
    s: Seq<ProjectCategoryNode>,
    index: nat,
    ids: Set<Seq<char>>,
    label_keys: Set<Seq<char>>,
) -> Option<Seq<char>>
    decreases s.len(),
{
    if s.len() == 0 {
        None
    } else {
        match project_category_problem(s[0], index, ids, label_keys) {
            Some(m) => Some(m),
            None => first_project_category_problem(
                s.drop_first(),
                index + 1,
                ids.insert(trim(s[0].id@)),
                label_keys.insert(lowercase(trim(s[0].label@))),
            ),
        }
    }
}

/// `out` is `ordered` trimmed, with each order replaced by its position.
pub open spec fn project_categories_normalized(
    out: Seq<ProjectCategoryNode>,
    ordered: Seq<ProjectCategoryNode>,
) -> bool {
    &&& out.len() == ordered.len()
    &&& forall|k: int|
        0 <= k < out.len() ==> {
            &&& (#[trigger] out[k]).id@ == trim(ordered[k].id@)
            &&& out[k].label@ == trim(ordered[k].label@)
            &&& out[k].order == k
        }
}

/// Stably sorts by `order`, trims, renumbers from 0, and refuses an empty
/// id or label, a repeated id, or a label repeated up to letter case.
pub fn normalize_project_category_list(categories: &Vec<ProjectCategoryNode>) -> (r: Result<
    Vec<ProjectCategoryNode>,
    String,
>)
    ensures
        match r {
            Err(m) => first_project_category_problem(
                stable_sort(categories@),
                0,
                Set::empty(),
                Set::empty(),
            ) == Some(m@),
            Ok(out) => {
                &&& first_project_category_problem(
                    stable_sort(categories@),
                    0,
                    Set::empty(),
                    Set::empty(),
                ) is None
                &&& project_categories_normalized(out@, stable_sort(categories@))
            },
        },
{
    let mut copy: Vec<ProjectCategoryNode> = Vec::new();
    let mut j: usize = 0;
    while j < categories.len()
        invariant
            0 <= j <= categories@.len(),
            copy@ == categories@.take(j as int),
        decreases categories@.len() - j,
    {
        copy.push(categories[j].duplicate());
        proof {
            assert(categories@.take(j + 1) =~= categories@.take(j as int).push(categories@[j as int]));
        }
        j = j + 1;
    }
    proof {
        assert(categories@.take(j as int) =~= categories@);
    }
    let ordered = sort_stable(copy);
    let ghost o = ordered@;
    let mut ids: Vec<String> = Vec::new();
    let mut keys: Vec<String> = Vec::new();
    let mut out: Vec<ProjectCategoryNode> = Vec::new();
    let mut i: usize = 0;
    proof {
        assert(o.skip(0) =~= o);
        assert(strs_view(ids@).to_set() =~= Set::<Seq<char>>::empty());
        assert(strs_view(keys@).to_set() =~= Set::<Seq<char>>::empty());
    }
    while i < ordered.len()
        invariant
            0 <= i <= o.len(),
            o == ordered@,
            o == stable_sort(categories@),
            first_project_category_problem(o, 0, Set::empty(), Set::empty())
                == first_project_category_problem(
                o.skip(i as int),
                i as nat,
                strs_view(ids@).to_set(),
                strs_view(keys@).to_set(),
            ),
            out@.len() == i,
            forall|k: int|
                0 <= k < i ==> {
                    &&& (#[trigger] out@[k]).id@ == trim(o[k].id@)
                    &&& out@[k].label@ == trim(o[k].label@)
                    &&& out@[k].order == k
                },
        decreases o.len() - i,
    {
        let c = &ordered[i];
        let ghost ids_set = strs_view(ids@).to_set();
        let ghost keys_set = strs_view(keys@).to_set();
        proof {
            assert(o.skip(i as int)[0] == o[i as int]);
            assert(o.skip(i as int).drop_first() =~= o.skip(i + 1));
        }
        let normalized_id = trim_str(c.id.as_str());
        let normalized_label = trim_str(c.label.as_str());
        if normalized_id.unicode_len() == 0 {
            let digits = u64_to_decimal(i as u64);
            return Err(concat2("project category id cannot be empty at index ", digits.as_str()));
        }
        if normalized_label.unicode_len() == 0 {
            let digits = u64_to_decimal(i as u64);
            return Err(
                concat2("project category label cannot be empty at index ", digits.as_str()),
            );
        }
        if strs_contain(&ids, normalized_id.as_str()) {
            return Err(concat3("duplicate project category id '", normalized_id.as_str(), "'"));
        }
        let label_key = to_lowercase_str(normalized_label.as_str());
        if strs_contain(&keys, label_key.as_str()) {
            return Err(
                concat3("duplicate project category label '", normalized_label.as_str(), "'"),
            );
        }
        let ghost ids_before = ids@;
        let ghost keys_before = keys@;
        ids.push(normalized_id.clone());
        proof {
            lemma_strs_push_set(ids_before, normalized_id);
            lemma_strs_push_set(keys_before, label_key);
        }
        keys.push(label_key);
        out.push(ProjectCategoryNode { id: normalized_id, label: normalized_label, order: i });
        i = i + 1;
    }
    Ok(out)
}

pub open spec fn category_ids(s: Seq<ProjectCategoryNode>) -> Seq<Seq<char>> {
    s.map_values(|c: ProjectCategoryNode| c.id@)
}

/// `"failed to validate project category list at {path}: {error}"`.
pub open spec fn invalid_list_message(path: Seq<char>, error: Seq<char>) -> Seq<char> {
    "failed to validate project category list at "@ + path + ": "@ + error
}

/// The checking half of loading the project category list: the parsed
/// file contents normalised, an error naming the file at `path`.
pub fn load_project_category_list(path: &str, parsed: &Vec<ProjectCategoryNode>) -> (r: Result<
    Vec<ProjectCategoryNode>,
    String,
>)
    ensures
        match r {
            Err(m) => match first_project_category_problem(
                stable_sort(parsed@),
                0,
                Set::empty(),
                Set::empty(),
            ) {
                Some(e) => m@ == invalid_list_message(path@, e),
                None => false,
            },
            Ok(out) => {
                &&& first_project_category_problem(
                    stable_sort(parsed@),
                    0,
                    Set::empty(),
                    Set::empty(),
                ) is None
                &&& project_categories_normalized(out@, stable_sort(parsed@))
            },
        },
{
    match normalize_project_category_list(parsed) {
        Ok(out) => Ok(out),
        Err(e) => {
            let m = concat3("failed to validate project category list at ", path, ": ");
            Err(concat2(m.as_str(), e.as_str()))
        },
    }
}

/// What a save of the project category list does: the normalised list to
/// write, and the ids of the previous list (in its order) that the new one
/// drops, whose projects lose their category.
pub struct ProjectCategorySave {
    pub categories: Vec<ProjectCategoryNode>,
    pub removed_ids: Vec<String>,
}

/// The previous ids that the next list no longer holds, in previous order.
pub open spec fn removed_category_ids(
    previous: Seq<ProjectCategoryNode>,
    next: Seq<ProjectCategoryNode>,
) -> Seq<Seq<char>> {
    category_ids(previous).filter(|id: Seq<char>| !category_ids(next).contains(id))
}

fn copy_ids(s: &Vec<ProjectCategoryNode>) -> (r: Vec<String>)
    ensures
        strs_view(r@) == category_ids(s@),
{
    let mut r: Vec<String> = Vec::new();
    let mut i: usize = 0;
    while i < s.len()
        invariant
            0 <= i <= s@.len(),
            strs_view(r@) == category_ids(s@.take(i as int)),
        decreases s@.len() - i,
    {
        r.push(s[i].id.clone());
        proof {
            assert(category_ids(s@.take(i + 1)) =~= category_ids(s@.take(i as int)).push(s@[i as int].id@));
            assert(strs_view(r@) =~= strs_view(r@.drop_last()).push(r@.last()@));
        }
        i = i + 1;
    }
    proof {
        assert(s@.take(i as int) =~= s@);
    }
    r
}

/// Keeps the ids of `ids` that `excluded` does not hold, in order.
fn ids_not_in(ids: &Vec<String>, excluded: &Vec<String>) -> (r: Vec<String>)
    ensures
        strs_view(r@) == strs_view(ids@).filter(|id: Seq<char>| !strs_view(excluded@).contains(id)),
{
    let ghost pred = |id: Seq<char>| !strs_view(excluded@).contains(id);
    let mut r: Vec<String> = Vec::new();
    let mut i: usize = 0;
    proof {
        assert(strs_view(ids@).take(0) =~= Seq::<Seq<char>>::empty());
        reveal(Seq::filter);
        assert(Seq::<Seq<char>>::empty().filter(pred) =~= Seq::<Seq<char>>::empty());
    }
    while i < ids.len()
        invariant
            0 <= i <= ids@.len(),
            pred == (|id: Seq<char>| !strs_view(excluded@).contains(id)),
            strs_view(r@) == strs_view(ids@).take(i as int).filter(pred),
        decreases ids@.len() - i,
    {
        let id = &ids[i];
        proof {
            assert(strs_view(ids@).take(i + 1) =~= strs_view(ids@).take(i as int).push(id@));
            strs_view(ids@).take(i as int).lemma_filter_push(id@, pred);
        }
        if !strs_contain(excluded, id.as_str()) {
            r.push(id.clone());
            proof {
                assert(strs_view(r@) =~= strs_view(r@.drop_last()).push(id@));
            }
        }
        i = i + 1;
    }
    proof {
        assert(strs_view(ids@).take(i as int) =~= strs_view(ids@));
    }
    r
}

/// The checking half of saving the project category list: the new list is
/// normalised (its error passed on as is), and the ids of `previous` that it
/// drops are listed.
pub fn save_project_category_list(
    previous: &Vec<ProjectCategoryNode>,
    categories: &Vec<ProjectCategoryNode>,
) -> (r: Result<ProjectCategorySave, String>)
    ensures
        match r {
            Err(m) => first_project_category_problem(
                stable_sort(categories@),
                0,
                Set::empty(),
                Set::empty(),
            ) == Some(m@),
            Ok(plan) => {
                &&& first_project_category_problem(
                    stable_sort(categories@),
                    0,
                    Set::empty(),
                    Set::empty(),
                ) is None
                &&& project_categories_normalized(plan.categories@, stable_sort(categories@))
                &&& strs_view(plan.removed_ids@) == removed_category_ids(
                    previous@,
                    plan.categories@,
                )
            },
        },
{
    let normalized = match normalize_project_category_list(categories) {
        Ok(n) => n,
        Err(e) => {
            return Err(e);
        },
    };
    let previous_ids = copy_ids(previous);
    let next_ids = copy_ids(&normalized);
    let removed_ids = ids_not_in(&previous_ids, &next_ids);
    Ok(ProjectCategorySave { categories: normalized, removed_ids })
}

/// Category ids that project rows use but the list does not define; those
/// rows lose their category.
pub fn stale_project_category_ids(
    categories: &Vec<ProjectCategoryNode>,
    used_ids: &Vec<String>,
) -> (r: Vec<String>)
    ensures
        strs_view(r@) == strs_view(used_ids@).filter(
            |id: Seq<char>| !category_ids(categories@).contains(id),
        ),
{
    let known = copy_ids(categories);
    ids_not_in(used_ids, &known)
}

pub open spec fn unknown_project_category_message(id: Seq<char>) -> Seq<char> {
    "project_category_id '"@ + id + "' does not exist"@
}

/// `validate_project_category_id_exists`: the trimmed id must be non-empty
/// and name a category of the list, whose loading outcome is `current`.
pub open spec fn spec_validate_project_category_id(
    category_id: Seq<char>,
    current: Result<Seq<ProjectCategoryNode>, Seq<char>>,
) -> Result<(), Seq<char>> {
    match spec_normalize_non_empty_text(category_id, "project_category_id"@) {
        Err(e) => Err(e),
        Ok(id) => match current {
            Err(e) => Err(e),
            Ok(list) => if category_ids(list).contains(id) {
                Ok(())
            } else {
                Err(unknown_project_category_message(id))
            },
        },
    }
}

pub open spec fn list_result_view(r: Result<Vec<ProjectCategoryNode>, String>) -> Result<
    Seq<ProjectCategoryNode>,
    Seq<char>,
> {
    match r {
        Ok(v) => Ok(v@),
        Err(e) => Err(e@),
    }
}

pub fn validate_project_category_id_exists(
    category_id: &str,
    current: &Result<Vec<ProjectCategoryNode>, String>,
) -> (r: Result<(), String>)
    ensures
        crate::validation::unit_result_view(r) == spec_validate_project_category_id(
            category_id@,
            list_result_view(*current),
        ),
{
    let normalized = match normalize_non_empty_text(category_id, "project_category_id") {
        Ok(v) => v,
        Err(e) => {
            return Err(e);
        },
    };
    let list = match current {
        Ok(list) => list,
        Err(e) => {
            return Err(e.clone());
        },
    };
    let ids = copy_ids(list);
    if strs_contain(&ids, normalized.as_str()) {
        return Ok(());
    }
    Err(concat3("project_category_id '", normalized.as_str(), "' does not exist"))
}

proof fn lemma_sorted_distinct_orders_stable(s: Seq<ProjectCategoryNode>)
    requires
        forall|k: int| 0 <= k < s.len() ==> (#[trigger] s[k]).order == k,
    ensures
        stable_sort(s) == s,
    decreases s.len(),
{
    if s.len() > 0 {
        let d = s.drop_last();
        assert forall|k: int| 0 <= k < d.len() implies (#[trigger] d[k]).order == k by {
            assert(d[k] == s[k]);
        }
        lemma_sorted_distinct_orders_stable(d);
        if d.len() > 0 {
            assert(d.last().order == d.len() - 1);
            assert(s.last().order == s.len() - 1);
        }
        assert(d.push(s.last()) =~= s);
    }
}

proof fn lemma_same_problems(
    a: Seq<ProjectCategoryNode>,
    b: Seq<ProjectCategoryNode>,
    index: nat,
    ids: Set<Seq<char>>,
    keys: Set<Seq<char>>,
)
    requires
        a.len() == b.len(),
        forall|k: int|
            0 <= k < a.len() ==> trim((#[trigger] a[k]).id@) == trim(b[k].id@) && trim(a[k].label@)
                == trim(b[k].label@),
    ensures
        first_project_category_problem(a, index, ids, keys) == first_project_category_problem(
            b,
            index,
            ids,
            keys,
        ),
    decreases a.len(),
{
    if a.len() > 0 {
        assert(trim(a[0].id@) == trim(b[0].id@));
        let a2 = a.drop_first();
        let b2 = b.drop_first();
        assert forall|k: int| 0 <= k < a2.len() implies trim((#[trigger] a2[k]).id@) == trim(
            b2[k].id@,
        ) && trim(a2[k].label@) == trim(b2[k].label@) by {
            assert(a2[k] == a[k + 1]);
            assert(b2[k] == b[k + 1]);
        }
        lemma_same_problems(
            a2,
            b2,
            index + 1,
            ids.insert(trim(a[0].id@)),
            keys.insert(lowercase(trim(a[0].label@))),
        );
    }
}

/// Normalising an already normalised list accepts it and gives it back.
pub proof fn law_project_category_normalization_idempotent(
    categories: Seq<ProjectCategoryNode>,
    out: Seq<ProjectCategoryNode>,
)
    requires
        first_project_category_problem(stable_sort(categories), 0, Set::empty(), Set::empty())
            is None,
        project_categories_normalized(out, stable_sort(categories)),
    ensures
        stable_sort(out) == out,
        first_project_category_problem(stable_sort(out), 0, Set::empty(), Set::empty()) is None,
        project_categories_normalized(out, stable_sort(out)),
{
    let o = stable_sort(categories);
    lemma_sorted_distinct_orders_stable(out);
    assert forall|k: int| 0 <= k < out.len() implies trim((#[trigger] out[k]).id@) == trim(
        o[k].id@,
    ) && trim(out[k].label@) == trim(o[k].label@) by {
        lemma_trim_idempotent(o[k].id@);
        lemma_trim_idempotent(o[k].label@);
    }
    lemma_same_problems(out, o, 0, Set::empty(), Set::empty());
    assert forall|k: int| 0 <= k < out.len() implies {
        &&& (#[trigger] out[k]).id@ == trim(out[k].id@)
        &&& out[k].label@ == trim(out[k].label@)
        &&& out[k].order == k
    } by {
        lemma_trim_idempotent(o[k].id@);
        lemma_trim_idempotent(o[k].label@);
    }
}

/// What a load reads back of a save: the list that a save writes, read again
/// as written, is accepted by the load and normalises to itself, in the same
/// order.
pub proof fn law_load_after_save_gives_saved_list(
    categories: Seq<ProjectCategoryNode>,
    saved: Seq<ProjectCategoryNode>,
)
    requires
        first_project_category_problem(stable_sort(categories), 0, Set::empty(), Set::empty())
            is None,
        project_categories_normalized(saved, stable_sort(categories)),
    ensures
        first_project_category_problem(stable_sort(saved), 0, Set::empty(), Set::empty()) is None,
        project_categories_normalized(saved, stable_sort(saved)),
        stable_sort(saved) == saved,
{
    law_project_category_normalization_idempotent(categories, saved);
}

/// The project categories a new bundle starts with: book, then film.
pub fn default_project_category_list() -> (r: Vec<ProjectCategoryNode>)
    ensures
        r@.len() == 2,
        r@[0].id@ == "book"@,
        r@[0].label@ == "Книга"@,
        r@[0].order == 0,
        r@[1].id@ == "film"@,
        r@[1].label@ == "Фильм"@,
        r@[1].order == 1,
{
    vec![
        ProjectCategoryNode { id: "book".to_owned(), label: "Книга".to_owned(), order: 0 },
        ProjectCategoryNode { id: "film".to_owned(), label: "Фильм".to_owned(), order: 1 },
    ]
}

proof fn lemma_no_project_category_problem_facts(
    s: Seq<ProjectCategoryNode>,
    index: nat,
    ids: Set<Seq<char>>,
    keys: Set<Seq<char>>,
)
    requires
        first_project_category_problem(s, index, ids, keys) is None,
    ensures
        forall|k: int|
            0 <= k < s.len() ==> {
                &&& trim((#[trigger] s[k]).id@).len() > 0
                &&& trim(s[k].label@).len() > 0
                &&& !ids.contains(trim(s[k].id@))
                &&& !keys.contains(lowercase(trim(s[k].label@)))
            },
        forall|i: int, j: int|
            0 <= i < j < s.len() ==> trim((#[trigger] s[i]).id@) != trim((#[trigger] s[j]).id@)
                && lowercase(trim(s[i].label@)) != lowercase(trim(s[j].label@)),
    decreases s.len(),
{
    if s.len() > 0 {
        let ids2 = ids.insert(trim(s[0].id@));
        let keys2 = keys.insert(lowercase(trim(s[0].label@)));
        let t = s.drop_first();
        lemma_no_project_category_problem_facts(t, index + 1, ids2, keys2);
        assert forall|k: int| 0 <= k < s.len() implies {
            &&& trim((#[trigger] s[k]).id@).len() > 0
            &&& trim(s[k].label@).len() > 0
            &&& !ids.contains(trim(s[k].id@))
            &&& !keys.contains(lowercase(trim(s[k].label@)))
        } by {
            if k > 0 {
                assert(s[k] == t[k - 1]);
            }
        }
        assert forall|i: int, j: int| 0 <= i < j < s.len() implies trim((#[trigger] s[i]).id@) != trim(
            (#[trigger] s[j]).id@,
        ) && lowercase(trim(s[i].label@)) != lowercase(trim(s[j].label@)) by {
            assert(s[j] == t[j - 1]);
            if i > 0 {
                assert(s[i] == t[i - 1]);
            }
        }
    }
}

/// An accepted project category list has trimmed, non-empty ids and labels,
/// no id twice, and no two labels that are equal once lower-cased.
pub proof fn law_accepted_project_categories_are_distinct(
    categories: Seq<ProjectCategoryNode>,
    out: Seq<ProjectCategoryNode>,
)
    requires
        first_project_category_problem(stable_sort(categories), 0, Set::empty(), Set::empty())
            is None,
        project_categories_normalized(out, stable_sort(categories)),
    ensures
        forall|k: int|
            0 <= k < out.len() ==> {
                &&& (#[trigger] out[k]).id@.len() > 0
                &&& out[k].label@.len() > 0
                &&& out[k].id@ == trim(out[k].id@)
                &&& out[k].label@ == trim(out[k].label@)
            },
        forall|i: int, j: int|
            0 <= i < j < out.len() ==> (#[trigger] out[i]).id@ != (#[trigger] out[j]).id@
                && lowercase(out[i].label@) != lowercase(out[j].label@),
{
    let o = stable_sort(categories);
    lemma_no_project_category_problem_facts(o, 0, Set::empty(), Set::empty());
    assert forall|k: int| 0 <= k < out.len() implies {
        &&& (#[trigger] out[k]).id@.len() > 0
        &&& out[k].label@.len() > 0
        &&& out[k].id@ == trim(out[k].id@)
        &&& out[k].label@ == trim(out[k].label@)
    } by {
        lemma_trim_idempotent(o[k].id@);
        lemma_trim_idempotent(o[k].label@);
    }
    assert forall|i: int, j: int| 0 <= i < j < out.len() implies (#[trigger] out[i]).id@ != (
    #[trigger] out[j]).id@ && lowercase(out[i].label@) != lowercase(out[j].label@) by {
        assert(out[i].label@ == trim(o[i].label@));
        assert(out[j].label@ == trim(o[j].label@));
    }
}

} // verus!
