//! Projects: the checks of a new project, of a category change, and the
//! decisions of closing a project; the task ids a project lists.
use vstd::prelude::*;
use crate::project_categories::{
    ProjectCategoryNode, spec_validate_project_category_id, list_result_view,
    validate_project_category_id_exists,
};
use crate::tasks::{spec_parse_required_id, int_result_view, parse_required_id};
use crate::text::{concat2, concat3, trim, trim_str, char_to_string, split_pieces, nonblank_trimmed};
use crate::validation::{
    spec_normalize_non_empty_text, spec_normalize_optional_text, normalize_non_empty_text,
    normalize_optional_text, option_view,
};

verus! {

/// A project with its time, its days and the ids of its tasks.
pub struct TaskProjectNode {
    pub id: String,
    pub label: String,
    pub project_category_id: Option<String>,
    pub sum_time_length: i64,
    pub start_date: Option<String>,
    pub end_date: Option<String>,
    pub is_done: bool,
    pub tasks: Vec<String>,
}

/// A project as the user enters it.
pub struct CreateTaskProjectInput {
    pub label: String,
    pub project_category_id: Option<String>,
}

/// The optional category of a project, checked against the list when given.
pub open spec fn spec_optional_project_category(
    raw: Option<Seq<char>>,
    current: Result<Seq<ProjectCategoryNode>, Seq<char>>,
) -> Result<Option<Seq<char>>, Seq<char>> {
    match spec_normalize_optional_text(raw) {
        None => Ok(None),
        Some(id) => match spec_validate_project_category_id(id, current) {
            Err(e) => Err(e),
            Ok(()) => Ok(Some(id)),
        },
    }
}

pub open spec fn opt_result_view(r: Result<Option<String>, String>) -> Result<Option<Seq<char>>, Seq<char>> {
    match r {
        Ok(o) => Ok(option_view(o)),
        Err(e) => Err(e@),
    }
}

fn optional_project_category(
    raw: Option<String>,
    current: &Result<Vec<ProjectCategoryNode>, String>,
) -> (r: Result<Option<String>, String>)
    ensures
        opt_result_view(r) == spec_optional_project_category(option_view(raw), list_result_view(*current)),
{
    let normalized = normalize_optional_text(raw);
    match normalized {
        None => Ok(None),
        Some(id) => match validate_project_category_id_exists(id.as_str(), current) {
            Err(e) => Err(e),
            Ok(()) => Ok(Some(id)),
        },
    }
}

/// A new project: a non-empty name and an optional known category.
pub open spec fn spec_add_task_project(
    input: CreateTaskProjectInput,
    current: Result<Seq<ProjectCategoryNode>, Seq<char>>,
) -> Result<(Seq<char>, Option<Seq<char>>), Seq<char>> {
    match spec_normalize_non_empty_text(input.label@, "project name"@) {
        Err(e) => Err(e),
        Ok(label) => match spec_optional_project_category(option_view(input.project_category_id), current) {
            Err(e) => Err(e),
            Ok(c) => Ok((label, c)),
        },
    }
}

pub open spec fn new_project_view(r: Result<(String, Option<String>), String>) -> Result<
    (Seq<char>, Option<Seq<char>>),
    Seq<char>,
> {
    match r {
        Ok(v) => Ok((v.0@, option_view(v.1))),
        Err(e) => Err(e@),
    }
}

/// Checks a new project against the project categories (the outcome of
/// loading them) and gives its name and category.
pub fn add_task_project(
    input: CreateTaskProjectInput,
    current: &Result<Vec<ProjectCategoryNode>, String>,
) -> (r: Result<(String, Option<String>), String>)
    ensures
        new_project_view(r) == spec_add_task_project(input, list_result_view(*current)),
{
    let label = match normalize_non_empty_text(input.label.as_str(), "project name") {
        Ok(v) => v,
        Err(e) => {
            return Err(e);
        },
    };
    match optional_project_category(input.project_category_id, current) {
        Err(e) => Err(e),
        Ok(c) => Ok((label, c)),
    }
}

/// A project name must not be taken already.
pub fn reject_duplicate_project(label: &str, existing_id: Option<i64>) -> (r: Result<(), String>)
    ensures
        existing_id is None ==> r is Ok,
        existing_id is Some ==> r is Err && r->Err_0@ == "project '"@ + label@ + "' already exists"@,
{
    match existing_id {
        Some(_) => Err(concat3("project '", label, "' already exists")),
        None => Ok(()),
    }
}

/// A category change: the project's id and its new optional category.
pub open spec fn spec_set_task_project_category(
    project_id: Seq<char>,
    category: Option<Seq<char>>,
    current: Result<Seq<ProjectCategoryNode>, Seq<char>>,
) -> Result<(int, Option<Seq<char>>), Seq<char>> {
    match spec_parse_required_id(project_id, "project_id"@) {
        Err(e) => Err(e),
        Ok(id) => match spec_optional_project_category(category, current) {
            Err(e) => Err(e),
            Ok(c) => Ok((id, c)),
        },
    }
}

pub open spec fn category_change_view(r: Result<(i64, Option<String>), String>) -> Result<
    (int, Option<Seq<char>>),
    Seq<char>,
> {
    match r {
        Ok(v) => Ok((v.0 as int, option_view(v.1))),
        Err(e) => Err(e@),
    }
}

pub fn set_task_project_category(
    project_id: String,
    project_category_id: Option<String>,
    current: &Result<Vec<ProjectCategoryNode>, String>,
) -> (r: Result<(i64, Option<String>), String>)
    ensures
        category_change_view(r) == spec_set_task_project_category(
            project_id@,
            option_view(project_category_id),
            list_result_view(*current),
        ),
{
    let id = match parse_required_id(project_id, "project_id") {
        Ok(v) => v,
        Err(e) => {
            return Err(e);
        },
    };
    match optional_project_category(project_category_id, current) {
        Err(e) => Err(e),
        Ok(c) => Ok((id, c)),
    }
}

/// The id of the project to delete.
pub fn delete_task_project(project_id: String) -> (r: Result<i64, String>)
    ensures
        int_result_view(r) == spec_parse_required_id(project_id@, "project_id"@),
{
    parse_required_id(project_id, "project_id")
}

/// The id of the project to reopen.
pub fn reopen_task_project(project_id: String) -> (r: Result<i64, String>)
    ensures
        int_result_view(r) == spec_parse_required_id(project_id@, "project_id"@),
{
    parse_required_id(project_id, "project_id")
}

/// The id of the project to close.
pub fn close_task_project(project_id: String) -> (r: Result<i64, String>)
    ensures
        int_result_view(r) == spec_parse_required_id(project_id@, "project_id"@),
{
    parse_required_id(project_id, "project_id")
}

/// How a project is closed.
#[derive(PartialEq, Eq, Structural, Clone, Copy, Debug)]
pub enum CloseProjectAction {
    /// The carried task id, the newest of the project, closes it; every
    /// other task of the project stops closing it.
    MarkClosingTask(i64),
    /// The project has no task: mark the project itself done.
    MarkProjectDone,
}

/// Closing an existing project marks its latest task as closing, or the
/// project done when it has none; a missing project is refused.
pub fn close_project_action(project_id: i64, exists: bool, latest_task_id: Option<i64>) -> (r: Result<
    CloseProjectAction,
    String,
>)
    ensures
        !exists ==> r is Err && r->Err_0@ == "project id "@ + crate::text::int_decimal(project_id as int)
            + " does not exist"@,
        exists ==> r == Ok::<CloseProjectAction, String>(
            match latest_task_id {
                Some(t) => CloseProjectAction::MarkClosingTask(t),
                None => CloseProjectAction::MarkProjectDone,
            },
        ),
{
    proof {
        reveal_strlit("project");
        reveal_strlit(" id ");
        reveal_strlit("project id ");
        assert("project"@ + " id "@ =~= "project id "@);
    }
    match crate::tasks::ensure_row_existed("project", project_id, exists) {
        Err(e) => Err(e),
        Ok(()) => match latest_task_id {
            Some(t) => Ok(CloseProjectAction::MarkClosingTask(t)),
            None => Ok(CloseProjectAction::MarkProjectDone),
        },
    }
}

/// The task ids of a comma-separated list.
pub open spec fn spec_task_ids(csv: Seq<char>) -> Seq<Seq<char>> {
    if trim(csv).len() == 0 {
        Seq::empty()
    } else {
        nonblank_trimmed(split_pieces(csv, ','))
    }
}

/// The task ids of a project's comma-separated list of them.
pub fn split_task_ids(csv: &str) -> (r: Vec<String>)
    ensures
        crate::text::strs_view(r@) == spec_task_ids(csv@),
{
    let whole = trim_str(csv);
    if whole.as_str().is_empty() {
        let r: Vec<String> = Vec::new();
        proof {
            assert(crate::text::strs_view(r@) =~= Seq::<Seq<char>>::empty());
        }
        return r;
    }
    crate::text::split_nonblank_trimmed(csv, ',')
}

} // verus!
