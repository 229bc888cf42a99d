//! Logged tasks: the checks a new task passes before it is stored, and the
//! id a deletion names.
use vstd::prelude::*;
use crate::categories::TaskCategoryNode;
use crate::text::{concat3, i64_to_decimal, int_decimal, trim};
use crate::validation::{
    spec_normalize_non_empty_text, spec_validate_category_id, spec_normalize_iso_date,
    spec_normalize_optional_text, spec_parse_optional_i64_id, iso_date_slicing_panics,
    normalize_non_empty_text, validate_category_id_exists, normalize_iso_date,
    normalize_optional_text, parse_optional_i64_id, option_view, tree_result_view,
};

verus! {

/// A stored task with its project's name.
pub struct TaskRecord {
    pub id: String,
    pub category_id: String,
    pub time_length: i64,
    pub date: String,
    pub note: Option<String>,
    pub project_id: Option<String>,
    pub project_label: Option<String>,
    pub is_project_closing_task: bool,
}

/// A task as the user enters it.
pub struct CreateTaskInput {
    pub category_id: String,
    pub project_id: Option<String>,
    pub task_date: String,
    pub duration_minutes: i64,
    pub is_project_closing_task: bool,
    pub note: Option<String>,
}

/// The values a new task is stored with.
pub struct NewTask {
    pub category_id: String,
    pub time_length: i64,
    pub date: String,
    pub project_id: Option<i64>,
    pub is_project_closing_task: bool,
    pub note: Option<String>,
}

/// The stored values as plain values.
pub struct NewTaskSpec {
    pub category_id: Seq<char>,
    pub time_length: int,
    pub date: Seq<char>,
    pub project_id: Option<int>,
    pub is_project_closing_task: bool,
    pub note: Option<Seq<char>>,
}

pub open spec fn new_task_view(t: NewTask) -> NewTaskSpec {
    NewTaskSpec {
        category_id: t.category_id@,
        time_length: t.time_length as int,
        date: t.date@,
        project_id: match t.project_id {
            Some(p) => Some(p as int),
            None => None,
        },
        is_project_closing_task: t.is_project_closing_task,
        note: option_view(t.note),
    }
}

pub open spec fn negative_duration_message() -> Seq<char> {
    "duration_minutes cannot be negative"@
}

pub open spec fn projectless_closing_message() -> Seq<char> {
    "isProjectClosingTask cannot be true when the task has no selected project"@
}

/// The checks of a new task, in order: its category (non-empty, in the
/// codificator), its date, a non-negative duration, its project id, and
/// that only a task of a project closes it.
pub open spec fn spec_create_task(
    input: CreateTaskInput,
    current_tree: Result<Seq<TaskCategoryNode>, Seq<char>>,
) -> Result<NewTaskSpec, Seq<char>> {
    match spec_normalize_non_empty_text(input.category_id@, "category_id"@) {
        Err(e) => Err(e),
        Ok(category_id) => match spec_validate_category_id(category_id, current_tree) {
            Err(e) => Err(e),
            Ok(()) => match spec_normalize_iso_date(input.task_date@, "task_date"@) {
                Err(e) => Err(e),
                Ok(date) => if input.duration_minutes < 0 {
                    Err(negative_duration_message())
                } else {
                    match spec_parse_optional_i64_id(option_view(input.project_id), "project_id"@) {
                        Err(e) => Err(e),
                        Ok(project_id) => if input.is_project_closing_task && project_id is None {
                            Err(projectless_closing_message())
                        } else {
                            Ok(
                                NewTaskSpec {
                                    category_id,
                                    time_length: input.duration_minutes as int,
                                    date,
                                    project_id,
                                    is_project_closing_task: input.is_project_closing_task,
                                    note: spec_normalize_optional_text(option_view(input.note)),
                                },
                            )
                        },
                    }
                },
            },
        },
    }
}

pub open spec fn new_task_result_view(r: Result<NewTask, String>) -> Result<NewTaskSpec, Seq<char>> {
    match r {
        Ok(t) => Ok(new_task_view(t)),
        Err(e) => Err(e@),
    }
}

/// Checks a new task against the current codificator (the outcome of
/// loading it) and gives the values to store.
pub fn create_task_record(
    input: CreateTaskInput,
    current_tree: &Result<Vec<TaskCategoryNode>, String>,
) -> (r: Result<NewTask, String>)
    requires
        !iso_date_slicing_panics(trim(input.task_date@)),
    ensures
        new_task_result_view(r) == spec_create_task(input, tree_result_view(*current_tree)),
{
    let category_id = match normalize_non_empty_text(input.category_id.as_str(), "category_id") {
        Ok(v) => v,
        Err(e) => {
            return Err(e);
        },
    };
    match validate_category_id_exists(category_id.as_str(), current_tree) {
        Ok(()) => {},
        Err(e) => {
            return Err(e);
        },
    }
    let date = match normalize_iso_date(input.task_date.as_str(), "task_date") {
        Ok(v) => v,
        Err(e) => {
            return Err(e);
        },
    };
    let note = normalize_optional_text(input.note);
    if input.duration_minutes < 0 {
        return Err("duration_minutes cannot be negative".to_owned());
    }
    let project_id = match parse_optional_i64_id(input.project_id, "project_id") {
        Ok(v) => v,
        Err(e) => {
            return Err(e);
        },
    };
    if input.is_project_closing_task && project_id.is_none() {
        return Err("isProjectClosingTask cannot be true when the task has no selected project".to_owned());
    }
    Ok(
        NewTask {
            category_id,
            time_length: input.duration_minutes,
            date,
            project_id,
            is_project_closing_task: input.is_project_closing_task,
            note,
        },
    )
}

/// A required id: absent or blank is refused with `<field> cannot be empty`.
pub open spec fn spec_parse_required_id(raw: Seq<char>, field: Seq<char>) -> Result<int, Seq<char>> {
    match spec_parse_optional_i64_id(Some(raw), field) {
        Err(e) => Err(e),
        Ok(None) => Err(field + " cannot be empty"@),
        Ok(Some(v)) => Ok(v),
    }
}

pub open spec fn int_result_view(r: Result<i64, String>) -> Result<int, Seq<char>> {
    match r {
        Ok(v) => Ok(v as int),
        Err(e) => Err(e@),
    }
}

/// Parses a required integer id.
pub fn parse_required_id(raw: String, field_name: &str) -> (r: Result<i64, String>)
    ensures
        int_result_view(r) == spec_parse_required_id(raw@, field_name@),
{
    match parse_optional_i64_id(Some(raw), field_name) {
        Err(e) => Err(e),
        Ok(None) => Err(crate::text::concat2(field_name, " cannot be empty")),
        Ok(Some(v)) => Ok(v),
    }
}

/// The id of the task to delete.
pub fn delete_task_record(task_id: String) -> (r: Result<i64, String>)
    ensures
        int_result_view(r) == spec_parse_required_id(task_id@, "task_id"@),
{
    parse_required_id(task_id, "task_id")
}

/// A row named by id must have been there: `<what> id <id> does not exist`
/// otherwise.
pub fn ensure_row_existed(what: &str, id: i64, existed: bool) -> (r: Result<(), String>)
    ensures
        existed ==> r is Ok,
        !existed ==> r is Err && r->Err_0@ == what@ + " id "@ + int_decimal(id as int) + " does not exist"@,
{
    if existed {
        return Ok(());
    }
    let digits = i64_to_decimal(id);
    let a = concat3(what, " id ", digits.as_str());
    Err(crate::text::concat2(a.as_str(), " does not exist"))
}

} // verus!
