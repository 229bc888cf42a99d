use system_i2::categories::TaskCategoryNode;
use system_i2::project_categories::ProjectCategoryNode;
use system_i2::projects::{
    add_task_project, close_project_action, delete_task_project, reject_duplicate_project, set_task_project_category,
    split_task_ids, CloseProjectAction, CreateTaskProjectInput,
};
use system_i2::tasks::{create_task_record, delete_task_record, ensure_row_existed, CreateTaskInput};

fn tree() -> Result<Vec<TaskCategoryNode>, String> {
    Ok(vec![TaskCategoryNode { id: "logic".to_string(), label: "Логика".to_string(), children: None }])
}

fn list() -> Result<Vec<ProjectCategoryNode>, String> {
    Ok(vec![ProjectCategoryNode { id: "book".to_string(), label: "Книги".to_string(), order: 0 }])
}

fn input() -> CreateTaskInput {
    CreateTaskInput {
        category_id: " logic ".to_string(),
        project_id: Some(" 5 ".to_string()),
        task_date: "2026-03-13".to_string(),
        duration_minutes: 30,
        is_project_closing_task: true,
        note: Some("  ".to_string()),
    }
}

#[test]
fn accepts_valid_task_with_normalized_values() {
    let task = create_task_record(input(), &tree()).ok().unwrap();
    assert_eq!(task.category_id, "logic");
    assert_eq!(task.project_id, Some(5));
    assert_eq!(task.note, None);
    assert_eq!(task.date, "2026-03-13");
}

#[test]
fn rejects_closing_task_without_selected_project() {
    let mut i = input();
    i.project_id = None;
    assert_eq!(
        create_task_record(i, &tree()).err().unwrap(),
        "isProjectClosingTask cannot be true when the task has no selected project"
    );
}

#[test]
fn rejects_negative_durations_unknown_categories_and_bad_dates() {
    let mut i = input();
    i.duration_minutes = -1;
    assert_eq!(create_task_record(i, &tree()).err().unwrap(), "duration_minutes cannot be negative");
    let mut i = input();
    i.category_id = "ghost".to_string();
    assert!(create_task_record(i, &tree()).err().unwrap().contains("does not exist in the current codificator"));
    let mut i = input();
    i.task_date = "2026-02-30".to_string();
    assert!(create_task_record(i, &tree()).err().unwrap().contains("valid calendar date"));
}

#[test]
fn deletion_ids_are_required() {
    assert_eq!(delete_task_record(" 12 ".to_string()).unwrap(), 12);
    assert_eq!(delete_task_record("  ".to_string()).unwrap_err(), "task_id cannot be empty");
    assert_eq!(delete_task_project("".to_string()).unwrap_err(), "project_id cannot be empty");
    assert_eq!(ensure_row_existed("task", 7, false).unwrap_err(), "task id 7 does not exist");
}

#[test]
fn checks_new_projects_and_category_changes() {
    let (label, category) = add_task_project(
        CreateTaskProjectInput { label: "  Диплом ".to_string(), project_category_id: Some(" book ".to_string()) },
        &list(),
    )
    .unwrap();
    assert_eq!(label, "Диплом");
    assert_eq!(category.as_deref(), Some("book"));
    assert_eq!(
        add_task_project(CreateTaskProjectInput { label: " ".to_string(), project_category_id: None }, &list()).unwrap_err(),
        "project name cannot be empty"
    );
    assert_eq!(
        set_task_project_category("3".to_string(), Some("film".to_string()), &list()).unwrap_err(),
        "project_category_id 'film' does not exist"
    );
    assert_eq!(set_task_project_category("3".to_string(), Some("  ".to_string()), &list()).unwrap(), (3, None));
    assert_eq!(reject_duplicate_project("Диплом", Some(1)).unwrap_err(), "project 'Диплом' already exists");
}

#[test]
fn closes_projects_by_their_latest_task() {
    assert_eq!(close_project_action(4, true, Some(10)).unwrap(), CloseProjectAction::MarkClosingTask(10));
    assert_eq!(close_project_action(4, true, None).unwrap(), CloseProjectAction::MarkProjectDone);
    assert_eq!(close_project_action(4, false, None).unwrap_err(), "project id 4 does not exist");
}

#[test]
fn splits_project_task_lists() {
    assert_eq!(split_task_ids(" 3, 5 ,,7 "), vec!["3".to_string(), "5".to_string(), "7".to_string()]);
    assert!(split_task_ids("  ").is_empty());
    assert_eq!(split_task_ids("9"), vec!["9".to_string()]);
}
