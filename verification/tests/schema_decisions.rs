use system_i2::text::str_eq_ignore_ascii_case;
use system_i2::schema::{
    expected_projects_columns, expected_tasks_columns, find_task_project_fk, legacy_table_step,
    projects_backup_is_restorable, projects_table_needs_project_category_column,
    projects_table_needs_task_category_removal, same_columns,
    tasks_table_needs_fk_rebuild, tasks_table_needs_note_column, ForeignKeyRow,
};

fn cols(names: &[&str]) -> Vec<String> {
    names.iter().map(|n| n.to_string()).collect()
}

fn fk(target: &str, from: &str, on_delete: &str) -> ForeignKeyRow {
    ForeignKeyRow {
        target_table: target.to_string(),
        from_column: from.to_string(),
        on_delete: on_delete.to_string(),
    }
}

#[test]
fn expected_layouts_list_the_current_columns() {
    assert_eq!(
        expected_projects_columns(),
        cols(&["id", "name", "sum_time_length", "start_date", "end_date", "is_done", "project_category_id"])
    );
    assert_eq!(
        expected_tasks_columns(),
        cols(&["id", "category_id", "time_length", "date", "project_id", "is_project_closing_task", "note"])
    );
}

#[test]
fn column_lists_compare_by_name_and_order() {
    assert!(same_columns(&cols(&["a", "b"]), &cols(&["a", "b"])));
    assert!(!same_columns(&cols(&["b", "a"]), &cols(&["a", "b"])));
    assert!(!same_columns(&cols(&["a"]), &cols(&["a", "b"])));
    assert!(same_columns(&cols(&[]), &cols(&[])));
}

#[test]
fn tasks_without_note_get_the_column_added() {
    let before = cols(&["id", "category_id", "time_length", "date", "project_id", "is_project_closing_task"]);
    assert!(tasks_table_needs_note_column(true, &before));
    assert!(!tasks_table_needs_note_column(false, &before));
    assert!(!tasks_table_needs_note_column(true, &expected_tasks_columns()));
    assert!(!tasks_table_needs_note_column(true, &cols(&["id", "minutes"])));
}

#[test]
fn projects_owned_by_task_categories_are_rebuilt_then_extended() {
    let with_category =
        cols(&["id", "category_id", "name", "sum_time_length", "start_date", "end_date", "is_done"]);
    let before_project_category =
        cols(&["id", "name", "sum_time_length", "start_date", "end_date", "is_done"]);
    assert!(projects_table_needs_task_category_removal(true, &with_category));
    assert!(!projects_table_needs_task_category_removal(true, &before_project_category));
    assert!(!projects_table_needs_task_category_removal(true, &expected_projects_columns()));
    assert!(projects_table_needs_project_category_column(true, &before_project_category));
    assert!(!projects_table_needs_project_category_column(true, &with_category));
    assert!(!projects_table_needs_project_category_column(true, &expected_projects_columns()));
    assert!(!projects_table_needs_project_category_column(false, &before_project_category));
}

#[test]
fn unknown_layouts_are_set_aside_unless_the_backup_name_is_taken() {
    let expected = expected_tasks_columns();
    let legacy = cols(&["id", "minutes", "day"]);
    assert_eq!(legacy_table_step("tasks", false, &legacy, &expected, "tasks_legacy_backup", false), Ok(false));
    assert_eq!(legacy_table_step("tasks", true, &expected, &expected, "tasks_legacy_backup", true), Ok(false));
    assert_eq!(legacy_table_step("tasks", true, &legacy, &expected, "tasks_legacy_backup", false), Ok(true));
    assert_eq!(
        legacy_table_step("tasks", true, &legacy, &expected, "tasks_legacy_backup", true),
        Err("refusing to rename legacy table 'tasks' because backup table 'tasks_legacy_backup' already exists"
            .to_string())
    );
}

#[test]
fn project_backups_in_known_layouts_are_restorable() {
    let before_project_category =
        cols(&["id", "name", "sum_time_length", "start_date", "end_date", "is_done"]);
    assert!(projects_backup_is_restorable(true, true, &expected_projects_columns()));
    assert!(projects_backup_is_restorable(true, true, &before_project_category));
    assert!(!projects_backup_is_restorable(true, true, &cols(&["id", "category_id", "name"])));
    assert!(!projects_backup_is_restorable(true, false, &expected_projects_columns()));
    assert!(!projects_backup_is_restorable(false, true, &expected_projects_columns()));
}

#[test]
fn ascii_case_is_ignored_only_for_ascii_letters() {
    assert!(str_eq_ignore_ascii_case("set null", "SET NULL"));
    assert!(str_eq_ignore_ascii_case("Set Null", "SET NULL"));
    assert!(!str_eq_ignore_ascii_case("SET  NULL", "SET NULL"));
    assert!(!str_eq_ignore_ascii_case("é", "É"));
    assert!(str_eq_ignore_ascii_case("", ""));
}

#[test]
fn the_first_project_foreign_key_is_the_one_read() {
    let rows = vec![
        fk("categories", "category_id", "CASCADE"),
        fk("projects_legacy_backup", "project_id", "NO ACTION"),
        fk("projects", "project_id", "SET NULL"),
    ];
    let found = find_task_project_fk(&rows).expect("a project foreign key");
    assert_eq!(found.target_table, "projects_legacy_backup");
    assert_eq!(found.on_delete, "NO ACTION");
    assert!(find_task_project_fk(&vec![fk("categories", "category_id", "CASCADE")]).is_none());
}

#[test]
fn tasks_are_rebuilt_unless_project_id_sets_null_on_current_projects() {
    let columns = expected_tasks_columns();
    assert!(!tasks_table_needs_fk_rebuild(true, true, &columns, &vec![fk("projects", "project_id", "set null")]));
    assert!(tasks_table_needs_fk_rebuild(true, true, &columns, &vec![fk("projects", "project_id", "CASCADE")]));
    assert!(tasks_table_needs_fk_rebuild(
        true,
        true,
        &columns,
        &vec![fk("projects_legacy_backup", "project_id", "SET NULL")]
    ));
    assert!(tasks_table_needs_fk_rebuild(true, true, &columns, &vec![]));
    assert!(!tasks_table_needs_fk_rebuild(true, false, &columns, &vec![]));
    assert!(!tasks_table_needs_fk_rebuild(true, true, &cols(&["id"]), &vec![]));
}
