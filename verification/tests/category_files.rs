use system_i2::categories::TaskCategoryNode;
use system_i2::category_store::{change_log_append_text, load_task_category_change_log, load_task_category_tree, save_task_category_tree};
use system_i2::storage::{validate_user_runtime_config, new_user_runtime_config};

fn node(id: &str, label: &str) -> TaskCategoryNode {
    TaskCategoryNode { id: id.to_string(), label: label.to_string(), children: None }
}

#[test]
fn reads_change_log_newest_first_without_blank_lines() {
    let entries = load_task_category_change_log("first\n\n  second  \r\nthird\n");
    assert_eq!(entries, vec!["third".to_string(), "second".to_string(), "first".to_string()]);
    assert!(load_task_category_change_log("").is_empty());
}

#[test]
fn appended_lines_read_back_newest_first() {
    let text = change_log_append_text(&vec!["a | added | A [a]".to_string(), "b | removed | B [b]".to_string()]);
    assert_eq!(text, "a | added | A [a]\nb | removed | B [b]\n");
    assert_eq!(load_task_category_change_log(&text), vec!["b | removed | B [b]".to_string(), "a | added | A [a]".to_string()]);
}

#[test]
fn saving_normalizes_and_logs_against_previous_tree() {
    let previous: Result<Vec<TaskCategoryNode>, String> = Ok(vec![node("a", "A")]);
    let save = save_task_category_tree(&previous, &vec![node(" a ", " A2 "), node("b", "B")], "t").ok().unwrap();
    assert_eq!(save.tree[0].label, "A2");
    assert_eq!(save.log_lines, vec!["t | added | B [b]".to_string(), "t | renamed | A -> A2 [a]".to_string()]);
    let broken: Result<Vec<TaskCategoryNode>, String> = Err("unreadable".to_string());
    let save = save_task_category_tree(&broken, &vec![node("a", "A")], "t").ok().unwrap();
    assert_eq!(save.log_lines, vec!["t | added | A [a]".to_string()]);
    assert!(save_task_category_tree(&previous, &vec![node("", "A")], "t").is_err());
}

#[test]
fn loading_names_the_file_in_validation_errors() {
    let error = load_task_category_tree("/b/t.json", &vec![node("a", "A"), node("a", "B")]).err().unwrap();
    assert!(error.starts_with("failed to validate task category file at /b/t.json: "));
    assert_eq!(load_task_category_tree("/b/t.json", &vec![node(" a ", "A")]).ok().unwrap()[0].id, "a");
}

#[test]
fn user_config_needs_a_bundle_dir() {
    let config = new_user_runtime_config("  ".to_string());
    assert_eq!(config.schema_version, 1);
    assert_eq!(
        validate_user_runtime_config(&config, "/cfg/runtime-bundle.json").unwrap_err(),
        "user runtime config field 'bundleDir' is empty in /cfg/runtime-bundle.json"
    );
    assert!(validate_user_runtime_config(&new_user_runtime_config("/data".to_string()), "x").is_ok());
}
