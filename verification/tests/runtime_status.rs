use system_i2::categories::TaskCategoryNode;
use system_i2::project_categories::ProjectCategoryNode;
use system_i2::runtime::service::{load_runtime_status, reject_existing_bundle_file, require_ready, UserConfigLookup};
use system_i2::runtime::status::{
    needs_default_project_category_list, validate_runtime_bundle, BundleFacts, FileCheck, RuntimePathTexts,
    RuntimeStatusSource,
};

fn paths() -> RuntimePathTexts {
    RuntimePathTexts {
        bundle_dir: "/b".to_string(),
        sqlite_db_path: "/b/tasks.sqlite3".to_string(),
        category_tree_path: "/b/task_categories.json".to_string(),
        category_change_log_path: "/b/task_category_change_log.log".to_string(),
        project_category_list_path: "/b/project_categories.json".to_string(),
    }
}

fn good_facts() -> BundleFacts {
    BundleFacts {
        shared_dir: Some("/b".to_string()),
        sqlite_exists: true,
        sqlite_open_error: None,
        tree_exists: true,
        tree_check: FileCheck::Parsed(vec![TaskCategoryNode { id: "a".to_string(), label: "A".to_string(), children: None }]),
        log_exists: true,
        log_read_error: None,
        log_append_error: None,
        project_list_existed: true,
        default_list_written: None,
        project_list_exists: true,
        project_list_check: FileCheck::Parsed(vec![ProjectCategoryNode { id: "book".to_string(), label: "Книги".to_string(), order: 0 }]),
    }
}

#[test]
fn reports_ready_bundle_with_its_folder() {
    let status = load_runtime_status(UserConfigLookup::Found("/cfg/runtime-bundle.json".to_string(), Ok(paths())), Some(good_facts()));
    assert!(status.is_ready);
    assert_eq!(status.source, RuntimeStatusSource::UserConfig);
    assert_eq!(status.bundle_dir.as_deref(), Some("/b"));
    assert_eq!(status.details, vec!["using user runtime config at /cfg/runtime-bundle.json".to_string(), "bundle dir: /b".to_string()]);
    assert!(require_ready(&status).is_ok());
}

#[test]
fn reports_missing_files_and_invalid_tree() {
    let mut facts = good_facts();
    facts.log_exists = false;
    facts.tree_check = FileCheck::Parsed(vec![
        TaskCategoryNode { id: "a".to_string(), label: "A".to_string(), children: None },
        TaskCategoryNode { id: "a".to_string(), label: "B".to_string(), children: None },
    ]);
    assert!(!needs_default_project_category_list(&paths(), &facts));
    let status = validate_runtime_bundle(&paths(), &facts, vec![], RuntimeStatusSource::UserConfig);
    assert!(!status.is_ready);
    assert_eq!(status.missing, vec!["task_category_change_log.log".to_string()]);
    assert_eq!(status.invalid.len(), 1);
    assert!(status.invalid[0].starts_with("failed to validate category tree at /b/task_categories.json: "));
    let message = require_ready(&status).unwrap_err();
    assert!(message.starts_with("missing: task_category_change_log.log; invalid: failed to validate category tree"));
}

#[test]
fn creates_default_project_list_when_only_it_is_missing() {
    let mut facts = good_facts();
    facts.project_list_existed = false;
    assert!(needs_default_project_category_list(&paths(), &facts));
    facts.default_list_written = Some(Ok(()));
    let status = validate_runtime_bundle(&paths(), &facts, vec!["start".to_string()], RuntimeStatusSource::UserConfig);
    assert!(status.is_ready);
    assert!(status.details.iter().any(|d| d.contains("created default project_categories.json")));
    assert_eq!(status.details[0], "start");
}

#[test]
fn reports_bundle_split_over_folders_and_unreadable_log() {
    let mut facts = good_facts();
    facts.shared_dir = None;
    facts.log_read_error = Some("denied".to_string());
    let status = validate_runtime_bundle(&paths(), &facts, vec![], RuntimeStatusSource::UserConfig);
    assert_eq!(
        status.invalid,
        vec![
            "runtime bundle files must live in one folder".to_string(),
            "failed to read category change log at /b/task_category_change_log.log: denied".to_string()
        ]
    );
    assert_eq!(status.details.last().unwrap(), "bundle dir: /b");
}

#[test]
fn reports_unreadable_config_with_its_path() {
    let status = load_runtime_status(UserConfigLookup::Found("/cfg/x.json".to_string(), Err("bad json".to_string())), None);
    assert!(!status.is_ready);
    assert_eq!(status.bundle_dir, None);
    assert_eq!(status.invalid, vec!["bad json".to_string()]);
    assert_eq!(status.details, vec!["user runtime config path: /cfg/x.json".to_string()]);
}

#[test]
fn rejects_runtime_bundle_creation_when_target_files_already_exist() {
    let error = reject_existing_bundle_file("/b/tasks.sqlite3", true).unwrap_err();
    assert!(error.contains("refusing to create runtime bundle"));
    assert!(reject_existing_bundle_file("/b/tasks.sqlite3", false).is_ok());
}
