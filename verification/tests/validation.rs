use system_i2::categories::TaskCategoryNode;
use system_i2::validation::{
    normalize_iso_date, normalize_non_empty_text, normalize_optional_text, parse_optional_i64_id,
    validate_category_id_exists,
};

fn node(id: &str, label: &str, children: Option<Vec<TaskCategoryNode>>) -> TaskCategoryNode {
    TaskCategoryNode { id: id.to_string(), label: label.to_string(), children }
}

fn minimal_tree() -> Vec<TaskCategoryNode> {
    vec![
        node("logic", "Логика", Some(vec![node("logic-math", "Математика", None)])),
        node("mind", "Психика", Some(vec![node("mind-reading", "Читал", None)])),
        node("10026", "Работа", None),
    ]
}

#[test]
fn trims_and_normalizes_text_and_dates() {
    assert_eq!(
        normalize_non_empty_text("  Юнг - АИКБ  ", "label").expect("expected normalized text"),
        "Юнг - АИКБ"
    );
    assert_eq!(normalize_optional_text(Some("  заметка  ".to_string())), Some("заметка".to_string()));
    assert_eq!(normalize_optional_text(Some("   ".to_string())), None);
    assert_eq!(
        normalize_iso_date(" 2026-03-13 ", "task_date").expect("expected normalized date"),
        "2026-03-13"
    );
}

#[test]
fn rejects_invalid_dates_and_ids() {
    let date_error = normalize_iso_date("13-03-2026", "task_date").expect_err("expected invalid date");
    assert!(date_error.contains("YYYY-MM-DD"));

    let calendar_error =
        normalize_iso_date("2026-02-31", "task_date").expect_err("expected invalid calendar date");
    assert!(calendar_error.contains("valid calendar date"));

    assert_eq!(
        normalize_iso_date("2028-02-29", "task_date").expect("expected leap day to be valid"),
        "2028-02-29"
    );

    let parsed = parse_optional_i64_id(Some(" 42 ".to_string()), "project_id").expect("expected integer id");
    assert_eq!(parsed, Some(42));

    let none_from_blank =
        parse_optional_i64_id(Some("   ".to_string()), "project_id").expect("expected blank none");
    assert_eq!(none_from_blank, None);

    let parse_error =
        parse_optional_i64_id(Some("abc".to_string()), "project_id").expect_err("expected parse failure");
    assert!(parse_error.contains("failed to parse project_id"));
}

#[test]
fn validates_category_ids_against_current_category_tree() {
    let current = Ok(minimal_tree());
    validate_category_id_exists(" logic-math ", &current).expect("expected category to exist");
    let error =
        validate_category_id_exists("missing-category", &current).expect_err("expected missing category to fail");
    assert!(error.contains("does not exist in the current codificator"));
}

#[test]
fn reports_empty_text_and_load_errors() {
    assert_eq!(normalize_non_empty_text("   ", "label").unwrap_err(), "label cannot be empty");
    let failed: Result<Vec<TaskCategoryNode>, String> = Err("no file".to_string());
    assert_eq!(validate_category_id_exists("logic", &failed).unwrap_err(), "no file");
    assert_eq!(
        validate_category_id_exists("ghost", &Ok(minimal_tree())).unwrap_err(),
        "category_id 'ghost' does not exist in the current codificator"
    );
}

#[test]
fn parses_signed_and_overflowing_ids_like_i64() {
    assert_eq!(parse_optional_i64_id(Some("-7".to_string()), "task_id").unwrap(), Some(-7));
    assert_eq!(parse_optional_i64_id(Some("+7".to_string()), "task_id").unwrap(), Some(7));
    assert_eq!(parse_optional_i64_id(None, "task_id").unwrap(), None);
    assert_eq!(
        parse_optional_i64_id(Some("9223372036854775808".to_string()), "task_id").unwrap_err(),
        "failed to parse task_id '9223372036854775808' as integer id: number too large to fit in target type"
    );
    assert_eq!(
        parse_optional_i64_id(Some("-".to_string()), "task_id").unwrap_err(),
        "failed to parse task_id '-' as integer id: invalid digit found in string"
    );
}

#[test]
fn dates_are_checked_for_shape_then_calendar() {
    assert_eq!(
        normalize_iso_date("2026-13-01", "start_date").unwrap_err(),
        "start_date must be a valid calendar date, got '2026-13-01'"
    );
    assert_eq!(normalize_iso_date("2100-02-29", "d").unwrap_err(), "d must be a valid calendar date, got '2100-02-29'");
    assert_eq!(normalize_iso_date("2000-02-29", "d").unwrap(), "2000-02-29");
    assert_eq!(normalize_iso_date("  ", "d").unwrap_err(), "d cannot be empty");
    assert_eq!(normalize_iso_date("2026/03/01", "d").unwrap_err(), "d must use YYYY-MM-DD format, got '2026/03/01'");
}
