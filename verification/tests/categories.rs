use system_i2::categories::{normalize_category_tree, TaskCategoryNode};
use system_i2::change_log::collect_category_change_log_lines;

fn node(id: &str, label: &str, children: Option<Vec<TaskCategoryNode>>) -> TaskCategoryNode {
    TaskCategoryNode { id: id.to_string(), label: label.to_string(), children }
}

#[test]
fn collects_added_removed_and_renamed_lines_with_normalized_timestamp() {
    let previous_tree = vec![
        node("10000", "Деньги", Some(vec![node("10001", "Работа", None)])),
        node("10002", "Психика", None),
    ];
    let next_tree = vec![node(
        "10000",
        "Деньги",
        Some(vec![node("10001", "Основная работа", None), node("10003", "Поиск работы", None)]),
    )];

    let lines = collect_category_change_log_lines(&previous_tree, &next_tree, "   ");

    assert_eq!(
        lines,
        vec![
            "unknown-time | added | Деньги / Поиск работы [10003]".to_string(),
            "unknown-time | removed | Психика [10002]".to_string(),
            "unknown-time | renamed | Деньги / Работа -> Деньги / Основная работа [10001]".to_string(),
        ]
    );
}

#[test]
fn normalizes_trimmed_tree_and_drops_empty_children() {
    let normalized = normalize_category_tree(&vec![node(" root ", " Деньги ", Some(vec![]))])
        .expect("expected tree normalization");

    assert_eq!(normalized.len(), 1);
    assert_eq!(normalized[0].id, "root");
    assert_eq!(normalized[0].label, "Деньги");
    assert!(normalized[0].children.is_none());
}

#[test]
fn unchanged_tree_logs_nothing_and_timestamp_is_trimmed() {
    let tree = vec![node("a", "A", Some(vec![node("b", "B", None)]))];
    assert!(collect_category_change_log_lines(&tree, &tree, "2026-01-01").is_empty());
    let lines = collect_category_change_log_lines(&vec![], &tree, " 2026-01-01T10:00 ");
    assert_eq!(
        lines,
        vec!["2026-01-01T10:00 | added | A [a]".to_string(), "2026-01-01T10:00 | added | A / B [b]".to_string()]
    );
}

#[test]
fn rejects_duplicate_ids_empty_labels_and_deep_trees() {
    let duplicate = normalize_category_tree(&vec![node("a", "A", None), node(" a ", "B", None)]);
    assert!(duplicate.is_err());
    let empty_label = normalize_category_tree(&vec![node("a", "  ", None)]);
    assert!(empty_label.is_err());
    let deep = vec![node(
        "1",
        "1",
        Some(vec![node(
            "2",
            "2",
            Some(vec![node("3", "3", Some(vec![node("4", "4", Some(vec![node("5", "5", Some(vec![node("6", "6", None)]))]))]))]),
        )]),
    )];
    assert!(normalize_category_tree(&deep).is_err());
    let five = vec![node(
        "1",
        "1",
        Some(vec![node("2", "2", Some(vec![node("3", "3", Some(vec![node("4", "4", Some(vec![node("5", "5", None)]))]))]))]),
    )];
    assert!(normalize_category_tree(&five).is_ok());
}

fn same_tree(a: &[TaskCategoryNode], b: &[TaskCategoryNode]) -> bool {
    a.len() == b.len()
        && a.iter().zip(b.iter()).all(|(x, y)| {
            x.id == y.id
                && x.label == y.label
                && match (&x.children, &y.children) {
                    (None, None) => true,
                    (Some(p), Some(q)) => same_tree(p, q),
                    _ => false,
                }
        })
}

#[test]
fn normalizing_a_normalized_tree_gives_it_back() {
    let tree = vec![
        node(" 10000 ", " Деньги ", Some(vec![node("10001 ", "Работа", Some(vec![])), node("10003", " Поиск ", None)])),
        node("10002", "Психика\t", Some(vec![])),
    ];
    let once = normalize_category_tree(&tree).expect("the tree normalises");
    let twice = normalize_category_tree(&once).expect("the normalised tree normalises again");
    assert!(same_tree(&once, &twice));
    assert_eq!(twice[0].id, "10000");
    assert_eq!(twice[0].children.as_ref().map(|c| c.len()), Some(2));
    assert!(twice[0].children.as_ref().unwrap()[0].children.is_none());
}
