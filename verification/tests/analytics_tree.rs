use system_i2::analytics::roots::{build_category_summaries, build_root_share_items};
use system_i2::analytics::types::{AnalyticsCategorySummaryNode, AnalyticsTaskRow};
use system_i2::categories::TaskCategoryNode;

fn node(id: &str, label: &str, children: Option<Vec<TaskCategoryNode>>) -> TaskCategoryNode {
    TaskCategoryNode { id: id.to_string(), label: label.to_string(), children }
}

fn row(id: &str, category_id: &str, minutes: i64, date: &str, project: Option<(&str, &str)>) -> AnalyticsTaskRow {
    AnalyticsTaskRow {
        id: id.to_string(),
        category_id: category_id.to_string(),
        time_length: minutes,
        date: date.to_string(),
        note: None,
        project_id: project.map(|p| p.0.to_string()),
        project_label: project.map(|p| p.1.to_string()),
        project_is_done: false,
        is_project_closing_task: false,
    }
}

fn root(category_id: &str, label: &str, total_minutes: i64) -> AnalyticsCategorySummaryNode {
    AnalyticsCategorySummaryNode {
        category_id: category_id.to_string(),
        label: label.to_string(),
        total_minutes,
        task_count: 1,
        projects: vec![],
        children: vec![],
    }
}

#[test]
fn merges_same_project_across_child_categories_under_one_root() {
    let category_tree = vec![node(
        "logic",
        "Логика",
        Some(vec![node("logic-math", "Математика", None), node("logic-reading", "Чтение", None)]),
    )];
    let mut second = row("2", "logic-reading", 35, "2026-03-13", Some(("5", "System-I2")));
    second.project_is_done = true;
    second.is_project_closing_task = true;
    let task_rows = vec![row("1", "logic-math", 25, "2026-03-13", Some(("5", "System-I2"))), second];

    let summaries = build_category_summaries(&category_tree, &task_rows);

    assert_eq!(summaries.len(), 1);
    assert_eq!(summaries[0].projects.len(), 1);
    assert_eq!(summaries[0].projects[0].project_id, "5");
    assert_eq!(summaries[0].projects[0].total_minutes, 60);
    assert!(summaries[0].projects[0].finished_in_period);
}

#[test]
fn keeps_all_root_share_items_separate_instead_of_collapsing_into_other() {
    let root_summaries = vec![
        root("money", "Деньги", 10),
        root("health", "Здоровье.", 20),
        root("logic", "Логика", 30),
        root("mind", "Психика", 40),
        root("relationships", "Отношения", 50),
        root("routine", "Рутина", 60),
        root("system", "Система", 70),
    ];

    let items = build_root_share_items(&root_summaries);

    assert_eq!(items.len(), 7);
    assert_eq!(items[0].label, "Система");
    assert_eq!(items[4].label, "Логика");
    assert_eq!(items[5].label, "Здоровье");
    assert_eq!(items[5].total_minutes, 20);
    assert_eq!(items[6].label, "Деньги");
}

#[test]
fn normalizes_punctuated_root_labels_for_root_share_items() {
    let items = build_root_share_items(&vec![root("health", "Здоровье.", 25)]);

    assert_eq!(items.len(), 1);
    assert_eq!(items[0].label, "Здоровье");
}

#[test]
fn buckets_tasks_of_unknown_categories_after_known_roots() {
    let tree = vec![
        node("system", "Система", None),
        node("money", "Деньги", Some(vec![node("money-work", "Работа", None)])),
    ];
    let rows = vec![
        row("1", "money-work", 30, "2026-03-01", None),
        row("2", "gone-b", 5, "2026-03-01", Some(("9", "Old"))),
        row("3", "system", 10, "2026-03-02", None),
        row("4", "gone-a", 7, "2026-03-02", Some(("9", "Older"))),
    ];

    let summaries = build_category_summaries(&tree, &rows);

    assert_eq!(summaries.len(), 3);
    assert_eq!(summaries[0].label, "Деньги");
    assert_eq!(summaries[0].total_minutes, 30);
    assert_eq!(summaries[0].children.len(), 1);
    assert_eq!(summaries[1].label, "Система");
    assert_eq!(summaries[2].category_id, "__unknown__");
    assert_eq!(summaries[2].label, "Остальное");
    assert_eq!(summaries[2].total_minutes, 12);
    assert_eq!(summaries[2].task_count, 2);
    // categories are visited in increasing id order, so the label of the
    // project comes from the last row of "gone-b"
    assert_eq!(summaries[2].projects.len(), 1);
    assert_eq!(summaries[2].projects[0].label, "Old");
    assert_eq!(summaries[2].projects[0].total_minutes, 12);
}

#[test]
fn leaves_out_categories_without_tasks() {
    let tree = vec![node("a", "A", Some(vec![node("a1", "A1", None)])), node("b", "B", None)];
    let rows = vec![row("1", "b", 3, "2026-03-01", None)];

    let summaries = build_category_summaries(&tree, &rows);

    assert_eq!(summaries.len(), 1);
    assert_eq!(summaries[0].category_id, "b");
    assert_eq!(summaries[0].task_count, 1);
    assert!(summaries[0].children.is_empty());
}

#[test]
fn root_shares_skip_roots_without_time_and_order_ties_by_label() {
    let items = build_root_share_items(&vec![root("x", "Б", 5), root("y", "А", 5), root("z", "В", 0)]);

    assert_eq!(items.len(), 2);
    assert_eq!(items[0].label, "А");
    assert_eq!(items[1].label, "Б");
}
