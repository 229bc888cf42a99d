use system_i2::analytics::dashboard::{sources_fit_check, DashboardSources};
use system_i2::analytics::labels_period::format_period_label;
use system_i2::analytics::periods::periods_from_bounds;
use system_i2::analytics::types::{AnalyticsTaskRow, AnalyticsTrendMode};
use system_i2::categories::TaskCategoryNode;
use system_i2::project_categories::default_project_category_list;

fn bounds(pairs: &[(&str, &str)]) -> Vec<(String, String)> {
    pairs.iter().map(|(a, b)| (a.to_string(), b.to_string())).collect()
}

#[test]
fn lays_out_the_current_month_after_the_five_months_before_it() {
    let previous = bounds(&[
        ("2025-10-01", "2025-10-31"),
        ("2025-11-01", "2025-11-30"),
        ("2025-12-01", "2025-12-31"),
        ("2026-01-01", "2026-01-31"),
        ("2026-02-01", "2026-02-28"),
    ]);
    let periods = periods_from_bounds(&previous, AnalyticsTrendMode::Month, "2026-03-01", "2026-03-13");
    let labels: Vec<&str> = periods.iter().map(|p| p.label.as_str()).collect();
    assert_eq!(labels, vec!["окт 2025", "ноя 2025", "дек 2025", "янв 2026", "фев 2026", "мар 2026"]);
    assert_eq!(periods[0].start_date, "2025-10-01");
    assert_eq!(periods[4].end_date, "2026-02-28");
    assert_eq!(periods[5].end_date, "2026-03-13");
    assert!(periods[..5].iter().all(|p| !p.is_current));
    assert!(periods[5].is_current);
}

#[test]
fn lays_out_custom_spans_with_day_labels() {
    let previous = bounds(&[("2026-03-01", "2026-03-03")]);
    let periods = periods_from_bounds(&previous, AnalyticsTrendMode::Custom, "2026-03-04", "2026-03-06");
    assert_eq!(periods.len(), 2);
    assert_eq!(periods[0].label, "01 мар-03 мар");
    assert_eq!(periods[1].label, "04 мар-06 мар");
}

#[test]
fn year_labels_take_the_first_four_bytes() {
    assert_eq!(format_period_label("2026-01-01", "2026-12-31", AnalyticsTrendMode::Year), "2026");
    assert_eq!(format_period_label("ä12-01-01", "x", AnalyticsTrendMode::Year), "ä12");
}

#[test]
fn new_bundles_start_with_book_and_film() {
    let list = default_project_category_list();
    assert_eq!(list.len(), 2);
    assert_eq!((list[0].id.as_str(), list[0].label.as_str(), list[0].order), ("book", "Книга", 0));
    assert_eq!((list[1].id.as_str(), list[1].label.as_str(), list[1].order), ("film", "Фильм", 1));
}

fn row(category_id: &str, minutes: i64) -> AnalyticsTaskRow {
    AnalyticsTaskRow {
        id: "1".to_string(),
        category_id: category_id.to_string(),
        time_length: minutes,
        date: "2026-03-01".to_string(),
        note: None,
        project_id: None,
        project_label: None,
        project_is_done: false,
        is_project_closing_task: false,
    }
}

fn sources(tree: Vec<TaskCategoryNode>, rows: Vec<AnalyticsTaskRow>) -> DashboardSources {
    DashboardSources {
        category_tree: tree,
        task_rows: rows,
        total_minutes: 0,
        daily_series: vec![],
        trend_mode: AnalyticsTrendMode::Custom,
        trend_periods: vec![],
        trend_period_rows: vec![],
    }
}

#[test]
fn dashboard_sums_fit_unless_they_pass_i64() {
    let tree = || {
        vec![TaskCategoryNode {
            id: "a".to_string(),
            label: "A".to_string(),
            children: Some(vec![TaskCategoryNode { id: "b".to_string(), label: "B".to_string(), children: None }]),
        }]
    };
    assert!(sources_fit_check(&sources(tree(), vec![row("a", 30), row("b", 20)])));
    assert!(sources_fit_check(&sources(tree(), vec![row("b", i64::MAX / 2)])));
    assert!(!sources_fit_check(&sources(tree(), vec![row("a", i64::MAX), row("b", 1)])));
    assert!(!sources_fit_check(&sources(vec![], vec![row("x", i64::MAX)])));
}
