use system_i2::analytics::dashboard::{load_dashboard, DashboardSources};
use system_i2::analytics::daily::{build_commented_tasks, build_daily_series};
use system_i2::analytics::periods::{build_trend_periods_for_reference_date, ComparisonPeriod};
use system_i2::analytics::projects::build_project_summaries;
use system_i2::analytics::trends::build_trend_comparison;
use system_i2::analytics::labels_period::format_period_label;
use system_i2::analytics::types::{
    AnalyticsDailyChartKind, AnalyticsDailyPoint, AnalyticsDashboardInput, AnalyticsTaskRow, AnalyticsTrendMode,
};
use system_i2::categories::TaskCategoryNode;

fn node(id: &str, label: &str, children: Option<Vec<TaskCategoryNode>>) -> TaskCategoryNode {
    TaskCategoryNode { id: id.to_string(), label: label.to_string(), children }
}

fn row(id: &str, category_id: &str, minutes: i64, date: &str) -> AnalyticsTaskRow {
    AnalyticsTaskRow {
        id: id.to_string(),
        category_id: category_id.to_string(),
        time_length: minutes,
        date: date.to_string(),
        note: None,
        project_id: None,
        project_label: None,
        project_is_done: false,
        is_project_closing_task: false,
    }
}

fn with_project(mut r: AnalyticsTaskRow, id: &str, label: &str) -> AnalyticsTaskRow {
    r.project_id = Some(id.to_string());
    r.project_label = Some(label.to_string());
    r
}

fn tree() -> Vec<TaskCategoryNode> {
    vec![
        node("logic", "Логика", Some(vec![node("logic-math", "Математика", None)])),
        node("health", "Здоровье.", Some(vec![node("health-run", "Бег", None)])),
    ]
}

fn empty_sources() -> DashboardSources {
    DashboardSources {
        category_tree: vec![],
        task_rows: vec![],
        total_minutes: 0,
        daily_series: vec![],
        trend_mode: AnalyticsTrendMode::Custom,
        trend_periods: vec![],
        trend_period_rows: vec![],
    }
}

fn day(date: &str, total: i64, count: i64) -> AnalyticsDailyPoint {
    AnalyticsDailyPoint { date: date.to_string(), total_minutes: total, task_count: count, category_breakdown: vec![] }
}

#[test]
fn rejects_reversed_ranges() {
    let error = load_dashboard(
        &AnalyticsDashboardInput { start_date: "2026-03-14".to_string(), end_date: "2026-03-12".to_string() },
        empty_sources(),
    )
    .err()
    .expect("expected reversed range to fail");

    assert!(error.contains("start_date cannot be later than end_date"));
}

#[test]
fn dashboard_keeps_dates_total_and_picks_line_chart_above_a_month() {
    let mut sources = empty_sources();
    sources.total_minutes = 42;
    for d in 1..=32 {
        sources.daily_series.push(day(&format!("2026-01-{:02}", d.min(31)), 0, 0));
    }
    let dashboard = load_dashboard(
        &AnalyticsDashboardInput { start_date: " 2026-01-01".to_string(), end_date: "2026-02-01 ".to_string() },
        sources,
    )
    .ok()
    .expect("expected dashboard");
    assert_eq!(dashboard.start_date, "2026-01-01");
    assert_eq!(dashboard.end_date, "2026-02-01");
    assert_eq!(dashboard.total_minutes, 42);
    assert_eq!(dashboard.daily_series.len(), 32);
    assert_eq!(dashboard.daily_chart_kind, AnalyticsDailyChartKind::Line);
    assert_eq!(dashboard.trend_comparison.categories.len(), 7);
}

#[test]
fn builds_global_project_summary_across_categories() {
    let rows = vec![
        with_project(row("1", "logic-math", 30, "2026-03-02"), "7", "Диплом"),
        with_project(row("2", "health-run", 20, "2026-03-01"), "7", "Диплом v2"),
        with_project(row("3", "gone", 5, "2026-03-05"), "7", "Диплом v2"),
        with_project(row("4", "logic", 100, "2026-03-03"), "8", "Другое"),
    ];
    let summaries = build_project_summaries(&tree(), &rows);

    assert_eq!(summaries.len(), 2);
    assert_eq!(summaries[0].project_id, "8");
    assert_eq!(summaries[1].project_id, "7");
    let p = &summaries[1];
    assert_eq!(p.label, "Диплом v2");
    assert_eq!(p.total_minutes, 55);
    assert_eq!(p.task_count, 3);
    assert_eq!(p.start_date.as_deref(), Some("2026-03-01"));
    assert_eq!(p.end_date.as_deref(), Some("2026-03-05"));
    assert_eq!(p.category_breakdown.len(), 3);
    assert_eq!(p.category_breakdown[0].category_id, "logic-math");
    assert_eq!(p.category_breakdown[0].label, "Математика");
    assert_eq!(p.category_breakdown[1].category_id, "health-run");
    assert_eq!(p.category_breakdown[2].category_id, "__unknown__");
    assert_eq!(p.category_breakdown[2].label, "Остальное");
    let sum: i64 = p.category_breakdown.iter().map(|b| b.total_minutes).sum();
    assert_eq!(sum, p.total_minutes);
}

#[test]
fn splits_each_day_over_root_categories_in_business_order() {
    let rows = vec![
        row("1", "logic-math", 30, "2026-03-02"),
        row("2", "health-run", 20, "2026-03-02"),
        row("3", "unknown", 5, "2026-03-02"),
        row("4", "logic", 10, "2026-03-03"),
    ];
    let series = build_daily_series(&tree(), vec![day("2026-03-02", 55, 3), day("2026-03-03", 10, 1), day("2026-03-04", 0, 0)], &rows);

    assert_eq!(series.len(), 3);
    let first = &series[0].category_breakdown;
    assert_eq!(first.len(), 3);
    assert_eq!(first[0].label, "Здоровье");
    assert_eq!(first[0].total_minutes, 20);
    assert_eq!(first[1].label, "Логика");
    assert_eq!(first[2].category_id, "__unknown__");
    assert_eq!(series[1].category_breakdown.len(), 1);
    assert_eq!(series[1].total_minutes, 10);
    assert!(series[2].category_breakdown.is_empty());
}

#[test]
fn lists_commented_tasks_newest_first_with_trimmed_notes() {
    let mut a = row("1", "logic-math", 30, "2026-03-02");
    a.note = Some("  первая ".to_string());
    let mut b = row("2", "gone", 20, "2026-03-03");
    b.note = Some("   ".to_string());
    let mut c = with_project(row("3", "health-run", 10, "2026-03-04"), "9", "Марафон");
    c.note = Some("третья".to_string());
    let items = build_commented_tasks(&tree(), &vec![a, b, c]);

    assert_eq!(items.len(), 2);
    assert_eq!(items[0].task_id, "3");
    assert_eq!(items[0].category_label, "Бег");
    assert_eq!(items[0].project_label.as_deref(), Some("Марафон"));
    assert_eq!(items[1].note, "первая");
    assert_eq!(items[1].category_label, "Математика");
}

#[test]
fn compares_root_lines_over_periods() {
    let periods = vec![
        ComparisonPeriod { label: "a".to_string(), start_date: "2026-03-01".to_string(), end_date: "2026-03-07".to_string(), is_current: false },
        ComparisonPeriod { label: "b".to_string(), start_date: "2026-03-08".to_string(), end_date: "2026-03-14".to_string(), is_current: true },
    ];
    let period_rows = vec![vec![row("1", "logic-math", 90, "2026-03-03")], vec![row("2", "logic-math", 120, "2026-03-10"), row("3", "health-run", 15, "2026-03-11"), row("4", "gone", 1, "2026-03-11")]];
    let c = build_trend_comparison(&tree(), AnalyticsTrendMode::Week, &periods, &period_rows);

    assert_eq!(c.mode, AnalyticsTrendMode::Week);
    assert_eq!(c.total.series_id, "total");
    assert_eq!(c.total.label, "Суммарное время");
    assert_eq!(c.total.points[1].total_minutes, 136);
    assert!(c.total.points[1].is_current);
    let logic = c.categories.iter().find(|s| s.label == "Логика").unwrap();
    assert_eq!(logic.series_id, "logic");
    assert_eq!(logic.points[0].total_minutes, 90);
    assert_eq!(logic.points[1].total_minutes, 120);
    let health = c.categories.iter().find(|s| s.series_id == "health").unwrap();
    assert_eq!(health.points[1].total_minutes, 15);
}

#[test]
fn current_calendar_month_selection_compares_against_previous_full_months() {
    let connection = rusqlite::Connection::open_in_memory().expect("expected in-memory sqlite");

    let (mode, periods) = build_trend_periods_for_reference_date(&connection, "2026-03-01", "2026-03-31", "2026-03-13")
        .expect("expected trend periods");

    assert_eq!(mode, AnalyticsTrendMode::Month);
    assert_eq!(periods.len(), 6);
    assert_eq!(periods[0].start_date, "2025-10-01");
    assert_eq!(periods[0].end_date, "2025-10-31");
    assert_eq!(periods[4].start_date, "2026-02-01");
    assert_eq!(periods[4].end_date, "2026-02-28");
    assert_eq!(periods[5].start_date, "2026-03-01");
    assert_eq!(periods[5].end_date, "2026-03-13");
    assert!(periods[5].is_current);
    assert_eq!(periods[5].label, "мар 2026");
}

#[test]
fn full_week_and_custom_spans_step_back_by_their_length() {
    let connection = rusqlite::Connection::open_in_memory().expect("expected in-memory sqlite");
    let (mode, periods) =
        build_trend_periods_for_reference_date(&connection, "2026-03-09", "2026-03-15", "2026-06-01").unwrap();
    assert_eq!(mode, AnalyticsTrendMode::Week);
    assert_eq!(periods[4].start_date, "2026-03-02");
    assert_eq!(periods[4].end_date, "2026-03-08");
    assert_eq!(periods[5].label, "09 мар-15 мар");

    let (mode, periods) =
        build_trend_periods_for_reference_date(&connection, "2026-03-10", "2026-03-12", "2026-06-01").unwrap();
    assert_eq!(mode, AnalyticsTrendMode::Custom);
    assert_eq!(periods[4].start_date, "2026-03-07");
    assert_eq!(periods[4].end_date, "2026-03-09");
    assert_eq!(periods[0].start_date, "2026-02-23");

    let (mode, periods) =
        build_trend_periods_for_reference_date(&connection, "2025-01-01", "2025-12-31", "2026-06-01").unwrap();
    assert_eq!(mode, AnalyticsTrendMode::Year);
    assert_eq!(periods[0].label, "2020");
    assert_eq!(periods[0].end_date, "2020-12-31");
}

#[test]
fn labels_periods_by_mode() {
    assert_eq!(format_period_label("2026-03-13", "2026-03-19", AnalyticsTrendMode::Week), "13 мар-19 мар");
    assert_eq!(format_period_label("2026-12-01", "2026-12-31", AnalyticsTrendMode::Month), "дек 2026");
    assert_eq!(format_period_label("2026-01-01", "2026-12-31", AnalyticsTrendMode::Year), "2026");
    assert_eq!(format_period_label("2026-13-01", "x", AnalyticsTrendMode::Custom), "2026-13-01-x");
}

#[test]
fn each_day_split_over_roots_adds_up_to_the_day() {
    let rows = vec![
        row("1", "logic-math", 30, "2026-03-02"),
        row("2", "health", 20, "2026-03-02"),
        row("3", "gone", 5, "2026-03-02"),
        row("4", "logic", 10, "2026-03-03"),
        row("5", "health-run", 15, "2026-03-03"),
    ];
    let series = build_daily_series(&tree(), vec![day("2026-03-02", 55, 3), day("2026-03-03", 25, 2)], &rows);
    for point in &series {
        let slices: i64 = point.category_breakdown.iter().map(|s| s.total_minutes).sum();
        let logged: i64 = rows.iter().filter(|r| r.date == point.date).map(|r| r.time_length).sum();
        assert_eq!(slices, logged);
    }
    assert_eq!(series[0].category_breakdown.len(), 3);
    assert_eq!(series[1].category_breakdown.len(), 2);
}

#[test]
fn unreadable_dates_fail_with_the_date_expression_error() {
    let connection = rusqlite::Connection::open_in_memory().expect("in-memory database");
    let error = match build_trend_periods_for_reference_date(&connection, "not a date", "2026-03-08", "2026-03-04") {
        Ok(_) => panic!("an unreadable start date cannot be placed in a week"),
        Err(error) => error,
    };
    assert!(error.starts_with("failed to evaluate analytics date expression: "), "{error}");
}
