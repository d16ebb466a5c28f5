use taskim::date::Date;
use taskim::month_view::{MonthView, SelectionType};
use taskim::task::{Task, TaskComment, Timestamp};

fn d(year: i32, month: u32, day: u32) -> Date {
    Date { year, month, day }
}

fn task_on(id: &str, date: Date, order: u32) -> Task {
    let start = Timestamp { date, secs: 9 * 3600 };
    let end = Timestamp { date, secs: 10 * 3600 };
    Task {
        id: id.to_string(),
        title: format!("task {}", id),
        start,
        end,
        comments: Vec::<TaskComment>::new(),
        completed: false,
        order,
    }
}

fn selected_day(view: &MonthView) -> Option<Date> {
    match &view.selection.selection_type {
        SelectionType::Day(date) => Some(*date),
        SelectionType::Task(_) => None,
    }
}

fn selected_task(view: &MonthView) -> Option<String> {
    match &view.selection.selection_type {
        SelectionType::Task(id) => Some(id.clone()),
        SelectionType::Day(_) => None,
    }
}

#[test]
fn march_2024_grid_starts_sunday_feb_25() {
    // March 2024: the grid opens on Sunday, February 25th, and holds
    // March 31st in its rows.
    let weeks = MonthView::build_weeks_for_date(d(2024, 3, 15));
    assert_eq!(weeks[0][0], d(2024, 2, 25));
    assert!(weeks.len() >= 4 && weeks.len() <= 6);
    let mut found = false;
    for week in &weeks {
        assert_eq!(week.len(), 7);
        for cell in week {
            if *cell == d(2024, 3, 31) {
                found = true;
            }
        }
    }
    assert!(found);
}

#[test]
fn grids_cover_whole_months() {
    for &(y, m) in &[(2024, 2), (2023, 2), (2024, 12), (2021, 1), (1999, 6)] {
        let reference = d(y, m, 1);
        let weeks = MonthView::build_weeks_for_date(reference);
        assert!(weeks.len() >= 4 && weeks.len() <= 6);
        let dim = taskim::date::days_in_month(y, m);
        for day in 1..=dim {
            let target = d(y, m, day);
            let mut found = false;
            for week in &weeks {
                for cell in week {
                    if *cell == target {
                        found = true;
                    }
                }
            }
            assert!(found, "day {} of {}-{} missing from grid", day, y, m);
        }
        // Sunday-aligned rows
        for week in &weeks {
            assert_eq!(taskim::date::weekday(&week[0]), 0);
        }
    }
}

#[test]
fn february_2026_grid_has_four_rows() {
    // February 2026 starts on a Sunday and has 28 days: exactly 4 rows.
    let weeks = MonthView::build_weeks_for_date(d(2026, 2, 10));
    assert_eq!(weeks.len(), 4);
    assert_eq!(weeks[0][0], d(2026, 2, 1));
    assert_eq!(weeks[3][6], d(2026, 2, 28));
}

#[test]
fn moving_right_crosses_month_and_rebuilds() {
    let mut view = MonthView::new(d(2024, 1, 31));
    let tasks: Vec<Task> = Vec::new();
    view.move_right(&tasks);
    assert_eq!(selected_day(&view), Some(d(2024, 2, 1)));
    assert_eq!(view.current_date, d(2024, 2, 1));
    view.move_left(&tasks);
    assert_eq!(selected_day(&view), Some(d(2024, 1, 31)));
    assert_eq!(view.current_date, d(2024, 1, 1));
}

#[test]
fn preserve_day_clamps_jan_31_to_feb_end() {
    // Non-leap year: Jan 31 -> Feb 28.
    let mut view = MonthView::new(d(2023, 1, 31));
    view.next_month_preserve_day();
    assert_eq!(selected_day(&view), Some(d(2023, 2, 28)));
    // Leap year: Jan 31 -> Feb 29.
    let mut view = MonthView::new(d(2024, 1, 31));
    view.next_month_preserve_day();
    assert_eq!(selected_day(&view), Some(d(2024, 2, 29)));
    // And back: day is preserved where it exists.
    view.prev_month_preserve_day();
    assert_eq!(selected_day(&view), Some(d(2024, 1, 29)));
}

#[test]
fn week_jumps_land_on_same_weekday() {
    let mut view = MonthView::new(d(2024, 3, 27));
    let tasks: Vec<Task> = Vec::new();
    view.next_week(&tasks);
    assert_eq!(selected_day(&view), Some(d(2024, 4, 3)));
    view.prev_week(&tasks);
    assert_eq!(selected_day(&view), Some(d(2024, 3, 27)));
}

#[test]
fn year_jumps_keep_month_and_day() {
    let mut view = MonthView::new(d(2024, 5, 20));
    view.next_year();
    assert_eq!(view.current_date, d(2025, 5, 1));
    assert_eq!(selected_day(&view), Some(d(2025, 5, 20)));
    view.prev_year();
    assert_eq!(view.current_date, d(2024, 5, 1));
    assert_eq!(selected_day(&view), Some(d(2024, 5, 20)));
}

#[test]
fn year_jump_clamps_leap_day() {
    // February 29th has no counterpart in a common year: it clamps to the
    // 28th, and the jump always lands on a day selection.
    let mut view = MonthView::new(d(2024, 2, 29));
    view.next_year();
    assert_eq!(selected_day(&view), Some(d(2025, 2, 28)));
    let mut view = MonthView::new(d(2024, 2, 29));
    view.prev_year();
    assert_eq!(selected_day(&view), Some(d(2023, 2, 28)));
}

#[test]
fn first_and_last_day_of_month() {
    let mut view = MonthView::new(d(2024, 2, 10));
    view.last_day_of_month();
    assert_eq!(selected_day(&view), Some(d(2024, 2, 29)));
    view.first_day_of_month();
    assert_eq!(selected_day(&view), Some(d(2024, 2, 1)));
}

#[test]
fn go_to_today_navigates() {
    let mut view = MonthView::new(d(2020, 1, 1));
    view.go_to_today(d(2024, 6, 15));
    assert_eq!(selected_day(&view), Some(d(2024, 6, 15)));
    assert_eq!(view.current_date, d(2024, 6, 1));
}

#[test]
fn move_down_descends_into_first_task() {
    let date = d(2024, 3, 15);
    let tasks = vec![task_on("b", date, 1), task_on("a", date, 0)];
    let mut view = MonthView::new(date);
    view.move_down(&tasks);
    assert_eq!(selected_task(&view), Some("a".to_string()));
    view.move_down(&tasks);
    assert_eq!(selected_task(&view), Some("b".to_string()));
    // From the last task, a step down jumps a week and leaves tasks.
    view.move_down(&tasks);
    assert_eq!(selected_day(&view), Some(d(2024, 3, 22)));
}

#[test]
fn move_up_within_tasks_and_out() {
    let date = d(2024, 3, 15);
    let tasks = vec![task_on("a", date, 0), task_on("b", date, 1)];
    let mut view = MonthView::new(date);
    view.move_down(&tasks);
    view.move_down(&tasks);
    assert_eq!(selected_task(&view), Some("b".to_string()));
    view.move_up(&tasks);
    assert_eq!(selected_task(&view), Some("a".to_string()));
    view.move_up(&tasks);
    assert_eq!(selected_day(&view), Some(date));
}

#[test]
fn horizontal_move_resolves_task_then_steps() {
    let date = d(2024, 3, 15);
    let tasks = vec![task_on("a", date, 0)];
    let mut view = MonthView::new(date);
    view.move_down(&tasks);
    assert_eq!(selected_task(&view), Some("a".to_string()));
    // the task selection resolves to its day and then steps one day back
    view.move_left(&tasks);
    assert_eq!(selected_day(&view), Some(d(2024, 3, 14)));
    // from a task on the month's last day, a step right re-anchors
    let last = d(2024, 3, 31);
    let tasks = vec![task_on("z", last, 0)];
    let mut view = MonthView::new(last);
    view.move_down(&tasks);
    assert_eq!(selected_task(&view), Some("z".to_string()));
    view.move_right(&tasks);
    assert_eq!(selected_day(&view), Some(d(2024, 4, 1)));
    assert_eq!(view.current_date, d(2024, 4, 1));
}

#[test]
fn select_task_by_order_finds_task() {
    let date = d(2024, 3, 15);
    let tasks = vec![task_on("a", date, 0), task_on("b", date, 1)];
    let mut view = MonthView::new(date);
    view.select_task_by_order(date, 1, &tasks);
    assert_eq!(selected_task(&view), Some("b".to_string()));
    assert_eq!(view.get_current_task_order(&tasks), Some(1));
    // an absent order leaves the selection alone
    view.select_task_by_order(date, 7, &tasks);
    assert_eq!(selected_task(&view), Some("b".to_string()));
    assert_eq!(view.get_selected_date(&tasks), date);
}
