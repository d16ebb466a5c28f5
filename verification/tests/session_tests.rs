use taskim::date::Date;
use taskim::month_view::SelectionType;
use taskim::session::Session;
use taskim::task::{Task, TaskComment, TaskData, Timestamp};

fn d(year: i32, month: u32, day: u32) -> Date {
    Date { year, month, day }
}

fn task_on(id: &str, date: Date, order: u32) -> Task {
    let start = Timestamp { date, secs: 9 * 3600 };
    let end = Timestamp { date, secs: 10 * 3600 };
    Task {
        id: id.to_string(),
        title: format!("task {}", id),
        start,
        end,
        comments: Vec::<TaskComment>::new(),
        completed: false,
        order,
    }
}

fn fresh_session(today: Date) -> Session {
    Session::new(TaskData::default(), today, 50)
}

/// The observable shape of the collection: (id, day, order, completed) of
/// every task, in collection order.
fn snapshot(s: &Session) -> Vec<(String, Date, u32, bool)> {
    s.data
        .events
        .iter()
        .map(|t| (t.id.clone(), t.start.date, t.order, t.completed))
        .collect()
}

fn selected_task(s: &Session) -> Option<String> {
    match &s.view.selection.selection_type {
        SelectionType::Task(id) => Some(id.clone()),
        SelectionType::Day(_) => None,
    }
}

#[test]
fn commit_new_task_appends_after_day() {
    let date = d(2024, 3, 15);
    let mut s = fresh_session(date);
    s.commit_new_task(task_on("a", date, 0));
    s.commit_new_task(task_on("b", date, 0));
    let snap = snapshot(&s);
    assert_eq!(snap.len(), 2);
    assert_eq!(snap[0].2, 1); // first task appended after the empty day's max order 0
    assert_eq!(snap[1].2, 2);
    assert!(s.undo_stack.can_undo());
    assert!(!s.undo_stack.can_redo());
}

#[test]
fn pending_order_inserts_and_selects() {
    let date = d(2024, 3, 15);
    let mut s = fresh_session(date);
    s.commit_new_task(task_on("a", date, 0));
    s.commit_new_task(task_on("b", date, 0));
    s.pending_insert_order = Some(1);
    s.commit_new_task(task_on("mid", date, 0));
    assert!(s.pending_insert_order.is_none());
    let tasks = s.data.get_tasks_for_date(date);
    let ids: Vec<&str> = tasks.iter().map(|t| t.id.as_str()).collect();
    assert_eq!(ids, vec!["mid", "a", "b"]);
    let orders: Vec<u32> = tasks.iter().map(|t| t.order).collect();
    assert_eq!(orders, vec![1, 2, 3]); // appends start at max+1, so the day began at order 1
    assert_eq!(selected_task(&s), Some("mid".to_string()));
}

#[test]
fn create_undo_redo_round_trip() {
    // a commit, undone and redone, restores the collection exactly
    let date = d(2024, 3, 15);
    let mut s = fresh_session(date);
    s.commit_new_task(task_on("a", date, 0));
    s.commit_new_task(task_on("b", date, 0));
    let committed = snapshot(&s);
    assert!(s.undo());
    assert_eq!(snapshot(&s).len(), 1);
    assert!(s.redo());
    assert_eq!(snapshot(&s), committed);
}

#[test]
fn edit_undo_redo_round_trip() {
    let date = d(2024, 3, 15);
    let mut s = fresh_session(date);
    s.commit_new_task(task_on("a", date, 0));
    let before = snapshot(&s);
    let mut edited = task_on("a", d(2024, 3, 20), 1);
    edited.completed = true;
    assert!(s.commit_edit_task(&"a".to_string(), edited));
    let committed = snapshot(&s);
    assert_ne!(committed, before);
    assert!(s.undo());
    assert_eq!(snapshot(&s), before);
    assert!(s.redo());
    assert_eq!(snapshot(&s), committed);
}

#[test]
fn delete_undo_redo_round_trip() {
    let date = d(2024, 3, 15);
    let mut s = fresh_session(date);
    s.commit_new_task(task_on("a", date, 0));
    s.commit_new_task(task_on("b", date, 0));
    s.view.selection.selection_type = SelectionType::Task("a".to_string());
    assert!(s.delete_selected_task());
    let committed = snapshot(&s);
    // after the delete the remaining task's order closed the gap
    assert_eq!(committed.len(), 1);
    assert_eq!(committed[0].0, "b");
    assert_eq!(committed[0].2, 1);
    assert!(s.undo());
    assert_eq!(snapshot(&s).len(), 2);
    assert!(s.redo());
    assert_eq!(snapshot(&s), committed);
}

#[test]
fn redo_cleared_by_new_commit() {
    // after an undo, a new committed mutation clears the redo history
    let date = d(2024, 3, 15);
    let mut s = fresh_session(date);
    s.commit_new_task(task_on("a", date, 0));
    assert!(s.undo());
    assert!(s.undo_stack.can_redo());
    s.commit_new_task(task_on("c", date, 0));
    assert!(!s.undo_stack.can_redo());
    assert!(!s.redo());
}

#[test]
fn delete_moves_selection_to_first_remaining() {
    let date = d(2024, 3, 15);
    let mut s = fresh_session(date);
    s.commit_new_task(task_on("a", date, 0));
    s.commit_new_task(task_on("b", date, 0));
    s.view.selection.selection_type = SelectionType::Task("a".to_string());
    assert!(s.delete_selected_task());
    assert_eq!(selected_task(&s), Some("b".to_string()));
    // the deleted task waits in the yank buffer
    assert_eq!(s.yanked_task.as_ref().map(|t| t.id.clone()), Some("a".to_string()));
    // deleting the last task selects the day
    s.view.selection.selection_type = SelectionType::Task("b".to_string());
    assert!(s.delete_selected_task());
    assert_eq!(selected_task(&s), None);
    assert!(s.data.events.is_empty());
}

#[test]
fn delete_without_task_selection_is_a_no_op() {
    let date = d(2024, 3, 15);
    let mut s = fresh_session(date);
    s.commit_new_task(task_on("a", date, 0));
    assert!(!s.delete_selected_task());
    assert_eq!(snapshot(&s).len(), 1);
}

#[test]
fn toggle_complete_flips_the_flag() {
    let date = d(2024, 3, 15);
    let mut s = fresh_session(date);
    s.commit_new_task(task_on("a", date, 0));
    s.view.selection.selection_type = SelectionType::Task("a".to_string());
    assert!(s.toggle_selected_complete());
    assert!(snapshot(&s)[0].3);
    assert!(s.toggle_selected_complete());
    assert!(!snapshot(&s)[0].3);
}

#[test]
fn yank_and_paste_move_a_copy_to_the_cursor() {
    let date = d(2024, 3, 15);
    let other = d(2024, 3, 22);
    let mut s = fresh_session(date);
    s.commit_new_task(task_on("a", date, 0));
    s.view.selection.selection_type = SelectionType::Task("a".to_string());
    assert!(s.yank_selected());
    s.view.navigate_to_date(other);
    assert!(s.paste_yanked("pasted".to_string(), false));
    let tasks = s.data.get_tasks_for_date(other);
    assert_eq!(tasks.len(), 1);
    assert_eq!(tasks[0].id, "pasted");
    assert_eq!(tasks[0].start.date, other);
    assert_eq!(tasks[0].start.secs, 9 * 3600);
    assert_eq!(tasks[0].end.secs, 10 * 3600);
    assert_eq!(selected_task(&s), Some("pasted".to_string()));
    // the original stays on its own day
    assert_eq!(s.data.get_tasks_for_date(date).len(), 1);
}

#[test]
fn paste_with_empty_buffer_is_a_no_op() {
    let date = d(2024, 3, 15);
    let mut s = fresh_session(date);
    assert!(!s.paste_yanked("p".to_string(), true));
    assert!(s.data.events.is_empty());
}

#[test]
fn insert_orders_follow_the_cursor() {
    let date = d(2024, 3, 15);
    let mut s = fresh_session(date);
    s.commit_new_task(task_on("a", date, 0));
    s.commit_new_task(task_on("b", date, 0));
    // day selection: below goes after the last task, above to the front
    assert_eq!(s.insert_order_below(), 3);
    assert_eq!(s.insert_order_above(), 0);
    s.view.selection.selection_type = SelectionType::Task("a".to_string());
    assert_eq!(s.insert_order_below(), 2);
    assert_eq!(s.insert_order_above(), 1);
}

#[test]
fn bounded_history_in_session() {
    let date = d(2024, 3, 15);
    let mut s = Session::new(TaskData::default(), date, 2);
    s.commit_new_task(task_on("a", date, 0));
    s.commit_new_task(task_on("b", date, 0));
    s.commit_new_task(task_on("c", date, 0));
    assert!(s.undo());
    assert!(s.undo());
    assert!(!s.undo());
    // the oldest commit fell off the log: its task is still present
    assert_eq!(snapshot(&s).len(), 1);
    assert_eq!(snapshot(&s)[0].0, "a");
}
