use taskim::date::Date;
use taskim::task::{Task, TaskComment, Timestamp};
use taskim::task_edit::{EditingField, TaskEditState};

fn d(year: i32, month: u32, day: u32) -> Date {
    Date { year, month, day }
}

#[test]
fn new_task_buffer_is_empty() {
    let s = TaskEditState::new_task(d(2024, 3, 15));
    assert!(s.task_id.is_none());
    assert!(s.title.is_empty());
    assert!(s.content.is_empty());
    assert_eq!(s.editing_field, EditingField::Title);
    assert!(s.is_new_task);
    assert_eq!(s.date, d(2024, 3, 15));
}

#[test]
fn edit_buffer_copies_the_task() {
    let date = d(2024, 3, 15);
    let task = Task {
        id: "abc".to_string(),
        title: "water plants".to_string(),
        start: Timestamp { date, secs: 9 * 3600 },
        end: Timestamp { date, secs: 10 * 3600 },
        comments: vec![TaskComment { id: "c1".to_string(), text: "the big ones".to_string() }],
        completed: false,
        order: 2,
    };
    let s = TaskEditState::edit_task(&task);
    assert_eq!(s.task_id, Some("abc".to_string()));
    assert_eq!(s.title.iter().collect::<String>(), "water plants");
    assert_eq!(s.content.iter().collect::<String>(), "the big ones");
    assert!(!s.is_new_task);
    assert_eq!(s.date, date);
}

#[test]
fn typing_edits_the_active_field() {
    let mut s = TaskEditState::new_task(d(2024, 3, 15));
    s.add_char('h');
    s.add_char('i');
    s.switch_field();
    assert_eq!(s.editing_field, EditingField::Content);
    s.add_char('y');
    s.add_char('o');
    s.remove_char();
    assert_eq!(s.title_string(), "hi");
    assert_eq!(s.content_string(), "y");
    s.switch_field();
    assert_eq!(s.editing_field, EditingField::Title);
    s.remove_char();
    assert_eq!(s.title_string(), "h");
    // removing from an empty field changes nothing
    s.remove_char();
    s.remove_char();
    assert_eq!(s.title_string(), "");
}

#[test]
fn to_task_builds_a_morning_task() {
    let mut s = TaskEditState::new_task(d(2024, 3, 15));
    for ch in "plan week".chars() {
        s.add_char(ch);
    }
    s.switch_field();
    for ch in "notes".chars() {
        s.add_char(ch);
    }
    let t = s.to_task();
    assert_eq!(t.title, "plan week");
    assert_eq!(t.start.date, d(2024, 3, 15));
    assert_eq!(t.start.secs, 9 * 3600);
    assert_eq!(t.end.secs, 10 * 3600);
    assert_eq!(t.comments.len(), 1);
    assert_eq!(t.comments[0].text, "notes");
    assert_eq!(t.order, 0);
    assert!(!t.completed);
}

#[test]
fn to_task_keeps_an_edited_tasks_id() {
    let date = d(2024, 3, 15);
    let task = Task {
        id: "keep-me".to_string(),
        title: "old".to_string(),
        start: Timestamp { date, secs: 9 * 3600 },
        end: Timestamp { date, secs: 10 * 3600 },
        comments: Vec::<TaskComment>::new(),
        completed: false,
        order: 0,
    };
    let mut s = TaskEditState::edit_task(&task);
    s.add_char('!');
    let t = s.to_task();
    assert_eq!(t.id, "keep-me");
    assert_eq!(t.title, "old!");
    assert_eq!(t.comments.len(), 0);
}
