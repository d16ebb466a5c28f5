use taskim::date::Date;
use taskim::task::{Task, TaskComment, Timestamp};
use taskim::undo::{Operation, UndoStack};

fn d(year: i32, month: u32, day: u32) -> Date {
    Date { year, month, day }
}

fn task_named(id: &str, title: &str) -> Task {
    let date = d(2024, 3, 15);
    let start = Timestamp { date, secs: 9 * 3600 };
    let end = Timestamp { date, secs: 10 * 3600 };
    Task {
        id: id.to_string(),
        title: title.to_string(),
        start,
        end,
        comments: Vec::<TaskComment>::new(),
        completed: false,
        order: 0,
    }
}

fn create_op(n: u32) -> Operation {
    Operation::CreateTask { task: task_named(&format!("id{}", n), &format!("t{}", n)) }
}

fn op_number(op: &Operation) -> u32 {
    match op {
        Operation::CreateTask { task } => task.title[1..].parse().unwrap(),
        _ => panic!("unexpected operation"),
    }
}

#[test]
fn new_stack_is_empty() {
    let s = UndoStack::new(10);
    assert!(!s.can_undo());
    assert!(!s.can_redo());
    assert!(s.is_empty());
    assert_eq!(s.len(), 0);
}

#[test]
fn undo_moves_operation_to_redo() {
    let mut s = UndoStack::new(10);
    s.push(create_op(1));
    assert!(s.can_undo());
    assert!(!s.can_redo());
    let popped = s.undo().expect("one operation to undo");
    assert_eq!(op_number(&popped), 1);
    assert!(!s.can_undo());
    assert!(s.can_redo());
    let back = s.redo().expect("one operation to redo");
    assert_eq!(op_number(&back), 1);
    assert!(s.can_undo());
    assert!(!s.can_redo());
}

#[test]
fn push_clears_redo() {
    // after an undo, any new committed operation empties the redo stack
    let mut s = UndoStack::new(10);
    s.push(create_op(1));
    s.push(create_op(2));
    s.undo().unwrap();
    assert!(s.can_redo());
    s.push(create_op(3));
    assert!(!s.can_redo());
    assert!(s.redo().is_none());
    // the undo order reflects the new history
    assert_eq!(op_number(&s.undo().unwrap()), 3);
    assert_eq!(op_number(&s.undo().unwrap()), 1);
    assert!(s.undo().is_none());
}

#[test]
fn bounded_depth_drops_oldest_first() {
    // pushing max_size + 5 operations keeps exactly max_size, the 5
    // oldest dropped first
    let max_size = 4;
    let mut s = UndoStack::new(max_size);
    for n in 1..=(max_size as u32 + 5) {
        s.push(create_op(n));
    }
    let mut kept = Vec::new();
    while let Some(op) = s.undo() {
        kept.push(op_number(&op));
    }
    assert_eq!(kept, vec![9, 8, 7, 6]);
    assert_eq!(kept.len(), max_size);
}

#[test]
fn zero_capacity_keeps_nothing() {
    let mut s = UndoStack::new(0);
    s.push(create_op(1));
    assert!(!s.can_undo());
    assert!(s.undo().is_none());
}

#[test]
fn clear_empties_both_stacks() {
    let mut s = UndoStack::new(10);
    s.push(create_op(1));
    s.push(create_op(2));
    s.undo().unwrap();
    assert_eq!(s.len(), 2);
    s.clear();
    assert!(s.is_empty());
    assert!(!s.can_undo());
    assert!(!s.can_redo());
}

#[test]
fn descriptions_name_the_operation() {
    let t = task_named("a", "groceries");
    assert_eq!(
        Operation::CreateTask { task: t.clone() }.get_description(),
        "Create 'groceries'"
    );
    assert_eq!(
        Operation::DeleteTask { task: t.clone(), original_date: d(2024, 3, 15) }.get_description(),
        "Delete 'groceries'"
    );
    assert_eq!(
        Operation::EditTask {
            task_id: "a".to_string(),
            old_task: t.clone(),
            new_task: t.clone(),
        }
        .get_description(),
        "Edit 'groceries'"
    );
    assert_eq!(
        Operation::YankPaste {
            task_id: "a".to_string(),
            old_date: d(2024, 3, 15),
            new_date: d(2024, 3, 16),
        }
        .get_description(),
        "Move task 'a'"
    );
}
