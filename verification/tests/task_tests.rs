use taskim::date::Date;
use taskim::task::{Task, TaskComment, TaskData, Timestamp};

fn d(year: i32, month: u32, day: u32) -> Date {
    Date { year, month, day }
}

fn task_on(id: &str, date: Date, order: u32) -> Task {
    let start = Timestamp { date, secs: 9 * 3600 };
    let end = Timestamp { date, secs: 10 * 3600 };
    Task {
        id: id.to_string(),
        title: format!("task {}", id),
        start,
        end,
        comments: Vec::<TaskComment>::new(),
        completed: false,
        order,
    }
}

fn orders_on(data: &TaskData, date: Date) -> Vec<u32> {
    data.get_tasks_for_date(date).iter().map(|t| t.order).collect()
}

fn ids_on(data: &TaskData, date: Date) -> Vec<String> {
    data.get_tasks_for_date(date).iter().map(|t| t.id.clone()).collect()
}

#[test]
fn new_task_runs_one_hour() {
    let start = Timestamp { date: d(2024, 3, 15), secs: 9 * 3600 };
    let t = Task::new("write".to_string(), start);
    assert_eq!(t.title, "write");
    assert_eq!(t.start.date, d(2024, 3, 15));
    assert_eq!(t.end.secs, 10 * 3600);
    assert_eq!(t.end.date, d(2024, 3, 15));
    assert!(!t.completed);
    assert_eq!(t.order, 0);
    assert!(t.comments.is_empty());
    // near midnight the hour rolls into the next day
    let late = Timestamp { date: d(2024, 3, 15), secs: 23 * 3600 + 1800 };
    let t2 = Task::new("late".to_string(), late);
    assert_eq!(t2.end.date, d(2024, 3, 16));
    assert_eq!(t2.end.secs, 1800);
}

#[test]
fn fresh_ids_differ() {
    let start = Timestamp { date: d(2024, 3, 15), secs: 9 * 3600 };
    let a = Task::new("a".to_string(), start);
    let b = Task::new("b".to_string(), start);
    assert_ne!(a.id, b.id);
}

#[test]
fn add_comment_appends() {
    let start = Timestamp { date: d(2024, 3, 15), secs: 9 * 3600 };
    let mut t = Task::new("a".to_string(), start);
    t.add_comment("first".to_string());
    t.add_comment("second".to_string());
    assert_eq!(t.comments.len(), 2);
    assert_eq!(t.comments[0].text, "first");
    assert_eq!(t.comments[1].text, "second");
}

#[test]
fn is_on_date_compares_start_day() {
    let t = task_on("a", d(2024, 3, 15), 0);
    assert!(t.is_on_date(d(2024, 3, 15)));
    assert!(!t.is_on_date(d(2024, 3, 16)));
}

#[test]
fn tasks_for_date_sorted_by_order() {
    let date = d(2024, 3, 15);
    let mut data = TaskData::default();
    data.events.push(task_on("c", date, 2));
    data.events.push(task_on("a", date, 0));
    data.events.push(task_on("x", d(2024, 3, 16), 0));
    data.events.push(task_on("b", date, 1));
    assert_eq!(ids_on(&data, date), vec!["a", "b", "c"]);
    assert_eq!(orders_on(&data, date), vec![0, 1, 2]);
    assert!(data.get_tasks_for_date(d(2024, 3, 17)).is_empty());
}

#[test]
fn max_order_is_zero_on_empty_day() {
    let date = d(2024, 3, 15);
    let mut data = TaskData::default();
    assert_eq!(data.max_order_for_date(date), 0);
    data.events.push(task_on("a", date, 4));
    data.events.push(task_on("b", date, 2));
    assert_eq!(data.max_order_for_date(date), 4);
}

#[test]
fn insert_at_order_shifts_tail_up() {
    // a day holding orders {0,1,2}: inserting at 1 gives {0,1,2,3} with
    // the new task at 1 and the old tasks at or past 1 moved up by one
    let date = d(2024, 3, 15);
    let mut data = TaskData::default();
    data.events.push(task_on("a", date, 0));
    data.events.push(task_on("b", date, 1));
    data.events.push(task_on("c", date, 2));
    data.insert_task_at_order(task_on("new", date, 0), 1);
    assert_eq!(ids_on(&data, date), vec!["a", "new", "b", "c"]);
    assert_eq!(orders_on(&data, date), vec![0, 1, 2, 3]);
}

#[test]
fn insert_at_zero_shifts_first_task() {
    // a task with order 0, then a second inserted at 0: the first moves
    // to order 1
    let date = d(2024, 3, 31);
    let mut data = TaskData::default();
    data.insert_task_at_order(task_on("first", date, 0), 0);
    data.insert_task_at_order(task_on("second", date, 0), 0);
    assert_eq!(ids_on(&data, date), vec!["second", "first"]);
    assert_eq!(orders_on(&data, date), vec![0, 1]);
    let tasks = data.get_tasks_for_date(date);
    assert_eq!(tasks[1].id, "first");
    assert_eq!(tasks[1].order, 1);
}

#[test]
fn remove_closes_the_gap() {
    // inserts followed by one remove leave the orders contiguous from 0
    let date = d(2024, 3, 15);
    let mut data = TaskData::default();
    for (i, id) in ["a", "b", "c", "d"].iter().enumerate() {
        data.insert_task_at_order(task_on(id, date, 0), i as u32);
    }
    let removed = data.remove_task_and_reorder("b");
    assert!(removed.is_some());
    assert_eq!(removed.unwrap().id, "b");
    assert_eq!(ids_on(&data, date), vec!["a", "c", "d"]);
    assert_eq!(orders_on(&data, date), vec![0, 1, 2]);
}

#[test]
fn remove_unknown_id_is_a_no_op() {
    let date = d(2024, 3, 15);
    let mut data = TaskData::default();
    data.events.push(task_on("a", date, 0));
    assert!(data.remove_task_and_reorder("ghost").is_none());
    assert_eq!(data.events.len(), 1);
    assert_eq!(data.events[0].id, "a");
}

#[test]
fn remove_leaves_other_days_alone() {
    let day1 = d(2024, 3, 15);
    let day2 = d(2024, 3, 16);
    let mut data = TaskData::default();
    data.events.push(task_on("a", day1, 0));
    data.events.push(task_on("x", day2, 0));
    data.events.push(task_on("b", day1, 1));
    data.remove_task_and_reorder("a");
    assert_eq!(orders_on(&data, day1), vec![0]);
    assert_eq!(orders_on(&data, day2), vec![0]);
    assert_eq!(ids_on(&data, day2), vec!["x"]);
}

#[test]
fn normalize_renumbers_scattered_orders() {
    let date = d(2024, 3, 15);
    let mut data = TaskData::default();
    data.events.push(task_on("mid", date, 5));
    data.events.push(task_on("low", date, 2));
    data.events.push(task_on("other", d(2024, 3, 16), 9));
    data.events.push(task_on("high", date, 9));
    data.normalize_task_order(date);
    assert_eq!(ids_on(&data, date), vec!["low", "mid", "high"]);
    assert_eq!(orders_on(&data, date), vec![0, 1, 2]);
    // the other day is untouched
    assert_eq!(orders_on(&data, d(2024, 3, 16)), vec![9]);
}

#[test]
fn equal_orders_keep_collection_positions() {
    // equal orders should not occur after normalization; when they do,
    // the day view keeps the collection's relative positions (the sort
    // is stable)
    let date = d(2024, 3, 15);
    let mut data = TaskData::default();
    data.events.push(task_on("first", date, 1));
    data.events.push(task_on("zero", date, 0));
    data.events.push(task_on("second", date, 1));
    data.events.push(task_on("third", date, 1));
    assert_eq!(ids_on(&data, date), vec!["zero", "first", "second", "third"]);
    assert_eq!(orders_on(&data, date), vec![0, 1, 1, 1]);
}

#[test]
fn normalize_breaks_ties_by_position() {
    let date = d(2024, 3, 15);
    let mut data = TaskData::default();
    data.events.push(task_on("first", date, 3));
    data.events.push(task_on("second", date, 3));
    data.normalize_task_order(date);
    assert_eq!(ids_on(&data, date), vec!["first", "second"]);
    assert_eq!(orders_on(&data, date), vec![0, 1]);
}
