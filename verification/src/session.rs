//! The session: the task collection, the month view and the undo log,
//! driven by committed mutations. Undo and redo apply the inverse and the
//! forward effect of a recorded operation; the transition of each is a
//! spec function here, and the round-trip law shows redo after undo
//! restores the collection exactly.
use crate::date::{date_of, day_index, max_day_index, valid_date, Date};
use crate::month_view::{
    find_first_task, find_task_by_id, is_min_order_task, nav_date_ok, view_wf, MonthView,
    MonthViewV, Selection, SelectionType, SelectionTypeV,
};
use crate::task::{
    day_max_order, find_index_of_id, lemma_find_index_of_id, on_date, task_views, task_wf,
    with_order, Task, TaskData, TaskV, Timestamp,
};
use crate::undo::{push_model, Operation, OperationV, UndoStack, UndoStackV};
use vstd::prelude::*;

verus! {

/// The collection without any task of the given id.
pub open spec fn spec_retain_without_id(s: Seq<TaskV>, id: Seq<char>) -> Seq<TaskV> {
    s.filter(|t: TaskV| t.id != id)
}

/// The collection with the first task of the given id replaced.
pub open spec fn spec_replace_first(s: Seq<TaskV>, id: Seq<char>, nt: TaskV) -> Seq<TaskV> {
    let p = find_index_of_id(s, id);
    if p == -1 {
        s
    } else {
        s.update(p, nt)
    }
}

/// Whole days between a task's start and end.
pub open spec fn day_delta(t: TaskV) -> int {
    day_index(t.end.date) - day_index(t.start.date)
}

/// Whether moving `t` onto day `d` keeps both of its dates inside the
/// model.
pub open spec fn move_fits(t: TaskV, d: Date) -> bool {
    &&& valid_date(d)
    &&& valid_date(t.start.date)
    &&& valid_date(t.end.date)
    &&& 0 <= day_index(d) + day_delta(t) <= max_day_index()
}

/// `t` moved onto day `d`: times of day and the whole-day span are kept.
pub open spec fn spec_move_to_date(t: TaskV, d: Date) -> TaskV {
    TaskV {
        start: Timestamp { date: d, secs: t.start.secs },
        end: Timestamp { date: date_of(day_index(d) + day_delta(t)), secs: t.end.secs },
        ..t
    }
}

/// The collection with the first task of the given id moved onto day `d`;
/// unchanged where there is no such task or the move would leave the model.
pub open spec fn spec_move_first_to_date(s: Seq<TaskV>, id: Seq<char>, d: Date) -> Seq<TaskV> {
    let p = find_index_of_id(s, id);
    if p == -1 {
        s
    } else if move_fits(s[p], d) {
        s.update(p, spec_move_to_date(s[p], d))
    } else {
        s
    }
}

/// What undoing `op` does to the collection: the inverse effect.
pub open spec fn spec_apply_undo(s: Seq<TaskV>, op: OperationV) -> Seq<TaskV> {
    match op {
        OperationV::DeleteTask { task, .. } => s.push(task),
        OperationV::EditTask { task_id, old_task, .. } => spec_replace_first(s, task_id, old_task),
        OperationV::CreateTask { task } => spec_retain_without_id(s, task.id),
        OperationV::YankPaste { task_id, old_date, .. } => spec_move_first_to_date(
            s,
            task_id,
            old_date,
        ),
    }
}

/// What redoing `op` does to the collection: the forward effect.
pub open spec fn spec_apply_redo(s: Seq<TaskV>, op: OperationV) -> Seq<TaskV> {
    match op {
        OperationV::DeleteTask { task, .. } => spec_retain_without_id(s, task.id),
        OperationV::EditTask { task_id, new_task, .. } => spec_replace_first(s, task_id, new_task),
        OperationV::CreateTask { task } => s.push(task),
        OperationV::YankPaste { task_id, new_date, .. } => spec_move_first_to_date(
            s,
            task_id,
            new_date,
        ),
    }
}

/// `s` is a state `op` has just produced: the shape each committed
/// mutation leaves behind, with ids unique where the inverse relies on it.
pub open spec fn round_trip_pre(s: Seq<TaskV>, op: OperationV) -> bool {
    match op {
        OperationV::CreateTask { task } => s.len() > 0 && s.last() == task && forall|i: int|
            0 <= i < s.len() - 1 ==> (#[trigger] s[i]).id != task.id,
        OperationV::DeleteTask { task, .. } => forall|i: int|
            0 <= i < s.len() ==> (#[trigger] s[i]).id != task.id,
        OperationV::EditTask { task_id, old_task, new_task } => {
            let p = find_index_of_id(s, task_id);
            &&& old_task.id == task_id
            &&& new_task.id == task_id
            &&& p >= 0
            &&& s[p] == new_task
        },
        OperationV::YankPaste { task_id, old_date, new_date } => {
            let p = find_index_of_id(s, task_id);
            p >= 0 ==> s[p].start.date == new_date && move_fits(s[p], old_date)
        },
    }
}

/// No two tasks share an id.
pub open spec fn ids_unique(s: Seq<TaskV>) -> bool {
    forall|i: int, j: int|
        0 <= i < s.len() && 0 <= j < s.len() && i != j ==> (#[trigger] s[i]).id != (
        #[trigger] s[j]).id
}

/// A committed creation leaves the state the round-trip law speaks of:
/// the created task sits last, and, with a fresh id, nothing else
/// carries it.
pub proof fn lemma_create_reaches_round_trip_pre(s: Seq<TaskV>, task: TaskV, ord: u32)
    requires
        forall|i: int| 0 <= i < s.len() ==> (#[trigger] s[i]).id != task.id,
    ensures
        round_trip_pre(
            crate::task::spec_insert_at(s, task, ord),
            OperationV::CreateTask { task: crate::task::with_order(task, ord) },
        ),
{
    let new = crate::task::spec_insert_at(s, task, ord);
    assert(new.last() == crate::task::with_order(task, ord));
    assert forall|i: int| 0 <= i < new.len() - 1 implies (#[trigger] new[i]).id
        != crate::task::with_order(task, ord).id by {
        assert(new[i] == crate::task::shift_up(s[i], task.start.date, ord));
    }
}

/// A committed deletion leaves the state the round-trip law speaks of:
/// with unique ids, no remaining task carries the removed one's id.
pub proof fn lemma_delete_reaches_round_trip_pre(s: Seq<TaskV>, p: int, original_date: Date)
    requires
        0 <= p < s.len(),
        ids_unique(s),
    ensures
        round_trip_pre(
            crate::task::spec_remove_reorder(s, p),
            OperationV::DeleteTask { task: s[p], original_date },
        ),
{
    let rem = s.remove(p);
    let new = crate::task::spec_remove_reorder(s, p);
    assert forall|i: int| 0 <= i < new.len() implies (#[trigger] new[i]).id != s[p].id by {
        assert(new[i] == crate::task::close_gap(rem[i], s[p].start.date, s[p].order));
        if i < p {
            assert(rem[i] == s[i]);
        } else {
            assert(rem[i] == s[i + 1]);
        }
    }
}

/// A committed edit leaves the state the round-trip law speaks of: the
/// replacement sits where the task with that id was first found.
pub proof fn lemma_edit_reaches_round_trip_pre(s: Seq<TaskV>, id: Seq<char>, old_t: TaskV, new_t: TaskV)
    requires
        find_index_of_id(s, id) >= 0,
        old_t.id == id,
        new_t.id == id,
    ensures
        round_trip_pre(
            spec_replace_first(s, id, new_t),
            OperationV::EditTask { task_id: id, old_task: old_t, new_task: new_t },
        ),
{
    let p = find_index_of_id(s, id);
    lemma_find_index_of_id(s, id);
    let new = s.update(p, new_t);
    lemma_find_index_of_id(new, id);
    assert(new[p].id == id);
    assert(forall|i: int| 0 <= i < p ==> (#[trigger] new[i]).id == s[i].id);
    assert(find_index_of_id(new, id) == p);
}

proof fn lemma_filter_id_all_kept(s: Seq<TaskV>, id: Seq<char>)
    requires
        forall|i: int| 0 <= i < s.len() ==> (#[trigger] s[i]).id != id,
    ensures
        spec_retain_without_id(s, id) == s,
    decreases s.len(),
{
    reveal(Seq::filter);
    if s.len() > 0 {
        assert forall|i: int| 0 <= i < s.drop_last().len() implies (#[trigger] s.drop_last()[i]).id
            != id by {
            assert(s.drop_last()[i] == s[i]);
        }
        lemma_filter_id_all_kept(s.drop_last(), id);
        assert(spec_retain_without_id(s, id) =~= s);
    }
}

/// Undo/redo round trip: a committed mutation, undone and then redone,
/// leaves the collection exactly as it stood after the first commit.
pub proof fn lemma_undo_redo_round_trip(s: Seq<TaskV>, op: OperationV)
    requires
        round_trip_pre(s, op),
    ensures
        spec_apply_redo(spec_apply_undo(s, op), op) == s,
{
    reveal(Seq::filter);
    match op {
        OperationV::CreateTask { task } => {
            assert(s.drop_last().push(task) =~= s);
            assert forall|i: int|
                0 <= i < s.drop_last().len() implies (#[trigger] s.drop_last()[i]).id
                != task.id by {
                assert(s.drop_last()[i] == s[i]);
            }
            lemma_filter_id_all_kept(s.drop_last(), task.id);
            assert(spec_retain_without_id(s, task.id) == s.drop_last());
        },
        OperationV::DeleteTask { task, .. } => {
            let grown = s.push(task);
            assert(grown.drop_last() =~= s);
            lemma_filter_id_all_kept(s, task.id);
            assert(spec_retain_without_id(grown, task.id) == s);
        },
        OperationV::EditTask { task_id, old_task, new_task } => {
            let p = find_index_of_id(s, task_id);
            lemma_find_index_of_id(s, task_id);
            let mid = s.update(p, old_task);
            lemma_find_index_of_id(mid, task_id);
            assert(mid[p].id == task_id);
            assert(forall|i: int| 0 <= i < p ==> (#[trigger] mid[i]).id == s[i].id);
            assert(find_index_of_id(mid, task_id) == p);
            assert(mid.update(p, new_task) =~= s);
        },
        OperationV::YankPaste { task_id, old_date, new_date } => {
            let p = find_index_of_id(s, task_id);
            lemma_find_index_of_id(s, task_id);
            if p >= 0 {
                let t = s[p];
                let moved = spec_move_to_date(t, old_date);
                crate::date::lemma_day_index_in_range(t.end.date);
                crate::date::lemma_date_of(day_index(old_date) + day_delta(t));
                assert(moved.start.date == old_date);
                assert(day_index(moved.end.date) == day_index(old_date) + day_delta(t));
                assert(day_delta(moved) == day_delta(t));
                let mid = s.update(p, moved);
                lemma_find_index_of_id(mid, task_id);
                assert(mid[p].id == task_id);
                assert(forall|i: int| 0 <= i < p ==> (#[trigger] mid[i]).id == s[i].id);
                assert(find_index_of_id(mid, task_id) == p);
                assert(move_fits(moved, new_date));
                let back = spec_move_to_date(moved, new_date);
                assert(back.start == t.start);
                crate::date::lemma_date_of_unique(t.end.date);
                assert(day_index(new_date) + day_delta(moved) == day_index(t.end.date));
                assert(back.end.date == t.end.date);
                assert(back =~= t);
                assert(mid.update(p, back) =~= s);
            }
        },
    }
}


/// Every task is well formed and lives on a navigable day.
pub open spec fn data_wf(s: Seq<TaskV>) -> bool {
    forall|i: int|
        0 <= i < s.len() ==> task_wf(#[trigger] s[i]) && nav_date_ok(s[i].start.date)
}

/// The snapshots an operation carries are well formed, so that applying it
/// in either direction keeps the collection well formed.
pub open spec fn op_wf(op: OperationV) -> bool {
    match op {
        OperationV::DeleteTask { task, .. } => task_wf(task) && nav_date_ok(task.start.date),
        OperationV::EditTask { task_id, old_task, new_task } => task_wf(old_task) && nav_date_ok(
            old_task.start.date,
        ) && task_wf(new_task) && nav_date_ok(new_task.start.date) && old_task.id == task_id
            && new_task.id == task_id,
        OperationV::CreateTask { task } => task_wf(task) && nav_date_ok(task.start.date),
        OperationV::YankPaste { old_date, new_date, .. } => nav_date_ok(old_date) && nav_date_ok(
            new_date,
        ),
    }
}

pub open spec fn ops_wf(s: Seq<OperationV>) -> bool {
    forall|i: int| 0 <= i < s.len() ==> op_wf(#[trigger] s[i])
}

/// Mathematical shadow of `Session`.
#[verifier::ext_equal]
pub ghost struct SessionV {
    pub data: Seq<TaskV>,
    pub view: MonthViewV,
    pub undo: UndoStackV,
    pub yanked: Option<TaskV>,
    pub pending_insert_order: Option<u32>,
}

pub open spec fn session_wf(v: SessionV) -> bool {
    &&& data_wf(v.data)
    &&& view_wf(v.view)
    &&& ops_wf(v.undo.undo)
    &&& ops_wf(v.undo.redo)
    &&& match v.yanked {
        Some(t) => task_wf(t) && nav_date_ok(t.start.date),
        None => true,
    }
}

/// One running sitting: the task collection, the view, the undo log, the
/// yank buffer and a pending insertion position.
#[derive(Debug)]
pub struct Session {
    pub data: TaskData,
    pub view: MonthView,
    pub undo_stack: UndoStack,
    pub yanked_task: Option<Task>,
    pub pending_insert_order: Option<u32>,
}

impl View for Session {
    type V = SessionV;

    open spec fn view(&self) -> SessionV {
        SessionV {
            data: self.data@,
            view: self.view@,
            undo: self.undo_stack@,
            yanked: match self.yanked_task {
                Some(t) => Some(t@),
                None => None,
            },
            pending_insert_order: self.pending_insert_order,
        }
    }
}

impl Session {
    /// A fresh session over a loaded collection, anchored at `today`.
    pub fn new(data: TaskData, today: Date, max_undo: usize) -> (r: Session)
        requires
            data_wf(data@),
            nav_date_ok(today),
        ensures
            session_wf(r@),
            r@.data == data@,
            r@.view.current_date == today,
            r@.view.selection == SelectionTypeV::Day(today),
            r@.undo.undo.len() == 0,
            r@.undo.redo.len() == 0,
            r@.undo.max_size == max_undo,
            r@.yanked is None,
            r@.pending_insert_order is None,
    {
        Session {
            data,
            view: MonthView::new(today),
            undo_stack: UndoStack::new(max_undo),
            yanked_task: None,
            pending_insert_order: None,
        }
    }

    /// The position a task inserted "below" the cursor takes: after the
    /// selected task, or after the day's last task.
    pub fn insert_order_below(&self) -> (r: u32)
        requires
            forall|i: int| 0 <= i < self@.data.len() ==> (#[trigger] self@.data[i]).order < u32::MAX,
        ensures
            ({
                let tv = self@.data;
                match self@.view.selection {
                    SelectionTypeV::Task(id) => {
                        let p = find_index_of_id(tv, id);
                        if p >= 0 {
                            r == tv[p].order + 1
                        } else {
                            r == day_max_order(tv, crate::month_view::selected_date_spec(self@.view, tv)) + 1
                        }
                    },
                    SelectionTypeV::Day(d) => r == day_max_order(tv, d) + 1,
                }
            }),
    {
        let selected_date = self.view.get_selected_date(&self.data.events);
        match self.view.get_current_task_order(&self.data.events) {
            Some(current_order) => {
                proof {
                    match self@.view.selection {
                        SelectionTypeV::Task(id) => {
                            lemma_find_index_of_id(self@.data, id);
                        },
                        SelectionTypeV::Day(_) => {},
                    }
                }
                current_order + 1
            },
            None => {
                let mx = self.data.max_order_for_date(selected_date);
                proof {
                    crate::task::lemma_day_count_is_day_seq_len(self@.data, selected_date);
                    if mx == u32::MAX {
                        let w = choose|i: int|
                            0 <= i < self@.data.len() && on_date(#[trigger] self@.data[i], selected_date)
                                && self@.data[i].order == mx;
                    }
                }
                mx + 1
            },
        }
    }

    /// The position a task inserted "above" the cursor takes: the selected
    /// task's own slot, or the front of the day.
    pub fn insert_order_above(&self) -> (r: u32)
        ensures
            ({
                let tv = self@.data;
                match self@.view.selection {
                    SelectionTypeV::Task(id) => {
                        let p = find_index_of_id(tv, id);
                        if p >= 0 {
                            r == tv[p].order
                        } else {
                            r == 0
                        }
                    },
                    SelectionTypeV::Day(_) => r == 0,
                }
            }),
    {
        match self.view.get_current_task_order(&self.data.events) {
            Some(current_order) => current_order,
            None => 0,
        }
    }

    /// Flips the completion flag of the selected task; nothing happens
    /// under a day selection or when the task is gone.
    pub fn toggle_selected_complete(&mut self) -> (r: bool)
        requires
            session_wf(old(self)@),
        ensures
            session_wf(final(self)@),
            ({
                let o = old(self)@;
                let f = final(self)@;
                match o.view.selection {
                    SelectionTypeV::Task(id) => {
                        let p = find_index_of_id(o.data, id);
                        if p >= 0 {
                            r && f == (SessionV {
                                data: o.data.update(
                                    p,
                                    TaskV { completed: !o.data[p].completed, ..o.data[p] },
                                ),
                                ..o
                            })
                        } else {
                            !r && f == o
                        }
                    },
                    SelectionTypeV::Day(_) => !r && f == o,
                }
            }),
    {
        match self.view.get_selected_task_id() {
            Some(task_id) => {
                match find_task_by_id(&self.data.events, &task_id) {
                    Some(p) => {
                        let done = self.data.events[p].completed;
                        self.data.events[p].completed = !done;
                        proof {
                            let o = old(self)@;
                            let pp = find_index_of_id(o.data, task_id@);
                            assert(task_views(self.data.events@) =~= o.data.update(
                                pp,
                                TaskV { completed: !o.data[pp].completed, ..o.data[pp] },
                            ));
                            assert(self@ =~= (SessionV {
                                data: o.data.update(
                                    pp,
                                    TaskV { completed: !o.data[pp].completed, ..o.data[pp] },
                                ),
                                ..o
                            }));
                        }
                        true
                    },
                    None => false,
                }
            },
            None => false,
        }
    }

    /// Copies the selected task into the yank buffer.
    pub fn yank_selected(&mut self) -> (r: bool)
        requires
            session_wf(old(self)@),
        ensures
            session_wf(final(self)@),
            ({
                let o = old(self)@;
                let f = final(self)@;
                match o.view.selection {
                    SelectionTypeV::Task(id) => {
                        let p = find_index_of_id(o.data, id);
                        if p >= 0 {
                            r && f == (SessionV { yanked: Some(o.data[p]), ..o })
                        } else {
                            !r && f == o
                        }
                    },
                    SelectionTypeV::Day(_) => !r && f == o,
                }
            }),
    {
        match self.view.get_selected_task_id() {
            Some(task_id) => {
                match find_task_by_id(&self.data.events, &task_id) {
                    Some(p) => {
                        let t = self.data.events[p].clone();
                        self.yanked_task = Some(t);
                        proof {
                            let o = old(self)@;
                            let pp = find_index_of_id(o.data, task_id@);
                            assert(self@ =~= (SessionV { yanked: Some(o.data[pp]), ..o }));
                        }
                        true
                    },
                    None => false,
                }
            },
            None => false,
        }
    }
}


proof fn lemma_ops_wf_push(undo: Seq<OperationV>, max: nat, op: OperationV)
    requires
        ops_wf(undo),
        op_wf(op),
    ensures
        ops_wf(push_model(undo, max, op)),
{
    let grown = undo.push(op);
    assert forall|i: int| 0 <= i < grown.len() implies op_wf(#[trigger] grown[i]) by {
        if i < undo.len() {
            assert(grown[i] == undo[i]);
        }
    }
    if grown.len() > max {
        assert forall|i: int| 0 <= i < grown.drop_first().len() implies op_wf(
            #[trigger] grown.drop_first()[i],
        ) by {
            assert(grown.drop_first()[i] == grown[i + 1]);
        }
    }
}

impl Session {
    /// Commits a newly created task: inserted at the pending position where
    /// one was prepared (the cursor then moves onto it), else appended after
    /// the day's last task. The operation is recorded and any redo history
    /// is cleared.
    pub fn commit_new_task(&mut self, task: Task)
        requires
            session_wf(old(self)@),
            task_wf(task@),
            nav_date_ok(task@.start.date),
            forall|i: int| 0 <= i < old(self)@.data.len() ==> (#[trigger] old(self)@.data[i]).order < u32::MAX,
        ensures
            session_wf(final(self)@),
            ({
                let o = old(self)@;
                let f = final(self)@;
                let date = task@.start.date;
                let ord = match o.pending_insert_order {
                    Some(w) => w,
                    None => ((day_max_order(o.data, date) + 1) as u32),
                };
                &&& f.data == crate::task::spec_insert_at(o.data, task@, ord)
                &&& f.undo.undo == push_model(
                    o.undo.undo,
                    o.undo.max_size,
                    OperationV::CreateTask { task: with_order(task@, ord) },
                )
                &&& f.undo.redo.len() == 0
                &&& f.undo.max_size == o.undo.max_size
                &&& f.pending_insert_order is None
                &&& f.yanked == o.yanked
                &&& f.view.current_date == o.view.current_date
                &&& f.view.weeks == o.view.weeks
                &&& f.view.wrap_enabled == o.view.wrap_enabled
                &&& match o.pending_insert_order {
                    None => f.view.selection == o.view.selection,
                    Some(w) => {
                        let nd = f.data;
                        if exists|i: int|
                            0 <= i < nd.len() && on_date(#[trigger] nd[i], date) && nd[i].order
                                == w {
                            exists|i: int|
                                0 <= i < nd.len() && on_date(#[trigger] nd[i], date) && nd[i].order
                                    == w && f.view.selection == SelectionTypeV::Task(nd[i].id)
                        } else {
                            f.view.selection == o.view.selection
                        }
                    },
                }
            }),
    {
        let date = task.start.date;
        let pending = self.pending_insert_order;
        self.pending_insert_order = None;
        let ord = match pending {
            Some(w) => w,
            None => {
                let mx = self.data.max_order_for_date(date);
                proof {
                    crate::task::lemma_day_count_is_day_seq_len(self@.data, date);
                    if mx == u32::MAX {
                        let w = choose|i: int|
                            0 <= i < self@.data.len() && on_date(#[trigger] self@.data[i], date)
                                && self@.data[i].order == mx;
                    }
                }
                mx + 1
            },
        };
        let mut task = task;
        let ghost taskv = task@;
        task.order = ord;
        let op_task = task.clone();
        proof {
            assert(op_task@ =~= with_order(taskv, ord));
        }
        self.data.insert_task_at_order(task, ord);
        proof {
            let o = old(self)@;
            assert(crate::task::spec_insert_at(o.data, with_order(taskv, ord), ord)
                =~= crate::task::spec_insert_at(o.data, taskv, ord));
            let nd = self@.data;
            assert forall|i: int| 0 <= i < nd.len() implies task_wf(#[trigger] nd[i])
                && nav_date_ok(nd[i].start.date) by {
                if i < o.data.len() {
                    assert(nd[i] == crate::task::shift_up(o.data[i], date, ord));
                }
            }
        }
        if pending.is_some() {
            self.view.select_task_by_order(date, ord, &self.data.events);
        }
        self.undo_stack.push(Operation::CreateTask { task: op_task });
        proof {
            let o = old(self)@;
            lemma_ops_wf_push(
                o.undo.undo,
                o.undo.max_size,
                OperationV::CreateTask { task: with_order(taskv, ord) },
            );
        }
    }

    /// Commits an edit of the task with the given id: its snapshot is
    /// replaced, the operation recorded, the redo history cleared. Nothing
    /// happens when no task has the id.
    pub fn commit_edit_task(&mut self, task_id: &String, new_task: Task) -> (r: bool)
        requires
            session_wf(old(self)@),
            task_wf(new_task@),
            nav_date_ok(new_task@.start.date),
            new_task@.id == task_id@,
        ensures
            session_wf(final(self)@),
            ({
                let o = old(self)@;
                let f = final(self)@;
                let p = find_index_of_id(o.data, task_id@);
                if p >= 0 {
                    &&& r
                    &&& f.data == spec_replace_first(o.data, task_id@, new_task@)
                    &&& f.undo.undo == push_model(
                        o.undo.undo,
                        o.undo.max_size,
                        OperationV::EditTask {
                            task_id: task_id@,
                            old_task: o.data[p],
                            new_task: new_task@,
                        },
                    )
                    &&& f.undo.redo.len() == 0
                    &&& f.undo.max_size == o.undo.max_size
                    &&& f.view == o.view
                    &&& f.yanked == o.yanked
                    &&& f.pending_insert_order == o.pending_insert_order
                } else {
                    !r && f == o
                }
            }),
    {
        match find_task_by_id(&self.data.events, task_id) {
            Some(p) => {
                let old_task = self.data.events[p].clone();
                let stored = new_task.clone();
                self.data.events[p] = stored;
                proof {
                    let o = old(self)@;
                    let pp = find_index_of_id(o.data, task_id@);
                    assert(task_views(self.data.events@) =~= o.data.update(pp, new_task@));
                    assert forall|i: int| 0 <= i < self@.data.len() implies task_wf(
                        #[trigger] self@.data[i],
                    ) && nav_date_ok(self@.data[i].start.date) by {
                        if i != pp {
                            assert(self@.data[i] == o.data[i]);
                        }
                    }
                }
                self.undo_stack.push(
                    Operation::EditTask { task_id: task_id.clone(), old_task, new_task },
                );
                proof {
                    let o = old(self)@;
                    lemma_find_index_of_id(o.data, task_id@);
                    let pp = find_index_of_id(o.data, task_id@);
                    lemma_ops_wf_push(
                        o.undo.undo,
                        o.undo.max_size,
                        OperationV::EditTask {
                            task_id: task_id@,
                            old_task: o.data[pp],
                            new_task: new_task@,
                        },
                    );
                }
                true
            },
            None => false,
        }
    }

    /// Deletes the selected task, closing the order gap on its day; the
    /// task moves to the yank buffer, the operation is recorded, the redo
    /// history is cleared, and the cursor lands on the day's first
    /// remaining task or the day itself. Nothing happens under a day
    /// selection or when the task is gone.
    pub fn delete_selected_task(&mut self) -> (r: bool)
        requires
            session_wf(old(self)@),
        ensures
            session_wf(final(self)@),
            ({
                let o = old(self)@;
                let f = final(self)@;
                match o.view.selection {
                    SelectionTypeV::Task(id) => {
                        let p = find_index_of_id(o.data, id);
                        if p >= 0 {
                            let removed = o.data[p];
                            let date = removed.start.date;
                            let nd = crate::task::spec_remove_reorder(o.data, p);
                            &&& r
                            &&& f.data == nd
                            &&& f.yanked == Some(removed)
                            &&& f.undo.undo == push_model(
                                o.undo.undo,
                                o.undo.max_size,
                                OperationV::DeleteTask { task: removed, original_date: date },
                            )
                            &&& f.undo.redo.len() == 0
                            &&& f.undo.max_size == o.undo.max_size
                            &&& f.view.current_date == o.view.current_date
                            &&& f.view.weeks == o.view.weeks
                            &&& f.view.wrap_enabled == o.view.wrap_enabled
                            &&& f.pending_insert_order == o.pending_insert_order
                            &&& crate::month_view::lands_on_day(nd, date, f.view.selection)
                        } else {
                            !r && f == o
                        }
                    },
                    SelectionTypeV::Day(_) => !r && f == o,
                }
            }),
    {
        match self.view.get_selected_task_id() {
            Some(task_id) => {
                proof {
                    lemma_find_index_of_id(self@.data, task_id@);
                }
                match self.data.remove_task_and_reorder(task_id.as_str()) {
                    Some(task) => {
                        let task_date = task.start.date;
                        proof {
                            let o = old(self)@;
                            let pp = find_index_of_id(o.data, task_id@);
                            assert(task@ == o.data[pp]);
                            let nd = self@.data;
                            assert forall|i: int| 0 <= i < nd.len() implies task_wf(
                                #[trigger] nd[i],
                            ) && nav_date_ok(nd[i].start.date) by {
                                let rem = o.data.remove(pp);
                                assert(nd[i] == crate::task::close_gap(
                                    rem[i],
                                    o.data[pp].start.date,
                                    o.data[pp].order,
                                ));
                                if i < pp {
                                    assert(rem[i] == o.data[i]);
                                } else {
                                    assert(rem[i] == o.data[i + 1]);
                                }
                            }
                        }
                        self.yanked_task = Some(task.clone());
                        self.undo_stack.push(
                            Operation::DeleteTask { task, original_date: task_date },
                        );
                        proof {
                            let o = old(self)@;
                            let pp = find_index_of_id(o.data, task_id@);
                            lemma_ops_wf_push(
                                o.undo.undo,
                                o.undo.max_size,
                                OperationV::DeleteTask {
                                    task: o.data[pp],
                                    original_date: o.data[pp].start.date,
                                },
                            );
                        }
                        match find_first_task(&self.data.events, task_date) {
                            Some(i) => {
                                let tid = self.data.events[i].id.clone();
                                self.view.selection = Selection {
                                    selection_type: SelectionType::Task(tid),
                                };
                                proof {
                                    let nd = self@.data;
                                    assert(is_min_order_task(nd, task_date, i as int)
                                        && self@.view.selection == SelectionTypeV::Task(
                                        nd[i as int].id,
                                    ));
                                }
                            },
                            None => {
                                self.view.selection = Selection {
                                    selection_type: SelectionType::Day(task_date),
                                };
                            },
                        }
                        true
                    },
                    None => false,
                }
            },
            None => false,
        }
    }
}


proof fn lemma_retain_id_wf(s: Seq<TaskV>, id: Seq<char>)
    requires
        data_wf(s),
    ensures
        data_wf(spec_retain_without_id(s, id)),
    decreases s.len(),
{
    reveal(Seq::filter);
    if s.len() > 0 {
        assert forall|i: int| 0 <= i < s.drop_last().len() implies task_wf(
            #[trigger] s.drop_last()[i],
        ) && nav_date_ok(s.drop_last()[i].start.date) by {
            assert(s.drop_last()[i] == s[i]);
        }
        lemma_retain_id_wf(s.drop_last(), id);
        let kept = spec_retain_without_id(s.drop_last(), id);
        if s.last().id != id {
            assert(spec_retain_without_id(s, id) == kept.push(s.last()));
            assert forall|i: int| 0 <= i < kept.push(s.last()).len() implies task_wf(
                #[trigger] kept.push(s.last())[i],
            ) && nav_date_ok(kept.push(s.last())[i].start.date) by {
                if i < kept.len() {
                    assert(kept.push(s.last())[i] == kept[i]);
                }
            }
        }
    }
}

/// Removes every task with the given id from the collection.
fn retain_without_id(data: &mut TaskData, id: &String)
    ensures
        final(data)@ == spec_retain_without_id(old(data)@, id@),
{
    let n = data.events.len();
    let mut kept: Vec<Task> = Vec::new();
    let mut i: usize = 0;
    proof {
        reveal(Seq::filter);
        assert(task_views(kept@) =~= spec_retain_without_id(
            task_views(data.events@.subrange(0, 0)),
            id@,
        ));
    }
    while i < n
        invariant
            n == data.events@.len(),
            0 <= i <= n,
            task_views(kept@) == spec_retain_without_id(
                task_views(data.events@.subrange(0, i as int)),
                id@,
            ),
        decreases n - i,
    {
        proof {
            reveal(Seq::filter);
            let prev = task_views(data.events@.subrange(0, i as int));
            let cur = task_views(data.events@.subrange(0, i as int + 1));
            assert(data.events@.subrange(0, i as int + 1).drop_last() == data.events@.subrange(
                0,
                i as int,
            ));
            assert(cur.drop_last() =~= prev);
            assert(cur.last() == data.events@[i as int]@);
        }
        if !(data.events[i].id == *id) {
            let t = data.events[i].clone();
            kept.push(t);
            proof {
                assert(task_views(kept@) =~= task_views(kept@.drop_last()).push(kept@.last()@));
            }
        }
        i = i + 1;
    }
    proof {
        assert(data.events@.subrange(0, n as int) == data.events@);
    }
    data.events = kept;
}

/// Replaces the first task with the given id by the given snapshot.
fn replace_first_task(data: &mut TaskData, id: &String, snapshot: Task)
    ensures
        final(data)@ == spec_replace_first(old(data)@, id@, snapshot@),
{
    match find_task_by_id(&data.events, id) {
        Some(p) => {
            data.events[p] = snapshot;
            proof {
                let o = old(data)@;
                let pp = find_index_of_id(o, id@);
                assert(task_views(data.events@) =~= o.update(pp, snapshot@));
            }
        },
        None => {},
    }
}

/// Moves the first task with the given id onto day `d`, keeping its times
/// of day and whole-day span; nothing happens when no task has the id or
/// the move would leave the model.
fn move_first_to_date(data: &mut TaskData, id: &String, d: Date)
    requires
        data_wf(old(data)@),
        nav_date_ok(d),
    ensures
        final(data)@ == spec_move_first_to_date(old(data)@, id@, d),
        data_wf(final(data)@),
{
    proof {
        lemma_find_index_of_id(old(data)@, id@);
    }
    match find_task_by_id(&data.events, id) {
        Some(p) => {
            let ghost o = data@;
            let ghost pp = p as int;
            let ghost t = o[pp];
            let sd = data.events[p].start.date;
            let ed = data.events[p].end.date;
            proof {
                assert(task_wf(t));
                assert(day_index(t.start.date) <= day_index(t.end.date)) by {
                    if day_index(t.start.date) > day_index(t.end.date) {
                        assert(crate::task::ts_index(t.start) > crate::task::ts_index(t.end));
                    }
                }
            }
            let s_idx = crate::date::date_index(&sd);
            let e_idx = crate::date::date_index(&ed);
            let delta = e_idx - s_idx;
            match crate::date::try_add_days(&d, delta) {
                Some(ned) => {
                    proof {
                        crate::date::lemma_date_of_unique(ned);
                        assert(move_fits(t, d));
                    }
                    let ssecs = data.events[p].start.secs;
                    let esecs = data.events[p].end.secs;
                    data.events[p].start = Timestamp { date: d, secs: ssecs };
                    data.events[p].end = Timestamp { date: ned, secs: esecs };
                    proof {
                        assert(data.events@[pp]@ =~= spec_move_to_date(t, d));
                        assert(task_views(data.events@) =~= o.update(pp, spec_move_to_date(t, d)));
                        let moved = spec_move_to_date(t, d);
                        assert(task_wf(moved)) by {
                            assert(crate::task::ts_index(moved.end) - crate::task::ts_index(
                                moved.start,
                            ) == crate::task::ts_index(t.end) - crate::task::ts_index(t.start));
                        }
                        assert forall|i: int| 0 <= i < data@.len() implies task_wf(
                            #[trigger] data@[i],
                        ) && nav_date_ok(data@[i].start.date) by {
                            if i != pp {
                                assert(data@[i] == o[i]);
                            }
                        }
                    }
                },
                None => {
                    proof {
                        assert(!move_fits(t, d));
                    }
                },
            }
        },
        None => {},
    }
}

impl Session {
    /// Takes back the most recent committed mutation: its inverse is
    /// applied to the collection, the operation moves to the redo stack,
    /// and the cursor follows the restored or removed task.
    pub fn undo(&mut self) -> (r: bool)
        requires
            session_wf(old(self)@),
        ensures
            session_wf(final(self)@),
            ({
                let o = old(self)@;
                let f = final(self)@;
                if o.undo.undo.len() == 0 {
                    !r && f == o
                } else {
                    let op = o.undo.undo.last();
                    &&& r
                    &&& f.data == spec_apply_undo(o.data, op)
                    &&& f.undo.undo == o.undo.undo.drop_last()
                    &&& f.undo.redo == o.undo.redo.push(op)
                    &&& f.undo.max_size == o.undo.max_size
                    &&& f.yanked == o.yanked
                    &&& f.pending_insert_order == o.pending_insert_order
                    &&& f.view.current_date == o.view.current_date
                    &&& f.view.weeks == o.view.weeks
                    &&& f.view.wrap_enabled == o.view.wrap_enabled
                    &&& match op {
                        OperationV::DeleteTask { task, .. } => f.view.selection
                            == SelectionTypeV::Task(task.id),
                        OperationV::CreateTask { task } => f.view.selection == SelectionTypeV::Day(
                            task.start.date,
                        ),
                        OperationV::EditTask { .. } => f.view.selection == o.view.selection,
                        OperationV::YankPaste { .. } => f.view.selection == o.view.selection,
                    }
                }
            }),
    {
        match self.undo_stack.undo() {
            Some(operation) => {
                proof {
                    let o = old(self)@;
                    assert(op_wf(o.undo.undo[o.undo.undo.len() - 1]));
                    assert(ops_wf(o.undo.undo.drop_last())) by {
                        assert forall|i: int| 0 <= i < o.undo.undo.drop_last().len() implies op_wf(
                            #[trigger] o.undo.undo.drop_last()[i],
                        ) by {
                            assert(o.undo.undo.drop_last()[i] == o.undo.undo[i]);
                        }
                    }
                    assert(ops_wf(o.undo.redo.push(o.undo.undo.last()))) by {
                        assert forall|i: int|
                            0 <= i < o.undo.redo.push(o.undo.undo.last()).len() implies op_wf(
                            #[trigger] o.undo.redo.push(o.undo.undo.last())[i],
                        ) by {
                            if i < o.undo.redo.len() {
                                assert(o.undo.redo.push(o.undo.undo.last())[i] == o.undo.redo[i]);
                            }
                        }
                    }
                }
                match operation {
                    Operation::DeleteTask { task, .. } => {
                        let tid = task.id.clone();
                        self.data.events.push(task);
                        proof {
                            let o = old(self)@;
                            assert(task_views(self.data.events@) =~= o.data.push(
                                self.data.events@.last()@,
                            ));
                            assert forall|i: int| 0 <= i < self@.data.len() implies task_wf(
                                #[trigger] self@.data[i],
                            ) && nav_date_ok(self@.data[i].start.date) by {
                                if i < o.data.len() {
                                    assert(self@.data[i] == o.data[i]);
                                }
                            }
                        }
                        self.view.selection = Selection {
                            selection_type: SelectionType::Task(tid),
                        };
                    },
                    Operation::EditTask { task_id, old_task, .. } => {
                        proof {
                            lemma_find_index_of_id(self@.data, task_id@);
                        }
                        replace_first_task(&mut self.data, &task_id, old_task);
                        proof {
                            let o = old(self)@;
                            let pp = find_index_of_id(o.data, task_id@);
                            if pp >= 0 {
                                assert forall|i: int| 0 <= i < self@.data.len() implies task_wf(
                                    #[trigger] self@.data[i],
                                ) && nav_date_ok(self@.data[i].start.date) by {
                                    if i != pp {
                                        assert(self@.data[i] == o.data[i]);
                                    }
                                }
                            }
                        }
                    },
                    Operation::CreateTask { task } => {
                        let date = task.start.date;
                        retain_without_id(&mut self.data, &task.id);
                        proof {
                            let o = old(self)@;
                            lemma_retain_id_wf(o.data, task.id@);
                        }
                        self.view.selection = Selection {
                            selection_type: SelectionType::Day(date),
                        };
                    },
                    Operation::YankPaste { task_id, old_date, .. } => {
                        move_first_to_date(&mut self.data, &task_id, old_date);
                    },
                }
                true
            },
            None => {
                proof {
                    assert(self@ =~= old(self)@);
                }
                false
            },
        }
    }

    /// Re-applies the most recent undone mutation: its forward effect is
    /// applied to the collection and the operation moves back to the undo
    /// stack; the cursor follows the task.
    pub fn redo(&mut self) -> (r: bool)
        requires
            session_wf(old(self)@),
        ensures
            session_wf(final(self)@),
            ({
                let o = old(self)@;
                let f = final(self)@;
                if o.undo.redo.len() == 0 {
                    !r && f == o
                } else {
                    let op = o.undo.redo.last();
                    &&& r
                    &&& f.data == spec_apply_redo(o.data, op)
                    &&& f.undo.redo == o.undo.redo.drop_last()
                    &&& f.undo.undo == o.undo.undo.push(op)
                    &&& f.undo.max_size == o.undo.max_size
                    &&& f.yanked == o.yanked
                    &&& f.pending_insert_order == o.pending_insert_order
                    &&& f.view.current_date == o.view.current_date
                    &&& f.view.weeks == o.view.weeks
                    &&& f.view.wrap_enabled == o.view.wrap_enabled
                    &&& match op {
                        OperationV::DeleteTask { task, .. } => f.view.selection
                            == SelectionTypeV::Day(task.start.date),
                        OperationV::CreateTask { task } => f.view.selection
                            == SelectionTypeV::Task(task.id),
                        OperationV::EditTask { .. } => f.view.selection == o.view.selection,
                        OperationV::YankPaste { .. } => f.view.selection == o.view.selection,
                    }
                }
            }),
    {
        match self.undo_stack.redo() {
            Some(operation) => {
                proof {
                    let o = old(self)@;
                    assert(op_wf(o.undo.redo[o.undo.redo.len() - 1]));
                    assert(ops_wf(o.undo.redo.drop_last())) by {
                        assert forall|i: int| 0 <= i < o.undo.redo.drop_last().len() implies op_wf(
                            #[trigger] o.undo.redo.drop_last()[i],
                        ) by {
                            assert(o.undo.redo.drop_last()[i] == o.undo.redo[i]);
                        }
                    }
                    assert(ops_wf(o.undo.undo.push(o.undo.redo.last()))) by {
                        assert forall|i: int|
                            0 <= i < o.undo.undo.push(o.undo.redo.last()).len() implies op_wf(
                            #[trigger] o.undo.undo.push(o.undo.redo.last())[i],
                        ) by {
                            if i < o.undo.undo.len() {
                                assert(o.undo.undo.push(o.undo.redo.last())[i] == o.undo.undo[i]);
                            }
                        }
                    }
                }
                match operation {
                    Operation::DeleteTask { task, .. } => {
                        let date = task.start.date;
                        retain_without_id(&mut self.data, &task.id);
                        proof {
                            let o = old(self)@;
                            lemma_retain_id_wf(o.data, task.id@);
                        }
                        self.view.selection = Selection {
                            selection_type: SelectionType::Day(date),
                        };
                    },
                    Operation::EditTask { task_id, new_task, .. } => {
                        proof {
                            lemma_find_index_of_id(self@.data, task_id@);
                        }
                        replace_first_task(&mut self.data, &task_id, new_task);
                        proof {
                            let o = old(self)@;
                            let pp = find_index_of_id(o.data, task_id@);
                            if pp >= 0 {
                                assert forall|i: int| 0 <= i < self@.data.len() implies task_wf(
                                    #[trigger] self@.data[i],
                                ) && nav_date_ok(self@.data[i].start.date) by {
                                    if i != pp {
                                        assert(self@.data[i] == o.data[i]);
                                    }
                                }
                            }
                        }
                    },
                    Operation::CreateTask { task } => {
                        let tid = task.id.clone();
                        self.data.events.push(task);
                        proof {
                            let o = old(self)@;
                            assert(task_views(self.data.events@) =~= o.data.push(
                                self.data.events@.last()@,
                            ));
                            assert forall|i: int| 0 <= i < self@.data.len() implies task_wf(
                                #[trigger] self@.data[i],
                            ) && nav_date_ok(self@.data[i].start.date) by {
                                if i < o.data.len() {
                                    assert(self@.data[i] == o.data[i]);
                                }
                            }
                        }
                        self.view.selection = Selection {
                            selection_type: SelectionType::Task(tid),
                        };
                    },
                    Operation::YankPaste { task_id, new_date, .. } => {
                        move_first_to_date(&mut self.data, &task_id, new_date);
                    },
                }
                true
            },
            None => {
                proof {
                    assert(self@ =~= old(self)@);
                }
                false
            },
        }
    }
}


/// The slot a pasted task takes: after the selected task ("below") or at
/// the selected task's own slot ("above"); after the day's last task, or
/// the front of the day, under a day selection.
pub open spec fn paste_order(o: SessionV, above: bool, sd: Date) -> u32 {
    if above {
        match o.view.selection {
            SelectionTypeV::Task(id) => {
                let p = find_index_of_id(o.data, id);
                if p >= 0 {
                    o.data[p].order
                } else {
                    0
                }
            },
            SelectionTypeV::Day(_) => 0,
        }
    } else {
        match o.view.selection {
            SelectionTypeV::Task(id) => {
                let p = find_index_of_id(o.data, id);
                if p >= 0 {
                    ((o.data[p].order + 1) as u32)
                } else {
                    ((day_max_order(o.data, sd) + 1) as u32)
                }
            },
            SelectionTypeV::Day(_) => ((day_max_order(o.data, sd) + 1) as u32),
        }
    }
}

impl Session {
    /// Pastes the yanked task onto the cursor's day under a fresh id,
    /// keeping its times of day and whole-day span: inserted at the slot
    /// after the selected task ("below") or at the selected task's own
    /// slot ("above"), with the day's tail shifted; the cursor moves onto
    /// it and the operation is recorded. Nothing happens with an empty
    /// yank buffer, or where the moved task would leave the date model.
    #[verifier::rlimit(100)]
    #[verifier::spinoff_prover]
    pub fn paste_yanked(&mut self, new_id: String, above: bool) -> (r: bool)
        requires
            session_wf(old(self)@),
            forall|i: int| 0 <= i < old(self)@.data.len() ==> (#[trigger] old(self)@.data[i]).order < u32::MAX,
        ensures
            session_wf(final(self)@),
            old(self)@.yanked is None ==> !r && final(self)@ == old(self)@,
            ({
                let o = old(self)@;
                match o.yanked {
                    None => true,
                    Some(yt) => {
                        let sd = crate::month_view::selected_date_spec(o.view, o.data);
                        let t1 = TaskV { id: new_id@, ..yt };
                        !move_fits(t1, sd) ==> !r && final(self)@ == o
                    },
                }
            }),
            ({
                let o = old(self)@;
                let f = final(self)@;
                match o.yanked {
                    None => true,
                    Some(yt) => {
                        let sd = crate::month_view::selected_date_spec(o.view, o.data);
                        let t1 = TaskV { id: new_id@, ..yt };
                        let moved = spec_move_to_date(t1, sd);
                        let ord = paste_order(o, above, sd);
                        move_fits(t1, sd) ==> {
                            &&& r
                            &&& f.data == crate::task::spec_insert_at(o.data, moved, ord)
                            &&& f.undo.undo == push_model(
                                o.undo.undo,
                                o.undo.max_size,
                                OperationV::CreateTask { task: with_order(moved, ord) },
                            )
                            &&& f.undo.redo.len() == 0
                            &&& f.undo.max_size == o.undo.max_size
                            &&& f.yanked == o.yanked
                            &&& f.pending_insert_order == o.pending_insert_order
                            &&& f.view.current_date == o.view.current_date
                            &&& f.view.weeks == o.view.weeks
                            &&& f.view.wrap_enabled == o.view.wrap_enabled
                        }
                    },
                }
            }),
            ({
                let o = old(self)@;
                let f = final(self)@;
                match o.yanked {
                    None => true,
                    Some(yt) => {
                        let sd = crate::month_view::selected_date_spec(o.view, o.data);
                        let t1 = TaskV { id: new_id@, ..yt };
                        let ord = paste_order(o, above, sd);
                        move_fits(t1, sd) ==> {
                            let nd = f.data;
                            if exists|i: int|
                                0 <= i < nd.len() && on_date(#[trigger] nd[i], sd) && nd[i].order
                                    == ord {
                                exists|i: int|
                                    0 <= i < nd.len() && on_date(#[trigger] nd[i], sd)
                                        && nd[i].order == ord && f.view.selection
                                        == SelectionTypeV::Task(nd[i].id)
                            } else {
                                f.view.selection == o.view.selection
                            }
                        }
                    },
                }
            }),
    {
        let yt = match &self.yanked_task {
            Some(t) => t.clone(),
            None => {
                return false;
            },
        };
        let selected_date = self.view.get_selected_date(&self.data.events);
        proof {
            match self@.view.selection {
                SelectionTypeV::Task(id) => {
                    lemma_find_index_of_id(self@.data, id);
                },
                SelectionTypeV::Day(_) => {},
            }
            assert(nav_date_ok(selected_date));
        }
        let ord = if above {
            match self.view.get_current_task_order(&self.data.events) {
                Some(w) => w,
                None => 0,
            }
        } else {
            match self.view.get_current_task_order(&self.data.events) {
                Some(w) => w + 1,
                None => {
                    let mx = self.data.max_order_for_date(selected_date);
                    proof {
                        crate::task::lemma_day_count_is_day_seq_len(self@.data, selected_date);
                        if mx == u32::MAX {
                            let w = choose|i: int|
                                0 <= i < self@.data.len() && on_date(
                                    #[trigger] self@.data[i],
                                    selected_date,
                                ) && self@.data[i].order == mx;
                        }
                    }
                    mx + 1
                },
            }
        };
        let mut new_task = yt;
        new_task.id = new_id;
        let ghost t1 = new_task@;
        proof {
            assert(t1 =~= (TaskV { id: new_id@, ..old(self)@.yanked->Some_0 }));
            assert(task_wf(t1));
            assert(day_index(t1.start.date) <= day_index(t1.end.date)) by {
                if day_index(t1.start.date) > day_index(t1.end.date) {
                    assert(crate::task::ts_index(t1.start) > crate::task::ts_index(t1.end));
                }
            }
        }
        let s_idx = crate::date::date_index(&new_task.start.date);
        let e_idx = crate::date::date_index(&new_task.end.date);
        let delta = e_idx - s_idx;
        match crate::date::try_add_days(&selected_date, delta) {
            Some(ned) => {
                proof {
                    crate::date::lemma_date_of_unique(ned);
                    assert(move_fits(t1, selected_date));
                }
                let ssecs = new_task.start.secs;
                let esecs = new_task.end.secs;
                new_task.start = Timestamp { date: selected_date, secs: ssecs };
                new_task.end = Timestamp { date: ned, secs: esecs };
                new_task.order = ord;
                proof {
                    assert(new_task@ =~= with_order(spec_move_to_date(t1, selected_date), ord));
                    let moved = spec_move_to_date(t1, selected_date);
                    assert(task_wf(moved)) by {
                        assert(crate::task::ts_index(moved.end) - crate::task::ts_index(moved.start)
                            == crate::task::ts_index(t1.end) - crate::task::ts_index(t1.start));
                    }
                }
                let op_task = new_task.clone();
                self.data.insert_task_at_order(new_task, ord);
                proof {
                    let o = old(self)@;
                    let moved = spec_move_to_date(t1, selected_date);
                    assert(crate::task::spec_insert_at(o.data, with_order(moved, ord), ord)
                        =~= crate::task::spec_insert_at(o.data, moved, ord));
                    let nd = self@.data;
                    assert forall|i: int| 0 <= i < nd.len() implies task_wf(#[trigger] nd[i])
                        && nav_date_ok(nd[i].start.date) by {
                        if i < o.data.len() {
                            assert(nd[i] == crate::task::shift_up(o.data[i], selected_date, ord));
                        }
                    }
                }
                self.view.select_task_by_order(selected_date, ord, &self.data.events);
                self.undo_stack.push(Operation::CreateTask { task: op_task });
                proof {
                    let o = old(self)@;
                    let moved = spec_move_to_date(t1, selected_date);
                    lemma_ops_wf_push(
                        o.undo.undo,
                        o.undo.max_size,
                        OperationV::CreateTask { task: with_order(moved, ord) },
                    );
                    let sd = crate::month_view::selected_date_spec(o.view, o.data);
                    assert(sd == selected_date);
                    assert(paste_order(o, above, sd) == ord);
                    let nd = self@.data;
                    assert(nd == task_views(self.data.events@));
                    if exists|i: int|
                        0 <= i < nd.len() && on_date(#[trigger] nd[i], sd) && nd[i].order == ord {
                        let w = choose|i: int|
                            0 <= i < nd.len() && on_date(#[trigger] nd[i], sd) && nd[i].order
                                == ord && self@.view.selection == SelectionTypeV::Task(nd[i].id);
                        assert(0 <= w < nd.len() && on_date(nd[w], sd) && nd[w].order == ord
                            && self@.view.selection == SelectionTypeV::Task(nd[w].id));
                    }
                }
                true
            },
            None => {
                proof {
                    assert(!move_fits(t1, selected_date));
                }
                false
            },
        }
    }
}


/// Checks, day by day, that a loaded collection is fit for a session:
/// every task well formed and on a navigable day.
pub fn data_is_wf(data: &TaskData) -> (b: bool)
    ensures
        b == data_wf(data@),
{
    let n = data.events.len();
    let mut i: usize = 0;
    while i < n
        invariant
            n == data.events@.len(),
            0 <= i <= n,
            forall|k: int|
                0 <= k < i ==> task_wf(#[trigger] data@[k]) && nav_date_ok(data@[k].start.date),
        decreases n - i,
    {
        let t = &data.events[i];
        proof {
            assert(data@[i as int] == data.events@[i as int]@);
        }
        let ok = t.start.date.is_valid() && t.end.date.is_valid() && t.start.secs < 86400
            && t.end.secs < 86400 && t.start.date.year >= 1 && t.start.date.year <= 9999;
        if !ok {
            return false;
        }
        proof {
            crate::date::lemma_day_index_in_range(data@[i as int].start.date);
            crate::date::lemma_day_index_in_range(data@[i as int].end.date);
        }
        let si = crate::date::date_index(&t.start.date);
        let ei = crate::date::date_index(&t.end.date);
        let s_total = si * 86400 + (t.start.secs as u64);
        let e_total = ei * 86400 + (t.end.secs as u64);
        if s_total > e_total {
            return false;
        }
        i = i + 1;
    }
    true
}

} // verus!
