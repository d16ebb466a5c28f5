//! Tasks, their per-day ordering, and the flat task collection.
//!
//! A task lives on the calendar day of its `start` timestamp. Within one day
//! the `order` field gives every task a position; the collection keeps those
//! positions a contiguous run `0..n` as long as insertions use an order no
//! greater than the day's task count: `day_orders_exact` states that shape,
//! and the lemmas at the end of this module show the mutators keep it.
//!
//! Contracts are stated over views: a `Task` is abstracted to a `TaskV`,
//! a collection to a `Seq<TaskV>`.
use crate::date::{day_index, max_day_index, next_day, valid_date, Date};
use vstd::prelude::*;

verus! {

pub const SECS_PER_DAY: u32 = 86400;

/// A calendar moment: a date plus a second-of-day. The crate never needs
/// sub-second precision, and keeping the date explicit lets every contract
/// speak of a task's day directly.
#[derive(Clone, Copy, Debug, PartialEq, Eq, Structural)]
pub struct Timestamp {
    pub date: Date,
    pub secs: u32,
}

pub open spec fn ts_wf(t: Timestamp) -> bool {
    valid_date(t.date) && t.secs < SECS_PER_DAY
}

/// Seconds from the model's origin; orders timestamps totally.
pub open spec fn ts_index(t: Timestamp) -> int {
    day_index(t.date) * (SECS_PER_DAY as int) + t.secs
}

#[derive(Debug)]
pub struct TaskComment {
    pub id: String,
    pub text: String,
}

/// Mathematical shadow of `TaskComment`.
#[verifier::ext_equal]
pub ghost struct CommentV {
    pub id: Seq<char>,
    pub text: Seq<char>,
}

impl View for TaskComment {
    type V = CommentV;

    open spec fn view(&self) -> CommentV {
        CommentV { id: self.id@, text: self.text@ }
    }
}

impl Clone for TaskComment {
    fn clone(&self) -> (r: Self)
        ensures
            r@ == self@,
    {
        TaskComment { id: self.id.clone(), text: self.text.clone() }
    }
}

#[derive(Debug)]
pub struct Task {
    pub id: String,
    pub title: String,
    pub start: Timestamp,
    pub end: Timestamp,
    pub comments: Vec<TaskComment>,
    pub completed: bool,
    /// Position of the task within its day, 0-based.
    pub order: u32,
}

/// Mathematical shadow of `Task`.
#[verifier::ext_equal]
pub ghost struct TaskV {
    pub id: Seq<char>,
    pub title: Seq<char>,
    pub start: Timestamp,
    pub end: Timestamp,
    pub comments: Seq<CommentV>,
    pub completed: bool,
    pub order: u32,
}

/// The views of a sequence of comments.
pub open spec fn comment_views(s: Seq<TaskComment>) -> Seq<CommentV> {
    s.map_values(|c: TaskComment| c@)
}

impl View for Task {
    type V = TaskV;

    open spec fn view(&self) -> TaskV {
        TaskV {
            id: self.id@,
            title: self.title@,
            start: self.start,
            end: self.end,
            comments: comment_views(self.comments@),
            completed: self.completed,
            order: self.order,
        }
    }
}

/// The views of a sequence of tasks.
pub open spec fn task_views(s: Seq<Task>) -> Seq<TaskV> {
    s.map_values(|t: Task| t@)
}

pub open spec fn task_wf(t: TaskV) -> bool {
    ts_wf(t.start) && ts_wf(t.end) && ts_index(t.start) <= ts_index(t.end)
}

impl Clone for Task {
    fn clone(&self) -> (r: Self)
        ensures
            r@ == self@,
    {
        let comments = self.comments.clone();
        proof {
            assert forall|i: int| 0 <= i < self.comments@.len() implies comments@[i]@
                == self.comments@[i]@ by {
            }
            assert(comment_views(comments@) =~= comment_views(self.comments@));
            assert(self@ =~= TaskV {
                id: self.id@,
                title: self.title@,
                start: self.start,
                end: self.end,
                comments: comment_views(comments@),
                completed: self.completed,
                order: self.order,
            });
        }
        Task {
            id: self.id.clone(),
            title: self.title.clone(),
            start: self.start,
            end: self.end,
            comments,
            completed: self.completed,
            order: self.order,
        }
    }
}

/// Relies on uuid::Uuid::new_v4 and its hyphenated Display form: a random
/// version-4 UUID rendered as a string. The value is random, so nothing is
/// promised of it.
#[verifier::external_body]
fn fresh_id() -> String {
    uuid::Uuid::new_v4().to_string()
}

impl Task {
    /// A new task starting at `start`, one hour long, with a fresh random id.
    pub fn new(title: String, start: Timestamp) -> (r: Task)
        requires
            ts_wf(start),
            day_index(start.date) < max_day_index(),
        ensures
            task_wf(r@),
            r@.title == title@,
            r@.start == start,
            ts_index(r@.end) == ts_index(start) + 3600,
            r@.comments.len() == 0,
            !r@.completed,
            r@.order == 0,
    {
        let id = fresh_id();
        let end = if start.secs + 3600 < SECS_PER_DAY {
            Timestamp { date: start.date, secs: start.secs + 3600 }
        } else {
            Timestamp { date: next_day(&start.date), secs: start.secs + 3600 - SECS_PER_DAY }
        };
        let r = Task { id, title, start, end, comments: Vec::new(), completed: false, order: 0 };
        proof {
            assert(comment_views(r.comments@) =~= Seq::<CommentV>::empty());
        }
        r
    }

    /// Appends a comment with the given text and a fresh random id.
    pub fn add_comment(&mut self, text: String)
        ensures
            final(self)@.comments.len() == old(self)@.comments.len() + 1,
            final(self)@.comments.last().text == text@,
            forall|i: int|
                0 <= i < old(self)@.comments.len() ==> final(self)@.comments[i] == old(
                    self,
                )@.comments[i],
            final(self)@.id == old(self)@.id,
            final(self)@.title == old(self)@.title,
            final(self)@.start == old(self)@.start,
            final(self)@.end == old(self)@.end,
            final(self)@.completed == old(self)@.completed,
            final(self)@.order == old(self)@.order,
    {
        let comment = TaskComment { id: fresh_id(), text };
        self.comments.push(comment);
        proof {
            assert(comment_views(self.comments@) =~= comment_views(old(self).comments@).push(
                self.comments@.last()@,
            ));
        }
    }

    /// True when the task's start falls on `date`.
    pub fn is_on_date(&self, date: Date) -> (b: bool)
        ensures
            b == on_date(self@, date),
    {
        self.start.date == date
    }
}

pub open spec fn on_date(t: TaskV, date: Date) -> bool {
    t.start.date == date
}

/// The tasks of `s` that live on `date`, in collection order.
pub open spec fn day_seq(s: Seq<TaskV>, date: Date) -> Seq<TaskV> {
    s.filter(|t: TaskV| on_date(t, date))
}

/// How many tasks of `s` live on `date`.
pub open spec fn day_count(s: Seq<TaskV>, date: Date) -> nat
    decreases s.len(),
{
    if s.len() == 0 {
        0
    } else {
        day_count(s.drop_last(), date) + if on_date(s.last(), date) {
            1nat
        } else {
            0nat
        }
    }
}

pub proof fn lemma_day_count_is_day_seq_len(s: Seq<TaskV>, date: Date)
    ensures
        day_count(s, date) == day_seq(s, date).len(),
    decreases s.len(),
{
    reveal(Seq::filter);
    if s.len() > 0 {
        lemma_day_count_is_day_seq_len(s.drop_last(), date);
    }
}

/// `t` with its order replaced by `o`.
pub open spec fn with_order(t: TaskV, o: u32) -> TaskV {
    TaskV { order: o, ..t }
}

/// One step of insertion: tasks of the target day at or past the target
/// order move up one slot.
pub open spec fn shift_up(t: TaskV, date: Date, target: u32) -> TaskV {
    if on_date(t, date) && t.order >= target {
        with_order(t, (t.order + 1) as u32)
    } else {
        t
    }
}

/// The whole collection after inserting `task` at `target`: the day's tail
/// shifted up, the new task appended with the target order.
pub open spec fn spec_insert_at(s: Seq<TaskV>, task: TaskV, target: u32) -> Seq<TaskV> {
    s.map_values(|t: TaskV| shift_up(t, task.start.date, target)).push(with_order(task, target))
}

/// One step of gap closure: tasks of the removed task's day past its order
/// move down one slot.
pub open spec fn close_gap(t: TaskV, date: Date, removed_order: u32) -> TaskV {
    if on_date(t, date) && t.order > removed_order {
        with_order(t, (t.order - 1) as u32)
    } else {
        t
    }
}

/// The whole collection after removing the task at position `p` and closing
/// the order gap it leaves on its day.
pub open spec fn spec_remove_reorder(s: Seq<TaskV>, p: int) -> Seq<TaskV> {
    s.remove(p).map_values(|t: TaskV| close_gap(t, s[p].start.date, s[p].order))
}

/// Position of the first task with the given id, or -1 if there is none.
pub open spec fn find_index_of_id(s: Seq<TaskV>, id: Seq<char>) -> int
    decreases s.len(),
{
    if s.len() == 0 {
        -1
    } else if s[0].id == id {
        0
    } else {
        let r = find_index_of_id(s.drop_first(), id);
        if r == -1 {
            -1
        } else {
            r + 1
        }
    }
}

pub proof fn lemma_find_index_of_id(s: Seq<TaskV>, id: Seq<char>)
    ensures
        -1 <= find_index_of_id(s, id) < s.len(),
        find_index_of_id(s, id) == -1 <==> forall|i: int| 0 <= i < s.len() ==> s[i].id != id,
        find_index_of_id(s, id) >= 0 ==> {
            let p = find_index_of_id(s, id);
            &&& p < s.len()
            &&& s[p].id == id
            &&& forall|i: int| 0 <= i < p ==> s[i].id != id
        },
    decreases s.len(),
{
    if s.len() > 0 && s[0].id != id {
        let d = s.drop_first();
        lemma_find_index_of_id(d, id);
        let r = find_index_of_id(d, id);
        if r == -1 {
            assert forall|i: int| 0 <= i < s.len() implies s[i].id != id by {
                if i > 0 {
                    assert(d[i - 1] == s[i]);
                }
            }
        } else {
            assert(s[r + 1] == d[r]);
            assert forall|i: int| 0 <= i < r + 1 implies s[i].id != id by {
                if i > 0 {
                    assert(d[i - 1] == s[i]);
                }
            }
        }
    }
}

/// The insertion-ordered flat collection of all tasks. Its view is the
/// sequence of task views.
///
/// A day's view is handed out as an owned snapshot
/// (`get_tasks_for_date`); there is no aliasing mutable accessor, and
/// every mutation goes through the collection's own methods.
#[derive(Debug)]
pub struct TaskData {
    pub events: Vec<Task>,
}

impl View for TaskData {
    type V = Seq<TaskV>;

    open spec fn view(&self) -> Seq<TaskV> {
        task_views(self.events@)
    }
}

impl Clone for TaskData {
    fn clone(&self) -> (r: Self)
        ensures
            r@ == self@,
    {
        let events = self.events.clone();
        proof {
            assert forall|i: int| 0 <= i < self.events@.len() implies events@[i]@
                == self.events@[i]@ by {
            }
            assert(task_views(events@) =~= task_views(self.events@));
        }
        TaskData { events }
    }
}

impl Default for TaskData {
    fn default() -> (r: Self)
        ensures
            r@.len() == 0,
    {
        let d = TaskData { events: Vec::new() };
        proof {
            assert(task_views(d.events@) =~= Seq::<TaskV>::empty());
        }
        d
    }
}

pub open spec fn sorted_by_order(s: Seq<TaskV>) -> bool {
    forall|i: int, j: int| 0 <= i < j < s.len() ==> #[trigger] s[i].order <= #[trigger] s[j].order
}

/// The tasks of `s` carrying exactly order `o`, in sequence order.
pub open spec fn order_class(s: Seq<TaskV>, o: u32) -> Seq<TaskV> {
    s.filter(|t: TaskV| t.order == o)
}

proof fn lemma_order_class_none(s: Seq<TaskV>, o: u32)
    requires
        forall|k: int| 0 <= k < s.len() ==> (#[trigger] s[k]).order != o,
    ensures
        order_class(s, o) == Seq::<TaskV>::empty(),
    decreases s.len(),
{
    reveal(Seq::filter);
    if s.len() > 0 {
        assert forall|k: int| 0 <= k < s.drop_last().len() implies (#[trigger] s.drop_last()[k]).order
            != o by {
            assert(s.drop_last()[k] == s[k]);
        }
        lemma_order_class_none(s.drop_last(), o);
    }
}

proof fn lemma_order_class_push(s: Seq<TaskV>, t: TaskV, o: u32)
    ensures
        order_class(s.push(t), o) == (if t.order == o {
            order_class(s, o).push(t)
        } else {
            order_class(s, o)
        }),
{
    reveal(Seq::filter);
    assert(s.push(t).drop_last() =~= s);
    assert(s.push(t).last() == t);
}

/// Removing the first task of an order class drops that class's head.
proof fn lemma_order_class_remove_first(s: Seq<TaskV>, q: int, o: u32)
    requires
        0 <= q < s.len(),
        s[q].order == o,
        forall|k: int| 0 <= k < q ==> (#[trigger] s[k]).order != o,
    ensures
        order_class(s, o).len() > 0,
        order_class(s, o)[0] == s[q],
        order_class(s.remove(q), o) == order_class(s, o).drop_first(),
    decreases s.len(),
{
    reveal(Seq::filter);
    if q == s.len() - 1 {
        assert(s.remove(q) =~= s.drop_last());
        assert forall|k: int| 0 <= k < s.drop_last().len() implies (#[trigger] s.drop_last()[k]).order
            != o by {
            assert(s.drop_last()[k] == s[k]);
        }
        lemma_order_class_none(s.drop_last(), o);
        assert(order_class(s, o) == order_class(s.drop_last(), o).push(s.last()));
        assert(order_class(s.remove(q), o) =~= order_class(s, o).drop_first());
    } else {
        let d = s.drop_last();
        assert(d[q] == s[q]);
        assert forall|k: int| 0 <= k < q implies (#[trigger] d[k]).order != o by {
            assert(d[k] == s[k]);
        }
        lemma_order_class_remove_first(d, q, o);
        let a = order_class(d, o);
        assert(s.remove(q).drop_last() =~= d.remove(q));
        assert(s.remove(q).last() == s.last());
        if s.last().order == o {
            assert(order_class(s, o) == a.push(s.last()));
            assert(order_class(s.remove(q), o) == order_class(d.remove(q), o).push(s.last()));
            assert(a.push(s.last()).drop_first() =~= a.drop_first().push(s.last()));
            assert(order_class(s, o)[0] == a[0]);
        } else {
            assert(order_class(s, o) == a);
            assert(order_class(s.remove(q), o) == order_class(d.remove(q), o));
        }
    }
}

/// Removing a task outside an order class leaves that class alone.
proof fn lemma_order_class_remove_other(s: Seq<TaskV>, q: int, o: u32)
    requires
        0 <= q < s.len(),
        s[q].order != o,
    ensures
        order_class(s.remove(q), o) == order_class(s, o),
    decreases s.len(),
{
    reveal(Seq::filter);
    if q == s.len() - 1 {
        assert(s.remove(q) =~= s.drop_last());
    } else {
        let d = s.drop_last();
        assert(d[q] == s[q]);
        lemma_order_class_remove_other(d, q, o);
        assert(s.remove(q).drop_last() =~= d.remove(q));
        assert(s.remove(q).last() == s.last());
        if s.last().order == o {
            assert(order_class(s, o) == order_class(d, o).push(s.last()));
            assert(order_class(s.remove(q), o) == order_class(d.remove(q), o).push(s.last()));
        } else {
            assert(order_class(s, o) == order_class(d, o));
            assert(order_class(s.remove(q), o) == order_class(d.remove(q), o));
        }
    }
}

impl TaskData {
    /// All tasks on `date`, in ascending order of their `order` field.
    /// The sort is stable: for every order value, the result's run of that
    /// order equals the day's tasks of that order in collection order — so
    /// the result is exactly the day's tasks, stably sorted.
    pub fn get_tasks_for_date(&self, date: Date) -> (r: Vec<Task>)
        ensures
            sorted_by_order(task_views(r@)),
            task_views(r@).to_multiset() == day_seq(self@, date).to_multiset(),
            r@.len() == day_count(self@, date),
            forall|i: int| 0 <= i < r@.len() ==> on_date(#[trigger] r@[i]@, date),
            forall|o: u32|
                #[trigger] order_class(task_views(r@), o) == order_class(
                    day_seq(self@, date),
                    o,
                ),
    {
        broadcast use vstd::seq_lib::group_to_multiset_ensures;

        let n = self.events.len();
        let mut picked: Vec<Task> = Vec::new();
        let mut i: usize = 0;
        proof {
            assert(task_views(picked@) =~= day_seq(task_views(self.events@.subrange(0, 0)), date));
        }
        while i < n
            invariant
                n == self.events@.len(),
                0 <= i <= n,
                task_views(picked@) == day_seq(task_views(self.events@.subrange(0, i as int)), date),
            decreases n - i,
        {
            proof {
                reveal(Seq::filter);
                let prev = task_views(self.events@.subrange(0, i as int));
                let cur = task_views(self.events@.subrange(0, i as int + 1));
                assert(self.events@.subrange(0, i as int + 1).drop_last() == self.events@.subrange(
                    0,
                    i as int,
                ));
                assert(cur.drop_last() =~= prev);
                assert(cur.last() == self.events@[i as int]@);
            }
            if self.events[i].is_on_date(date) {
                let t = self.events[i].clone();
                picked.push(t);
                proof {
                    assert(task_views(picked@) =~= task_views(picked@.drop_last()).push(
                        picked@.last()@,
                    ));
                }
            } else {
                proof {
                    assert(task_views(picked@) =~= day_seq(
                        task_views(self.events@.subrange(0, i as int + 1)),
                        date,
                    ));
                }
            }
            i = i + 1;
        }
        proof {
            broadcast use vstd::seq_lib::group_filter_ensures;

            assert(self.events@.subrange(0, n as int) == self.events@);
            assert forall|b: int| 0 <= b < picked@.len() implies on_date(
                #[trigger] picked@[b]@,
                date,
            ) by {
                assert(task_views(picked@)[b] == picked@[b]@);
            }
        }
        // selection sort: repeatedly move a minimal-order task over
        let mut out: Vec<Task> = Vec::new();
        proof {
            assert(task_views(out@) =~= Seq::<TaskV>::empty());
            assert forall|o: u32|
                #[trigger] order_class(day_seq(self@, date), o) == order_class(
                    task_views(out@),
                    o,
                ) + order_class(task_views(picked@), o) by {
                reveal(Seq::filter);
                assert(order_class(task_views(out@), o) =~= Seq::<TaskV>::empty());
                assert(order_class(task_views(out@), o) + order_class(task_views(picked@), o)
                    =~= order_class(task_views(picked@), o));
            }
        }
        while picked.len() > 0
            invariant
                forall|o: u32|
                    #[trigger] order_class(day_seq(self@, date), o) == order_class(
                        task_views(out@),
                        o,
                    ) + order_class(task_views(picked@), o),
                sorted_by_order(task_views(out@)),
                forall|a: int, b: int|
                    0 <= a < out@.len() && 0 <= b < picked@.len() ==> #[trigger] out@[a]@.order
                        <= #[trigger] picked@[b]@.order,
                task_views(out@).to_multiset().add(task_views(picked@).to_multiset()) == day_seq(
                    self@,
                    date,
                ).to_multiset(),
                forall|a: int| 0 <= a < out@.len() ==> on_date(#[trigger] out@[a]@, date),
                forall|b: int| 0 <= b < picked@.len() ==> on_date(#[trigger] picked@[b]@, date),
            decreases picked.len(),
        {
            let mut min: usize = 0;
            let mut j: usize = 1;
            while j < picked.len()
                invariant
                    0 <= min < j <= picked@.len(),
                    forall|k: int|
                        0 <= k < j ==> picked@[min as int]@.order <= #[trigger] picked@[k]@.order,
                    forall|k: int|
                        0 <= k < min ==> (#[trigger] picked@[k]@).order > picked@[min as int]@.order,
                decreases picked.len() - j,
            {
                if picked[j].order < picked[min].order {
                    min = j;
                }
                j = j + 1;
            }
            let ghost out0 = task_views(out@);
            let ghost picked0 = task_views(picked@);
            let t = picked.remove(min);
            out.push(t);
            proof {
                broadcast use vstd::multiset::group_multiset_axioms;
                broadcast use vstd::seq_lib::group_to_multiset_ensures;

                let t0 = picked0[min as int];
                assert(task_views(picked@) =~= picked0.remove(min as int));
                assert(task_views(out@) =~= out0.push(t0));
                assert(picked0.contains(t0));
                assert(picked0.to_multiset().count(t0) > 0);
                assert(task_views(out@).to_multiset() =~= out0.to_multiset().insert(t0));
                assert(task_views(picked@).to_multiset() =~= picked0.to_multiset().remove(t0));
                assert forall|x: TaskV|
                    task_views(out@).to_multiset().add(task_views(picked@).to_multiset()).count(x)
                        == out0.to_multiset().add(picked0.to_multiset()).count(x) by {
                    assert(out0.to_multiset().insert(t0).count(x) == out0.to_multiset().count(x)
                        + if x == t0 {
                        1int
                    } else {
                        0int
                    });
                    assert(picked0.to_multiset().remove(t0).count(x) == picked0.to_multiset().count(
                        x,
                    ) - if x == t0 {
                        1int
                    } else {
                        0int
                    });
                }
                assert(task_views(out@).to_multiset().add(task_views(picked@).to_multiset())
                    =~= out0.to_multiset().add(picked0.to_multiset()));
                let o_star = t0.order;
                assert forall|k: int| 0 <= k < min implies (#[trigger] picked0[k]).order
                    != o_star by {
                }
                lemma_order_class_remove_first(picked0, min as int, o_star);
                assert forall|o: u32|
                    #[trigger] order_class(day_seq(self@, date), o) == order_class(
                        task_views(out@),
                        o,
                    ) + order_class(task_views(picked@), o) by {
                    assert(order_class(day_seq(self@, date), o) == order_class(out0, o)
                        + order_class(picked0, o));
                    lemma_order_class_push(out0, t0, o);
                    if o == o_star {
                        assert(order_class(out0, o).push(t0) + order_class(picked0, o).drop_first()
                            =~= order_class(out0, o) + order_class(picked0, o));
                    } else {
                        lemma_order_class_remove_other(picked0, min as int, o);
                    }
                }
            }
        }
        proof {
            assert(task_views(picked@) =~= Seq::<TaskV>::empty());
            assert(task_views(out@).to_multiset().add(task_views(picked@).to_multiset())
                =~= task_views(out@).to_multiset());
            lemma_day_count_is_day_seq_len(self@, date);
            assert(task_views(out@).to_multiset().len() == day_seq(self@, date).to_multiset().len());
            assert forall|o: u32|
                #[trigger] order_class(task_views(out@), o) == order_class(
                    day_seq(self@, date),
                    o,
                ) by {
                reveal(Seq::filter);
                assert(order_class(task_views(picked@), o) =~= Seq::<TaskV>::empty());
                assert(order_class(task_views(out@), o) + order_class(task_views(picked@), o)
                    =~= order_class(task_views(out@), o));
            }
        }
        out
    }

    /// The largest `order` among tasks on `date`, 0 if the day is empty.
    pub fn max_order_for_date(&self, date: Date) -> (r: u32)
        ensures
            r == day_max_order(self@, date),
            forall|i: int|
                0 <= i < self@.len() && on_date(#[trigger] self@[i], date) ==> self@[i].order <= r,
            day_count(self@, date) == 0 ==> r == 0,
            day_count(self@, date) > 0 ==> exists|i: int|
                0 <= i < self@.len() && on_date(#[trigger] self@[i], date) && self@[i].order == r,
    {
        proof {
            lemma_day_count_is_day_seq_len(self@, date);
        }
        let n = self.events.len();
        let mut r: u32 = 0;
        let mut seen = false;
        let mut i: usize = 0;
        while i < n
            invariant
                n == self.events@.len(),
                self@ == task_views(self.events@),
                0 <= i <= n,
                seen == exists|k: int| 0 <= k < i && on_date(#[trigger] self@[k], date),
                forall|k: int|
                    0 <= k < i && on_date(#[trigger] self@[k], date) ==> self@[k].order <= r,
                !seen ==> r == 0,
                seen ==> exists|k: int|
                    0 <= k < i && on_date(#[trigger] self@[k], date) && self@[k].order == r,
            decreases n - i,
        {
            let ghost i0 = i as int;
            if self.events[i].is_on_date(date) {
                let o = self.events[i].order;
                if !seen || o > r {
                    r = o;
                }
                seen = true;
                proof {
                    assert(on_date(self@[i0], date));
                    assert(self@[i0].order == self.events@[i0]@.order);
                }
            } else {
                proof {
                    assert(!on_date(self@[i0], date));
                }
            }
            i = i + 1;
        }
        proof {
            lemma_day_count_is_day_seq_len(self@, date);
            if day_count(self@, date) > 0 && !seen {
                lemma_day_seq_nonempty_has_witness(self@, date);
            }
            if day_count(self@, date) == 0 && seen {
                let k = choose|k: int| 0 <= k < n && on_date(#[trigger] self@[k], date);
                lemma_on_date_in_day_seq(self@, date, k);
            }
            lemma_day_max_order_props(self@, date);
            if day_count(self@, date) > 0 {
                assert(r == day_max_order(self@, date));
            }
        }
        r
    }

    /// Inserts `task` on its start day at position `target_order`: every
    /// task of that day at or past the target moves up one slot first, then
    /// the task is appended carrying the target order.
    pub fn insert_task_at_order(&mut self, task: Task, target_order: u32)
        requires
            forall|i: int|
                0 <= i < old(self)@.len() && on_date(#[trigger] old(self)@[i], task@.start.date)
                    ==> old(self)@[i].order < u32::MAX,
        ensures
            final(self)@ == spec_insert_at(old(self)@, task@, target_order),
    {
        let date = task.start.date;
        let ghost taskv = task@;
        let n = self.events.len();
        let mut i: usize = 0;
        while i < n
            invariant
                n == self.events@.len(),
                0 <= i <= n,
                forall|k: int|
                    0 <= k < n && on_date(#[trigger] old(self)@[k], date) ==> old(
                        self,
                    )@[k].order < u32::MAX,
                forall|k: int|
                    0 <= k < i ==> self.events@[k]@ == shift_up(
                        #[trigger] old(self)@[k],
                        date,
                        target_order,
                    ),
                forall|k: int| i <= k < n ==> #[trigger] self.events@[k]@ == old(self)@[k],
            decreases n - i,
        {
            let on_day = self.events[i].is_on_date(date);
            let o = self.events[i].order;
            if on_day && o >= target_order {
                self.events[i].order = o + 1;
            }
            i = i + 1;
        }
        let mut task = task;
        task.order = target_order;
        proof {
            assert(task@ == with_order(taskv, target_order));
        }
        self.events.push(task);
        proof {
            assert(task_views(self.events@) =~= spec_insert_at(old(self)@, taskv, target_order));
        }
    }

    /// Removes the first task with the given id, closing the order gap on
    /// its day; `None`, and no change, if no task has that id.
    pub fn remove_task_and_reorder(&mut self, task_id: &str) -> (r: Option<Task>)
        ensures
            ({
                let p = find_index_of_id(old(self)@, task_id@);
                &&& r is None <==> p == -1
                &&& p == -1 ==> final(self)@ == old(self)@
                &&& p >= 0 ==> r is Some && r->Some_0@ == old(self)@[p] && final(self)@
                    == spec_remove_reorder(old(self)@, p)
            }),
    {
        proof {
            lemma_find_index_of_id(self@, task_id@);
        }
        let key: String = task_id.to_owned();
        let n = self.events.len();
        let mut pos: usize = 0;
        let mut found = false;
        loop
            invariant_except_break
                !found,
                key@ == task_id@,
                n == self.events@.len(),
                self@ == task_views(self.events@),
                0 <= pos <= n,
                forall|k: int| 0 <= k < pos ==> (#[trigger] self@[k]).id != task_id@,
            ensures
                n == self.events@.len(),
                found ==> 0 <= pos < n && self@[pos as int].id == task_id@ && forall|k: int|
                    0 <= k < pos ==> (#[trigger] self@[k]).id != task_id@,
                !found ==> forall|k: int| 0 <= k < n ==> (#[trigger] self@[k]).id != task_id@,
            decreases n - pos,
        {
            if pos >= n {
                break ;
            }
            if self.events[pos].id == key {
                found = true;
                break ;
            }
            pos = pos + 1;
        }
        if !found {
            return None;
        }
        proof {
            assert(find_index_of_id(old(self)@, task_id@) == pos);
        }
        let removed = self.events.remove(pos);
        let date = removed.start.date;
        let removed_order = removed.order;
        let ghost mid = task_views(self.events@);
        proof {
            assert(mid =~= old(self)@.remove(pos as int));
        }
        let m = self.events.len();
        let mut i: usize = 0;
        while i < m
            invariant
                m == self.events@.len(),
                m == mid.len(),
                0 <= i <= m,
                forall|k: int|
                    0 <= k < i ==> self.events@[k]@ == close_gap(
                        #[trigger] mid[k],
                        date,
                        removed_order,
                    ),
                forall|k: int| i <= k < m ==> #[trigger] self.events@[k]@ == mid[k],
            decreases m - i,
        {
            let on_day = self.events[i].is_on_date(date);
            let o = self.events[i].order;
            if on_day && o > removed_order {
                self.events[i].order = o - 1;
            }
            i = i + 1;
        }
        proof {
            assert(task_views(self.events@) =~= spec_remove_reorder(
                old(self)@,
                find_index_of_id(old(self)@, task_id@),
            ));
        }
        Some(removed)
    }
}

/// The tie-free total order normalization sorts by: order first, collection
/// position second.
pub open spec fn key_lt(s: Seq<TaskV>, i: int, j: int) -> bool {
    s[i].order < s[j].order || (s[i].order == s[j].order && i < j)
}

/// How many tasks of `s` live on `date` and are not yet marked in `a`.
pub open spec fn unassigned_count(s: Seq<TaskV>, a: Seq<bool>, date: Date) -> nat
    decreases s.len(),
{
    if s.len() == 0 {
        0
    } else {
        unassigned_count(s.drop_last(), a.drop_last(), date) + if on_date(s.last(), date)
            && !a[s.len() - 1] {
            1nat
        } else {
            0nat
        }
    }
}

proof fn lemma_unassigned_all_false(s: Seq<TaskV>, a: Seq<bool>, date: Date)
    requires
        a.len() == s.len(),
        forall|i: int| 0 <= i < a.len() ==> !a[i],
    ensures
        unassigned_count(s, a, date) == day_count(s, date),
    decreases s.len(),
{
    if s.len() > 0 {
        lemma_unassigned_all_false(s.drop_last(), a.drop_last(), date);
    }
}

proof fn lemma_unassigned_update(s: Seq<TaskV>, a: Seq<bool>, date: Date, i: int)
    requires
        a.len() == s.len(),
        0 <= i < s.len(),
        !a[i],
    ensures
        unassigned_count(s, a.update(i, true), date) == unassigned_count(s, a, date) - if on_date(
            s[i],
            date,
        ) {
            1int
        } else {
            0int
        },
    decreases s.len(),
{
    if s.len() > 0 {
        if i == s.len() - 1 {
            assert(a.update(i, true).drop_last() =~= a.drop_last());
        } else {
            assert(a.update(i, true).drop_last() =~= a.drop_last().update(i, true));
            lemma_unassigned_update(s.drop_last(), a.drop_last(), date, i);
        }
    }
}

proof fn lemma_unassigned_zero(s: Seq<TaskV>, a: Seq<bool>, date: Date)
    requires
        a.len() == s.len(),
        unassigned_count(s, a, date) == 0,
    ensures
        forall|i: int| 0 <= i < s.len() && on_date(#[trigger] s[i], date) ==> a[i],
    decreases s.len(),
{
    if s.len() > 0 {
        lemma_unassigned_zero(s.drop_last(), a.drop_last(), date);
        assert forall|i: int| 0 <= i < s.len() && on_date(#[trigger] s[i], date) implies a[i] by {
            if i < s.len() - 1 {
                assert(s.drop_last()[i] == s[i]);
                assert(a.drop_last()[i] == a[i]);
            }
        }
    }
}

proof fn lemma_unassigned_witness(s: Seq<TaskV>, a: Seq<bool>, date: Date)
    requires
        a.len() == s.len(),
        unassigned_count(s, a, date) > 0,
    ensures
        exists|i: int| 0 <= i < s.len() && on_date(#[trigger] s[i], date) && !a[i],
    decreases s.len(),
{
    if s.len() > 0 {
        if on_date(s.last(), date) && !a[s.len() - 1] {
            assert(0 <= s.len() - 1 < s.len() && on_date(s[s.len() - 1], date) && !a[s.len() - 1]);
        } else {
            lemma_unassigned_witness(s.drop_last(), a.drop_last(), date);
            let i = choose|i: int|
                0 <= i < s.drop_last().len() && on_date(#[trigger] s.drop_last()[i], date)
                    && !a.drop_last()[i];
            assert(s[i] == s.drop_last()[i]);
            assert(a[i] == a.drop_last()[i]);
        }
    }
}

/// Two collections with the same day pattern have the same day count.
proof fn lemma_day_count_same_pattern(s1: Seq<TaskV>, s2: Seq<TaskV>, date: Date)
    requires
        s1.len() == s2.len(),
        forall|i: int|
            0 <= i < s1.len() ==> on_date(#[trigger] s1[i], date) == on_date(#[trigger] s2[i], date),
    ensures
        day_count(s1, date) == day_count(s2, date),
    decreases s1.len(),
{
    if s1.len() > 0 {
        assert forall|i: int|
            0 <= i < s1.drop_last().len() implies on_date(#[trigger] s1.drop_last()[i], date)
            == on_date(#[trigger] s2.drop_last()[i], date) by {
            assert(s1.drop_last()[i] == s1[i]);
            assert(s2.drop_last()[i] == s2[i]);
        }
        lemma_day_count_same_pattern(s1.drop_last(), s2.drop_last(), date);
    }
}

/// The largest order on `date` in `s`, 0 where the day is empty.
pub open spec fn day_max_order(s: Seq<TaskV>, date: Date) -> u32
    decreases s.len(),
{
    if s.len() == 0 {
        0
    } else {
        let rest = day_max_order(s.drop_last(), date);
        if on_date(s.last(), date) && s.last().order > rest {
            s.last().order
        } else {
            rest
        }
    }
}

proof fn lemma_day_max_order_props(s: Seq<TaskV>, date: Date)
    ensures
        forall|i: int|
            0 <= i < s.len() && on_date(#[trigger] s[i], date) ==> s[i].order <= day_max_order(
                s,
                date,
            ),
        day_count(s, date) == 0 ==> day_max_order(s, date) == 0,
        day_count(s, date) > 0 ==> exists|i: int|
            0 <= i < s.len() && on_date(#[trigger] s[i], date) && s[i].order == day_max_order(
                s,
                date,
            ),
    decreases s.len(),
{
    if s.len() > 0 {
        lemma_day_max_order_props(s.drop_last(), date);
        let rest = day_max_order(s.drop_last(), date);
        assert(forall|i: int| 0 <= i < s.len() - 1 ==> s[i] == s.drop_last()[i]);
        if day_count(s, date) > 0 {
            if on_date(s.last(), date) && s.last().order > rest {
                assert(0 <= s.len() - 1 < s.len() && on_date(s[s.len() - 1], date) && s[s.len()
                    - 1].order == day_max_order(s, date));
            } else if day_count(s.drop_last(), date) > 0 {
                let w = choose|i: int|
                    0 <= i < s.drop_last().len() && on_date(#[trigger] s.drop_last()[i], date)
                        && s.drop_last()[i].order == rest;
                assert(0 <= w < s.len() && on_date(s[w], date) && s[w].order == day_max_order(
                    s,
                    date,
                ));
            } else {
                assert(on_date(s.last(), date));
                assert(rest == 0);
                assert(0 <= s.len() - 1 < s.len() && on_date(s[s.len() - 1], date) && s[s.len()
                    - 1].order == day_max_order(s, date));
            }
        }
    }
}

/// The day's orders are exactly the contiguous run `0..day_count`: bounded,
/// pairwise distinct, every slot taken.
pub open spec fn day_orders_exact(s: Seq<TaskV>, date: Date) -> bool {
    &&& forall|i: int|
        0 <= i < s.len() && on_date(#[trigger] s[i], date) ==> (s[i].order as int) < day_count(
            s,
            date,
        )
    &&& forall|i: int, j: int|
        0 <= i < s.len() && 0 <= j < s.len() && i != j && on_date(#[trigger] s[i], date) && on_date(
            #[trigger] s[j],
            date,
        ) ==> s[i].order != s[j].order
    &&& forall|k: int| 0 <= k < day_count(s, date) ==> #[trigger] has_order(s, date, k)
}

/// Some task of `date` in `s` carries order `k`.
pub open spec fn has_order(s: Seq<TaskV>, date: Date, k: int) -> bool {
    exists|i: int| 0 <= i < s.len() && on_date(#[trigger] s[i], date) && s[i].order == k
}

/// Some marked task carries order `k`.
spec fn order_taken(cur: Seq<TaskV>, a: Seq<bool>, k: int) -> bool {
    exists|i: int| 0 <= i < cur.len() && a[i] && cur[i].order == k
}

impl TaskData {
    /// Renumbers the tasks of `date` to `0..n` in their current relative
    /// order (ties in `order` broken by collection position); tasks of
    /// other days are untouched.
    pub fn normalize_task_order(&mut self, date: Date)
        requires
            day_count(old(self)@, date) < u32::MAX,
        ensures
            final(self)@.len() == old(self)@.len(),
            ({
                let s = old(self)@;
                let f = final(self)@;
                let cnt = day_count(s, date);
                &&& forall|i: int|
                    0 <= i < s.len() && !on_date(#[trigger] s[i], date) ==> f[i] == s[i]
                &&& forall|i: int|
                    0 <= i < s.len() && on_date(#[trigger] s[i], date) ==> f[i] == with_order(
                        s[i],
                        f[i].order,
                    ) && (f[i].order as int) < cnt
                &&& forall|i: int, j: int|
                    0 <= i < s.len() && 0 <= j < s.len() && i != j && on_date(#[trigger] s[i], date)
                        && on_date(#[trigger] s[j], date) ==> (f[i].order < f[j].order <==> key_lt(
                        s,
                        i,
                        j,
                    ))
                &&& day_orders_exact(f, date)
            }),
    {
        let ghost s0 = self@;
        let n = self.events.len();
        // count the day's tasks
        let mut count: usize = 0;
        let mut i: usize = 0;
        while i < n
            invariant
                n == self.events@.len(),
                self@ == task_views(self.events@),
                0 <= i <= n,
                count <= i,
                count == day_count(task_views(self.events@.subrange(0, i as int)), date),
            decreases n - i,
        {
            proof {
                let prev = task_views(self.events@.subrange(0, i as int));
                let cur = task_views(self.events@.subrange(0, i as int + 1));
                assert(self.events@.subrange(0, i as int + 1).drop_last() == self.events@.subrange(
                    0,
                    i as int,
                ));
                assert(cur.drop_last() =~= prev);
                assert(cur.last() == self.events@[i as int]@);
            }
            if self.events[i].is_on_date(date) {
                count = count + 1;
            }
            i = i + 1;
        }
        proof {
            assert(self.events@.subrange(0, n as int) == self.events@);
            assert(count == day_count(s0, date));
        }
        let mut assigned: Vec<bool> = vec![false; n];
        proof {
            lemma_unassigned_all_false(s0, assigned@, date);
        }
        let mut r: usize = 0;
        while r < count
            invariant
                n == self.events@.len(),
                n == s0.len(),
                assigned@.len() == n,
                count == day_count(s0, date),
                count < u32::MAX,
                0 <= r <= count,
                unassigned_count(s0, assigned@, date) == count - r,
                forall|i: int| 0 <= i < n && !assigned@[i] ==> self.events@[i]@ == s0[i],
                forall|i: int|
                    0 <= i < n && assigned@[i] ==> on_date(#[trigger] s0[i], date)
                        && self.events@[i]@ == with_order(s0[i], self.events@[i]@.order) && (
                    self.events@[i]@.order as int) < r,
                forall|k: int|
                    0 <= k < r ==> #[trigger] order_taken(task_views(self.events@), assigned@, k),
                forall|i: int, j: int|
                    0 <= i < n && 0 <= j < n && i != j && #[trigger] assigned@[i]
                        && #[trigger] assigned@[j] ==> (self.events@[i]@.order
                        < self.events@[j]@.order <==> key_lt(s0, i, j)),
                forall|i: int, j: int|
                    0 <= i < n && 0 <= j < n && #[trigger] assigned@[i] && !assigned@[j] && on_date(
                        #[trigger] s0[j],
                        date,
                    ) ==> key_lt(s0, i, j),
            decreases count - r,
        {
            proof {
                lemma_unassigned_witness(s0, assigned@, date);
            }
            // find the unassigned task of the day with the smallest key
            let mut best: usize = 0;
            let mut have = false;
            let mut j: usize = 0;
            while j < n
                invariant
                    n == self.events@.len(),
                    n == s0.len(),
                    assigned@.len() == n,
                    0 <= j <= n,
                    forall|i: int| 0 <= i < n && !assigned@[i] ==> self.events@[i]@ == s0[i],
                    have ==> best < j && !assigned@[best as int] && on_date(s0[best as int], date),
                    have ==> forall|q: int|
                        0 <= q < j && !assigned@[q] && on_date(#[trigger] s0[q], date) && q
                            != best ==> key_lt(s0, best as int, q),
                    !have ==> forall|q: int|
                        0 <= q < j ==> !(!assigned@[q] && on_date(#[trigger] s0[q], date)),
                decreases n - j,
            {
                if !assigned[j] && self.events[j].is_on_date(date) {
                    if !have {
                        best = j;
                        have = true;
                    } else {
                        let oj = self.events[j].order;
                        let ob = self.events[best].order;
                        if oj < ob {
                            best = j;
                        }
                    }
                }
                j = j + 1;
            }
            proof {
                let w = choose|i: int|
                    0 <= i < s0.len() && on_date(#[trigger] s0[i], date) && !assigned@[i];
                assert(have);
            }
            let ghost a0 = assigned@;
            let ghost old_events_marker = self.events@;
            self.events[best].order = r as u32;
            assigned[best] = true;
            proof {
                assert(assigned@ =~= a0.update(best as int, true));
                lemma_unassigned_update(s0, a0, date, best as int);
                let cur = task_views(self.events@);
                assert forall|k: int| 0 <= k < r + 1 implies #[trigger] order_taken(
                    cur,
                    assigned@,
                    k,
                ) by {
                    if k < r {
                        let prev = task_views(old_events_marker);
                        assert(order_taken(prev, a0, k));
                        let w = choose|i: int| 0 <= i < prev.len() && a0[i] && prev[i].order == k;
                        assert(0 <= w < cur.len() && assigned@[w] && cur[w].order == k);
                    } else {
                        assert(0 <= best < cur.len() && assigned@[best as int] && cur[
                            best as int
                        ].order == k);
                    }
                }
            }
            r = r + 1;
        }
        proof {
            lemma_unassigned_zero(s0, assigned@, date);
            lemma_day_count_same_pattern(s0, self@, date);
            let cur = task_views(self.events@);
            assert forall|i: int|
                0 <= i < cur.len() && on_date(#[trigger] cur[i], date) implies assigned@[i]
                && on_date(s0[i], date) && (cur[i].order as int) < day_count(cur, date) by {
                if !assigned@[i] {
                    assert(cur[i] == s0[i]);
                }
            }
            assert forall|i: int, j: int|
                0 <= i < cur.len() && 0 <= j < cur.len() && i != j && on_date(
                    #[trigger] cur[i],
                    date,
                ) && on_date(#[trigger] cur[j], date) implies cur[i].order != cur[j].order by {
                if !assigned@[i] {
                    assert(cur[i] == s0[i]);
                }
                if !assigned@[j] {
                    assert(cur[j] == s0[j]);
                }
                assert(assigned@[i] && assigned@[j]);
                if key_lt(s0, i, j) {
                    assert(cur[i].order < cur[j].order);
                } else {
                    assert(key_lt(s0, j, i));
                    assert(cur[j].order < cur[i].order);
                }
            }
            assert forall|k: int| 0 <= k < day_count(cur, date) implies #[trigger] has_order(
                cur,
                date,
                k,
            ) by {
                assert(order_taken(cur, assigned@, k));
                let w = choose|i: int| 0 <= i < cur.len() && assigned@[i] && cur[i].order == k;
                assert(on_date(s0[w], date));
                assert(0 <= w < cur.len() && on_date(cur[w], date) && cur[w].order == k);
            }
        }
    }
}

proof fn lemma_day_count_remove(s: Seq<TaskV>, p: int, date: Date)
    requires
        0 <= p < s.len(),
    ensures
        day_count(s.remove(p), date) == day_count(s, date) - if on_date(s[p], date) {
            1int
        } else {
            0int
        },
    decreases s.len(),
{
    if p == s.len() - 1 {
        assert(s.remove(p) =~= s.drop_last());
    } else {
        assert(s.remove(p).drop_last() =~= s.drop_last().remove(p));
        lemma_day_count_remove(s.drop_last(), p, date);
        assert(s.remove(p).last() == s.last());
        assert(s.drop_last()[p] == s[p]);
    }
}

/// A day with no tasks trivially has the exact order shape.
pub proof fn lemma_empty_day_is_exact(s: Seq<TaskV>, date: Date)
    requires
        day_count(s, date) == 0,
    ensures
        day_orders_exact(s, date),
{
    assert forall|i: int| 0 <= i < s.len() implies !on_date(#[trigger] s[i], date) by {
        if on_date(s[i], date) {
            lemma_on_date_in_day_seq(s, date, i);
            lemma_day_count_is_day_seq_len(s, date);
        }
    }
}

/// Inserting at an order no greater than the day's task count keeps the
/// day's orders a contiguous run `0..n` and grows the day by one. With the
/// empty-day base case and the removal law, any run of such insertions
/// followed by a removal leaves the day's orders contiguous from 0, without
/// gaps or duplicates.
pub proof fn lemma_insert_keeps_day_orders(s: Seq<TaskV>, task: TaskV, target: u32)
    requires
        day_orders_exact(s, task.start.date),
        target as int <= day_count(s, task.start.date),
        day_count(s, task.start.date) < u32::MAX,
    ensures
        day_orders_exact(spec_insert_at(s, task, target), task.start.date),
        day_count(spec_insert_at(s, task, target), task.start.date) == day_count(
            s,
            task.start.date,
        ) + 1,
{
    let date = task.start.date;
    let cnt = day_count(s, date);
    let m = s.map_values(|t: TaskV| shift_up(t, date, target));
    let new = spec_insert_at(s, task, target);
    lemma_day_count_same_pattern(s, m, date);
    assert(new.drop_last() =~= m);
    assert(day_count(new, date) == day_count(m, date) + 1);
    assert forall|i: int|
        0 <= i < new.len() && on_date(#[trigger] new[i], date) implies (new[i].order as int) < cnt
        + 1 by {
        if i < s.len() {
            assert(new[i] == shift_up(s[i], date, target));
        }
    }
    assert forall|i: int, j: int|
        0 <= i < new.len() && 0 <= j < new.len() && i != j && on_date(#[trigger] new[i], date)
            && on_date(#[trigger] new[j], date) implies new[i].order != new[j].order by {
        if i < s.len() {
            assert(new[i] == shift_up(s[i], date, target));
        }
        if j < s.len() {
            assert(new[j] == shift_up(s[j], date, target));
        }
    }
    assert forall|k: int| 0 <= k < cnt + 1 implies #[trigger] has_order(new, date, k) by {
        if k < target {
            assert(has_order(s, date, k));
            let w = choose|i: int|
                0 <= i < s.len() && on_date(#[trigger] s[i], date) && s[i].order == k;
            assert(new[w] == shift_up(s[w], date, target));
            assert(0 <= w < new.len() && on_date(new[w], date) && new[w].order == k);
        } else if k == target {
            let w = s.len() as int;
            assert(0 <= w < new.len() && on_date(new[w], date) && new[w].order == k);
        } else {
            assert(has_order(s, date, k - 1));
            let w = choose|i: int|
                0 <= i < s.len() && on_date(#[trigger] s[i], date) && s[i].order == k - 1;
            assert(new[w] == shift_up(s[w], date, target));
            assert(0 <= w < new.len() && on_date(new[w], date) && new[w].order == k);
        }
    }
}

/// Removing a task and closing its gap keeps the day's orders a contiguous
/// run `0..n` and shrinks the day by one.
pub proof fn lemma_remove_keeps_day_orders(s: Seq<TaskV>, p: int)
    requires
        0 <= p < s.len(),
        day_orders_exact(s, s[p].start.date),
    ensures
        day_orders_exact(spec_remove_reorder(s, p), s[p].start.date),
        day_count(spec_remove_reorder(s, p), s[p].start.date) == day_count(
            s,
            s[p].start.date,
        ) - 1,
{
    let date = s[p].start.date;
    let ro = s[p].order;
    let cnt = day_count(s, date);
    let rem = s.remove(p);
    let new = spec_remove_reorder(s, p);
    lemma_day_count_remove(s, p, date);
    lemma_day_count_same_pattern(rem, new, date);
    assert(on_date(s[p], date));
    assert((ro as int) < cnt);
    assert forall|i: int| 0 <= i < rem.len() implies rem[i] == (if i < p {
        s[i]
    } else {
        s[i + 1]
    }) by {
    }
    assert forall|i: int|
        0 <= i < new.len() && on_date(#[trigger] new[i], date) implies (new[i].order as int) < cnt
        - 1 by {
        let q = if i < p {
            i
        } else {
            i + 1
        };
        assert(new[i] == close_gap(s[q], date, ro));
        assert(s[q].order != ro);
    }
    assert forall|i: int, j: int|
        0 <= i < new.len() && 0 <= j < new.len() && i != j && on_date(#[trigger] new[i], date)
            && on_date(#[trigger] new[j], date) implies new[i].order != new[j].order by {
        let qi = if i < p {
            i
        } else {
            i + 1
        };
        let qj = if j < p {
            j
        } else {
            j + 1
        };
        assert(new[i] == close_gap(s[qi], date, ro));
        assert(new[j] == close_gap(s[qj], date, ro));
        assert(s[qi].order != ro);
        assert(s[qj].order != ro);
        assert(s[qi].order != s[qj].order);
    }
    assert forall|k: int| 0 <= k < cnt - 1 implies #[trigger] has_order(new, date, k) by {
        if k < ro {
            assert(has_order(s, date, k));
            let w = choose|i: int|
                0 <= i < s.len() && on_date(#[trigger] s[i], date) && s[i].order == k;
            assert(w != p);
            let w2 = if w < p {
                w
            } else {
                w - 1
            };
            assert(new[w2] == close_gap(s[w], date, ro));
            assert(0 <= w2 < new.len() && on_date(new[w2], date) && new[w2].order == k);
        } else {
            assert(has_order(s, date, k + 1));
            let w = choose|i: int|
                0 <= i < s.len() && on_date(#[trigger] s[i], date) && s[i].order == k + 1;
            assert(w != p);
            let w2 = if w < p {
                w
            } else {
                w - 1
            };
            assert(new[w2] == close_gap(s[w], date, ro));
            assert(0 <= w2 < new.len() && on_date(new[w2], date) && new[w2].order == k);
        }
    }
}

/// A run of insertions, oldest first: each step carries the task and its
/// target slot.
pub open spec fn spec_insert_all(s: Seq<TaskV>, steps: Seq<(TaskV, u32)>) -> Seq<TaskV>
    decreases steps.len(),
{
    if steps.len() == 0 {
        s
    } else {
        spec_insert_all(spec_insert_at(s, steps.first().0, steps.first().1), steps.drop_first())
    }
}

/// Any run of insertions on one day keeps that day's orders a contiguous
/// run `0..n`, as long as each step's target does not pass the day's
/// running task count.
pub proof fn lemma_insert_all_keeps_day_orders(s: Seq<TaskV>, steps: Seq<(TaskV, u32)>, date: Date)
    requires
        day_orders_exact(s, date),
        day_count(s, date) + steps.len() < u32::MAX,
        forall|k: int|
            0 <= k < steps.len() ==> (#[trigger] steps[k]).0.start.date == date && steps[k].1 as int
                <= day_count(s, date) + k,
    ensures
        day_orders_exact(spec_insert_all(s, steps), date),
        day_count(spec_insert_all(s, steps), date) == day_count(s, date) + steps.len(),
    decreases steps.len(),
{
    if steps.len() > 0 {
        let step = steps.first();
        assert(steps[0] == step);
        lemma_insert_keeps_day_orders(s, step.0, step.1);
        let mid = spec_insert_at(s, step.0, step.1);
        assert forall|k: int|
            0 <= k < steps.drop_first().len() implies (#[trigger] steps.drop_first()[k]).0.start.date
            == date && steps.drop_first()[k].1 as int <= day_count(mid, date) + k by {
            assert(steps.drop_first()[k] == steps[k + 1]);
        }
        lemma_insert_all_keeps_day_orders(mid, steps.drop_first(), date);
    }
}

/// Order contiguity after a removal: any run of in-range insertions on one
/// day, followed by the removal of one of that day's tasks, leaves the
/// day's orders a contiguous range starting at 0, without gaps or
/// duplicates.
pub proof fn lemma_inserts_then_remove_contiguous(
    s: Seq<TaskV>,
    steps: Seq<(TaskV, u32)>,
    date: Date,
    p: int,
)
    requires
        day_orders_exact(s, date),
        day_count(s, date) + steps.len() < u32::MAX,
        forall|k: int|
            0 <= k < steps.len() ==> (#[trigger] steps[k]).0.start.date == date && steps[k].1 as int
                <= day_count(s, date) + k,
        0 <= p < spec_insert_all(s, steps).len(),
        on_date(spec_insert_all(s, steps)[p], date),
    ensures
        day_orders_exact(spec_remove_reorder(spec_insert_all(s, steps), p), date),
{
    lemma_insert_all_keeps_day_orders(s, steps, date);
    let grown = spec_insert_all(s, steps);
    assert(grown[p].start.date == date);
    lemma_remove_keeps_day_orders(grown, p);
}

proof fn lemma_day_seq_nonempty_has_witness(s: Seq<TaskV>, date: Date)
    requires
        day_seq(s, date).len() > 0,
    ensures
        exists|k: int| 0 <= k < s.len() && on_date(#[trigger] s[k], date),
    decreases s.len(),
{
    reveal(Seq::filter);
    if s.len() > 0 {
        if on_date(s.last(), date) {
            assert(0 <= s.len() - 1 < s.len() && on_date(s[s.len() - 1], date));
        } else {
            lemma_day_seq_nonempty_has_witness(s.drop_last(), date);
            let k = choose|k: int|
                0 <= k < s.drop_last().len() && on_date(#[trigger] s.drop_last()[k], date);
            assert(s[k] == s.drop_last()[k]);
        }
    }
}

proof fn lemma_on_date_in_day_seq(s: Seq<TaskV>, date: Date, k: int)
    requires
        0 <= k < s.len(),
        on_date(s[k], date),
    ensures
        day_seq(s, date).len() > 0,
    decreases s.len(),
{
    reveal(Seq::filter);
    if s.len() > 0 {
        if k == s.len() - 1 {
        } else {
            assert(s.drop_last()[k] == s[k]);
            lemma_on_date_in_day_seq(s.drop_last(), date, k);
        }
    }
}

} // verus!
