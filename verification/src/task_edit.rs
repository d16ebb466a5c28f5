//! The task-edit buffer: the state of the pop-up in which a task's title
//! and first comment are typed, and its conversion to a task.
use crate::date::Date;
use crate::month_view::nav_date_ok;
use crate::task::{task_wf, ts_index, Task, Timestamp};
use crate::text::{chars_of, string_from_chars};
use vstd::prelude::*;

verus! {

#[derive(Debug, Clone, Copy, PartialEq, Eq, Structural)]
pub enum EditingField {
    Title,
    Content,
}

/// The in-progress edit of a new or existing task.
#[derive(Debug)]
pub struct TaskEditState {
    pub task_id: Option<String>,
    pub title: Vec<char>,
    pub content: Vec<char>,
    pub editing_field: EditingField,
    pub is_new_task: bool,
    pub date: Date,
}

impl TaskEditState {
    /// An empty buffer for a new task on the given day.
    pub fn new_task(date: Date) -> (r: Self)
        ensures
            r.task_id is None,
            r.title@.len() == 0,
            r.content@.len() == 0,
            r.editing_field == EditingField::Title,
            r.is_new_task,
            r.date == date,
    {
        TaskEditState {
            task_id: None,
            title: Vec::new(),
            content: Vec::new(),
            editing_field: EditingField::Title,
            is_new_task: true,
            date,
        }
    }

    /// A buffer pre-filled from an existing task: its title and its first
    /// comment's text.
    pub fn edit_task(task: &Task) -> (r: Self)
        ensures
            r.task_id is Some && r.task_id->0@ == task@.id,
            r.title@ == task@.title,
            r.content@ == if task@.comments.len() > 0 {
                task@.comments[0].text
            } else {
                Seq::<char>::empty()
            },
            r.editing_field == EditingField::Title,
            !r.is_new_task,
            r.date == task@.start.date,
    {
        let content = if task.comments.len() > 0 {
            chars_of(task.comments[0].text.as_str())
        } else {
            Vec::new()
        };
        proof {
            if task.comments@.len() == 0 {
                assert(content@ =~= Seq::<char>::empty());
            }
        }
        TaskEditState {
            task_id: Some(task.id.clone()),
            title: chars_of(task.title.as_str()),
            content,
            editing_field: EditingField::Title,
            is_new_task: false,
            date: task.start.date,
        }
    }

    /// Appends a character to the field being edited.
    pub fn add_char(&mut self, ch: char)
        ensures
            old(self).editing_field == EditingField::Title ==> final(self).title@ == old(
                self,
            ).title@.push(ch) && final(self).content == old(self).content,
            old(self).editing_field == EditingField::Content ==> final(self).content@ == old(
                self,
            ).content@.push(ch) && final(self).title == old(self).title,
            final(self).task_id == old(self).task_id,
            final(self).editing_field == old(self).editing_field,
            final(self).is_new_task == old(self).is_new_task,
            final(self).date == old(self).date,
    {
        match self.editing_field {
            EditingField::Title => self.title.push(ch),
            EditingField::Content => self.content.push(ch),
        }
    }

    /// Removes the last character of the field being edited, if any.
    pub fn remove_char(&mut self)
        ensures
            old(self).editing_field == EditingField::Title ==> final(self).title@ == (if old(
                self,
            ).title@.len() > 0 {
                old(self).title@.drop_last()
            } else {
                old(self).title@
            }) && final(self).content == old(self).content,
            old(self).editing_field == EditingField::Content ==> final(self).content@ == (if old(
                self,
            ).content@.len() > 0 {
                old(self).content@.drop_last()
            } else {
                old(self).content@
            }) && final(self).title == old(self).title,
            final(self).task_id == old(self).task_id,
            final(self).editing_field == old(self).editing_field,
            final(self).is_new_task == old(self).is_new_task,
            final(self).date == old(self).date,
    {
        match self.editing_field {
            EditingField::Title => {
                let _ = self.title.pop();
            },
            EditingField::Content => {
                let _ = self.content.pop();
            },
        }
    }

    /// Switches between the title and the content field.
    pub fn switch_field(&mut self)
        ensures
            final(self).editing_field == (match old(self).editing_field {
                EditingField::Title => EditingField::Content,
                EditingField::Content => EditingField::Title,
            }),
            final(self).task_id == old(self).task_id,
            final(self).title == old(self).title,
            final(self).content == old(self).content,
            final(self).is_new_task == old(self).is_new_task,
            final(self).date == old(self).date,
    {
        self.editing_field = match self.editing_field {
            EditingField::Title => EditingField::Content,
            EditingField::Content => EditingField::Title,
        };
    }

    /// The title as a string.
    pub fn title_string(&self) -> (r: String)
        ensures
            r@ == self.title@,
    {
        string_from_chars(&self.title)
    }

    /// The content as a string.
    pub fn content_string(&self) -> (r: String)
        ensures
            r@ == self.content@,
    {
        string_from_chars(&self.content)
    }

    /// Builds the task this buffer describes: it starts at nine in the
    /// morning of the buffer's day, runs an hour, and carries the content
    /// as its only comment where one was typed. An edited task keeps its
    /// id; a new one draws a fresh random id.
    pub fn to_task(&self) -> (r: Task)
        requires
            nav_date_ok(self.date),
        ensures
            task_wf(r@),
            r@.title == self.title@,
            r@.start == (Timestamp { date: self.date, secs: 32400 }),
            ts_index(r@.end) == ts_index(r@.start) + 3600,
            r@.comments.len() == (if self.content@.len() > 0 {
                1int
            } else {
                0int
            }),
            self.content@.len() > 0 ==> r@.comments[0].text == self.content@,
            self.task_id is Some ==> r@.id == self.task_id->0@,
            !r@.completed,
            r@.order == 0,
    {
        proof {
            crate::month_view::lemma_nav_index_range(self.date);
        }
        let start = Timestamp { date: self.date, secs: 32400 };
        let mut task = Task::new(self.title_string(), start);
        if self.content.len() > 0 {
            task.add_comment(self.content_string());
        }
        match &self.task_id {
            Some(task_id) => {
                task.id = task_id.clone();
            },
            None => {},
        }
        task
    }
}

} // verus!
