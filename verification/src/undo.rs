//! The bounded undo/redo log: two stacks of reversible operations with a
//! shared depth bound. Pushing a new operation clears the redo stack; when
//! the undo stack would exceed the bound, the oldest entry is dropped.
use crate::date::Date;
use crate::task::{Task, TaskV};
use vstd::prelude::*;

verus! {

/// A committed, reversible mutation, carrying full snapshots.
#[derive(Debug)]
pub enum Operation {
    DeleteTask { task: Task, original_date: Date },
    EditTask { task_id: String, old_task: Task, new_task: Task },
    CreateTask { task: Task },
    YankPaste { task_id: String, old_date: Date, new_date: Date },
}

/// Mathematical shadow of `Operation`.
#[verifier::ext_equal]
pub ghost enum OperationV {
    DeleteTask { task: TaskV, original_date: Date },
    EditTask { task_id: Seq<char>, old_task: TaskV, new_task: TaskV },
    CreateTask { task: TaskV },
    YankPaste { task_id: Seq<char>, old_date: Date, new_date: Date },
}

impl View for Operation {
    type V = OperationV;

    open spec fn view(&self) -> OperationV {
        match self {
            Operation::DeleteTask { task, original_date } => OperationV::DeleteTask {
                task: task@,
                original_date: *original_date,
            },
            Operation::EditTask { task_id, old_task, new_task } => OperationV::EditTask {
                task_id: task_id@,
                old_task: old_task@,
                new_task: new_task@,
            },
            Operation::CreateTask { task } => OperationV::CreateTask { task: task@ },
            Operation::YankPaste { task_id, old_date, new_date } => OperationV::YankPaste {
                task_id: task_id@,
                old_date: *old_date,
                new_date: *new_date,
            },
        }
    }
}

impl Clone for Operation {
    fn clone(&self) -> (r: Self)
        ensures
            r@ == self@,
    {
        match self {
            Operation::DeleteTask { task, original_date } => Operation::DeleteTask {
                task: task.clone(),
                original_date: *original_date,
            },
            Operation::EditTask { task_id, old_task, new_task } => Operation::EditTask {
                task_id: task_id.clone(),
                old_task: old_task.clone(),
                new_task: new_task.clone(),
            },
            Operation::CreateTask { task } => Operation::CreateTask { task: task.clone() },
            Operation::YankPaste { task_id, old_date, new_date } => Operation::YankPaste {
                task_id: task_id.clone(),
                old_date: *old_date,
                new_date: *new_date,
            },
        }
    }
}

impl Operation {
    /// A short human-readable label for the operation.
    pub fn get_description(&self) -> (r: String)
        ensures
            r@ == match self@ {
                OperationV::DeleteTask { task, .. } => "Delete '"@ + task.title + "'"@,
                OperationV::EditTask { old_task, .. } => "Edit '"@ + old_task.title + "'"@,
                OperationV::CreateTask { task } => "Create '"@ + task.title + "'"@,
                OperationV::YankPaste { task_id, .. } => "Move task '"@ + task_id + "'"@,
            },
    {
        let mut s = String::new();
        match self {
            Operation::DeleteTask { task, .. } => {
                s.append("Delete '");
                s.append(task.title.as_str());
            },
            Operation::EditTask { old_task, .. } => {
                s.append("Edit '");
                s.append(old_task.title.as_str());
            },
            Operation::CreateTask { task } => {
                s.append("Create '");
                s.append(task.title.as_str());
            },
            Operation::YankPaste { task_id, .. } => {
                s.append("Move task '");
                s.append(task_id.as_str());
            },
        }
        s.append("'");
        s
    }
}

/// The views of a sequence of operations.
pub open spec fn op_views(s: Seq<Operation>) -> Seq<OperationV> {
    s.map_values(|op: Operation| op@)
}

/// Mathematical shadow of `UndoStack`.
#[verifier::ext_equal]
pub ghost struct UndoStackV {
    pub undo: Seq<OperationV>,
    pub redo: Seq<OperationV>,
    pub max_size: nat,
}

/// What one push does to the undo stack: append, then drop the oldest entry
/// if the bound is exceeded.
pub open spec fn push_model(undo: Seq<OperationV>, max: nat, op: OperationV) -> Seq<OperationV> {
    let grown = undo.push(op);
    if grown.len() > max {
        grown.drop_first()
    } else {
        grown
    }
}

/// A whole sequence of pushes, oldest first.
pub open spec fn push_all(undo: Seq<OperationV>, max: nat, ops: Seq<OperationV>) -> Seq<OperationV>
    decreases ops.len(),
{
    if ops.len() == 0 {
        undo
    } else {
        push_all(push_model(undo, max, ops.first()), max, ops.drop_first())
    }
}

/// Bounded depth: however many operations are pushed, the undo stack holds
/// the most recent `max` of them (preceded by what was already there, where
/// room remains); everything older is dropped, oldest first.
pub proof fn lemma_bounded_undo_depth(undo: Seq<OperationV>, max: nat, ops: Seq<OperationV>)
    requires
        undo.len() <= max,
    ensures
        ({
            let all = undo + ops;
            let dropped = if all.len() > max {
                all.len() - max
            } else {
                0
            };
            push_all(undo, max, ops) == all.subrange(dropped as int, all.len() as int)
        }),
    decreases ops.len(),
{
    let all = undo + ops;
    if ops.len() == 0 {
        assert(all =~= undo);
        assert(push_all(undo, max, ops) =~= all.subrange(0, all.len() as int));
    } else {
        let stepped = push_model(undo, max, ops.first());
        assert(stepped.len() <= max);
        lemma_bounded_undo_depth(stepped, max, ops.drop_first());
        let all1 = stepped + ops.drop_first();
        let dropped1 = if all1.len() > max {
            all1.len() - max
        } else {
            0
        };
        let dropped = if all.len() > max {
            all.len() - max
        } else {
            0
        };
        if undo.len() + 1 > max {
            assert(stepped =~= (undo.push(ops.first())).drop_first());
            assert(all1 =~= all.subrange(1, all.len() as int));
        } else {
            assert(all1 =~= all);
        }
        assert(all1.subrange(dropped1 as int, all1.len() as int) =~= all.subrange(
            dropped as int,
            all.len() as int,
        ));
    }
}

/// The bounded dual-stack history of reversible operations.
#[derive(Debug)]
pub struct UndoStack {
    undo_operations: Vec<Operation>,
    redo_operations: Vec<Operation>,
    max_size: usize,
}

impl View for UndoStack {
    type V = UndoStackV;

    closed spec fn view(&self) -> UndoStackV {
        UndoStackV {
            undo: op_views(self.undo_operations@),
            redo: op_views(self.redo_operations@),
            max_size: self.max_size as nat,
        }
    }
}

impl UndoStack {
    pub fn new(max_size: usize) -> (r: Self)
        ensures
            r@.undo.len() == 0,
            r@.redo.len() == 0,
            r@.max_size == max_size,
    {
        let r = UndoStack {
            undo_operations: Vec::new(),
            redo_operations: Vec::new(),
            max_size,
        };
        proof {
            assert(op_views(r.undo_operations@) =~= Seq::<OperationV>::empty());
            assert(op_views(r.redo_operations@) =~= Seq::<OperationV>::empty());
        }
        r
    }

    /// Records a committed operation: the redo stack is cleared entirely,
    /// and the oldest undo entry is dropped if the bound is exceeded.
    pub fn push(&mut self, operation: Operation)
        ensures
            final(self)@.undo == push_model(old(self)@.undo, old(self)@.max_size, operation@),
            final(self)@.redo.len() == 0,
            final(self)@.max_size == old(self)@.max_size,
    {
        self.undo_operations.push(operation);
        self.redo_operations.clear();
        proof {
            assert(op_views(self.redo_operations@) =~= Seq::<OperationV>::empty());
            assert(op_views(self.undo_operations@) =~= op_views(
                old(self).undo_operations@,
            ).push(self.undo_operations@.last()@));
        }
        if self.undo_operations.len() > self.max_size {
            let ghost before = op_views(self.undo_operations@);
            let _ = self.undo_operations.remove(0);
            proof {
                assert(op_views(self.undo_operations@) =~= before.drop_first());
            }
        }
    }

    /// Pops the most recent operation for inverse application, moving it to
    /// the redo stack.
    pub fn undo(&mut self) -> (r: Option<Operation>)
        ensures
            old(self)@.undo.len() == 0 ==> r is None && final(self)@ == old(self)@,
            old(self)@.undo.len() > 0 ==> {
                &&& r is Some
                &&& r->Some_0@ == old(self)@.undo.last()
                &&& final(self)@.undo == old(self)@.undo.drop_last()
                &&& final(self)@.redo == old(self)@.redo.push(old(self)@.undo.last())
                &&& final(self)@.max_size == old(self)@.max_size
            },
    {
        let popped = self.undo_operations.pop();
        match popped {
            Some(operation) => {
                self.redo_operations.push(operation.clone());
                proof {
                    assert(op_views(self.undo_operations@) =~= op_views(
                        old(self).undo_operations@,
                    ).drop_last());
                    assert(op_views(self.redo_operations@) =~= op_views(
                        old(self).redo_operations@,
                    ).push(old(self)@.undo.last()));
                }
                Some(operation)
            },
            None => {
                proof {
                    assert(self@ =~= old(self)@);
                }
                None
            },
        }
    }

    /// Pops the most recent undone operation for re-application, moving it
    /// back to the undo stack.
    pub fn redo(&mut self) -> (r: Option<Operation>)
        ensures
            old(self)@.redo.len() == 0 ==> r is None && final(self)@ == old(self)@,
            old(self)@.redo.len() > 0 ==> {
                &&& r is Some
                &&& r->Some_0@ == old(self)@.redo.last()
                &&& final(self)@.redo == old(self)@.redo.drop_last()
                &&& final(self)@.undo == old(self)@.undo.push(old(self)@.redo.last())
                &&& final(self)@.max_size == old(self)@.max_size
            },
    {
        let popped = self.redo_operations.pop();
        match popped {
            Some(operation) => {
                self.undo_operations.push(operation.clone());
                proof {
                    assert(op_views(self.redo_operations@) =~= op_views(
                        old(self).redo_operations@,
                    ).drop_last());
                    assert(op_views(self.undo_operations@) =~= op_views(
                        old(self).undo_operations@,
                    ).push(old(self)@.redo.last()));
                }
                Some(operation)
            },
            None => {
                proof {
                    assert(self@ =~= old(self)@);
                }
                None
            },
        }
    }

    pub fn can_undo(&self) -> (b: bool)
        ensures
            b == (self@.undo.len() > 0),
    {
        !self.undo_operations.is_empty()
    }

    pub fn can_redo(&self) -> (b: bool)
        ensures
            b == (self@.redo.len() > 0),
    {
        !self.redo_operations.is_empty()
    }

    pub fn is_empty(&self) -> (b: bool)
        ensures
            b == (self@.undo.len() == 0 && self@.redo.len() == 0),
    {
        self.undo_operations.is_empty() && self.redo_operations.is_empty()
    }

    pub fn clear(&mut self)
        ensures
            final(self)@.undo.len() == 0,
            final(self)@.redo.len() == 0,
            final(self)@.max_size == old(self)@.max_size,
    {
        self.undo_operations.clear();
        self.redo_operations.clear();
        proof {
            assert(op_views(self.undo_operations@) =~= Seq::<OperationV>::empty());
            assert(op_views(self.redo_operations@) =~= Seq::<OperationV>::empty());
        }
    }

    pub fn len(&self) -> (n: usize)
        requires
            self@.undo.len() + self@.redo.len() <= usize::MAX,
        ensures
            n == self@.undo.len() + self@.redo.len(),
    {
        self.undo_operations.len() + self.redo_operations.len()
    }
}

} // verus!
