//! Tasks and the in-memory store that holds them.

use vstd::prelude::*;

verus! {

/// Why an operation on the store or on its text form failed.
#[derive(Debug, Clone, Copy, PartialEq, Eq, Structural)]
pub enum TodoError {
    /// A task with the same description is already in the store.
    DuplicateDescription,
    /// No task has the identifier asked for.
    NotFound,
    /// A `Priority:` field is not a decimal `u32`.
    MalformedPriority,
    /// A file could not be created, opened, read or written.
    IOFailure,
}

/// A task as a mathematical value.
pub struct TaskModel {
    pub description: Seq<char>,
    pub priority: u32,
    pub deadline: Seq<char>,
    pub completed: bool,
}

/// One to-do item.
#[derive(Debug)]
pub struct Task {
    pub description: String,
    pub priority: u32,
    /// In `DD-MM-YYYY` form when entered; kept as text.
    pub deadline: String,
    pub completed: bool,
}

impl View for Task {
    type V = TaskModel;

    open spec fn view(&self) -> TaskModel {
        TaskModel {
            description: self.description@,
            priority: self.priority,
            deadline: self.deadline@,
            completed: self.completed,
        }
    }
}

pub open spec fn pending_model(description: Seq<char>, priority: u32, deadline: Seq<char>) -> TaskModel {
    TaskModel { description, priority, deadline, completed: false }
}

impl Task {
    /// A pending task.
    pub fn new(description: String, priority: u32, deadline: String) -> (t: Task)
        ensures
            t@ == pending_model(description@, priority, deadline@),
    {
        Task { description, priority, deadline, completed: false }
    }

    /// Marks the task completed.
    pub fn complete(&mut self)
        ensures
            final(self)@ == (TaskModel { completed: true, ..old(self)@ }),
    {
        self.completed = true;
    }

    pub fn clone_task(&self) -> (t: Task)
        ensures
            t@ == self@,
    {
        Task {
            description: self.description.clone(),
            priority: self.priority,
            deadline: self.deadline.clone(),
            completed: self.completed,
        }
    }
}

/// The store's entries as values: identifier and task, in identifier order.
pub open spec fn entries_view(v: Seq<(usize, Task)>) -> Seq<(usize, TaskModel)> {
    v.map_values(|e: (usize, Task)| (e.0, e.1@))
}

/// Identifiers at least 1, strictly increasing, and below `next`.
pub open spec fn ids_ordered(es: Seq<(usize, TaskModel)>, next: usize) -> bool {
    &&& forall|i: int| 0 <= i < es.len() ==> 1 <= #[trigger] es[i].0 < next
    &&& forall|i: int, j: int| 0 <= i < j < es.len() ==> es[i].0 < es[j].0
}

/// No two tasks share a description.
pub open spec fn descriptions_unique(es: Seq<(usize, TaskModel)>) -> bool {
    forall|i: int, j: int|
        0 <= i < es.len() && 0 <= j < es.len() && i != j ==> es[i].1.description
            != es[j].1.description
}

pub open spec fn has_description(es: Seq<(usize, TaskModel)>, d: Seq<char>) -> bool {
    exists|i: int| 0 <= i < es.len() && (#[trigger] es[i]).1.description == d
}

pub open spec fn has_id(es: Seq<(usize, TaskModel)>, id: usize) -> bool {
    exists|i: int| 0 <= i < es.len() && (#[trigger] es[i]).0 == id
}

/// The entries whose `completed` flag is `c`, in order.
pub open spec fn with_status(es: Seq<(usize, TaskModel)>, c: bool) -> Seq<(usize, TaskModel)> {
    es.filter(|e: (usize, TaskModel)| e.1.completed == c)
}

/// The entries with the one under `id` marked completed.
pub open spec fn mark_completed(es: Seq<(usize, TaskModel)>, id: usize) -> Seq<(usize, TaskModel)> {
    Seq::new(
        es.len(),
        |i: int|
            if es[i].0 == id {
                (id, TaskModel { completed: true, ..es[i].1 })
            } else {
                es[i]
            },
    )
}

/// Completing a task a second time changes nothing: after the first call
/// the identifier is still there, so the second succeeds, and it leaves the
/// entries as the first left them.
pub proof fn lemma_complete_twice(es: Seq<(usize, TaskModel)>, id: usize)
    requires
        has_id(es, id),
    ensures
        has_id(mark_completed(es, id), id),
        mark_completed(mark_completed(es, id), id) == mark_completed(es, id),
{
    let i = choose|i: int| 0 <= i < es.len() && (#[trigger] es[i]).0 == id;
    assert(mark_completed(es, id)[i].0 == id);
    assert(mark_completed(mark_completed(es, id), id) =~= mark_completed(es, id));
}

/// An empty store lists no pending and no completed task.
pub proof fn lemma_list_empty(es: Seq<(usize, TaskModel)>)
    requires
        es.len() == 0,
    ensures
        with_status(es, false) == Seq::<(usize, TaskModel)>::empty(),
        with_status(es, true) == Seq::<(usize, TaskModel)>::empty(),
{
    reveal(Seq::filter);
    assert(with_status(es, false) =~= Seq::<(usize, TaskModel)>::empty());
    assert(with_status(es, true) =~= Seq::<(usize, TaskModel)>::empty());
}

/// Tasks under the identifiers 1, 2, 3, ... in their order.
pub open spec fn numbered(ts: Seq<TaskModel>) -> Seq<(usize, TaskModel)> {
    Seq::new(ts.len(), |i: int| ((i + 1) as usize, ts[i]))
}

/// All tasks, keyed by identifier. Identifiers come from a counter that
/// starts at 1 and never goes back, so none is handed out twice.
pub struct TaskStore {
    tasks: Vec<(usize, Task)>,
    next_id: usize,
}

impl TaskStore {
    pub closed spec fn entries(&self) -> Seq<(usize, TaskModel)> {
        entries_view(self.tasks@)
    }

    pub closed spec fn next(&self) -> usize {
        self.next_id
    }

    pub open spec fn wf(&self) -> bool {
        &&& 1 <= self.next()
        &&& ids_ordered(self.entries(), self.next())
    }

    /// An empty store whose first identifier is 1.
    pub fn new() -> (s: TaskStore)
        ensures
            s.wf(),
            s.entries() == Seq::<(usize, TaskModel)>::empty(),
            s.next() == 1,
    {
        let s = TaskStore { tasks: Vec::new(), next_id: 1 };
        assert(s.entries() =~= Seq::<(usize, TaskModel)>::empty());
        s
    }

    /// A store that holds `tasks` under the identifiers 1, 2, 3, ...
    pub fn from_tasks(tasks: Vec<Task>) -> (s: TaskStore)
        requires
            tasks@.len() < usize::MAX,
        ensures
            s.wf(),
            s.entries() == numbered(tasks@.map_values(|t: Task| t@)),
            s.next() == tasks@.len() + 1,
    {
        let ghost ts = tasks@.map_values(|t: Task| t@);
        let n = tasks.len();
        let mut keyed: Vec<(usize, Task)> = Vec::new();
        let mut i: usize = 0;
        while i < n
            invariant
                n == ts.len(),
                n == tasks@.len(),
                ts == tasks@.map_values(|t: Task| t@),
                i <= n,
                entries_view(keyed@) == numbered(ts.take(i as int)),
            decreases n - i,
        {
            let ghost b = keyed@;
            let t = tasks[i].clone_task();
            keyed.push((i + 1, t));
            assert(entries_view(keyed@) =~= entries_view(b).push(((i + 1) as usize, ts[i as int])));
            assert(entries_view(keyed@) =~= numbered(ts.take(i + 1)));
            i = i + 1;
        }
        assert(ts.take(n as int) =~= ts);
        TaskStore { tasks: keyed, next_id: n + 1 }
    }

    /// The identifier that the next `add` hands out.
    pub fn next_id(&self) -> (r: usize)
        ensures
            r == self.next(),
    {
        self.next_id
    }

    pub fn len(&self) -> (r: usize)
        ensures
            r == self.entries().len(),
    {
        self.tasks.len()
    }

    pub fn is_empty(&self) -> (r: bool)
        ensures
            r == (self.entries().len() == 0),
    {
        self.tasks.len() == 0
    }

    /// Whether a task with description `d` is in the store.
    pub fn contains_description(&self, d: &String) -> (r: bool)
        ensures
            r == has_description(self.entries(), d@),
    {
        let mut i: usize = 0;
        while i < self.tasks.len()
            invariant
                i <= self.tasks@.len(),
                forall|j: int| 0 <= j < i ==> self.entries()[j].1.description != d@,
            decreases self.tasks@.len() - i,
        {
            if self.tasks[i].1.description == *d {
                assert(self.entries()[i as int].1.description == d@);
                return true;
            }
            i = i + 1;
        }
        false
    }

    /// Adds a pending task under the next identifier and returns that
    /// identifier; refuses a description that is already in the store.
    pub fn add(&mut self, description: String, priority: u32, deadline: String) -> (r: Result<usize, TodoError>)
        requires
            old(self).wf(),
            old(self).next() < usize::MAX,
        ensures
            final(self).wf(),
            descriptions_unique(old(self).entries()) ==> descriptions_unique(final(self).entries()),
            has_description(old(self).entries(), description@) ==> r == Err::<usize, TodoError>(
                TodoError::DuplicateDescription,
            ) && *final(self) == *old(self),
            !has_description(old(self).entries(), description@) ==> r == Ok::<usize, TodoError>(
                old(self).next(),
            ) && final(self).entries() == old(self).entries().push(
                (old(self).next(), pending_model(description@, priority, deadline@)),
            ) && final(self).next() == old(self).next() + 1,
    {
        if self.contains_description(&description) {
            return Err(TodoError::DuplicateDescription);
        }
        let id = self.next_id;
        let ghost before = self.tasks@;
        self.tasks.push((id, Task::new(description, priority, deadline)));
        self.next_id = id + 1;
        assert(self.entries() =~= entries_view(before).push(
            (id, pending_model(description@, priority, deadline@)),
        ));
        Ok(id)
    }

    /// Marks the task with identifier `id` completed.
    pub fn complete(&mut self, id: usize) -> (r: Result<(), TodoError>)
        requires
            old(self).wf(),
        ensures
            final(self).wf(),
            final(self).next() == old(self).next(),
            r is Err <==> !has_id(old(self).entries(), id),
            r is Err ==> r == Err::<(), TodoError>(TodoError::NotFound) && *final(self) == *old(
                self,
            ),
            r is Ok ==> final(self).entries() == mark_completed(old(self).entries(), id),
    {
        let mut i: usize = 0;
        while i < self.tasks.len()
            invariant
                i <= self.tasks@.len(),
                *self == *old(self),
                self.wf(),
                forall|j: int| 0 <= j < i ==> self.entries()[j].0 != id,
            decreases self.tasks@.len() - i,
        {
            if self.tasks[i].0 == id {
                let ghost before = self.tasks@;
                let mut e = self.tasks.remove(i);
                e.1.complete();
                self.tasks.insert(i, e);
                proof {
                    let es = entries_view(before);
                    assert(es[i as int].0 == id);
                    assert forall|j: int| 0 <= j < es.len() && j != i implies es[j].0 != id
                        && #[trigger] self.tasks@[j] == before[j] by {
                        if j > i {
                            assert(es[i as int].0 < es[j].0);
                        }
                    }
                }
                assert(self.entries() =~= mark_completed(entries_view(before), id));
                return Ok(());
            }
            i = i + 1;
        }
        Err(TodoError::NotFound)
    }

    /// The pending and the completed entries, each in identifier order.
    pub fn list(&self) -> (r: (Vec<(usize, Task)>, Vec<(usize, Task)>))
        ensures
            entries_view(r.0@) == with_status(self.entries(), false),
            entries_view(r.1@) == with_status(self.entries(), true),
    {
        let mut pending: Vec<(usize, Task)> = Vec::new();
        let mut completed: Vec<(usize, Task)> = Vec::new();
        let mut i: usize = 0;
        while i < self.tasks.len()
            invariant
                i <= self.tasks@.len(),
                entries_view(pending@) == with_status(self.entries().take(i as int), false),
                entries_view(completed@) == with_status(self.entries().take(i as int), true),
            decreases self.tasks@.len() - i,
        {
            let ghost es = self.entries();
            proof {
                assert(es.take(i + 1).drop_last() =~= es.take(i as int));
                reveal(Seq::filter);
            }
            let e = (self.tasks[i].0, self.tasks[i].1.clone_task());
            if e.1.completed {
                let ghost b = completed@;
                completed.push(e);
                assert(entries_view(completed@) =~= entries_view(b).push(es[i as int]));
            } else {
                let ghost b = pending@;
                pending.push(e);
                assert(entries_view(pending@) =~= entries_view(b).push(es[i as int]));
            }
            i = i + 1;
        }
        assert(self.entries().take(self.tasks@.len() as int) =~= self.entries());
        (pending, completed)
    }

    /// Removes every task; the identifier counter keeps its value.
    pub fn clear(&mut self)
        requires
            old(self).wf(),
        ensures
            final(self).wf(),
            final(self).entries() == Seq::<(usize, TaskModel)>::empty(),
            final(self).next() == old(self).next(),
    {
        self.tasks = Vec::new();
        assert(self.entries() =~= Seq::<(usize, TaskModel)>::empty());
    }

    /// Puts the entries of `other` in place of this store's. The counter
    /// takes the larger of the two, so no identifier is handed out again.
    pub fn replace(&mut self, other: TaskStore)
        requires
            old(self).wf(),
            other.wf(),
        ensures
            final(self).wf(),
            final(self).entries() == other.entries(),
            final(self).next() == if old(self).next() < other.next() {
                other.next()
            } else {
                old(self).next()
            },
    {
        let next = if self.next_id < other.next_id { other.next_id } else { self.next_id };
        self.tasks = other.tasks;
        self.next_id = next;
    }

    /// The entries, in identifier order.
    pub fn entries_vec(&self) -> (r: &Vec<(usize, Task)>)
        ensures
            entries_view(r@) == self.entries(),
    {
        &self.tasks
    }
}

} // verus!
