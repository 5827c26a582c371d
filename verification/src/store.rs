//! The task list and its mutation and query operations.

use vstd::prelude::*;
use vstd::string::StringExecFns;

verus! {

/// One to-do item: a 1-based position number, a title, and a completion flag.
pub struct Task {
    pub id: u32,
    pub title: String,
    pub completed: bool,
}

/// The mathematical image of a task: the number, the title's characters, and
/// the completion flag.
#[verifier::ext_equal]
pub ghost struct SpecTask {
    pub id: u32,
    pub title: Seq<char>,
    pub completed: bool,
}

impl View for Task {
    type V = SpecTask;

    open spec fn view(&self) -> SpecTask {
        SpecTask { id: self.id, title: self.title@, completed: self.completed }
    }
}

/// A sequence of tasks, each seen as its mathematical image.
pub open spec fn view_tasks(ts: Seq<Task>) -> Seq<SpecTask> {
    ts.map_values(|t: Task| t@)
}

/// The numbers of the tasks are exactly `1..=N` in list order.
pub open spec fn ids_contiguous(v: Seq<SpecTask>) -> bool {
    forall|i: int| 0 <= i < v.len() ==> #[trigger] v[i].id == i + 1
}

/// The identifier invariant in full: under it, an identifier occurs in the
/// list exactly when it lies between 1 and the task count, and identifiers
/// ascend with list position.
pub proof fn lemma_ids_exactly_one_to_n(v: Seq<SpecTask>, id: u32)
    requires
        ids_contiguous(v),
    ensures
        (exists|i: int| 0 <= i < v.len() && v[i].id == id) <==> (1 <= id && id <= v.len()),
        forall|i: int, j: int| 0 <= i < j < v.len() ==> v[i].id < v[j].id,
{
    if 1 <= id && id <= v.len() {
        assert(v[id - 1].id == id);
    }
    assert forall|i: int, j: int| 0 <= i < j < v.len() implies v[i].id < v[j].id by {
        assert(v[i].id == i + 1);
        assert(v[j].id == j + 1);
    }
}

/// The same tasks with their numbers reassigned to `1..=N` in list order.
pub open spec fn renumbered(v: Seq<SpecTask>) -> Seq<SpecTask> {
    Seq::new(
        v.len(),
        |i: int|
            SpecTask { id: (i + 1) as u32, title: v[i].title, completed: v[i].completed },
    )
}

/// The ordered list of all tasks.
///
/// Every operation keeps the identifiers contiguous: deleting a task
/// renumbers all survivors, so an identifier names a current position,
/// not a durable key.
pub struct TodoList {
    pub tasks: Vec<Task>,
}

impl View for TodoList {
    type V = Seq<SpecTask>;

    open spec fn view(&self) -> Seq<SpecTask> {
        view_tasks(self.tasks@)
    }
}

/// The completion marker shown in a listing line.
pub open spec fn spec_done_marker(completed: bool) -> Seq<char> {
    if completed {
        seq!['d', 'o', 'n', 'e']
    } else {
        seq!['n', 'o', 't', ' ', 'd', 'o', 'n', 'e']
    }
}

/// One listing line: the number, the title, and the completion marker.
pub open spec fn spec_task_line(t: SpecTask) -> Seq<char> {
    crate::num::dec_digits(t.id as nat) + seq!['.', ' '] + t.title + seq![' ', '[']
        + spec_done_marker(t.completed) + seq![']']
}

impl TodoList {
    /// The list's invariant: identifiers are exactly `1..=N` in order.
    pub open spec fn wf(&self) -> bool {
        ids_contiguous(self@)
    }

    /// An empty list.
    pub fn new() -> (s: Self)
        ensures
            s@ =~= Seq::<SpecTask>::empty(),
            s.wf(),
    {
        TodoList { tasks: Vec::new() }
    }

    /// Appends a new, uncompleted task numbered one past the current count.
    pub fn add_task(&mut self, title: String)
        requires
            old(self)@.len() < u32::MAX,
        ensures
            final(self)@ =~= old(self)@.push(
                SpecTask {
                    id: (old(self)@.len() + 1) as u32,
                    title: title@,
                    completed: false,
                },
            ),
            old(self).wf() ==> final(self).wf(),
    {
        let id = (self.tasks.len() as u32) + 1;
        self.tasks.push(Task { id, title, completed: false });
        proof {
            assert(self@ =~= old(self)@.push(
                SpecTask {
                    id: (old(self)@.len() + 1) as u32,
                    title: title@,
                    completed: false,
                },
            ));
        }
    }

    /// Removes the task with the given number, if it exists, and renumbers
    /// the survivors; an unknown number leaves the list unchanged.
    pub fn delete_task(&mut self, id: u32) -> (found: bool)
        requires
            old(self).wf(),
        ensures
            found <==> 1 <= id && id <= old(self)@.len(),
            !found ==> final(self)@ == old(self)@,
            found ==> final(self)@ =~= renumbered(old(self)@.remove(id - 1)),
            final(self).wf(),
    {
        let n = self.tasks.len();
        if 1 <= id && id as usize <= n {
            let idx = (id as usize) - 1;
            self.tasks.remove(idx);
            proof {
                assert(old(self)@[old(self)@.len() - 1].id == old(self)@.len());
                assert(self@ =~= old(self)@.remove(id - 1));
            }
            self.reassign_ids();
            true
        } else {
            false
        }
    }

    /// Rewrites every task's number to its 1-based position in the list.
    pub fn reassign_ids(&mut self)
        requires
            old(self)@.len() <= u32::MAX,
        ensures
            final(self)@ =~= renumbered(old(self)@),
            final(self).wf(),
    {
        let n = self.tasks.len();
        let mut i: usize = 0;
        while i < n
            invariant
                i <= n,
                n == self.tasks@.len(),
                n == old(self).tasks@.len(),
                n <= u32::MAX,
                forall|k: int| i <= k < n ==> self.tasks@[k] == old(self).tasks@[k],
                forall|k: int|
                    0 <= k < i ==> #[trigger] self.tasks@[k]@ == renumbered(old(self)@)[k],
            decreases n - i,
        {
            let title = self.tasks[i].title.clone();
            let completed = self.tasks[i].completed;
            self.tasks[i] = Task { id: (i as u32) + 1, title, completed };
            i += 1;
        }
        proof {
            assert(self@ =~= renumbered(old(self)@));
        }
    }

    /// Replaces the title of the task with the given number, if it exists,
    /// keeping its number and completion flag; an unknown number leaves the
    /// list unchanged.
    pub fn edit_task(&mut self, id: u32, new_title: String) -> (found: bool)
        requires
            old(self).wf(),
        ensures
            found <==> 1 <= id && id <= old(self)@.len(),
            !found ==> final(self)@ == old(self)@,
            found ==> final(self)@ =~= old(self)@.update(
                id - 1,
                SpecTask { id: id, title: new_title@, completed: old(self)@[id - 1].completed },
            ),
            final(self).wf(),
    {
        let n = self.tasks.len();
        if 1 <= id && id as usize <= n {
            let idx = (id as usize) - 1;
            let completed = self.tasks[idx].completed;
            self.tasks[idx] = Task { id, title: new_title, completed };
            proof {
                assert(self@ =~= old(self)@.update(
                    id - 1,
                    SpecTask {
                        id: id,
                        title: new_title@,
                        completed: old(self)@[id - 1].completed,
                    },
                ));
            }
            true
        } else {
            false
        }
    }

    /// Sets the completion flag of the task with the given number, if it
    /// exists; already-completed tasks stay completed, and an unknown number
    /// leaves the list unchanged.
    pub fn mark_completed(&mut self, id: u32) -> (found: bool)
        requires
            old(self).wf(),
        ensures
            found <==> 1 <= id && id <= old(self)@.len(),
            !found ==> final(self)@ == old(self)@,
            found ==> final(self)@ =~= old(self)@.update(
                id - 1,
                SpecTask { id: id, title: old(self)@[id - 1].title, completed: true },
            ),
            final(self).wf(),
    {
        let n = self.tasks.len();
        if 1 <= id && id as usize <= n {
            let idx = (id as usize) - 1;
            let title = self.tasks[idx].title.clone();
            self.tasks[idx] = Task { id, title, completed: true };
            proof {
                assert(self@ =~= old(self)@.update(
                    id - 1,
                    SpecTask { id: id, title: old(self)@[id - 1].title, completed: true },
                ));
            }
            true
        } else {
            false
        }
    }

    /// The caller-visible listing: a single "empty" indicator line for an
    /// empty store, and otherwise a header followed by one line per task.
    pub fn render_listing(&self) -> (lines: Vec<String>)
        ensures
            self@.len() == 0 ==> lines@.len() == 1 && lines@[0]@ == "Task list is empty."@,
            self@.len() > 0 ==> lines@.len() == self@.len() + 1 && lines@[0]@ == "Tasks:"@
                && forall|i: int|
                0 <= i < self@.len() ==> (#[trigger] lines@[i + 1])@ == spec_task_line(self@[i]),
    {
        let mut lines: Vec<String> = Vec::new();
        let n = self.tasks.len();
        if n == 0 {
            lines.push(String::from_str("Task list is empty."));
            return lines;
        }
        lines.push(String::from_str("Tasks:"));
        let mut i: usize = 0;
        while i < n
            invariant
                i <= n,
                n == self.tasks@.len(),
                n > 0,
                lines@.len() == i + 1,
                lines@[0]@ == "Tasks:"@,
                forall|k: int|
                    0 <= k < i ==> (#[trigger] lines@[k + 1])@ == spec_task_line(self@[k]),
            decreases n - i,
        {
            let t = &self.tasks[i];
            let ghost a1 = crate::num::dec_digits(t.id as nat);
            let ghost a2 = a1 + seq!['.', ' '];
            let ghost a3 = a2 + t.title@;
            let ghost a4 = a3 + seq![' ', '['];
            let ghost a5 = a4 + spec_done_marker(t.completed);
            let ghost a6 = a5 + seq![']'];
            let mut line: Vec<char> = Vec::new();
            crate::num::push_dec_digits(t.id, &mut line);
            proof {
                assert(line@ =~= a1);
            }
            line.push('.');
            line.push(' ');
            proof {
                assert(line@ =~= a2);
            }
            let mut tc = crate::codec::str_to_chars(t.title.as_str());
            line.append(&mut tc);
            proof {
                assert(line@ =~= a3);
            }
            line.push(' ');
            line.push('[');
            proof {
                assert(line@ =~= a4);
            }
            if t.completed {
                line.push('d');
                line.push('o');
                line.push('n');
                line.push('e');
            } else {
                line.push('n');
                line.push('o');
                line.push('t');
                line.push(' ');
                line.push('d');
                line.push('o');
                line.push('n');
                line.push('e');
            }
            proof {
                assert(line@ =~= a5);
            }
            line.push(']');
            proof {
                assert(line@ =~= a6);
                assert(a6 == spec_task_line(self@[i as int]));
            }
            lines.push(crate::codec::chars_to_string(line));
            i += 1;
        }
        lines
    }

    /// Whether the identifiers are exactly `1..=N` in order, as the
    /// invariant demands.
    pub fn check_ids(&self) -> (b: bool)
        ensures
            b == self.wf(),
    {
        let n = self.tasks.len();
        let mut i: usize = 0;
        while i < n
            invariant
                i <= n,
                n == self.tasks@.len(),
                forall|k: int| 0 <= k < i ==> (#[trigger] self@[k]).id == k + 1,
            decreases n - i,
        {
            let id = self.tasks[i].id;
            if !(id as u64 == (i as u64) + 1) {
                proof {
                    assert(self@[i as int].id != i + 1);
                }
                return false;
            }
            i += 1;
        }
        true
    }

    /// A pure read of the whole list as (number, title, completed) rows in
    /// list order.
    pub fn list_tasks(&self) -> (r: Vec<(u32, String, bool)>)
        ensures
            r@.len() == self@.len(),
            forall|i: int|
                0 <= i < r@.len() ==> (#[trigger] r@[i]).0 == self@[i].id && r@[i].1@
                    == self@[i].title && r@[i].2 == self@[i].completed,
    {
        let n = self.tasks.len();
        let mut r: Vec<(u32, String, bool)> = Vec::new();
        let mut i: usize = 0;
        while i < n
            invariant
                i <= n,
                n == self.tasks@.len(),
                r@.len() == i,
                forall|k: int|
                    0 <= k < i ==> (#[trigger] r@[k]).0 == self@[k].id && r@[k].1@
                        == self@[k].title && r@[k].2 == self@[k].completed,
            decreases n - i,
        {
            let t = (self.tasks[i].id, self.tasks[i].title.clone(), self.tasks[i].completed);
            r.push(t);
            i += 1;
        }
        r
    }
}

} // verus!
