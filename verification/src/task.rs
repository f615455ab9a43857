//! The task record of the flat format, and the mutation that appends a new
//! task to a list.

use vstd::prelude::*;

verus! {

/// One line item of the flat format: an identifier and a free-text
/// description.
#[derive(Debug, Clone, PartialEq, Eq)]
pub struct Task {
    pub id: usize,
    pub task: String,
}

/// The mathematical model of a task: the identifier as an unbounded
/// integer and the description as a sequence of characters.
pub ghost struct TaskV {
    pub id: nat,
    pub task: Seq<char>,
}

impl View for Task {
    type V = TaskV;

    open spec fn view(&self) -> TaskV {
        TaskV { id: self.id as nat, task: self.task@ }
    }
}

/// The model of a whole flat task list.
pub open spec fn tasks_view(tasks: Seq<Task>) -> Seq<TaskV> {
    tasks.map_values(|t: Task| t@)
}

/// The largest identifier in a list, or `0` for an empty list: the
/// identifier the next appended task receives. The maximum is reused as
/// it stands, not incremented, so an append to a non-empty list repeats
/// the current maximum.
pub open spec fn next_id(tasks: Seq<TaskV>) -> nat
    decreases tasks.len(),
{
    if tasks.len() == 0 {
        0
    } else if tasks.last().id >= next_id(tasks.drop_last()) {
        tasks.last().id
    } else {
        next_id(tasks.drop_last())
    }
}

/// Appends one task with description `task_string` and identifier
/// `next_id` of the current list; every existing record is unchanged and
/// keeps its place.
pub fn add_to_task_list(task_list: &mut Vec<Task>, task_string: &str)
    ensures
        final(task_list)@.len() == old(task_list)@.len() + 1,
        forall|i: int|
            0 <= i < old(task_list)@.len() ==> final(task_list)@[i] == old(task_list)@[i],
        final(task_list)@.last().id == next_id(tasks_view(old(task_list)@)),
        final(task_list)@.last().task@ == task_string@,
{
    let ghost orig = task_list@;
    let mut max: usize = 0;
    let mut i: usize = 0;
    while i < task_list.len()
        invariant
            task_list@ == orig,
            0 <= i <= orig.len(),
            max == next_id(tasks_view(orig.take(i as int))),
        decreases orig.len() - i,
    {
        proof {
            assert(tasks_view(orig.take(i + 1)).drop_last() =~= tasks_view(orig.take(i as int)));
            assert(tasks_view(orig.take(i + 1)).last() == orig[i as int]@);
        }
        if task_list[i].id > max {
            max = task_list[i].id;
        }
        i = i + 1;
    }
    proof {
        assert(orig.take(orig.len() as int) =~= orig);
    }
    let task = Task { id: max, task: String::from_str(task_string) };
    task_list.push(task);
}

} // verus!
