//! Tasks: run status, the task control block, and its mathematical view.

use vstd::prelude::*;
use crate::addr::MAX_SYSCALL_NUM;
use crate::paging::PageMapping;
use crate::space::AddressSpace;

verus! {

/// Run status of a task.
#[derive(Clone, Copy, Debug, PartialEq, Eq, Structural)]
pub enum TaskStatus {
    UnInit,
    Ready,
    Running,
    Exited,
}

/// The mathematical view of one task.
#[verifier::ext_equal]
pub struct TaskView {
    pub status: TaskStatus,
    pub pages: Seq<PageMapping>,
    pub syscall_times: Seq<u32>,
    pub start_time: usize,
}

/// The view of a task just created: status `status`, empty address space,
/// all syscall counters zero, first scheduled at `start_time` microseconds.
pub open spec fn fresh_task_view(start_time: usize, status: TaskStatus) -> TaskView {
    TaskView {
        status,
        pages: Seq::empty(),
        syscall_times: Seq::new(MAX_SYSCALL_NUM as nat, |i: int| 0u32),
        start_time,
    }
}

/// One task: run status, its exclusively owned address space, per-syscall
/// invocation counts, and the wall-clock microseconds at which it was first
/// scheduled.
pub struct TaskControlBlock {
    pub status: TaskStatus,
    pub space: AddressSpace,
    pub syscall_times: Vec<u32>,
    pub start_time: usize,
}

impl View for TaskControlBlock {
    type V = TaskView;

    open spec fn view(&self) -> TaskView {
        TaskView {
            status: self.status,
            pages: self.space.pages@,
            syscall_times: self.syscall_times@,
            start_time: self.start_time,
        }
    }
}

impl TaskControlBlock {
    /// A task that has never run: `Ready`, empty address space, zeroed
    /// counters.
    pub fn new(start_time: usize) -> (t: TaskControlBlock)
        ensures
            t@ == fresh_task_view(start_time, TaskStatus::Ready),
    {
        let mut syscall_times: Vec<u32> = Vec::new();
        let mut i: usize = 0;
        while i < MAX_SYSCALL_NUM
            invariant
                i <= MAX_SYSCALL_NUM,
                syscall_times@.len() == i,
                forall|j: int| 0 <= j < i ==> syscall_times@[j] == 0u32,
            decreases MAX_SYSCALL_NUM - i,
        {
            syscall_times.push(0u32);
            i += 1;
        }
        let t = TaskControlBlock {
            status: TaskStatus::Ready,
            space: AddressSpace::new(),
            syscall_times,
            start_time,
        };
        proof {
            assert(t@.syscall_times =~= fresh_task_view(start_time, TaskStatus::Ready).syscall_times);
            assert(t@ =~~= fresh_task_view(start_time, TaskStatus::Ready));
        }
        t
    }
}

} // verus!
