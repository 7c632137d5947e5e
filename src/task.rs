//! The task control block and its scheduling metrics.
use vstd::prelude::*;
use crate::memory::MemorySet;

verus! {

/// Number of syscall ids whose invocations are counted.
pub const MAX_SYSCALL_NUM: usize = 500;

/// The stride scale: a task's pass is `BIG_STRIDE / priority`.
pub const BIG_STRIDE: u64 = 1_000_000;

/// Priority of a task that never set one.
pub const DEFAULT_PRIORITY: u64 = 16;

/// The status of a task. `Exited` is the zombie state: the task has exited
/// and its parent has not yet reaped it. A table slot whose task was reaped
/// returns to `UnInit`.
#[derive(Clone, Copy, Debug, PartialEq, Eq, Structural)]
pub enum TaskStatus {
    /// uninitialized
    UnInit,
    /// ready to run
    Ready,
    /// running
    Running,
    /// exited
    Exited,
}

/// What `task_info` reports of the calling task.
pub struct TaskInfo {
    pub status: TaskStatus,
    pub syscall_times: Vec<u32>,
    /// Milliseconds since the task was created.
    pub time: usize,
}

/// The task control block (TCB) of a task.
pub struct TaskControlBlock {
    /// Process id; also the task's slot in the process table.
    pub pid: usize,
    /// The task status in its lifecycle
    pub task_status: TaskStatus,
    /// start time, in milliseconds
    pub task_start_time: usize,
    /// syscall record, indexed by syscall id
    pub syscall_times: Vec<u32>,
    /// Accumulated pass value.
    pub stride: u64,
    /// Scheduling priority, at least 2.
    pub priority: u64,
    /// Pid of the parent; a lookup, never an owner.
    pub parent: Option<usize>,
    /// Pids of the children, in creation order.
    pub children: Vec<usize>,
    /// Exit code, meaningful once the status is `Exited`.
    pub exit_code: i32,
    /// The task's user address space.
    pub memory_set: MemorySet,
    /// The return-value register of the saved trap context.
    pub trap_ret: isize,
}

/// The stride a task with `stride` and `priority` has after being scheduled
/// once; it stays at `u64::MAX` once it gets there.
pub open spec fn advanced_stride(stride: u64, priority: u64) -> u64 {
    if stride + BIG_STRIDE / priority > u64::MAX {
        u64::MAX
    } else {
        (stride + BIG_STRIDE / priority) as u64
    }
}

/// Every syscall count is zero.
pub open spec fn zero_counts(s: Seq<u32>) -> bool {
    s.len() == MAX_SYSCALL_NUM && forall|i: int| 0 <= i < s.len() ==> #[trigger] s[i] == 0
}

impl TaskControlBlock {
    /// The syscall record has a count for each syscall id, the priority is
    /// valid and the address space is well formed.
    pub open spec fn wf(&self) -> bool {
        &&& self.syscall_times@.len() == MAX_SYSCALL_NUM
        &&& self.priority >= 2
        &&& self.memory_set.wf()
    }

    /// A fresh, ready task with zeroed accounting.
    pub fn new(pid: usize, parent: Option<usize>, memory_set: MemorySet, start_time: usize) -> (r: TaskControlBlock)
        requires
            memory_set.wf(),
        ensures
            r.wf(),
            r.pid == pid,
            r.task_status == TaskStatus::Ready,
            r.task_start_time == start_time,
            zero_counts(r.syscall_times@),
            r.stride == 0,
            r.priority == DEFAULT_PRIORITY,
            r.parent == parent,
            r.children@ == Seq::<usize>::empty(),
            r.exit_code == 0,
            r.memory_set == memory_set,
            r.trap_ret == 0,
    {
        let mut syscall_times: Vec<u32> = Vec::new();
        let mut i: usize = 0;
        while i < MAX_SYSCALL_NUM
            invariant
                i <= MAX_SYSCALL_NUM,
                syscall_times@.len() == i,
                forall|k: int| 0 <= k < i ==> #[trigger] syscall_times@[k] == 0,
            decreases MAX_SYSCALL_NUM - i,
        {
            syscall_times.push(0);
            i = i + 1;
        }
        TaskControlBlock {
            pid,
            task_status: TaskStatus::Ready,
            task_start_time: start_time,
            syscall_times,
            stride: 0,
            priority: DEFAULT_PRIORITY,
            parent,
            children: Vec::new(),
            exit_code: 0,
            memory_set,
            trap_ret: 0,
        }
    }

    /// Counts one more invocation of syscall `syscall_id`.
    pub fn update_syscall(&mut self, syscall_id: usize)
        requires
            syscall_id < old(self).syscall_times@.len(),
            old(self).syscall_times@[syscall_id as int] < u32::MAX,
        ensures
            final(self).syscall_times@ == old(self).syscall_times@.update(
                syscall_id as int,
                (old(self).syscall_times@[syscall_id as int] + 1) as u32,
            ),
            *final(self) == (TaskControlBlock { syscall_times: final(self).syscall_times, ..*old(self) }),
    {
        self.syscall_times[syscall_id] = self.syscall_times[syscall_id] + 1;
    }

    /// What `task_info` reports at time `now_ms`: the status, a copy of the
    /// syscall record, and the milliseconds since the task started (0 if the
    /// clock reads earlier than the start).
    pub fn task_info(&self, now_ms: usize) -> (r: TaskInfo)
        ensures
            r.status == self.task_status,
            r.syscall_times@ == self.syscall_times@,
            r.time == if now_ms >= self.task_start_time { now_ms - self.task_start_time } else { 0 },
    {
        let mut times: Vec<u32> = Vec::new();
        let mut i: usize = 0;
        while i < self.syscall_times.len()
            invariant
                i <= self.syscall_times@.len(),
                times@ == self.syscall_times@.subrange(0, i as int),
            decreases self.syscall_times@.len() - i,
        {
            times.push(self.syscall_times[i]);
            i = i + 1;
            assert(times@ =~= self.syscall_times@.subrange(0, i as int));
        }
        assert(times@ =~= self.syscall_times@);
        let time = if now_ms >= self.task_start_time { now_ms - self.task_start_time } else { 0 };
        TaskInfo { status: self.task_status, syscall_times: times, time }
    }

    /// The amount added to the stride each time the task is scheduled.
    pub fn pass(&self) -> (r: u64)
        requires
            self.priority >= 2,
        ensures
            r == BIG_STRIDE / self.priority,
            r <= BIG_STRIDE / 2,
    {
        assert(BIG_STRIDE / self.priority <= BIG_STRIDE / 2) by (nonlinear_arith)
            requires
                self.priority >= 2,
        {
        }
        BIG_STRIDE / self.priority
    }

    /// Sets the priority. Values below 2 are refused with -1 and change
    /// nothing; otherwise the new priority is returned.
    pub fn set_priority(&mut self, prio: isize) -> (r: isize)
        ensures
            prio < 2 ==> r == -1 && *final(self) == *old(self),
            prio >= 2 ==> {
                &&& r == prio
                &&& final(self).priority == prio as u64
                &&& *final(self) == (TaskControlBlock { priority: prio as u64, ..*old(self) })
            },
    {
        if prio < 2 {
            return -1;
        }
        self.priority = prio as u64;
        prio
    }
}

} // verus!
