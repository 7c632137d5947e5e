//! The process table and the process-management syscalls.
//!
//! A syscall here receives plain values: user pointers arrive as addresses
//! (0 is null), an executable arrives as its bytes (`None` when the path
//! could not be opened), and data for the caller leaves through an out
//! parameter that the caller copies to user memory.
use vstd::prelude::*;
use crate::manager::{fetched, queue_in_table, TaskManager};
use crate::memory::{mmap_done, munmap_done, page_round_up, sbrk_done, MemorySet, PAGE_SIZE};
use crate::task::{zero_counts, TaskControlBlock, TaskInfo, TaskStatus, DEFAULT_PRIORITY};

verus! {

/// Timer ticks per second.
pub const CLOCK_FREQ: usize = 12_500_000;

/// Timer ticks per millisecond.
pub const TICKS_PER_MS: usize = 12_500;

/// Microseconds per second.
pub const USEC_PER_SEC: usize = 1_000_000;

/// Pid of the root task, which adopts the children of exiting tasks.
pub const INITPROC_PID: usize = 0;

/// Lowest user address of a loaded program.
pub const USER_BASE: usize = 0x1000;

/// An executable image: an ELF file (it starts with the ELF magic bytes)
/// small enough that the program, a guard page and the heap's first page
/// lie below `isize::MAX`.
pub open spec fn valid_image(b: Seq<u8>) -> bool {
    &&& 4 <= b.len() <= isize::MAX - USER_BASE - 2 * PAGE_SIZE
    &&& b[0] == 0x7f
    &&& b[1] == 0x45
    &&& b[2] == 0x4c
    &&& b[3] == 0x46
}

/// Where the heap of a program loaded from `n` image bytes starts: one guard
/// page above the page-rounded end of the program at `USER_BASE`.
pub open spec fn image_heap_bottom(n: int) -> int {
    page_round_up(USER_BASE + n) + PAGE_SIZE
}

/// The address space of a freshly loaded image of `n` bytes: the program
/// at `[USER_BASE, USER_BASE + n)`, no mmap region and an empty heap.
pub open spec fn is_image_space(m: MemorySet, n: int) -> bool {
    &&& m.wf()
    &&& m.program_start == USER_BASE
    &&& m.program_end == USER_BASE + n
    &&& m.areas@.len() == 0
    &&& m.heap_bottom == image_heap_bottom(n)
    &&& m.brk == m.heap_bottom
}

/// A task control block that was just created: ready, with zeroed
/// accounting, default priority, no children, and a trap context whose
/// return-value register reads 0.
pub open spec fn is_fresh_task(t: TaskControlBlock, pid: usize, parent: Option<usize>, start: usize) -> bool {
    &&& t.wf()
    &&& t.pid == pid
    &&& t.task_status == TaskStatus::Ready
    &&& t.task_start_time == start
    &&& zero_counts(t.syscall_times@)
    &&& t.stride == 0
    &&& t.priority == DEFAULT_PRIORITY
    &&& t.parent == parent
    &&& t.children@ == Seq::<usize>::empty()
    &&& t.trap_ret == 0
}

/// Time since boot, as seconds and microseconds.
#[derive(Clone, Copy, Debug, PartialEq, Eq, Structural)]
pub struct TimeVal {
    pub sec: usize,
    pub usec: usize,
}

/// The time that the tick counter `ticks` stands for.
pub open spec fn time_of(ticks: usize) -> TimeVal {
    TimeVal {
        sec: (ticks / CLOCK_FREQ) as usize,
        usec: ((ticks % CLOCK_FREQ) as int * USEC_PER_SEC as int / CLOCK_FREQ as int) as usize,
    }
}

/// `t` with its status replaced by `s`.
pub open spec fn with_status(t: TaskControlBlock, s: TaskStatus) -> TaskControlBlock {
    TaskControlBlock { task_status: s, ..t }
}

/// Parent and children links agree: a children list holds each pid once,
/// each child names the task that lists it as its parent, and a task's
/// parent lists it among its children. So no pid is the child of two tasks.
#[verifier::opaque]
pub open spec fn family_ok(t: Seq<TaskControlBlock>) -> bool {
    &&& forall|i: int| 0 <= i < t.len() ==> (#[trigger] t[i].children@).no_duplicates()
    &&& forall|i: int, k: int|
        0 <= i < t.len() && 0 <= k < t[i].children@.len() ==> {
            let x = #[trigger] t[i].children@[k];
            x < t.len() && t[x as int].parent == Some(i as usize)
        }
    &&& forall|x: int|
        0 <= x < t.len() && (#[trigger] t[x].parent) is Some ==> {
            let p = t[x].parent.unwrap() as int;
            0 <= p < t.len() && exists|k: int| 0 <= k < t[p].children@.len() && t[p].children@[k] == x
        }
}

/// A change that keeps every parent and children list keeps the links.
proof fn lemma_family_frame(t0: Seq<TaskControlBlock>, t1: Seq<TaskControlBlock>)
    requires
        family_ok(t0),
        t1.len() == t0.len(),
        forall|x: int| 0 <= x < t0.len() ==> (#[trigger] t1[x]).parent == t0[x].parent && t1[x].children@ == t0[x].children@,
    ensures
        family_ok(t1),
{
    reveal(family_ok);
    assert forall|x: int| 0 <= x < t1.len() && (#[trigger] t1[x].parent) is Some implies {
        let p = t1[x].parent.unwrap() as int;
        0 <= p < t1.len() && exists|k: int| 0 <= k < t1[p].children@.len() && t1[p].children@[k] == x
    } by {
        assert(t0[x].parent is Some);
        let p = t0[x].parent.unwrap() as int;
        let k = choose|k: int| 0 <= k < t0[p].children@.len() && t0[p].children@[k] == x;
        assert(t1[p].children@ == t0[p].children@);
    }
    assert forall|i: int, k: int| 0 <= i < t1.len() && 0 <= k < t1[i].children@.len() implies {
        let x = #[trigger] t1[i].children@[k];
        x < t1.len() && t1[x as int].parent == Some(i as usize)
    } by {
        assert(t1[i].children@ == t0[i].children@);
        assert(t0[i].children@[k] < t0.len());
    }
    assert forall|i: int| 0 <= i < t1.len() implies (#[trigger] t1[i].children@).no_duplicates() by {
        assert(t1[i].children@ == t0[i].children@);
    }
}

/// The kernel's process-management state.
pub struct Kernel {
    /// The process table: the task with pid `i` is at index `i`.
    pub tasks: Vec<TaskControlBlock>,
    /// The ready queue.
    pub manager: TaskManager,
    /// Pid of the running task; `None` while idle.
    pub current: Option<usize>,
    /// The timer's tick counter as last read.
    pub time_ticks: usize,
}

impl Kernel {
    /// The table is indexed by pid and every task is well formed. A task's
    /// children are in the table and are neither itself nor the root task,
    /// and parent and children links agree (`family_ok`). Queued tasks are ready, and the running
    /// task is in the table with status `Running`.
    pub open spec fn wf(&self) -> bool {
        &&& 0 < self.tasks@.len() < isize::MAX
        &&& forall|i: int|
            0 <= i < self.tasks@.len() ==> {
                &&& (#[trigger] self.tasks@[i]).pid == i
                &&& self.tasks@[i].wf()
            }
        &&& family_ok(self.tasks@)
        &&& forall|i: int, k: int|
            0 <= i < self.tasks@.len() && 0 <= k < self.tasks@[i].children@.len() ==> {
                let x = #[trigger] self.tasks@[i].children@[k];
                &&& x < self.tasks@.len()
                &&& x != i
                &&& x != INITPROC_PID
            }
        &&& queue_in_table(self.tasks@, self.manager.ready_queue@)
        &&& self.manager.ready_queue@.no_duplicates()
        &&& forall|k: int|
            0 <= k < self.manager.ready_queue@.len()
                ==> self.tasks@[#[trigger] self.manager.ready_queue@[k] as int].task_status == TaskStatus::Ready
        &&& self.current matches Some(c) ==> c < self.tasks@.len() && self.tasks@[c as int].task_status
            == TaskStatus::Running
    }

    /// The well-formed state with a running task, in which syscalls are made.
    pub open spec fn ready_for_syscall(&self) -> bool {
        self.wf() && self.current is Some
    }

    /// Pid of the running task.
    pub open spec fn cur(&self) -> int {
        self.current.unwrap() as int
    }

    /// The running task's control block.
    pub open spec fn cur_task(&self) -> TaskControlBlock {
        self.tasks@[self.cur()]
    }

    /// Milliseconds since boot.
    pub open spec fn now_ms(&self) -> usize {
        (self.time_ticks / TICKS_PER_MS) as usize
    }

    /// Records a new reading of the timer's tick counter.
    pub fn set_time_ticks(&mut self, ticks: usize)
        requires
            old(self).wf(),
        ensures
            final(self).wf(),
            *final(self) == (Kernel { time_ticks: ticks, ..*old(self) }),
    {
        self.time_ticks = ticks;
    }

    /// Milliseconds since boot.
    pub fn get_time_ms(&self) -> (r: usize)
        ensures
            r == self.now_ms(),
    {
        self.time_ticks / TICKS_PER_MS
    }
}

/// Switching to the next task from the table `t0` and the ready queue `q0`
/// gave `k1`: the task with the smallest
/// stride leaves the ready queue and runs, or the kernel idles when the
/// queue is empty.
pub open spec fn switched(t0: Seq<TaskControlBlock>, q0: Seq<usize>, k1: Kernel) -> bool {
    if q0.len() == 0 {
        &&& k1.current is None
        &&& k1.tasks@ == t0
        &&& k1.manager.ready_queue@ == q0
    } else {
        exists|i: int, t: Seq<TaskControlBlock>| {
            let p = q0[i];
            &&& #[trigger] fetched(t0, q0, i, t, k1.manager.ready_queue@)
            &&& k1.tasks@ == t.update(p as int, with_status(t[p as int], TaskStatus::Running))
            &&& k1.current == Some(p)
        }
    }
}

/// After the fetch of position `i`, the queued tasks are still ready and
/// distinct, and none of them is the fetched one.
proof fn lemma_fetch_keeps_queue(k0: Kernel, i: int, t: Seq<TaskControlBlock>, q1: Seq<usize>)
    requires
        k0.wf(),
        fetched(k0.tasks@, k0.manager.ready_queue@, i, t, q1),
    ensures
        q1.no_duplicates(),
        queue_in_table(t, q1),
        t.len() == k0.tasks@.len(),
        family_ok(t),
        forall|x: int| 0 <= x < t.len() ==> (#[trigger] t[x]).parent == k0.tasks@[x].parent,
        forall|x: int| 0 <= x < t.len() ==> (#[trigger] t[x]).pid == k0.tasks@[x].pid && t[x].task_status
            == k0.tasks@[x].task_status && t[x].children == k0.tasks@[x].children && t[x].wf(),
        forall|j: int|
            0 <= j < q1.len() ==> #[trigger] q1[j] != k0.manager.ready_queue@[i] && t[q1[j] as int].task_status
                == TaskStatus::Ready,
{
    let q0 = k0.manager.ready_queue@;
    let p = q0[i] as int;
    assert forall|x: int| 0 <= x < t.len() implies (#[trigger] t[x]).parent == k0.tasks@[x].parent
        && t[x].children == k0.tasks@[x].children by {
    }
    lemma_family_frame(k0.tasks@, t);
    assert forall|x: int| 0 <= x < t.len() implies (#[trigger] t[x]).pid == k0.tasks@[x].pid && t[x].task_status
        == k0.tasks@[x].task_status && t[x].children == k0.tasks@[x].children && t[x].wf() by {
        assert(k0.tasks@[x].wf());
    }
    assert forall|j: int| 0 <= j < q1.len() implies #[trigger] q1[j] != q0[i] && t[q1[j] as int].task_status
        == TaskStatus::Ready by {
        let j0 = if j < i { j } else { j + 1 };
        assert(q1[j] == q0[j0]);
        assert(k0.tasks@[q0[j0] as int].task_status == TaskStatus::Ready);
    }
    assert forall|a: int, b: int| 0 <= a < q1.len() && 0 <= b < q1.len() && a != b implies q1[a] != q1[b] by {
        let a0 = if a < i { a } else { a + 1 };
        let b0 = if b < i { b } else { b + 1 };
        assert(q1[a] == q0[a0]);
        assert(q1[b] == q0[b0]);
    }
    assert forall|j: int| 0 <= j < q1.len() implies {
        &&& (#[trigger] q1[j]) < t.len()
        &&& t[q1[j] as int].priority >= 2
    } by {
        let j0 = if j < i { j } else { j + 1 };
        assert(q1[j] == q0[j0]);
        assert(k0.tasks@[q0[j0] as int].wf());
    }
}

/// Hands the processor to the next task fetched from the ready queue.
fn run_next(k: &mut Kernel)
    requires
        old(k).wf(),
        old(k).current is None,
    ensures
        final(k).wf(),
        switched(old(k).tasks@, old(k).manager.ready_queue@, *final(k)),
        final(k).time_ticks == old(k).time_ticks,
{
    let ghost k0 = *k;
    match k.manager.fetch(&mut k.tasks) {
        Some(p) => {
            let ghost t = k.tasks@;
            assert(p < t.len());
            k.tasks[p].task_status = TaskStatus::Running;
            k.current = Some(p);
            assert(k.tasks@ == t.update(p as int, with_status(t[p as int], TaskStatus::Running)));
            proof {
                let i = choose|i: int| fetched(k0.tasks@, k0.manager.ready_queue@, i, t, k.manager.ready_queue@)
                    && Some(p) == Some(k0.manager.ready_queue@[i]);
                lemma_fetch_keeps_queue(k0, i, t, k.manager.ready_queue@);
                assert(forall|x: int| 0 <= x < t.len() ==> (#[trigger] k.tasks@[x]).parent == t[x].parent);
                lemma_family_frame(t, k.tasks@);
                assert(forall|x: int| 0 <= x < t.len() ==> (#[trigger] k.tasks@[x]).pid == t[x].pid && k.tasks@[x].wf() && k.tasks@[x].children == t[x].children);
            }
        },
        None => {},
    }
}

/// Puts the task `pid` at the end of the ready queue.
pub fn add_task(k: &mut Kernel, pid: usize)
    requires
        old(k).wf(),
        pid < old(k).tasks@.len(),
        old(k).tasks@[pid as int].task_status == TaskStatus::Ready,
        !old(k).manager.ready_queue@.contains(pid),
    ensures
        final(k).wf(),
        *final(k) == (Kernel {
            manager: TaskManager { ready_queue: final(k).manager.ready_queue },
            ..*old(k)
        }),
        final(k).manager.ready_queue@ == old(k).manager.ready_queue@.push(pid),
{
    k.manager.add(pid);
}

/// Removes the task with the smallest stride from the ready queue, advances
/// its stride, and returns its pid; `None` when the queue is empty.
pub fn fetch_task(k: &mut Kernel) -> (r: Option<usize>)
    requires
        old(k).wf(),
    ensures
        final(k).wf(),
        final(k).current == old(k).current,
        final(k).time_ticks == old(k).time_ticks,
        old(k).manager.ready_queue@.len() == 0 ==> r is None && *final(k) == *old(k),
        old(k).manager.ready_queue@.len() > 0 ==> exists|i: int| {
            &&& fetched(old(k).tasks@, old(k).manager.ready_queue@, i, final(k).tasks@, final(k).manager.ready_queue@)
            &&& r == Some(old(k).manager.ready_queue@[i])
        },
{
    let ghost k0 = *k;
    let r = k.manager.fetch(&mut k.tasks);
    proof {
        if k0.manager.ready_queue@.len() > 0 {
            let i = choose|i: int| fetched(k0.tasks@, k0.manager.ready_queue@, i, k.tasks@, k.manager.ready_queue@)
                && r == Some(k0.manager.ready_queue@[i]);
            lemma_fetch_keeps_queue(k0, i, k.tasks@, k.manager.ready_queue@);
        }
    }
    r
}

/// `k1` differs from `k0` only in the running task, which is now `t`.
pub open spec fn only_current_changed(k0: Kernel, k1: Kernel, t: TaskControlBlock) -> bool {
    &&& k1.tasks@ == k0.tasks@.update(k0.cur(), t)
    &&& k1.manager == k0.manager
    &&& k1.current == k0.current
    &&& k1.time_ticks == k0.time_ticks
}

/// The pid of the running task.
pub fn sys_getpid(k: &Kernel) -> (r: isize)
    requires
        k.ready_for_syscall(),
    ensures
        r == k.cur(),
{
    k.current.unwrap() as isize
}

/// The running task gives up the processor: it goes back to the ready
/// queue, and the task with the smallest stride runs next. Returns 0.
pub fn sys_yield(k: &mut Kernel) -> (r: isize)
    requires
        old(k).ready_for_syscall(),
    ensures
        final(k).wf(),
        r == 0,
        final(k).time_ticks == old(k).time_ticks,
        switched(
            old(k).tasks@.update(old(k).cur(), with_status(old(k).cur_task(), TaskStatus::Ready)),
            old(k).manager.ready_queue@.push(old(k).current.unwrap()),
            *final(k),
        ),
{
    let c = k.current.unwrap();
    let ghost q0 = k.manager.ready_queue@;
    assert(!q0.contains(c)) by {
        if q0.contains(c) {
            let j = choose|j: int| 0 <= j < q0.len() && q0[j] == c;
            assert(k.tasks@[q0[j] as int].task_status == TaskStatus::Ready);
        }
    }
    k.tasks[c].task_status = TaskStatus::Ready;
    k.manager.add(c);
    k.current = None;
    assert(forall|x: int| 0 <= x < k.tasks@.len() ==> (#[trigger] k.tasks@[x]).parent == old(k).tasks@[x].parent);
    proof {
        lemma_family_frame(old(k).tasks@, k.tasks@);
    }
    assert(forall|j: int| 0 <= j < q0.len() ==> #[trigger] q0[j] != c);
    assert(forall|x: int| 0 <= x < k.tasks@.len() ==> (#[trigger] k.tasks@[x]).wf());
    assert(forall|x: int| 0 <= x < k.tasks@.len() && x != c ==> #[trigger] k.tasks@[x] == old(k).tasks@[x]);
    proof {
        lemma_family_frame(old(k).tasks@, k.tasks@);
    }
    assert(k.manager.ready_queue@.no_duplicates()) by {
        assert(forall|j: int| 0 <= j < q0.len() ==> k.manager.ready_queue@[j] == q0[j]);
    }
    run_next(k);
    0
}

/// Sets the running task's priority. Values below 2 are refused with -1
/// and change nothing; otherwise the new priority is returned.
pub fn sys_set_priority(k: &mut Kernel, prio: isize) -> (r: isize)
    requires
        old(k).ready_for_syscall(),
    ensures
        final(k).ready_for_syscall(),
        prio < 2 ==> r == -1 && only_current_changed(*old(k), *final(k), old(k).cur_task()),
        prio >= 2 ==> r == prio && only_current_changed(
            *old(k),
            *final(k),
            (TaskControlBlock { priority: prio as u64, ..old(k).cur_task() }),
        ),
{
    let c = k.current.unwrap();
    let r = k.tasks[c].set_priority(prio);
    assert(forall|x: int| 0 <= x < k.tasks@.len() && x != c ==> #[trigger] k.tasks@[x] == old(k).tasks@[x]);
    proof {
        lemma_family_frame(old(k).tasks@, k.tasks@);
    }
    r
}

/// Maps `[start, start + len)` into the running task's address space, as
/// `MemorySet::mmap` does. Returns the mapped length, or -1.
pub fn sys_mmap(k: &mut Kernel, start: usize, len: usize, port: usize) -> (r: isize)
    requires
        old(k).ready_for_syscall(),
    ensures
        final(k).ready_for_syscall(),
        mmap_done(old(k).cur_task().memory_set, final(k).cur_task().memory_set, start, len, port, r),
        only_current_changed(
            *old(k),
            *final(k),
            (TaskControlBlock { memory_set: final(k).cur_task().memory_set, ..old(k).cur_task() }),
        ),
{
    let c = k.current.unwrap();
    let r = k.tasks[c].memory_set.mmap(start, len, port);
    assert(forall|x: int| 0 <= x < k.tasks@.len() && x != c ==> #[trigger] k.tasks@[x] == old(k).tasks@[x]);
    proof {
        lemma_family_frame(old(k).tasks@, k.tasks@);
    }
    r
}

/// Unmaps the region `[start, start + len)` of the running task, as
/// `MemorySet::munmap` does. Returns 0, or -1.
pub fn sys_munmap(k: &mut Kernel, start: usize, len: usize) -> (r: isize)
    requires
        old(k).ready_for_syscall(),
    ensures
        final(k).ready_for_syscall(),
        munmap_done(old(k).cur_task().memory_set, final(k).cur_task().memory_set, start, len, r),
        only_current_changed(
            *old(k),
            *final(k),
            (TaskControlBlock { memory_set: final(k).cur_task().memory_set, ..old(k).cur_task() }),
        ),
{
    let c = k.current.unwrap();
    let r = k.tasks[c].memory_set.munmap(start, len);
    assert(forall|x: int| 0 <= x < k.tasks@.len() && x != c ==> #[trigger] k.tasks@[x] == old(k).tasks@[x]);
    proof {
        lemma_family_frame(old(k).tasks@, k.tasks@);
    }
    r
}

/// Moves the running task's program break by `size` bytes. Returns the
/// break before the change, or -1.
pub fn sys_sbrk(k: &mut Kernel, size: i32) -> (r: isize)
    requires
        old(k).ready_for_syscall(),
    ensures
        final(k).ready_for_syscall(),
        exists|o: Option<usize>| {
            &&& #[trigger] sbrk_done(old(k).cur_task().memory_set, final(k).cur_task().memory_set, size, o)
            &&& r == match o {
                Some(b) => b as int,
                None => -1int,
            }
        },
        only_current_changed(
            *old(k),
            *final(k),
            (TaskControlBlock { memory_set: final(k).cur_task().memory_set, ..old(k).cur_task() }),
        ),
{
    let c = k.current.unwrap();
    let o = k.tasks[c].memory_set.change_program_brk(size);
    assert(forall|x: int| 0 <= x < k.tasks@.len() && x != c ==> #[trigger] k.tasks@[x] == old(k).tasks@[x]);
    proof {
        lemma_family_frame(old(k).tasks@, k.tasks@);
    }
    match o {
        Some(b) => b as isize,
        None => -1,
    }
}

/// Writes the time since boot to `out`, for the user address `ts`.
/// Returns 0, or -1 and leaves `out` alone when `ts` is null.
pub fn sys_get_time(k: &Kernel, ts: usize, out: &mut TimeVal) -> (r: isize)
    ensures
        ts == 0 ==> r == -1 && *final(out) == *old(out),
        ts != 0 ==> r == 0 && *final(out) == time_of(k.time_ticks),
{
    if ts == 0 {
        return -1;
    }
    let ticks = k.time_ticks as u64;
    let freq = CLOCK_FREQ as u64;
    let rem = ticks % freq;
    assert(rem * 1_000_000 <= 12_500_000 * 1_000_000) by (nonlinear_arith)
        requires
            rem < 12_500_000,
    {
    }
    assert(rem * 1_000_000 / 12_500_000 < 1_000_000) by (nonlinear_arith)
        requires
            rem < 12_500_000,
    {
    }
    let sec = (ticks / freq) as usize;
    let usec = (rem * (USEC_PER_SEC as u64) / freq) as usize;
    *out = TimeVal { sec, usec };
    0
}

/// Writes the running task's status, syscall counts and running time to
/// `out`, for the user address `ti`. Returns 0, or -1 and leaves `out`
/// alone when `ti` is null.
pub fn sys_task_info(k: &Kernel, ti: usize, out: &mut TaskInfo) -> (r: isize)
    requires
        k.ready_for_syscall(),
    ensures
        ti == 0 ==> r == -1 && *final(out) == *old(out),
        ti != 0 ==> {
            let t = k.cur_task();
            &&& r == 0
            &&& final(out).status == t.task_status
            &&& final(out).syscall_times@ == t.syscall_times@
            &&& final(out).time == if k.now_ms() >= t.task_start_time {
                k.now_ms() - t.task_start_time
            } else {
                0
            }
        },
{
    if ti == 0 {
        return -1;
    }
    let c = k.current.unwrap();
    let now = k.get_time_ms();
    *out = k.tasks[c].task_info(now);
    0
}

/// The physical address of the user virtual address `va`, given the
/// physical page number `ppn` that the page table maps its page to
/// (`None` where the page is unmapped). A page number too large to form an
/// address gives `None` too.
pub fn va_to_pa(va: usize, ppn: Option<usize>) -> (r: Option<usize>)
    ensures
        r == match ppn {
            Some(p) => if p * PAGE_SIZE + (PAGE_SIZE - 1) <= usize::MAX {
                Some((p * PAGE_SIZE + va % PAGE_SIZE) as usize)
            } else {
                None
            },
            None => None,
        },
{
    let offset = va % PAGE_SIZE;
    match ppn {
        Some(p) => {
            if p > (usize::MAX - (PAGE_SIZE - 1)) / PAGE_SIZE {
                assert(p * PAGE_SIZE + (PAGE_SIZE - 1) > usize::MAX) by (nonlinear_arith)
                    requires
                        p > (usize::MAX - 4095) / 4096,
                {
                }
                None
            } else {
                assert(p * PAGE_SIZE + (PAGE_SIZE - 1) <= usize::MAX) by (nonlinear_arith)
                    requires
                        p <= (usize::MAX - 4095) / 4096,
                {
                }
                Some(p * PAGE_SIZE + offset)
            }
        },
        None => None,
    }
}

/// The address space of a program loaded from `image`, or `None` when the
/// bytes are not an executable image.
fn image_memory(image: &[u8]) -> (r: Option<MemorySet>)
    ensures
        r is Some <==> valid_image(image@),
        r matches Some(m) ==> is_image_space(m, image@.len() as int),
{
    if image.len() < 4 || image.len() > isize::MAX as usize - USER_BASE - 2 * PAGE_SIZE {
        return None;
    }
    if image[0] != 0x7f || image[1] != 0x45 || image[2] != 0x4c || image[3] != 0x46 {
        return None;
    }
    let top = USER_BASE + image.len();
    let rem = top % PAGE_SIZE;
    let rounded = if rem == 0 { top } else { top + (PAGE_SIZE - rem) };
    let m = MemorySet::new(USER_BASE, top, rounded + PAGE_SIZE);
    Some(m)
}

impl Kernel {
    /// A kernel whose only task, the root task with pid 0, runs the program
    /// `image`; `None` when the bytes are not an executable image.
    pub fn new(image: &[u8]) -> (r: Option<Kernel>)
        ensures
            r is Some <==> valid_image(image@),
            r matches Some(k) ==> {
                &&& k.ready_for_syscall()
                &&& k.current == Some(INITPROC_PID)
                &&& k.tasks@.len() == 1
                &&& is_image_space(k.tasks@[0].memory_set, image@.len() as int)
                &&& k.tasks@[0].task_status == TaskStatus::Running
                &&& is_fresh_task(with_status(k.tasks@[0], TaskStatus::Ready), INITPROC_PID, None, 0)
                &&& k.manager.ready_queue@.len() == 0
                &&& k.time_ticks == 0
            },
    {
        match image_memory(image) {
            None => None,
            Some(m) => {
                let mut init = TaskControlBlock::new(INITPROC_PID, None, m, 0);
                init.task_status = TaskStatus::Running;
                let mut tasks: Vec<TaskControlBlock> = Vec::new();
                tasks.push(init);
                let k = Kernel { tasks, manager: TaskManager::new(), current: Some(INITPROC_PID), time_ticks: 0 };
                assert(family_ok(k.tasks@)) by {
                    reveal(family_ok);
                }
                Some(k)
            },
        }
    }
}

/// Adds `child`, a fresh ready task with the next pid, as a child of the
/// running task, and queues it. Returns its pid.
fn adopt_new_child(k: &mut Kernel, memory_set: MemorySet) -> (r: usize)
    requires
        old(k).ready_for_syscall(),
        old(k).tasks@.len() + 1 < isize::MAX,
        memory_set.wf(),
    ensures
        final(k).ready_for_syscall(),
        r == old(k).tasks@.len(),
        final(k).tasks@.len() == r + 1,
        final(k).current == old(k).current,
        final(k).time_ticks == old(k).time_ticks,
        final(k).manager.ready_queue@ == old(k).manager.ready_queue@.push(r),
        final(k).tasks@.subrange(0, r as int) == old(k).tasks@.update(
            old(k).cur(),
            (TaskControlBlock { children: final(k).cur_task().children, ..old(k).cur_task() }),
        ),
        final(k).cur_task().children@ == old(k).cur_task().children@.push(r),
        is_fresh_task(final(k).tasks@[r as int], r, old(k).current, old(k).now_ms()),
        final(k).tasks@[r as int].memory_set == memory_set,
{
    let c = k.current.unwrap();
    let pid = k.tasks.len();
    let now = k.get_time_ms();
    let child = TaskControlBlock::new(pid, Some(c), memory_set, now);
    let ghost t0 = k.tasks@;
    let ghost q0 = k.manager.ready_queue@;
    k.tasks.push(child);
    k.tasks[c].children.push(pid);
    k.manager.add(pid);
    assert(forall|j: int| 0 <= j < q0.len() ==> #[trigger] q0[j] != pid);
    assert(k.manager.ready_queue@.no_duplicates()) by {
        assert(forall|j: int| 0 <= j < q0.len() ==> k.manager.ready_queue@[j] == q0[j]);
    }
    assert(forall|x: int| 0 <= x < t0.len() && x != c ==> #[trigger] k.tasks@[x] == t0[x]);
    assert forall|i: int, j: int|
        0 <= i < k.tasks@.len() && 0 <= j < k.tasks@[i].children@.len() implies {
        let x = #[trigger] k.tasks@[i].children@[j];
        &&& x < k.tasks@.len()
        &&& x != i
        &&& x != INITPROC_PID
    } by {
        if i == c && j == k.tasks@[i].children@.len() - 1 {
        } else if i < t0.len() {
            assert(k.tasks@[i].children@[j] == t0[i].children@[j]);
        }
    }
    assert(k.tasks@.subrange(0, pid as int) =~= t0.update(
        c as int,
        (TaskControlBlock { children: k.tasks@[c as int].children, ..t0[c as int] }),
    ));
    proof {
        lemma_adopt_family(*old(k), c as int, k.tasks@);
    }
    pid
}

/// Creates a child of the running task with a copy of its address space,
/// the next pid, zeroed accounting, and a trap context whose return-value
/// register reads 0, and queues it. Returns the child's pid.
pub fn sys_fork(k: &mut Kernel) -> (r: isize)
    requires
        old(k).ready_for_syscall(),
        old(k).tasks@.len() + 1 < isize::MAX,
    ensures
        final(k).ready_for_syscall(),
        r == old(k).tasks@.len(),
        final(k).tasks@.len() == r + 1,
        final(k).current == old(k).current,
        final(k).time_ticks == old(k).time_ticks,
        final(k).manager.ready_queue@ == old(k).manager.ready_queue@.push(r as usize),
        final(k).tasks@.subrange(0, r as int) == old(k).tasks@.update(
            old(k).cur(),
            (TaskControlBlock { children: final(k).cur_task().children, ..old(k).cur_task() }),
        ),
        final(k).cur_task().children@ == old(k).cur_task().children@.push(r as usize),
        is_fresh_task(final(k).tasks@[r as int], r as usize, old(k).current, old(k).now_ms()),
        final(k).tasks@[r as int].memory_set.areas@ == old(k).cur_task().memory_set.areas@,
        final(k).tasks@[r as int].memory_set.heap_bottom == old(k).cur_task().memory_set.heap_bottom,
        final(k).tasks@[r as int].memory_set.brk == old(k).cur_task().memory_set.brk,
{
    let c = k.current.unwrap();
    let m = k.tasks[c].memory_set.duplicate();
    let pid = adopt_new_child(k, m);
    pid as isize
}

/// Creates a child of the running task that runs the program `image`,
/// without copying the caller's address space, and queues it. Returns the
/// child's pid, or -1 and changes nothing when the file could not be read
/// (`None`) or is not an executable image.
pub fn sys_spawn(k: &mut Kernel, image: Option<&[u8]>) -> (r: isize)
    requires
        old(k).ready_for_syscall(),
        old(k).tasks@.len() + 1 < isize::MAX,
    ensures
        final(k).ready_for_syscall(),
        !(image matches Some(b) && valid_image(b@)) ==> r == -1 && *final(k) == *old(k),
        image matches Some(b) && valid_image(b@) ==> {
            &&& r == old(k).tasks@.len()
            &&& final(k).tasks@.len() == r + 1
            &&& final(k).current == old(k).current
            &&& final(k).time_ticks == old(k).time_ticks
            &&& final(k).manager.ready_queue@ == old(k).manager.ready_queue@.push(r as usize)
            &&& final(k).tasks@.subrange(0, r as int) == old(k).tasks@.update(
                old(k).cur(),
                (TaskControlBlock { children: final(k).cur_task().children, ..old(k).cur_task() }),
            )
            &&& final(k).cur_task().children@ == old(k).cur_task().children@.push(r as usize)
            &&& is_fresh_task(final(k).tasks@[r as int], r as usize, old(k).current, old(k).now_ms())
            &&& is_image_space(final(k).tasks@[r as int].memory_set, image.unwrap()@.len() as int)
        },
{
    match image {
        None => -1,
        Some(b) => match image_memory(b) {
            None => -1,
            Some(m) => {
                let pid = adopt_new_child(k, m);
                pid as isize
            },
        },
    }
}

/// Replaces the running task's address space with one for the program
/// `image` and resets its trap context; pid, parent, children and
/// accounting stay. Returns 0, or -1 and changes nothing when the file could
/// not be read (`None`) or is not an executable image.
pub fn sys_exec(k: &mut Kernel, image: Option<&[u8]>) -> (r: isize)
    requires
        old(k).ready_for_syscall(),
    ensures
        final(k).ready_for_syscall(),
        !(image matches Some(b) && valid_image(b@)) ==> r == -1 && *final(k) == *old(k),
        image matches Some(b) && valid_image(b@) ==> {
            &&& r == 0
            &&& is_image_space(final(k).cur_task().memory_set, image.unwrap()@.len() as int)
            &&& only_current_changed(
                *old(k),
                *final(k),
                (TaskControlBlock { memory_set: final(k).cur_task().memory_set, trap_ret: 0, ..old(k).cur_task() }),
            )
        },
{
    match image {
        None => -1,
        Some(b) => match image_memory(b) {
            None => -1,
            Some(m) => {
                let c = k.current.unwrap();
                k.tasks[c].memory_set = m;
                k.tasks[c].trap_ret = 0;
                assert(forall|x: int| 0 <= x < k.tasks@.len() && x != c ==> #[trigger] k.tasks@[x] == old(k).tasks@[x]);
    proof {
        lemma_family_frame(old(k).tasks@, k.tasks@);
    }
                assert(k.tasks@ =~= old(k).tasks@.update(
                    c as int,
                    (TaskControlBlock { memory_set: k.tasks@[c as int].memory_set, trap_ret: 0, ..old(k).tasks@[c as int] }),
                ));
                0
            },
        },
    }
}

/// The child pid `child` answers a wait for `pid`; -1 stands for any child.
pub open spec fn pid_matches(pid: isize, child: usize) -> bool {
    pid == -1 || pid == child as int
}

/// Some child of the running task answers a wait for `pid`.
pub open spec fn has_matching_child(k: Kernel, pid: isize) -> bool {
    exists|j: int| 0 <= j < k.cur_task().children@.len() && pid_matches(pid, #[trigger] k.cur_task().children@[j])
}

/// The child at position `j` of the running task answers a wait for `pid`
/// and has exited.
pub open spec fn reapable_at(k: Kernel, pid: isize, j: int) -> bool {
    let ch = k.cur_task().children@;
    &&& 0 <= j < ch.len()
    &&& pid_matches(pid, ch[j])
    &&& k.tasks@[ch[j] as int].task_status == TaskStatus::Exited
}

/// Position `j` is the first reapable child for `pid`.
pub open spec fn first_reapable(k: Kernel, pid: isize, j: int) -> bool {
    &&& reapable_at(k, pid, j)
    &&& forall|i: int| 0 <= i < j ==> !#[trigger] reapable_at(k, pid, i)
}

/// A reaped task's slot: it holds no task any more.
pub open spec fn reaped(t: TaskControlBlock) -> TaskControlBlock {
    TaskControlBlock { task_status: TaskStatus::UnInit, parent: None, ..t }
}

/// Reaps an exited child of the running task that answers `pid` (-1 for
/// any child), the first in creation order: removes it from the children,
/// frees its slot, writes its exit code to `exit_code` and returns its pid.
/// Returns -1 when no child answers `pid`, and -2 when some do but none has
/// exited yet; in both cases nothing changes.
pub fn sys_waitpid(k: &mut Kernel, pid: isize, exit_code: &mut i32) -> (r: isize)
    requires
        old(k).ready_for_syscall(),
    ensures
        final(k).ready_for_syscall(),
        !has_matching_child(*old(k), pid) ==> r == -1 && *final(k) == *old(k) && *final(exit_code) == *old(
            exit_code,
        ),
        has_matching_child(*old(k), pid) && !(exists|j: int| reapable_at(*old(k), pid, j)) ==> r == -2 && *final(k)
            == *old(k) && *final(exit_code) == *old(exit_code),
        (exists|j: int| reapable_at(*old(k), pid, j)) ==> exists|j: int| {
            let z = old(k).cur_task().children@[j];
            &&& #[trigger] first_reapable(*old(k), pid, j)
            &&& r == z
            &&& *final(exit_code) == old(k).tasks@[z as int].exit_code
            &&& final(k).tasks@ == old(k).tasks@.update(
                old(k).cur(),
                (TaskControlBlock { children: final(k).cur_task().children, ..old(k).cur_task() }),
            ).update(z as int, reaped(old(k).tasks@[z as int]))
            &&& final(k).cur_task().children@ == old(k).cur_task().children@.remove(j)
            &&& final(k).manager == old(k).manager
            &&& final(k).current == old(k).current
            &&& final(k).time_ticks == old(k).time_ticks
        },
{
    let c = k.current.unwrap();
    let n = k.tasks[c].children.len();
    let mut any = false;
    let mut i: usize = 0;
    while i < n
        invariant
            *k == *old(k),
            *exit_code == *old(exit_code),
            old(k).ready_for_syscall(),
            c == old(k).cur(),
            n == old(k).cur_task().children@.len(),
            i <= n,
            any == exists|j: int| 0 <= j < i && pid_matches(pid, #[trigger] old(k).cur_task().children@[j]),
            forall|j: int| 0 <= j < i ==> !#[trigger] reapable_at(*old(k), pid, j),
        decreases n - i,
    {
        let ch = k.tasks[c].children[i];
        assert(ch < k.tasks@.len());
        if pid == -1 || pid == ch as isize {
            any = true;
            if k.tasks[ch].task_status == TaskStatus::Exited {
                let ghost t0 = k.tasks@;
                assert(first_reapable(*old(k), pid, i as int));
                assert(ch != c);
                let z = k.tasks[c].children.remove(i);
                *exit_code = k.tasks[z].exit_code;
                k.tasks[z].task_status = TaskStatus::UnInit;
                k.tasks[z].parent = None;
                let ghost t1 = t0.update(
                    c as int,
                    (TaskControlBlock { children: k.tasks@[c as int].children, ..t0[c as int] }),
                ).update(z as int, reaped(t0[z as int]));
                assert(k.tasks@ =~= t1);
                proof {
                    lemma_reap_family(*old(k), c as int, i as int, k.tasks@);
                }
                assert forall|x: int| 0 <= x < k.tasks@.len() implies {
                    &&& (#[trigger] k.tasks@[x]).pid == x
                    &&& k.tasks@[x].wf()
                } by {
                    assert(t0[x].wf());
                }
                assert forall|x: int, y: int|
                    0 <= x < k.tasks@.len() && 0 <= y < k.tasks@[x].children@.len() implies {
                    let w = #[trigger] k.tasks@[x].children@[y];
                    &&& w < k.tasks@.len()
                    &&& w != x
                    &&& w != INITPROC_PID
                } by {
                    if x == c {
                        let y0 = if y < i { y } else { y + 1 };
                        assert(k.tasks@[x].children@[y] == t0[x].children@[y0]);
                    } else {
                        assert(k.tasks@[x].children == t0[x].children);
                    }
                }
                assert forall|j: int| 0 <= j < k.manager.ready_queue@.len() implies k.tasks@[
                    #[trigger] k.manager.ready_queue@[j] as int].task_status == TaskStatus::Ready by {
                    assert(t0[k.manager.ready_queue@[j] as int].task_status == TaskStatus::Ready);
                }
                return z as isize;
            }
        }
        assert(!reapable_at(*old(k), pid, i as int));
        i = i + 1;
    }
    if any {
        -2
    } else {
        -1
    }
}

/// The table `t1` is `t0` after the task `c` exited with `code`: it is a
/// zombie holding the exit code, its address space is released (no
/// program, no region, an empty heap), and, unless it is the root task, its children moved to the
/// root task, in order, and name the root task as their parent.
pub open spec fn exited(t0: Seq<TaskControlBlock>, c: int, code: i32, t1: Seq<TaskControlBlock>) -> bool {
    let kids = t0[c].children@;
    let moved = c != INITPROC_PID;
    &&& t1.len() == t0.len()
    &&& t1[c] == (TaskControlBlock {
        task_status: TaskStatus::Exited,
        exit_code: code,
        memory_set: t1[c].memory_set,
        children: t1[c].children,
        ..t0[c]
    })
    &&& t1[c].memory_set.areas@.len() == 0
    &&& t1[c].memory_set.program_start == t1[c].memory_set.program_end
    &&& t1[c].memory_set.heap_bottom == t0[c].memory_set.heap_bottom
    &&& t1[c].memory_set.brk == t0[c].memory_set.heap_bottom
    &&& t1[c].children@ == if moved { Seq::<usize>::empty() } else { kids }
    &&& forall|x: int|
        0 <= x < t0.len() && x != c ==> {
            &&& #[trigger] t1[x] == (TaskControlBlock {
                parent: if moved && kids.contains(x as usize) { Some(INITPROC_PID) } else { t0[x].parent },
                children: t1[x].children,
                ..t0[x]
            })
            &&& t1[x].children@ == if moved && x == INITPROC_PID { t0[x].children@ + kids } else { t0[x].children@ }
        }
}

/// Adding a fresh task `pid` at the end of the table as the last child of
/// `c` keeps the links.
proof fn lemma_adopt_family(k0: Kernel, c: int, t1: Seq<TaskControlBlock>)
    requires
        k0.wf(),
        0 <= c < k0.tasks@.len(),
        t1.len() == k0.tasks@.len() + 1,
        t1.subrange(0, k0.tasks@.len() as int) == k0.tasks@.update(
            c,
            (TaskControlBlock { children: t1[c].children, ..k0.tasks@[c] }),
        ),
        t1[c].children@ == k0.tasks@[c].children@.push(k0.tasks@.len() as usize),
        t1[k0.tasks@.len() as int].parent == Some(c as usize),
        t1[k0.tasks@.len() as int].children@.len() == 0,
    ensures
        family_ok(t1),
{
    reveal(family_ok);
    let t0 = k0.tasks@;
    let n = t0.len();
    assert forall|x: int| 0 <= x < n implies (#[trigger] t1[x]).parent == t0[x].parent && (x != c ==> t1[x].children
        == t0[x].children) by {
        assert(t1[x] == t1.subrange(0, n as int)[x]);
    }
    assert forall|i: int| 0 <= i < t1.len() implies (#[trigger] t1[i].children@).no_duplicates() by {
        if i == c {
            assert forall|a: int, b: int| 0 <= a < t1[i].children@.len() && 0 <= b < t1[i].children@.len() && a != b
                implies t1[i].children@[a] != t1[i].children@[b] by {
                if a < t0[c].children@.len() {
                    assert(t0[c].children@[a] < n);
                }
                if b < t0[c].children@.len() {
                    assert(t0[c].children@[b] < n);
                }
            }
        }
    }
    assert forall|i: int, k: int| 0 <= i < t1.len() && 0 <= k < t1[i].children@.len() implies {
        let x = #[trigger] t1[i].children@[k];
        x < t1.len() && t1[x as int].parent == Some(i as usize)
    } by {
        if i == c && k == t0[c].children@.len() {
        } else {
            assert(t1[i].children@[k] == t0[i].children@[k]);
            assert(t0[i].children@[k] < n);
        }
    }
    assert forall|x: int| 0 <= x < t1.len() && (#[trigger] t1[x].parent) is Some implies {
        let p = t1[x].parent.unwrap() as int;
        0 <= p < t1.len() && exists|k: int| 0 <= k < t1[p].children@.len() && t1[p].children@[k] == x
    } by {
        if x == n {
            assert(t1[c].children@[t0[c].children@.len() as int] == x);
        } else {
            let p = t0[x].parent.unwrap() as int;
            let k = choose|k: int| 0 <= k < t0[p].children@.len() && t0[p].children@[k] == x;
            assert(t1[p].children@[k] == x);
        }
    }
}

/// Removing the child at position `j` of `c`, and emptying its slot's
/// parent link, keeps the links.
proof fn lemma_reap_family(k0: Kernel, c: int, j: int, t1: Seq<TaskControlBlock>)
    requires
        k0.wf(),
        0 <= c < k0.tasks@.len(),
        0 <= j < k0.tasks@[c].children@.len(),
        t1 == k0.tasks@.update(
            c,
            (TaskControlBlock { children: t1[c].children, ..k0.tasks@[c] }),
        ).update(k0.tasks@[c].children@[j] as int, reaped(k0.tasks@[k0.tasks@[c].children@[j] as int])),
        t1[c].children@ == k0.tasks@[c].children@.remove(j),
    ensures
        family_ok(t1),
{
    reveal(family_ok);
    let t0 = k0.tasks@;
    let z = t0[c].children@[j] as int;
    assert(z != c && z < t0.len());
    assert(t0[z].parent == Some(c as usize));
    assert forall|i: int| 0 <= i < t1.len() implies (#[trigger] t1[i].children@).no_duplicates() by {
        if i == c {
            assert forall|a: int, b: int| 0 <= a < t1[i].children@.len() && 0 <= b < t1[i].children@.len() && a != b
                implies t1[i].children@[a] != t1[i].children@[b] by {
                let a0 = if a < j { a } else { a + 1 };
                let b0 = if b < j { b } else { b + 1 };
                assert(t1[i].children@[a] == t0[c].children@[a0]);
                assert(t1[i].children@[b] == t0[c].children@[b0]);
            }
        } else {
            assert(t1[i].children == t0[i].children);
        }
    }
    assert forall|i: int, k: int| 0 <= i < t1.len() && 0 <= k < t1[i].children@.len() implies {
        let x = #[trigger] t1[i].children@[k];
        x < t1.len() && t1[x as int].parent == Some(i as usize)
    } by {
        if i == c {
            let k0 = if k < j { k } else { k + 1 };
            assert(t1[i].children@[k] == t0[c].children@[k0]);
            assert(t0[c].children@[k0] != z);
            assert(t0[c].children@[k0] < t0.len());
        } else {
            assert(t1[i].children == t0[i].children);
            let x = t0[i].children@[k] as int;
            assert(t0[x].parent == Some(i as usize));
            assert(x != z);
        }
    }
    assert forall|x: int| 0 <= x < t1.len() && (#[trigger] t1[x].parent) is Some implies {
        let p = t1[x].parent.unwrap() as int;
        0 <= p < t1.len() && exists|k: int| 0 <= k < t1[p].children@.len() && t1[p].children@[k] == x
    } by {
        assert(x != z);
        assert(t1[x].parent == t0[x].parent);
        let p = t0[x].parent.unwrap() as int;
        let k = choose|k: int| 0 <= k < t0[p].children@.len() && t0[p].children@[k] == x;
        if p == c {
            assert(k != j);
            let k1 = if k < j { k } else { k - 1 };
            assert(t1[p].children@[k1] == x);
        } else {
            assert(t1[p].children == t0[p].children);
            assert(t1[p].children@[k] == x);
        }
    }
}

/// The exit of `c` keeps the links: its children move to the root task.
#[verifier::spinoff_prover]
#[verifier::rlimit(60)]
proof fn lemma_exit_family(k0: Kernel, c: int, code: i32, t1: Seq<TaskControlBlock>)
    requires
        k0.wf(),
        0 <= c < k0.tasks@.len(),
        exited(k0.tasks@, c, code, t1),
    ensures
        family_ok(t1),
{
    let t0 = k0.tasks@;
    let kids = t0[c].children@;
    let moved = c != INITPROC_PID;
    if !moved {
        assert forall|x: int| 0 <= x < t0.len() implies (#[trigger] t1[x]).parent == t0[x].parent && t1[x].children@
            == t0[x].children@ by {
            if x != c {
                assert(t1[x].children@ == t0[x].children@);
            }
        }
        lemma_family_frame(t0, t1);
        return;
    }
    reveal(family_ok);
    assert(t1[c].parent == t0[c].parent);
    assert forall|x: int| 0 <= x < t0.len() && x != c implies #[trigger] t1[x].children@ == if moved && x == INITPROC_PID {
        t0[x].children@ + kids
    } else {
        t0[x].children@
    } && t1[x].parent == if moved && kids.contains(x as usize) { Some(INITPROC_PID) } else { t0[x].parent } by {
    }
    assert forall|y: int| 0 <= y < kids.len() implies t0[#[trigger] kids[y] as int].parent == Some(c as usize) && kids[y]
        != INITPROC_PID && kids[y] != c && kids[y] < t0.len() by {
    }
    assert forall|i: int| 0 <= i < t1.len() implies (#[trigger] t1[i].children@).no_duplicates() by {
        if moved && i == INITPROC_PID {
            let old0 = t0[i].children@;
            assert forall|a: int, b: int| 0 <= a < t1[i].children@.len() && 0 <= b < t1[i].children@.len() && a != b
                implies t1[i].children@[a] != t1[i].children@[b] by {
                if a < old0.len() && b >= old0.len() {
                    assert(t0[old0[a] as int].parent == Some(i as usize));
                    assert(t0[kids[b - old0.len()] as int].parent == Some(c as usize));
                } else if b < old0.len() && a >= old0.len() {
                    assert(t0[old0[b] as int].parent == Some(i as usize));
                    assert(t0[kids[a - old0.len()] as int].parent == Some(c as usize));
                } else if a >= old0.len() {
                    assert(kids[a - old0.len()] != kids[b - old0.len()]);
                }
            }
        } else if i != c {
        }
    }
    assert forall|i: int, k: int| 0 <= i < t1.len() && 0 <= k < t1[i].children@.len() implies {
        let x = #[trigger] t1[i].children@[k];
        x < t1.len() && t1[x as int].parent == Some(i as usize)
    } by {
        if i == c {
            assert(!moved);
            let x = kids[k] as int;
            assert(t0[x].parent == Some(c as usize));
        } else if moved && i == INITPROC_PID && k >= t0[i].children@.len() {
            let x = kids[k - t0[i].children@.len()];
            assert(t1[i].children@[k] == x);
            assert(kids.contains(x));
        } else {
            let x = t0[i].children@[k] as int;
            assert(t1[i].children@[k] == x);
            assert(t0[x].parent == Some(i as usize));
            if x != c && moved && kids.contains(x as usize) {
                let y = choose|y: int| 0 <= y < kids.len() && kids[y] == x as usize;
                assert(t0[kids[y] as int].parent == Some(c as usize));
            }
        }
    }
    assert forall|x: int| 0 <= x < t1.len() && (#[trigger] t1[x].parent) is Some implies {
        let p = t1[x].parent.unwrap() as int;
        0 <= p < t1.len() && exists|k: int| 0 <= k < t1[p].children@.len() && t1[p].children@[k] == x
    } by {
        if x != c && moved && kids.contains(x as usize) {
            let y = choose|y: int| 0 <= y < kids.len() && kids[y] == x as usize;
            let z = INITPROC_PID as int;
            assert(t1[z].children@[t0[z].children@.len() + y] == x);
        } else {
            assert(t1[x].parent == t0[x].parent);
            let p = t0[x].parent.unwrap() as int;
            let k = choose|k: int| 0 <= k < t0[p].children@.len() && t0[p].children@[k] == x;
            if p == c {
                if x != c {
                    assert(kids.contains(x as usize)) by {
                        assert(kids[k] == x);
                    }
                }
                assert(!moved || x == c);
                assert(t0[x].parent == Some(c as usize));
                assert(x != c);
                assert(t1[p].children@[k] == x);
            } else {
                assert(t1[p].children@[k] == x);
            }
        }
    }
}

/// The running task exits with `exit_code`: it becomes a zombie for its
/// parent to reap, its children go to the root task, and the task with the
/// smallest stride runs next (the kernel idles if none is ready).
pub fn sys_exit(k: &mut Kernel, exit_code: i32)
    requires
        old(k).ready_for_syscall(),
    ensures
        final(k).wf(),
        final(k).time_ticks == old(k).time_ticks,
        exists|t1: Seq<TaskControlBlock>| {
            &&& #[trigger] exited(old(k).tasks@, old(k).cur(), exit_code, t1)
            &&& switched(t1, old(k).manager.ready_queue@, *final(k))
        },
{
    let c = k.current.unwrap();
    let ghost t0 = k.tasks@;
    let ghost q0 = k.manager.ready_queue@;
    let ghost kids0 = t0[c as int].children@;
    k.current = None;
    let hb = k.tasks[c].memory_set.heap_bottom;
    k.tasks[c].memory_set = MemorySet::new(hb, hb, hb);
    k.tasks[c].task_status = TaskStatus::Exited;
    k.tasks[c].exit_code = exit_code;
    let mut kids: Vec<usize> = Vec::new();
    if c != INITPROC_PID {
        std::mem::swap(&mut kids, &mut k.tasks[c].children);
    }
    let ghost tc = k.tasks@[c as int];
    assert(c != INITPROC_PID ==> kids@ == kids0);
    assert(c == INITPROC_PID ==> kids@.len() == 0);
    let mut i: usize = 0;
    while i < kids.len()
        invariant
            i <= kids@.len(),
            c == old(k).cur(),
            t0 == old(k).tasks@,
            old(k).ready_for_syscall(),
            kids0 == t0[c as int].children@,
            c != INITPROC_PID ==> kids@ == kids0,
            c == INITPROC_PID ==> kids@.len() == 0,
            k.current is None,
            k.manager == old(k).manager,
            k.time_ticks == old(k).time_ticks,
            k.tasks@.len() == t0.len(),
            k.tasks@[c as int] == tc,
            forall|x: int|
                0 <= x < t0.len() && x != c ==> {
                    &&& #[trigger] k.tasks@[x] == (TaskControlBlock {
                        parent: if kids@.subrange(0, i as int).contains(x as usize) {
                            Some(INITPROC_PID)
                        } else {
                            t0[x].parent
                        },
                        children: k.tasks@[x].children,
                        ..t0[x]
                    })
                    &&& k.tasks@[x].children@ == if x == INITPROC_PID {
                        t0[x].children@ + kids@.subrange(0, i as int)
                    } else {
                        t0[x].children@
                    }
                },
        decreases kids@.len() - i,
    {
        let x = kids[i];
        assert(t0[c as int].children@[i as int] == x);
        assert(x < t0.len() && x != c && x != INITPROC_PID);
        let ghost before = k.tasks@;
        k.tasks[x].parent = Some(INITPROC_PID);
        k.tasks[INITPROC_PID].children.push(x);
        assert(kids@.subrange(0, i + 1) =~= kids@.subrange(0, i as int).push(x));
        assert forall|y: int| 0 <= y < t0.len() && y != c implies {
            &&& #[trigger] k.tasks@[y] == (TaskControlBlock {
                parent: if kids@.subrange(0, i + 1).contains(y as usize) { Some(INITPROC_PID) } else { t0[y].parent },
                children: k.tasks@[y].children,
                ..t0[y]
            })
            &&& k.tasks@[y].children@ == if y == INITPROC_PID {
                t0[y].children@ + kids@.subrange(0, i + 1)
            } else {
                t0[y].children@
            }
        } by {
            let s0 = kids@.subrange(0, i as int);
            let s1 = kids@.subrange(0, i + 1);
            assert(s1 == s0.push(x));
            if s0.contains(y as usize) {
                let j = choose|j: int| 0 <= j < s0.len() && s0[j] == y as usize;
                assert(s1[j] == y as usize);
            }
            if y as usize == x {
                assert(s1[i as int] == x);
            }
            if s1.contains(y as usize) {
                let j = choose|j: int| 0 <= j < s1.len() && s1[j] == y as usize;
                if j < i {
                    assert(s0[j] == y as usize);
                }
            }
            assert(s1.contains(y as usize) == (s0.contains(y as usize) || y as usize == x));
            if y == INITPROC_PID {
                assert(t0[y].children@ + kids@.subrange(0, i + 1) =~= (t0[y].children@ + kids@.subrange(0, i as int)).push(x));
            }
        }
        i = i + 1;
    }
    assert(kids@.subrange(0, kids@.len() as int) =~= kids@);
    let ghost t1 = k.tasks@;
    assert(exited(t0, c as int, exit_code, t1)) by {
        if c == INITPROC_PID {
            assert(tc.children == t0[c as int].children);
        }
        assert forall|x: int| 0 <= x < t0.len() && x != c implies {
            &&& #[trigger] t1[x] == (TaskControlBlock {
                parent: if c != INITPROC_PID && kids0.contains(x as usize) { Some(INITPROC_PID) } else { t0[x].parent },
                children: t1[x].children,
                ..t0[x]
            })
            &&& t1[x].children@ == if c != INITPROC_PID && x == INITPROC_PID { t0[x].children@ + kids0 } else { t0[x].children@ }
        } by {
            if c == INITPROC_PID {
                assert(kids@.subrange(0, kids@.len() as int) =~= Seq::<usize>::empty());
            }
        }
    }
    assert forall|x: int| 0 <= x < k.tasks@.len() implies {
        &&& (#[trigger] k.tasks@[x]).pid == x
        &&& k.tasks@[x].wf()
    } by {
        assert(t0[x].wf());
    }
    proof {
        lemma_exit_family(*old(k), c as int, exit_code, t1);
    }
    assert forall|x: int, y: int|
        0 <= x < k.tasks@.len() && 0 <= y < k.tasks@[x].children@.len() implies {
        let w = #[trigger] k.tasks@[x].children@[y];
        &&& w < k.tasks@.len()
        &&& w != x
        &&& w != INITPROC_PID
    } by {
        if x == INITPROC_PID && x != c && y >= t0[x].children@.len() {
            let y0 = y - t0[x].children@.len();
            assert(k.tasks@[x].children@[y] == kids0[y0]);
            assert(t0[c as int].children@[y0] == kids0[y0]);
        } else if x != c {
            assert(k.tasks@[x].children@[y] == t0[x].children@[y]);
        } else {
            assert(k.tasks@[x].children@[y] == t0[x].children@[y]);
        }
    }
    assert(!q0.contains(c)) by {
        if q0.contains(c) {
            let j = choose|j: int| 0 <= j < q0.len() && q0[j] == c;
            assert(t0[q0[j] as int].task_status == TaskStatus::Ready);
        }
    }
    assert forall|j: int| 0 <= j < q0.len() implies k.tasks@[#[trigger] q0[j] as int].task_status == TaskStatus::Ready
        && k.tasks@[q0[j] as int].priority >= 2 by {
        assert(q0[j] != c);
        assert(t0[q0[j] as int].task_status == TaskStatus::Ready);
    }
    run_next(k);
}

} // verus!
