//! The ready queue and its stride scheduling policy.
use vstd::prelude::*;
use crate::task::{advanced_stride, TaskControlBlock, BIG_STRIDE};

verus! {

/// The ready queue: pids of runnable tasks, in the order they were added.
/// The tasks themselves stay in the process table, indexed by pid.
pub struct TaskManager {
    pub ready_queue: Vec<usize>,
}

/// Every queued pid has a slot in `tasks` whose priority is valid.
pub open spec fn queue_in_table(tasks: Seq<TaskControlBlock>, q: Seq<usize>) -> bool {
    forall|k: int| 0 <= k < q.len() ==> {
        &&& (#[trigger] q[k]) < tasks.len()
        &&& tasks[q[k] as int].priority >= 2
    }
}

/// The stride of the task that the queue holds at position `k`.
pub open spec fn queued_stride(tasks: Seq<TaskControlBlock>, q: Seq<usize>, k: int) -> u64 {
    tasks[q[k] as int].stride
}

/// Position `i` holds the smallest stride of the queue, and no earlier
/// position holds one as small.
pub open spec fn is_min_at(tasks: Seq<TaskControlBlock>, q: Seq<usize>, i: int) -> bool {
    &&& 0 <= i < q.len()
    &&& forall|j: int| 0 <= j < q.len() ==> queued_stride(tasks, q, i) <= #[trigger] queued_stride(tasks, q, j)
    &&& forall|j: int| 0 <= j < i ==> queued_stride(tasks, q, i) < #[trigger] queued_stride(tasks, q, j)
}

/// `t` with its stride replaced by `s`.
pub open spec fn with_stride(t: TaskControlBlock, s: u64) -> TaskControlBlock {
    TaskControlBlock { stride: s, ..t }
}

/// Fetching position `i` of `q0` over `t0` gives the table `t1` and queue
/// `q1`: the task leaves the queue and its stride advances by its pass.
pub open spec fn fetched(
    t0: Seq<TaskControlBlock>,
    q0: Seq<usize>,
    i: int,
    t1: Seq<TaskControlBlock>,
    q1: Seq<usize>,
) -> bool {
    let p = q0[i] as int;
    &&& is_min_at(t0, q0, i)
    &&& q1 == q0.remove(i)
    &&& t1 == t0.update(p, with_stride(t0[p], advanced_stride(t0[p].stride, t0[p].priority)))
}

/// No two queued strides differ by more than `bound`.
pub open spec fn strides_within(tasks: Seq<TaskControlBlock>, q: Seq<usize>, bound: int) -> bool {
    forall|i: int, j: int|
        0 <= i < q.len() && 0 <= j < q.len() ==> #[trigger] queued_stride(tasks, q, i) <= #[trigger] queued_stride(tasks, q, j) + bound
}

impl TaskManager {
    /// An empty ready queue.
    pub fn new() -> (r: TaskManager)
        ensures
            r.ready_queue@ == Seq::<usize>::empty(),
    {
        TaskManager { ready_queue: Vec::new() }
    }

    /// Appends `pid` to the ready queue.
    pub fn add(&mut self, pid: usize)
        ensures
            final(self).ready_queue@ == old(self).ready_queue@.push(pid),
    {
        self.ready_queue.push(pid);
    }

    /// Removes and returns the queued task with the smallest stride, the
    /// leftmost on a tie, after advancing its stride by its pass. `None`
    /// when the queue is empty.
    pub fn fetch(&mut self, tasks: &mut Vec<TaskControlBlock>) -> (r: Option<usize>)
        requires
            queue_in_table(old(tasks)@, old(self).ready_queue@),
        ensures
            old(self).ready_queue@.len() == 0 ==> r is None && *final(self) == *old(self) && *final(tasks) == *old(tasks),
            old(self).ready_queue@.len() > 0 ==> exists|i: int| {
                &&& fetched(old(tasks)@, old(self).ready_queue@, i, final(tasks)@, final(self).ready_queue@)
                &&& r == Some(old(self).ready_queue@[i])
            },
    {
        if self.ready_queue.len() == 0 {
            return None;
        }
        let mut min_idx: usize = 0;
        let mut i: usize = 1;
        while i < self.ready_queue.len()
            invariant
                queue_in_table(tasks@, self.ready_queue@),
                1 <= i <= self.ready_queue@.len(),
                min_idx < i,
                forall|j: int| 0 <= j < i ==> queued_stride(tasks@, self.ready_queue@, min_idx as int)
                    <= #[trigger] queued_stride(tasks@, self.ready_queue@, j),
                forall|j: int| 0 <= j < min_idx ==> queued_stride(tasks@, self.ready_queue@, min_idx as int)
                    < #[trigger] queued_stride(tasks@, self.ready_queue@, j),
            decreases self.ready_queue@.len() - i,
        {
            let cur = self.ready_queue[i];
            let best = self.ready_queue[min_idx];
            assert(cur < tasks@.len());
            assert(best < tasks@.len());
            if tasks[cur].stride < tasks[best].stride {
                min_idx = i;
            }
            i = i + 1;
        }
        let ghost t0 = tasks@;
        let ghost q0 = self.ready_queue@;
        assert(is_min_at(t0, q0, min_idx as int));
        let pid = self.ready_queue.remove(min_idx);
        assert(q0[min_idx as int] < t0.len());
        let pass = tasks[pid].pass();
        let s = tasks[pid].stride;
        let next: u64 = if s > u64::MAX - pass { u64::MAX } else { s + pass };
        tasks[pid].stride = next;
        assert(tasks@ =~= t0.update(pid as int, with_stride(t0[pid as int], advanced_stride(t0[pid as int].stride, t0[pid as int].priority))));
        assert(fetched(t0, q0, min_idx as int, tasks@, self.ready_queue@));
        Some(pid)
    }
}

/// One scheduling round, fetching the smallest-stride task and queueing it
/// again, keeps every two queued strides within `bound` of each other, where
/// `bound` is at least the pass of every queued task (`BIG_STRIDE / 2` is
/// always such a bound). So each task's stride tracks the number of times it
/// ran times its pass, up to that bound, and its share of the rounds
/// converges to its priority over the sum of priorities.
pub proof fn lemma_round_keeps_spread(
    t0: Seq<TaskControlBlock>,
    q0: Seq<usize>,
    i: int,
    t1: Seq<TaskControlBlock>,
    q1: Seq<usize>,
    bound: int,
)
    requires
        queue_in_table(t0, q0),
        forall|k: int| 0 <= k < q0.len() ==> BIG_STRIDE / t0[#[trigger] q0[k] as int].priority <= bound,
        strides_within(t0, q0, bound),
        fetched(t0, q0, i, t1, q1),
    ensures
        strides_within(t1, q1.push(q0[i]), bound),
{
    let p = q0[i] as int;
    let m = t0[p].stride as int;
    let q2 = q1.push(q0[i]);
    assert(BIG_STRIDE / t0[q0[i] as int].priority <= bound);
    let adv = advanced_stride(t0[p].stride, t0[p].priority) as int;
    assert(m <= adv <= m + bound);
    // every stride in the new queue lies in [m, m + bound]
    assert forall|k: int| 0 <= k < q2.len() implies m <= #[trigger] queued_stride(t1, q2, k) <= m + bound by {
        let x = q2[k] as int;
        if k < q1.len() {
            let k0 = if k < i { k } else { k + 1 };
            assert(q2[k] == q0[k0]);
            assert(queued_stride(t0, q0, i) <= queued_stride(t0, q0, k0));
            assert(queued_stride(t0, q0, k0) <= queued_stride(t0, q0, i) + bound);
        }
        if x == p {
        } else {
            assert(t1[x] == t0[x]);
        }
    }
    assert forall|a: int, b: int| 0 <= a < q2.len() && 0 <= b < q2.len() implies #[trigger] queued_stride(t1, q2, a)
        <= #[trigger] queued_stride(t1, q2, b) + bound by {
        assert(m <= queued_stride(t1, q2, a) <= m + bound);
        assert(m <= queued_stride(t1, q2, b) <= m + bound);
    }
}

/// Two tasks of priorities 16 and 32 that started at the same stride and
/// ran `a` and `b` times: while their strides stay within the larger pass
/// (`BIG_STRIDE / 16`) of each other, as the round law keeps them, the
/// priority-32 task ran twice as often as the other, up to two runs. Over
/// `a + b` rounds its share is thus within `2 / (a + b)` of two thirds.
pub proof fn lemma_share_two_to_one(s0: int, a: int, b: int, sa: int, sb: int)
    requires
        0 <= a,
        0 <= b,
        sa == s0 + a * (BIG_STRIDE / 16),
        sb == s0 + b * (BIG_STRIDE / 32),
        sa <= sb + BIG_STRIDE / 16,
        sb <= sa + BIG_STRIDE / 16,
    ensures
        b <= 2 * a + 2,
        2 * a <= b + 2,
{
    let d = 2 * a - b;
    assert(sa - sb == 31250 * d) by (nonlinear_arith)
        requires
            sa == s0 + a * 62500,
            sb == s0 + b * 31250,
            d == 2 * a - b,
    {
    }
    assert(-2 <= d <= 2) by (nonlinear_arith)
        requires
            31250 * d <= 62500,
            -62500 <= 31250 * d,
    {
    }
}

/// A task that a fetch picks had the smallest stride in the queue, and its
/// stride advances by the pass of its current priority, the one the last
/// successful `set_priority` gave it: by exactly `BIG_STRIDE / priority`
/// unless that would pass `u64::MAX`, where the stride stops.
pub proof fn lemma_priority_governs_fetch(
    t0: Seq<TaskControlBlock>,
    q0: Seq<usize>,
    i: int,
    t1: Seq<TaskControlBlock>,
    q1: Seq<usize>,
)
    requires
        queue_in_table(t0, q0),
        fetched(t0, q0, i, t1, q1),
    ensures
        forall|j: int| 0 <= j < q0.len() ==> queued_stride(t0, q0, i) <= #[trigger] queued_stride(t0, q0, j),
        t0[q0[i] as int].stride + BIG_STRIDE / t0[q0[i] as int].priority <= u64::MAX ==> t1[q0[i] as int].stride
            == t0[q0[i] as int].stride + BIG_STRIDE / t0[q0[i] as int].priority,
        t0[q0[i] as int].stride + BIG_STRIDE / t0[q0[i] as int].priority > u64::MAX ==> t1[q0[i] as int].stride
            == u64::MAX,
        t1[q0[i] as int].priority == t0[q0[i] as int].priority,
{
}

} // verus!
