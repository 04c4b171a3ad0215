//! Task control blocks and the stride scheduler's ready queue.
use vstd::prelude::*;

verus! {

/// The fixed stride that a task's pass is derived from.
pub const BIG_STRIDE: u64 = 255;

/// Where a task is in its life cycle.
#[derive(Clone, Copy, PartialEq, Eq, Structural)]
pub enum TaskStatus {
    UnInit,
    Ready,
    Running,
    Blocked,
    Exited,
}

/// What the scheduler knows of one thread.
#[derive(Clone, Copy)]
pub struct TaskControlBlock {
    /// The thread's identifier.
    pub tid: usize,
    /// Where the thread is in its life cycle.
    pub task_status: TaskStatus,
    /// The pass counter; the thread with the least one runs next.
    pub stride: u64,
    /// The weight; a run adds `BIG_STRIDE / priority` to the stride.
    pub priority: u64,
    /// When the thread first ran, in milliseconds.
    pub time: usize,
}

/// The stride that `t` has after it was picked to run.
pub open spec fn charged(t: TaskControlBlock) -> TaskControlBlock {
    let pass = (BIG_STRIDE / t.priority) as int;
    TaskControlBlock {
        stride: if t.stride + pass <= u64::MAX { (t.stride + pass) as u64 } else { u64::MAX },
        ..t
    }
}

/// Whether `i` is the first position of a least stride in `q`.
pub open spec fn first_min(q: Seq<TaskControlBlock>, i: int) -> bool {
    &&& 0 <= i < q.len()
    &&& forall|j: int| 0 <= j < q.len() ==> q[i].stride <= #[trigger] q[j].stride
    &&& forall|j: int| 0 <= j < i ==> q[i].stride < #[trigger] q[j].stride
}

/// The position `fetch` takes from a nonempty queue.
pub open spec fn picked(q: Seq<TaskControlBlock>) -> int {
    choose|i: int| first_min(q, i)
}

/// The queue after one quantum: the task `fetch` takes runs, is charged,
/// and is added back at the end.
pub open spec fn quantum(q: Seq<TaskControlBlock>) -> Seq<TaskControlBlock> {
    q.remove(picked(q)).push(charged(q[picked(q)]))
}

/// The queue after `n` quanta.
pub open spec fn run(q: Seq<TaskControlBlock>, n: nat) -> Seq<TaskControlBlock>
    decreases n,
{
    if n == 0 {
        q
    } else {
        run(quantum(q), (n - 1) as nat)
    }
}

/// How far task `t` lags behind stride `s`: zero once it has passed `s`.
pub open spec fn lag_of(t: TaskControlBlock, s: int) -> nat {
    if t.stride <= s { (s + 1 - t.stride) as nat } else { 0 }
}

/// The sum of the lags of the tasks of `q` behind stride `s`.
pub open spec fn lag(q: Seq<TaskControlBlock>, s: int) -> nat
    decreases q.len(),
{
    if q.len() == 0 {
        0
    } else {
        lag(q.drop_last(), s) + lag_of(q.last(), s)
    }
}

/// A nonempty queue has a first position of least stride.
pub proof fn lemma_first_min_exists(q: Seq<TaskControlBlock>)
    requires
        q.len() > 0,
    ensures
        first_min(q, picked(q)),
    decreases q.len(),
{
    if q.len() == 1 {
        assert(first_min(q, 0));
    } else {
        let p = q.drop_last();
        lemma_first_min_exists(p);
        let i = picked(p);
        assert(p[i] == q[i]);
        if q.last().stride < q[i].stride {
            let l = q.len() - 1;
            assert forall|j: int| 0 <= j < l implies q[l].stride < #[trigger] q[j].stride by {
                assert(p[j] == q[j]);
            }
            assert(first_min(q, l));
        } else {
            assert forall|j: int| 0 <= j < q.len() implies q[i].stride <= #[trigger] q[j].stride by {
                if j < q.len() - 1 {
                    assert(p[j] == q[j]);
                }
            }
            assert forall|j: int| 0 <= j < i implies q[i].stride < #[trigger] q[j].stride by {
                assert(p[j] == q[j]);
            }
            assert(first_min(q, i));
        }
    }
}

/// A queue has at most one first position of least stride.
pub proof fn lemma_first_min_unique(q: Seq<TaskControlBlock>, i: int, j: int)
    requires
        first_min(q, i),
        first_min(q, j),
    ensures
        i == j,
{
    if i < j {
        assert(q[j].stride < q[i].stride);
    } else if j < i {
        assert(q[i].stride < q[j].stride);
    }
}

proof fn lemma_lag_remove(q: Seq<TaskControlBlock>, i: int, s: int)
    requires
        0 <= i < q.len(),
    ensures
        lag(q.remove(i), s) + lag_of(q[i], s) == lag(q, s),
    decreases q.len(),
{
    if i == q.len() - 1 {
        assert(q.remove(i) =~= q.drop_last());
    } else {
        lemma_lag_remove(q.drop_last(), i, s);
        assert(q.remove(i).drop_last() =~= q.drop_last().remove(i));
        assert(q.remove(i).last() == q.last());
    }
}

/// No ready task waits forever. Let task `t` be in the queue with stride
/// `s`, and every task run in turn and be added back: within as many quanta
/// as the lag of the queue behind `s`, `t` is the one that runs. Each run of
/// another task adds at least one to a stride at most `s`, so the lag falls.
/// This needs each pass to be at least one (priorities at most
/// `BIG_STRIDE`) and `s` far enough from `u64::MAX` that no stride saturates.
pub proof fn lemma_no_starvation(q: Seq<TaskControlBlock>, t: TaskControlBlock)
    requires
        q.contains(t),
        forall|j: int| 0 <= j < q.len() ==> 0 < (#[trigger] q[j]).priority <= BIG_STRIDE,
        t.stride <= u64::MAX - BIG_STRIDE,
    ensures
        exists|n: nat| n <= lag(q, t.stride as int) && #[trigger] run(q, n)[picked(run(q, n))] == t,
    decreases lag(q, t.stride as int),
{
    let s = t.stride as int;
    lemma_first_min_exists(q);
    let i = picked(q);
    if q[i] == t {
        assert(run(q, 0) == q);
    } else {
        let j = choose|j: int| 0 <= j < q.len() && q[j] == t;
        let y = q[i];
        assert(y.stride <= t.stride);
        let q2 = quantum(q);
        let c = charged(y);
        assert(c.stride == y.stride + BIG_STRIDE / y.priority);
        assert(BIG_STRIDE / y.priority >= 1) by (nonlinear_arith)
            requires
                0 < y.priority <= BIG_STRIDE,
        ;
        lemma_lag_remove(q, i, s);
        assert(q2.drop_last() =~= q.remove(i));
        assert(lag(q2, s) < lag(q, s));
        let jj = if j < i { j } else { j - 1 };
        assert(q2[jj] == t);
        assert forall|k: int| 0 <= k < q2.len() implies 0 < (#[trigger] q2[k]).priority <= BIG_STRIDE by {
            if k < q2.len() - 1 {
                let o = if k < i { k } else { k + 1 };
                assert(q2[k] == q[o]);
            }
        }
        lemma_no_starvation(q2, t);
        let n2 = choose|n: nat| n <= lag(q2, s) && #[trigger] run(q2, n)[picked(run(q2, n))] == t;
        assert(run(q, n2 + 1) == run(q2, n2));
    }
}

/// Every stride in `q` is within `m` of every other.
pub open spec fn strides_close(q: Seq<TaskControlBlock>, m: int) -> bool {
    forall|i: int, j: int| 0 <= i < q.len() && 0 <= j < q.len() ==> #[trigger] q[i].stride <= #[trigger] q[j].stride + m
}

/// Every task of `q` has a positive priority and a pass of at most `m`.
pub open spec fn passes_at_most(q: Seq<TaskControlBlock>, m: int) -> bool {
    forall|j: int| 0 <= j < q.len() ==> (#[trigger] q[j]).priority > 0 && BIG_STRIDE / q[j].priority <= m
}

proof fn lemma_quantum_keeps_close(q: Seq<TaskControlBlock>, m: int)
    requires
        q.len() > 0,
        strides_close(q, m),
        passes_at_most(q, m),
    ensures
        quantum(q).len() == q.len(),
        strides_close(quantum(q), m),
        passes_at_most(quantum(q), m),
{
    lemma_first_min_exists(q);
    let i = picked(q);
    let y = q[i];
    let q2 = quantum(q);
    let last = q2.len() - 1;
    assert forall|a: int, b: int| 0 <= a < q2.len() && 0 <= b < q2.len() implies #[trigger] q2[a].stride
        <= #[trigger] q2[b].stride + m by {
        let oa = if a < i { a } else { a + 1 };
        let ob = if b < i { b } else { b + 1 };
        if a < last {
            assert(q2[a] == q[oa]);
        }
        if b < last {
            assert(q2[b] == q[ob]);
        }
        if a == last && b < last {
            assert(q[i].stride <= q[ob].stride);
        }
        if b == last && a < last {
            assert(q[oa].stride <= q[i].stride + m);
        }
    }
    assert forall|j: int| 0 <= j < q2.len() implies (#[trigger] q2[j]).priority > 0 && BIG_STRIDE / q2[j].priority
        <= m by {
        if j < last {
            let o = if j < i { j } else { j + 1 };
            assert(q2[j] == q[o]);
        }
    }
}

/// Strides that start within the largest pass `m` of each other stay so
/// for any number of quanta: the task that runs has the least stride, and
/// its stride grows by its pass, at most `m`.
pub proof fn lemma_strides_stay_close(q: Seq<TaskControlBlock>, n: nat, m: int)
    requires
        q.len() > 0,
        strides_close(q, m),
        passes_at_most(q, m),
    ensures
        run(q, n).len() == q.len(),
        strides_close(run(q, n), m),
    decreases n,
{
    if n > 0 {
        lemma_quantum_keeps_close(q, m);
        lemma_strides_stay_close(quantum(q), (n - 1) as nat, m);
    }
}

proof fn lemma_lag_bound(q: Seq<TaskControlBlock>, s: int, m: int)
    requires
        m >= 0,
        forall|j: int| 0 <= j < q.len() ==> s <= (#[trigger] q[j]).stride + m,
    ensures
        lag(q, s) <= q.len() * (m + 1),
    decreases q.len(),
{
    if q.len() > 0 {
        let p = q.drop_last();
        assert forall|j: int| 0 <= j < p.len() implies s <= (#[trigger] p[j]).stride + m by {
            assert(p[j] == q[j]);
        }
        lemma_lag_bound(p, s, m);
        assert(lag_of(q.last(), s) <= m + 1);
        assert(p.len() * (m + 1) + (m + 1) == q.len() * (m + 1)) by (nonlinear_arith)
            requires
                p.len() + 1 == q.len(),
        ;
    }
}

/// No ready task waits more than `q.len() * (m + 1)` quanta when the
/// strides lie within `m` of each other: each task lags behind the waiting
/// one by at most `m + 1`.
pub proof fn lemma_bounded_wait(q: Seq<TaskControlBlock>, t: TaskControlBlock, m: int)
    requires
        q.contains(t),
        m >= 0,
        strides_close(q, m),
        forall|j: int| 0 <= j < q.len() ==> 0 < (#[trigger] q[j]).priority <= BIG_STRIDE,
        t.stride <= u64::MAX - BIG_STRIDE,
    ensures
        exists|n: nat| n <= q.len() * (m + 1) && #[trigger] run(q, n)[picked(run(q, n))] == t,
{
    let jt = choose|j: int| 0 <= j < q.len() && q[j] == t;
    assert forall|j: int| 0 <= j < q.len() implies t.stride <= (#[trigger] q[j]).stride + m by {
        assert(q[jt].stride <= q[j].stride + m);
    }
    lemma_lag_bound(q, t.stride as int, m);
    lemma_no_starvation(q, t);
    let n = choose|n: nat| n <= lag(q, t.stride as int) && #[trigger] run(q, n)[picked(run(q, n))] == t;
    assert(n <= q.len() * (m + 1));
}


/// How many of the first `n` quanta from `q` the task with id `tid` ran.
pub open spec fn runs(q: Seq<TaskControlBlock>, n: nat, tid: usize) -> nat
    decreases n,
{
    if n == 0 {
        0
    } else {
        (if q[picked(q)].tid == tid { 1nat } else { 0nat }) + runs(quantum(q), (n - 1) as nat, tid)
    }
}

/// No two tasks of `q` share an id.
pub open spec fn tids_unique(q: Seq<TaskControlBlock>) -> bool {
    forall|i: int, j: int| 0 <= i < q.len() && 0 <= j < q.len() && i != j ==> #[trigger] q[i].tid != #[trigger] q[j].tid
}

/// Every priority in `q` is positive and every stride at least `n` passes
/// away from `u64::MAX`.
pub open spec fn room_for(q: Seq<TaskControlBlock>, n: nat) -> bool {
    forall|j: int| 0 <= j < q.len() ==> (#[trigger] q[j]).priority > 0 && q[j].stride + n * BIG_STRIDE <= u64::MAX
}

proof fn lemma_quantum_step(q: Seq<TaskControlBlock>, n: nat, x: TaskControlBlock)
    requires
        q.len() > 0,
        n > 0,
        q.contains(x),
        tids_unique(q),
        room_for(q, n),
    ensures
        tids_unique(quantum(q)),
        room_for(quantum(q), (n - 1) as nat),
        q[picked(q)].tid == x.tid ==> quantum(q).contains(
            TaskControlBlock { stride: (x.stride + BIG_STRIDE / x.priority) as u64, ..x },
        ),
        q[picked(q)].tid != x.tid ==> quantum(q).contains(x),
{
    lemma_first_min_exists(q);
    let i = picked(q);
    let y = q[i];
    let q2 = quantum(q);
    let last = q2.len() - 1;
    let src = |k: int| if k == last { i } else if k < i { k } else { k + 1 };
    assert(BIG_STRIDE / y.priority <= BIG_STRIDE) by (nonlinear_arith)
        requires
            y.priority > 0,
    ;
    assert forall|k: int| 0 <= k < last implies #[trigger] q2[k] == q[src(k)] by {}
    assert(q2[last] == charged(y));
    assert forall|a: int, b: int| 0 <= a < q2.len() && 0 <= b < q2.len() && a != b
        implies #[trigger] q2[a].tid != #[trigger] q2[b].tid by {
        assert(q2[a].tid == q[src(a)].tid);
        assert(q2[b].tid == q[src(b)].tid);
    }
    assert forall|j: int| 0 <= j < q2.len() implies (#[trigger] q2[j]).priority > 0 && q2[j].stride + (n - 1) * BIG_STRIDE
        <= u64::MAX by {
        assert(q[src(j)].stride + n * BIG_STRIDE <= u64::MAX);
        assert(n * BIG_STRIDE == (n - 1) * BIG_STRIDE + BIG_STRIDE) by (nonlinear_arith);
    }
    let jx = choose|jx: int| 0 <= jx < q.len() && q[jx] == x;
    if y.tid == x.tid {
        assert(jx == i);
        assert(q2[last] == TaskControlBlock { stride: (x.stride + BIG_STRIDE / x.priority) as u64, ..x });
    } else {
        let k = if jx < i { jx } else { jx - 1 };
        assert(q2[k] == x);
    }
}

/// While no stride nears `u64::MAX`, a task's stride after `n` quanta is its
/// stride before plus its pass once for each quantum it ran.
pub proof fn lemma_stride_counts_runs(q: Seq<TaskControlBlock>, n: nat, x: TaskControlBlock)
    requires
        q.contains(x),
        tids_unique(q),
        room_for(q, n),
    ensures
        run(q, n).contains(
            TaskControlBlock { stride: (x.stride + runs(q, n, x.tid) * (BIG_STRIDE / x.priority)) as u64, ..x },
        ),
    decreases n,
{
    if n == 0 {
        assert(TaskControlBlock { stride: (x.stride + 0 * (BIG_STRIDE / x.priority)) as u64, ..x } == x);
    } else {
        let p = BIG_STRIDE / x.priority;
        lemma_quantum_step(q, n, x);
        let q2 = quantum(q);
        if q[picked(q)].tid == x.tid {
            let x2 = TaskControlBlock { stride: (x.stride + p) as u64, ..x };
            lemma_stride_counts_runs(q2, (n - 1) as nat, x2);
            let r = runs(q2, (n - 1) as nat, x.tid);
            assert(x2.stride + r * p == x.stride + (r + 1) * p) by (nonlinear_arith)
                requires
                    x2.stride == x.stride + p,
            ;
        } else {
            lemma_stride_counts_runs(q2, (n - 1) as nat, x);
        }
    }
}

/// Shares follow priorities: let every pass be at most `m` and the strides
/// start within `m` of each other (equal, say). Over any `n` quanta the
/// runs of task `x` times its pass exceed those of task `z` times its pass
/// by at most `m` plus the gap between their starting strides. A pass is
/// `BIG_STRIDE / priority`, so the runs of each task approach a share
/// inversely proportional to its pass, that is, following its priority.
pub proof fn lemma_proportional_share(
    q: Seq<TaskControlBlock>,
    n: nat,
    x: TaskControlBlock,
    z: TaskControlBlock,
    m: int,
)
    requires
        q.contains(x),
        q.contains(z),
        tids_unique(q),
        room_for(q, n),
        passes_at_most(q, m),
        strides_close(q, m),
    ensures
        runs(q, n, x.tid) * (BIG_STRIDE / x.priority) <= runs(q, n, z.tid) * (BIG_STRIDE / z.priority)
            + m + z.stride - x.stride,
{
    lemma_stride_counts_runs(q, n, x);
    lemma_stride_counts_runs(q, n, z);
    lemma_strides_stay_close(q, n, m);
    let rq = run(q, n);
    let x2 = TaskControlBlock { stride: (x.stride + runs(q, n, x.tid) * (BIG_STRIDE / x.priority)) as u64, ..x };
    let z2 = TaskControlBlock { stride: (z.stride + runs(q, n, z.tid) * (BIG_STRIDE / z.priority)) as u64, ..z };
    let a = choose|a: int| 0 <= a < rq.len() && rq[a] == x2;
    let b = choose|b: int| 0 <= b < rq.len() && rq[b] == z2;
    assert(rq[a].stride <= rq[b].stride + m);
    lemma_stride_fits(q, n, x);
    lemma_stride_fits(q, n, z);
}

proof fn lemma_runs_le(q: Seq<TaskControlBlock>, n: nat, tid: usize)
    ensures
        runs(q, n, tid) <= n,
    decreases n,
{
    if n > 0 {
        lemma_runs_le(quantum(q), (n - 1) as nat, tid);
    }
}

proof fn lemma_stride_fits(q: Seq<TaskControlBlock>, n: nat, x: TaskControlBlock)
    requires
        q.contains(x),
        room_for(q, n),
    ensures
        x.stride + runs(q, n, x.tid) * (BIG_STRIDE / x.priority) <= u64::MAX,
{
    let j = choose|j: int| 0 <= j < q.len() && q[j] == x;
    assert(x.priority > 0 && x.stride + n * BIG_STRIDE <= u64::MAX);
    lemma_runs_le(q, n, x.tid);
    let r = runs(q, n, x.tid);
    assert(BIG_STRIDE / x.priority <= BIG_STRIDE) by (nonlinear_arith)
        requires
            x.priority > 0,
    ;
    let p = BIG_STRIDE / x.priority;
    assert(r * p <= n * BIG_STRIDE) by (nonlinear_arith)
        requires
            r <= n,
            p <= BIG_STRIDE,
    ;
}


/// The ready queue, in the order the threads were added.
pub struct TaskManager {
    pub big_stride: u64,
    pub ready_queue: Vec<TaskControlBlock>,
}

impl TaskManager {
    pub open spec fn wf(self) -> bool {
        &&& self.big_stride == BIG_STRIDE
        &&& forall|i: int| 0 <= i < self.ready_queue@.len() ==> (#[trigger] self.ready_queue@[i]).priority > 0
    }

    /// An empty ready queue.
    pub fn new() -> (r: Self)
        ensures
            r.wf(),
            r.ready_queue@.len() == 0,
    {
        TaskManager { big_stride: BIG_STRIDE, ready_queue: Vec::new() }
    }

    /// Puts `task` at the back of the queue.
    pub fn add(&mut self, task: TaskControlBlock)
        requires
            old(self).wf(),
            task.priority > 0,
        ensures
            final(self).wf(),
            final(self).ready_queue@ == old(self).ready_queue@.push(task),
    {
        self.ready_queue.push(task);
        proof {
            assert forall|i: int| 0 <= i < self.ready_queue@.len() implies (#[trigger] self.ready_queue@[i]).priority > 0 by {
                if i < old(self).ready_queue@.len() {
                    assert(self.ready_queue@[i] == old(self).ready_queue@[i]);
                }
            }
        }
    }

    /// Takes out the first thread of least stride and charges it its pass.
    pub fn fetch(&mut self) -> (r: Option<TaskControlBlock>)
        requires
            old(self).wf(),
        ensures
            final(self).wf(),
            old(self).ready_queue@.len() == 0 ==> r is None && final(self).ready_queue@ == old(self).ready_queue@,
            old(self).ready_queue@.len() > 0 ==> {
                let q = old(self).ready_queue@;
                &&& first_min(q, picked(q))
                &&& final(self).ready_queue@ == q.remove(picked(q))
                &&& r == Some(charged(q[picked(q)]))
            },
    {
        let n = self.ready_queue.len();
        if n == 0 {
            return None;
        }
        let mut index: usize = 0;
        let mut i: usize = 1;
        while i < n
            invariant
                n == self.ready_queue@.len(),
                self.ready_queue@ == old(self).ready_queue@,
                0 <= index < i <= n,
                forall|j: int| 0 <= j < i ==> self.ready_queue@[index as int].stride <= #[trigger] self.ready_queue@[j].stride,
                forall|j: int| 0 <= j < index ==> self.ready_queue@[index as int].stride < #[trigger] self.ready_queue@[j].stride,
            decreases n - i,
        {
            if self.ready_queue[i].stride < self.ready_queue[index].stride {
                index = i;
            }
            i = i + 1;
        }
        let mut task = self.ready_queue.remove(index);
        let pass = self.big_stride / task.priority;
        task.stride = task.stride.saturating_add(pass);
        proof {
            assert(first_min(old(self).ready_queue@, index as int));
            lemma_first_min_unique(old(self).ready_queue@, index as int, picked(old(self).ready_queue@));
            assert(task == charged(old(self).ready_queue@[index as int]));
            assert forall|j: int| 0 <= j < self.ready_queue@.len() implies (#[trigger] self.ready_queue@[j]).priority > 0 by {
                let o = if j < index { j } else { j + 1 };
                assert(self.ready_queue@[j] == old(self).ready_queue@[o]);
            }
        }
        Some(task)
    }
}

} // verus!
