//! Per-process tables of mutexes, semaphores and condition variables, with
//! the bookkeeping that deadlock detection reads.
use vstd::prelude::*;
use crate::banker::{is_safe, rows, safe, with_row};

verus! {

/// Returned when a request is refused because granting it could deadlock.
pub const DEADLOCK: isize = -0xdead;

/// A mutex: spinning or blocking, and the threads waiting for it in order.
pub struct MutexState {
    pub blocking: bool,
    pub wait_queue: Vec<usize>,
}

/// A counting semaphore's queue of waiting threads; its free count lives in
/// `SyncTables::semaphore_available`.
pub struct SemaphoreState {
    pub wait_queue: Vec<usize>,
}

/// A condition variable's queue: each waiter with the mutex it gave up.
pub struct CondvarState {
    pub wait_queue: Vec<(usize, usize)>,
}

/// The synchronisation state of one process. Threads are numbered
/// `0 .. mutex_request.len()`.
pub struct SyncTables {
    pub mutex_list: Vec<Option<MutexState>>,
    /// For each thread, the mutex it waits for.
    pub mutex_request: Vec<Option<usize>>,
    /// For each mutex, the thread that holds it.
    pub mutex_alloc: Vec<Option<usize>>,
    pub semaphore_list: Vec<Option<SemaphoreState>>,
    /// For each semaphore, its free units.
    pub semaphore_available: Vec<usize>,
    /// Units of each semaphore that each thread holds, by thread then semaphore.
    pub semaphore_alloc: Vec<Vec<usize>>,
    /// Units of each semaphore that each thread waits for.
    pub semaphore_request: Vec<Vec<usize>>,
    pub condvar_list: Vec<Option<CondvarState>>,
    pub deadlock_detection: bool,
}

/// The thread that `t` waits on: the holder of the mutex that `t` requests.
pub open spec fn next_thread(request: Seq<Option<usize>>, alloc: Seq<Option<usize>>, t: int) -> Option<int> {
    if 0 <= t < request.len() && request[t] is Some && request[t]->0 < alloc.len()
        && alloc[request[t]->0 as int] is Some {
        Some(alloc[request[t]->0 as int]->0 as int)
    } else {
        None
    }
}

/// The thread reached after `k` steps of the wait-for walk from `t`.
pub open spec fn walk(request: Seq<Option<usize>>, alloc: Seq<Option<usize>>, t: int, k: nat) -> Option<int>
    decreases k,
{
    if k == 0 {
        Some(t)
    } else {
        match walk(request, alloc, t, (k - 1) as nat) {
            Some(u) => next_thread(request, alloc, u),
            None => None,
        }
    }
}

/// The walk from `t` goes on for more steps than there are threads, so it
/// passes some thread twice: the threads on that cycle wait forever.
pub open spec fn deadlocked(request: Seq<Option<usize>>, alloc: Seq<Option<usize>>, t: int) -> bool {
    walk(request, alloc, t, request.len() + 1) is Some
}

/// A walk that has stopped stays stopped.
pub proof fn lemma_walk_stops(request: Seq<Option<usize>>, alloc: Seq<Option<usize>>, t: int, k: nat, m: nat)
    requires
        k <= m,
        walk(request, alloc, t, k) is None,
    ensures
        walk(request, alloc, t, m) is None,
    decreases m - k,
{
    if k < m {
        lemma_walk_stops(request, alloc, t, k, (m - 1) as nat);
    }
}

/// Two threads that each hold one mutex and wait for the other's are
/// deadlocked, seen from either of them.
pub proof fn lemma_two_thread_cycle(
    request: Seq<Option<usize>>,
    alloc: Seq<Option<usize>>,
    t1: usize,
    t2: usize,
    m1: usize,
    m2: usize,
)
    requires
        t1 < request.len(),
        t2 < request.len(),
        m1 < alloc.len(),
        m2 < alloc.len(),
        alloc[m1 as int] == Some(t1),
        alloc[m2 as int] == Some(t2),
        request[t1 as int] == Some(m2),
        request[t2 as int] == Some(m1),
    ensures
        deadlocked(request, alloc, t1 as int),
        deadlocked(request, alloc, t2 as int),
{
    lemma_two_cycle_walk(request, alloc, t1, t2, m1, m2, request.len() + 1);
}

proof fn lemma_two_cycle_walk(
    request: Seq<Option<usize>>,
    alloc: Seq<Option<usize>>,
    t1: usize,
    t2: usize,
    m1: usize,
    m2: usize,
    k: nat,
)
    requires
        t1 < request.len(),
        t2 < request.len(),
        m1 < alloc.len(),
        m2 < alloc.len(),
        alloc[m1 as int] == Some(t1),
        alloc[m2 as int] == Some(t2),
        request[t1 as int] == Some(m2),
        request[t2 as int] == Some(m1),
    ensures
        walk(request, alloc, t1 as int, k) == Some(if k % 2 == 0 { t1 as int } else { t2 as int }),
        walk(request, alloc, t2 as int, k) == Some(if k % 2 == 0 { t2 as int } else { t1 as int }),
    decreases k,
{
    if k > 0 {
        lemma_two_cycle_walk(request, alloc, t1, t2, m1, m2, (k - 1) as nat);
    }
}

impl SyncTables {
    /// How many threads the process has.
    pub open spec fn n_threads(self) -> nat {
        self.mutex_request@.len()
    }

    /// Whether `id` names a live mutex.
    pub open spec fn mutex_valid(self, id: int) -> bool {
        0 <= id < self.mutex_list@.len() && self.mutex_list@[id] is Some
    }

    /// Whether `id` names a live semaphore.
    pub open spec fn semaphore_valid(self, id: int) -> bool {
        0 <= id < self.semaphore_list@.len() && self.semaphore_list@[id] is Some
    }

    /// Whether `id` names a live condition variable.
    pub open spec fn condvar_valid(self, id: int) -> bool {
        0 <= id < self.condvar_list@.len() && self.condvar_list@[id] is Some
    }

    /// The waiters of mutex `id`.
    pub open spec fn mutex_waiters(self, id: int) -> Seq<usize> {
        self.mutex_list@[id]->0.wait_queue@
    }

    pub open spec fn wf(self) -> bool {
        let n = self.n_threads();
        let ns = self.semaphore_list@.len();
        &&& self.mutex_alloc@.len() == self.mutex_list@.len()
        &&& forall|m: int| 0 <= m < self.mutex_alloc@.len() && (#[trigger] self.mutex_alloc@[m]) is Some
            ==> self.mutex_alloc@[m]->0 < n
        &&& forall|t: int| 0 <= t < n && (#[trigger] self.mutex_request@[t]) is Some
            ==> self.mutex_request@[t]->0 < self.mutex_list@.len()
        &&& forall|m: int, i: int| 0 <= m < self.mutex_list@.len() && self.mutex_list@[m] is Some
            && 0 <= i < self.mutex_list@[m]->0.wait_queue@.len()
            ==> #[trigger] self.mutex_list@[m]->0.wait_queue@[i] < n
        &&& self.semaphore_available@.len() == ns
        &&& self.semaphore_alloc@.len() == n
        &&& self.semaphore_request@.len() == n
        &&& forall|t: int| 0 <= t < n ==> (#[trigger] self.semaphore_alloc@[t])@.len() == ns
        &&& forall|t: int| 0 <= t < n ==> (#[trigger] self.semaphore_request@[t])@.len() == ns
        &&& forall|s: int, i: int| 0 <= s < ns && self.semaphore_list@[s] is Some
            && 0 <= i < self.semaphore_list@[s]->0.wait_queue@.len()
            ==> #[trigger] self.semaphore_list@[s]->0.wait_queue@[i] < n
        &&& forall|c: int, i: int| 0 <= c < self.condvar_list@.len() && self.condvar_list@[c] is Some
            && 0 <= i < self.condvar_list@[c]->0.wait_queue@.len()
            ==> (#[trigger] self.condvar_list@[c]->0.wait_queue@[i]).0 < n
                && self.mutex_valid(self.condvar_list@[c]->0.wait_queue@[i].1 as int)
    }

    /// Empty tables for a process with `n` threads.
    pub fn new(n: usize) -> (r: Self)
        ensures
            r.wf(),
            r.n_threads() == n,
            r.mutex_list@.len() == 0,
            r.semaphore_list@.len() == 0,
            r.condvar_list@.len() == 0,
            !r.deadlock_detection,
            forall|t: int| 0 <= t < n ==> (#[trigger] r.mutex_request@[t]) is None,
    {
        let mut mutex_request: Vec<Option<usize>> = Vec::new();
        let mut semaphore_alloc: Vec<Vec<usize>> = Vec::new();
        let mut semaphore_request: Vec<Vec<usize>> = Vec::new();
        let mut i: usize = 0;
        while i < n
            invariant
                i <= n,
                mutex_request@.len() == i,
                semaphore_alloc@.len() == i,
                semaphore_request@.len() == i,
                forall|t: int| 0 <= t < i ==> (#[trigger] mutex_request@[t]) is None,
                forall|t: int| 0 <= t < i ==> (#[trigger] semaphore_alloc@[t])@.len() == 0,
                forall|t: int| 0 <= t < i ==> (#[trigger] semaphore_request@[t])@.len() == 0,
            decreases n - i,
        {
            mutex_request.push(None);
            semaphore_alloc.push(Vec::new());
            semaphore_request.push(Vec::new());
            i = i + 1;
        }
        SyncTables {
            mutex_list: Vec::new(),
            mutex_request,
            mutex_alloc: Vec::new(),
            semaphore_list: Vec::new(),
            semaphore_available: Vec::new(),
            semaphore_alloc,
            semaphore_request,
            condvar_list: Vec::new(),
            deadlock_detection: false,
        }
    }

    /// Adds a thread that holds and waits for nothing, and returns its id.
    pub fn add_thread(&mut self) -> (r: usize)
        requires
            old(self).wf(),
        ensures
            final(self).wf(),
            r == old(self).n_threads(),
            final(self).n_threads() == old(self).n_threads() + 1,
            final(self).mutex_request@ == old(self).mutex_request@.push(None),
            final(self).sem_alloc() == old(self).sem_alloc().push(Seq::new(old(self).semaphore_list@.len(), |s: int| 0usize)),
            final(self).sem_request() == old(self).sem_request().push(Seq::new(old(self).semaphore_list@.len(), |s: int| 0usize)),
            final(self).same_sem_cv_lists(*old(self)),
    {
        let ns = self.semaphore_list.len();
        let mut zeros: Vec<usize> = Vec::new();
        while zeros.len() < ns
            invariant
                zeros@.len() <= ns,
                forall|i: int| 0 <= i < zeros@.len() ==> #[trigger] zeros@[i] == 0usize,
            decreases ns - zeros@.len(),
        {
            zeros.push(0);
        }
        let mut zeros2: Vec<usize> = Vec::new();
        while zeros2.len() < ns
            invariant
                zeros2@.len() <= ns,
                forall|i: int| 0 <= i < zeros2@.len() ==> #[trigger] zeros2@[i] == 0usize,
            decreases ns - zeros2@.len(),
        {
            zeros2.push(0);
        }
        let r = self.mutex_request.len();
        self.mutex_request.push(None);
        self.semaphore_alloc.push(zeros);
        self.semaphore_request.push(zeros2);
        proof {
            let z = Seq::new(ns as nat, |s: int| 0usize);
            assert(zeros@ =~= z);
            assert(zeros2@ =~= z);
            assert(self.sem_alloc() =~= old(self).sem_alloc().push(z));
            assert(self.sem_request() =~= old(self).sem_request().push(z));
            let n = self.n_threads();
            assert forall|t: int| 0 <= t < n && (#[trigger] self.mutex_request@[t]) is Some
                implies self.mutex_request@[t]->0 < self.mutex_list@.len() by {
                assert(self.mutex_request@[t] == old(self).mutex_request@[t]);
            }
            assert forall|t: int| 0 <= t < n implies (#[trigger] self.semaphore_alloc@[t])@.len() == ns by {
                if t < n - 1 {
                    assert(self.semaphore_alloc@[t] == old(self).semaphore_alloc@[t]);
                }
            }
            assert forall|t: int| 0 <= t < n implies (#[trigger] self.semaphore_request@[t])@.len() == ns by {
                if t < n - 1 {
                    assert(self.semaphore_request@[t] == old(self).semaphore_request@[t]);
                }
            }
        }
        r
    }

    /// The thread that `cur` waits on, with `tid` taken to wait for mutex
    /// `mutex_id`.
    fn waits_on(&self, tid: usize, mutex_id: usize, cur: usize) -> (r: Option<usize>)
        requires
            self.wf(),
            tid < self.n_threads(),
            cur < self.n_threads(),
        ensures
            match r {
                Some(u) => next_thread(self.mutex_request@.update(tid as int, Some(mutex_id)), self.mutex_alloc@, cur as int)
                    == Some(u as int) && u < self.n_threads(),
                None => next_thread(self.mutex_request@.update(tid as int, Some(mutex_id)), self.mutex_alloc@, cur as int)
                    is None,
            },
    {
        let want = if cur == tid { Some(mutex_id) } else { self.mutex_request[cur] };
        match want {
            Some(m) => if m < self.mutex_alloc.len() {
                self.mutex_alloc[m]
            } else {
                None
            },
            None => None,
        }
    }

    /// Whether the wait-for walk from `tid`, with `tid` waiting for mutex
    /// `mutex_id`, goes on for more steps than there are threads.
    pub fn would_deadlock(&self, tid: usize, mutex_id: usize) -> (r: bool)
        requires
            self.wf(),
            tid < self.n_threads(),
        ensures
            r == deadlocked(self.mutex_request@.update(tid as int, Some(mutex_id)), self.mutex_alloc@, tid as int),
    {
        let ghost req = self.mutex_request@.update(tid as int, Some(mutex_id));
        let ghost alc = self.mutex_alloc@;
        let n = self.mutex_request.len();
        let mut cur: usize = tid;
        let mut step: usize = 0;
        while step < n
            invariant
                n == req.len(),
                n == self.n_threads(),
                step <= n,
                cur < n,
                walk(req, alc, tid as int, step as nat) == Some(cur as int),
                self.wf(),
                tid < n,
                req == self.mutex_request@.update(tid as int, Some(mutex_id)),
                alc == self.mutex_alloc@,
            decreases n - step,
        {
            match self.waits_on(tid, mutex_id, cur) {
                Some(u) => {
                    cur = u;
                    step = step + 1;
                },
                None => {
                    proof {
                        assert(walk(req, alc, tid as int, (step + 1) as nat) is None);
                        lemma_walk_stops(req, alc, tid as int, (step + 1) as nat, (n + 1) as nat);
                    }
                    return false;
                },
            }
        }
        let last = self.waits_on(tid, mutex_id, cur);
        proof {
            assert(walk(req, alc, tid as int, (n + 1) as nat) == next_thread(req, alc, cur as int));
        }
        last.is_some()
    }
}

/// The first empty slot of `v`, or its length when every slot is taken.
fn first_free<T>(v: &Vec<Option<T>>) -> (r: usize)
    ensures
        r <= v@.len(),
        r < v@.len() ==> v@[r as int] is None,
        forall|j: int| 0 <= j < r ==> (#[trigger] v@[j]) is Some,
{
    let mut i: usize = 0;
    while i < v.len()
        invariant
            i <= v@.len(),
            forall|j: int| 0 <= j < i ==> (#[trigger] v@[j]) is Some,
        decreases v@.len() - i,
    {
        if v[i].is_none() {
            return i;
        }
        i = i + 1;
    }
    i
}

impl SyncTables {
    /// Semaphores and condition variables are as in `o`.
    pub open spec fn same_sem_cv(self, o: SyncTables) -> bool {
        &&& self.semaphore_list == o.semaphore_list
        &&& self.semaphore_available == o.semaphore_available
        &&& self.semaphore_alloc == o.semaphore_alloc
        &&& self.semaphore_request == o.semaphore_request
        &&& self.condvar_list == o.condvar_list
        &&& self.deadlock_detection == o.deadlock_detection
    }

    /// The lists of mutexes, semaphores and condition variables, the free
    /// counts, the holders of mutexes and the detection switch are as in `o`.
    pub open spec fn same_sem_cv_lists(self, o: SyncTables) -> bool {
        &&& self.mutex_list == o.mutex_list
        &&& self.mutex_alloc == o.mutex_alloc
        &&& self.semaphore_list == o.semaphore_list
        &&& self.semaphore_available == o.semaphore_available
        &&& self.condvar_list == o.condvar_list
        &&& self.deadlock_detection == o.deadlock_detection
    }

    /// Mutex `m` gets the waiter `w`, or becomes free when `w` is `None`.
    fn hand_over(&mut self, m: usize, w: Option<usize>)
        requires
            old(self).wf(),
            m < old(self).mutex_list@.len(),
            w is Some ==> w->0 < old(self).n_threads(),
        ensures
            final(self).wf(),
            final(self).mutex_list == old(self).mutex_list,
            final(self).same_sem_cv(*old(self)),
            final(self).mutex_alloc@ == old(self).mutex_alloc@.update(m as int, w),
            final(self).mutex_request@ == match w {
                Some(t) => old(self).mutex_request@.update(t as int, None),
                None => old(self).mutex_request@,
            },
    {
        self.mutex_alloc.set(m, w);
        if let Some(t) = w {
            self.mutex_request.set(t, None);
        }
        proof {
            assert forall|t: int| 0 <= t < self.n_threads() && (#[trigger] self.mutex_request@[t]) is Some
                implies self.mutex_request@[t]->0 < self.mutex_list@.len() by {
                assert(old(self).mutex_request@[t] == self.mutex_request@[t]);
            }
        }
    }

    /// Thread `tid` takes mutex `m` if it is free, else joins its queue.
    fn acquire_or_wait(&mut self, tid: usize, m: usize)
        requires
            old(self).wf(),
            old(self).mutex_valid(m as int),
            tid < old(self).n_threads(),
        ensures
            final(self).wf(),
            final(self).same_sem_cv(*old(self)),
            final(self).mutex_list@.len() == old(self).mutex_list@.len(),
            forall|j: int| 0 <= j < old(self).mutex_list@.len() && j != m ==> #[trigger] final(self).mutex_list@[j]
                == old(self).mutex_list@[j],
            final(self).mutex_valid(m as int),
            final(self).mutex_list@[m as int]->0.blocking == old(self).mutex_list@[m as int]->0.blocking,
            old(self).mutex_alloc@[m as int] is None ==> {
                &&& final(self).mutex_alloc@ == old(self).mutex_alloc@.update(m as int, Some(tid))
                &&& final(self).mutex_request@ == old(self).mutex_request@.update(tid as int, None)
                &&& final(self).mutex_waiters(m as int) == old(self).mutex_waiters(m as int)
            },
            old(self).mutex_alloc@[m as int] is Some ==> {
                &&& final(self).mutex_alloc@ == old(self).mutex_alloc@
                &&& final(self).mutex_request@ == old(self).mutex_request@.update(tid as int, Some(m))
                &&& final(self).mutex_waiters(m as int) == old(self).mutex_waiters(m as int).push(tid)
            },
    {
        if self.mutex_alloc[m].is_none() {
            self.hand_over(m, Some(tid));
        } else {
            let mut ms = self.mutex_list[m].take().unwrap();
            ms.wait_queue.push(tid);
            self.mutex_list.set(m, Some(ms));
            self.mutex_request.set(tid, Some(m));
            proof {
                let n = self.n_threads();
                assert forall|mm: int, i: int| 0 <= mm < self.mutex_list@.len() && self.mutex_list@[mm] is Some
                    && 0 <= i < self.mutex_list@[mm]->0.wait_queue@.len()
                    implies #[trigger] self.mutex_list@[mm]->0.wait_queue@[i] < n by {
                    if mm != m {
                        assert(self.mutex_list@[mm] == old(self).mutex_list@[mm]);
                        assert(old(self).mutex_list@[mm]->0.wait_queue@[i] < n);
                    } else if i < old(self).mutex_waiters(m as int).len() {
                        assert(self.mutex_list@[mm]->0.wait_queue@[i] == old(self).mutex_waiters(m as int)[i]);
                        assert(old(self).mutex_list@[mm]->0.wait_queue@[i] < n);
                    }
                }
                assert forall|t: int| 0 <= t < n && (#[trigger] self.mutex_request@[t]) is Some
                    implies self.mutex_request@[t]->0 < self.mutex_list@.len() by {
                    if t != tid {
                        assert(old(self).mutex_request@[t] == self.mutex_request@[t]);
                    }
                }
                assert forall|c: int, i: int| 0 <= c < self.condvar_list@.len() && self.condvar_list@[c] is Some
                    && 0 <= i < self.condvar_list@[c]->0.wait_queue@.len()
                    implies (#[trigger] self.condvar_list@[c]->0.wait_queue@[i]).0 < n
                        && self.mutex_valid(self.condvar_list@[c]->0.wait_queue@[i].1 as int) by {
                    assert(self.condvar_list@[c] == old(self).condvar_list@[c]);
                }
            }
        }
    }

    /// Mutex `m` goes to the first thread of its queue, or becomes free.
    fn release(&mut self, m: usize)
        requires
            old(self).wf(),
            old(self).mutex_valid(m as int),
        ensures
            final(self).wf(),
            final(self).same_sem_cv(*old(self)),
            final(self).mutex_list@.len() == old(self).mutex_list@.len(),
            forall|j: int| 0 <= j < old(self).mutex_list@.len() && j != m ==> #[trigger] final(self).mutex_list@[j]
                == old(self).mutex_list@[j],
            final(self).mutex_valid(m as int),
            final(self).mutex_list@[m as int]->0.blocking == old(self).mutex_list@[m as int]->0.blocking,
            old(self).mutex_waiters(m as int).len() == 0 ==> {
                &&& final(self).mutex_alloc@ == old(self).mutex_alloc@.update(m as int, None)
                &&& final(self).mutex_request@ == old(self).mutex_request@
                &&& final(self).mutex_waiters(m as int) == old(self).mutex_waiters(m as int)
            },
            old(self).mutex_waiters(m as int).len() > 0 ==> {
                let w = old(self).mutex_waiters(m as int)[0];
                &&& final(self).mutex_alloc@ == old(self).mutex_alloc@.update(m as int, Some(w))
                &&& final(self).mutex_request@ == old(self).mutex_request@.update(w as int, None)
                &&& final(self).mutex_waiters(m as int) == old(self).mutex_waiters(m as int).drop_first()
            },
    {
        let mut ms = self.mutex_list[m].take().unwrap();
        let w = if ms.wait_queue.len() > 0 {
            Some(ms.wait_queue.remove(0))
        } else {
            None
        };
        self.mutex_list.set(m, Some(ms));
        proof {
            let n = self.n_threads();
            assert(ms.wait_queue@ =~= if w is Some { old(self).mutex_waiters(m as int).drop_first() } else {
                old(self).mutex_waiters(m as int) });
            assert forall|mm: int, i: int| 0 <= mm < self.mutex_list@.len() && self.mutex_list@[mm] is Some
                && 0 <= i < self.mutex_list@[mm]->0.wait_queue@.len()
                implies #[trigger] self.mutex_list@[mm]->0.wait_queue@[i] < n by {
                if mm != m {
                    assert(self.mutex_list@[mm] == old(self).mutex_list@[mm]);
                    assert(old(self).mutex_list@[mm]->0.wait_queue@[i] < n);
                } else if w is Some {
                    assert(self.mutex_list@[mm]->0.wait_queue@[i] == old(self).mutex_waiters(m as int)[i + 1]);
                    assert(old(self).mutex_list@[mm]->0.wait_queue@[i + 1] < n);
                } else {
                    assert(self.mutex_list@[mm]->0.wait_queue@[i] == old(self).mutex_waiters(m as int)[i]);
                    assert(old(self).mutex_list@[mm]->0.wait_queue@[i] < n);
                }
            }
            if w is Some {
                assert(w->0 == old(self).mutex_waiters(m as int)[0]);
            }
            assert forall|c: int, i: int| 0 <= c < self.condvar_list@.len() && self.condvar_list@[c] is Some
                && 0 <= i < self.condvar_list@[c]->0.wait_queue@.len()
                implies (#[trigger] self.condvar_list@[c]->0.wait_queue@[i]).0 < n
                    && self.mutex_valid(self.condvar_list@[c]->0.wait_queue@[i].1 as int) by {
                assert(self.condvar_list@[c] == old(self).condvar_list@[c]);
            }
        }
        self.hand_over(m, w);
    }
}

/// Creates a mutex, spinning or blocking, in the first empty slot or a new
/// one at the end, and returns its id.
pub fn sys_mutex_create(st: &mut SyncTables, blocking: bool) -> (r: isize)
    requires
        old(st).wf(),
        old(st).mutex_list@.len() < isize::MAX,
    ensures
        final(st).wf(),
        final(st).same_sem_cv(*old(st)),
        final(st).mutex_request == old(st).mutex_request,
        0 <= r <= old(st).mutex_list@.len(),
        forall|j: int| 0 <= j < r ==> (#[trigger] old(st).mutex_list@[j]) is Some,
        r < old(st).mutex_list@.len() ==> old(st).mutex_list@[r as int] is None
            && final(st).mutex_list@.len() == old(st).mutex_list@.len(),
        r == old(st).mutex_list@.len() ==> final(st).mutex_list@.len() == old(st).mutex_list@.len() + 1,
        forall|j: int| 0 <= j < old(st).mutex_list@.len() && j != r ==> #[trigger] final(st).mutex_list@[j]
            == old(st).mutex_list@[j],
        final(st).mutex_valid(r as int),
        final(st).mutex_list@[r as int]->0.blocking == blocking,
        final(st).mutex_waiters(r as int).len() == 0,
        final(st).mutex_alloc@[r as int] is None,
        forall|j: int| 0 <= j < old(st).mutex_alloc@.len() && j != r ==> #[trigger] final(st).mutex_alloc@[j]
            == old(st).mutex_alloc@[j],
{
    let id = first_free(&st.mutex_list);
    let ms = MutexState { blocking, wait_queue: Vec::new() };
    if id < st.mutex_list.len() {
        st.mutex_list.set(id, Some(ms));
        st.mutex_alloc.set(id, None);
    } else {
        st.mutex_list.push(Some(ms));
        st.mutex_alloc.push(None);
    }
    proof {
        let n = st.n_threads();
        assert forall|m: int| 0 <= m < st.mutex_alloc@.len() && (#[trigger] st.mutex_alloc@[m]) is Some
            implies st.mutex_alloc@[m]->0 < n by {
            assert(st.mutex_alloc@[m] == old(st).mutex_alloc@[m]);
        }
        assert forall|t: int| 0 <= t < n && (#[trigger] st.mutex_request@[t]) is Some
            implies st.mutex_request@[t]->0 < st.mutex_list@.len() by {}
        assert forall|mm: int, i: int| 0 <= mm < st.mutex_list@.len() && st.mutex_list@[mm] is Some
            && 0 <= i < st.mutex_list@[mm]->0.wait_queue@.len()
            implies #[trigger] st.mutex_list@[mm]->0.wait_queue@[i] < n by {
            assert(mm != id);
            assert(st.mutex_list@[mm] == old(st).mutex_list@[mm]);
        }
        assert forall|c: int, i: int| 0 <= c < st.condvar_list@.len() && st.condvar_list@[c] is Some
            && 0 <= i < st.condvar_list@[c]->0.wait_queue@.len()
            implies (#[trigger] st.condvar_list@[c]->0.wait_queue@[i]).0 < n
                && st.mutex_valid(st.condvar_list@[c]->0.wait_queue@[i].1 as int) by {
            assert(st.condvar_list@[c] == old(st).condvar_list@[c]);
        }
    }
    id as isize
}

/// Thread `tid` asks for mutex `mutex_id`. With detection on, a request
/// whose wait-for walk runs into a cycle is refused with `DEADLOCK` and
/// changes nothing. Otherwise the thread takes the mutex if it is free, or
/// waits in its queue until an unlock hands it over; both return 0. An
/// unknown id gives -1.
pub fn sys_mutex_lock(st: &mut SyncTables, tid: usize, mutex_id: usize) -> (r: isize)
    requires
        old(st).wf(),
        tid < old(st).n_threads(),
    ensures
        final(st).wf(),
        !old(st).mutex_valid(mutex_id as int) ==> r == -1 && *final(st) == *old(st),
        old(st).mutex_valid(mutex_id as int) && old(st).deadlock_detection
            && deadlocked(old(st).mutex_request@.update(tid as int, Some(mutex_id)), old(st).mutex_alloc@, tid as int)
            ==> r == DEADLOCK && *final(st) == *old(st),
        old(st).mutex_valid(mutex_id as int) && !(old(st).deadlock_detection
            && deadlocked(old(st).mutex_request@.update(tid as int, Some(mutex_id)), old(st).mutex_alloc@, tid as int))
            ==> {
            &&& r == 0
            &&& final(st).same_sem_cv(*old(st))
            &&& forall|j: int| 0 <= j < old(st).mutex_list@.len() && j != mutex_id ==> #[trigger] final(st).mutex_list@[j]
                == old(st).mutex_list@[j]
            &&& old(st).mutex_alloc@[mutex_id as int] is None ==> {
                &&& final(st).mutex_alloc@ == old(st).mutex_alloc@.update(mutex_id as int, Some(tid))
                &&& final(st).mutex_request@ == old(st).mutex_request@.update(tid as int, None)
                &&& final(st).mutex_waiters(mutex_id as int) == old(st).mutex_waiters(mutex_id as int)
            }
            &&& old(st).mutex_alloc@[mutex_id as int] is Some ==> {
                &&& final(st).mutex_alloc@ == old(st).mutex_alloc@
                &&& final(st).mutex_request@ == old(st).mutex_request@.update(tid as int, Some(mutex_id))
                &&& final(st).mutex_waiters(mutex_id as int) == old(st).mutex_waiters(mutex_id as int).push(tid)
            }
        },
{
    if mutex_id >= st.mutex_list.len() || st.mutex_list[mutex_id].is_none() {
        return -1;
    }
    if st.deadlock_detection && st.would_deadlock(tid, mutex_id) {
        return DEADLOCK;
    }
    st.acquire_or_wait(tid, mutex_id);
    0
}

/// Unlocks mutex `mutex_id`: the first waiting thread gets it, or it
/// becomes free. An unknown id gives -1.
pub fn sys_mutex_unlock(st: &mut SyncTables, mutex_id: usize) -> (r: isize)
    requires
        old(st).wf(),
    ensures
        final(st).wf(),
        !old(st).mutex_valid(mutex_id as int) ==> r == -1 && *final(st) == *old(st),
        old(st).mutex_valid(mutex_id as int) ==> {
            &&& r == 0
            &&& final(st).same_sem_cv(*old(st))
            &&& forall|j: int| 0 <= j < old(st).mutex_list@.len() && j != mutex_id ==> #[trigger] final(st).mutex_list@[j]
                == old(st).mutex_list@[j]
            &&& old(st).mutex_waiters(mutex_id as int).len() == 0 ==> {
                &&& final(st).mutex_alloc@ == old(st).mutex_alloc@.update(mutex_id as int, None)
                &&& final(st).mutex_request@ == old(st).mutex_request@
            }
            &&& old(st).mutex_waiters(mutex_id as int).len() > 0 ==> {
                let w = old(st).mutex_waiters(mutex_id as int)[0];
                &&& final(st).mutex_alloc@ == old(st).mutex_alloc@.update(mutex_id as int, Some(w))
                &&& final(st).mutex_request@ == old(st).mutex_request@.update(w as int, None)
                &&& final(st).mutex_waiters(mutex_id as int) == old(st).mutex_waiters(mutex_id as int).drop_first()
            }
        },
{
    if mutex_id >= st.mutex_list.len() || st.mutex_list[mutex_id].is_none() {
        return -1;
    }
    st.release(mutex_id);
    0
}

/// Turns deadlock detection off (0) or on (1); any other value gives -1.
pub fn sys_enable_deadlock_detect(st: &mut SyncTables, enabled: usize) -> (r: isize)
    requires
        old(st).wf(),
    ensures
        final(st).wf(),
        enabled == 0 ==> r == 0 && *final(st) == (SyncTables { deadlock_detection: false, ..*old(st) }),
        enabled == 1 ==> r == 0 && *final(st) == (SyncTables { deadlock_detection: true, ..*old(st) }),
        enabled > 1 ==> r == -1 && *final(st) == *old(st),
{
    if enabled == 0 {
        st.deadlock_detection = false;
        0
    } else if enabled == 1 {
        st.deadlock_detection = true;
        0
    } else {
        -1
    }
}

/// Creates a condition variable in the first empty slot or a new one at the
/// end, and returns its id.
pub fn sys_condvar_create(st: &mut SyncTables) -> (r: isize)
    requires
        old(st).wf(),
        old(st).condvar_list@.len() < isize::MAX,
    ensures
        final(st).wf(),
        0 <= r <= old(st).condvar_list@.len(),
        forall|j: int| 0 <= j < r ==> (#[trigger] old(st).condvar_list@[j]) is Some,
        r < old(st).condvar_list@.len() ==> old(st).condvar_list@[r as int] is None
            && final(st).condvar_list@.len() == old(st).condvar_list@.len(),
        r == old(st).condvar_list@.len() ==> final(st).condvar_list@.len() == old(st).condvar_list@.len() + 1,
        forall|j: int| 0 <= j < old(st).condvar_list@.len() && j != r ==> #[trigger] final(st).condvar_list@[j]
            == old(st).condvar_list@[j],
        final(st).condvar_valid(r as int),
        final(st).condvar_list@[r as int]->0.wait_queue@.len() == 0,
        *final(st) == (SyncTables { condvar_list: final(st).condvar_list, ..*old(st) }),
{
    let id = first_free(&st.condvar_list);
    let cv = CondvarState { wait_queue: Vec::new() };
    if id < st.condvar_list.len() {
        st.condvar_list.set(id, Some(cv));
    } else {
        st.condvar_list.push(Some(cv));
    }
    proof {
        let n = st.n_threads();
        assert forall|c: int, i: int| 0 <= c < st.condvar_list@.len() && st.condvar_list@[c] is Some
            && 0 <= i < st.condvar_list@[c]->0.wait_queue@.len()
            implies (#[trigger] st.condvar_list@[c]->0.wait_queue@[i]).0 < n
                && st.mutex_valid(st.condvar_list@[c]->0.wait_queue@[i].1 as int) by {
            assert(c != id);
            assert(st.condvar_list@[c] == old(st).condvar_list@[c]);
        }
    }
    id as isize
}

/// Wakes the first thread waiting on condition variable `condvar_id`, if
/// any: it takes back the mutex it gave up, or waits in that mutex's queue.
/// An unknown id gives -1.
pub fn sys_condvar_signal(st: &mut SyncTables, condvar_id: usize) -> (r: isize)
    requires
        old(st).wf(),
    ensures
        final(st).wf(),
        !old(st).condvar_valid(condvar_id as int) ==> r == -1 && *final(st) == *old(st),
        old(st).condvar_valid(condvar_id as int) ==> r == 0,
        old(st).condvar_valid(condvar_id as int) && old(st).condvar_list@[condvar_id as int]->0.wait_queue@.len() == 0
            ==> *final(st) == *old(st),
        old(st).condvar_valid(condvar_id as int) && old(st).condvar_list@[condvar_id as int]->0.wait_queue@.len() > 0
            ==> {
            let (w, m) = old(st).condvar_list@[condvar_id as int]->0.wait_queue@[0];
            &&& final(st).condvar_list@[condvar_id as int]->0.wait_queue@
                == old(st).condvar_list@[condvar_id as int]->0.wait_queue@.drop_first()
            &&& forall|c: int| 0 <= c < old(st).condvar_list@.len() && c != condvar_id
                ==> #[trigger] final(st).condvar_list@[c] == old(st).condvar_list@[c]
            &&& final(st).semaphore_list == old(st).semaphore_list
            &&& final(st).semaphore_available == old(st).semaphore_available
            &&& final(st).semaphore_alloc == old(st).semaphore_alloc
            &&& final(st).semaphore_request == old(st).semaphore_request
            &&& forall|j: int| 0 <= j < old(st).mutex_list@.len() && j != m ==> #[trigger] final(st).mutex_list@[j]
                == old(st).mutex_list@[j]
            &&& old(st).mutex_alloc@[m as int] is None ==> {
                &&& final(st).mutex_alloc@ == old(st).mutex_alloc@.update(m as int, Some(w))
                &&& final(st).mutex_request@ == old(st).mutex_request@.update(w as int, None)
                &&& final(st).mutex_waiters(m as int) == old(st).mutex_waiters(m as int)
            }
            &&& old(st).mutex_alloc@[m as int] is Some ==> {
                &&& final(st).mutex_alloc@ == old(st).mutex_alloc@
                &&& final(st).mutex_request@ == old(st).mutex_request@.update(w as int, Some(m))
                &&& final(st).mutex_waiters(m as int) == old(st).mutex_waiters(m as int).push(w)
            }
        },
{
    if condvar_id >= st.condvar_list.len() || st.condvar_list[condvar_id].is_none() {
        return -1;
    }
    if st.condvar_list[condvar_id].as_ref().unwrap().wait_queue.len() == 0 {
        return 0;
    }
    let ghost st0 = *st;
    let mut cv = st.condvar_list[condvar_id].take().unwrap();
    let (w, m) = cv.wait_queue.remove(0);
    st.condvar_list.set(condvar_id, Some(cv));
    proof {
        let n = st.n_threads();
        let q0 = st0.condvar_list@[condvar_id as int]->0.wait_queue@;
        assert(cv.wait_queue@ =~= q0.drop_first());
        assert(q0[0] == (w, m));
        assert forall|c: int, i: int| 0 <= c < st.condvar_list@.len() && st.condvar_list@[c] is Some
            && 0 <= i < st.condvar_list@[c]->0.wait_queue@.len()
            implies (#[trigger] st.condvar_list@[c]->0.wait_queue@[i]).0 < n
                && st.mutex_valid(st.condvar_list@[c]->0.wait_queue@[i].1 as int) by {
            if c != condvar_id {
                assert(st.condvar_list@[c] == old(st).condvar_list@[c]);
            } else {
                assert(st.condvar_list@[c]->0.wait_queue@[i] == q0[i + 1]);
            }
        }
        assert(w < n && st.mutex_valid(m as int));
    }
    st.acquire_or_wait(w, m);
    0
}

/// Thread `tid` gives up mutex `mutex_id` (its first waiter gets it, or it
/// becomes free) and waits on condition variable `condvar_id` until a
/// signal. An unknown id of either gives -1.
pub fn sys_condvar_wait(st: &mut SyncTables, tid: usize, condvar_id: usize, mutex_id: usize) -> (r: isize)
    requires
        old(st).wf(),
        tid < old(st).n_threads(),
    ensures
        final(st).wf(),
        !(old(st).condvar_valid(condvar_id as int) && old(st).mutex_valid(mutex_id as int))
            ==> r == -1 && *final(st) == *old(st),
        old(st).condvar_valid(condvar_id as int) && old(st).mutex_valid(mutex_id as int) ==> {
            &&& r == 0
            &&& final(st).condvar_list@[condvar_id as int]->0.wait_queue@
                == old(st).condvar_list@[condvar_id as int]->0.wait_queue@.push((tid, mutex_id))
            &&& final(st).condvar_valid(condvar_id as int)
            &&& final(st).condvar_list@.len() == old(st).condvar_list@.len()
            &&& forall|c: int| 0 <= c < old(st).condvar_list@.len() && c != condvar_id
                ==> #[trigger] final(st).condvar_list@[c] == old(st).condvar_list@[c]
            &&& final(st).semaphore_list == old(st).semaphore_list
            &&& final(st).semaphore_available == old(st).semaphore_available
            &&& final(st).semaphore_alloc == old(st).semaphore_alloc
            &&& final(st).semaphore_request == old(st).semaphore_request
            &&& forall|j: int| 0 <= j < old(st).mutex_list@.len() && j != mutex_id ==> #[trigger] final(st).mutex_list@[j]
                == old(st).mutex_list@[j]
            &&& old(st).mutex_waiters(mutex_id as int).len() == 0 ==> {
                &&& final(st).mutex_alloc@ == old(st).mutex_alloc@.update(mutex_id as int, None)
                &&& final(st).mutex_request@ == old(st).mutex_request@
            }
            &&& old(st).mutex_waiters(mutex_id as int).len() > 0 ==> {
                let w = old(st).mutex_waiters(mutex_id as int)[0];
                &&& final(st).mutex_alloc@ == old(st).mutex_alloc@.update(mutex_id as int, Some(w))
                &&& final(st).mutex_request@ == old(st).mutex_request@.update(w as int, None)
                &&& final(st).mutex_waiters(mutex_id as int) == old(st).mutex_waiters(mutex_id as int).drop_first()
            }
        },
{
    if condvar_id >= st.condvar_list.len() || st.condvar_list[condvar_id].is_none() {
        return -1;
    }
    if mutex_id >= st.mutex_list.len() || st.mutex_list[mutex_id].is_none() {
        return -1;
    }
    st.release(mutex_id);
    let ghost st1 = *st;
    let mut cv = st.condvar_list[condvar_id].take().unwrap();
    cv.wait_queue.push((tid, mutex_id));
    st.condvar_list.set(condvar_id, Some(cv));
    proof {
        let n = st.n_threads();
        let q0 = st1.condvar_list@[condvar_id as int]->0.wait_queue@;
        assert forall|c: int, i: int| 0 <= c < st.condvar_list@.len() && st.condvar_list@[c] is Some
            && 0 <= i < st.condvar_list@[c]->0.wait_queue@.len()
            implies (#[trigger] st.condvar_list@[c]->0.wait_queue@[i]).0 < n
                && st.mutex_valid(st.condvar_list@[c]->0.wait_queue@[i].1 as int) by {
            if c != condvar_id {
                assert(st.condvar_list@[c] == st1.condvar_list@[c]);
            } else if i < q0.len() {
                assert(st.condvar_list@[c]->0.wait_queue@[i] == q0[i]);
            }
        }
    }
    0
}

/// Sets cell `(t, s)` of `m` to `v`.
fn set_cell(m: &mut Vec<Vec<usize>>, t: usize, s: usize, v: usize)
    requires
        t < old(m)@.len(),
        s < old(m)@[t as int]@.len(),
    ensures
        final(m)@.len() == old(m)@.len(),
        rows(final(m)@) == rows(old(m)@).update(t as int, old(m)@[t as int]@.update(s as int, v)),
{
    let mut row: Vec<usize> = Vec::new();
    std::mem::swap(&mut row, &mut m[t]);
    row.set(s, v);
    m.set(t, row);
    proof {
        assert(rows(m@) =~= rows(old(m)@).update(t as int, old(m)@[t as int]@.update(s as int, v)));
    }
}

/// Sets column `s` of every row of `m` to `v`, or appends `v` to every row
/// when `s` is the rows' length.
fn set_column(m: &mut Vec<Vec<usize>>, s: usize, v: usize)
    requires
        forall|t: int| 0 <= t < old(m)@.len() ==> s <= (#[trigger] old(m)@[t])@.len(),
    ensures
        final(m)@.len() == old(m)@.len(),
        forall|t: int| 0 <= t < old(m)@.len() ==> (#[trigger] final(m)@[t])@ == if s < old(m)@[t]@.len() {
            old(m)@[t]@.update(s as int, v)
        } else {
            old(m)@[t]@.push(v)
        },
{
    let mut t: usize = 0;
    while t < m.len()
        invariant
            t <= m@.len(),
            m@.len() == old(m)@.len(),
            forall|u: int| 0 <= u < t ==> (#[trigger] m@[u])@ == if s < old(m)@[u]@.len() {
                old(m)@[u]@.update(s as int, v)
            } else {
                old(m)@[u]@.push(v)
            },
            forall|u: int| t <= u < m@.len() ==> #[trigger] m@[u] == old(m)@[u],
            forall|u: int| 0 <= u < old(m)@.len() ==> s <= (#[trigger] old(m)@[u])@.len(),
        decreases m@.len() - t,
    {
        let mut row: Vec<usize> = Vec::new();
        std::mem::swap(&mut row, &mut m[t]);
        if s < row.len() {
            row.set(s, v);
        } else {
            row.push(v);
        }
        m.set(t, row);
        t = t + 1;
    }
}

/// A copy of `row` with entry `s` set to `v`.
fn copy_with(row: &Vec<usize>, s: usize, v: usize) -> (r: Vec<usize>)
    ensures
        r@ == if s < row@.len() { row@.update(s as int, v) } else { row@ },
{
    let mut r: Vec<usize> = Vec::new();
    let mut i: usize = 0;
    while i < row.len()
        invariant
            i <= row@.len(),
            r@.len() == i,
            forall|j: int| 0 <= j < i ==> #[trigger] r@[j] == if j == s { v } else { row@[j] },
        decreases row@.len() - i,
    {
        if i == s {
            r.push(v);
        } else {
            r.push(row[i]);
        }
        i = i + 1;
    }
    proof {
        assert(r@ =~= if s < row@.len() { row@.update(s as int, v) } else { row@ });
    }
    r
}

impl SyncTables {
    /// Mutexes and condition variables are as in `o`.
    pub open spec fn same_mutex_cv(self, o: SyncTables) -> bool {
        &&& self.mutex_list == o.mutex_list
        &&& self.mutex_request == o.mutex_request
        &&& self.mutex_alloc == o.mutex_alloc
        &&& self.condvar_list == o.condvar_list
        &&& self.deadlock_detection == o.deadlock_detection
    }

    /// Units of each semaphore held, by thread.
    pub open spec fn sem_alloc(self) -> Seq<Seq<usize>> {
        rows(self.semaphore_alloc@)
    }

    /// Units of each semaphore waited for, by thread.
    pub open spec fn sem_request(self) -> Seq<Seq<usize>> {
        rows(self.semaphore_request@)
    }

    /// The waiters of semaphore `id`.
    pub open spec fn sem_waiters(self, id: int) -> Seq<usize> {
        self.semaphore_list@[id]->0.wait_queue@
    }

    /// Whether the state stays safe with thread `tid` waiting for one more
    /// unit of semaphore `sid`.
    pub open spec fn down_is_safe(self, tid: int, sid: int) -> bool {
        safe(
            self.semaphore_available@,
            self.sem_alloc(),
            with_row(self.sem_request(), tid, self.sem_request()[tid].update(sid, 1)),
        )
    }
}

/// Creates a semaphore with `res_count` free units in the first empty slot
/// or a new one at the end, and returns its id. No thread holds or waits
/// for any unit of it.
pub fn sys_semaphore_create(st: &mut SyncTables, res_count: usize) -> (r: isize)
    requires
        old(st).wf(),
        old(st).semaphore_list@.len() < isize::MAX,
    ensures
        final(st).wf(),
        final(st).same_mutex_cv(*old(st)),
        0 <= r <= old(st).semaphore_list@.len(),
        forall|j: int| 0 <= j < r ==> (#[trigger] old(st).semaphore_list@[j]) is Some,
        r < old(st).semaphore_list@.len() ==> old(st).semaphore_list@[r as int] is None,
        final(st).semaphore_list@.len() == if r < old(st).semaphore_list@.len() {
            old(st).semaphore_list@.len()
        } else {
            old(st).semaphore_list@.len() + 1
        },
        forall|j: int| 0 <= j < old(st).semaphore_list@.len() && j != r ==> #[trigger] final(st).semaphore_list@[j]
            == old(st).semaphore_list@[j],
        final(st).semaphore_valid(r as int),
        final(st).sem_waiters(r as int).len() == 0,
        final(st).semaphore_available@ == if r < old(st).semaphore_list@.len() {
            old(st).semaphore_available@.update(r as int, res_count)
        } else {
            old(st).semaphore_available@.push(res_count)
        },
        forall|t: int| 0 <= t < old(st).n_threads() ==> (#[trigger] final(st).sem_alloc()[t]) == if r
            < old(st).semaphore_list@.len() {
            old(st).sem_alloc()[t].update(r as int, 0)
        } else {
            old(st).sem_alloc()[t].push(0)
        },
        forall|t: int| 0 <= t < old(st).n_threads() ==> (#[trigger] final(st).sem_request()[t]) == if r
            < old(st).semaphore_list@.len() {
            old(st).sem_request()[t].update(r as int, 0)
        } else {
            old(st).sem_request()[t].push(0)
        },
{
    let id = first_free(&st.semaphore_list);
    let sem = SemaphoreState { wait_queue: Vec::new() };
    if id < st.semaphore_list.len() {
        st.semaphore_list.set(id, Some(sem));
        st.semaphore_available.set(id, res_count);
    } else {
        st.semaphore_list.push(Some(sem));
        st.semaphore_available.push(res_count);
    }
    set_column(&mut st.semaphore_alloc, id, 0);
    set_column(&mut st.semaphore_request, id, 0);
    proof {
        let n = st.n_threads();
        let ns = st.semaphore_list@.len();
        assert forall|t: int| 0 <= t < n implies (#[trigger] st.semaphore_alloc@[t])@.len() == ns by {}
        assert forall|t: int| 0 <= t < n implies (#[trigger] st.semaphore_request@[t])@.len() == ns by {}
        assert forall|ss: int, i: int| 0 <= ss < ns && st.semaphore_list@[ss] is Some
            && 0 <= i < st.semaphore_list@[ss]->0.wait_queue@.len()
            implies #[trigger] st.semaphore_list@[ss]->0.wait_queue@[i] < n by {
            assert(ss != id);
            assert(st.semaphore_list@[ss] == old(st).semaphore_list@[ss]);
        }
    }
    id as isize
}

/// Thread `tid` gives back one unit of semaphore `sem_id` (its count of
/// held units drops by one if it had any). The first waiting thread gets
/// the unit; with none waiting, the free count grows. An unknown id, or a
/// count that would pass `usize::MAX`, gives -1 and changes nothing.
pub fn sys_semaphore_up(st: &mut SyncTables, tid: usize, sem_id: usize) -> (r: isize)
    requires
        old(st).wf(),
        tid < old(st).n_threads(),
    ensures
        final(st).wf(),
        r == 0 || r == -1,
        r == -1 <==> !old(st).semaphore_valid(sem_id as int) || (
            if old(st).sem_waiters(sem_id as int).len() == 0 {
                old(st).semaphore_available@[sem_id as int] == usize::MAX
            } else {
                old(st).sem_alloc()[old(st).sem_waiters(sem_id as int)[0] as int][sem_id as int] == usize::MAX
            }),
        r == -1 ==> *final(st) == *old(st),
        r == 0 ==> {
            let s = sem_id as int;
            let t = tid as int;
            let a = old(st).sem_alloc();
            let a1 = if a[t][s] > 0 { a.update(t, a[t].update(s, (a[t][s] - 1) as usize)) } else { a };
            &&& final(st).same_mutex_cv(*old(st))
            &&& final(st).semaphore_list@.len() == old(st).semaphore_list@.len()
            &&& forall|j: int| 0 <= j < old(st).semaphore_list@.len() && j != s ==> #[trigger] final(st).semaphore_list@[j]
                == old(st).semaphore_list@[j]
            &&& final(st).semaphore_valid(s)
            &&& old(st).sem_waiters(s).len() == 0 ==> {
                &&& final(st).semaphore_available@ == old(st).semaphore_available@.update(s,
                    (old(st).semaphore_available@[s] + 1) as usize)
                &&& final(st).sem_alloc() == a1
                &&& final(st).sem_request() == old(st).sem_request()
                &&& final(st).sem_waiters(s) == old(st).sem_waiters(s)
            }
            &&& old(st).sem_waiters(s).len() > 0 ==> {
                let w = old(st).sem_waiters(s)[0] as int;
                let q = old(st).sem_request();
                &&& final(st).semaphore_available@ == old(st).semaphore_available@
                &&& final(st).sem_alloc() == a1.update(w, a1[w].update(s, (a1[w][s] + 1) as usize))
                &&& final(st).sem_request() == q.update(w, q[w].update(s, 0))
                &&& final(st).sem_waiters(s) == old(st).sem_waiters(s).drop_first()
            }
        },
{
    if sem_id >= st.semaphore_list.len() || st.semaphore_list[sem_id].is_none() {
        return -1;
    }
    let nw = st.semaphore_list[sem_id].as_ref().unwrap().wait_queue.len();
    proof {
        assert(st.sem_alloc()[tid as int] == st.semaphore_alloc@[tid as int]@);
    }
    if nw == 0 {
        if st.semaphore_available[sem_id] == usize::MAX {
            return -1;
        }
        let held = st.semaphore_alloc[tid][sem_id];
        if held > 0 {
            set_cell(&mut st.semaphore_alloc, tid, sem_id, held - 1);
        }
        let c = st.semaphore_available[sem_id];
        st.semaphore_available.set(sem_id, c + 1);
        proof {
            let n = st.n_threads();
            let ns = st.semaphore_list@.len();
            assert forall|t: int| 0 <= t < n implies (#[trigger] st.semaphore_alloc@[t])@.len() == ns by {
                assert(st.sem_alloc()[t] == st.semaphore_alloc@[t]@);
                assert(old(st).sem_alloc()[t] == old(st).semaphore_alloc@[t]@);
            }
        }
        0
    } else {
        let w = st.semaphore_list[sem_id].as_ref().unwrap().wait_queue[0];
        proof {
            assert(st.sem_alloc()[w as int] == st.semaphore_alloc@[w as int]@);
            assert(st.sem_request()[w as int] == st.semaphore_request@[w as int]@);
        }
        if st.semaphore_alloc[w][sem_id] == usize::MAX {
            return -1;
        }
        let ghost st0 = *st;
        let mut sem = st.semaphore_list[sem_id].take().unwrap();
        sem.wait_queue.remove(0);
        st.semaphore_list.set(sem_id, Some(sem));
        let held = st.semaphore_alloc[tid][sem_id];
        if held > 0 {
            set_cell(&mut st.semaphore_alloc, tid, sem_id, held - 1);
        }
        proof {
            assert(st.sem_alloc()[w as int] == st.semaphore_alloc@[w as int]@);
        }
        let got = st.semaphore_alloc[w][sem_id];
        set_cell(&mut st.semaphore_alloc, w, sem_id, got + 1);
        set_cell(&mut st.semaphore_request, w, sem_id, 0);
        proof {
            let n = st.n_threads();
            let ns = st.semaphore_list@.len();
            let q0 = st0.sem_waiters(sem_id as int);
            assert(sem.wait_queue@ =~= q0.drop_first());
            assert forall|t: int| 0 <= t < n implies (#[trigger] st.semaphore_alloc@[t])@.len() == ns by {
                assert(st.sem_alloc()[t] == st.semaphore_alloc@[t]@);
                assert(old(st).sem_alloc()[t] == old(st).semaphore_alloc@[t]@);
            }
            assert forall|t: int| 0 <= t < n implies (#[trigger] st.semaphore_request@[t])@.len() == ns by {
                assert(st.sem_request()[t] == st.semaphore_request@[t]@);
                assert(old(st).sem_request()[t] == old(st).semaphore_request@[t]@);
            }
            assert forall|ss: int, i: int| 0 <= ss < ns && st.semaphore_list@[ss] is Some
                && 0 <= i < st.semaphore_list@[ss]->0.wait_queue@.len()
                implies #[trigger] st.semaphore_list@[ss]->0.wait_queue@[i] < n by {
                if ss != sem_id {
                    assert(st.semaphore_list@[ss] == old(st).semaphore_list@[ss]);
                    assert(old(st).semaphore_list@[ss]->0.wait_queue@[i] < n);
                } else {
                    assert(st.semaphore_list@[ss]->0.wait_queue@[i] == q0[i + 1]);
                    assert(old(st).semaphore_list@[ss]->0.wait_queue@[i + 1] < n);
                }
            }
        }
        0
    }
}

/// Thread `tid` asks for one unit of semaphore `sem_id`. With detection on,
/// a request after which not every thread could finish is refused with
/// `DEADLOCK` and changes nothing. Otherwise the thread takes a free unit,
/// or waits in the queue until an up hands it one; both return 0. An
/// unknown id, or a held count at `usize::MAX`, gives -1.
pub fn sys_semaphore_down(st: &mut SyncTables, tid: usize, sem_id: usize) -> (r: isize)
    requires
        old(st).wf(),
        tid < old(st).n_threads(),
    ensures
        final(st).wf(),
        ({
            let s = sem_id as int;
            let t = tid as int;
            let ok = old(st).semaphore_valid(s) && old(st).sem_alloc()[t][s] < usize::MAX;
            &&& !ok ==> r == -1 && *final(st) == *old(st)
            &&& ok && old(st).deadlock_detection && !old(st).down_is_safe(t, s) ==> r == DEADLOCK
                && *final(st) == *old(st)
            &&& ok && !(old(st).deadlock_detection && !old(st).down_is_safe(t, s)) ==> {
                let a = old(st).sem_alloc();
                let q = old(st).sem_request();
                let c = old(st).semaphore_available@[s];
                &&& r == 0
                &&& final(st).same_mutex_cv(*old(st))
                &&& final(st).semaphore_list@.len() == old(st).semaphore_list@.len()
                &&& forall|j: int| 0 <= j < old(st).semaphore_list@.len() && j != s
                    ==> #[trigger] final(st).semaphore_list@[j] == old(st).semaphore_list@[j]
                &&& final(st).semaphore_valid(s)
                &&& c > 0 ==> {
                    &&& final(st).semaphore_available@ == old(st).semaphore_available@.update(s, (c - 1) as usize)
                    &&& final(st).sem_alloc() == a.update(t, a[t].update(s, (a[t][s] + 1) as usize))
                    &&& final(st).sem_request() == q
                    &&& final(st).sem_waiters(s) == old(st).sem_waiters(s)
                }
                &&& c == 0 ==> {
                    &&& final(st).semaphore_available@ == old(st).semaphore_available@
                    &&& final(st).sem_alloc() == a
                    &&& final(st).sem_request() == q.update(t, q[t].update(s, 1))
                    &&& final(st).sem_waiters(s) == old(st).sem_waiters(s).push(tid)
                }
            }
        }),
{
    if sem_id >= st.semaphore_list.len() || st.semaphore_list[sem_id].is_none() {
        return -1;
    }
    proof {
        assert(st.sem_alloc()[tid as int] == st.semaphore_alloc@[tid as int]@);
        assert(st.sem_request()[tid as int] == st.semaphore_request@[tid as int]@);
    }
    if st.semaphore_alloc[tid][sem_id] == usize::MAX {
        return -1;
    }
    if st.deadlock_detection {
        let row = copy_with(&st.semaphore_request[tid], sem_id, 1);
        if !is_safe(&st.semaphore_available, &st.semaphore_alloc, &st.semaphore_request, tid, &row) {
            return DEADLOCK;
        }
    }
    let c = st.semaphore_available[sem_id];
    if c > 0 {
        st.semaphore_available.set(sem_id, c - 1);
        let held = st.semaphore_alloc[tid][sem_id];
        set_cell(&mut st.semaphore_alloc, tid, sem_id, held + 1);
        proof {
            let n = st.n_threads();
            let ns = st.semaphore_list@.len();
            assert forall|t: int| 0 <= t < n implies (#[trigger] st.semaphore_alloc@[t])@.len() == ns by {
                assert(st.sem_alloc()[t] == st.semaphore_alloc@[t]@);
                assert(old(st).sem_alloc()[t] == old(st).semaphore_alloc@[t]@);
            }
        }
    } else {
        let ghost st0 = *st;
        let mut sem = st.semaphore_list[sem_id].take().unwrap();
        sem.wait_queue.push(tid);
        st.semaphore_list.set(sem_id, Some(sem));
        set_cell(&mut st.semaphore_request, tid, sem_id, 1);
        proof {
            let n = st.n_threads();
            let ns = st.semaphore_list@.len();
            let q0 = st0.sem_waiters(sem_id as int);
            assert forall|t: int| 0 <= t < n implies (#[trigger] st.semaphore_request@[t])@.len() == ns by {
                assert(st.sem_request()[t] == st.semaphore_request@[t]@);
                assert(old(st).sem_request()[t] == old(st).semaphore_request@[t]@);
            }
            assert forall|ss: int, i: int| 0 <= ss < ns && st.semaphore_list@[ss] is Some
                && 0 <= i < st.semaphore_list@[ss]->0.wait_queue@.len()
                implies #[trigger] st.semaphore_list@[ss]->0.wait_queue@[i] < n by {
                if ss != sem_id {
                    assert(st.semaphore_list@[ss] == old(st).semaphore_list@[ss]);
                    assert(old(st).semaphore_list@[ss]->0.wait_queue@[i] < n);
                } else if i < q0.len() {
                    assert(st.semaphore_list@[ss]->0.wait_queue@[i] == q0[i]);
                    assert(old(st).semaphore_list@[ss]->0.wait_queue@[i] < n);
                }
            }
        }
    }
    0
}

} // verus!
