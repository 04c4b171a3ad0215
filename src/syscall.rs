//! The system calls on memory, the heap, scheduling, time and task
//! statistics. Each takes the kernel state it works on and returns the
//! code the calling program sees.
use vstd::prelude::*;
use crate::memory::MemorySet;
use crate::page_table::VPN_LIMIT;
use crate::pte::{lemma_pte_of, PTE_R, PTE_U, PTE_V, PTE_W};
use crate::task::{TaskControlBlock, TaskManager, TaskStatus, picked, charged};

verus! {

/// Bytes in a page.
pub const PAGE_SIZE: usize = 4096;

/// A time as seconds and microseconds.
pub struct TimeVal {
    pub sec: usize,
    pub usec: usize,
}

/// What a task reports of itself.
pub struct TaskInfo {
    /// Where the task is in its life cycle.
    pub status: TaskStatus,
    /// How many times the task made each system call.
    pub syscall_times: Vec<u32>,
    /// How long the task has run, in milliseconds.
    pub time: usize,
}

/// The leaf permission that an `mmap` port asks for: its read, write and
/// execute bits, and user access.
pub open spec fn port_perm(port: usize) -> u8 {
    (((port & 7) * 2) as u8) | PTE_U
}

/// Whether `port` sets some of read, write and execute, and nothing else.
pub open spec fn port_ok(port: usize) -> bool {
    port & !7usize == 0 && port & 7 != 0
}

/// Pages that `len` bytes take, a last partial page counted whole.
pub open spec fn pages_of(len: usize) -> nat {
    (len / PAGE_SIZE + if len % PAGE_SIZE == 0 { 0int } else { 1int }) as nat
}

/// Maps `[start, start + len)`, `len` rounded up to whole pages, each page
/// to a fresh frame with the permission of `port` and user access, as a new
/// region. Returns 0 on success, and at once, changing nothing, for an
/// empty range. Returns -1, changing nothing, when `start` is not page
/// aligned, `port` is not valid, the range leaves the address space or a
/// page of it is already mapped; -1 too when frames run out on the way,
/// after the pages mapped so far are unmapped again. Three free frames per
/// page always suffice.
pub fn sys_mmap(ms: &mut MemorySet, start: usize, len: usize, port: usize) -> (r: isize)
    requires
        old(ms).wf(),
    ensures
        final(ms).wf(),
        r == 0 || r == -1,
        ({
            let sv = start / PAGE_SIZE;
            let np = pages_of(len);
            let ok = {
                &&& start % PAGE_SIZE == 0
                &&& port_ok(port)
                &&& sv + np <= VPN_LIMIT || np == 0
                &&& forall|v: nat| sv <= v < sv + np ==> !#[trigger] old(ms).lookup_valid(v)
            };
            &&& r == 0 ==> ok
            &&& ok && old(ms).frame_allocator.free_count() >= 3 * np ==> r == 0
            &&& !ok || len == 0 ==> *final(ms) == *old(ms)
        }),
        r == 0 && len > 0 ==> old(ms).mmap_result(*final(ms), (start / PAGE_SIZE) as nat,
            (start / PAGE_SIZE + pages_of(len)) as nat, port_perm(port)),
        r == -1 ==> final(ms).areas == old(ms).areas && final(ms).spare() == old(ms).spare()
            && forall|v: nat| #[trigger] final(ms).page_table.lookup(v) == old(ms).page_table.lookup(v),
{
    if start % PAGE_SIZE != 0 {
        return -1;
    }
    if port & !7usize != 0 || port & 7 == 0 {
        return -1;
    }
    if len == 0 {
        return 0;
    }
    let npages = len / PAGE_SIZE + if len % PAGE_SIZE == 0 { 0 } else { 1 };
    assert(port & 7 <= 7) by (bit_vector);
    let perm = (((port & 7) * 2) as u8) | PTE_U;
    if ms.mmap(start / PAGE_SIZE, npages, perm) {
        0
    } else {
        -1
    }
}

/// Unmaps the pages `[start, start + len)`, `len` rounded up to whole
/// pages, and frees their frames; each region the range touches keeps its
/// pages outside the range. Returns 0 on success; -1, changing nothing,
/// when `start` is not page aligned or a page of the range is not mapped.
pub fn sys_munmap(ms: &mut MemorySet, start: usize, len: usize) -> (r: isize)
    requires
        old(ms).wf(),
    ensures
        final(ms).wf(),
        r == 0 || r == -1,
        ({
            let sv = start / PAGE_SIZE;
            let ev = sv + pages_of(len);
            &&& r == 0 <==> start % PAGE_SIZE == 0
                && forall|v: nat| sv <= v < ev ==> #[trigger] old(ms).lookup_valid(v)
            &&& r == 0 ==> old(ms).unmap_result(*final(ms), sv as nat, ev as nat)
        }),
        r == -1 ==> *final(ms) == *old(ms),
{
    if start % PAGE_SIZE != 0 {
        return -1;
    }
    let sv = start / PAGE_SIZE;
    let ev = sv + (len / PAGE_SIZE + if len % PAGE_SIZE == 0 { 0 } else { 1 });
    if ms.munmap(sv, ev) {
        0
    } else {
        -1
    }
}

/// Sets the running task's priority to `prio` and returns it; a `prio` of
/// 1 or less gives -1 and changes nothing.
pub fn sys_set_priority(current: &mut TaskControlBlock, prio: isize) -> (r: isize)
    ensures
        prio <= 1 ==> r == -1 && *final(current) == *old(current),
        prio > 1 ==> r == prio && *final(current) == (TaskControlBlock { priority: prio as u64, ..*old(current) }),
{
    if prio <= 1 {
        -1
    } else {
        current.priority = prio as u64;
        prio
    }
}

/// The running task gives up the processor: it goes back to the ready queue
/// and the first task of least stride there is taken out, charged, and
/// returned to run next.
pub fn sys_yield(manager: &mut TaskManager, current: TaskControlBlock) -> (next: TaskControlBlock)
    requires
        old(manager).wf(),
        current.priority > 0,
    ensures
        final(manager).wf(),
        ({
            let q = old(manager).ready_queue@.push(TaskControlBlock { task_status: TaskStatus::Ready, ..current });
            &&& final(manager).ready_queue@ == q.remove(picked(q))
            &&& next == TaskControlBlock { task_status: TaskStatus::Running, ..charged(q[picked(q)]) }
        }),
{
    let mut t = current;
    t.task_status = TaskStatus::Ready;
    manager.add(t);
    match manager.fetch() {
        Some(n) => {
            let mut n = n;
            n.task_status = TaskStatus::Running;
            n
        },
        None => {
            proof {
                assert(false);
            }
            t
        },
    }
}

/// The time `now_us` microseconds, as seconds and microseconds.
pub fn sys_get_time(now_us: usize) -> (r: TimeVal)
    ensures
        r.sec == now_us / 1_000_000,
        r.usec == now_us % 1_000_000,
        r.sec * 1_000_000 + r.usec == now_us,
{
    TimeVal { sec: now_us / 1_000_000, usec: now_us % 1_000_000 }
}

/// The permission of heap pages: read, write, user access.
pub const HEAP_PERM: u8 = PTE_R | PTE_W | PTE_U;

/// A process's heap: the bytes `[heap_bottom, program_brk)`. Its pages, up
/// to the one that holds its last byte, form one region.
pub struct Heap {
    pub heap_bottom: usize,
    pub program_brk: usize,
}

impl Heap {
    pub open spec fn wf(self) -> bool {
        &&& self.heap_bottom % PAGE_SIZE == 0
        &&& self.heap_bottom <= self.program_brk <= isize::MAX
    }
}

/// The pages below byte `brk`, a last partial page counted whole.
pub open spec fn top_page(brk: nat) -> nat {
    (brk / PAGE_SIZE as nat + if brk % PAGE_SIZE as nat == 0 { 0nat } else { 1nat }) as nat
}

fn page_top(brk: usize) -> (r: usize)
    ensures
        r == top_page(brk as nat),
{
    brk / PAGE_SIZE + if brk % PAGE_SIZE == 0 { 0 } else { 1 }
}

/// Whether `ms` has the heap region `[bottom, top)`.
pub open spec fn has_heap_region(ms: MemorySet, bottom: nat, top: nat) -> bool {
    exists|k: int| 0 <= k < ms.areas@.len() && #[trigger] ms.areas@[k].start_vpn == bottom
        && ms.areas@[k].end_vpn == top && ms.areas@[k].perm == HEAP_PERM
}

/// Moves the break by `size` bytes and returns the old break. Growing maps
/// the new pages, each to a fresh frame, read-write for the user, into the
/// heap region; shrinking unmaps the pages left wholly above the break.
/// -1 when the break would drop below the heap's bottom or pass
/// `isize::MAX`, or when the pages cannot be mapped or unmapped; the heap,
/// the regions, the mappings and the spare frames are then as before.
pub fn sys_sbrk(ms: &mut MemorySet, heap: &mut Heap, size: i32) -> (r: isize)
    requires
        old(ms).wf(),
        old(heap).wf(),
    ensures
        final(ms).wf(),
        final(heap).wf(),
        final(heap).heap_bottom == old(heap).heap_bottom,
        ({
            let nb = old(heap).program_brk + size;
            let bp = (old(heap).heap_bottom / PAGE_SIZE) as nat;
            let ot = top_page(old(heap).program_brk as nat);
            let nt = top_page(nb as nat);
            &&& (nb < old(heap).heap_bottom || nb > isize::MAX) ==> r == -1
            &&& old(heap).heap_bottom <= nb <= isize::MAX && {
                ||| nt == ot
                ||| nt > ot && (ot == bp || has_heap_region(*old(ms), bp, ot)) && nt <= VPN_LIMIT
                    && (forall|v: nat| ot <= v < nt ==> !#[trigger] old(ms).lookup_valid(v))
                    && old(ms).frame_allocator.free_count() >= 3 * (nt - ot)
                ||| nt < ot && (forall|v: nat| nt <= v < ot ==> #[trigger] old(ms).lookup_valid(v))
            } ==> r == old(heap).program_brk
            &&& r == -1 ==> *final(heap) == *old(heap) && final(ms).areas == old(ms).areas
                && final(ms).spare() == old(ms).spare()
                && forall|v: nat| #[trigger] final(ms).page_table.lookup(v) == old(ms).page_table.lookup(v)
            &&& r != -1 ==> {
                &&& r == old(heap).program_brk
                &&& final(heap).program_brk == nb
                &&& forall|v: nat| !(ot <= v < nt) && !(nt <= v < ot) ==> #[trigger] final(ms).page_table.lookup(v)
                    == old(ms).page_table.lookup(v)
                &&& forall|v: nat| nt <= v < ot ==> #[trigger] final(ms).page_table.lookup(v) is None
                &&& forall|v: nat| ot <= v < nt ==> !#[trigger] old(ms).lookup_valid(v)
                    && final(ms).page_table.lookup(v) is Some
                    && final(ms).page_table.lookup(v)->0.view_flags() == HEAP_PERM | PTE_V
                &&& bp < nt && ot < nt ==> has_heap_region(*final(ms), bp, nt)
            }
        }),
{
    let old_brk = heap.program_brk;
    let new_brk: usize;
    if size >= 0 {
        let d = size as usize;
        if d > (isize::MAX as usize) - old_brk {
            return -1;
        }
        new_brk = old_brk + d;
    } else {
        let d = (0i64 - size as i64) as usize;
        if d > old_brk - heap.heap_bottom {
            return -1;
        }
        new_brk = old_brk - d;
    }
    let bp = heap.heap_bottom / PAGE_SIZE;
    let ot = page_top(old_brk);
    let nt = page_top(new_brk);
    proof {
        assert(bp <= ot);
    }
    if nt > ot {
        let mut k: usize = 0;
        if ot > bp {
            while k < ms.areas.len()
                invariant
                    k <= ms.areas@.len(),
                    forall|j: int| 0 <= j < k ==> !(#[trigger] ms.areas@[j].start_vpn == bp
                        && ms.areas@[j].end_vpn == ot && ms.areas@[j].perm == HEAP_PERM),
                ensures
                    k <= ms.areas@.len(),
                    forall|j: int| 0 <= j < k ==> !(#[trigger] ms.areas@[j].start_vpn == bp
                        && ms.areas@[j].end_vpn == ot && ms.areas@[j].perm == HEAP_PERM),
                    k < ms.areas@.len() ==> ms.areas@[k as int].start_vpn == bp
                        && ms.areas@[k as int].end_vpn == ot && ms.areas@[k as int].perm == HEAP_PERM,
                decreases ms.areas@.len() - k,
            {
                if ms.areas[k].start_vpn == bp && ms.areas[k].end_vpn == ot && ms.areas[k].perm == HEAP_PERM {
                    break;
                }
                k = k + 1;
            }
            if k == ms.areas.len() {
                return -1;
            }
        }
        let ghost ms0 = *ms;
        if !ms.mmap(ot, nt - ot, HEAP_PERM) {
            return -1;
        }
        proof {
            let last = ms.areas@.last();
            assert(ms.areas@ == ms0.areas@.push(last));
            assert forall|v: nat| ot <= v < nt implies #[trigger] ms.page_table.lookup(v)->0.view_flags() == HEAP_PERM | PTE_V by {
                lemma_pte_of(last.frames@[v - ot], HEAP_PERM | PTE_V);
                assert((HEAP_PERM | PTE_V) | PTE_V == HEAP_PERM | PTE_V) by (bit_vector);
                assert(last.frames@[v - ot] < ms.frame_allocator.end);
            }
        }
        if ot > bp {
            proof {
                assert(ms.areas@[k as int] == ms0.areas@[k as int]);
            }
            ms.merge_last_into(k);
            proof {
                let n = ms.areas@.len() - 1;
                assert(ms.areas@[n].start_vpn == bp && ms.areas@[n].end_vpn == nt && ms.areas@[n].perm == HEAP_PERM);
            }
        } else {
            proof {
                let n = ms.areas@.len() - 1;
                assert(ms.areas@[n].start_vpn == bp && ms.areas@[n].end_vpn == nt && ms.areas@[n].perm == HEAP_PERM);
            }
        }
    } else if nt < ot {
        if !ms.munmap(nt, ot) {
            return -1;
        }
    }
    heap.program_brk = new_brk;
    old_brk as isize
}


/// How many times a task made each system call, by call number.
pub struct SyscallCounter {
    pub times: Vec<u32>,
}

impl SyscallCounter {
    /// Zero counts for call numbers below `n`.
    pub fn new(n: usize) -> (r: Self)
        ensures
            r.times@ == Seq::new(n as nat, |i: int| 0u32),
    {
        let mut times: Vec<u32> = Vec::new();
        while times.len() < n
            invariant
                times@.len() <= n,
                forall|i: int| 0 <= i < times@.len() ==> #[trigger] times@[i] == 0u32,
            decreases n - times@.len(),
        {
            times.push(0);
        }
        proof {
            assert(times@ =~= Seq::new(n as nat, |i: int| 0u32));
        }
        SyscallCounter { times }
    }

    /// Counts one more call `id`, staying at `u32::MAX` once there; an id
    /// beyond the table is not counted.
    pub fn record(&mut self, id: usize)
        ensures
            id < old(self).times@.len() ==> final(self).times@ == old(self).times@.update(id as int,
                if old(self).times@[id as int] < u32::MAX { (old(self).times@[id as int] + 1) as u32 } else { u32::MAX }),
            id >= old(self).times@.len() ==> final(self).times@ == old(self).times@,
    {
        if id < self.times.len() {
            let c = self.times[id];
            self.times.set(id, c.saturating_add(1));
        }
    }
}

/// What the running task reports of itself at `now_ms`: its status, its
/// call counts, and the milliseconds since it first ran (0 if `now_ms` is
/// earlier).
pub fn sys_task_info(current: &TaskControlBlock, counter: &SyscallCounter, now_ms: usize) -> (r: TaskInfo)
    ensures
        r.status == current.task_status,
        r.syscall_times@ == counter.times@,
        r.time == if now_ms >= current.time { (now_ms - current.time) as usize } else { 0 },
{
    let mut times: Vec<u32> = Vec::new();
    let mut i: usize = 0;
    while i < counter.times.len()
        invariant
            i <= counter.times@.len(),
            times@ == counter.times@.subrange(0, i as int),
        decreases counter.times@.len() - i,
    {
        times.push(counter.times[i]);
        i = i + 1;
        proof {
            assert(times@ =~= counter.times@.subrange(0, i as int));
        }
    }
    proof {
        assert(times@ =~= counter.times@);
    }
    TaskInfo { status: current.task_status, syscall_times: times, time: now_ms.saturating_sub(current.time) }
}

} // verus!
