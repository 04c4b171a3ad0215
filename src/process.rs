//! Per-process tables that the file, wait and sleep calls work on: open
//! files, children, and the timers of sleeping threads.
use vstd::prelude::*;
use crate::task::{TaskControlBlock, TaskManager, TaskStatus};

verus! {

/// An open file as the descriptor table sees it: which object it is and
/// what it may be used for.
pub struct FileDesc {
    pub inode: usize,
    pub readable: bool,
    pub writable: bool,
}

/// A child process as its parent sees it.
#[derive(Clone, Copy)]
pub struct ChildInfo {
    pub pid: usize,
    /// Whether it has exited and waits to be reaped.
    pub zombie: bool,
    pub exit_code: i32,
}

/// A thread to wake at `expire_ms`.
#[derive(Clone, Copy)]
pub struct Timer {
    pub expire_ms: usize,
    pub tid: usize,
}

/// Whether `fd` names an open file.
pub open spec fn fd_open(fds: Seq<Option<FileDesc>>, fd: int) -> bool {
    0 <= fd < fds.len() && fds[fd] is Some
}

/// Installs `file` in the lowest free descriptor, or a new one at the end,
/// and returns it; `None` (no such file) gives -1 and changes nothing.
pub fn sys_open(fd_table: &mut Vec<Option<FileDesc>>, file: Option<FileDesc>) -> (r: isize)
    requires
        old(fd_table)@.len() < isize::MAX,
    ensures
        file is None ==> r == -1 && final(fd_table)@ == old(fd_table)@,
        file is Some ==> {
            &&& 0 <= r <= old(fd_table)@.len()
            &&& forall|j: int| 0 <= j < r ==> (#[trigger] old(fd_table)@[j]) is Some
            &&& r < old(fd_table)@.len() ==> old(fd_table)@[r as int] is None
                && final(fd_table)@ == old(fd_table)@.update(r as int, file)
            &&& r == old(fd_table)@.len() ==> final(fd_table)@ == old(fd_table)@.push(file)
        },
{
    match file {
        None => -1,
        Some(f) => {
            let mut i: usize = 0;
            while i < fd_table.len()
                invariant
                    i <= fd_table@.len(),
                    fd_table@ == old(fd_table)@,
                    file == Some(f),
                    old(fd_table)@.len() < isize::MAX,
                    forall|j: int| 0 <= j < i ==> (#[trigger] fd_table@[j]) is Some,
                decreases fd_table@.len() - i,
            {
                if fd_table[i].is_none() {
                    fd_table.set(i, Some(f));
                    return i as isize;
                }
                i = i + 1;
            }
            fd_table.push(Some(f));
            i as isize
        },
    }
}

/// Closes descriptor `fd`; one that is not open gives -1.
pub fn sys_close(fd_table: &mut Vec<Option<FileDesc>>, fd: usize) -> (r: isize)
    ensures
        fd_open(old(fd_table)@, fd as int) ==> r == 0 && final(fd_table)@ == old(fd_table)@.update(fd as int, None),
        !fd_open(old(fd_table)@, fd as int) ==> r == -1 && final(fd_table)@ == old(fd_table)@,
{
    if fd >= fd_table.len() {
        return -1;
    }
    if fd_table[fd].is_none() {
        return -1;
    }
    fd_table.set(fd, None);
    0
}

/// Whether child `c` is one that `pid` asks for: any child for -1.
pub open spec fn pid_matches(pid: isize, c: ChildInfo) -> bool {
    pid == -1 || pid == c.pid
}

/// Reaps the first exited child that `pid` asks for (-1: any child): it is
/// removed, its exit code stored in `exit_code`, and its pid returned. -1
/// when no child matches; -2 when matching children are all still running.
pub fn sys_waitpid(children: &mut Vec<ChildInfo>, pid: isize, exit_code: &mut i32) -> (r: isize)
    requires
        forall|i: int| 0 <= i < old(children)@.len() ==> (#[trigger] old(children)@[i]).pid <= isize::MAX,
    ensures
        !(exists|i: int| 0 <= i < old(children)@.len() && pid_matches(pid, #[trigger] old(children)@[i]))
            ==> r == -1 && final(children)@ == old(children)@ && *final(exit_code) == *old(exit_code),
        (exists|i: int| 0 <= i < old(children)@.len() && pid_matches(pid, #[trigger] old(children)@[i]))
            && !(exists|i: int| 0 <= i < old(children)@.len() && pid_matches(pid, #[trigger] old(children)@[i])
                && old(children)@[i].zombie)
            ==> r == -2 && final(children)@ == old(children)@ && *final(exit_code) == *old(exit_code),
        r >= 0 ==> exists|i: int| {
            &&& 0 <= i < old(children)@.len()
            &&& pid_matches(pid, #[trigger] old(children)@[i]) && old(children)@[i].zombie
            &&& forall|j: int| 0 <= j < i ==> !(pid_matches(pid, #[trigger] old(children)@[j]) && old(children)@[j].zombie)
            &&& final(children)@ == old(children)@.remove(i)
            &&& r == old(children)@[i].pid
            &&& *final(exit_code) == old(children)@[i].exit_code
        },
        r == -1 || r == -2 || r >= 0,
        (exists|i: int| 0 <= i < old(children)@.len() && pid_matches(pid, #[trigger] old(children)@[i])
            && old(children)@[i].zombie) ==> r >= 0,
{
    let mut any = false;
    let mut i: usize = 0;
    while i < children.len()
        invariant
            i <= children@.len(),
            children@ == old(children)@,
            any == exists|j: int| 0 <= j < i && pid_matches(pid, #[trigger] children@[j]),
        decreases children@.len() - i,
    {
        if pid == -1 || pid >= 0 && pid as usize == children[i].pid {
            proof {
                assert(pid_matches(pid, children@[i as int]));
            }
            any = true;
        }
        i = i + 1;
    }
    if !any {
        return -1;
    }
    let mut k: usize = 0;
    while k < children.len()
        invariant
            k <= children@.len(),
            children@ == old(children)@,
            forall|j: int| 0 <= j < k ==> !(pid_matches(pid, #[trigger] children@[j]) && children@[j].zombie),
            forall|j: int| 0 <= j < children@.len() ==> (#[trigger] children@[j]).pid <= isize::MAX,
            *exit_code == *old(exit_code),
        decreases children@.len() - k,
    {
        let c = children[k];
        if c.zombie && (pid == -1 || pid >= 0 && pid as usize == c.pid) {
            proof {
                assert(pid_matches(pid, children@[k as int]));
            }
            let child = children.remove(k);
            *exit_code = child.exit_code;
            return child.pid as isize;
        }
        proof {
            if pid_matches(pid, c) {
                assert(pid == -1 || pid >= 0 && pid as usize == c.pid);
            }
        }
        k = k + 1;
    }
    -2
}

/// Registers thread `tid` to wake `ms` milliseconds after `now_ms` (at
/// `usize::MAX` at the latest); the thread then blocks until the timer
/// fires.
pub fn sys_sleep(timers: &mut Vec<Timer>, now_ms: usize, tid: usize, ms: usize) -> (r: isize)
    ensures
        r == 0,
        final(timers)@ == old(timers)@.push(Timer {
            expire_ms: if now_ms + ms <= usize::MAX { (now_ms + ms) as usize } else { usize::MAX },
            tid,
        }),
{
    timers.push(Timer { expire_ms: now_ms.saturating_add(ms), tid });
    0
}

/// Records a new child process: `child` is its first task, already given
/// its own copy of the address space, with 0 as the result its program
/// sees. The child joins the parent's children, still running, and its
/// task joins the ready queue; the parent gets the child's pid.
pub fn sys_fork(
    manager: &mut TaskManager,
    children: &mut Vec<ChildInfo>,
    child: TaskControlBlock,
    child_pid: usize,
) -> (r: isize)
    requires
        old(manager).wf(),
        child.priority > 0,
        child_pid <= isize::MAX,
    ensures
        final(manager).wf(),
        r == child_pid,
        final(manager).ready_queue@ == old(manager).ready_queue@.push(
            TaskControlBlock { task_status: TaskStatus::Ready, ..child },
        ),
        final(children)@ == old(children)@.push(ChildInfo { pid: child_pid, zombie: false, exit_code: 0 }),
{
    children.push(ChildInfo { pid: child_pid, zombie: false, exit_code: 0 });
    let mut t = child;
    t.task_status = TaskStatus::Ready;
    manager.add(t);
    child_pid as isize
}

} // verus!
