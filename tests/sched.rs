use os_core::syscall::{sys_get_time, sys_set_priority, sys_task_info, sys_yield, SyscallCounter};
use os_core::task::{TaskControlBlock, TaskManager, TaskStatus, BIG_STRIDE};

fn task(tid: usize, stride: u64, priority: u64) -> TaskControlBlock {
    TaskControlBlock { tid, task_status: TaskStatus::Ready, stride, priority, time: 0 }
}

#[test]
fn fetch_takes_least_stride_first_added_on_ties() {
    let mut m = TaskManager::new();
    m.add(task(1, 30, 16));
    m.add(task(2, 10, 16));
    m.add(task(3, 10, 5));
    let t = m.fetch().unwrap();
    assert_eq!(t.tid, 2);
    assert_eq!(t.stride, 10 + BIG_STRIDE / 16);
    assert_eq!(m.ready_queue.len(), 2);
    let t = m.fetch().unwrap();
    assert_eq!(t.tid, 3);
    assert_eq!(t.stride, 10 + 51);
    let t = m.fetch().unwrap();
    assert_eq!(t.tid, 1);
    assert!(m.fetch().is_none());
}

#[test]
fn stride_saturates() {
    let mut m = TaskManager::new();
    m.add(task(1, u64::MAX - 3, 2));
    assert_eq!(m.fetch().unwrap().stride, u64::MAX);
}

#[test]
fn shares_follow_priorities() {
    let mut m = TaskManager::new();
    m.add(task(0, 0, 5));
    m.add(task(1, 0, 10));
    m.add(task(2, 0, 15));
    let mut runs = [0u32; 3];
    for _ in 0..3000 {
        let t = m.fetch().unwrap();
        runs[t.tid] += 1;
        m.add(t);
    }
    // passes 51, 25 and 17 give shares close to 5 : 10 : 15
    let total: u32 = runs.iter().sum();
    assert_eq!(total, 3000);
    assert!(runs[0] > 450 && runs[0] < 550, "{:?}", runs);
    assert!(runs[1] > 950 && runs[1] < 1100, "{:?}", runs);
    assert!(runs[2] > 1400 && runs[2] < 1550, "{:?}", runs);
}

#[test]
fn no_ready_task_waits_forever() {
    let mut m = TaskManager::new();
    m.add(task(0, 0, 2));
    m.add(task(1, 0, 200));
    let mut seen_low = false;
    for _ in 0..200 {
        let t = m.fetch().unwrap();
        if t.tid == 0 {
            seen_low = true;
        }
        m.add(t);
    }
    assert!(seen_low);
}

#[test]
fn yield_requeues_and_picks_next() {
    let mut m = TaskManager::new();
    m.add(task(2, 5, 16));
    let cur = TaskControlBlock { tid: 1, task_status: TaskStatus::Running, stride: 100, priority: 16, time: 0 };
    let next = sys_yield(&mut m, cur);
    assert_eq!(next.tid, 2);
    assert!(next.task_status == TaskStatus::Running);
    assert_eq!(next.stride, 5 + 15);
    assert_eq!(m.ready_queue.len(), 1);
    assert_eq!(m.ready_queue[0].tid, 1);
    assert!(m.ready_queue[0].task_status == TaskStatus::Ready);
}

#[test]
fn set_priority_rejects_one_or_less() {
    let mut t = task(1, 0, 16);
    assert_eq!(sys_set_priority(&mut t, 1), -1);
    assert_eq!(sys_set_priority(&mut t, 0), -1);
    assert_eq!(sys_set_priority(&mut t, -5), -1);
    assert_eq!(t.priority, 16);
    assert_eq!(sys_set_priority(&mut t, 2), 2);
    assert_eq!(t.priority, 2);
}

#[test]
fn get_time_splits_microseconds() {
    let tv = sys_get_time(3_250_000);
    assert_eq!(tv.sec, 3);
    assert_eq!(tv.usec, 250_000);
    let tv = sys_get_time(999_999);
    assert_eq!(tv.sec, 0);
    assert_eq!(tv.usec, 999_999);
}

#[test]
fn task_info_reports_counts_and_elapsed_time() {
    let mut counter = SyscallCounter::new(4);
    counter.record(1);
    counter.record(1);
    counter.record(3);
    counter.record(9);
    let t = TaskControlBlock { tid: 0, task_status: TaskStatus::Running, stride: 0, priority: 16, time: 100 };
    let info = sys_task_info(&t, &counter, 350);
    assert!(info.status == TaskStatus::Running);
    assert_eq!(info.syscall_times, vec![0, 2, 0, 1]);
    assert_eq!(info.time, 250);
    assert_eq!(sys_task_info(&t, &counter, 50).time, 0);
}

#[test]
fn call_counts_saturate() {
    let mut counter = SyscallCounter::new(1);
    counter.times[0] = u32::MAX;
    counter.record(0);
    assert_eq!(counter.times[0], u32::MAX);
}
