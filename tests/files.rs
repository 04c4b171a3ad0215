use os_core::frame::FrameAllocator;
use os_core::page_table::PageTable;
use os_core::process::{sys_close, sys_fork, sys_open, sys_sleep, sys_waitpid, ChildInfo, FileDesc, Timer};
use os_core::task::{TaskControlBlock, TaskManager, TaskStatus};
use os_core::pte::{PTE_R, PTE_W};
use os_core::user_buffer::{sys_read, sys_write, translated_byte_buffer};

fn file(inode: usize, readable: bool, writable: bool) -> Option<FileDesc> {
    Some(FileDesc { inode, readable, writable })
}

fn table_with(pages: &[(usize, u64)]) -> PageTable {
    let mut fa = FrameAllocator::new(1000, 1100);
    let mut pt = PageTable::new(&mut fa).unwrap();
    for &(v, p) in pages {
        assert!(pt.map(v, p, PTE_R | PTE_W, &mut fa));
    }
    pt
}

#[test]
fn open_takes_lowest_free_descriptor() {
    let mut fds: Vec<Option<FileDesc>> = Vec::new();
    assert_eq!(sys_open(&mut fds, file(7, true, false)), 0);
    assert_eq!(sys_open(&mut fds, file(8, false, true)), 1);
    assert_eq!(sys_open(&mut fds, None), -1);
    assert_eq!(fds.len(), 2);
    assert_eq!(sys_close(&mut fds, 0), 0);
    assert_eq!(sys_open(&mut fds, file(9, true, true)), 0);
    assert_eq!(fds[0].as_ref().unwrap().inode, 9);
}

#[test]
fn close_rejects_unknown_descriptors() {
    let mut fds: Vec<Option<FileDesc>> = Vec::new();
    assert_eq!(sys_close(&mut fds, 0), -1);
    sys_open(&mut fds, file(1, true, true));
    assert_eq!(sys_close(&mut fds, 0), 0);
    assert!(fds[0].is_none());
    assert_eq!(sys_close(&mut fds, 0), -1);
    assert_eq!(sys_close(&mut fds, 5), -1);
}

#[test]
fn buffer_inside_one_page_is_one_piece() {
    let pt = table_with(&[(0x10, 0x55)]);
    let v = translated_byte_buffer(&pt, 0x10010, 32).unwrap();
    assert_eq!(v.len(), 1);
    assert_eq!((v[0].ppn, v[0].begin, v[0].end), (0x55, 0x10, 0x30));
}

#[test]
fn buffer_across_a_page_boundary_is_split() {
    let pt = table_with(&[(0x10, 0x55), (0x11, 0x66)]);
    let v = translated_byte_buffer(&pt, 0x10ff8, 16).unwrap();
    assert_eq!(v.len(), 2);
    assert_eq!((v[0].ppn, v[0].begin, v[0].end), (0x55, 0xff8, 0x1000));
    assert_eq!((v[1].ppn, v[1].begin, v[1].end), (0x66, 0, 8));
    let whole = translated_byte_buffer(&pt, 0x10000, 8192).unwrap();
    assert_eq!(whole.len(), 2);
    assert_eq!((whole[1].begin, whole[1].end), (0, 4096));
    assert_eq!(translated_byte_buffer(&pt, 0x10000, 0).unwrap().len(), 0);
}

#[test]
fn buffer_over_unmapped_page_is_refused() {
    let pt = table_with(&[(0x10, 0x55)]);
    assert!(translated_byte_buffer(&pt, 0x10ff8, 16).is_none());
}

#[test]
fn write_and_read_check_the_descriptor() {
    let pt = table_with(&[(0x10, 0x55)]);
    let fds = vec![file(1, true, false), None, file(2, false, true)];
    assert_eq!(sys_write(&fds, &pt, 0, 0x10000, 4).err(), Some(-1));
    assert_eq!(sys_write(&fds, &pt, 1, 0x10000, 4).err(), Some(-1));
    assert_eq!(sys_write(&fds, &pt, 9, 0x10000, 4).err(), Some(-1));
    let w = sys_write(&fds, &pt, 2, 0x10000, 4).unwrap();
    assert_eq!((w[0].ppn, w[0].begin, w[0].end), (0x55, 0, 4));
    assert_eq!(sys_write(&fds, &pt, 2, 0x20000, 4).err(), Some(-1));
    assert_eq!(sys_read(&fds, &pt, 2, 0x10000, 4).err(), Some(-1));
    assert_eq!(sys_read(&fds, &pt, 0, 0x10000, 4).unwrap().len(), 1);
}

#[test]
fn waitpid_reaps_exited_children() {
    let mut kids = vec![
        ChildInfo { pid: 3, zombie: false, exit_code: 0 },
        ChildInfo { pid: 4, zombie: true, exit_code: 7 },
        ChildInfo { pid: 5, zombie: true, exit_code: 9 },
    ];
    let mut code = 0;
    assert_eq!(sys_waitpid(&mut kids, 8, &mut code), -1);
    assert_eq!(sys_waitpid(&mut kids, 3, &mut code), -2);
    assert_eq!(code, 0);
    assert_eq!(sys_waitpid(&mut kids, 5, &mut code), 5);
    assert_eq!(code, 9);
    assert_eq!(sys_waitpid(&mut kids, -1, &mut code), 4);
    assert_eq!(code, 7);
    assert_eq!(kids.len(), 1);
    assert_eq!(sys_waitpid(&mut kids, -1, &mut code), -2);
    kids.clear();
    assert_eq!(sys_waitpid(&mut kids, -1, &mut code), -1);
}

#[test]
fn sleep_registers_a_timer() {
    let mut timers: Vec<Timer> = Vec::new();
    assert_eq!(sys_sleep(&mut timers, 1000, 3, 250), 0);
    assert_eq!(timers.len(), 1);
    assert_eq!((timers[0].expire_ms, timers[0].tid), (1250, 3));
    sys_sleep(&mut timers, usize::MAX - 1, 4, 10);
    assert_eq!(timers[1].expire_ms, usize::MAX);
}

#[test]
fn fork_queues_child_and_returns_its_pid() {
    let mut m = TaskManager::new();
    let mut kids: Vec<ChildInfo> = Vec::new();
    let child = TaskControlBlock { tid: 0, task_status: TaskStatus::UnInit, stride: 0, priority: 16, time: 0 };
    assert_eq!(sys_fork(&mut m, &mut kids, child, 7), 7);
    assert_eq!(m.ready_queue.len(), 1);
    assert!(m.ready_queue[0].task_status == TaskStatus::Ready);
    assert_eq!(kids.len(), 1);
    assert_eq!(kids[0].pid, 7);
    assert!(!kids[0].zombie);
    let mut code = 0;
    assert_eq!(sys_waitpid(&mut kids, 7, &mut code), -2);
}
