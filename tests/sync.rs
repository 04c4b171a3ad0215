use os_core::sync::{
    sys_condvar_create, sys_condvar_signal, sys_condvar_wait, sys_enable_deadlock_detect, sys_mutex_create,
    sys_mutex_lock, sys_mutex_unlock, sys_semaphore_create, sys_semaphore_down, sys_semaphore_up, SyncTables,
    DEADLOCK,
};

#[test]
fn deadlock_code_value() {
    assert_eq!(DEADLOCK, -0xdead);
}

#[test]
fn mutex_create_reuses_slots_in_order() {
    let mut st = SyncTables::new(2);
    assert_eq!(sys_mutex_create(&mut st, false), 0);
    assert_eq!(sys_mutex_create(&mut st, true), 1);
    st.mutex_list[0] = None;
    assert_eq!(sys_mutex_create(&mut st, true), 0);
    assert!(st.mutex_list[0].as_ref().unwrap().blocking);
    assert_eq!(sys_mutex_create(&mut st, false), 2);
}

#[test]
fn mutex_lock_unlock_hands_over_in_order() {
    let mut st = SyncTables::new(3);
    let m = sys_mutex_create(&mut st, true) as usize;
    assert_eq!(sys_mutex_lock(&mut st, 0, m), 0);
    assert_eq!(st.mutex_alloc[m], Some(0));
    assert_eq!(sys_mutex_lock(&mut st, 1, m), 0);
    assert_eq!(sys_mutex_lock(&mut st, 2, m), 0);
    assert_eq!(st.mutex_request[1], Some(m));
    assert_eq!(st.mutex_list[m].as_ref().unwrap().wait_queue, vec![1, 2]);
    assert_eq!(sys_mutex_unlock(&mut st, m), 0);
    assert_eq!(st.mutex_alloc[m], Some(1));
    assert_eq!(st.mutex_request[1], None);
    assert_eq!(sys_mutex_unlock(&mut st, m), 0);
    assert_eq!(st.mutex_alloc[m], Some(2));
    assert_eq!(sys_mutex_unlock(&mut st, m), 0);
    assert_eq!(st.mutex_alloc[m], None);
}

#[test]
fn unknown_ids_give_minus_one() {
    let mut st = SyncTables::new(1);
    assert_eq!(sys_mutex_lock(&mut st, 0, 0), -1);
    assert_eq!(sys_mutex_unlock(&mut st, 3), -1);
    assert_eq!(sys_semaphore_up(&mut st, 0, 0), -1);
    assert_eq!(sys_semaphore_down(&mut st, 0, 0), -1);
    assert_eq!(sys_condvar_signal(&mut st, 0), -1);
    assert_eq!(sys_condvar_wait(&mut st, 0, 0, 0), -1);
}

#[test]
fn enable_deadlock_detect_takes_zero_or_one() {
    let mut st = SyncTables::new(1);
    assert_eq!(sys_enable_deadlock_detect(&mut st, 1), 0);
    assert!(st.deadlock_detection);
    assert_eq!(sys_enable_deadlock_detect(&mut st, 2), -1);
    assert!(st.deadlock_detection);
    assert_eq!(sys_enable_deadlock_detect(&mut st, 0), 0);
    assert!(!st.deadlock_detection);
}

#[test]
fn crossed_mutexes_are_refused() {
    let mut st = SyncTables::new(3);
    assert_eq!(sys_enable_deadlock_detect(&mut st, 1), 0);
    let a = sys_mutex_create(&mut st, true) as usize;
    let b = sys_mutex_create(&mut st, true) as usize;
    assert_eq!(sys_mutex_lock(&mut st, 1, a), 0);
    assert_eq!(sys_mutex_lock(&mut st, 2, b), 0);
    // thread 1 now waits for b
    assert_eq!(sys_mutex_lock(&mut st, 1, b), 0);
    assert_eq!(st.mutex_request[1], Some(b));
    // thread 2 asking for a closes the cycle
    assert_eq!(sys_mutex_lock(&mut st, 2, a), DEADLOCK);
    assert_eq!(st.mutex_request[2], None);
    assert!(st.mutex_list[a].as_ref().unwrap().wait_queue.is_empty());
    assert_eq!(st.mutex_alloc[a], Some(1));
}

#[test]
fn crossed_mutexes_block_without_detection() {
    let mut st = SyncTables::new(3);
    let a = sys_mutex_create(&mut st, true) as usize;
    let b = sys_mutex_create(&mut st, true) as usize;
    assert_eq!(sys_mutex_lock(&mut st, 1, a), 0);
    assert_eq!(sys_mutex_lock(&mut st, 2, b), 0);
    assert_eq!(sys_mutex_lock(&mut st, 1, b), 0);
    assert_eq!(sys_mutex_lock(&mut st, 2, a), 0);
    assert_eq!(st.mutex_request[2], Some(a));
}

#[test]
fn relocking_own_mutex_is_refused_with_detection() {
    let mut st = SyncTables::new(1);
    sys_enable_deadlock_detect(&mut st, 1);
    let a = sys_mutex_create(&mut st, false) as usize;
    assert_eq!(sys_mutex_lock(&mut st, 0, a), 0);
    assert_eq!(sys_mutex_lock(&mut st, 0, a), DEADLOCK);
}

#[test]
fn chain_without_cycle_is_granted() {
    let mut st = SyncTables::new(3);
    sys_enable_deadlock_detect(&mut st, 1);
    let a = sys_mutex_create(&mut st, true) as usize;
    let b = sys_mutex_create(&mut st, true) as usize;
    assert_eq!(sys_mutex_lock(&mut st, 0, a), 0);
    assert_eq!(sys_mutex_lock(&mut st, 1, b), 0);
    assert_eq!(sys_mutex_lock(&mut st, 1, a), 0);
    assert_eq!(sys_mutex_lock(&mut st, 2, b), 0);
    assert_eq!(st.mutex_request[2], Some(b));
}

#[test]
fn semaphore_create_and_counts() {
    let mut st = SyncTables::new(2);
    assert_eq!(sys_semaphore_create(&mut st, 2), 0);
    assert_eq!(sys_semaphore_create(&mut st, 0), 1);
    assert_eq!(st.semaphore_available, vec![2, 0]);
    assert_eq!(st.semaphore_alloc[1], vec![0, 0]);
    assert_eq!(sys_semaphore_down(&mut st, 1, 0), 0);
    assert_eq!(st.semaphore_available[0], 1);
    assert_eq!(st.semaphore_alloc[1][0], 1);
    assert_eq!(sys_semaphore_up(&mut st, 1, 0), 0);
    assert_eq!(st.semaphore_available[0], 2);
    assert_eq!(st.semaphore_alloc[1][0], 0);
    st.semaphore_list[0] = None;
    assert_eq!(sys_semaphore_create(&mut st, 7), 0);
    assert_eq!(st.semaphore_available, vec![7, 0]);
}

#[test]
fn semaphore_down_waits_and_up_hands_over() {
    let mut st = SyncTables::new(2);
    let s = sys_semaphore_create(&mut st, 0) as usize;
    assert_eq!(sys_semaphore_down(&mut st, 1, s), 0);
    assert_eq!(st.semaphore_request[1][s], 1);
    assert_eq!(st.semaphore_list[s].as_ref().unwrap().wait_queue, vec![1]);
    assert_eq!(sys_semaphore_up(&mut st, 0, s), 0);
    assert_eq!(st.semaphore_request[1][s], 0);
    assert_eq!(st.semaphore_alloc[1][s], 1);
    assert_eq!(st.semaphore_available[s], 0);
    assert!(st.semaphore_list[s].as_ref().unwrap().wait_queue.is_empty());
}

#[test]
fn semaphore_up_refuses_overflow() {
    let mut st = SyncTables::new(1);
    let s = sys_semaphore_create(&mut st, usize::MAX) as usize;
    assert_eq!(sys_semaphore_up(&mut st, 0, s), -1);
    assert_eq!(st.semaphore_available[s], usize::MAX);
}

#[test]
fn crossed_semaphores_are_refused() {
    let mut st = SyncTables::new(3);
    sys_enable_deadlock_detect(&mut st, 1);
    let a = sys_semaphore_create(&mut st, 1) as usize;
    let b = sys_semaphore_create(&mut st, 1) as usize;
    assert_eq!(sys_semaphore_down(&mut st, 1, a), 0);
    assert_eq!(sys_semaphore_down(&mut st, 2, b), 0);
    // thread 1 may wait for b: thread 2 can still finish
    assert_eq!(sys_semaphore_down(&mut st, 1, b), 0);
    assert_eq!(st.semaphore_request[1][b], 1);
    // thread 2 waiting for a would leave nobody able to finish
    assert_eq!(sys_semaphore_down(&mut st, 2, a), DEADLOCK);
    assert_eq!(st.semaphore_request[2][a], 0);
    assert!(st.semaphore_list[a].as_ref().unwrap().wait_queue.is_empty());
}

#[test]
fn safe_semaphore_sequence_is_granted() {
    let mut st = SyncTables::new(3);
    sys_enable_deadlock_detect(&mut st, 1);
    let a = sys_semaphore_create(&mut st, 2) as usize;
    let b = sys_semaphore_create(&mut st, 1) as usize;
    assert_eq!(sys_semaphore_down(&mut st, 1, a), 0);
    assert_eq!(sys_semaphore_down(&mut st, 2, a), 0);
    assert_eq!(sys_semaphore_down(&mut st, 1, b), 0);
    // thread 2 waits for b, held by thread 1, which needs nothing more
    assert_eq!(sys_semaphore_down(&mut st, 2, b), 0);
    assert_eq!(st.semaphore_request[2][b], 1);
    assert_eq!(sys_semaphore_up(&mut st, 1, b), 0);
    assert_eq!(st.semaphore_alloc[2][b], 1);
    assert_eq!(st.semaphore_request[2][b], 0);
}

#[test]
fn condvar_wait_releases_and_signal_reacquires() {
    let mut st = SyncTables::new(3);
    let m = sys_mutex_create(&mut st, true) as usize;
    let c = sys_condvar_create(&mut st) as usize;
    assert_eq!(c, 0);
    assert_eq!(sys_mutex_lock(&mut st, 1, m), 0);
    assert_eq!(sys_condvar_wait(&mut st, 1, c, m), 0);
    assert_eq!(st.mutex_alloc[m], None);
    assert_eq!(sys_mutex_lock(&mut st, 2, m), 0);
    assert_eq!(sys_condvar_signal(&mut st, c), 0);
    // the mutex is held, so the woken thread waits for it
    assert_eq!(st.mutex_request[1], Some(m));
    assert_eq!(st.mutex_list[m].as_ref().unwrap().wait_queue, vec![1]);
    assert_eq!(sys_mutex_unlock(&mut st, m), 0);
    assert_eq!(st.mutex_alloc[m], Some(1));
    // nobody waits now
    assert_eq!(sys_condvar_signal(&mut st, c), 0);
}

#[test]
fn condvar_signal_wakes_in_order() {
    let mut st = SyncTables::new(3);
    let m = sys_mutex_create(&mut st, true) as usize;
    let c = sys_condvar_create(&mut st) as usize;
    assert_eq!(sys_mutex_lock(&mut st, 1, m), 0);
    assert_eq!(sys_condvar_wait(&mut st, 1, c, m), 0);
    assert_eq!(sys_mutex_lock(&mut st, 2, m), 0);
    assert_eq!(sys_condvar_wait(&mut st, 2, c, m), 0);
    assert_eq!(sys_condvar_signal(&mut st, c), 0);
    assert_eq!(st.mutex_alloc[m], Some(1));
    assert_eq!(st.condvar_list[c].as_ref().unwrap().wait_queue, vec![(2, m)]);
}

#[test]
fn added_thread_holds_nothing() {
    let mut st = SyncTables::new(1);
    let s = sys_semaphore_create(&mut st, 1) as usize;
    assert_eq!(st.add_thread(), 1);
    assert_eq!(st.mutex_request.len(), 2);
    assert_eq!(st.semaphore_alloc[1], vec![0]);
    assert_eq!(st.semaphore_request[1], vec![0]);
    assert_eq!(sys_semaphore_down(&mut st, 1, s), 0);
    assert_eq!(st.semaphore_alloc[1][s], 1);
}
