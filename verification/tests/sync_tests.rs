use os::sync::{
    condvar_wait_relock, detect_deadlock_mutex, mutex_lock_retry, detect_deadlock_semaphore, sys_condvar_create,
    sys_condvar_signal, sys_condvar_wait, sys_enable_deadlock_detect, sys_mutex_create, sys_mutex_lock,
    sys_mutex_unlock, sys_semaphore_create, sys_semaphore_down, sys_semaphore_up, sys_sleep, ProcessSync,
    Step, TimerEntry, DEADLOCK_ERROR,
};

fn process_with_threads(n: usize) -> ProcessSync {
    let mut s = ProcessSync::new();
    for _ in 0..n {
        s.add_thread();
    }
    s
}

fn held_mutexes(s: &ProcessSync, tid: usize) -> Vec<usize> {
    s.tasks[tid].as_ref().unwrap().held_mutexes.clone()
}

fn held_semaphores(s: &ProcessSync, tid: usize) -> Vec<usize> {
    s.tasks[tid].as_ref().unwrap().held_semaphores.clone()
}

#[test]
fn mutex_ids_take_the_next_slot() {
    let mut s = process_with_threads(1);
    assert_eq!(sys_mutex_create(&mut s, true), 0);
    assert_eq!(sys_mutex_create(&mut s, false), 1);
    assert_eq!(s.mutex_list.len(), 2);
    assert!(s.mutex_list[0].as_ref().unwrap().blocking);
    assert!(!s.mutex_list[1].as_ref().unwrap().blocking);
}

#[test]
fn mutex_create_reuses_a_free_slot() {
    let mut s = process_with_threads(1);
    s.mutex_list.push(None);
    assert_eq!(sys_mutex_create(&mut s, true), 0);
    assert_eq!(s.mutex_list.len(), 1);
}

#[test]
fn lock_free_mutex_records_it() {
    let mut s = process_with_threads(1);
    let m = sys_mutex_create(&mut s, true) as usize;
    assert_eq!(sys_mutex_lock(&mut s, 0, m), Step::Return(0));
    assert!(s.mutex_list[m].as_ref().unwrap().locked);
    assert_eq!(held_mutexes(&s, 0), vec![m]);
}

#[test]
fn unlock_undoes_lock() {
    let mut s = process_with_threads(1);
    let m = sys_mutex_create(&mut s, true) as usize;
    assert_eq!(sys_mutex_lock(&mut s, 0, m), Step::Return(0));
    assert_eq!(sys_mutex_unlock(&mut s, 0, m), 0);
    assert!(!s.mutex_list[m].as_ref().unwrap().locked);
    assert!(held_mutexes(&s, 0).is_empty());
    assert!(s.ready.is_empty());
}

#[test]
fn blocking_mutex_queues_and_hands_over() {
    let mut s = process_with_threads(2);
    let m = sys_mutex_create(&mut s, true) as usize;
    assert_eq!(sys_mutex_lock(&mut s, 0, m), Step::Return(0));
    assert_eq!(sys_mutex_lock(&mut s, 1, m), Step::Block);
    assert_eq!(s.mutex_list[m].as_ref().unwrap().wait_queue.len(), 1);
    assert_eq!(sys_mutex_unlock(&mut s, 0, m), 0);
    // the lock passes straight to thread 1, which is woken and records it
    assert!(s.mutex_list[m].as_ref().unwrap().locked);
    assert_eq!(s.mutex_list[m].as_ref().unwrap().wait_queue.len(), 0);
    assert_eq!(s.ready, vec![1]);
    assert_eq!(held_mutexes(&s, 1), vec![m]);
    assert!(held_mutexes(&s, 0).is_empty());
}

#[test]
fn spinning_mutex_makes_the_caller_retry() {
    let mut s = process_with_threads(2);
    let m = sys_mutex_create(&mut s, false) as usize;
    assert_eq!(sys_mutex_lock(&mut s, 0, m), Step::Return(0));
    assert_eq!(sys_mutex_lock(&mut s, 1, m), Step::Yield);
    assert_eq!(mutex_lock_retry(&mut s, 1, m), Step::Yield);
    assert!(held_mutexes(&s, 1).is_empty());
    assert_eq!(sys_mutex_unlock(&mut s, 0, m), 0);
    assert!(!s.mutex_list[m].as_ref().unwrap().locked);
    assert_eq!(mutex_lock_retry(&mut s, 1, m), Step::Return(0));
    assert_eq!(held_mutexes(&s, 1), vec![m]);
}

#[test]
fn enable_deadlock_detect_accepts_only_zero_or_one() {
    let mut s = process_with_threads(1);
    assert_eq!(sys_enable_deadlock_detect(&mut s, 2), -1);
    assert!(!s.deadlock_detection_enabled);
    assert_eq!(sys_enable_deadlock_detect(&mut s, 1), 0);
    assert!(s.deadlock_detection_enabled);
    assert_eq!(sys_enable_deadlock_detect(&mut s, 0), 0);
    assert!(!s.deadlock_detection_enabled);
}

#[test]
fn lock_of_free_mutex_goes_ahead_with_detection() {
    let mut s = process_with_threads(1);
    let m = sys_mutex_create(&mut s, true) as usize;
    assert!(!detect_deadlock_mutex(&s, 0, m));
    assert_eq!(sys_enable_deadlock_detect(&mut s, 1), 0);
    assert_eq!(sys_mutex_lock(&mut s, 0, m), Step::Return(0));
    assert!(s.mutex_list[m].as_ref().unwrap().locked);
    assert_eq!(held_mutexes(&s, 0), vec![m]);
}

#[test]
fn relocking_own_mutex_is_a_deadlock() {
    let mut s = process_with_threads(1);
    let m = sys_mutex_create(&mut s, true) as usize;
    assert_eq!(sys_mutex_lock(&mut s, 0, m), Step::Return(0));
    assert!(detect_deadlock_mutex(&s, 0, m));
    assert_eq!(sys_enable_deadlock_detect(&mut s, 1), 0);
    assert_eq!(sys_mutex_lock(&mut s, 0, m), Step::Return(DEADLOCK_ERROR));
    assert_eq!(DEADLOCK_ERROR, -0xDEAD);
    assert!(s.mutex_list[m].as_ref().unwrap().locked);
    assert_eq!(s.mutex_list[m].as_ref().unwrap().wait_queue.len(), 0);
    assert_eq!(held_mutexes(&s, 0), vec![m]);
}

#[test]
fn crossed_mutex_requests_are_a_deadlock() {
    let mut s = process_with_threads(2);
    let m0 = sys_mutex_create(&mut s, true) as usize;
    let m1 = sys_mutex_create(&mut s, true) as usize;
    assert_eq!(sys_mutex_lock(&mut s, 0, m0), Step::Return(0));
    assert_eq!(sys_mutex_lock(&mut s, 1, m1), Step::Return(0));
    assert!(detect_deadlock_mutex(&s, 0, m1));
    assert_eq!(sys_enable_deadlock_detect(&mut s, 1), 0);
    assert_eq!(sys_mutex_lock(&mut s, 0, m1), Step::Return(DEADLOCK_ERROR));
    assert_eq!(s.mutex_list[m1].as_ref().unwrap().wait_queue.len(), 0);
}

#[test]
fn semaphore_down_then_up() {
    let mut s = process_with_threads(2);
    let id = sys_semaphore_create(&mut s, 1) as usize;
    assert_eq!(s.semaphore_list[id].as_ref().unwrap().count, 1);
    assert_eq!(sys_semaphore_down(&mut s, 0, id), Step::Return(0));
    assert_eq!(s.semaphore_list[id].as_ref().unwrap().count, 0);
    assert_eq!(held_semaphores(&s, 0), vec![id]);
    assert_eq!(sys_semaphore_down(&mut s, 1, id), Step::Block);
    assert_eq!(s.semaphore_list[id].as_ref().unwrap().count, -1);
    assert_eq!(sys_semaphore_up(&mut s, 0, id), 0);
    assert_eq!(s.semaphore_list[id].as_ref().unwrap().count, 0);
    assert_eq!(s.ready, vec![1]);
    assert_eq!(held_semaphores(&s, 1), vec![id]);
    assert!(held_semaphores(&s, 0).is_empty());
}

#[test]
fn up_undoes_down() {
    let mut s = process_with_threads(1);
    let id = sys_semaphore_create(&mut s, 3) as usize;
    assert_eq!(sys_semaphore_down(&mut s, 0, id), Step::Return(0));
    assert_eq!(sys_semaphore_up(&mut s, 0, id), 0);
    assert_eq!(s.semaphore_list[id].as_ref().unwrap().count, 3);
    assert!(held_semaphores(&s, 0).is_empty());
    assert!(s.ready.is_empty());
}

#[test]
fn semaphore_available_counts_free_instances() {
    let mut s = process_with_threads(1);
    let id = sys_semaphore_create(&mut s, 2) as usize;
    assert_eq!(s.semaphore_list[id].as_ref().unwrap().available(), 2);
    assert_eq!(sys_semaphore_down(&mut s, 0, id), Step::Return(0));
    assert_eq!(sys_semaphore_down(&mut s, 0, id), Step::Return(0));
    assert_eq!(s.semaphore_list[id].as_ref().unwrap().available(), 0);
}

#[test]
fn semaphore_down_with_a_free_unit_goes_ahead_with_detection() {
    let mut s = process_with_threads(1);
    let id = sys_semaphore_create(&mut s, 1) as usize;
    assert!(!detect_deadlock_semaphore(&s, 0, id));
    assert_eq!(sys_enable_deadlock_detect(&mut s, 1), 0);
    assert_eq!(sys_semaphore_down(&mut s, 0, id), Step::Return(0));
    assert_eq!(s.semaphore_list[id].as_ref().unwrap().count, 0);
    assert_eq!(held_semaphores(&s, 0), vec![id]);
}

#[test]
fn semaphore_down_on_own_last_unit_is_a_deadlock() {
    let mut s = process_with_threads(1);
    let id = sys_semaphore_create(&mut s, 1) as usize;
    assert_eq!(sys_semaphore_down(&mut s, 0, id), Step::Return(0));
    assert!(detect_deadlock_semaphore(&s, 0, id));
    assert_eq!(sys_enable_deadlock_detect(&mut s, 1), 0);
    assert_eq!(sys_semaphore_down(&mut s, 0, id), Step::Return(DEADLOCK_ERROR));
    assert_eq!(s.semaphore_list[id].as_ref().unwrap().count, 0);
}

#[test]
fn semaphore_detection_unsafe_when_all_taken() {
    let mut s = process_with_threads(2);
    let a = sys_semaphore_create(&mut s, 1) as usize;
    let b = sys_semaphore_create(&mut s, 1) as usize;
    assert_eq!(sys_semaphore_down(&mut s, 0, a), Step::Return(0));
    assert_eq!(sys_semaphore_down(&mut s, 1, b), Step::Return(0));
    assert!(detect_deadlock_semaphore(&s, 0, b));
}

#[test]
fn condvar_wait_signal_relock() {
    let mut s = process_with_threads(2);
    let m = sys_mutex_create(&mut s, true) as usize;
    let c = sys_condvar_create(&mut s) as usize;
    assert_eq!(c, 0);
    assert_eq!(sys_mutex_lock(&mut s, 0, m), Step::Return(0));
    assert_eq!(sys_condvar_wait(&mut s, 0, c, m), Step::Block);
    assert!(!s.mutex_list[m].as_ref().unwrap().locked);
    assert_eq!(s.condvar_list[c].as_ref().unwrap().wait_queue.len(), 1);
    assert_eq!(sys_condvar_signal(&mut s, c), 0);
    assert_eq!(s.ready, vec![0]);
    assert_eq!(s.condvar_list[c].as_ref().unwrap().wait_queue.len(), 0);
    assert_eq!(condvar_wait_relock(&mut s, 0, m), Step::Return(0));
    assert!(s.mutex_list[m].as_ref().unwrap().locked);
}

#[test]
fn condvar_signal_without_waiters_changes_nothing() {
    let mut s = process_with_threads(1);
    let c = sys_condvar_create(&mut s) as usize;
    assert_eq!(sys_condvar_signal(&mut s, c), 0);
    assert!(s.ready.is_empty());
}

#[test]
fn sleep_sets_a_timer_and_blocks() {
    let mut s = process_with_threads(1);
    assert_eq!(sys_sleep(&mut s, 0, 250, 1000), Step::Block);
    assert_eq!(s.timers, vec![TimerEntry { expire_ms: 1250, tid: 0 }]);
}

#[test]
fn only_one_of_many_lockers_takes_the_mutex() {
    let mut s = process_with_threads(3);
    let m = sys_mutex_create(&mut s, true) as usize;
    let other = sys_mutex_create(&mut s, false) as usize;
    assert_eq!(sys_mutex_lock(&mut s, 2, m), Step::Return(0));
    assert_eq!(sys_mutex_lock(&mut s, 0, m), Step::Block);
    assert_eq!(sys_mutex_lock(&mut s, 1, other), Step::Return(0));
    assert_eq!(sys_mutex_lock(&mut s, 1, m), Step::Block);
    assert!(s.mutex_list[m].as_ref().unwrap().locked);
    assert_eq!(held_mutexes(&s, 2), vec![m]);
    assert!(held_mutexes(&s, 0).is_empty());
    assert_eq!(held_mutexes(&s, 1), vec![other]);
}

fn holders(s: &ProcessSync, m: usize) -> usize {
    s.tasks.iter().flatten().filter(|t| t.held_mutexes.contains(&m)).count()
}

#[test]
fn a_mutex_has_at_most_one_holder_along_a_run() {
    let mut s = process_with_threads(3);
    let m = sys_mutex_create(&mut s, true) as usize;
    let sem = sys_semaphore_create(&mut s, 1) as usize;
    assert_eq!(sys_mutex_lock(&mut s, 0, m), Step::Return(0));
    assert_eq!(holders(&s, m), 1);
    assert_eq!(sys_mutex_lock(&mut s, 1, m), Step::Block);
    assert_eq!(sys_mutex_lock(&mut s, 2, m), Step::Block);
    assert_eq!(holders(&s, m), 1);
    assert_eq!(sys_semaphore_down(&mut s, 0, sem), Step::Return(0));
    assert_eq!(sys_mutex_unlock(&mut s, 0, m), 0);
    assert_eq!(holders(&s, m), 1);
    assert_eq!(held_mutexes(&s, 1), vec![m]);
    assert_eq!(sys_semaphore_up(&mut s, 0, sem), 0);
    assert_eq!(sys_mutex_unlock(&mut s, 1, m), 0);
    assert_eq!(holders(&s, m), 1);
    assert_eq!(held_mutexes(&s, 2), vec![m]);
    assert_eq!(sys_mutex_unlock(&mut s, 2, m), 0);
    assert_eq!(holders(&s, m), 0);
    assert!(!s.mutex_list[m].as_ref().unwrap().locked);
}
