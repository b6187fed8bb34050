use os::manager::{TaskEntry, TaskManager, BIG_STRIDE};

fn entry(pid: usize, stride: usize, priority: usize) -> TaskEntry {
    TaskEntry { pid, stride, priority }
}

#[test]
fn fetch_from_empty_is_none() {
    let mut m = TaskManager::new();
    assert_eq!(m.fetch(), None);
}

#[test]
fn fetch_picks_smallest_stride_and_advances_it() {
    let mut m = TaskManager::new();
    m.add(entry(1, 300, 16));
    m.add(entry(2, 100, 4));
    m.add(entry(3, 200, 2));
    let t = m.fetch().unwrap();
    assert_eq!(t, entry(2, 100 + BIG_STRIDE / 4, 4));
    assert_eq!(m.len(), 2);
    let t = m.fetch().unwrap();
    assert_eq!(t.pid, 3);
    assert_eq!(t.stride, 200 + BIG_STRIDE / 2);
    let t = m.fetch().unwrap();
    assert_eq!(t.pid, 1);
    assert_eq!(m.fetch(), None);
}

#[test]
fn fetch_takes_earliest_among_equal_strides() {
    let mut m = TaskManager::new();
    m.add(entry(7, 50, 10));
    m.add(entry(8, 50, 10));
    let t = m.fetch().unwrap();
    assert_eq!(t.pid, 7);
    assert_eq!(t.stride, 50 + 100000);
}

#[test]
fn add_then_fetch_single_task() {
    let mut m = TaskManager::new();
    m.add(entry(5, 0, 16));
    assert_eq!(m.fetch(), Some(entry(5, BIG_STRIDE / 16, 16)));
    assert_eq!(m.len(), 0);
}

#[test]
fn higher_priority_runs_more_often() {
    let mut m = TaskManager::new();
    m.add(entry(1, 0, 2));
    m.add(entry(2, 0, 10));
    let mut count1 = 0;
    let mut count2 = 0;
    for _ in 0..12 {
        let t = m.fetch().unwrap();
        if t.pid == 1 {
            count1 += 1;
        } else {
            count2 += 1;
        }
        m.add(t);
    }
    assert!(count2 > count1);
}

#[test]
fn all_strides_at_maximum_take_the_first() {
    let mut m = TaskManager::new();
    m.add(entry(1, usize::MAX - BIG_STRIDE, 1));
    m.add(entry(2, usize::MAX, 1000000000));
    m.add(entry(3, usize::MAX, 1000000000));
    let t = m.fetch().unwrap();
    assert_eq!(t.pid, 1);
    assert_eq!(t.stride, usize::MAX);
}

#[test]
fn can_fetch_now_checks_the_picked_task() {
    let mut m = TaskManager::new();
    assert!(m.can_fetch_now());
    m.add(entry(1, 5, 0));
    assert!(!m.can_fetch_now());
    let mut m = TaskManager::new();
    m.add(entry(1, usize::MAX, 1));
    m.add(entry(2, usize::MAX - BIG_STRIDE, 1));
    assert!(m.can_fetch_now());
    let mut m = TaskManager::new();
    m.add(entry(3, usize::MAX - 1, 1));
    m.add(entry(4, usize::MAX, 1));
    assert!(!m.can_fetch_now());
}

#[test]
fn can_fetch_after_add_checks_the_task_that_would_be_picked() {
    let mut m = TaskManager::new();
    // alone, the added task is the one picked
    assert!(m.can_fetch_after_add(entry(1, 0, 2)));
    assert!(!m.can_fetch_after_add(entry(1, 0, 0)));
    m.add(entry(2, 10, 0));
    // a smaller stride wins over the queued task with priority 0
    assert!(m.can_fetch_after_add(entry(1, 5, 2)));
    // an equal stride loses to the task queued earlier
    assert!(!m.can_fetch_after_add(entry(1, 10, 2)));
    assert!(!m.can_fetch_after_add(entry(1, usize::MAX, 2)));
}
