use os::banker::is_safe_state;

#[test]
fn safe_state_with_enough_resources() {
    // Two threads, one resource with 1 free instance; thread 0 needs 1, holds 0;
    // thread 1 needs 1, holds 1. Thread 0 can finish first, then thread 1.
    let available = vec![1usize];
    let allocation = vec![vec![0usize], vec![1usize]];
    let need = vec![vec![1usize], vec![1usize]];
    assert!(is_safe_state(2, 1, &available, &allocation, &need));
}

#[test]
fn unsafe_state_when_nobody_can_proceed() {
    // Each thread holds one resource and needs the other one; nothing is free.
    let available = vec![0usize, 0];
    let allocation = vec![vec![1usize, 0], vec![0usize, 1]];
    let need = vec![vec![0usize, 1], vec![1usize, 0]];
    assert!(!is_safe_state(2, 2, &available, &allocation, &need));
}

#[test]
fn safe_state_needs_released_resources() {
    // Thread 1 can run with what is free; what it releases lets thread 0 run.
    let available = vec![1usize, 0];
    let allocation = vec![vec![0usize, 0], vec![0usize, 2]];
    let need = vec![vec![1usize, 2], vec![1usize, 0]];
    assert!(is_safe_state(2, 2, &available, &allocation, &need));
}

#[test]
fn no_threads_is_safe() {
    let available: Vec<usize> = vec![];
    let allocation: Vec<Vec<usize>> = vec![];
    let need: Vec<Vec<usize>> = vec![];
    assert!(is_safe_state(0, 0, &available, &allocation, &need));
}

#[test]
fn single_thread_needing_too_much_is_unsafe() {
    let available = vec![2usize];
    let allocation = vec![vec![0usize]];
    let need = vec![vec![3usize]];
    assert!(!is_safe_state(1, 1, &available, &allocation, &need));
}
