use os::manager::{TaskEntry, BIG_STRIDE};
use os::memory::{MemorySet, PAGE_SIZE, PERM_R, PERM_U, PERM_W, PERM_X};
use os::process::{
    sys_exec, sys_exit, sys_fork, sys_getpid, sys_set_priority, sys_spawn, sys_waitpid, sys_yield, AppImage,
    ProcessTable, TrapContext, DEFAULT_PRIORITY, INITPROC_PID,
};

/// A program whose code is one page at `page`.
fn image(name: &str, page: usize, entry: usize) -> AppImage {
    let mut memory_set = MemorySet::new(0x10000);
    let mut frames: usize = 8;
    assert!(memory_set.mmap(&mut frames, page * PAGE_SIZE, PAGE_SIZE, PERM_R | PERM_X | PERM_U));
    AppImage { name: name.as_bytes().to_vec(), memory_set, entry_point: entry, user_sp: 0x8000 }
}

fn apps() -> Vec<AppImage> {
    vec![image("init", 1, 0x1000), image("hello", 2, 0x2000)]
}

fn table() -> ProcessTable {
    ProcessTable::new(apps(), 0)
}

#[test]
fn starts_with_init_running() {
    let t = table();
    assert_eq!(sys_getpid(&t), 0);
    assert_eq!(t.procs.len(), 1);
}

#[test]
fn fork_creates_ready_child() {
    let mut t = table();
    assert_eq!(sys_fork(&mut t), 1);
    assert_eq!(t.procs[0].as_ref().unwrap().children, vec![1]);
    assert_eq!(t.procs[1].as_ref().unwrap().parent, Some(0));
    assert_eq!(t.manager.len(), 1);
}

#[test]
fn init_runs_its_program() {
    let t = table();
    let init = t.procs[0].as_ref().unwrap();
    assert_eq!(init.trap_cx, TrapContext { a0: 0, sp: 0x8000, sepc: 0x1000 });
    assert_eq!(init.memory_set.translate(1), Some(PERM_R | PERM_X | PERM_U));
    assert_eq!(init.memory_set.translate(2), None);
}

#[test]
fn exec_and_spawn_find_programs() {
    let mut t = table();
    assert_eq!(sys_exec(&mut t, &b"nope".to_vec()), -1);
    assert_eq!(sys_spawn(&mut t, &b"nope".to_vec()), -1);
    assert_eq!(t.procs.len(), 1);
    assert_eq!(sys_spawn(&mut t, &b"hello".to_vec()), 1);
    assert_eq!(t.procs[0].as_ref().unwrap().children, vec![1]);
    let child = t.procs[1].as_ref().unwrap();
    assert_eq!(child.trap_cx, TrapContext { a0: 0, sp: 0x8000, sepc: 0x2000 });
    assert_eq!(child.memory_set.translate(2), Some(PERM_R | PERM_X | PERM_U));
    assert_eq!(child.memory_set.translate(1), None);
    assert_eq!(sys_exec(&mut t, &b"hello".to_vec()), 0);
}

#[test]
fn exec_replaces_the_image_and_keeps_the_process() {
    let mut t = table();
    assert_eq!(sys_fork(&mut t), 1);
    t.procs[0].as_mut().unwrap().trap_cx = TrapContext { a0: 9, sp: 0x7000, sepc: 0x1234 };
    assert_eq!(sys_exec(&mut t, &b"hello".to_vec()), 0);
    assert_eq!(sys_getpid(&t), 0);
    let p = t.procs[0].as_ref().unwrap();
    assert_eq!(p.trap_cx, TrapContext { a0: 0, sp: 0x8000, sepc: 0x2000 });
    assert_eq!(p.memory_set.translate(2), Some(PERM_R | PERM_X | PERM_U));
    assert_eq!(p.memory_set.translate(1), None);
    assert_eq!(p.children, vec![1]);
    // the program's own image is not changed by the process that runs it
    assert_eq!(t.apps[1].memory_set.translate(2), Some(PERM_R | PERM_X | PERM_U));
}

#[test]
fn fork_copies_the_address_space_and_returns_zero_in_the_child() {
    let mut t = table();
    let mut frames: usize = 8;
    let perm = PERM_R | PERM_W | PERM_U;
    assert!(t.procs[0].as_mut().unwrap().memory_set.mmap(&mut frames, 5 * PAGE_SIZE, PAGE_SIZE, perm));
    t.procs[0].as_mut().unwrap().trap_cx = TrapContext { a0: 9, sp: 0x7000, sepc: 0x1234 };
    assert_eq!(sys_fork(&mut t), 1);
    let child = t.procs[1].as_ref().unwrap();
    assert_eq!(child.trap_cx, TrapContext { a0: 0, sp: 0x7000, sepc: 0x1234 });
    assert_eq!(child.memory_set.translate(1), Some(PERM_R | PERM_X | PERM_U));
    assert_eq!(child.memory_set.translate(5), Some(perm));
    // the copy is the child's own
    assert!(t.procs[1].as_mut().unwrap().memory_set.mmap(&mut frames, 6 * PAGE_SIZE, PAGE_SIZE, perm));
    assert_eq!(t.procs[0].as_ref().unwrap().memory_set.translate(6), None);
    assert_eq!(t.procs[0].as_ref().unwrap().trap_cx.a0, 9);
}

#[test]
fn waitpid_without_children_returns_minus_one() {
    let mut t = table();
    assert_eq!(sys_waitpid(&mut t, -1), (-1, None));
    assert_eq!(sys_fork(&mut t), 1);
    assert_eq!(sys_waitpid(&mut t, 5), (-1, None));
}

#[test]
fn waitpid_running_child_returns_minus_two() {
    let mut t = table();
    assert_eq!(sys_fork(&mut t), 1);
    assert_eq!(sys_waitpid(&mut t, 1), (-2, None));
    assert_eq!(sys_waitpid(&mut t, -1), (-2, None));
}

#[test]
fn exited_child_is_reaped_with_its_code() {
    let mut t = table();
    assert_eq!(sys_fork(&mut t), 1);
    // init gives the processor up; the child runs and exits
    assert_eq!(sys_yield(&mut t), 0);
    assert_eq!(sys_getpid(&t), 1);
    sys_exit(&mut t, 42);
    assert!(t.procs[1].as_ref().unwrap().zombie);
    // an exited process keeps no mapped page
    assert_eq!(t.procs[1].as_ref().unwrap().memory_set.translate(1), None);
    assert_eq!(sys_getpid(&t), 0);
    assert_eq!(sys_waitpid(&mut t, -1), (1, Some(42)));
    assert!(t.procs[1].is_none());
    assert!(t.procs[0].as_ref().unwrap().children.is_empty());
    // the freed pid is handed out again
    assert_eq!(sys_fork(&mut t), 1);
}

#[test]
fn exit_hands_children_to_init() {
    let mut t = table();
    assert_eq!(sys_fork(&mut t), 1);
    assert_eq!(sys_yield(&mut t), 0);
    assert_eq!(sys_getpid(&t), 1);
    assert_eq!(sys_fork(&mut t), 2);
    sys_exit(&mut t, 3);
    assert_eq!(sys_getpid(&t), 0);
    assert_eq!(t.procs[2].as_ref().unwrap().parent, Some(INITPROC_PID));
    assert_eq!(t.procs[0].as_ref().unwrap().children, vec![1, 2]);
    assert!(t.procs[1].as_ref().unwrap().children.is_empty());
    assert_eq!(t.procs[1].as_ref().unwrap().exit_code, 3);
}

#[test]
fn set_priority_needs_at_least_two() {
    let mut t = table();
    assert_eq!(sys_set_priority(&mut t, 1), -1);
    assert_eq!(t.current.unwrap().priority, DEFAULT_PRIORITY);
    assert_eq!(sys_set_priority(&mut t, 5), 5);
    assert_eq!(t.current.unwrap().priority, 5);
}

#[test]
fn yield_switches_by_stride() {
    let mut t = table();
    assert_eq!(sys_fork(&mut t), 1);
    assert_eq!(sys_yield(&mut t), 0);
    // both have stride 0: the child was ready first
    assert_eq!(t.current, Some(TaskEntry { pid: 1, stride: BIG_STRIDE / DEFAULT_PRIORITY, priority: DEFAULT_PRIORITY }));
    assert_eq!(sys_yield(&mut t), 0);
    assert_eq!(sys_getpid(&t), 0);
    assert_eq!(t.manager.len(), 1);
}

#[test]
fn yield_alone_keeps_running() {
    let mut t = table();
    assert_eq!(sys_yield(&mut t), 0);
    assert_eq!(sys_getpid(&t), 0);
    assert_eq!(t.manager.len(), 0);
}

#[test]
fn last_process_exit_leaves_processor_idle() {
    let mut t = table();
    assert_eq!(sys_fork(&mut t), 1);
    assert_eq!(sys_yield(&mut t), 0);
    assert_eq!(sys_getpid(&t), 1);
    // init is ready; take it out so nothing else is
    assert_eq!(t.manager.fetch().unwrap().pid, 0);
    sys_exit(&mut t, 0);
    assert!(t.current.is_none());
    assert_eq!(t.run_next(), None);
}
