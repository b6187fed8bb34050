use os::fs::{
    sys_close, sys_fstat, sys_linkat, sys_open, sys_read, sys_unlinkat, sys_write, FileKind, FsState, Stat,
    O_CREATE, O_RDONLY, O_RDWR, O_TRUNC, O_WRONLY, S_DIR, S_FILE,
};
use os::sync::Step;

fn name(s: &str) -> Vec<u8> {
    s.as_bytes().to_vec()
}

#[test]
fn write_to_stdout_appends() {
    let mut fs = FsState::new();
    assert_eq!(sys_write(&mut fs, 1, b"hello"), 5);
    assert_eq!(sys_write(&mut fs, 1, b" os"), 3);
    assert_eq!(fs.stdout, b"hello os".to_vec());
}

#[test]
fn write_to_bad_fd_fails() {
    let mut fs = FsState::new();
    assert_eq!(sys_write(&mut fs, 7, b"x"), -1);
    assert_eq!(sys_write(&mut fs, 0, b"x"), -1);
    assert!(fs.stdout.is_empty());
}

#[test]
fn open_missing_without_create_fails() {
    let mut fs = FsState::new();
    assert_eq!(sys_open(&mut fs, &name("a"), O_RDONLY), -1);
    assert_eq!(fs.fd_table.len(), 2);
}

#[test]
fn create_write_reopen_read() {
    let mut fs = FsState::new();
    let fd = sys_open(&mut fs, &name("file"), O_CREATE | O_WRONLY);
    assert_eq!(fd, 2);
    assert_eq!(sys_write(&mut fs, 2, b"abcdef"), 6);
    // write-only descriptor cannot be read
    let (step, data) = sys_read(&mut fs, 2, 3);
    assert_eq!(step, Step::Return(-1));
    assert!(data.is_empty());
    assert_eq!(sys_close(&mut fs, 2), 0);
    let fd = sys_open(&mut fs, &name("file"), O_RDONLY);
    assert_eq!(fd, 2);
    let (step, data) = sys_read(&mut fs, 2, 4);
    assert_eq!(step, Step::Return(4));
    assert_eq!(data, b"abcd".to_vec());
    let (step, data) = sys_read(&mut fs, 2, 4);
    assert_eq!(step, Step::Return(2));
    assert_eq!(data, b"ef".to_vec());
    let (step, data) = sys_read(&mut fs, 2, 4);
    assert_eq!(step, Step::Return(0));
    assert!(data.is_empty());
    // read-only descriptor cannot be written
    assert_eq!(sys_write(&mut fs, 2, b"z"), -1);
}

#[test]
fn write_past_end_fills_with_zeros() {
    let mut fs = FsState::new();
    let fd = sys_open(&mut fs, &name("f"), O_CREATE | O_RDWR) as usize;
    fs.fd_table[fd].as_mut().unwrap().offset = 3;
    assert_eq!(sys_write(&mut fs, fd, b"xy"), 2);
    assert_eq!(fs.inodes[0].data, vec![0, 0, 0, b'x', b'y']);
    assert_eq!(fs.fd_table[fd].unwrap().offset, 5);
}

#[test]
fn overwrite_in_the_middle_keeps_the_rest() {
    let mut fs = FsState::new();
    let fd = sys_open(&mut fs, &name("f"), O_CREATE | O_RDWR) as usize;
    assert_eq!(sys_write(&mut fs, fd, b"hello"), 5);
    fs.fd_table[fd].as_mut().unwrap().offset = 1;
    assert_eq!(sys_write(&mut fs, fd, b"EL"), 2);
    assert_eq!(fs.inodes[0].data, b"hELlo".to_vec());
}

#[test]
fn open_create_existing_empties_it() {
    let mut fs = FsState::new();
    let fd = sys_open(&mut fs, &name("f"), O_CREATE | O_RDWR) as usize;
    assert_eq!(sys_write(&mut fs, fd, b"data"), 4);
    let fd2 = sys_open(&mut fs, &name("f"), O_CREATE);
    assert_eq!(fd2, 3);
    assert!(fs.inodes[0].data.is_empty());
    assert_eq!(fs.root.len(), 1);
    let d = fs.fd_table[3].unwrap();
    assert!(d.readable && d.writable);
}

#[test]
fn open_trunc_empties_and_plain_open_keeps() {
    let mut fs = FsState::new();
    let fd = sys_open(&mut fs, &name("f"), O_CREATE | O_RDWR) as usize;
    assert_eq!(sys_write(&mut fs, fd, b"data"), 4);
    assert!(sys_open(&mut fs, &name("f"), O_RDONLY) >= 0);
    assert_eq!(fs.inodes[0].data, b"data".to_vec());
    assert!(sys_open(&mut fs, &name("f"), O_TRUNC | O_WRONLY) >= 0);
    assert!(fs.inodes[0].data.is_empty());
}

#[test]
fn close_twice_fails() {
    let mut fs = FsState::new();
    let fd = sys_open(&mut fs, &name("f"), O_CREATE) as usize;
    assert_eq!(sys_close(&mut fs, fd), 0);
    assert_eq!(sys_close(&mut fs, fd), -1);
    assert_eq!(sys_close(&mut fs, 99), -1);
    // the freed slot is reused
    assert_eq!(sys_open(&mut fs, &name("f"), O_RDONLY), fd as isize);
}

#[test]
fn fstat_reports_mode() {
    let mut fs = FsState::new();
    let fd = sys_open(&mut fs, &name("f"), O_CREATE) as usize;
    assert_eq!(sys_fstat(&fs, fd), Some(Stat { dev: 0, ino: 0, mode: S_FILE, nlink: 1 }));
    fs.inodes[0].is_dir = true;
    assert_eq!(sys_fstat(&fs, fd).unwrap().mode, S_DIR);
    assert_eq!(sys_fstat(&fs, 1).unwrap().mode, 0);
    assert_eq!(sys_fstat(&fs, 9), None);
}

#[test]
fn linkat_makes_a_second_name_for_the_same_inode() {
    let mut fs = FsState::new();
    let fd = sys_open(&mut fs, &name("a"), O_CREATE | O_WRONLY) as usize;
    assert_eq!(sys_write(&mut fs, fd, b"xyz"), 3);
    assert_eq!(sys_linkat(&mut fs, 0, &name("a"), 0, &name("b"), 0), 0);
    assert_eq!(fs.root.len(), 2);
    assert_eq!(fs.root[1].name, name("b"));
    assert_eq!(fs.root[1].inode, fs.root[0].inode);
    assert_eq!(fs.inodes.len(), 1);
    // a write through the new name is read back through the old one
    let fd_b = sys_open(&mut fs, &name("b"), O_WRONLY) as usize;
    fs.fd_table[fd_b].as_mut().unwrap().offset = 3;
    assert_eq!(sys_write(&mut fs, fd_b, b"!"), 1);
    let fd_a = sys_open(&mut fs, &name("a"), O_RDONLY) as usize;
    let (step, data) = sys_read(&mut fs, fd_a, 10);
    assert_eq!(step, Step::Return(4));
    assert_eq!(data, b"xyz!".to_vec());
}

#[test]
fn linkat_errors() {
    let mut fs = FsState::new();
    assert!(sys_open(&mut fs, &name("a"), O_CREATE) >= 0);
    assert!(sys_open(&mut fs, &name("b"), O_CREATE) >= 0);
    assert_eq!(sys_linkat(&mut fs, 0, &name("a"), 0, &name("a"), 0), -1);
    assert_eq!(sys_linkat(&mut fs, 0, &name("missing"), 0, &name("c"), 0), -1);
    assert_eq!(sys_linkat(&mut fs, 0, &name("a"), 0, &name("b"), 0), -1);
    assert_eq!(fs.root.len(), 2);
}

#[test]
fn unlinkat_removes_the_name_only() {
    let mut fs = FsState::new();
    let fd = sys_open(&mut fs, &name("a"), O_CREATE | O_WRONLY) as usize;
    assert_eq!(sys_write(&mut fs, fd, b"xyz"), 3);
    assert_eq!(sys_linkat(&mut fs, 0, &name("a"), 0, &name("b"), 0), 0);
    assert_eq!(sys_unlinkat(&mut fs, &name("a")), 0);
    assert_eq!(fs.root.len(), 1);
    assert_eq!(fs.root[0].name, name("b"));
    // the old name is gone, the other name still reaches the contents
    assert_eq!(sys_open(&mut fs, &name("a"), O_RDONLY), -1);
    let fd_b = sys_open(&mut fs, &name("b"), O_RDONLY) as usize;
    let (step, data) = sys_read(&mut fs, fd_b, 10);
    assert_eq!(step, Step::Return(3));
    assert_eq!(data, b"xyz".to_vec());
    assert_eq!(sys_unlinkat(&mut fs, &name("a")), -1);
    assert_eq!(sys_unlinkat(&mut fs, &name("nope")), -1);
}

#[test]
fn stdin_reads_one_byte_or_retries() {
    let mut fs = FsState::new();
    let (step, data) = sys_read(&mut fs, 0, 1);
    assert_eq!(step, Step::Yield);
    assert!(data.is_empty());
    fs.push_input(b'q');
    let (step, data) = sys_read(&mut fs, 0, 1);
    assert_eq!(step, Step::Return(1));
    assert_eq!(data, vec![b'q']);
    assert!(fs.stdin.is_empty());
    // stdout is not readable
    assert_eq!(sys_read(&mut fs, 1, 1).0, Step::Return(-1));
}

#[test]
fn descriptor_kinds_at_start() {
    let fs = FsState::new();
    assert_eq!(fs.fd_table[0].unwrap().kind, FileKind::Stdin);
    assert_eq!(fs.fd_table[1].unwrap().kind, FileKind::Stdout);
}

#[test]
fn fstat_counts_links() {
    let mut fs = FsState::new();
    assert!(sys_open(&mut fs, &name("x"), O_CREATE) >= 0);
    let fd = sys_open(&mut fs, &name("a"), O_CREATE) as usize;
    assert_eq!(sys_fstat(&fs, fd), Some(Stat { dev: 0, ino: 1, mode: S_FILE, nlink: 1 }));
    assert_eq!(sys_linkat(&mut fs, 0, &name("a"), 0, &name("b"), 0), 0);
    assert_eq!(sys_linkat(&mut fs, 0, &name("b"), 0, &name("c"), 0), 0);
    assert_eq!(sys_fstat(&fs, fd).unwrap().nlink, 3);
    assert_eq!(sys_unlinkat(&mut fs, &name("a")), 0);
    assert_eq!(sys_fstat(&fs, fd), Some(Stat { dev: 0, ino: 1, mode: S_FILE, nlink: 2 }));
    assert_eq!(sys_fstat(&fs, 0), Some(Stat { dev: 0, ino: 0, mode: 0, nlink: 0 }));
}
