//! Files: a flat root directory of named inodes, the console, and a process's
//! descriptor table, with the file system calls on them.
use crate::slots::{alloc_slot, slot_for, placed};
use crate::sync::Step;
use std::collections::VecDeque;
use vstd::prelude::*;

verus! {

/// Open flags.
pub const O_RDONLY: u32 = 0;

pub const O_WRONLY: u32 = 1;

pub const O_RDWR: u32 = 2;

pub const O_CREATE: u32 = 512;

pub const O_TRUNC: u32 = 1024;

/// `mode` of a directory in [`Stat`].
pub const S_DIR: u32 = 0o040000;

/// `mode` of a regular file in [`Stat`].
pub const S_FILE: u32 = 0o100000;

/// What a descriptor refers to.
#[derive(Clone, Copy, Debug, PartialEq, Eq, Structural)]
pub enum FileKind {
    Stdin,
    Stdout,
    /// The inode with this number.
    Inode(usize),
}

/// An open file.
#[derive(Clone, Copy, Debug, PartialEq, Eq, Structural)]
pub struct FileDesc {
    pub kind: FileKind,
    pub readable: bool,
    pub writable: bool,
    pub offset: usize,
}

/// File status as `fstat` reports it.
#[derive(Clone, Copy, Debug, PartialEq, Eq, Structural)]
pub struct Stat {
    pub dev: u64,
    pub ino: u64,
    pub mode: u32,
    pub nlink: u32,
}

/// A file's contents.
pub struct Inode {
    pub data: Vec<u8>,
    pub is_dir: bool,
}

/// An inode as the contracts see it.
pub struct InodeModel {
    pub data: Seq<u8>,
    pub is_dir: bool,
}

impl DeepView for Inode {
    type V = InodeModel;

    open spec fn deep_view(&self) -> InodeModel {
        InodeModel { data: self.data@, is_dir: self.is_dir }
    }
}

/// An entry of the root directory: a name for an inode.
pub struct DirEntry {
    pub name: Vec<u8>,
    pub inode: usize,
}

/// A directory entry as the contracts see it.
pub struct DirEntryModel {
    pub name: Seq<u8>,
    pub inode: usize,
}

impl DeepView for DirEntry {
    type V = DirEntryModel;

    open spec fn deep_view(&self) -> DirEntryModel {
        DirEntryModel { name: self.name@, inode: self.inode }
    }
}

/// The root directory, the console and one process's descriptor table.
pub struct FsState {
    pub fd_table: Vec<Option<FileDesc>>,
    /// The root directory's entries.
    pub root: Vec<DirEntry>,
    /// Inodes, by number.
    pub inodes: Vec<Inode>,
    /// Bytes written to the console, in order.
    pub stdout: Vec<u8>,
    /// Bytes typed on the console and not read yet.
    pub stdin: VecDeque<u8>,
}

/// The file state as the contracts see it.
pub struct FsModel {
    pub fds: Seq<Option<FileDesc>>,
    pub entries: Seq<DirEntryModel>,
    pub inodes: Seq<InodeModel>,
    pub stdout: Seq<u8>,
    pub stdin: Seq<u8>,
}

impl View for FsState {
    type V = FsModel;

    open spec fn view(&self) -> FsModel {
        FsModel {
            fds: self.fd_table@,
            entries: self.root.deep_view(),
            inodes: self.inodes.deep_view(),
            stdout: self.stdout@,
            stdin: self.stdin@,
        }
    }
}

/// An open file names an existing inode; a console descriptor can only be
/// read (stdin) or only be written (stdout).
pub open spec fn desc_wf(s: FsModel, d: FileDesc) -> bool {
    match d.kind {
        FileKind::Inode(i) => i < s.inodes.len(),
        FileKind::Stdin => d.readable && !d.writable,
        FileKind::Stdout => !d.readable && d.writable,
    }
}

/// Every open descriptor is well formed (see [`desc_wf`]).
pub open spec fn fds_wf(s: FsModel) -> bool {
    forall|fd: int| 0 <= fd < s.fds.len() && #[trigger] s.fds[fd] is Some ==> desc_wf(s, s.fds[fd]->Some_0)
}

/// Directory entries name existing inodes, each name at most once.
pub open spec fn entries_wf(s: FsModel) -> bool {
    &&& forall|k: int| 0 <= k < s.entries.len() ==> #[trigger] s.entries[k].inode < s.inodes.len()
    &&& forall|a: int, b: int|
        0 <= a < s.entries.len() && 0 <= b < s.entries.len() && a != b ==> #[trigger] s.entries[a].name
            != #[trigger] s.entries[b].name
}

/// The invariant of the file state.
pub open spec fn fs_wf(s: FsModel) -> bool {
    fds_wf(s) && entries_wf(s)
}

/// The descriptor table stays well formed when inodes are only added and
/// at most descriptor `fd` changes (or is added at the end), to a well-formed one.
proof fn lemma_fds_wf_change(s0: FsModel, s1: FsModel, fd: int)
    requires
        fds_wf(s0),
        s1.inodes.len() >= s0.inodes.len(),
        forall|f: int| 0 <= f < s1.fds.len() && f != fd ==> f < s0.fds.len() && #[trigger] s1.fds[f] == s0.fds[f],
        0 <= fd < s1.fds.len() && s1.fds[fd] is Some ==> desc_wf(s1, s1.fds[fd]->Some_0),
    ensures
        fds_wf(s1),
{
    assert forall|f: int| 0 <= f < s1.fds.len() && #[trigger] s1.fds[f] is Some implies desc_wf(s1, s1.fds[f]->Some_0) by {
        if f != fd {
            assert(s0.fds[f] is Some);
        }
    }
}

/// The descriptor table stays well formed when only inodes are added.
proof fn lemma_fds_wf_keep(s0: FsModel, s1: FsModel)
    requires
        fds_wf(s0),
        s1.fds == s0.fds,
        s1.inodes.len() >= s0.inodes.len(),
    ensures
        fds_wf(s1),
{
    lemma_fds_wf_change(s0, s1, -1);
}

proof fn lemma_entries_wf_keep(s0: FsModel, s1: FsModel)
    requires
        entries_wf(s0),
        s1.entries == s0.entries,
        s1.inodes.len() >= s0.inodes.len(),
    ensures
        entries_wf(s1),
{
    assert forall|k: int| 0 <= k < s1.entries.len() implies #[trigger] s1.entries[k].inode < s1.inodes.len() by {
        assert(s0.entries[k].inode < s0.inodes.len());
    }
}

/// The descriptor `fd` is open.
pub open spec fn fd_open(s: FsModel, fd: usize) -> bool {
    fd < s.fds.len() && s.fds[fd as int] is Some
}

pub open spec fn desc_of(s: FsModel, fd: usize) -> FileDesc {
    s.fds[fd as int]->Some_0
}

/// `i` is the first entry of `entries` called `name`.
pub open spec fn is_first_named(entries: Seq<DirEntryModel>, name: Seq<u8>, i: int) -> bool {
    &&& 0 <= i < entries.len()
    &&& entries[i].name == name
    &&& forall|k: int| 0 <= k < i ==> #[trigger] entries[k].name != name
}

/// No entry of `entries` is called `name`.
pub open spec fn no_file_named(entries: Seq<DirEntryModel>, name: Seq<u8>) -> bool {
    forall|k: int| 0 <= k < entries.len() ==> #[trigger] entries[k].name != name
}

/// `data` after `buf` is written at `offset`: the file grows to cover the
/// write, with zeros in any gap before `offset`.
pub open spec fn written(data: Seq<u8>, offset: int, buf: Seq<u8>) -> Seq<u8> {
    let end = offset + buf.len();
    Seq::new(
        (if end > data.len() {
            end
        } else {
            data.len() as int
        }) as nat,
        |k: int|
            if offset <= k < end {
                buf[k - offset]
            } else if k < data.len() {
                data[k]
            } else {
                0u8
            },
    )
}

/// How many bytes a read of `len` bytes at `offset` gets from a file of `size` bytes.
pub open spec fn read_count(size: int, offset: int, len: int) -> int {
    if offset >= size {
        0
    } else if size - offset < len {
        size - offset
    } else {
        len
    }
}

/// Which of reading and writing the open flags allow.
pub open spec fn flags_access(flags: u32) -> (bool, bool) {
    if flags == 0 {
        (true, false)
    } else if flags & O_WRONLY != 0 {
        (false, true)
    } else {
        (true, true)
    }
}

/// What `open` grants, read off the flag bits: a descriptor can be read
/// unless `O_WRONLY` is set, and written unless the flags are all clear
/// (`O_RDONLY`); so `O_RDWR` alone, or with `O_CREATE` or `O_TRUNC`, grants both.
pub proof fn law_open_access(flags: u32)
    ensures
        flags_access(flags).0 == (flags & O_WRONLY == 0),
        flags_access(flags).1 == (flags != 0),
        flags & O_WRONLY == 0 && flags & O_RDWR != 0 ==> flags_access(flags) == (true, true),
{
    assert(0u32 & 1u32 == 0u32) by (bit_vector);
    assert(flags & 1u32 == 0u32 && flags & 2u32 != 0u32 ==> flags != 0u32) by (bit_vector);
}

/// The flags name no bit beyond the known ones.
pub open spec fn flags_valid(flags: u32) -> bool {
    flags & !0x603u32 == 0
}

pub open spec fn cleared(f: InodeModel) -> InodeModel {
    InodeModel { data: Seq::empty(), ..f }
}

pub open spec fn set_desc(s: FsModel, fd: usize, d: FileDesc) -> FsModel {
    FsModel { fds: s.fds.update(fd as int, Some(d)), ..s }
}

/// `a` and `b` hold the same bytes.
pub fn bytes_eq(a: &Vec<u8>, b: &Vec<u8>) -> (r: bool)
    ensures
        r == (a@ == b@),
{
    if a.len() != b.len() {
        return false;
    }
    let mut i: usize = 0;
    while i < a.len()
        invariant
            a@.len() == b@.len(),
            i <= a@.len(),
            forall|k: int| 0 <= k < i ==> a@[k] == b@[k],
        decreases a@.len() - i,
    {
        if a[i] != b[i] {
            return false;
        }
        i = i + 1;
    }
    assert(a@ =~= b@);
    true
}

fn copy_bytes(a: &Vec<u8>) -> (r: Vec<u8>)
    ensures
        r@ == a@,
{
    let mut r: Vec<u8> = Vec::new();
    let mut i: usize = 0;
    while i < a.len()
        invariant
            i <= a@.len(),
            r@ == a@.take(i as int),
        decreases a@.len() - i,
    {
        r.push(a[i]);
        i = i + 1;
    }
    assert(a@.take(a@.len() as int) =~= a@);
    r
}

impl FsState {
    /// An empty root directory, an empty console, and descriptors 0 and 1
    /// open on stdin and stdout.
    pub fn new() -> (s: Self)
        ensures
            s@.fds == seq![
                Some(FileDesc { kind: FileKind::Stdin, readable: true, writable: false, offset: 0 }),
                Some(FileDesc { kind: FileKind::Stdout, readable: false, writable: true, offset: 0 }),
            ],
            s@.entries == Seq::<DirEntryModel>::empty(),
            s@.inodes == Seq::<InodeModel>::empty(),
            s@.stdout == Seq::<u8>::empty(),
            s@.stdin == Seq::<u8>::empty(),
            fs_wf(s@),
    {
        let mut fd_table: Vec<Option<FileDesc>> = Vec::new();
        fd_table.push(Some(FileDesc { kind: FileKind::Stdin, readable: true, writable: false, offset: 0 }));
        fd_table.push(Some(FileDesc { kind: FileKind::Stdout, readable: false, writable: true, offset: 0 }));
        let s = FsState {
            fd_table,
            root: Vec::new(),
            inodes: Vec::new(),
            stdout: Vec::new(),
            stdin: VecDeque::new(),
        };
        assert(s@.fds =~= seq![
            Some(FileDesc { kind: FileKind::Stdin, readable: true, writable: false, offset: 0 }),
            Some(FileDesc { kind: FileKind::Stdout, readable: false, writable: true, offset: 0 }),
        ]);
        assert(s@.entries =~= Seq::<DirEntryModel>::empty());
        assert(s@.inodes =~= Seq::<InodeModel>::empty());
        s
    }

    /// Appends bytes typed on the console.
    pub fn push_input(&mut self, byte: u8)
        ensures
            final(self)@ == (FsModel { stdin: old(self)@.stdin.push(byte), ..old(self)@ }),
    {
        self.stdin.push_back(byte);
    }

    /// The position of the directory entry called `name`.
    pub fn find(&self, name: &Vec<u8>) -> (r: Option<usize>)
        ensures
            r matches Some(i) ==> is_first_named(self@.entries, name@, i as int),
            r is None ==> no_file_named(self@.entries, name@),
    {
        let mut i: usize = 0;
        while i < self.root.len()
            invariant
                i <= self@.entries.len(),
                self@.entries.len() == self.root@.len(),
                forall|k: int| 0 <= k < i ==> #[trigger] self@.entries[k].name != name@,
            decreases self.root@.len() - i,
        {
            if bytes_eq(&self.root[i].name, name) {
                return Some(i);
            }
            i = i + 1;
        }
        None
    }

    /// Adds an empty regular file called `name` and returns its inode
    /// number; `None` when that name is taken.
    pub fn create(&mut self, name: &Vec<u8>) -> (r: Option<usize>)
        requires
            fs_wf(old(self)@),
        ensures
            no_file_named(old(self)@.entries, name@) ==> r is Some && r->Some_0 == old(self)@.inodes.len()
                && final(self)@ == (FsModel {
                entries: old(self)@.entries.push(DirEntryModel { name: name@, inode: r->Some_0 }),
                inodes: old(self)@.inodes.push(InodeModel { data: Seq::empty(), is_dir: false }),
                ..old(self)@
            }),
            !no_file_named(old(self)@.entries, name@) ==> r is None && final(self)@ == old(self)@,
            fs_wf(final(self)@),
    {
        if let Some(i) = self.find(name) {
            return None;
        }
        let id = self.inodes.len();
        let ghost s0 = self@;
        self.inodes.push(Inode { data: Vec::new(), is_dir: false });
        self.root.push(DirEntry { name: copy_bytes(name), inode: id });
        proof {
            let s1 = self@;
            assert(s1.inodes[id as int].data =~= Seq::<u8>::empty());
            assert(s1.inodes =~= s0.inodes.push(InodeModel { data: Seq::empty(), is_dir: false }));
            assert(s1.entries =~= s0.entries.push(DirEntryModel { name: name@, inode: id }));
            lemma_fds_wf_keep(s0, s1);
            assert forall|a: int, b: int|
                0 <= a < s1.entries.len() && 0 <= b < s1.entries.len() && a != b implies #[trigger] s1.entries[a].name
                    != #[trigger] s1.entries[b].name by {
                if a < s0.entries.len() && b < s0.entries.len() {
                    assert(s1.entries[a] == s0.entries[a] && s1.entries[b] == s0.entries[b]);
                } else if a < s0.entries.len() {
                    assert(s1.entries[a] == s0.entries[a]);
                } else {
                    assert(s1.entries[b] == s0.entries[b]);
                }
            }
            assert forall|k: int| 0 <= k < s1.entries.len() implies #[trigger] s1.entries[k].inode < s1.inodes.len() by {
                if k < s0.entries.len() {
                    assert(s1.entries[k] == s0.entries[k]);
                }
            }
        }
        Some(id)
    }

    /// Empties the contents of inode `i`.
    pub fn clear(&mut self, i: usize)
        requires
            i < old(self)@.inodes.len(),
        ensures
            final(self)@ == (FsModel {
                inodes: old(self)@.inodes.update(i as int, cleared(old(self)@.inodes[i as int])),
                ..old(self)@
            }),
    {
        let ghost s0 = self@;
        self.inodes[i].data = Vec::new();
        proof {
            assert(self@.inodes[i as int].data =~= Seq::<u8>::empty());
            assert(self@.inodes =~= s0.inodes.update(i as int, cleared(s0.inodes[i as int])));
        }
    }

    /// Writes `buf` into inode `i` at `offset` (see [`written`]).
    fn write_at(&mut self, i: usize, offset: usize, buf: &[u8])
        requires
            i < old(self)@.inodes.len(),
            offset + buf@.len() <= usize::MAX,
        ensures
            final(self)@ == (FsModel {
                inodes: old(self)@.inodes.update(
                    i as int,
                    InodeModel { data: written(old(self)@.inodes[i as int].data, offset as int, buf@), ..old(self)@.inodes[i as int] },
                ),
                ..old(self)@
            }),
    {
        let ghost s0 = self@;
        let ghost target = written(s0.inodes[i as int].data, offset as int, buf@);
        let old_len = self.inodes[i].data.len();
        let end = offset + buf.len();
        let new_len = if end > old_len {
            end
        } else {
            old_len
        };
        let mut out: Vec<u8> = Vec::new();
        let mut k: usize = 0;
        while k < new_len
            invariant
                s0 == self@,
                i < self@.inodes.len(),
                old_len == self@.inodes[i as int].data.len(),
                end == offset + buf@.len(),
                new_len == target.len(),
                target == written(s0.inodes[i as int].data, offset as int, buf@),
                k <= new_len,
                out@ == target.take(k as int),
            decreases new_len - k,
        {
            let b = if offset <= k && k < end {
                buf[k - offset]
            } else if k < old_len {
                self.inodes[i].data[k]
            } else {
                0u8
            };
            out.push(b);
            proof {
                assert(out@ =~= target.take(k as int + 1));
            }
            k = k + 1;
        }
        proof {
            assert(out@ =~= target);
        }
        self.inodes[i].data = out;
        proof {
            assert(self@.inodes =~= s0.inodes.update(
                i as int,
                InodeModel { data: target, ..s0.inodes[i as int] },
            ));
        }
    }
}

/// Writes `buf` through descriptor `fd` and returns the number of bytes
/// written; -1 when `fd` is not open or not writable. The console gets
/// the bytes appended; a file gets them at the descriptor's offset, which
/// then moves past them.
pub fn sys_write(fs: &mut FsState, fd: usize, buf: &[u8]) -> (r: isize)
    requires
        fs_wf(old(fs)@),
        buf@.len() <= isize::MAX,
        fd_open(old(fs)@, fd) ==> desc_of(old(fs)@, fd).offset + buf@.len() <= usize::MAX,
    ensures
        fs_wf(final(fs)@),
        !(fd_open(old(fs)@, fd) && desc_of(old(fs)@, fd).writable) ==> r == -1 && final(fs)@
            == old(fs)@,
        fd_open(old(fs)@, fd) && desc_of(old(fs)@, fd).writable ==> r == buf@.len() && match desc_of(
            old(fs)@,
            fd,
        ).kind {
            FileKind::Inode(i) => final(fs)@ == set_desc(
                FsModel {
                    inodes: old(fs)@.inodes.update(
                        i as int,
                        InodeModel {
                            data: written(old(fs)@.inodes[i as int].data, desc_of(old(fs)@, fd).offset as int, buf@),
                            ..old(fs)@.inodes[i as int]
                        },
                    ),
                    ..old(fs)@
                },
                fd,
                FileDesc { offset: (desc_of(old(fs)@, fd).offset + buf@.len()) as usize, ..desc_of(old(fs)@, fd) },
            ),
            _ => final(fs)@ == (FsModel { stdout: old(fs)@.stdout + buf@, ..old(fs)@ }),
        },
{
    if fd >= fs.fd_table.len() {
        return -1;
    }
    match fs.fd_table[fd] {
        Some(file) => {
            if !file.writable {
                return -1;
            }
            match file.kind {
                FileKind::Inode(i) => {
                    let ghost s0 = fs@;
                    fs.write_at(i, file.offset, buf);
                    let ghost s1 = fs@;
                    let new_desc = FileDesc { offset: file.offset + buf.len(), ..file };
                    fs.fd_table.set(fd, Some(new_desc));
                    proof {
                        assert(fs@.fds =~= s1.fds.update(fd as int, Some(new_desc)));
                        assert(fs@ == set_desc(s1, fd, new_desc));
                        lemma_entries_wf_keep(s0, fs@);
                        lemma_fds_wf_change(s0, fs@, fd as int);
                    }
                    buf.len() as isize
                },
                _ => {
                    let ghost s0 = fs@;
                    let mut k: usize = 0;
                    while k < buf.len()
                        invariant
                            k <= buf@.len(),
                            fs.stdout@ == s0.stdout + buf@.take(k as int),
                            fs.fd_table@ == s0.fds,
                            fs.inodes.deep_view() == s0.inodes,
                            fs.root.deep_view() == s0.entries,
                            fs.stdin@ == s0.stdin,
                        decreases buf@.len() - k,
                    {
                        fs.stdout.push(buf[k]);
                        proof {
                            assert(s0.stdout + buf@.take(k as int + 1) =~= (s0.stdout + buf@.take(k as int)).push(buf@[k as int]));
                        }
                        k = k + 1;
                    }
                    proof {
                        assert(buf@.take(buf@.len() as int) =~= buf@);
                    }
                    buf.len() as isize
                },
            }
        },
        None => -1,
    }
}

/// Reads up to `len` bytes through descriptor `fd`. A file gives what lies
/// at the descriptor's offset, which moves past it; the console gives one
/// byte, or makes the caller try again later when nothing was typed; -1
/// when `fd` is not open or not readable.
pub fn sys_read(fs: &mut FsState, fd: usize, len: usize) -> (r: (Step, Vec<u8>))
    requires
        fs_wf(old(fs)@),
        len <= isize::MAX,
        fd_open(old(fs)@, fd) && desc_of(old(fs)@, fd).kind == FileKind::Stdin ==> len == 1,
    ensures
        fs_wf(final(fs)@),
        !(fd_open(old(fs)@, fd) && desc_of(old(fs)@, fd).readable) ==> r.0 == Step::Return(-1isize)
            && r.1@ == Seq::<u8>::empty() && final(fs)@ == old(fs)@,
        fd_open(old(fs)@, fd) && desc_of(old(fs)@, fd).readable ==> match desc_of(old(fs)@, fd).kind {
            FileKind::Inode(i) => {
                let d = desc_of(old(fs)@, fd);
                let data = old(fs)@.inodes[i as int].data;
                let n = read_count(data.len() as int, d.offset as int, len as int);
                &&& r.0 == Step::Return(n as isize)
                &&& r.1@.len() == n
                &&& forall|k: int| 0 <= k < n ==> #[trigger] r.1@[k] == data[d.offset + k]
                &&& final(fs)@ == set_desc(old(fs)@, fd, FileDesc { offset: (d.offset + n) as usize, ..d })
            },
            _ => if old(fs)@.stdin.len() == 0 {
                r.0 == Step::Yield && r.1@ == Seq::<u8>::empty() && final(fs)@ == old(fs)@
            } else {
                &&& r.0 == Step::Return(1isize)
                &&& r.1@ == seq![old(fs)@.stdin[0]]
                &&& final(fs)@ == (FsModel { stdin: old(fs)@.stdin.drop_first(), ..old(fs)@ })
            },
        },
{
    if fd >= fs.fd_table.len() {
        return (Step::Return(-1), Vec::new());
    }
    match fs.fd_table[fd] {
        Some(file) => {
            if !file.readable {
                return (Step::Return(-1), Vec::new());
            }
            match file.kind {
                FileKind::Inode(i) => {
                    let ghost s0 = fs@;
                    let size = fs.inodes[i].data.len();
                    let n: usize = if file.offset >= size {
                        0
                    } else if size - file.offset < len {
                        size - file.offset
                    } else {
                        len
                    };
                    let mut out: Vec<u8> = Vec::new();
                    let mut k: usize = 0;
                    while k < n
                        invariant
                            s0 == fs@,
                            i < fs@.inodes.len(),
                            size == fs@.inodes[i as int].data.len(),
                            n > 0 ==> file.offset + n <= size,
                            k <= n,
                            out@.len() == k,
                            forall|q: int| 0 <= q < k ==> #[trigger] out@[q] == fs@.inodes[i as int].data[file.offset + q],
                        decreases n - k,
                    {
                        out.push(fs.inodes[i].data[file.offset + k]);
                        k = k + 1;
                    }
                    let new_desc = FileDesc { offset: file.offset + n, ..file };
                    fs.fd_table.set(fd, Some(new_desc));
                    proof {
                        assert(fs@.fds =~= s0.fds.update(fd as int, Some(new_desc)));
                        lemma_entries_wf_keep(s0, fs@);
                        lemma_fds_wf_change(s0, fs@, fd as int);
                    }
                    (Step::Return(n as isize), out)
                },
                _ => {
                    match fs.stdin.pop_front() {
                        Some(c) => {
                            let mut out: Vec<u8> = Vec::new();
                            out.push(c);
                            proof {
                                assert(out@ =~= seq![c]);
                            }
                            (Step::Return(1), out)
                        },
                        None => (Step::Yield, Vec::new()),
                    }
                },
            }
        },
        None => (Step::Return(-1), Vec::new()),
    }
}

/// Opens the root-directory file called `path` and returns its new
/// descriptor (the first free one, or a new one at the end). With
/// `O_CREATE` a missing file is created and an existing one emptied;
/// without it a missing file fails the call with -1, and `O_TRUNC` empties
/// an existing one. Access follows [`flags_access`].
pub fn sys_open(fs: &mut FsState, path: &Vec<u8>, flags: u32) -> (r: isize)
    requires
        fs_wf(old(fs)@),
        flags_valid(flags),
        old(fs)@.fds.len() < isize::MAX,
    ensures
        fs_wf(final(fs)@),
        final(fs)@.stdout == old(fs)@.stdout,
        final(fs)@.stdin == old(fs)@.stdin,
        no_file_named(old(fs)@.entries, path@) && flags & O_CREATE == 0 ==> r == -1 && final(fs)@ == old(fs)@,
        no_file_named(old(fs)@.entries, path@) && flags & O_CREATE != 0 ==> {
            &&& r >= 0
            &&& slot_for(old(fs)@.fds, r as int)
            &&& final(fs)@.entries == old(fs)@.entries.push(
                DirEntryModel { name: path@, inode: old(fs)@.inodes.len() as usize },
            )
            &&& final(fs)@.inodes == old(fs)@.inodes.push(InodeModel { data: Seq::empty(), is_dir: false })
            &&& final(fs)@.fds == placed(
                old(fs)@.fds,
                r as int,
                FileDesc {
                    kind: FileKind::Inode(old(fs)@.inodes.len() as usize),
                    readable: flags_access(flags).0,
                    writable: flags_access(flags).1,
                    offset: 0,
                },
            )
        },
        forall|i: int|
            #[trigger] is_first_named(old(fs)@.entries, path@, i) ==> {
                let ino = old(fs)@.entries[i].inode;
                &&& r >= 0
                &&& slot_for(old(fs)@.fds, r as int)
                &&& final(fs)@.entries == old(fs)@.entries
                &&& final(fs)@.inodes == if flags & O_CREATE != 0 || flags & O_TRUNC != 0 {
                    old(fs)@.inodes.update(ino as int, cleared(old(fs)@.inodes[ino as int]))
                } else {
                    old(fs)@.inodes
                }
                &&& final(fs)@.fds == placed(
                    old(fs)@.fds,
                    r as int,
                    FileDesc {
                        kind: FileKind::Inode(ino),
                        readable: flags_access(flags).0,
                        writable: flags_access(flags).1,
                        offset: 0,
                    },
                )
            },
{
    let ghost s0 = fs@;
    let (readable, writable) = if flags == 0 {
        (true, false)
    } else if flags & O_WRONLY != 0 {
        (false, true)
    } else {
        (true, true)
    };
    let inode: Option<usize> = if flags & O_CREATE != 0 {
        match fs.find(path) {
            Some(i) => {
                let ino = fs.root[i].inode;
                assert(s0.entries[i as int].inode == ino);
                assert(ino < s0.inodes.len());
                fs.clear(ino);
                proof {
                    lemma_fds_wf_keep(s0, fs@);
                    lemma_entries_wf_keep(s0, fs@);
                }
                Some(ino)
            },
            None => fs.create(path),
        }
    } else {
        match fs.find(path) {
            Some(i) => {
                let ino = fs.root[i].inode;
                assert(s0.entries[i as int].inode == ino);
                assert(ino < s0.inodes.len());
                if flags & O_TRUNC != 0 {
                    fs.clear(ino);
                    proof {
                        lemma_fds_wf_keep(s0, fs@);
                        lemma_entries_wf_keep(s0, fs@);
                    }
                }
                Some(ino)
            },
            None => None,
        }
    };
    proof {
        assert forall|i: int, j: int|
            is_first_named(s0.entries, path@, i) && is_first_named(s0.entries, path@, j) implies i == j by {
            if i < j {
                assert(s0.entries[i].name != path@);
            } else if j < i {
                assert(s0.entries[j].name != path@);
            }
        }
        assert forall|i: int| is_first_named(s0.entries, path@, i) implies !no_file_named(s0.entries, path@) by {
            assert(s0.entries[i].name == path@);
        }
    }
    match inode {
        Some(i) => {
            let ghost s1 = fs@;
            let desc = FileDesc { kind: FileKind::Inode(i), readable, writable, offset: 0 };
            let fd = alloc_slot(&mut fs.fd_table, desc);
            proof {
                assert(i < s1.inodes.len());
                lemma_fds_wf_change(s1, fs@, fd as int);
                assert forall|k: int| 0 <= k < fs@.entries.len() implies #[trigger] fs@.entries[k].inode < fs@.inodes.len() by {
                    assert(s1.entries[k].inode < s1.inodes.len());
                }
            }
            fd as isize
        },
        None => -1,
    }
}

/// Closes descriptor `fd`; -1 when it is not open.
pub fn sys_close(fs: &mut FsState, fd: usize) -> (r: isize)
    requires
        fs_wf(old(fs)@),
    ensures
        fs_wf(final(fs)@),
        !fd_open(old(fs)@, fd) ==> r == -1 && final(fs)@ == old(fs)@,
        fd_open(old(fs)@, fd) ==> r == 0 && final(fs)@ == (FsModel {
            fds: old(fs)@.fds.update(fd as int, None),
            ..old(fs)@
        }),
{
    if fd >= fs.fd_table.len() {
        return -1;
    }
    if fs.fd_table[fd].is_none() {
        return -1;
    }
    let ghost s0 = fs@;
    fs.fd_table.set(fd, None);
    proof {
        lemma_entries_wf_keep(s0, fs@);
        lemma_fds_wf_change(s0, fs@, fd as int);
    }
    0
}

/// How many entries of `entries` name inode `ino`.
pub open spec fn link_count(entries: Seq<DirEntryModel>, ino: usize) -> nat
    decreases entries.len(),
{
    if entries.len() == 0 {
        0
    } else {
        link_count(entries.drop_last(), ino) + if entries.last().inode == ino {
            1nat
        } else {
            0nat
        }
    }
}

proof fn lemma_link_count_bound(entries: Seq<DirEntryModel>, ino: usize)
    ensures
        link_count(entries, ino) <= entries.len(),
    decreases entries.len(),
{
    if entries.len() > 0 {
        lemma_link_count_bound(entries.drop_last(), ino);
    }
}

/// How many directory entries name inode `ino`.
fn count_links(fs: &FsState, ino: usize) -> (n: usize)
    ensures
        n == link_count(fs@.entries, ino),
{
    let ghost e = fs@.entries;
    let mut n: usize = 0;
    let mut k: usize = 0;
    while k < fs.root.len()
        invariant
            e == fs@.entries,
            e.len() == fs.root@.len(),
            k <= e.len(),
            n == link_count(e.take(k as int), ino),
        decreases e.len() - k,
    {
        proof {
            assert(e.take(k as int + 1).drop_last() =~= e.take(k as int));
            lemma_link_count_bound(e.take(k as int), ino);
        }
        if fs.root[k].inode == ino {
            n = n + 1;
        }
        k = k + 1;
    }
    proof {
        assert(e.take(e.len() as int) =~= e);
    }
    n
}

/// The status of the file open as `fd`: for a file its inode number, a
/// mode that tells a directory from a regular file, and the number of
/// directory entries that name it; the console has all fields 0. `None`
/// (the call fails with -1) when `fd` is not open.
pub fn sys_fstat(fs: &FsState, fd: usize) -> (r: Option<Stat>)
    requires
        fs_wf(fs@),
        fs@.entries.len() <= u32::MAX,
    ensures
        !fd_open(fs@, fd) ==> r is None,
        fd_open(fs@, fd) ==> r == Some(
            match desc_of(fs@, fd).kind {
                FileKind::Inode(i) => Stat {
                    dev: 0,
                    ino: i as u64,
                    mode: if fs@.inodes[i as int].is_dir {
                        S_DIR
                    } else {
                        S_FILE
                    },
                    nlink: link_count(fs@.entries, i) as u32,
                },
                _ => Stat { dev: 0, ino: 0, mode: 0, nlink: 0 },
            },
        ),
{
    if fd >= fs.fd_table.len() {
        return None;
    }
    match fs.fd_table[fd] {
        Some(file) => {
            let mut stat = Stat { dev: 0, ino: 0, mode: 0, nlink: 0 };
            match file.kind {
                FileKind::Inode(i) => {
                    if fs.inodes[i].is_dir {
                        stat.mode = stat.mode | S_DIR;
                    } else {
                        stat.mode = stat.mode | S_FILE;
                    }
                    assert(0u32 | S_DIR == S_DIR) by (bit_vector);
                    assert(0u32 | S_FILE == S_FILE) by (bit_vector);
                    stat.ino = i as u64;
                    let n = count_links(fs, i);
                    proof {
                        lemma_link_count_bound(fs@.entries, i);
                    }
                    stat.nlink = n as u32;
                },
                _ => {},
            }
            Some(stat)
        },
        None => None,
    }
}

/// Makes `newpath` a second name for the inode that `oldpath` names, so that
/// both names reach the same contents; -1 when the two names are the same,
/// `oldpath` does not exist, or `newpath` exists already. The directory
/// descriptors and `flags` are not used.
pub fn sys_linkat(fs: &mut FsState, olddirfd: i32, oldpath: &Vec<u8>, newdirfd: i32, newpath: &Vec<u8>, flags: u32) -> (r: isize)
    requires
        fs_wf(old(fs)@),
    ensures
        fs_wf(final(fs)@),
        r == 0 || r == -1,
        r == 0 <==> (oldpath@ != newpath@ && !no_file_named(old(fs)@.entries, oldpath@) && no_file_named(
            old(fs)@.entries,
            newpath@,
        )),
        r == -1 ==> final(fs)@ == old(fs)@,
        forall|i: int|
            #[trigger] is_first_named(old(fs)@.entries, oldpath@, i) && r == 0 ==> final(fs)@ == (FsModel {
                entries: old(fs)@.entries.push(
                    DirEntryModel { name: newpath@, inode: old(fs)@.entries[i].inode },
                ),
                ..old(fs)@
            }),
{
    if bytes_eq(oldpath, newpath) {
        return -1;
    }
    let ghost s0 = fs@;
    match fs.find(oldpath) {
        Some(old_entry) => {
            let found_new = fs.find(newpath);
            if found_new.is_some() {
                return -1;
            }
            assert(no_file_named(s0.entries, newpath@));
            let ino = fs.root[old_entry].inode;
            assert(s0.entries[old_entry as int].inode == ino);
            fs.root.push(DirEntry { name: copy_bytes(newpath), inode: ino });
            proof {
                let s1 = fs@;
                assert(s1.entries =~= s0.entries.push(DirEntryModel { name: newpath@, inode: ino }));
                assert(s1.inodes == s0.inodes);
                lemma_fds_wf_keep(s0, s1);
                assert forall|a: int, b: int|
                    0 <= a < s1.entries.len() && 0 <= b < s1.entries.len() && a != b implies #[trigger] s1.entries[a].name
                        != #[trigger] s1.entries[b].name by {
                    if a < s0.entries.len() && b < s0.entries.len() {
                        assert(s1.entries[a] == s0.entries[a] && s1.entries[b] == s0.entries[b]);
                    } else if a < s0.entries.len() {
                        assert(s1.entries[a] == s0.entries[a]);
                    } else {
                        assert(s1.entries[b] == s0.entries[b]);
                    }
                }
                assert forall|k: int| 0 <= k < s1.entries.len() implies #[trigger] s1.entries[k].inode < s1.inodes.len() by {
                    if k < s0.entries.len() {
                        assert(s1.entries[k] == s0.entries[k]);
                    } else {
                        assert(s0.entries[old_entry as int].inode < s0.inodes.len());
                    }
                }
                assert forall|i: int| #[trigger] is_first_named(s0.entries, oldpath@, i) implies i == old_entry by {
                    if i < old_entry {
                        assert(s0.entries[i].name != oldpath@);
                    } else if old_entry < i {
                        assert(s0.entries[old_entry as int].name != oldpath@);
                    }
                }
                assert(s0.entries[old_entry as int].name == oldpath@);
            }
            0
        },
        None => {
            proof {
                assert(no_file_named(s0.entries, oldpath@));
            }
            -1
        },
    }
}

/// Removes the directory entry called `name`, leaving the other entries
/// and every inode as they were; -1 when there is no such entry.
pub fn sys_unlinkat(fs: &mut FsState, name: &Vec<u8>) -> (r: isize)
    requires
        fs_wf(old(fs)@),
    ensures
        fs_wf(final(fs)@),
        no_file_named(old(fs)@.entries, name@) ==> r == -1 && final(fs)@ == old(fs)@,
        forall|i: int|
            #[trigger] is_first_named(old(fs)@.entries, name@, i) ==> r == 0 && final(fs)@ == (FsModel {
                entries: old(fs)@.entries.remove(i),
                ..old(fs)@
            }),
        r == 0 ==> no_file_named(final(fs)@.entries, name@),
{
    let ghost s0 = fs@;
    match fs.find(name) {
        Some(i) => {
            let _removed = fs.root.remove(i);
            proof {
                let s1 = fs@;
                let e = s0.entries.remove(i as int);
                assert(s1.entries =~= e);
                lemma_fds_wf_keep(s0, s1);
                assert forall|a: int, b: int|
                    0 <= a < s1.entries.len() && 0 <= b < s1.entries.len() && a != b implies #[trigger] s1.entries[a].name
                        != #[trigger] s1.entries[b].name by {
                    let a0 = if a < i { a } else { a + 1 };
                    let b0 = if b < i { b } else { b + 1 };
                    assert(s1.entries[a] == s0.entries[a0]);
                    assert(s1.entries[b] == s0.entries[b0]);
                }
                assert forall|k: int| 0 <= k < s1.entries.len() implies #[trigger] s1.entries[k].inode < s1.inodes.len() by {
                    let k0 = if k < i { k } else { k + 1 };
                    assert(s1.entries[k] == s0.entries[k0]);
                }
                assert forall|k: int| 0 <= k < s1.entries.len() implies #[trigger] s1.entries[k].name != name@ by {
                    let k0 = if k < i { k } else { k + 1 };
                    assert(s1.entries[k] == s0.entries[k0]);
                    assert(s0.entries[k0].name != s0.entries[i as int].name);
                }
                assert forall|j: int| #[trigger] is_first_named(s0.entries, name@, j) implies j == i by {
                    if j < i {
                        assert(s0.entries[j].name != name@);
                    } else if i < j {
                        assert(s0.entries[i as int].name != name@);
                    }
                }
            }
            0
        },
        None => {
            proof {
                assert forall|j: int| #[trigger] is_first_named(s0.entries, name@, j) implies false by {
                    assert(s0.entries[j].name == name@);
                }
            }
            -1
        },
    }
}

/// Reading back what was just written at the same offset gives the written
/// bytes: the read gets all of them, and each is the one that was written.
pub proof fn law_read_after_write(data: Seq<u8>, offset: int, buf: Seq<u8>)
    requires
        0 <= offset,
    ensures
        read_count(written(data, offset, buf).len() as int, offset, buf.len() as int) == buf.len(),
        forall|k: int| 0 <= k < buf.len() ==> #[trigger] written(data, offset, buf)[offset + k] == buf[k],
{
}

/// A write leaves every byte outside the written range as it was, and the
/// file never shrinks.
pub proof fn law_write_keeps_the_rest(data: Seq<u8>, offset: int, buf: Seq<u8>)
    requires
        0 <= offset,
    ensures
        written(data, offset, buf).len() >= data.len(),
        forall|k: int|
            0 <= k < data.len() && !(offset <= k < offset + buf.len()) ==> #[trigger] written(data, offset, buf)[k]
                == data[k],
{
}

} // verus!
