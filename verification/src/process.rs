//! The process tree and the processor: which process runs, which are ready,
//! and the calls that create, replace, wait for and end processes.
use crate::fs::bytes_eq;
use crate::manager::{TaskEntry, TaskManager, can_fetch, is_first_min, advanced};
use crate::memory::{MemoryModel, MemorySet};
use crate::slots::{alloc_slot, slot_for, placed, lemma_slot_for_deep};
use vstd::prelude::*;

verus! {

/// Pid of the first process; it adopts the children of processes that exit.
pub const INITPROC_PID: usize = 0;

/// Priority of a newly created process.
pub const DEFAULT_PRIORITY: usize = 16;

/// The registers a process resumes with when it goes back to user mode.
#[derive(Clone, Copy, Debug, PartialEq, Eq, Structural)]
pub struct TrapContext {
    /// Register a0 (x10), where a system call's result is returned.
    pub a0: usize,
    /// The user stack pointer.
    pub sp: usize,
    /// The user address execution resumes at.
    pub sepc: usize,
}

/// A program that can be started: its name, the address space its ELF file
/// loads into, its entry point and the top of its user stack.
pub struct AppImage {
    pub name: Vec<u8>,
    pub memory_set: MemorySet,
    pub entry_point: usize,
    pub user_sp: usize,
}

/// A program as the contracts see it.
pub struct AppModel {
    pub name: Seq<u8>,
    pub memory: MemoryModel,
    pub entry_point: usize,
    pub user_sp: usize,
}

impl DeepView for AppImage {
    type V = AppModel;

    open spec fn deep_view(&self) -> AppModel {
        AppModel { name: self.name@, memory: self.memory_set@, entry_point: self.entry_point, user_sp: self.user_sp }
    }
}

/// The registers a process starts program `a` with: at its entry point,
/// on its user stack, a0 zero.
pub open spec fn app_init_context(a: AppModel) -> TrapContext {
    TrapContext { a0: 0, sp: a.user_sp, sepc: a.entry_point }
}

/// A process control block.
pub struct Pcb {
    pub parent: Option<usize>,
    pub children: Vec<usize>,
    pub zombie: bool,
    pub exit_code: i32,
    pub memory_set: MemorySet,
    pub trap_cx: TrapContext,
}

/// A process control block as the contracts see it.
pub struct PcbModel {
    pub parent: Option<usize>,
    pub children: Seq<usize>,
    pub zombie: bool,
    pub exit_code: i32,
    pub memory: MemoryModel,
    pub trap_cx: TrapContext,
}

impl DeepView for Pcb {
    type V = PcbModel;

    open spec fn deep_view(&self) -> PcbModel {
        PcbModel {
            parent: self.parent,
            children: self.children@,
            zombie: self.zombie,
            exit_code: self.exit_code,
            memory: self.memory_set@,
            trap_cx: self.trap_cx,
        }
    }
}

/// All processes (indexed by pid), the running one, the ready queue, and
/// the programs that can be started.
pub struct ProcessTable {
    pub procs: Vec<Option<Pcb>>,
    pub current: Option<TaskEntry>,
    pub manager: TaskManager,
    pub apps: Vec<AppImage>,
}

/// The process table as the contracts see it.
pub struct TableModel {
    pub procs: Seq<Option<PcbModel>>,
    pub current: Option<TaskEntry>,
    pub ready: Seq<TaskEntry>,
    pub apps: Seq<AppModel>,
}

impl View for ProcessTable {
    type V = TableModel;

    open spec fn view(&self) -> TableModel {
        TableModel {
            procs: self.procs.deep_view(),
            current: self.current,
            ready: self.manager@,
            apps: self.apps.deep_view(),
        }
    }
}

pub open spec fn valid_pid(t: TableModel, p: int) -> bool {
    0 <= p < t.procs.len() && t.procs[p] is Some
}

pub open spec fn pcb(t: TableModel, p: int) -> PcbModel {
    t.procs[p]->Some_0
}

/// Pid of the running process.
pub open spec fn cur(t: TableModel) -> int {
    t.current->Some_0.pid as int
}

/// The invariant of the process tree: the first process lives on; the
/// running process and the ready ones exist and have not exited, each at
/// most once and the running one not among the ready; every child exists,
/// names its lister as parent and is listed once; a process that exited has
/// no children left.
pub open spec fn table_wf(t: TableModel) -> bool {
    &&& valid_pid(t, INITPROC_PID as int)
    &&& !pcb(t, INITPROC_PID as int).zombie
    &&& pcb(t, INITPROC_PID as int).parent is None
    &&& forall|p: int| #[trigger] valid_pid(t, p) ==> pcb(t, p).parent != Some(p as usize)
    &&& t.procs.len() <= isize::MAX
    &&& t.current is Some ==> valid_pid(t, cur(t)) && !pcb(t, cur(t)).zombie
    &&& forall|p: int, k: int|
        valid_pid(t, p) && 0 <= k < pcb(t, p).children.len() ==> valid_pid(t, #[trigger] pcb(t, p).children[k] as int)
            && pcb(t, pcb(t, p).children[k] as int).parent == Some(p as usize)
    &&& forall|p: int| #[trigger] valid_pid(t, p) ==> pcb(t, p).children.no_duplicates()
    &&& forall|p: int| #[trigger] valid_pid(t, p) && pcb(t, p).zombie ==> pcb(t, p).children.len() == 0
    &&& forall|k: int|
        0 <= k < t.ready.len() ==> valid_pid(t, #[trigger] t.ready[k].pid as int) && !pcb(t, t.ready[k].pid as int).zombie
    &&& forall|i: int, j: int| 0 <= i < t.ready.len() && 0 <= j < t.ready.len() && i != j ==> #[trigger] t.ready[i].pid != #[trigger] t.ready[j].pid
    &&& t.current is Some ==> forall|k: int| 0 <= k < t.ready.len() ==> #[trigger] t.ready[k].pid != t.current->Some_0.pid
}

/// `pid` (as `waitpid` takes it) selects child `c`: -1 selects any child.
pub open spec fn selects(pid: isize, c: usize) -> bool {
    pid == -1 || pid == c as int
}

/// `k` is the first position in the running process's children of an
/// exited child that `pid` selects.
pub open spec fn is_first_waitable(t: TableModel, pid: isize, k: int) -> bool {
    let ch = pcb(t, cur(t)).children;
    &&& 0 <= k < ch.len()
    &&& selects(pid, ch[k]) && pcb(t, ch[k] as int).zombie
    &&& forall|q: int| 0 <= q < k ==> !(selects(pid, #[trigger] ch[q]) && pcb(t, ch[q] as int).zombie)
}

/// A process newly created by the running one, with address space `memory`
/// and registers `trap_cx`.
pub open spec fn new_child(t: TableModel, memory: MemoryModel, trap_cx: TrapContext) -> PcbModel {
    PcbModel {
        parent: Some(cur(t) as usize),
        children: Seq::empty(),
        zombie: false,
        exit_code: 0,
        memory,
        trap_cx,
    }
}

/// The table after the running process creates child `pid` (see
/// [`slot_for`]) with address space `memory` and registers `trap_cx`.
pub open spec fn with_child(t: TableModel, pid: int, memory: MemoryModel, trap_cx: TrapContext) -> TableModel {
    let procs1 = placed(t.procs, pid, new_child(t, memory, trap_cx));
    TableModel {
        procs: procs1.update(
            cur(t),
            Some(PcbModel { children: pcb(t, cur(t)).children.push(pid as usize), ..pcb(t, cur(t)) }),
        ),
        ready: t.ready.push(TaskEntry { pid: pid as usize, stride: 0, priority: DEFAULT_PRIORITY }),
        ..t
    }
}

/// The processes after process `c` exits with `code`: it becomes a zombie
/// with no children and no mapped page, and the first process adopts its
/// children.
pub open spec fn exited_procs(t: TableModel, c: int, code: i32) -> Seq<Option<PcbModel>> {
    let ch = pcb(t, c).children;
    Seq::new(
        t.procs.len(),
        |p: int|
            if p == c {
                Some(
                    PcbModel {
                        zombie: true,
                        exit_code: code,
                        children: Seq::empty(),
                        memory: MemoryModel { pages: Map::empty(), ..pcb(t, c).memory },
                        ..pcb(t, c)
                    },
                )
            } else if p == INITPROC_PID as int {
                Some(PcbModel { children: pcb(t, p).children + ch, ..pcb(t, p) })
            } else if t.procs[p] is Some && ch.contains(p as usize) {
                Some(PcbModel { parent: Some(INITPROC_PID), ..pcb(t, p) })
            } else {
                t.procs[p]
            },
    )
}

/// `i` is the first program called `name`.
pub open spec fn is_first_app(apps: Seq<AppModel>, name: Seq<u8>, i: int) -> bool {
    &&& 0 <= i < apps.len()
    &&& apps[i].name == name
    &&& forall|k: int| 0 <= k < i ==> #[trigger] apps[k].name != name
}

/// No program is called `name`.
pub open spec fn no_app_named(apps: Seq<AppModel>, name: Seq<u8>) -> bool {
    forall|k: int| 0 <= k < apps.len() ==> #[trigger] apps[k].name != name
}

/// The table after the running process replaces its image with program
/// `a`: its address space becomes a copy of the program's and it starts
/// the program afresh; its pid, parent and children stay.
pub open spec fn with_image(t: TableModel, a: AppModel) -> TableModel {
    TableModel {
        procs: t.procs.update(
            cur(t),
            Some(PcbModel { memory: a.memory, trap_cx: app_init_context(a), ..pcb(t, cur(t)) }),
        ),
        ..t
    }
}

/// `a` and `b` have the same parent, children and zombie flag.
pub open spec fn same_tree_node(a: PcbModel, b: PcbModel) -> bool {
    a.parent == b.parent && a.children == b.children && a.zombie == b.zombie
}

/// The invariant only looks at which processes exist and at their parents,
/// children and zombie flags.
proof fn lemma_wf_same_tree(t0: TableModel, t1: TableModel)
    requires
        table_wf(t0),
        t1.current == t0.current,
        t1.ready == t0.ready,
        t1.procs.len() == t0.procs.len(),
        forall|p: int| #[trigger] valid_pid(t1, p) == valid_pid(t0, p),
        forall|p: int| valid_pid(t0, p) ==> same_tree_node(#[trigger] pcb(t1, p), pcb(t0, p)),
    ensures
        table_wf(t1),
{
    assert(valid_pid(t0, INITPROC_PID as int));
    assert(pcb(t1, INITPROC_PID as int).zombie == pcb(t0, INITPROC_PID as int).zombie);
    assert forall|p: int, k: int|
        valid_pid(t1, p) && 0 <= k < pcb(t1, p).children.len() implies valid_pid(t1, #[trigger] pcb(t1, p).children[k] as int)
            && pcb(t1, pcb(t1, p).children[k] as int).parent == Some(p as usize) by {
        assert(valid_pid(t0, p));
        assert(pcb(t1, p).children == pcb(t0, p).children);
        let y = pcb(t0, p).children[k] as int;
        assert(valid_pid(t0, y));
        assert(valid_pid(t1, y));
        assert(pcb(t1, y).parent == pcb(t0, y).parent);
    }
    assert forall|p: int| #[trigger] valid_pid(t1, p) implies pcb(t1, p).children.no_duplicates() by {
        assert(valid_pid(t0, p));
        assert(pcb(t1, p).children == pcb(t0, p).children);
    }
    assert forall|p: int| #[trigger] valid_pid(t1, p) implies pcb(t1, p).parent != Some(p as usize) by {
        assert(valid_pid(t0, p));
        assert(pcb(t1, p).parent == pcb(t0, p).parent);
    }
    assert forall|p: int| #[trigger] valid_pid(t1, p) && pcb(t1, p).zombie implies pcb(t1, p).children.len() == 0 by {
        assert(valid_pid(t0, p));
        assert(pcb(t1, p).zombie == pcb(t0, p).zombie);
    }
    assert forall|k: int| 0 <= k < t1.ready.len() implies valid_pid(t1, #[trigger] t1.ready[k].pid as int) && !pcb(t1, t1.ready[k].pid as int).zombie by {
        assert(valid_pid(t0, t0.ready[k].pid as int));
        assert(pcb(t1, t0.ready[k].pid as int).zombie == pcb(t0, t0.ready[k].pid as int).zombie);
    }
    if t1.current is Some {
        assert(valid_pid(t0, cur(t0)));
        assert(pcb(t1, cur(t1)).zombie == pcb(t0, cur(t0)).zombie);
    }
}

/// The parts of the invariant that only look at the process table.
proof fn lemma_wf_same_procs(t0: TableModel, t1: TableModel)
    requires
        table_wf(t0),
        t1.procs == t0.procs,
    ensures
        valid_pid(t1, INITPROC_PID as int),
        !pcb(t1, INITPROC_PID as int).zombie,
        pcb(t1, INITPROC_PID as int).parent is None,
        forall|p: int| #[trigger] valid_pid(t1, p) ==> pcb(t1, p).parent != Some(p as usize),
        t1.procs.len() <= isize::MAX,
        forall|p: int, k: int|
            valid_pid(t1, p) && 0 <= k < pcb(t1, p).children.len() ==> valid_pid(t1, #[trigger] pcb(t1, p).children[k] as int)
                && pcb(t1, pcb(t1, p).children[k] as int).parent == Some(p as usize),
        forall|p: int| #[trigger] valid_pid(t1, p) ==> pcb(t1, p).children.no_duplicates(),
        forall|p: int| #[trigger] valid_pid(t1, p) && pcb(t1, p).zombie ==> pcb(t1, p).children.len() == 0,
{
    assert forall|p: int, k: int|
        valid_pid(t1, p) && 0 <= k < pcb(t1, p).children.len() implies valid_pid(t1, #[trigger] pcb(t1, p).children[k] as int)
            && pcb(t1, pcb(t1, p).children[k] as int).parent == Some(p as usize) by {
        assert(valid_pid(t0, p));
        assert(valid_pid(t0, pcb(t0, p).children[k] as int));
    }
    assert forall|p: int| #[trigger] valid_pid(t1, p) implies pcb(t1, p).children.no_duplicates() by {
        assert(valid_pid(t0, p));
    }
    assert forall|p: int| #[trigger] valid_pid(t1, p) implies pcb(t1, p).parent != Some(p as usize) by {
        assert(valid_pid(t0, p));
    }
    assert forall|p: int| #[trigger] valid_pid(t1, p) && pcb(t1, p).zombie implies pcb(t1, p).children.len() == 0 by {
        assert(valid_pid(t0, p));
    }
}


impl ProcessTable {
    /// A table holding only the first process, running program `init` of
    /// `apps`, with the given programs.
    pub fn new(apps: Vec<AppImage>, init: usize) -> (t: Self)
        requires
            init < apps@.len(),
        ensures
            t@.procs == seq![
                Some(
                    PcbModel {
                        parent: None,
                        children: Seq::empty(),
                        zombie: false,
                        exit_code: 0,
                        memory: apps.deep_view()[init as int].memory,
                        trap_cx: app_init_context(apps.deep_view()[init as int]),
                    },
                ),
            ],
            t@.current == Some(TaskEntry { pid: INITPROC_PID, stride: 0, priority: DEFAULT_PRIORITY }),
            t@.ready == Seq::<TaskEntry>::empty(),
            t@.apps == apps.deep_view(),
            table_wf(t@),
    {
        let ghost a = apps.deep_view()[init as int];
        let memory_set = MemorySet::from_existed_user(&apps[init].memory_set);
        let trap_cx = TrapContext { a0: 0, sp: apps[init].user_sp, sepc: apps[init].entry_point };
        let mut procs: Vec<Option<Pcb>> = Vec::new();
        procs.push(Some(Pcb { parent: None, children: Vec::new(), zombie: false, exit_code: 0, memory_set, trap_cx }));
        let t = ProcessTable {
            procs,
            current: Some(TaskEntry { pid: INITPROC_PID, stride: 0, priority: DEFAULT_PRIORITY }),
            manager: TaskManager::new(),
            apps,
        };
        proof {
            assert(t@.procs[0]->Some_0.children =~= Seq::<usize>::empty());
            assert(t@.procs =~= seq![
                Some(
                    PcbModel {
                        parent: None,
                        children: Seq::empty(),
                        zombie: false,
                        exit_code: 0,
                        memory: a.memory,
                        trap_cx: app_init_context(a),
                    },
                ),
            ]);
        }
        t
    }

    /// The index of the first program called `path`.
    pub fn find_app(&self, path: &Vec<u8>) -> (r: Option<usize>)
        ensures
            r matches Some(i) ==> is_first_app(self@.apps, path@, i as int),
            r is None ==> no_app_named(self@.apps, path@),
    {
        let mut i: usize = 0;
        while i < self.apps.len()
            invariant
                i <= self.apps@.len(),
                self@.apps.len() == self.apps@.len(),
                forall|k: int| 0 <= k < i ==> #[trigger] self@.apps[k].name != path@,
            decreases self.apps@.len() - i,
        {
            if bytes_eq(&self.apps[i].name, path) {
                return Some(i);
            }
            i = i + 1;
        }
        None
    }

    /// The processor picks the next process to run from the ready queue (the
    /// stride scheduler's choice) and returns its pid; `None` when nothing
    /// is ready.
    pub fn run_next(&mut self) -> (r: Option<usize>)
        requires
            table_wf(old(self)@),
            old(self)@.current is None,
            can_fetch(old(self)@.ready),
        ensures
            table_wf(final(self)@),
            final(self)@.procs == old(self)@.procs,
            final(self)@.apps == old(self)@.apps,
            old(self)@.ready.len() == 0 ==> r is None && final(self)@ == old(self)@,
            old(self)@.ready.len() > 0 ==> exists|k: int|
                #[trigger] is_first_min(old(self)@.ready, k) && r == Some(old(self)@.ready[k].pid)
                    && final(self)@.current == Some(advanced(old(self)@.ready[k]))
                    && final(self)@.ready == old(self)@.ready.remove(k),
    {
        let ghost t0 = self@;
        let next = self.manager.fetch();
        match next {
            Some(t) => {
                self.current = Some(t);
                proof {
                    let k = choose|k: int| #[trigger] is_first_min(t0.ready, k) && t == advanced(t0.ready[k]) && self.manager@ == t0.ready.remove(k);
                    let t1 = self@;
                    lemma_wf_same_procs(t0, t1);
                    assert(valid_pid(t0, t.pid as int) && !pcb(t0, t.pid as int).zombie) by {
                        assert(t0.ready[k].pid == t.pid);
                    }
                    assert forall|q: int| 0 <= q < t1.ready.len() implies #[trigger] t1.ready[q].pid != t1.current->Some_0.pid by {
                        if q < k {
                            assert(t1.ready[q] == t0.ready[q]);
                        } else {
                            assert(t1.ready[q] == t0.ready[q + 1]);
                        }
                    }
                    assert forall|k2: int| 0 <= k2 < t1.ready.len() implies valid_pid(t1, #[trigger] t1.ready[k2].pid as int) && !pcb(t1, t1.ready[k2].pid as int).zombie by {
                        if k2 < k {
                            assert(t1.ready[k2] == t0.ready[k2]);
                        } else {
                            assert(t1.ready[k2] == t0.ready[k2 + 1]);
                        }
                    }
                    assert forall|i: int, j: int| 0 <= i < t1.ready.len() && 0 <= j < t1.ready.len() && i != j implies #[trigger] t1.ready[i].pid != #[trigger] t1.ready[j].pid by {
                        let i0 = if i < k { i } else { i + 1 };
                        let j0 = if j < k { j } else { j + 1 };
                        assert(t1.ready[i] == t0.ready[i0]);
                        assert(t1.ready[j] == t0.ready[j0]);
                    }
                }
                Some(t.pid)
            },
            None => None,
        }
    }

}


impl ProcessTable {
    fn take_pcb(&mut self, p: usize) -> (b: Pcb)
        requires
            valid_pid(old(self)@, p as int),
        ensures
            b.deep_view() == pcb(old(self)@, p as int),
            final(self)@ == (TableModel { procs: old(self)@.procs.update(p as int, None), ..old(self)@ }),
    {
        let slot = self.procs[p].take();
        proof {
            assert(self@.procs =~= old(self)@.procs.update(p as int, None));
        }
        match slot {
            Some(b) => b,
            None => {
                proof {
                    assert(false);
                }
                Pcb {
                    parent: None,
                    children: Vec::new(),
                    zombie: false,
                    exit_code: 0,
                    memory_set: MemorySet::new(0),
                    trap_cx: TrapContext { a0: 0, sp: 0, sepc: 0 },
                }
            },
        }
    }

    fn put_pcb(&mut self, p: usize, b: Pcb)
        requires
            p < old(self)@.procs.len(),
        ensures
            final(self)@ == (TableModel { procs: old(self)@.procs.update(p as int, Some(b.deep_view())), ..old(self)@ }),
    {
        assert(self.procs@.len() == self@.procs.len());
        self.procs.set(p, Some(b));
        proof {
            assert(self@.procs =~= old(self)@.procs.update(p as int, Some(b.deep_view())));
        }
    }

    /// The running process gets a new child in the first free pid slot (or a
    /// new one at the end), with address space `memory_set` and registers
    /// `trap_cx`, which is made ready.
    fn create_child(&mut self, memory_set: MemorySet, trap_cx: TrapContext) -> (pid: usize)
        requires
            table_wf(old(self)@),
            old(self)@.current is Some,
            old(self)@.procs.len() < isize::MAX,
        ensures
            slot_for(old(self)@.procs, pid as int),
            final(self)@ == with_child(old(self)@, pid as int, memory_set@, trap_cx),
            table_wf(final(self)@),
    {
        let ghost t0 = self@;
        let ghost mm = memory_set@;
        let c = match self.current {
            Some(t) => t.pid,
            None => 0,
        };
        let child = Pcb { parent: Some(c), children: Vec::new(), zombie: false, exit_code: 0, memory_set, trap_cx };
        let ghost cm = child.deep_view();
        let pid = alloc_slot(&mut self.procs, child);
        let ghost t1 = self@;
        proof {
            lemma_slot_for_deep(old(self).procs@, t0.procs, pid as int);
            assert(cm == new_child(t0, mm, trap_cx)) by {
                assert(cm.children =~= Seq::<usize>::empty());
            }
            assert(t1.procs =~= placed(t0.procs, pid as int, new_child(t0, mm, trap_cx)));
            assert(pid != c) by {
                if pid < t0.procs.len() {
                    assert(t0.procs[pid as int] is None);
                }
            }
            assert(valid_pid(t1, c as int));
        }
        let mut parent = self.take_pcb(c);
        parent.children.push(pid);
        self.put_pcb(c, parent);
        self.manager.add(TaskEntry { pid, stride: 0, priority: DEFAULT_PRIORITY });
        proof {
            let t2 = self@;
            assert(pcb(t1, c as int) == pcb(t0, c as int));
            assert(t2.procs =~= with_child(t0, pid as int, mm, trap_cx).procs);
            assert(t2.ready =~= with_child(t0, pid as int, mm, trap_cx).ready);
            assert(t2 == with_child(t0, pid as int, mm, trap_cx));
            // the invariant
            let ch0 = pcb(t0, c as int).children;
            assert(!ch0.contains(pid)) by {
                if ch0.contains(pid) {
                    let a = choose|a: int| 0 <= a < ch0.len() && ch0[a] == pid;
                    assert(valid_pid(t0, ch0[a] as int));
                }
            }
            assert forall|p: int| valid_pid(t2, p) && p != pid implies valid_pid(t0, p) && pcb(t2, p).parent == pcb(t0, p).parent && pcb(t2, p).zombie == pcb(t0, p).zombie by {
                if pid < t0.procs.len() {
                    assert(p != pid);
                }
            }
            assert forall|p: int, k: int|
                valid_pid(t2, p) && 0 <= k < pcb(t2, p).children.len() implies valid_pid(t2, #[trigger] pcb(t2, p).children[k] as int)
                    && pcb(t2, pcb(t2, p).children[k] as int).parent == Some(p as usize) by {
                if p == pid {
                } else if p == c {
                    if k < ch0.len() {
                        assert(pcb(t2, p).children[k] == ch0[k]);
                        assert(valid_pid(t0, ch0[k] as int));
                        assert(ch0[k] != pid);
                    }
                } else {
                    assert(valid_pid(t0, p));
                    assert(pcb(t2, p).children == pcb(t0, p).children);
                    assert(valid_pid(t0, pcb(t0, p).children[k] as int));
                    assert(pcb(t0, p).children[k] != pid) by {
                        if pid < t0.procs.len() {
                            assert(t0.procs[pid as int] is None);
                        }
                    }
                }
            }
            assert forall|p: int| #[trigger] valid_pid(t2, p) implies pcb(t2, p).children.no_duplicates() by {
                if p == c {
                    let ch = pcb(t2, p).children;
                    assert(ch == ch0.push(pid));
                    assert forall|a: int, b: int| 0 <= a < ch.len() && 0 <= b < ch.len() && a != b implies ch[a] != ch[b] by {
                        if a < ch0.len() && b < ch0.len() {
                        } else if a < ch0.len() {
                            assert(ch0.contains(ch[a]));
                        } else if b < ch0.len() {
                            assert(ch0.contains(ch[b]));
                        }
                    }
                } else if p != pid {
                    assert(valid_pid(t0, p));
                } else {
                    assert(pcb(t2, p).children =~= Seq::<usize>::empty());
                }
            }
            assert forall|p: int| #[trigger] valid_pid(t2, p) implies pcb(t2, p).parent != Some(p as usize) by {
                if p != pid && p != c {
                    assert(valid_pid(t0, p));
                } else if p == c {
                    assert(valid_pid(t0, p));
                }
            }
            assert forall|p: int| #[trigger] valid_pid(t2, p) && pcb(t2, p).zombie implies pcb(t2, p).children.len() == 0 by {
                if p != pid && p != c {
                    assert(valid_pid(t0, p));
                }
            }
            assert forall|k: int| 0 <= k < t2.ready.len() implies valid_pid(t2, #[trigger] t2.ready[k].pid as int) && !pcb(t2, t2.ready[k].pid as int).zombie by {
                if k < t0.ready.len() {
                    assert(t2.ready[k] == t0.ready[k]);
                    assert(valid_pid(t0, t0.ready[k].pid as int));
                    assert(t0.ready[k].pid != pid) by {
                        if pid < t0.procs.len() {
                            assert(t0.procs[pid as int] is None);
                        }
                    }
                }
            }
            assert forall|i: int, j: int| 0 <= i < t2.ready.len() && 0 <= j < t2.ready.len() && i != j implies #[trigger] t2.ready[i].pid != #[trigger] t2.ready[j].pid by {
                if i < t0.ready.len() {
                    assert(valid_pid(t0, t0.ready[i].pid as int));
                    assert(t2.ready[i] == t0.ready[i]);
                }
                if j < t0.ready.len() {
                    assert(valid_pid(t0, t0.ready[j].pid as int));
                    assert(t2.ready[j] == t0.ready[j]);
                }
                if pid < t0.procs.len() {
                    assert(t0.procs[pid as int] is None);
                }
            }
            assert forall|k: int| 0 <= k < t2.ready.len() implies #[trigger] t2.ready[k].pid != t2.current->Some_0.pid by {
                if k < t0.ready.len() {
                    assert(t2.ready[k] == t0.ready[k]);
                }
            }
            assert(valid_pid(t2, INITPROC_PID as int));
        }
        pid
    }

}


/// The table after the running process reaps its exited child at position
/// `k` of its children: the child leaves the list and its pid slot is freed.
pub open spec fn reaped(t: TableModel, k: int) -> TableModel {
    let ch = pcb(t, cur(t)).children;
    TableModel {
        procs: t.procs.update(cur(t), Some(PcbModel { children: ch.remove(k), ..pcb(t, cur(t)) })).update(
            ch[k] as int,
            None,
        ),
        ..t
    }
}





/// A parent that waits for a child which has exited reaps it: the child is
/// the first waitable one for its own pid, and the code it exited with is
/// what the parent gets.
pub proof fn law_wait_reaps_exited_child(t: TableModel, code: i32, parent: TaskEntry)
    requires
        table_wf(t),
        t.current is Some,
        cur(t) != INITPROC_PID,
        valid_pid(t, parent.pid as int),
        pcb(t, parent.pid as int).children.contains(cur(t) as usize),
    ensures
        ({
            let c = cur(t) as usize;
            let t2 = TableModel { procs: exited_procs(t, c as int, code), current: Some(parent), ..t };
            exists|k: int|
                #[trigger] is_first_waitable(t2, c as isize, k) && pcb(t2, c as int).exit_code == code
                    && pcb(t2, cur(t2)).children[k] == c
        }),
{
    let c = cur(t) as usize;
    let p = parent.pid as int;
    let t2 = TableModel { procs: exited_procs(t, c as int, code), current: Some(parent), ..t };
    let ch = pcb(t, p).children;
    let k = choose|k: int| 0 <= k < ch.len() && ch[k] == c;
    assert(valid_pid(t, c as int));
    assert(p != c as int) by {
        assert(pcb(t, c as int).parent == Some(p as usize));
    }
    assert(ch.no_duplicates());
    if p == INITPROC_PID as int {
        assert(pcb(t2, p).children == ch + pcb(t, c as int).children);
        assert(pcb(t2, p).children[k] == c);
    } else {
        assert(pcb(t2, p).children == ch);
    }
    let ch2 = pcb(t2, p).children;
    assert(c as isize == c as int) by {
        assert(c < t.procs.len());
    }
    assert forall|q: int| 0 <= q < k implies !(selects(c as isize, #[trigger] ch2[q]) && pcb(t2, ch2[q] as int).zombie) by {
        assert(ch2[q] == ch[q]);
        assert(ch[q] != ch[k]);
    }
    assert(is_first_waitable(t2, c as isize, k));
}

/// Right after a fork, waiting for the new child finds it still running:
/// the child is selected, but no selected child has exited.
pub proof fn law_wait_running_child(t: TableModel, pid: int, memory: MemoryModel, trap_cx: TrapContext)
    requires
        table_wf(t),
        t.current is Some,
        slot_for(t.procs, pid),
        t.procs.len() < isize::MAX,
    ensures
        ({
            let t2 = with_child(t, pid, memory, trap_cx);
            &&& exists|k: int|
                0 <= k < pcb(t2, cur(t2)).children.len() && selects(pid as isize, #[trigger] pcb(t2, cur(t2)).children[k])
            &&& forall|k: int| !#[trigger] is_first_waitable(t2, pid as isize, k)
        }),
{
    let t2 = with_child(t, pid, memory, trap_cx);
    let c = cur(t);
    assert(valid_pid(t, c));
    assert(pid != c) by {
        if pid < t.procs.len() {
            assert(t.procs[pid] is None);
        }
    }
    let ch = pcb(t, c).children;
    let ch2 = pcb(t2, c).children;
    assert(ch2 == ch.push(pid as usize));
    assert(pid as isize == pid);
    assert(ch2[ch.len() as int] == pid as usize);
    assert(selects(pid as isize, ch2[ch.len() as int]));
    assert forall|k: int| !#[trigger] is_first_waitable(t2, pid as isize, k) by {
        if is_first_waitable(t2, pid as isize, k) {
            if k < ch.len() {
                assert(ch2[k] == ch[k]);
                assert(valid_pid(t, ch[k] as int));
                if pid < t.procs.len() {
                    assert(t.procs[pid] is None);
                }
                assert(ch[k] as int != pid);
            } else {
                assert(!pcb(t2, pid).zombie);
            }
        }
    }
}

/// Pid of the running process.
pub fn sys_getpid(table: &ProcessTable) -> (r: isize)
    requires
        table_wf(table@),
        table@.current is Some,
    ensures
        r == cur(table@),
{
    match table.current {
        Some(t) => t.pid as isize,
        None => 0,
    }
}

/// The running process goes back to the ready queue and no process runs.
fn suspend_current(table: &mut ProcessTable) -> (r: isize)
    requires
        table_wf(old(table)@),
        old(table)@.current is Some,
    ensures
        r == 0,
        final(table)@ == (TableModel {
            current: None,
            ready: old(table)@.ready.push(old(table)@.current->Some_0),
            ..old(table)@
        }),
        table_wf(final(table)@),
{
    let ghost t0 = table@;
    match table.current {
        Some(t) => {
            table.manager.add(t);
        },
        None => {},
    }
    table.current = None;
    proof {
        let t1 = table@;
        lemma_wf_same_procs(t0, t1);
        let c = t0.current->Some_0;
        assert forall|i: int, j: int| 0 <= i < t1.ready.len() && 0 <= j < t1.ready.len() && i != j implies #[trigger] t1.ready[i].pid != #[trigger] t1.ready[j].pid by {
            if i < t0.ready.len() && j < t0.ready.len() {
                assert(t1.ready[i] == t0.ready[i] && t1.ready[j] == t0.ready[j]);
            } else if i < t0.ready.len() {
                assert(t1.ready[i] == t0.ready[i]);
                assert(t0.ready[i].pid != c.pid);
            } else {
                assert(t1.ready[j] == t0.ready[j]);
                assert(t0.ready[j].pid != c.pid);
            }
        }
        assert forall|k: int| 0 <= k < t1.ready.len() implies valid_pid(t1, #[trigger] t1.ready[k].pid as int) && !pcb(t1, t1.ready[k].pid as int).zombie by {
            if k < t0.ready.len() {
                assert(t1.ready[k] == t0.ready[k]);
            }
        }
    }
    0
}

/// Sets the running process's priority to `prio` and returns it; -1 when
/// `prio` is below 2.
pub fn sys_set_priority(table: &mut ProcessTable, prio: isize) -> (r: isize)
    requires
        table_wf(old(table)@),
        old(table)@.current is Some,
    ensures
        table_wf(final(table)@),
        prio < 2 ==> r == -1 && final(table)@ == old(table)@,
        prio >= 2 ==> r == prio && final(table)@ == (TableModel {
            current: Some(TaskEntry { priority: prio as usize, ..old(table)@.current->Some_0 }),
            ..old(table)@
        }),
{
    if prio < 2 {
        return -1;
    }
    let ghost t0 = table@;
    match table.current {
        Some(t) => {
            table.current = Some(TaskEntry { priority: prio as usize, ..t });
        },
        None => {},
    }
    proof {
        lemma_wf_same_procs(t0, table@);
    }
    prio
}

/// The registers a forked child resumes with: its parent's, except that
/// the call returns 0 in the child.
pub open spec fn forked_context(parent: TrapContext) -> TrapContext {
    TrapContext { a0: 0, ..parent }
}

/// The running process forks: a child is created in the first free pid
/// slot (or a new one at the end) with a copy of its parent's address space
/// and registers, except that the call returns 0 in the child, and made
/// ready; its pid is returned to the parent.
pub fn sys_fork(table: &mut ProcessTable) -> (r: isize)
    requires
        table_wf(old(table)@),
        old(table)@.current is Some,
        old(table)@.procs.len() < isize::MAX,
    ensures
        r >= 0,
        slot_for(old(table)@.procs, r as int),
        final(table)@ == with_child(
            old(table)@,
            r as int,
            pcb(old(table)@, cur(old(table)@)).memory,
            forked_context(pcb(old(table)@, cur(old(table)@)).trap_cx),
        ),
        table_wf(final(table)@),
{
    let c = match table.current {
        Some(t) => t.pid,
        None => 0,
    };
    assert(valid_pid(table@, c as int));
    let (memory_set, trap_cx) = match &table.procs[c] {
        Some(p) => (MemorySet::from_existed_user(&p.memory_set), TrapContext { a0: 0, ..p.trap_cx }),
        None => (MemorySet::new(0), TrapContext { a0: 0, sp: 0, sepc: 0 }),
    };
    let pid = table.create_child(memory_set, trap_cx);
    pid as isize
}

/// The first program called `path`, its position being unique.
proof fn lemma_first_app_unique(apps: Seq<AppModel>, name: Seq<u8>, i: int, j: int)
    requires
        is_first_app(apps, name, i),
        is_first_app(apps, name, j),
    ensures
        i == j,
{
    if i < j {
        assert(apps[i].name != name);
    } else if j < i {
        assert(apps[j].name != name);
    }
}

/// The running process starts the first program called `path` as a new
/// child, in the first free pid slot (or a new one at the end), with a copy
/// of the program's address space, at its entry point; the child is made
/// ready and its pid is returned, or -1 when there is no such program.
pub fn sys_spawn(table: &mut ProcessTable, path: &Vec<u8>) -> (r: isize)
    requires
        table_wf(old(table)@),
        old(table)@.current is Some,
        old(table)@.procs.len() < isize::MAX,
    ensures
        table_wf(final(table)@),
        no_app_named(old(table)@.apps, path@) ==> r == -1 && final(table)@ == old(table)@,
        forall|i: int|
            #[trigger] is_first_app(old(table)@.apps, path@, i) ==> r >= 0 && slot_for(old(table)@.procs, r as int)
                && final(table)@ == with_child(
                old(table)@,
                r as int,
                old(table)@.apps[i].memory,
                app_init_context(old(table)@.apps[i]),
            ),
{
    let ghost t0 = table@;
    match table.find_app(path) {
        Some(i) => {
            let memory_set = MemorySet::from_existed_user(&table.apps[i].memory_set);
            let trap_cx = TrapContext { a0: 0, sp: table.apps[i].user_sp, sepc: table.apps[i].entry_point };
            assert(trap_cx == app_init_context(t0.apps[i as int]));
            let pid = table.create_child(memory_set, trap_cx);
            proof {
                assert forall|j: int| #[trigger] is_first_app(t0.apps, path@, j) implies j == i by {
                    lemma_first_app_unique(t0.apps, path@, i as int, j);
                }
            }
            pid as isize
        },
        None => {
            proof {
                assert forall|j: int| #[trigger] is_first_app(t0.apps, path@, j) implies false by {
                    assert(t0.apps[j].name == path@);
                }
            }
            -1
        },
    }
}

/// The running process replaces its image with the first program called
/// `path`: its address space becomes a copy of the program's and it starts
/// the program at its entry point, keeping its pid, parent and children;
/// 0 is returned, or -1, with nothing changed, when there is no such
/// program.
pub fn sys_exec(table: &mut ProcessTable, path: &Vec<u8>) -> (r: isize)
    requires
        table_wf(old(table)@),
        old(table)@.current is Some,
    ensures
        table_wf(final(table)@),
        no_app_named(old(table)@.apps, path@) ==> r == -1 && final(table)@ == old(table)@,
        forall|i: int|
            #[trigger] is_first_app(old(table)@.apps, path@, i) ==> r == 0 && final(table)@ == with_image(
                old(table)@,
                old(table)@.apps[i],
            ),
{
    let ghost t0 = table@;
    match table.find_app(path) {
        Some(i) => {
            let c = match table.current {
                Some(t) => t.pid,
                None => 0,
            };
            assert(valid_pid(t0, c as int));
            let memory_set = MemorySet::from_existed_user(&table.apps[i].memory_set);
            let trap_cx = TrapContext { a0: 0, sp: table.apps[i].user_sp, sepc: table.apps[i].entry_point };
            let mut p = table.take_pcb(c);
            p.memory_set = memory_set;
            p.trap_cx = trap_cx;
            table.put_pcb(c, p);
            proof {
                let t1 = table@;
                let a = t0.apps[i as int];
                assert(t1 == with_image(t0, a)) by {
                    assert(t1.procs =~= with_image(t0, a).procs);
                }
                lemma_wf_same_tree(t0, t1);
                assert forall|j: int| #[trigger] is_first_app(t0.apps, path@, j) implies j == i by {
                    lemma_first_app_unique(t0.apps, path@, i as int, j);
                }
            }
            0
        },
        None => {
            proof {
                assert forall|j: int| #[trigger] is_first_app(t0.apps, path@, j) implies false by {
                    assert(t0.apps[j].name == path@);
                }
            }
            -1
        },
    }
}

/// Waits for a child of the running process: `pid` -1 means any child.
/// Returns -1 when no child is selected, -2 when the selected children
/// are all still running, and otherwise reaps the first selected child
/// that exited, returning its pid and exit code.
pub fn sys_waitpid(table: &mut ProcessTable, pid: isize) -> (r: (isize, Option<i32>))
    requires
        table_wf(old(table)@),
        old(table)@.current is Some,
    ensures
        table_wf(final(table)@),
        (forall|k: int|
            0 <= k < pcb(old(table)@, cur(old(table)@)).children.len() ==> !selects(
                pid,
                #[trigger] pcb(old(table)@, cur(old(table)@)).children[k],
            )) ==> r == (-1isize, None::<i32>) && final(table)@ == old(table)@,
        (exists|k: int|
            0 <= k < pcb(old(table)@, cur(old(table)@)).children.len() && selects(
                pid,
                #[trigger] pcb(old(table)@, cur(old(table)@)).children[k],
            )) && (forall|k: int| !#[trigger] is_first_waitable(old(table)@, pid, k)) ==> r == (-2isize, None::<i32>)
            && final(table)@ == old(table)@,
        forall|k: int|
            #[trigger] is_first_waitable(old(table)@, pid, k) ==> {
                let c = pcb(old(table)@, cur(old(table)@)).children[k];
                &&& r == (c as isize, Some(pcb(old(table)@, c as int).exit_code))
                &&& final(table)@ == reaped(old(table)@, k)
            },
{
    let ghost t0 = table@;
    let c = match table.current {
        Some(t) => t.pid,
        None => 0,
    };
    let ghost ch = pcb(t0, c as int).children;
    assert(valid_pid(t0, c as int));
    let n = match &table.procs[c] {
        Some(p) => p.children.len(),
        None => 0,
    };
    assert(n == ch.len());
    let mut any = false;
    let mut i: usize = 0;
    while i < n && !any
        invariant
            t0 == table@,
            valid_pid(t0, c as int),
            ch == pcb(t0, c as int).children,
            n == ch.len(),
            i <= n,
            !any ==> forall|q: int| 0 <= q < i ==> !selects(pid, #[trigger] ch[q]),
            any ==> exists|q: int| 0 <= q < n && selects(pid, #[trigger] ch[q]),
        decreases n - i + if any { 0int } else { 1int },
    {
        let x = match &table.procs[c] {
            Some(p) => p.children[i],
            None => 0,
        };
        if pid == -1 || (pid >= 0 && pid as usize == x) {
            any = true;
            assert(selects(pid, ch[i as int]));
        } else {
            i = i + 1;
        }
    }
    if !any {
        return (-1, None);
    }
    let mut j: usize = 0;
    let mut found = false;
    while j < n && !found
        invariant
            t0 == table@,
            table_wf(t0),
            valid_pid(t0, c as int),
            c as int == cur(t0),
            ch == pcb(t0, c as int).children,
            n == ch.len(),
            j <= n,
            !found ==> forall|q: int| 0 <= q < j ==> !(selects(pid, #[trigger] ch[q]) && pcb(t0, ch[q] as int).zombie),
            found ==> j < n && is_first_waitable(t0, pid, j as int),
        decreases n - j + if found { 0int } else { 1int },
    {
        let x = match &table.procs[c] {
            Some(p) => p.children[j],
            None => 0,
        };
        assert(valid_pid(t0, x as int));
        let z = match &table.procs[x] {
            Some(p) => p.zombie,
            None => false,
        };
        if (pid == -1 || (pid >= 0 && pid as usize == x)) && z {
            found = true;
        } else {
            j = j + 1;
        }
    }
    if !found {
        proof {
            assert forall|k: int| !#[trigger] is_first_waitable(t0, pid, k) by {
                if is_first_waitable(t0, pid, k) {
                    assert(selects(pid, ch[k]) && pcb(t0, ch[k] as int).zombie);
                }
            }
        }
        return (-2, None);
    }
    let mut parent = table.take_pcb(c);
    let child = parent.children.remove(j);
    table.put_pcb(c, parent);
    let ghost t1 = table@;
    assert(child == ch[j as int]);
    assert(valid_pid(t0, child as int));
    assert(child != c) by {
        assert(!pcb(t0, c as int).zombie);
    }
    assert(table.procs@.len() == t1.procs.len());
    assert(t1.procs[child as int] == t0.procs[child as int]);
    let code = match &table.procs[child] {
        Some(p) => p.exit_code,
        None => 0,
    };
    table.procs.set(child, None);
    proof {
        let t2 = table@;
        assert(t2.procs =~= t1.procs.update(child as int, None));
        assert(t2 == reaped(t0, j as int)) by {
            assert(t2.procs =~= reaped(t0, j as int).procs);
        }
        assert forall|k: int| #[trigger] is_first_waitable(t0, pid, k) implies k == j by {
            if k < j {
                assert(!(selects(pid, ch[k]) && pcb(t0, ch[k] as int).zombie));
            } else if j < k {
                assert(!(selects(pid, ch[j as int]) && pcb(t0, ch[j as int] as int).zombie));
            }
        }
        // the invariant
        let nch = ch.remove(j as int);
        assert forall|q: int| 0 <= q < nch.len() implies #[trigger] nch[q] != child && nch.contains(nch[q]) by {
            if q < j {
                assert(nch[q] == ch[q]);
            } else {
                assert(nch[q] == ch[q + 1]);
            }
        }
        assert(pcb(t0, child as int).children.len() == 0);
        assert(child != INITPROC_PID);
        assert forall|p: int| valid_pid(t2, p) implies valid_pid(t0, p) && p != child by {}
        assert forall|p: int, k: int|
            valid_pid(t2, p) && 0 <= k < pcb(t2, p).children.len() implies valid_pid(t2, #[trigger] pcb(t2, p).children[k] as int)
                && pcb(t2, pcb(t2, p).children[k] as int).parent == Some(p as usize) by {
            if p == c {
                let y = nch[k];
                if k < j {
                    assert(y == ch[k]);
                } else {
                    assert(y == ch[k + 1]);
                }
                assert(valid_pid(t0, y as int));
                assert(y != child) by {
                    if k < j {
                        assert(ch[k] != ch[j as int]);
                    } else {
                        assert(ch[k + 1] != ch[j as int]);
                    }
                }
            } else {
                assert(valid_pid(t0, p));
                let y = pcb(t0, p).children[k];
                assert(valid_pid(t0, y as int));
                assert(y != child) by {
                    if y == child {
                        assert(pcb(t0, child as int).parent == Some(p as usize));
                        assert(pcb(t0, child as int).parent == Some(c));
                    }
                }
            }
        }
        assert forall|p: int| #[trigger] valid_pid(t2, p) implies pcb(t2, p).children.no_duplicates() by {
            assert(valid_pid(t0, p));
            if p == c {
                assert forall|a: int, b: int| 0 <= a < nch.len() && 0 <= b < nch.len() && a != b implies nch[a] != nch[b] by {
                    let a0 = if a < j { a } else { a + 1 };
                    let b0 = if b < j { b } else { b + 1 };
                    assert(nch[a] == ch[a0]);
                    assert(nch[b] == ch[b0]);
                }
            }
        }
        assert forall|p: int| #[trigger] valid_pid(t2, p) implies pcb(t2, p).parent != Some(p as usize) by {
            assert(valid_pid(t0, p));
        }
        assert forall|p: int| #[trigger] valid_pid(t2, p) && pcb(t2, p).zombie implies pcb(t2, p).children.len() == 0 by {
            assert(valid_pid(t0, p));
        }
        assert forall|k: int| 0 <= k < t2.ready.len() implies valid_pid(t2, #[trigger] t2.ready[k].pid as int) && !pcb(t2, t2.ready[k].pid as int).zombie by {
            assert(valid_pid(t0, t0.ready[k].pid as int));
            assert(t0.ready[k].pid != child);
        }
    }
    (child as isize, Some(code))
}

/// The running process exits with `exit_code`: it becomes a zombie that
/// keeps the code for its parent, the first process adopts its children,
/// and no process runs.
fn exit_current(table: &mut ProcessTable, exit_code: i32)
    requires
        table_wf(old(table)@),
        old(table)@.current is Some,
        cur(old(table)@) != INITPROC_PID,
    ensures
        final(table)@ == (TableModel {
            procs: exited_procs(old(table)@, cur(old(table)@), exit_code),
            current: None,
            ..old(table)@
        }),
        table_wf(final(table)@),
{
    let ghost t0 = table@;
    let c = match table.current {
        Some(t) => t.pid,
        None => 0,
    };
    assert(valid_pid(t0, c as int));
    let ghost ch0 = pcb(t0, c as int).children;
    proof {
        assert forall|k: int| 0 <= k < ch0.len() implies valid_pid(t0, #[trigger] ch0[k] as int) && ch0[k] != c
            && ch0[k] != INITPROC_PID && pcb(t0, ch0[k] as int).parent == Some(c) by {
            assert(valid_pid(t0, ch0[k] as int));
            assert(pcb(t0, ch0[k] as int).parent == Some(c));
            assert(valid_pid(t0, c as int));
        }
    }
    let mut p = table.take_pcb(c);
    let mut ch: Vec<usize> = Vec::new();
    std::mem::swap(&mut ch, &mut p.children);
    p.zombie = true;
    p.exit_code = exit_code;
    p.memory_set.recycle_data_pages();
    table.put_pcb(c, p);
    let ghost zpcb = PcbModel {
        zombie: true,
        exit_code,
        children: Seq::empty(),
        memory: MemoryModel { pages: Map::empty(), ..pcb(t0, c as int).memory },
        ..pcb(t0, c as int)
    };
    proof {
        assert(table@.procs[c as int] == Some(zpcb)) by {
            assert(table@.procs[c as int]->Some_0.children =~= Seq::<usize>::empty());
        }
    }
    let mut k: usize = 0;
    while k < ch.len()
        invariant
            table_wf(t0),
            valid_pid(t0, c as int),
            c != INITPROC_PID,
            ch@ == ch0,
            ch0 == pcb(t0, c as int).children,
            forall|q: int| 0 <= q < ch0.len() ==> valid_pid(t0, #[trigger] ch0[q] as int) && ch0[q] != c && ch0[q] != INITPROC_PID,
            k <= ch@.len(),
            table@.current == t0.current,
            table@.ready == t0.ready,
            table@.apps == t0.apps,
            table@.procs.len() == t0.procs.len(),
            table@.procs[c as int] == Some(zpcb),
            forall|q: int|
                0 <= q < t0.procs.len() && q != c ==> #[trigger] table@.procs[q] == if t0.procs[q] is Some
                    && ch0.take(k as int).contains(q as usize) {
                    Some(PcbModel { parent: Some(INITPROC_PID), ..pcb(t0, q) })
                } else {
                    t0.procs[q]
                },
        decreases ch@.len() - k,
    {
        let x = ch[k];
        proof {
            assert(ch0[k as int] == x);
            assert(valid_pid(t0, x as int));
            assert(table@.procs[x as int] is Some);
            assert forall|y: usize| ch0.take(k as int + 1).contains(y) <==> (ch0.take(k as int).contains(y) || y == x) by {
                let a1 = ch0.take(k as int + 1);
                let a0 = ch0.take(k as int);
                if a1.contains(y) {
                    let a = choose|a: int| 0 <= a < a1.len() && a1[a] == y;
                    if a < k {
                        assert(a0[a] == y);
                    }
                }
                if a0.contains(y) {
                    let a = choose|a: int| 0 <= a < a0.len() && a0[a] == y;
                    assert(a1[a] == y);
                }
                if y == x {
                    assert(a1[k as int] == y);
                }
            }
            assert(!ch0.take(k as int).contains(x)) by {
                assert(pcb(t0, c as int).children.no_duplicates());
                if ch0.take(k as int).contains(x) {
                    let a = choose|a: int| 0 <= a < k && ch0.take(k as int)[a] == x;
                    assert(ch0[a] == ch0[k as int]);
                }
            }
        }
        let mut q = table.take_pcb(x);
        q.parent = Some(INITPROC_PID);
        table.put_pcb(x, q);
        k = k + 1;
    }
    let ghost t1 = table@;
    assert(ch0.take(ch0.len() as int) =~= ch0);
    assert(valid_pid(t1, INITPROC_PID as int));
    let mut init = table.take_pcb(INITPROC_PID);
    let ghost init0 = pcb(t0, INITPROC_PID as int).children;
    assert(init.children@ == init0);
    let ghost initm = init.deep_view();
    assert(initm == pcb(t1, INITPROC_PID as int));
    let mut k2: usize = 0;
    while k2 < ch.len()
        invariant
            init.parent == initm.parent,
            init.zombie == initm.zombie,
            init.exit_code == initm.exit_code,
            init.memory_set@ == initm.memory,
            init.trap_cx == initm.trap_cx,
            ch@ == ch0,
            k2 <= ch@.len(),
            init.children@ == init0 + ch0.take(k2 as int),
        decreases ch@.len() - k2,
    {
        init.children.push(ch[k2]);
        proof {
            assert(init0 + ch0.take(k2 as int + 1) =~= (init0 + ch0.take(k2 as int)).push(ch0[k2 as int]));
        }
        k2 = k2 + 1;
    }
    table.put_pcb(INITPROC_PID, init);
    table.current = None;
    proof {
        let t2 = table@;
        let ex = exited_procs(t0, c as int, exit_code);
        assert(t2.procs =~= ex) by {
            assert forall|q: int| 0 <= q < ex.len() implies #[trigger] t2.procs[q] == ex[q] by {
                if q == INITPROC_PID {
                    assert(!ch0.contains(INITPROC_PID)) by {
                        if ch0.contains(INITPROC_PID) {
                            let a = choose|a: int| 0 <= a < ch0.len() && ch0[a] == INITPROC_PID;
                        }
                    }
                    assert(t1.procs[q] == t0.procs[q]);
                    assert(t2.procs[q]->Some_0.children == init0 + ch0);
                    assert(t2.procs[q] == ex[q]);
                } else if q == c {
                    assert(t2.procs[q] == t1.procs[q]);
                    assert(t2.procs[q] == ex[q]);
                } else {
                    assert(t1.procs[q] == t2.procs[q]);
                    assert(t2.procs[q] == ex[q]);
                }
            }
        }
        // the invariant
        let t3 = TableModel { procs: ex, current: None, ..t0 };
        assert(t2 == t3);
        assert forall|q: int| #[trigger] valid_pid(t2, q) <==> valid_pid(t0, q) by {}
        assert forall|q: int| 0 <= q < ch0.len() implies pcb(t2, #[trigger] ch0[q] as int).parent == Some(INITPROC_PID) by {
            assert(ch0.contains(ch0[q]));
            assert(valid_pid(t0, ch0[q] as int));
        }
        assert forall|p: int, k3: int|
            valid_pid(t2, p) && 0 <= k3 < pcb(t2, p).children.len() implies valid_pid(t2, #[trigger] pcb(t2, p).children[k3] as int)
                && pcb(t2, pcb(t2, p).children[k3] as int).parent == Some(p as usize) by {
            assert(valid_pid(t0, p));
            if p == INITPROC_PID {
                let all = init0 + ch0;
                assert(pcb(t2, p).children == all);
                if k3 < init0.len() {
                    let y = init0[k3];
                    assert(all[k3] == y);
                    assert(valid_pid(t0, y as int));
                    assert(pcb(t0, y as int).parent == Some(INITPROC_PID));
                    if y == c {
                        assert(pcb(t2, y as int).parent == pcb(t0, c as int).parent);
                    } else if ch0.contains(y) {
                        let a = choose|a: int| 0 <= a < ch0.len() && ch0[a] == y;
                        assert(pcb(t0, ch0[a] as int).parent == Some(c));
                    }
                } else {
                    let y = ch0[k3 - init0.len()];
                    assert(all[k3] == y);
                }
            } else if p == c {
            } else {
                let y = pcb(t0, p).children[k3];
                assert(pcb(t2, p).children == pcb(t0, p).children);
                assert(valid_pid(t0, y as int));
                assert(pcb(t0, y as int).parent == Some(p as usize));
                if ch0.contains(y) {
                    let a = choose|a: int| 0 <= a < ch0.len() && ch0[a] == y;
                    assert(pcb(t0, ch0[a] as int).parent == Some(c));
                }
            }
        }
        assert forall|p: int| #[trigger] valid_pid(t2, p) implies pcb(t2, p).children.no_duplicates() by {
            assert(valid_pid(t0, p));
            if p == INITPROC_PID {
                let all = init0 + ch0;
                assert(init0.no_duplicates());
                assert(ch0.no_duplicates());
                assert forall|a: int, b: int| 0 <= a < all.len() && 0 <= b < all.len() && a != b implies all[a] != all[b] by {
                    if a < init0.len() && b >= init0.len() {
                        let y = init0[a];
                        assert(valid_pid(t0, y as int));
                        assert(pcb(t0, y as int).parent == Some(INITPROC_PID));
                        assert(pcb(t0, ch0[b - init0.len()] as int).parent == Some(c));
                    } else if b < init0.len() && a >= init0.len() {
                        let y = init0[b];
                        assert(valid_pid(t0, y as int));
                        assert(pcb(t0, y as int).parent == Some(INITPROC_PID));
                        assert(pcb(t0, ch0[a - init0.len()] as int).parent == Some(c));
                    }
                }
            } else if p == c {
                assert(pcb(t2, p).children =~= Seq::<usize>::empty());
            }
        }
        assert forall|p: int| #[trigger] valid_pid(t2, p) implies pcb(t2, p).parent != Some(p as usize) by {
            assert(valid_pid(t0, p));
            if p != c && p != INITPROC_PID && ch0.contains(p as usize) {
                let a = choose|a: int| 0 <= a < ch0.len() && ch0[a] == p as usize;
                assert(ch0[a] != INITPROC_PID);
            }
        }
        assert forall|p: int| #[trigger] valid_pid(t2, p) && pcb(t2, p).zombie implies pcb(t2, p).children.len() == 0 by {
            assert(valid_pid(t0, p));
        }
        assert forall|k3: int| 0 <= k3 < t2.ready.len() implies valid_pid(t2, #[trigger] t2.ready[k3].pid as int) && !pcb(t2, t2.ready[k3].pid as int).zombie by {
            assert(valid_pid(t0, t0.ready[k3].pid as int));
            assert(t0.ready[k3].pid != c);
        }
        assert(valid_pid(t2, INITPROC_PID as int));
    }
}

/// Gives the processor up: the running process goes back to the ready queue
/// and the stride scheduler picks the next one to run (possibly the same).
pub fn sys_yield(table: &mut ProcessTable) -> (r: isize)
    requires
        table_wf(old(table)@),
        old(table)@.current is Some,
        can_fetch(old(table)@.ready.push(old(table)@.current->Some_0)),
    ensures
        r == 0,
        table_wf(final(table)@),
        final(table)@.procs == old(table)@.procs,
        final(table)@.apps == old(table)@.apps,
        exists|k: int|
            #[trigger] is_first_min(old(table)@.ready.push(old(table)@.current->Some_0), k)
                && final(table)@.current == Some(advanced(old(table)@.ready.push(old(table)@.current->Some_0)[k]))
                && final(table)@.ready == old(table)@.ready.push(old(table)@.current->Some_0).remove(k),
{
    suspend_current(table);
    table.run_next();
    0
}

/// The running process exits with `exit_code`: it becomes a zombie that
/// keeps the code for its parent, the first process adopts its children,
/// and the stride scheduler picks the next process to run, if any is ready.
pub fn sys_exit(table: &mut ProcessTable, exit_code: i32)
    requires
        table_wf(old(table)@),
        old(table)@.current is Some,
        cur(old(table)@) != INITPROC_PID,
        can_fetch(old(table)@.ready),
    ensures
        table_wf(final(table)@),
        final(table)@.procs == exited_procs(old(table)@, cur(old(table)@), exit_code),
        final(table)@.apps == old(table)@.apps,
        old(table)@.ready.len() == 0 ==> final(table)@.current is None && final(table)@.ready == old(table)@.ready,
        old(table)@.ready.len() > 0 ==> exists|k: int|
            #[trigger] is_first_min(old(table)@.ready, k) && final(table)@.current == Some(advanced(old(table)@.ready[k]))
                && final(table)@.ready == old(table)@.ready.remove(k),
{
    exit_current(table, exit_code);
    table.run_next();
}

} // verus!
