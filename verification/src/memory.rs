//! A process's address space: which virtual pages are mapped and with which
//! permission bits, the program break, and the physical frames still free.
use std::collections::HashMap;
use vstd::prelude::*;

verus! {

broadcast use vstd::std_specs::hash::group_hash_axioms;

pub const PAGE_SIZE: usize = 4096;

/// Permission bits of a mapped page.
pub const PERM_R: usize = 2;

pub const PERM_W: usize = 4;

pub const PERM_X: usize = 8;

pub const PERM_U: usize = 16;

/// Size in bytes of a [`TimeVal`] as user programs lay it out.
pub const TIMEVAL_SIZE: usize = 16;

/// Seconds and microseconds.
#[derive(Clone, Copy, Debug, PartialEq, Eq, Structural)]
pub struct TimeVal {
    pub sec: usize,
    pub usec: usize,
}

/// A process's address space.
pub struct MemorySet {
    /// Mapped virtual page numbers and their permission bits.
    pages: HashMap<usize, usize>,
    pub heap_bottom: usize,
    pub program_brk: usize,
}

/// An address space as the contracts see it.
pub struct MemoryModel {
    pub pages: Map<usize, usize>,
    pub heap_bottom: usize,
    pub program_brk: usize,
}

impl View for MemorySet {
    type V = MemoryModel;

    closed spec fn view(&self) -> MemoryModel {
        MemoryModel { pages: self.pages@, heap_bottom: self.heap_bottom, program_brk: self.program_brk }
    }
}

/// First page of an area starting at `start`.
pub open spec fn first_page(start: int) -> int {
    start / PAGE_SIZE as int
}

/// One past the last page that an area of `len` bytes at `start` touches.
pub open spec fn end_page(start: int, len: int) -> int {
    (start + len + PAGE_SIZE - 1) / PAGE_SIZE as int
}

pub open spec fn in_area(v: usize, start: int, len: int) -> bool {
    first_page(start) <= v < end_page(start, len)
}

/// Every page of the area is mapped.
pub open spec fn area_mapped(pages: Map<usize, usize>, start: int, len: int) -> bool {
    forall|v: usize| in_area(v, start, len) ==> #[trigger] pages.contains_key(v)
}

/// No page of the area is mapped.
pub open spec fn area_unmapped(pages: Map<usize, usize>, start: int, len: int) -> bool {
    forall|v: usize| in_area(v, start, len) ==> !#[trigger] pages.contains_key(v)
}

/// `pages` with every page of the area mapped with `perm`.
pub open spec fn map_area(pages: Map<usize, usize>, start: int, len: int, perm: usize) -> Map<usize, usize> {
    Map::new(
        |v: usize| pages.contains_key(v) || in_area(v, start, len),
        |v: usize|
            if in_area(v, start, len) {
                perm
            } else {
                pages[v]
            },
    )
}

/// `pages` without the pages of the area.
pub open spec fn unmap_area(pages: Map<usize, usize>, start: int, len: int) -> Map<usize, usize> {
    pages.restrict(pages.dom().filter(|v: usize| !in_area(v, start, len)))
}

/// Number of pages an area of `len` bytes at page-aligned `start` spans.
pub open spec fn area_pages(start: int, len: int) -> int {
    end_page(start, len) - first_page(start)
}

/// The permission bits a valid `prot` (bit 0 read, bit 1 write, bit 2
/// execute) gives a user page.
pub open spec fn prot_perm(prot: usize) -> usize {
    (PERM_U + (if prot & 1 != 0 {
        PERM_R
    } else {
        0
    }) + (if prot & 2 != 0 {
        PERM_W
    } else {
        0
    }) + (if prot & 4 != 0 {
        PERM_X
    } else {
        0
    })) as usize
}

/// The permission bits that `mmap` grants follow the `prot` bits one by
/// one: read exactly when bit 0 is set, write exactly when bit 1 is, execute
/// exactly when bit 2 is, and the page is always a user page.
pub proof fn law_prot_perm_bits(prot: usize)
    ensures
        (prot_perm(prot) & PERM_R != 0) == (prot & 1 != 0),
        (prot_perm(prot) & PERM_W != 0) == (prot & 2 != 0),
        (prot_perm(prot) & PERM_X != 0) == (prot & 4 != 0),
        prot_perm(prot) & PERM_U != 0,
{
    let a: usize = if prot & 1 != 0 { 2 } else { 0 };
    let b: usize = if prot & 2 != 0 { 4 } else { 0 };
    let c: usize = if prot & 4 != 0 { 8 } else { 0 };
    let r = prot_perm(prot);
    assert(r == 16 + a + b + c);
    assert((a == 0 || a == 2) && (b == 0 || b == 4) && (c == 0 || c == 8) ==> {
        &&& ((16 + a + b + c) as usize & 2 != 0) == (a == 2)
        &&& ((16 + a + b + c) as usize & 4 != 0) == (b == 4)
        &&& ((16 + a + b + c) as usize & 8 != 0) == (c == 8)
        &&& (16 + a + b + c) as usize & 16 != 0
    }) by (bit_vector);
}

/// A valid `prot` is a number from 1 to 7.
pub proof fn law_prot_valid_range(prot: usize)
    ensures
        prot_valid(prot) == (1 <= prot <= 7),
{
    assert((prot & !7usize == 0 && prot & 7 != 0) == (1 <= prot && prot <= 7)) by (bit_vector);
}

/// The pages of an area are exactly those that share a byte with it: page
/// `v` covers bytes `v * PAGE_SIZE` up to `(v + 1) * PAGE_SIZE`.
pub proof fn law_area_pages_overlap(start: int, len: int, v: usize)
    requires
        0 <= start,
        0 < len,
    ensures
        in_area(v, start, len) == (v * PAGE_SIZE < start + len && start < (v + 1) * PAGE_SIZE),
{
    let d = PAGE_SIZE as int;
    let f = start / d;
    let e = (start + len + d - 1) / d;
    vstd::arithmetic::div_mod::lemma_fundamental_div_mod(start, d);
    vstd::arithmetic::div_mod::lemma_fundamental_div_mod(start + len + d - 1, d);
    vstd::arithmetic::div_mod::lemma_mod_bound(start, d);
    vstd::arithmetic::div_mod::lemma_mod_bound(start + len + d - 1, d);
    let r1 = start % d;
    let r2 = (start + len + d - 1) % d;
    let vi = v as int;
    assert((f <= vi) == (start < (vi + 1) * d)) by (nonlinear_arith)
        requires
            start == d * f + r1,
            0 <= r1 < d,
            d > 0,
    ;
    assert((vi < e) == (vi * d < start + len)) by (nonlinear_arith)
        requires
            start + len + d - 1 == d * e + r2,
            0 <= r2 < d,
            d > 0,
    ;
}

/// `prot` has no bit beyond the three known ones and at least one of them.
pub open spec fn prot_valid(prot: usize) -> bool {
    prot & !7usize == 0 && prot & 7 != 0
}

/// The byte at `addr` lies in a page mapped for user writes.
pub open spec fn user_writable(pages: Map<usize, usize>, addr: int) -> bool {
    let v = (addr / PAGE_SIZE as int) as usize;
    pages.contains_key(v) && pages[v] & PERM_U != 0 && pages[v] & PERM_W != 0
}

fn page_bounds(start: usize, len: usize) -> (r: (usize, usize))
    requires
        start + len <= usize::MAX,
    ensures
        r.0 == first_page(start as int),
        r.1 == end_page(start as int, len as int),
        r.0 <= r.1,
{
    let end = start + len;
    let last = end / PAGE_SIZE + if end % PAGE_SIZE != 0 {
        1
    } else {
        0
    };
    assert(last == (end + PAGE_SIZE - 1) / PAGE_SIZE as int) by (nonlinear_arith)
        requires
            end == start + len,
            last == end / 4096 + if end % 4096 != 0 {
                1int
            } else {
                0
            },
            PAGE_SIZE == 4096,
    ;
    assert(start / PAGE_SIZE <= last) by (nonlinear_arith)
        requires
            end == start + len,
            last == (end + 4095) / 4096,
            PAGE_SIZE == 4096,
    ;
    (start / PAGE_SIZE, last)
}

impl MemorySet {
    /// An address space with nothing mapped and the break at `heap_bottom`.
    pub fn new(heap_bottom: usize) -> (m: Self)
        ensures
            m@.pages == Map::<usize, usize>::empty(),
            m@.heap_bottom == heap_bottom,
            m@.program_brk == heap_bottom,
    {
        MemorySet { pages: HashMap::new(), heap_bottom, program_brk: heap_bottom }
    }

    /// A copy of `user_space`: the same pages with the same permission bits,
    /// and the same heap.
    pub fn from_existed_user(user_space: &MemorySet) -> (m: Self)
        ensures
            m@ == user_space@,
    {
        MemorySet {
            pages: user_space.pages.clone(),
            heap_bottom: user_space.heap_bottom,
            program_brk: user_space.program_brk,
        }
    }

    /// Unmaps every page, keeping the heap's bounds.
    pub fn recycle_data_pages(&mut self)
        ensures
            final(self)@ == (MemoryModel { pages: Map::empty(), ..old(self)@ }),
    {
        self.pages.clear();
    }

    /// Whether page `vpn` is mapped, and with which permission bits.
    pub fn translate(&self, vpn: usize) -> (r: Option<usize>)
        ensures
            r == if self@.pages.contains_key(vpn) {
                Some(self@.pages[vpn])
            } else {
                None
            },
    {
        match self.pages.get(&vpn) {
            Some(p) => Some(*p),
            None => None,
        }
    }

    /// Maps every page of `[start, start + len)` with `perm` when none of them
    /// is mapped yet and enough frames are free, taking one frame per page;
    /// otherwise changes nothing and returns `false`.
    pub fn mmap(&mut self, free_frames: &mut usize, start: usize, len: usize, perm: usize) -> (ok: bool)
        requires
            start + len <= usize::MAX,
        ensures
            ok == (area_unmapped(old(self)@.pages, start as int, len as int) && area_pages(
                start as int,
                len as int,
            ) <= *old(free_frames)),
            ok ==> final(self)@ == (MemoryModel {
                pages: map_area(old(self)@.pages, start as int, len as int, perm),
                ..old(self)@
            }) && *final(free_frames) == *old(free_frames) - area_pages(start as int, len as int),
            !ok ==> final(self)@ == old(self)@ && *final(free_frames) == *old(free_frames),
    {
        let (first, last) = page_bounds(start, len);
        let mut v = first;
        while v < last
            invariant
                first <= v <= last,
                first == first_page(start as int),
                last == end_page(start as int, len as int),
                self@ == old(self)@,
                forall|u: usize| first <= u < v ==> !#[trigger] self@.pages.contains_key(u),
            decreases last - v,
        {
            if self.pages.contains_key(&v) {
                proof {
                    assert(in_area(v, start as int, len as int));
                }
                return false;
            }
            v = v + 1;
        }
        if last - first > *free_frames {
            return false;
        }
        let ghost p0 = self@.pages;
        let mut v = first;
        while v < last
            invariant
                first <= v <= last,
                first == first_page(start as int),
                last == end_page(start as int, len as int),
                self@.heap_bottom == old(self)@.heap_bottom,
                self@.program_brk == old(self)@.program_brk,
                self@.pages =~= Map::new(
                    |u: usize| p0.contains_key(u) || (first <= u < v),
                    |u: usize|
                        if first <= u < v {
                            perm
                        } else {
                            p0[u]
                        },
                ),
            decreases last - v,
        {
            self.pages.insert(v, perm);
            v = v + 1;
        }
        *free_frames = *free_frames - (last - first);
        proof {
            assert(self@.pages =~= map_area(p0, start as int, len as int, perm));
        }
        true
    }

    /// Unmaps every page of `[start, start + len)` when all of them are mapped,
    /// returning one frame per page; otherwise changes nothing and returns `false`.
    pub fn munmap(&mut self, free_frames: &mut usize, start: usize, len: usize) -> (ok: bool)
        requires
            start + len <= usize::MAX,
            *old(free_frames) + area_pages(start as int, len as int) <= usize::MAX,
        ensures
            ok == area_mapped(old(self)@.pages, start as int, len as int),
            ok ==> final(self)@ == (MemoryModel {
                pages: unmap_area(old(self)@.pages, start as int, len as int),
                ..old(self)@
            }) && *final(free_frames) == *old(free_frames) + area_pages(start as int, len as int),
            !ok ==> final(self)@ == old(self)@ && *final(free_frames) == *old(free_frames),
    {
        let (first, last) = page_bounds(start, len);
        let mut v = first;
        while v < last
            invariant
                first <= v <= last,
                first == first_page(start as int),
                last == end_page(start as int, len as int),
                self@ == old(self)@,
                forall|u: usize| first <= u < v ==> #[trigger] self@.pages.contains_key(u),
            decreases last - v,
        {
            if !self.pages.contains_key(&v) {
                proof {
                    assert(in_area(v, start as int, len as int));
                }
                return false;
            }
            v = v + 1;
        }
        let ghost p0 = self@.pages;
        let mut v = first;
        while v < last
            invariant
                first <= v <= last,
                first == first_page(start as int),
                last == end_page(start as int, len as int),
                self@.heap_bottom == old(self)@.heap_bottom,
                self@.program_brk == old(self)@.program_brk,
                self@.pages =~= p0.restrict(p0.dom().filter(|u: usize| !(first <= u < v))),
            decreases last - v,
        {
            self.pages.remove(&v);
            v = v + 1;
        }
        *free_frames = *free_frames + (last - first);
        proof {
            assert(self@.pages =~= unmap_area(p0, start as int, len as int));
        }
        true
    }

    /// Moves the program break by `size` bytes and returns the old break;
    /// `None`, with nothing changed, when the break would go below the heap's bottom.
    pub fn change_program_brk(&mut self, size: i32) -> (r: Option<usize>)
        requires
            old(self)@.heap_bottom <= isize::MAX,
            old(self)@.program_brk + size <= isize::MAX,
            old(self)@.program_brk <= isize::MAX,
        ensures
            old(self)@.program_brk + size < old(self)@.heap_bottom ==> r is None && final(self)@ == old(self)@,
            old(self)@.program_brk + size >= old(self)@.heap_bottom ==> r == Some(old(self)@.program_brk)
                && final(self)@ == (MemoryModel {
                program_brk: (old(self)@.program_brk + size) as usize,
                ..old(self)@
            }),
    {
        let old_break = self.program_brk;
        let new_brk = self.program_brk as isize + size as isize;
        if new_brk < self.heap_bottom as isize {
            return None;
        }
        self.program_brk = new_brk as usize;
        Some(old_break)
    }
}

/// Maps `len` bytes at `start` for the user with the permissions `prot`
/// asks for; -1 when `start` is not page-aligned, `prot` is not valid, a page
/// of the area is mapped already or too few frames are free.
pub fn sys_mmap(memory_set: &mut MemorySet, free_frames: &mut usize, start: usize, len: usize, prot: usize) -> (r: isize)
    requires
        start + len <= usize::MAX,
    ensures
        r == 0 || r == -1,
        r == 0 <==> (start % PAGE_SIZE == 0 && prot_valid(prot) && area_unmapped(
            old(memory_set)@.pages,
            start as int,
            len as int,
        ) && area_pages(start as int, len as int) <= *old(free_frames)),
        r == 0 ==> final(memory_set)@ == (MemoryModel {
            pages: map_area(old(memory_set)@.pages, start as int, len as int, prot_perm(prot)),
            ..old(memory_set)@
        }) && *final(free_frames) == *old(free_frames) - area_pages(start as int, len as int),
        r == -1 ==> final(memory_set)@ == old(memory_set)@ && *final(free_frames) == *old(free_frames),
{
    if start % PAGE_SIZE != 0 {
        return -1;
    }
    if prot & !7usize != 0 || prot & 7 == 0 {
        return -1;
    }
    let mut map_perm: usize = PERM_U;
    if prot & 1 != 0 {
        map_perm = map_perm + PERM_R;
    }
    if prot & 2 != 0 {
        map_perm = map_perm + PERM_W;
    }
    if prot & 4 != 0 {
        map_perm = map_perm + PERM_X;
    }
    if memory_set.mmap(free_frames, start, len, map_perm) {
        0
    } else {
        -1
    }
}

/// Unmaps `len` bytes at `start`; -1 when `start` is not page-aligned or a
/// page of the area is not mapped.
pub fn sys_munmap(memory_set: &mut MemorySet, free_frames: &mut usize, start: usize, len: usize) -> (r: isize)
    requires
        start + len <= usize::MAX,
        *old(free_frames) + area_pages(start as int, len as int) <= usize::MAX,
    ensures
        r == 0 || r == -1,
        r == 0 <==> (start % PAGE_SIZE == 0 && area_mapped(old(memory_set)@.pages, start as int, len as int)),
        r == 0 ==> final(memory_set)@ == (MemoryModel {
            pages: unmap_area(old(memory_set)@.pages, start as int, len as int),
            ..old(memory_set)@
        }) && *final(free_frames) == *old(free_frames) + area_pages(start as int, len as int),
        r == -1 ==> final(memory_set)@ == old(memory_set)@ && *final(free_frames) == *old(free_frames),
{
    if start % PAGE_SIZE != 0 {
        return -1;
    }
    if memory_set.munmap(free_frames, start, len) {
        0
    } else {
        -1
    }
}

/// Moves the program break by `size` bytes and returns the old break, or -1
/// when the break would go below the heap's bottom.
pub fn sys_sbrk(memory_set: &mut MemorySet, size: i32) -> (r: isize)
    requires
        old(memory_set)@.heap_bottom <= isize::MAX,
        old(memory_set)@.program_brk + size <= isize::MAX,
        old(memory_set)@.program_brk <= isize::MAX,
    ensures
        old(memory_set)@.program_brk + size < old(memory_set)@.heap_bottom ==> r == -1 && final(memory_set)@
            == old(memory_set)@,
        old(memory_set)@.program_brk + size >= old(memory_set)@.heap_bottom ==> r == old(memory_set)@.program_brk
            && final(memory_set)@ == (MemoryModel {
            program_brk: (old(memory_set)@.program_brk + size) as usize,
            ..old(memory_set)@
        }),
{
    match memory_set.change_program_brk(size) {
        Some(old_brk) => old_brk as isize,
        None => -1,
    }
}

/// Splits `us` microseconds into a [`TimeVal`] to store at user address `ts`;
/// `None` (the call fails with -1) when some byte of the `TIMEVAL_SIZE` bytes
/// at `ts` is not in a page mapped for user writes.
pub fn sys_get_time(memory_set: &MemorySet, ts: usize, us: usize) -> (r: Option<TimeVal>)
    requires
        ts + TIMEVAL_SIZE <= usize::MAX,
    ensures
        r is Some <==> forall|i: int| 0 <= i < TIMEVAL_SIZE ==> #[trigger] user_writable(memory_set@.pages, ts + i),
        r matches Some(tv) ==> tv.sec == us / 1000000 && tv.usec == us % 1000000,
{
    let sec = us / 1000000;
    let usec = us % 1000000;
    let mut i: usize = 0;
    while i < TIMEVAL_SIZE
        invariant
            i <= TIMEVAL_SIZE,
            ts + TIMEVAL_SIZE <= usize::MAX,
            forall|k: int| 0 <= k < i ==> #[trigger] user_writable(memory_set@.pages, ts + k),
        decreases TIMEVAL_SIZE - i,
    {
        let addr = ts + i;
        let vpn = addr / PAGE_SIZE;
        match memory_set.translate(vpn) {
            Some(perm) => {
                if perm & PERM_U == 0 || perm & PERM_W == 0 {
                    proof {
                        assert(!user_writable(memory_set@.pages, ts + i));
                    }
                    return None;
                }
            },
            None => {
                proof {
                    assert(!user_writable(memory_set@.pages, ts + i));
                }
                return None;
            },
        }
        i = i + 1;
    }
    Some(TimeVal { sec, usec })
}


/// Unmapping an area right after mapping it gives back the page table it
/// started from: `munmap` undoes `mmap`, and the frames it returns are the
/// ones `mmap` took.
pub proof fn law_munmap_undoes_mmap(pages: Map<usize, usize>, start: int, len: int, perm: usize)
    requires
        area_unmapped(pages, start, len),
    ensures
        area_mapped(map_area(pages, start, len, perm), start, len),
        unmap_area(map_area(pages, start, len, perm), start, len) == pages,
{
    let m = map_area(pages, start, len, perm);
    assert(unmap_area(m, start, len) =~= pages);
}

/// Mapping an area that `munmap` just emptied with the permissions it had
/// gives back the page table it started from.
pub proof fn law_mmap_undoes_munmap(pages: Map<usize, usize>, start: int, len: int, perm: usize)
    requires
        area_mapped(pages, start, len),
        forall|v: usize| in_area(v, start, len) ==> #[trigger] pages[v] == perm,
    ensures
        area_unmapped(unmap_area(pages, start, len), start, len),
        map_area(unmap_area(pages, start, len), start, len, perm) == pages,
{
    let m = unmap_area(pages, start, len);
    assert(map_area(m, start, len, perm) =~= pages);
}

} // verus!
