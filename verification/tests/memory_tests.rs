use os::memory::{
    sys_get_time, sys_mmap, sys_munmap, sys_sbrk, MemorySet, TimeVal, PAGE_SIZE, PERM_R, PERM_U, PERM_W, PERM_X,
};

#[test]
fn mmap_maps_every_touched_page() {
    let mut ms = MemorySet::new(0x10000);
    let mut frames = 10usize;
    assert_eq!(sys_mmap(&mut ms, &mut frames, 0x1000, 0x1800, 0b011), 0);
    assert_eq!(frames, 8);
    assert_eq!(ms.translate(1), Some(PERM_U + PERM_R + PERM_W));
    assert_eq!(ms.translate(2), Some(PERM_U + PERM_R + PERM_W));
    assert_eq!(ms.translate(3), None);
    assert_eq!(ms.translate(0), None);
}

#[test]
fn mmap_prot_bits_map_to_permissions() {
    let mut ms = MemorySet::new(0);
    let mut frames = 10usize;
    assert_eq!(sys_mmap(&mut ms, &mut frames, 0, PAGE_SIZE, 0b100), 0);
    assert_eq!(ms.translate(0), Some(PERM_U + PERM_X));
    assert_eq!(sys_mmap(&mut ms, &mut frames, PAGE_SIZE, PAGE_SIZE, 0b111), 0);
    assert_eq!(ms.translate(1), Some(PERM_U + PERM_R + PERM_W + PERM_X));
}

#[test]
fn mmap_rejects_bad_arguments() {
    let mut ms = MemorySet::new(0);
    let mut frames = 10usize;
    assert_eq!(sys_mmap(&mut ms, &mut frames, 0x1001, 0x1000, 1), -1);
    assert_eq!(sys_mmap(&mut ms, &mut frames, 0x1000, 0x1000, 0), -1);
    assert_eq!(sys_mmap(&mut ms, &mut frames, 0x1000, 0x1000, 8), -1);
    assert_eq!(sys_mmap(&mut ms, &mut frames, 0x1000, 0x1000, 9), -1);
    assert_eq!(frames, 10);
    assert_eq!(ms.translate(1), None);
}

#[test]
fn mmap_rejects_overlap_and_lack_of_frames() {
    let mut ms = MemorySet::new(0);
    let mut frames = 3usize;
    assert_eq!(sys_mmap(&mut ms, &mut frames, 0x2000, 0x1000, 1), 0);
    assert_eq!(sys_mmap(&mut ms, &mut frames, 0x1000, 0x2000, 1), -1);
    assert_eq!(frames, 2);
    assert_eq!(ms.translate(1), None);
    assert_eq!(sys_mmap(&mut ms, &mut frames, 0x4000, 0x3000, 1), -1);
    assert_eq!(frames, 2);
}

#[test]
fn munmap_undoes_mmap() {
    let mut ms = MemorySet::new(0);
    let mut frames = 4usize;
    assert_eq!(sys_mmap(&mut ms, &mut frames, 0x3000, 0x2000, 3), 0);
    assert_eq!(sys_munmap(&mut ms, &mut frames, 0x3000, 0x2000), 0);
    assert_eq!(frames, 4);
    assert_eq!(ms.translate(3), None);
    assert_eq!(ms.translate(4), None);
}

#[test]
fn munmap_rejects_unmapped_or_unaligned() {
    let mut ms = MemorySet::new(0);
    let mut frames = 4usize;
    assert_eq!(sys_mmap(&mut ms, &mut frames, 0x3000, 0x1000, 3), 0);
    assert_eq!(sys_munmap(&mut ms, &mut frames, 0x3000, 0x2000), -1);
    assert_eq!(sys_munmap(&mut ms, &mut frames, 0x3001, 0x10), -1);
    assert_eq!(ms.translate(3), Some(PERM_U + PERM_R + PERM_W));
    assert_eq!(frames, 3);
}

#[test]
fn zero_length_mmap_maps_nothing() {
    let mut ms = MemorySet::new(0);
    let mut frames = 0usize;
    assert_eq!(sys_mmap(&mut ms, &mut frames, 0x1000, 0, 1), 0);
    assert_eq!(ms.translate(1), None);
}

#[test]
fn sbrk_moves_the_break() {
    let mut ms = MemorySet::new(0x8000);
    assert_eq!(sys_sbrk(&mut ms, 0x100), 0x8000);
    assert_eq!(ms.program_brk, 0x8100);
    assert_eq!(sys_sbrk(&mut ms, -0x80), 0x8100);
    assert_eq!(ms.program_brk, 0x8080);
    assert_eq!(sys_sbrk(&mut ms, -0x100), -1);
    assert_eq!(ms.program_brk, 0x8080);
    assert_eq!(sys_sbrk(&mut ms, -0x80), 0x8080);
    assert_eq!(ms.program_brk, 0x8000);
}

#[test]
fn get_time_splits_microseconds() {
    let mut ms = MemorySet::new(0);
    let mut frames = 2usize;
    assert_eq!(sys_mmap(&mut ms, &mut frames, 0x1000, 0x1000, 3), 0);
    assert_eq!(sys_get_time(&ms, 0x1010, 3_250_000), Some(TimeVal { sec: 3, usec: 250_000 }));
}

#[test]
fn get_time_needs_a_writable_user_page() {
    let mut ms = MemorySet::new(0);
    let mut frames = 4usize;
    assert_eq!(sys_mmap(&mut ms, &mut frames, 0x1000, 0x1000, 1), 0);
    assert_eq!(sys_get_time(&ms, 0x1010, 1), None);
    // the value straddles into an unmapped page
    assert_eq!(sys_mmap(&mut ms, &mut frames, 0x2000, 0x1000, 3), 0);
    assert_eq!(sys_get_time(&ms, 0x2ff8, 1), None);
    assert_eq!(sys_mmap(&mut ms, &mut frames, 0x3000, 0x1000, 2), 0);
    assert_eq!(sys_get_time(&ms, 0x2ff8, 1_000_001), Some(TimeVal { sec: 1, usec: 1 }));
}

#[test]
fn mmap_after_munmap_restores_the_mapping() {
    let mut ms = MemorySet::new(0);
    let mut frames = 4usize;
    assert_eq!(sys_mmap(&mut ms, &mut frames, 0x5000, 0x2000, 5), 0);
    assert_eq!(sys_munmap(&mut ms, &mut frames, 0x5000, 0x2000), 0);
    assert_eq!(sys_mmap(&mut ms, &mut frames, 0x5000, 0x2000, 5), 0);
    assert_eq!(ms.translate(5), Some(PERM_U + PERM_R + PERM_X));
    assert_eq!(ms.translate(6), Some(PERM_U + PERM_R + PERM_X));
    assert_eq!(frames, 2);
}
