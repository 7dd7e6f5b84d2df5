use kernel::address::VirtAddress;
use kernel::boot_info::{BootInfo, MemoryRegion, MemoryRegionKind, MemorySpan};
use kernel::heap_init::{biggest_usable_run, init_heap, HEAP_SIZE};
use kernel::page_table::{remap_flags, PageTable, PageTableMemory, FORBID_EXECUTION};

const NX: usize = FORBID_EXECUTION as usize;

fn table_with(entries: &[(usize, usize)]) -> PageTable {
    let mut t = PageTable { entries: [7; 512] };
    t.zero();
    for &(i, e) in entries {
        t.entries[i] = e;
    }
    t
}

/// Tables mapping the virtual address 0x40_3000 through tables at 0x1000,
/// 0x2000, 0x3000 and 0x4000, with the direct map at offset 0.
fn small_tables() -> PageTableMemory {
    let mut m = PageTableMemory::new();
    m.insert(0x1000, table_with(&[(0, 0x2003 | NX)]));
    m.insert(0x2000, table_with(&[(0, 0x3003 | NX)]));
    m.insert(0x3000, table_with(&[(2, 0x4003)]));
    m.insert(0x4000, table_with(&[(3, 0x5003 | NX)]));
    m
}

#[test]
fn zero_clears_every_entry() {
    let mut t = PageTable { entries: [9; 512] };
    t.zero();
    assert!(t.entries.iter().all(|&e| e == 0));
}

#[test]
fn remap_clears_no_execute_on_the_walk() {
    let mut m = small_tables();
    remap_flags(&mut m, 0x1000, VirtAddress(0x40_3000), 0, NX, 0);
    assert_eq!(m.entry(0x1000, 0), 0x2003);
    assert_eq!(m.entry(0x2000, 0), 0x3003);
    assert_eq!(m.entry(0x3000, 2), 0x4003);
    assert_eq!(m.entry(0x4000, 3), 0x5003);
    // Other entries are untouched.
    assert_eq!(m.entry(0x4000, 4), 0);
}

#[test]
fn remap_sets_flags_on_the_walk() {
    let mut m = small_tables();
    remap_flags(&mut m, 0x1000, VirtAddress(0x40_3000), 0x2, 0, 0);
    assert_eq!(m.entry(0x1000, 0), 0x2003 | NX);
    assert_eq!(m.entry(0x3000, 2), 0x4003);
    assert_eq!(m.entry(0x4000, 3), 0x5003 | NX);
}

#[test]
fn remap_keeps_the_frames_it_walks() {
    // Setting and clearing flags outside the address bits leaves the walk
    // leading to the same tables: a second remap finds them all again.
    let mut m = small_tables();
    remap_flags(&mut m, 0x1000, VirtAddress(0x40_3000), 0x4, NX, 0);
    remap_flags(&mut m, 0x1000, VirtAddress(0x40_3000), 0, 0x4, 0);
    assert_eq!(m.entry(0x1000, 0), 0x2003);
    assert_eq!(m.entry(0x4000, 3), 0x5003);
}

fn region(start: usize, len: usize, kind: MemoryRegionKind) -> MemoryRegion {
    MemoryRegion { memory: MemorySpan { start, len }, kind }
}

#[test]
fn biggest_run_is_the_longest_finished_one() {
    let regions = vec![
        region(0x1000, 0x1000, MemoryRegionKind::Usable),
        region(0x2000, 0x1000, MemoryRegionKind::Kernel),
        region(0x10000, 0x4000, MemoryRegionKind::Usable),
        region(0x14000, 0x4000, MemoryRegionKind::Usable),
        region(0x18000, 0x1000, MemoryRegionKind::Unknown),
    ];
    assert_eq!(biggest_usable_run(&regions), (0x10000, 0x8000));
}

#[test]
fn biggest_run_leaves_out_a_run_at_the_end() {
    let regions = vec![
        region(0x1000, 0x1000, MemoryRegionKind::Usable),
        region(0x2000, 0x1000, MemoryRegionKind::Kernel),
        region(0x100000, 0x100000, MemoryRegionKind::Usable),
    ];
    assert_eq!(biggest_usable_run(&regions), (0x1000, 0x1000));
    assert_eq!(biggest_usable_run(&vec![region(0x1000, 0x1000, MemoryRegionKind::Usable)]), (0, 0));
}

#[test]
fn init_heap_remaps_the_heap_and_serves_it() {
    let heap_start: usize = 0x20_0000;
    let mut m = PageTableMemory::new();
    m.insert(0x1000, table_with(&[(0, 0x2003 | NX)]));
    m.insert(0x2000, table_with(&[(0, 0x3003 | NX)]));
    m.insert(0x3000, table_with(&[(1, 0x4003 | NX)]));
    let mut last = PageTable { entries: [0; 512] };
    for i in 0..512 {
        last.entries[i] = (0x40_0000 + i * 0x1000) | 3 | NX;
    }
    m.insert(0x4000, last);
    let boot_info = BootInfo {
        kernel_memory: MemorySpan { start: 0x10_0000, len: 0x1000 },
        ramdisk_memory: None,
        frame_buffer: None,
        memory_regions: vec![
            region(heap_start, 0x40_0000, MemoryRegionKind::Usable),
            region(0x60_0000, 0x1000, MemoryRegionKind::Kernel),
        ],
        physical_memory_offset: Some(0),
        pixel_format: None,
    };
    let mut heap = init_heap(&boot_info, &mut m, 0x1000);
    assert_eq!(m.entry(0x1000, 0), 0x2003);
    assert_eq!(m.entry(0x2000, 0), 0x3003);
    assert_eq!(m.entry(0x3000, 1), 0x4003);
    for i in 0..512 {
        assert_eq!(m.entry(0x4000, i), (0x40_0000 + i * 0x1000) | 3);
    }
    assert_eq!(heap.allocate(64, 8), Ok((heap_start + 24, 64)));
    assert_eq!(heap.allocate(HEAP_SIZE, 8).is_err(), true);
}
