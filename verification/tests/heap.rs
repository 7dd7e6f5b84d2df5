use kernel::global_alloc::{init_global_allocator, AllocatorWrapper};
use kernel::heap::{AllocError, FreeListHeapAllocator, HeapMemory, UnusedRegion};
use kernel::module_api;

const START: usize = 0x10000;
const LEN: usize = 0x1000;

#[test]
fn allocate_takes_front_of_first_region() {
    let mut heap = FreeListHeapAllocator::new(START, LEN);
    assert_eq!(heap.allocate(100, 8), Ok((START + 24, 100)));
}

#[test]
fn allocate_small_request_takes_a_header_size() {
    let mut heap = FreeListHeapAllocator::new(START, LEN);
    assert_eq!(heap.allocate(4, 1), Ok((START + 24, 16)));
}

#[test]
fn allocate_aligns_by_keeping_a_padding_region() {
    let mut heap = FreeListHeapAllocator::new(START, LEN);
    assert_eq!(heap.allocate(100, 8), Ok((0x10018, 100)));
    // The region now starts at 0x1007c: 4 bytes to 0x10080 are too few for a
    // header, so the padding grows by the alignment to 20 bytes.
    let (addr, len) = heap.allocate(16, 16).unwrap();
    assert_eq!((addr, len), (0x10090, 16));
    assert_eq!(addr % 16, 0);
}

#[test]
fn allocate_too_large_fails() {
    let mut heap = FreeListHeapAllocator::new(START, LEN);
    assert_eq!(heap.allocate(0x2000, 8), Err(AllocError));
    // Nothing changed: the whole region is still there.
    assert_eq!(heap.allocate(LEN - 24, 8), Ok((START + 24, LEN - 24)));
}

#[test]
fn allocate_whole_region_then_nothing_left() {
    let mut heap = FreeListHeapAllocator::new(START, LEN);
    assert_eq!(heap.allocate(LEN - 24, 8), Ok((START + 24, LEN - 24)));
    assert_eq!(heap.allocate(16, 8), Err(AllocError));
}

#[test]
fn allocate_then_release_gives_the_memory_back() {
    let mut heap = FreeListHeapAllocator::new(START, LEN);
    let (addr, len) = heap.allocate(100, 8).unwrap();
    heap.deallocate(addr, len);
    // Merged with the following region: the whole heap can be taken again.
    assert_eq!(heap.allocate(LEN - 24, 8), Ok((START + 24, LEN - 24)));
}

#[test]
fn release_between_regions_merges_both_sides() {
    let mut heap = FreeListHeapAllocator::new(START, LEN);
    let a = heap.allocate(0x100, 8).unwrap();
    let b = heap.allocate(0x100, 8).unwrap();
    let c = heap.allocate(0x100, 8).unwrap();
    assert_eq!(a, (0x10018, 0x100));
    assert_eq!(b, (0x10118, 0x100));
    assert_eq!(c, (0x10218, 0x100));
    heap.deallocate(a.0, a.1);
    heap.deallocate(c.0, c.1);
    heap.deallocate(b.0, b.1);
    assert_eq!(heap.allocate(LEN - 24, 8), Ok((START + 24, LEN - 24)));
}

#[test]
fn release_past_the_last_region_replaces_it() {
    let mut heap = FreeListHeapAllocator::new(START, LEN);
    let a = heap.allocate(0x100, 8).unwrap();
    let b = heap.allocate(LEN - 24 - 0x100, 8).unwrap();
    assert_eq!(b, (0x10118, 0xee8));
    heap.deallocate(a.0, a.1);
    // No region lies above `b`: it takes the place of the last region, the
    // one that `a` became.
    heap.deallocate(b.0, b.1);
    assert_eq!(heap.allocate(0x100, 8), Ok((0x10118, 0x100)));
}

#[test]
fn global_allocator_forwards() {
    let mut global = AllocatorWrapper(FreeListHeapAllocator::new(0x40000, 0x100));
    init_global_allocator(&mut global, FreeListHeapAllocator::new(START, LEN));
    assert_eq!(global.alloc_address(32, 8), START + 24);
    assert_eq!(global.allocate(32, 8), Ok((START + 24 + 32, 32)));
    global.dealloc(START + 24, 32);
    global.deallocate(START + 24 + 32, 32);
    assert_eq!(global.allocate(LEN - 24, 8), Ok((START + 24, LEN - 24)));
}

#[test]
fn module_allocator_forwards_once_handed_over() {
    let w = module_api::AllocatorWrapper::non_init();
    assert!(w.0.is_none());
    let mut w = module_api::AllocatorWrapper(Some(FreeListHeapAllocator::new(START, LEN)));
    assert_eq!(w.alloc_address(64, 8), START + 24);
    assert_eq!(w.allocate(16, 8), Ok((START + 24 + 64, 16)));
    w.dealloc(START + 24, 64);
    w.deallocate(START + 24 + 64, 16);
    assert_eq!(w.allocate(LEN - 24, 8), Ok((START + 24, LEN - 24)));
}

#[test]
fn unused_region_headers_link() {
    let mut memory = HeapMemory::new();
    let second = UnusedRegion::new(&mut memory, 0x2000, 0x80, None);
    let mut first = UnusedRegion::new(&mut memory, 0x1000, 0x40, Some(second));
    assert_eq!(first.size(), 0x40);
    let next = first.next(&memory).unwrap();
    assert_eq!(next.size(), 0x80);
    assert!(next.next(&memory).is_none());
    first.set_size(&mut memory, 0x50);
    assert_eq!(UnusedRegion::read(&memory, 0x1000).size(), 0x50);
    first.set_next(&mut memory, None);
    assert!(UnusedRegion::read(&memory, 0x1000).next(&memory).is_none());
    let linked = UnusedRegion::read(&memory, 0x2000).with_prev(first);
    assert_eq!(linked.get_prev(&memory).unwrap().size(), 0x50);
}

#[test]
fn alloc_address_is_null_when_nothing_fits() {
    let mut global = AllocatorWrapper(FreeListHeapAllocator::new(START, LEN));
    assert_eq!(global.alloc_address(0x2000, 8), 0);
    assert_eq!(global.alloc_address(LEN - 24, 8), START + 24);
    assert_eq!(global.alloc_address(16, 8), 0);
    let mut w = module_api::AllocatorWrapper(Some(FreeListHeapAllocator::new(START, LEN)));
    assert_eq!(w.alloc_address(LEN, 8), 0);
    assert_eq!(w.alloc_address(16, 8), START + 24);
}

#[test]
fn freeing_what_was_just_allocated_gives_the_same_list() {
    let mut heap = FreeListHeapAllocator::new(START, LEN);
    let a = heap.allocate(0x100, 8).unwrap();
    let b = heap.allocate(0x40, 64).unwrap();
    // Take and give back blocks between the two: the list comes back each time.
    heap.deallocate(a.0, a.1);
    let c = heap.allocate(0x100, 8).unwrap();
    assert_eq!(c, a);
    let d = heap.allocate(0x20, 16).unwrap();
    heap.deallocate(d.0, d.1);
    assert_eq!(heap.allocate(0x20, 16).unwrap(), d);
    heap.deallocate(b.0, b.1);
}
