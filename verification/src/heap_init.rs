//! Setting up the kernel heap: finding where it goes in physical memory, making
//! its pages non-executable, and handing it to the free-list allocator.
use crate::address::{canonical, VirtAddress};
use crate::boot_info::{BootInfo, MemoryRegion, MemoryRegionKind};
use crate::heap::FreeListHeapAllocator;
use crate::page_table::{
    flags_keep_walks, frame_of, law_remap_keeps_walks, remap_flags, remapped, top_table, walk_ok,
    PageTableMemory, FORBID_EXECUTION,
};
use vstd::prelude::*;

verus! {

/// Size of the kernel heap: 2 MiB.
pub const HEAP_SIZE: usize = 2097152;

/// Size of a page.
pub const PAGE_SIZE: usize = 4096;

/// The state of the scan for the heap after the regions `rs`: the address and
/// length of the longest run of usable regions ended so far, and the address and
/// length of the run under way. A run counts once a region that is not usable
/// ends it.
pub open spec fn run_scan(rs: Seq<MemoryRegion>) -> (int, int, int, int)
    decreases rs.len(),
{
    if rs.len() == 0 {
        (0, 0, 0, 0)
    } else {
        let (ba, bs, ca, cs) = run_scan(rs.drop_last());
        let r = rs.last();
        if r.kind == MemoryRegionKind::Usable {
            if cs > 0 {
                (ba, bs, ca, cs + r.memory.len)
            } else {
                (ba, bs, r.memory.start as int, r.memory.len as int)
            }
        } else if cs > bs {
            (ca, cs, 0, 0)
        } else {
            (ba, bs, 0, 0)
        }
    }
}

/// The lengths of the runs of usable regions fit in a `usize`.
pub open spec fn runs_fit(rs: Seq<MemoryRegion>) -> bool {
    forall|k: int|
        0 <= k < rs.len() && (#[trigger] rs[k]).kind == MemoryRegionKind::Usable ==> run_scan(rs.take(k)).3
            + rs[k].memory.len <= usize::MAX
}

/// The scan's values stay within `usize`.
proof fn lemma_run_scan_bounds(rs: Seq<MemoryRegion>)
    requires
        runs_fit(rs),
    ensures
        0 <= run_scan(rs).0 <= usize::MAX,
        0 <= run_scan(rs).1 <= usize::MAX,
        0 <= run_scan(rs).2 <= usize::MAX,
        0 <= run_scan(rs).3 <= usize::MAX,
    decreases rs.len(),
{
    if rs.len() > 0 {
        let k = rs.len() - 1;
        assert(rs.take(k) =~= rs.drop_last());
        assert forall|j: int|
            0 <= j < rs.drop_last().len() && (#[trigger] rs.drop_last()[j]).kind == MemoryRegionKind::Usable implies run_scan(
            rs.drop_last().take(j)).3 + rs.drop_last()[j].memory.len <= usize::MAX by {
            assert(rs.drop_last().take(j) =~= rs.take(j));
            assert(rs[j] == rs.drop_last()[j]);
        }
        lemma_run_scan_bounds(rs.drop_last());
        if rs[k].kind == MemoryRegionKind::Usable {
            assert(run_scan(rs.take(k)).3 + rs[k].memory.len <= usize::MAX);
        }
    }
}

/// Finds the longest run of consecutive usable regions that a region that is not
/// usable ends; returns its address and length (0 and 0 when there is none).
pub fn biggest_usable_run(regions: &Vec<MemoryRegion>) -> (r: (usize, usize))
    requires
        runs_fit(regions@),
    ensures
        r.0 as int == run_scan(regions@).0,
        r.1 as int == run_scan(regions@).1,
{
    let mut biggest_address: usize = 0;
    let mut biggest_size: usize = 0;
    let mut current_address: usize = 0;
    let mut current_size: usize = 0;
    let n = regions.len();
    let mut k: usize = 0;
    while k < n
        invariant
            n == regions@.len(),
            k <= n,
            runs_fit(regions@),
            (biggest_address as int, biggest_size as int, current_address as int, current_size as int)
                == run_scan(regions@.take(k as int)),
        decreases n - k,
    {
        let region = regions[k];
        proof {
            assert(regions@.take(k + 1).drop_last() =~= regions@.take(k as int));
            assert(regions@.take(k + 1).last() == region);
        }
        if region.kind == MemoryRegionKind::Usable {
            if current_size > 0 {
                current_size += region.memory.len;
            } else {
                current_size = region.memory.len;
                current_address = region.memory.start;
            }
        } else {
            if current_size > biggest_size {
                biggest_size = current_size;
                biggest_address = current_address;
            }
            current_size = 0;
            current_address = 0;
        }
        k = k + 1;
    }
    assert(regions@.take(n as int) =~= regions@);
    (biggest_address, biggest_size)
}

/// The address that page `page` of the heap at `heap_start` is mapped at.
pub open spec fn heap_page(heap_start: int, page: int) -> usize {
    canonical(heap_start + page * PAGE_SIZE) as usize
}

/// The tables after the first `k` pages of the heap were made non-executable.
pub open spec fn pages_remapped(m: Map<usize, Seq<usize>>, top: int, heap_start: int, off: usize, k: int) -> Map<
    usize,
    Seq<usize>,
>
    decreases k,
{
    if k <= 0 {
        m
    } else {
        remapped(
            pages_remapped(m, top, heap_start, off, k - 1),
            top,
            heap_page(heap_start, k - 1),
            0,
            FORBID_EXECUTION as usize,
            off,
            0,
        )
    }
}

/// Where the heap goes: the longest finished run of usable memory, in the direct
/// map of physical memory.
pub open spec fn heap_start_for(boot_info: BootInfo) -> int {
    run_scan(boot_info.memory_regions@).0 + boot_info.physical_memory_offset->0
}

/// Sets up the kernel heap: 2 MiB at the start of the longest finished run of
/// usable memory, whose pages are made non-executable in the page tables that
/// `cr3` leads to, managed by a free-list allocator.
pub fn init_heap(boot_info: &BootInfo, tables: &mut PageTableMemory, cr3: usize) -> (a: FreeListHeapAllocator)
    requires
        usize::BITS == 64,
        runs_fit(boot_info.memory_regions@),
        boot_info.physical_memory_offset is Some,
        heap_start_for(*boot_info) != 0,
        heap_start_for(*boot_info) + HEAP_SIZE <= usize::MAX,
        frame_of(cr3) + boot_info.physical_memory_offset->0 <= usize::MAX,
        forall|page: int|
            0 <= page < HEAP_SIZE / PAGE_SIZE ==> walk_ok(
                old(tables)@,
                top_table(cr3, boot_info.physical_memory_offset->0),
                #[trigger] heap_page(heap_start_for(*boot_info), page),
                0,
                FORBID_EXECUTION as usize,
                boot_info.physical_memory_offset->0,
                0,
            ),
    ensures
        a.wf(),
        a.heap_start() == heap_start_for(*boot_info),
        a.heap_len() == HEAP_SIZE,
        a.regions() == seq![(heap_start_for(*boot_info) + 24, HEAP_SIZE - 24)],
        final(tables)@ == pages_remapped(
            old(tables)@,
            top_table(cr3, boot_info.physical_memory_offset->0),
            heap_start_for(*boot_info),
            boot_info.physical_memory_offset->0,
            (HEAP_SIZE / PAGE_SIZE) as int,
        ),
{
    let (biggest_address, _biggest_size) = biggest_usable_run(&boot_info.memory_regions);
    let phys_memory_offset = boot_info.physical_memory_offset.unwrap();
    let heap_start = biggest_address + phys_memory_offset;
    let heap_size = HEAP_SIZE;
    let forbid = FORBID_EXECUTION as usize;
    let ghost top = top_table(cr3, phys_memory_offset);
    let ghost m0 = tables@;
    proof {
        assert(flags_keep_walks(0, forbid)) by {
            assert((0usize as u64) & 0x000f_ffff_ffff_f001u64 == 0) by (bit_vector);
            assert(((0x8000_0000_0000_0000u64 as usize) as u64) & 0x000f_ffff_ffff_f001u64 == 0) by (bit_vector)
                requires
                    usize::BITS == 64,
            ;
        }
    }
    let pages = heap_size / PAGE_SIZE;
    let mut page: usize = 0;
    while page < pages
        invariant
            usize::BITS == 64,
            pages == HEAP_SIZE / PAGE_SIZE,
            page <= pages,
            heap_start as int == heap_start_for(*boot_info),
            heap_start + HEAP_SIZE <= usize::MAX,
            forbid == FORBID_EXECUTION as usize,
            flags_keep_walks(0, forbid),
            top == top_table(cr3, phys_memory_offset),
            frame_of(cr3) + phys_memory_offset <= usize::MAX,
            tables@ == pages_remapped(m0, top, heap_start as int, phys_memory_offset, page as int),
            forall|p: int|
                page <= p < pages ==> walk_ok(
                    tables@,
                    top,
                    #[trigger] heap_page(heap_start as int, p),
                    0,
                    forbid,
                    phys_memory_offset,
                    0,
                ),
        decreases pages - page,
    {
        let ghost before = tables@;
        let virt = VirtAddress(heap_start + page * PAGE_SIZE).canonicalize();
        assert(virt.0 == heap_page(heap_start as int, page as int));
        remap_flags(tables, cr3, virt, 0, forbid, phys_memory_offset);
        proof {
            assert forall|p: int| page + 1 <= p < pages implies walk_ok(
                tables@,
                top,
                #[trigger] heap_page(heap_start as int, p),
                0,
                forbid,
                phys_memory_offset,
                0,
            ) by {
                assert(walk_ok(before, top, heap_page(heap_start as int, p), 0, forbid, phys_memory_offset, 0));
                law_remap_keeps_walks(
                    before,
                    top,
                    virt.0,
                    heap_page(heap_start as int, p),
                    0,
                    forbid,
                    phys_memory_offset,
                );
            }
        }
        page = page + 1;
    }
    FreeListHeapAllocator::new(heap_start, heap_size)
}

/// The total length of the usable regions that directly precede region `k`:
/// 0 when region `k - 1` is not usable.
pub open spec fn usable_before(rs: Seq<MemoryRegion>, k: int) -> int
    decreases k,
{
    if k <= 0 || rs[k - 1].kind != MemoryRegionKind::Usable {
        0
    } else {
        usable_before(rs, k - 1) + rs[k - 1].memory.len
    }
}

/// Where the run of usable regions that directly precedes region `k` starts:
/// at the first of its regions from which on it has bytes (0 when no usable
/// region precedes `k`).
pub open spec fn run_start_before(rs: Seq<MemoryRegion>, k: int) -> int
    decreases k,
{
    if k <= 0 || rs[k - 1].kind != MemoryRegionKind::Usable {
        0
    } else if usable_before(rs, k - 1) > 0 {
        run_start_before(rs, k - 1)
    } else {
        rs[k - 1].memory.start as int
    }
}

/// The runs before region `k` depend only on the regions before it.
proof fn lemma_runs_prefix(rs: Seq<MemoryRegion>, n: int, k: int)
    requires
        0 <= k <= n <= rs.len(),
    ensures
        usable_before(rs.take(n), k) == usable_before(rs, k),
        run_start_before(rs.take(n), k) == run_start_before(rs, k),
    decreases k,
{
    if k > 0 {
        lemma_runs_prefix(rs, n, k - 1);
        assert(rs.take(n)[k - 1] == rs[k - 1]);
    }
}

/// The scan's state after `rs`: the run under way is the usable run at the
/// end, and the longest finished run is at least as long as every finished run
/// and is one of them.
proof fn lemma_run_scan_longest(rs: Seq<MemoryRegion>)
    ensures
        run_scan(rs).3 == usable_before(rs, rs.len() as int),
        run_scan(rs).2 == run_start_before(rs, rs.len() as int),
        run_scan(rs).1 >= 0,
        run_scan(rs).1 == 0 ==> run_scan(rs).0 == 0,
        forall|k: int|
            0 <= k < rs.len() && (#[trigger] rs[k]).kind != MemoryRegionKind::Usable ==> usable_before(rs, k)
                <= run_scan(rs).1,
        run_scan(rs).1 > 0 ==> exists|k: int|
            0 <= k < rs.len() && (#[trigger] rs[k]).kind != MemoryRegionKind::Usable && usable_before(rs, k)
                == run_scan(rs).1 && run_start_before(rs, k) == run_scan(rs).0,
    decreases rs.len(),
{
    if rs.len() > 0 {
        let n = rs.len() - 1;
        let s = rs.drop_last();
        assert(s =~= rs.take(n));
        lemma_run_scan_longest(s);
        lemma_runs_prefix(rs, n, n);
        assert forall|k: int| 0 <= k <= n implies usable_before(s, k) == usable_before(rs, k)
            && run_start_before(s, k) == run_start_before(rs, k) by {
            lemma_runs_prefix(rs, n, k);
        }
        let (ba, bs, ca, cs) = run_scan(s);
        if rs[n].kind != MemoryRegionKind::Usable {
            assert forall|k: int|
                0 <= k < rs.len() && (#[trigger] rs[k]).kind != MemoryRegionKind::Usable implies usable_before(
                rs,
                k,
            ) <= run_scan(rs).1 by {
                if k < n {
                    assert(s[k] == rs[k]);
                }
            }
            if bs > 0 && !(cs > bs) {
                let w = choose|k: int|
                    0 <= k < s.len() && (#[trigger] s[k]).kind != MemoryRegionKind::Usable && usable_before(
                        s,
                        k,
                    ) == bs && run_start_before(s, k) == ba;
                assert(rs[w] == s[w]);
            }
            if cs > bs {
                assert(rs[n].kind != MemoryRegionKind::Usable);
            }
        } else {
            assert forall|k: int|
                0 <= k < rs.len() && (#[trigger] rs[k]).kind != MemoryRegionKind::Usable implies usable_before(
                rs,
                k,
            ) <= run_scan(rs).1 by {
                assert(k < n);
                assert(s[k] == rs[k]);
            }
            if bs > 0 {
                let w = choose|k: int|
                    0 <= k < s.len() && (#[trigger] s[k]).kind != MemoryRegionKind::Usable && usable_before(
                        s,
                        k,
                    ) == bs && run_start_before(s, k) == ba;
                assert(rs[w] == s[w]);
            }
        }
    }
}

/// Law: the heap goes in the longest finished run of usable memory. The run
/// that `biggest_usable_run` finds (`run_scan(rs).0` and `.1`) is at least as
/// long as the usable regions directly before any region that is not usable,
/// and, when it is not empty, it is the run before one such region and starts
/// where that run starts.
pub proof fn law_biggest_run_is_longest(rs: Seq<MemoryRegion>)
    ensures
        forall|k: int|
            0 <= k < rs.len() && (#[trigger] rs[k]).kind != MemoryRegionKind::Usable ==> usable_before(rs, k)
                <= run_scan(rs).1,
        run_scan(rs).1 > 0 ==> exists|k: int|
            0 <= k < rs.len() && (#[trigger] rs[k]).kind != MemoryRegionKind::Usable && usable_before(rs, k)
                == run_scan(rs).1 && run_start_before(rs, k) == run_scan(rs).0,
        run_scan(rs).1 == 0 ==> run_scan(rs).0 == 0,
{
    lemma_run_scan_longest(rs);
}

} // verus!
