//! The free-list heap allocator. Unused regions of the heap carry a header
//! (`UnusedRegionInfos`) at their first byte; the headers form a singly linked
//! list, ordered by address, that starts at a head header of size 0 placed at the
//! heap's first byte. The heap's memory is modelled by `HeapMemory`, the store of
//! those headers by address.
use std::collections::HashMap;
use vstd::prelude::*;
use crate::free_list::{
    law_allocation_takes_aligned_free_block, law_release_adds_block, law_allocation_keeps_tight,
    law_release_keeps_tight, regions_tight, law_allocate_then_release_restores, law_first_fit_is_first,
    room_for, lemma_first_fit, covered, total,
    block_size, bump, carve, first_fit, lemma_addresses_increase, lemma_bump, lemma_pad_for,
    lemma_remove_ok, lemma_shrink_ok, lemma_split_ok, pad_for, placement, regions_ok, Placement,
    lemma_replace_ok, lemma_insert_ok, end_of, disjoint_from_all, release, first_above,
};

verus! {

broadcast use vstd::std_specs::hash::group_hash_axioms;

/// Header written at the start of every unused region: its size in bytes and the
/// address of the next unused region, 0 when there is none.
#[derive(Debug, Clone, Copy, PartialEq, Eq, Structural)]
pub struct UnusedRegionInfos {
    pub size: usize,
    pub next: usize,
}

/// The region headers that the heap's memory holds, by address.
pub struct HeapMemory {
    headers: HashMap<usize, UnusedRegionInfos>,
}

impl View for HeapMemory {
    type V = Map<usize, UnusedRegionInfos>;

    closed spec fn view(&self) -> Map<usize, UnusedRegionInfos> {
        self.headers@
    }
}

impl HeapMemory {
    /// Memory that holds no header yet.
    pub fn new() -> (m: Self)
        ensures
            m@ == Map::<usize, UnusedRegionInfos>::empty(),
    {
        HeapMemory { headers: HashMap::new() }
    }

    /// Reads the header stored at `address`.
    pub fn read(&self, address: usize) -> (infos: UnusedRegionInfos)
        requires
            self@.contains_key(address),
        ensures
            infos == self@[address],
    {
        *self.headers.get(&address).unwrap()
    }

    /// Writes `infos` as the header at `address`.
    pub fn write(&mut self, address: usize, infos: UnusedRegionInfos)
        ensures
            final(self)@ == old(self)@.insert(address, infos),
    {
        self.headers.insert(address, infos);
    }
}


/// An unused region as the allocator walks it: its header, its address, and the
/// address of the region before it in the list, when it was reached from there.
#[derive(Debug, Clone, Copy, PartialEq, Eq, Structural)]
pub struct UnusedRegion {
    infos: UnusedRegionInfos,
    address: usize,
    prev: Option<usize>,
}

impl UnusedRegion {
    /// The region's header.
    pub closed spec fn infos_spec(&self) -> UnusedRegionInfos {
        self.infos
    }

    /// The region's address.
    pub closed spec fn address_spec(&self) -> usize {
        self.address
    }

    /// The address of the region it was reached from, if any.
    pub closed spec fn prev_spec(&self) -> Option<usize> {
        self.prev
    }

    /// The region whose header is stored at `address`.
    pub fn read(memory: &HeapMemory, address: usize) -> (r: Self)
        requires
            memory@.contains_key(address),
        ensures
            r.infos_spec() == memory@[address],
            r.address_spec() == address,
            r.prev_spec() is None,
    {
        UnusedRegion { infos: memory.read(address), address, prev: None }
    }

    /// Writes a region header at `address` with the given size, linked to `next`.
    pub fn new(memory: &mut HeapMemory, address: usize, size: usize, next: Option<UnusedRegion>) -> (r:
        Self)
        ensures
            r.infos_spec() == (UnusedRegionInfos {
                size,
                next: match next {
                    Some(v) => v.address_spec(),
                    None => 0,
                },
            }),
            r.address_spec() == address,
            r.prev_spec() is None,
            final(memory)@ == old(memory)@.insert(address, r.infos_spec()),
    {
        let infos = UnusedRegionInfos {
            size,
            next: match next {
                Some(v) => v.address,
                None => 0,
            },
        };
        memory.write(address, infos);
        UnusedRegion { infos, address, prev: None }
    }

    /// Size of the region in bytes.
    pub fn size(&self) -> (s: usize)
        ensures
            s == self.infos_spec().size,
    {
        self.infos.size
    }

    /// The same region, recorded as reached from `prev`.
    pub fn with_prev(self, prev: Self) -> (r: Self)
        ensures
            r.infos_spec() == self.infos_spec(),
            r.address_spec() == self.address_spec(),
            r.prev_spec() == Some(prev.address_spec()),
    {
        let mut r = self;
        r.prev = Some(prev.address);
        r
    }

    /// The next region in the list, read from memory, or `None` at the end.
    pub fn next(&self, memory: &HeapMemory) -> (r: Option<Self>)
        requires
            self.infos_spec().next != 0 ==> memory@.contains_key(self.infos_spec().next),
        ensures
            self.infos_spec().next == 0 ==> r is None,
            self.infos_spec().next != 0 ==> r is Some && r->0.address_spec()
                == self.infos_spec().next && r->0.infos_spec() == memory@[self.infos_spec().next]
                && r->0.prev_spec() == Some(self.address_spec()),
    {
        if self.infos.next == 0 {
            None
        } else {
            Some(Self::read(memory, self.infos.next).with_prev(*self))
        }
    }

    /// Writes this region's header back to memory.
    pub fn rewrite(&self, memory: &mut HeapMemory)
        ensures
            final(memory)@ == old(memory)@.insert(self.address_spec(), self.infos_spec()),
    {
        memory.write(self.address, self.infos);
    }

    /// Sets the region's size, in its header in memory too.
    pub fn set_size(&mut self, memory: &mut HeapMemory, new_size: usize)
        ensures
            final(self).infos_spec() == (UnusedRegionInfos { size: new_size, ..old(self).infos_spec() }),
            final(self).address_spec() == old(self).address_spec(),
            final(self).prev_spec() == old(self).prev_spec(),
            final(memory)@ == old(memory)@.insert(old(self).address_spec(), final(self).infos_spec()),
    {
        self.infos.size = new_size;
        self.rewrite(memory);
    }

    /// Links the region to `new_next` (or to none), in its header in memory too.
    pub fn set_next(&mut self, memory: &mut HeapMemory, new_next: Option<Self>)
        ensures
            final(self).infos_spec() == (UnusedRegionInfos {
                next: match new_next {
                    Some(n) => n.address_spec(),
                    None => 0,
                },
                ..old(self).infos_spec()
            }),
            final(self).address_spec() == old(self).address_spec(),
            final(self).prev_spec() == old(self).prev_spec(),
            final(memory)@ == old(memory)@.insert(old(self).address_spec(), final(self).infos_spec()),
    {
        self.infos.next = match new_next {
            Some(n) => n.address,
            None => 0,
        };
        self.rewrite(memory);
    }

    /// The region this one was reached from, read afresh from memory.
    pub fn get_prev(&self, memory: &HeapMemory) -> (r: Option<Self>)
        requires
            self.prev_spec() matches Some(p) ==> memory@.contains_key(p),
        ensures
            self.prev_spec() is None ==> r is None,
            self.prev_spec() matches Some(p) ==> r is Some && r->0.address_spec() == p
                && r->0.infos_spec() == memory@[p] && r->0.prev_spec() is None,
    {
        match self.prev {
            Some(v) => Some(Self::read(memory, v)),
            None => None,
        }
    }
}

/// Returned when no unused region can hold the requested block.
#[derive(Debug, Clone, Copy, PartialEq, Eq, Structural)]
pub struct AllocError;

/// The address that the header at `k` of a chain links to: the next element, or 0.
pub open spec fn link(c: Seq<usize>, k: int) -> usize {
    if 0 <= k < c.len() {
        c[k]
    } else {
        0
    }
}

/// A free-list allocator over the heap `[start, start + len)`.
pub struct FreeListHeapAllocator {
    start: usize,
    len: usize,
    memory: HeapMemory,
    /// Addresses of the unused regions, in list order.
    free: Ghost<Seq<usize>>,
}

impl FreeListHeapAllocator {
    /// The heap's first byte.
    pub closed spec fn heap_start(&self) -> int {
        self.start as int
    }

    /// The heap's length in bytes.
    pub closed spec fn heap_len(&self) -> int {
        self.len as int
    }

    /// The unused regions `(address, size)`, in list order.
    pub closed spec fn regions(&self) -> Seq<(int, int)> {
        self.free@.map_values(|a: usize| (a as int, self.memory@[a].size as int))
    }

    /// The headers in memory form the list of `regions()`: the head header at the
    /// heap's start has size 0 and links to the first region, each region links to
    /// the next, the last to 0.
    pub closed spec fn wf(&self) -> bool {
        &&& self.start + self.len <= usize::MAX
        &&& self.memory@.contains_key(self.start)
        &&& self.memory@[self.start].size == 0
        &&& self.memory@[self.start].next == link(self.free@, 0)
        &&& forall|j: int|
            0 <= j < self.free@.len() ==> self.memory@.contains_key(#[trigger] self.free@[j])
                && self.memory@[self.free@[j]].next == link(self.free@, j + 1)
        &&& regions_ok(self.start as int, self.len as int, self.regions())
    }

    /// An allocator over `[start, start + size)`: a head header at `start` and one
    /// unused region from `start + 24` to the end.
    pub fn new(start: usize, size: usize) -> (r: Self)
        requires
            start != 0,
            size > 24,
            start + size <= usize::MAX,
        ensures
            r.wf(),
            r.heap_start() == start,
            r.heap_len() == size,
            r.regions() == seq![(start + 24, size - 24)],
            size >= 40 ==> regions_tight(r.regions()),
    {
        let mut memory = HeapMemory::new();
        let second = UnusedRegion::new(&mut memory, start + 24, size - 24, None);
        UnusedRegion::new(&mut memory, start, 0, Some(second));
        let ghost free = seq![(start + 24) as usize];
        let r = FreeListHeapAllocator { start, len: size, memory, free: Ghost(free) };
        assert(r.regions() =~= seq![(start + 24, size - 24)]);
        proof {
            reveal(regions_ok);
        }
        r
    }
}


impl FreeListHeapAllocator {
    /// Address of the header that links to the `i`-th region.
    spec fn prev_addr(&self, i: int) -> usize {
        if i == 0 {
            self.start
        } else {
            self.free@[i - 1]
        }
    }

    /// `cur` is the `i`-th region, as reached by walking the list.
    spec fn walk_at(&self, cur: UnusedRegion, i: int) -> bool {
        &&& 0 <= i < self.free@.len()
        &&& cur.address == self.free@[i]
        &&& cur.infos == self.memory@[self.free@[i]]
        &&& cur.prev == Some(self.prev_addr(i))
    }

    /// What the soundness of the list says of its `j`-th region.
    proof fn lemma_region(&self, j: int)
        requires
            self.wf(),
            0 <= j < self.free@.len(),
        ensures
            self.regions().len() == self.free@.len(),
            self.regions()[j] == (self.free@[j] as int, self.memory@[self.free@[j]].size as int),
            self.start + 16 <= self.free@[j],
            self.free@[j] + self.memory@[self.free@[j]].size <= self.start + self.len,
            self.memory@[self.free@[j]].size > 0,
            self.memory@.contains_key(self.free@[j]),
            self.memory@[self.free@[j]].next == link(self.free@, j + 1),
    {
        reveal(regions_ok);
        let rs = self.regions();
        assert(rs[j] == (self.free@[j] as int, self.memory@[self.free@[j]].size as int));
        assert(self.start + crate::free_list::min_block() <= rs[j].0);
    }

    /// Earlier regions of a sound list end before later ones start.
    proof fn lemma_order(&self, j: int, k: int)
        requires
            self.wf(),
            0 <= j < k < self.free@.len(),
        ensures
            self.free@[j] + self.memory@[self.free@[j]].size <= self.free@[k],
    {
        reveal(regions_ok);
        let rs = self.regions();
        assert(rs[j] == (self.free@[j] as int, self.memory@[self.free@[j]].size as int));
        assert(rs[k] == (self.free@[k] as int, self.memory@[self.free@[k]].size as int));
        assert(crate::free_list::end_of(rs[j]) <= rs[k].0);
    }

    /// Hands out the whole `i`-th region: unlinks it from the list.
    #[verifier::rlimit(60)]
    fn take_whole(&mut self, cur: UnusedRegion, Ghost(i): Ghost<int>)
        requires
            old(self).wf(),
            old(self).walk_at(cur, i),
        ensures
            final(self).wf(),
            final(self).start == old(self).start,
            final(self).len == old(self).len,
            final(self).regions() == old(self).regions().remove(i),
    {
        let ghost c = self.free@;
        let ghost m = self.memory@;
        let ghost rs = old(self).regions();
        proof {
            self.lemma_region(i);
            if i > 0 {
                self.lemma_region(i - 1);
            }
        }
        let mut prev = cur.get_prev(&self.memory).unwrap();
        let nxt = cur.next(&self.memory);
        prev.set_next(&mut self.memory, nxt);
        proof {
            let c2 = c.remove(i);
            let p = if i == 0 { self.start } else { c[i - 1] };
            let m2 = self.memory@;
            assert(m2 == m.insert(p, UnusedRegionInfos { size: m[p].size, next: link(c, i + 1) }));
            assert forall|j: int| 0 <= j < c2.len() implies m2.contains_key(#[trigger] c2[j])
                && m2[c2[j]].next == link(c2, j + 1) && m2[c2[j]].size == m[c2[j]].size by {
                if j < i - 1 {
                    old(self).lemma_region(j);
                    old(self).lemma_order(j, i - 1);
                } else if j >= i {
                    old(self).lemma_region(j + 1);
                    old(self).lemma_order(i, j + 1);
                    if i > 0 {
                        old(self).lemma_order(i - 1, j + 1);
                    }
                }
            }
            self.free@ = c2;
            assert(self.regions() =~= rs.remove(i));
            lemma_remove_ok(self.start as int, self.len as int, rs, i);
        }
    }

    /// Hands out the first `l_size` bytes of the `i`-th region; the rest becomes
    /// an unused region of its own, linked in its place.
    #[verifier::rlimit(60)]
    fn take_front(&mut self, cur: UnusedRegion, l_size: usize, Ghost(i): Ghost<int>)
        requires
            old(self).wf(),
            old(self).walk_at(cur, i),
            l_size + 16 <= cur.infos.size,
        ensures
            final(self).wf(),
            final(self).start == old(self).start,
            final(self).len == old(self).len,
            final(self).regions() == old(self).regions().update(
                i,
                (cur.address + l_size, cur.infos.size - l_size),
            ),
    {
        let ghost c = self.free@;
        let ghost m = self.memory@;
        let ghost rs = old(self).regions();
        proof {
            self.lemma_region(i);
            if i > 0 {
                self.lemma_region(i - 1);
                self.lemma_order(i - 1, i);
            }
        }
        let mut prev = cur.get_prev(&self.memory).unwrap();
        let nxt = cur.next(&self.memory);
        let new = UnusedRegion::new(&mut self.memory, cur.address + l_size, cur.size() - l_size, nxt);
        prev.set_next(&mut self.memory, Some(new));
        proof {
            let na = (cur.address + l_size) as usize;
            let c2 = c.update(i, na);
            let p = if i == 0 { self.start } else { c[i - 1] };
            assert(self.memory@ == m.insert(
                na,
                UnusedRegionInfos { size: (cur.infos.size - l_size) as usize, next: link(c, i + 1) },
            ).insert(p, UnusedRegionInfos { size: m[p].size, next: na }));
            let m2 = self.memory@;
            assert forall|j: int| 0 <= j < c2.len() implies m2.contains_key(#[trigger] c2[j])
                && m2[c2[j]].next == link(c2, j + 1) && (j != i ==> m2[c2[j]].size == m[c2[j]].size) by {
                if j < i - 1 {
                    old(self).lemma_region(j);
                    old(self).lemma_order(j, i - 1);
                    old(self).lemma_order(j, i);
                } else if j > i {
                    old(self).lemma_region(j);
                    old(self).lemma_order(i, j);
                }
            }
            if i > 0 {
                assert(p != self.start);
            }
            self.free@ = c2;
            assert(self.regions() =~= rs.update(i, (cur.address + l_size, cur.infos.size - l_size)));
            lemma_shrink_ok(
                self.start as int,
                self.len as int,
                rs,
                i,
                cur.address + l_size,
                cur.infos.size - l_size,
            );
        }
    }

    /// Keeps the first `pad` bytes of the `i`-th region unused; the rest is handed out.
    #[verifier::rlimit(60)]
    fn keep_front(&mut self, cur: UnusedRegion, pad: usize, Ghost(i): Ghost<int>)
        requires
            old(self).wf(),
            old(self).walk_at(cur, i),
            0 < pad < cur.infos.size,
        ensures
            final(self).wf(),
            final(self).start == old(self).start,
            final(self).len == old(self).len,
            final(self).regions() == old(self).regions().update(i, (cur.address as int, pad as int)),
    {
        let ghost c = self.free@;
        let ghost m = self.memory@;
        let ghost rs = old(self).regions();
        proof {
            self.lemma_region(i);
        }
        let mut cur = cur;
        cur.set_size(&mut self.memory, pad);
        proof {
            let a = c[i];
            assert(self.memory@ == m.insert(a, UnusedRegionInfos { size: pad, next: m[a].next }));
            assert forall|j: int| 0 <= j < c.len() && j != i implies m.contains_key(#[trigger] c[j])
                && c[j] != a && m[c[j]].next == link(c, j + 1) by {
                old(self).lemma_region(j);
                if j < i {
                    old(self).lemma_order(j, i);
                } else {
                    old(self).lemma_order(i, j);
                }
            }
            assert(self.regions() =~= rs.update(i, (a as int, pad as int)));
            lemma_shrink_ok(self.start as int, self.len as int, rs, i, a as int, pad as int);
        }
    }

    /// Keeps the first `pad` bytes of the `i`-th region unused, hands out the next
    /// `l_size`, and links what follows as a new unused region after it.
    #[verifier::rlimit(60)]
    fn split_middle(&mut self, cur: UnusedRegion, pad: usize, l_size: usize, Ghost(i): Ghost<int>)
        requires
            old(self).wf(),
            old(self).walk_at(cur, i),
            0 < pad,
            pad + l_size + 16 <= cur.infos.size,
        ensures
            final(self).wf(),
            final(self).start == old(self).start,
            final(self).len == old(self).len,
            final(self).regions() == old(self).regions().update(i, (cur.address as int, pad as int)).insert(
                i + 1,
                (cur.address + pad + l_size, cur.infos.size - pad - l_size),
            ),
    {
        let ghost c = self.free@;
        let ghost m = self.memory@;
        let ghost rs = old(self).regions();
        let ghost csize = cur.infos.size;
        proof {
            self.lemma_region(i);
        }
        let mut cur = cur;
        let nxt = cur.next(&self.memory);
        let new = UnusedRegion::new(
            &mut self.memory,
            cur.address + pad + l_size,
            cur.size() - pad - l_size,
            nxt,
        );
        cur.set_size(&mut self.memory, pad);
        cur.set_next(&mut self.memory, Some(new));
        proof {
            let a = c[i];
            let na = (a + pad + l_size) as usize;
            let c2 = c.insert(i + 1, na);
            assert(self.memory@ == m.insert(
                na,
                UnusedRegionInfos { size: (csize - pad - l_size) as usize, next: link(c, i + 1) },
            ).insert(a, UnusedRegionInfos { size: pad, next: na }));
            assert forall|j: int| 0 <= j < c.len() && j != i implies m.contains_key(#[trigger] c[j])
                && c[j] != a && c[j] != na && c[j] != self.start && m[c[j]].next == link(c, j + 1) by {
                old(self).lemma_region(j);
                if j < i {
                    old(self).lemma_order(j, i);
                } else {
                    old(self).lemma_order(i, j);
                }
            }
            assert forall|j: int| 0 <= j < c2.len() implies self.memory@.contains_key(#[trigger] c2[j])
                && self.memory@[c2[j]].next == link(c2, j + 1) by {
                if j < i {
                    assert(c2[j] == c[j]);
                } else if j > i + 1 {
                    assert(c2[j] == c[j - 1]);
                }
            }
            self.free@ = c2;
            let expect = rs.update(i, (a as int, pad as int)).insert(
                i + 1,
                (a + pad + l_size, csize - pad - l_size),
            );
            assert forall|j: int| 0 <= j < c2.len() implies #[trigger] self.regions()[j] == expect[j] by {
                if j < i {
                    assert(c2[j] == c[j]);
                } else if j > i + 1 {
                    assert(c2[j] == c[j - 1]);
                }
            }
            assert(self.regions() =~= expect);
            lemma_split_ok(self.start as int, self.len as int, rs, i, pad as int, l_size as int);
        }
    }

    /// Allocates `size` bytes aligned to `align` from the first unused region, in
    /// address order, that can hold them; a request for fewer than 16 bytes takes
    /// 16. Returns the block's address and length.
    pub fn allocate(&mut self, size: usize, align: usize) -> (r: Result<(usize, usize), AllocError>)
        requires
            old(self).wf(),
            0 < align <= usize::MAX / 2 + 1,
        ensures
            final(self).wf(),
            final(self).heap_start() == old(self).heap_start(),
            final(self).heap_len() == old(self).heap_len(),
            ({
                let rs = old(self).regions();
                let l = block_size(size as int);
                match first_fit(rs, l, align as int, 0) {
                    None => r is Err && *final(self) == *old(self),
                    Some(i) => {
                        let pl = placement(rs[i].0, rs[i].1, l, align as int)->0;
                        &&& r == Ok::<(usize, usize), AllocError>(((rs[i].0 + pl.offset()) as usize, l as usize))
                        &&& final(self).regions() == carve(rs, i, pl, l)
                    },
                }
            }),
    {
        let ghost rs = self.regions();
        let infos = UnusedRegion::read(&self.memory, self.start);
        proof {
            if self.free@.len() > 0 {
                self.lemma_region(0);
            }
        }
        let mut current_unused_region = match infos.next(&self.memory) {
            None => return Err(AllocError),
            Some(v) => v,
        };
        let mut l_size = size;
        if l_size < 16 {
            l_size = 16;
        }
        let l_align = align;
        let ghost mut i: int = 0;
        loop
            invariant
                *self == *old(self),
                self.wf(),
                rs == self.regions(),
                self.walk_at(current_unused_region, i),
                first_fit(rs, l_size as int, align as int, 0) == first_fit(rs, l_size as int, align as int, i),
                l_size == block_size(size as int),
                l_align == align,
                0 < align <= usize::MAX / 2 + 1,
            decreases self.free@.len() - i,
        {
            let cur = current_unused_region;
            proof {
                self.lemma_region(i);
                lemma_pad_for(cur.address as int, align as int);
            }
            let csize = cur.size();
            let pad = (l_align - (cur.address % l_align)) % l_align;
            assert(pad == pad_for(cur.address as int, align as int));
            if pad == 0 && l_size == csize {
                self.take_whole(cur, Ghost(i));
                return Ok((cur.address, l_size));
            }
            if pad == 0 && l_size <= csize && csize - l_size >= 16 {
                self.take_front(cur, l_size, Ghost(i));
                return Ok((cur.address, l_size));
            }
            if pad >= 16 && pad <= csize && csize - pad == l_size {
                self.keep_front(cur, pad, Ghost(i));
                return Ok((cur.address + pad, l_size));
            }
            if pad >= 16 && pad <= csize && l_size <= csize - pad && csize - pad - l_size >= 16 {
                self.split_middle(cur, pad, l_size, Ghost(i));
                return Ok((cur.address + pad, l_size));
            }
            let pad = {
                let mut pad = pad;
                while pad < 16
                    invariant
                        0 <= pad < 16 + align,
                        bump(pad as int, align as int) == bump(pad_for(cur.address as int, align as int), align as int),
                        0 < align <= usize::MAX / 2 + 1,
                        l_align == align,
                    decreases (if pad < 16 { 16 - pad } else { 0 }),
                {
                    pad += l_align;
                }
                pad
            };
            proof {
                lemma_bump(pad_for(cur.address as int, align as int), align as int);
                lemma_bump(pad as int, align as int);
                assert(pad == bump(pad_for(cur.address as int, align as int), align as int));
                if i + 1 < self.free@.len() {
                    self.lemma_region(i + 1);
                }
            }
            if pad <= csize && l_size <= csize - pad && csize - pad - l_size >= 16 {
                self.split_middle(cur, pad, l_size, Ghost(i));
                return Ok((cur.address + pad, l_size));
            }
            assert(rs[i] == (cur.address as int, csize as int));
            assert(placement(rs[i].0, rs[i].1, l_size as int, align as int) is None);
            assert(first_fit(rs, l_size as int, align as int, i) == first_fit(rs, l_size as int, align as int, i + 1));
            match cur.next(&self.memory) {
                None => {
                    assert(i + 1 >= rs.len());
                    assert(first_fit(rs, l_size as int, align as int, i + 1) is None);
                    return Err(AllocError);
                },
                Some(r) => {
                    current_unused_region = r;
                },
            }
            proof {
                i = i + 1;
                self.lemma_region(i);
            }
        }
    }

    /// Address of the region that `next` stands for, 0 for none.
    spec fn addr_of(next: Option<UnusedRegion>) -> usize {
        match next {
            Some(n) => n.address,
            None => 0,
        }
    }

    /// Writes the region `(address, t)` in place of the `k`-th region, linked to
    /// `next`, and links the header before it to it.
    #[verifier::rlimit(60)]
    fn relink(
        &mut self,
        prev: UnusedRegion,
        address: usize,
        t: usize,
        next: Option<UnusedRegion>,
        Ghost(k): Ghost<int>,
    )
        requires
            old(self).wf(),
            0 <= k < old(self).free@.len(),
            prev.address == old(self).prev_addr(k),
            prev.infos == old(self).memory@[old(self).prev_addr(k)],
            Self::addr_of(next) == link(old(self).free@, k + 1),
            t > 0,
            old(self).start + 16 <= address,
            address + t <= old(self).start + old(self).len,
            k > 0 ==> end_of(old(self).regions()[k - 1]) <= address,
            k + 1 < old(self).free@.len() ==> address + t <= old(self).free@[k + 1],
        ensures
            final(self).wf(),
            final(self).start == old(self).start,
            final(self).len == old(self).len,
            final(self).regions() == old(self).regions().update(k, (address as int, t as int)),
    {
        let ghost c = self.free@;
        let ghost m = self.memory@;
        let ghost rs = old(self).regions();
        proof {
            self.lemma_region(k);
            if k > 0 {
                self.lemma_region(k - 1);
            }
            if k + 1 < c.len() {
                self.lemma_region(k + 1);
            }
        }
        let new = UnusedRegion::new(&mut self.memory, address, t, next);
        let mut prev = prev;
        prev.set_next(&mut self.memory, Some(new));
        proof {
            let p = self.prev_addr(k);
            let c2 = c.update(k, address);
            let m2 = self.memory@;
            assert(m2 == m.insert(address, UnusedRegionInfos { size: t, next: link(c, k + 1) }).insert(
                p,
                UnusedRegionInfos { size: m[p].size, next: address },
            ));
            assert forall|j: int| 0 <= j < c2.len() implies m2.contains_key(#[trigger] c2[j])
                && m2[c2[j]].next == link(c2, j + 1) && (j != k ==> m2[c2[j]].size == m[c2[j]].size) by {
                if j < k - 1 {
                    old(self).lemma_region(j);
                    old(self).lemma_order(j, k - 1);
                } else if j > k {
                    old(self).lemma_region(j);
                    if j > k + 1 {
                        old(self).lemma_order(k + 1, j);
                    }
                    if k > 0 {
                        old(self).lemma_order(k - 1, j);
                    }
                }
            }
            self.free@ = c2;
            assert(self.regions() =~= rs.update(k, (address as int, t as int)));
            lemma_replace_ok(self.start as int, self.len as int, rs, k, address as int, t as int);
        }
    }

    /// Writes the region `(address, s)` just before the `k`-th region, `cur`, and
    /// links it into the list there.
    #[verifier::rlimit(60)]
    fn link_before(&mut self, prev: UnusedRegion, cur: UnusedRegion, address: usize, s: usize, Ghost(k): Ghost<int>)
        requires
            old(self).wf(),
            old(self).walk_at(cur, k),
            prev.address == old(self).prev_addr(k),
            prev.infos == old(self).memory@[old(self).prev_addr(k)],
            s > 0,
            old(self).start + 16 <= address,
            address + s <= cur.address,
            k > 0 ==> end_of(old(self).regions()[k - 1]) <= address,
        ensures
            final(self).wf(),
            final(self).start == old(self).start,
            final(self).len == old(self).len,
            final(self).regions() == old(self).regions().insert(k, (address as int, s as int)),
    {
        let ghost c = self.free@;
        let ghost m = self.memory@;
        let ghost rs = old(self).regions();
        proof {
            self.lemma_region(k);
            if k > 0 {
                self.lemma_region(k - 1);
            }
        }
        let new = UnusedRegion::new(&mut self.memory, address, s, Some(cur));
        let mut prev = prev;
        prev.set_next(&mut self.memory, Some(new));
        proof {
            let p = self.prev_addr(k);
            let c2 = c.insert(k, address);
            let m2 = self.memory@;
            assert(m2 == m.insert(address, UnusedRegionInfos { size: s, next: c[k] }).insert(
                p,
                UnusedRegionInfos { size: m[p].size, next: address },
            ));
            assert forall|j: int| 0 <= j < c.len() implies m.contains_key(#[trigger] c[j])
                && m[c[j]].next == link(c, j + 1) && c[j] != address && (j != k - 1 ==> c[j] != p) by {
                old(self).lemma_region(j);
                if j < k - 1 {
                    old(self).lemma_order(j, k - 1);
                } else if j >= k {
                    if j > k {
                        old(self).lemma_order(k, j);
                    }
                    if k > 0 {
                        old(self).lemma_order(k - 1, j);
                    }
                }
            }
            assert forall|j: int| 0 <= j < c2.len() implies m2.contains_key(#[trigger] c2[j])
                && m2[c2[j]].next == link(c2, j + 1) && (j != k ==> m2[c2[j]].size == m[c2[j]].size) by {
                if j < k {
                    assert(c2[j] == c[j]);
                } else if j > k {
                    assert(c2[j] == c[j - 1]);
                }
            }
            self.free@ = c2;
            assert forall|j: int| 0 <= j < c2.len() implies #[trigger] self.regions()[j] == rs.insert(
                k,
                (address as int, s as int),
            )[j] by {
                if j < k {
                    assert(c2[j] == c[j]);
                } else if j > k {
                    assert(c2[j] == c[j - 1]);
                }
            }
            assert(self.regions() =~= rs.insert(k, (address as int, s as int)));
            lemma_insert_ok(self.start as int, self.len as int, rs, k, address as int, s as int);
        }
    }

    /// Grows the `k`-th region, `prev`, by `s` bytes at its end.
    #[verifier::rlimit(60)]
    fn grow(&mut self, prev: UnusedRegion, s: usize, Ghost(k): Ghost<int>)
        requires
            old(self).wf(),
            0 <= k < old(self).free@.len(),
            prev.address == old(self).free@[k],
            prev.infos == old(self).memory@[old(self).free@[k]],
            s > 0,
            prev.address + prev.infos.size + s <= old(self).start + old(self).len,
            k + 1 < old(self).free@.len() ==> prev.address + prev.infos.size + s <= old(self).free@[k + 1],
        ensures
            final(self).wf(),
            final(self).start == old(self).start,
            final(self).len == old(self).len,
            final(self).regions() == old(self).regions().update(
                k,
                (prev.address as int, prev.infos.size + s),
            ),
    {
        let ghost c = self.free@;
        let ghost m = self.memory@;
        let ghost rs = old(self).regions();
        proof {
            self.lemma_region(k);
            if k > 0 {
                self.lemma_region(k - 1);
                self.lemma_order(k - 1, k);
            }
        }
        let mut prev = prev;
        let new_size = prev.size() + s;
        prev.set_size(&mut self.memory, new_size);
        proof {
            let a = c[k];
            assert(self.memory@ == m.insert(a, UnusedRegionInfos { size: new_size, next: m[a].next }));
            assert forall|j: int| 0 <= j < c.len() && j != k implies m.contains_key(#[trigger] c[j])
                && c[j] != a && m[c[j]].next == link(c, j + 1) by {
                old(self).lemma_region(j);
                if j < k {
                    old(self).lemma_order(j, k);
                } else {
                    old(self).lemma_order(k, j);
                }
            }
            assert(self.regions() =~= rs.update(k, (a as int, new_size as int)));
            lemma_replace_ok(self.start as int, self.len as int, rs, k, a as int, new_size as int);
        }
    }

    /// Grows the `(k-1)`-th region, `prev`, over the freed `s` bytes and the
    /// `k`-th region, `cur`, that follows them, and unlinks `cur`.
    #[verifier::rlimit(60)]
    fn merge_both(&mut self, prev: UnusedRegion, cur: UnusedRegion, s: usize, Ghost(k): Ghost<int>)
        requires
            old(self).wf(),
            old(self).walk_at(cur, k),
            k > 0,
            prev.address == old(self).free@[k - 1],
            prev.infos == old(self).memory@[old(self).free@[k - 1]],
            prev.address + prev.infos.size + s == cur.address,
        ensures
            final(self).wf(),
            final(self).start == old(self).start,
            final(self).len == old(self).len,
            final(self).regions() == old(self).regions().update(
                k - 1,
                (prev.address as int, prev.infos.size + s + cur.infos.size),
            ).remove(k),
    {
        let ghost c = self.free@;
        let ghost m = self.memory@;
        let ghost rs = old(self).regions();
        proof {
            self.lemma_region(k);
            self.lemma_region(k - 1);
            if k + 1 < c.len() {
                self.lemma_region(k + 1);
                self.lemma_order(k, k + 1);
            }
        }
        let mut prev = prev;
        let new_size = prev.size() + s + cur.size();
        prev.set_size(&mut self.memory, new_size);
        let nxt = cur.next(&self.memory);
        prev.set_next(&mut self.memory, nxt);
        proof {
            let a = c[k - 1];
            let c2 = c.remove(k);
            let m2 = self.memory@;
            let expect = rs.update(k - 1, (a as int, new_size as int)).remove(k);
            assert(m2 == m.insert(a, UnusedRegionInfos { size: new_size, next: link(c, k + 1) }));
            assert forall|j: int| 0 <= j < c2.len() implies m2.contains_key(#[trigger] c2[j])
                && m2[c2[j]].next == link(c2, j + 1) && (j != k - 1 ==> m2[c2[j]].size == m[c2[j]].size) by {
                if j < k - 1 {
                    old(self).lemma_region(j);
                    old(self).lemma_order(j, k - 1);
                } else if j >= k {
                    old(self).lemma_region(j + 1);
                    old(self).lemma_order(k - 1, j + 1);
                }
            }
            self.free@ = c2;
            assert forall|j: int| 0 <= j < c2.len() implies #[trigger] self.regions()[j] == expect[j] by {
                if j < k - 1 {
                    assert(c2[j] == c[j]);
                } else if j >= k {
                    assert(c2[j] == c[j + 1]);
                }
            }
            assert(self.regions() =~= expect);
            crate::free_list::lemma_merge_ok(self.start as int, self.len as int, rs, k, s as int);
        }
    }

    /// Gives back the block of `size` bytes at `address` (a request for fewer
    /// than 16 bytes took 16). The block is merged with the unused regions that it
    /// touches; when no unused region lies above it, it takes the place of the last
    /// one in the list.
    pub fn deallocate(&mut self, address: usize, size: usize)
        requires
            old(self).wf(),
            old(self).heap_start() + 16 <= address,
            address + block_size(size as int) <= old(self).heap_start() + old(self).heap_len(),
            disjoint_from_all(old(self).regions(), address as int, block_size(size as int)),
        ensures
            final(self).wf(),
            final(self).heap_start() == old(self).heap_start(),
            final(self).heap_len() == old(self).heap_len(),
            final(self).regions() == release(
                old(self).regions(),
                address as int,
                block_size(size as int),
            ),
    {
        let ghost rs = self.regions();
        let ghost s0 = block_size(size as int);
        let mut block_len = size;
        if block_len < 16 {
            block_len = 16;
        }
        let mut infos = UnusedRegion::read(&self.memory, self.start);
        proof {
            if self.free@.len() > 0 {
                self.lemma_region(0);
            }
        }
        let mut current_unused_region = match infos.next(&self.memory) {
            None => {
                let ghost m = self.memory@;
                let new = UnusedRegion::new(&mut self.memory, address, block_len, None);
                infos.set_next(&mut self.memory, Some(new));
                proof {
                    let c2 = seq![address];
                    assert(self.memory@ == m.insert(address, UnusedRegionInfos { size: block_len, next: 0 }).insert(
                        self.start,
                        UnusedRegionInfos { size: 0, next: address },
                    ));
                    self.free@ = c2;
                    assert(self.regions() =~= seq![(address as int, block_len as int)]);
                    lemma_insert_ok(self.start as int, self.len as int, rs, 0, address as int, block_len as int);
                    assert(rs.insert(0, (address as int, block_len as int)) =~= seq![(address as int, block_len as int)]);
                }
                return;
            },
            Some(v) => v,
        };
        let ghost mut i: int = 0;
        loop
            invariant
                *self == *old(self),
                self.wf(),
                rs == self.regions(),
                self.walk_at(current_unused_region, i),
                first_above(rs, address as int, 0) == first_above(rs, address as int, i),
                forall|j: int| 0 <= j < i ==> (#[trigger] rs[j]).0 <= address,
                block_len == s0,
                s0 == block_size(size as int),
                block_len > 0,
                self.start + 16 <= address,
                address + block_len <= self.start + self.len,
                disjoint_from_all(rs, address as int, block_len as int),
            decreases self.free@.len() - i,
        {
            let cur = current_unused_region;
            proof {
                self.lemma_region(i);
                if i > 0 {
                    self.lemma_region(i - 1);
                    self.lemma_order(i - 1, i);
                    assert(rs[i - 1].0 <= address);
                }
            }
            if cur.address > address {
                proof {
                    assert(first_above(rs, address as int, i) == Some(i));
                }
                let mut prev = cur.get_prev(&self.memory).unwrap();
                let adjacent_left = prev.address + prev.size() == address;
                let adjacent_right = address + block_len == cur.address;
                if adjacent_left && adjacent_right {
                    self.merge_both(prev, cur, block_len, Ghost(i));
                } else if adjacent_left {
                    proof {
                        if i + 1 < self.free@.len() {
                            self.lemma_order(i, i + 1);
                        }
                    }
                    self.grow(prev, block_len, Ghost(i - 1));
                } else if adjacent_right {
                    let nxt = cur.next(&self.memory);
                    proof {
                        if i + 1 < self.free@.len() {
                            self.lemma_region(i + 1);
                            self.lemma_order(i, i + 1);
                        }
                    }
                    self.relink(prev, address, block_len + cur.size(), nxt, Ghost(i));
                } else {
                    self.link_before(prev, cur, address, block_len, Ghost(i));
                }
                proof {
                    assert(self.regions() =~= release(rs, address as int, s0));
                }
                return;
            }
            proof {
                assert(end_of(rs[i]) <= address);
                if i + 1 < self.free@.len() {
                    self.lemma_region(i + 1);
                }
            }
            match cur.next(&self.memory) {
                None => {
                    let mut prev = cur.get_prev(&self.memory).unwrap();
                    if prev.address + prev.size() == address {
                        self.grow(prev, block_len, Ghost(i - 1));
                    } else {
                        self.relink(prev, address, block_len, None, Ghost(i));
                        proof {
                            assert(first_above(rs, address as int, i + 1) is None);
                            assert(self.regions() =~= rs.drop_last().push((address as int, block_len as int)));
                        }
                    }
                    return;
                },
                Some(r) => {
                    current_unused_region = r;
                },
            }
            proof {
                i = i + 1;
            }
        }
    }
}

/// What `allocate(size, align)` does to an allocator, `before` the call and
/// `after` it, returning `r`: the first free region with room for the block
/// aligned as asked is carved, and the block's address and length returned;
/// when no region has room, the call fails and nothing changes.
pub open spec fn allocation(
    before: FreeListHeapAllocator,
    after: FreeListHeapAllocator,
    size: usize,
    align: usize,
    r: Result<(usize, usize), AllocError>,
) -> bool {
    let rs = before.regions();
    let l = block_size(size as int);
    &&& after.wf()
    &&& after.heap_start() == before.heap_start()
    &&& after.heap_len() == before.heap_len()
    &&& match first_fit(rs, l, align as int, 0) {
        None => r is Err && after == before,
        Some(i) => {
            let pl = placement(rs[i].0, rs[i].1, l, align as int)->0;
            &&& r == Ok::<(usize, usize), AllocError>(((rs[i].0 + pl.offset()) as usize, l as usize))
            &&& after.regions() == carve(rs, i, pl, l)
        },
    }
}

/// Whether the block of `size` bytes at `address` can be given back to the
/// allocator: it lies in the heap past the first region's header and overlaps
/// no free region.
pub open spec fn can_release(a: FreeListHeapAllocator, address: usize, size: usize) -> bool {
    &&& a.heap_start() + 16 <= address
    &&& address + block_size(size as int) <= a.heap_start() + a.heap_len()
    &&& disjoint_from_all(a.regions(), address as int, block_size(size as int))
}

/// What `deallocate(address, size)` does to an allocator: the block joins the
/// free regions as `release` says.
pub open spec fn deallocation(
    before: FreeListHeapAllocator,
    after: FreeListHeapAllocator,
    address: usize,
    size: usize,
) -> bool {
    &&& after.wf()
    &&& after.heap_start() == before.heap_start()
    &&& after.heap_len() == before.heap_len()
    &&& after.regions() == release(before.regions(), address as int, block_size(size as int))
}

impl FreeListHeapAllocator {
    /// A sound allocator's regions are a sound free list of its heap, and its
    /// heap lies in the address space.
    pub proof fn lemma_wf_regions(&self)
        requires
            self.wf(),
        ensures
            regions_ok(self.heap_start(), self.heap_len(), self.regions()),
            0 <= self.heap_start(),
            0 <= self.heap_len(),
            self.heap_start() + self.heap_len() <= usize::MAX,
    {
    }
}

/// Law: a block that `allocate` hands out is aligned as asked, as long as the
/// request (at least 16 bytes), lies in the heap past the head header, and
/// overlaps no region that stays unused; the unused bytes shrink by its length.
pub proof fn law_allocated_block(
    before: FreeListHeapAllocator,
    after: FreeListHeapAllocator,
    size: usize,
    align: usize,
    p: usize,
    l: usize,
)
    requires
        before.wf(),
        0 < align,
        allocation(before, after, size, align, Ok((p, l))),
    ensures
        p % align == 0,
        l == block_size(size as int),
        before.heap_start() + 16 <= p,
        p + l <= before.heap_start() + before.heap_len(),
        disjoint_from_all(after.regions(), p as int, l as int),
        total(after.regions()) == total(before.regions()) - l,
{
    let rs = before.regions();
    let bl = block_size(size as int);
    before.lemma_wf_regions();
    lemma_first_fit(rs, bl, align as int, 0);
    law_allocation_takes_aligned_free_block(before.heap_start(), before.heap_len(), rs, bl, align as int);
    crate::free_list::lemma_regions_ok_facts(before.heap_start(), before.heap_len(), rs);
}

/// Law: giving back a block that lies below some unused region (or into an
/// empty list) adds exactly its bytes to the unused ones: every byte that was
/// unused stays so and every byte of the block becomes so.
pub proof fn law_released_block(
    before: FreeListHeapAllocator,
    after: FreeListHeapAllocator,
    address: usize,
    size: usize,
)
    requires
        before.wf(),
        can_release(before, address, size),
        before.regions().len() == 0 || first_above(before.regions(), address as int, 0) is Some,
        deallocation(before, after, address, size),
    ensures
        total(after.regions()) == total(before.regions()) + block_size(size as int),
        forall|x: int| address <= x < address + block_size(size as int) ==> covered(after.regions(), x),
        forall|x: int| covered(before.regions(), x) ==> covered(after.regions(), x),
{
    before.lemma_wf_regions();
    law_release_adds_block(
        before.heap_start(),
        before.heap_len(),
        before.regions(),
        address as int,
        block_size(size as int),
    );
}

/// Law: `allocate` keeps the list tight (every unused region can hold a
/// header and no two unused regions touch), whatever it returns.
pub proof fn law_allocate_keeps_tight(
    before: FreeListHeapAllocator,
    after: FreeListHeapAllocator,
    size: usize,
    align: usize,
    r: Result<(usize, usize), AllocError>,
)
    requires
        before.wf(),
        regions_tight(before.regions()),
        0 < align,
        allocation(before, after, size, align, r),
    ensures
        regions_tight(after.regions()),
{
    let rs = before.regions();
    let bl = block_size(size as int);
    before.lemma_wf_regions();
    if first_fit(rs, bl, align as int, 0) is Some {
        law_allocation_keeps_tight(before.heap_start(), before.heap_len(), rs, bl, align as int);
    }
}

/// Law: `deallocate` keeps the list tight, wherever the block goes back.
pub proof fn law_deallocate_keeps_tight(
    before: FreeListHeapAllocator,
    after: FreeListHeapAllocator,
    address: usize,
    size: usize,
)
    requires
        before.wf(),
        regions_tight(before.regions()),
        can_release(before, address, size),
        deallocation(before, after, address, size),
    ensures
        regions_tight(after.regions()),
{
    before.lemma_wf_regions();
    law_release_keeps_tight(
        before.heap_start(),
        before.heap_len(),
        before.regions(),
        address as int,
        block_size(size as int),
    );
}

/// Law: in a tight list, `deallocate` of the block that `allocate` just handed
/// out gives back the very list of unused regions there was before, unless no
/// unused region is left above the block.
pub proof fn law_allocate_then_deallocate_restores(
    a0: FreeListHeapAllocator,
    a1: FreeListHeapAllocator,
    a2: FreeListHeapAllocator,
    size: usize,
    align: usize,
    p: usize,
    l: usize,
)
    requires
        a0.wf(),
        regions_tight(a0.regions()),
        0 < align,
        allocation(a0, a1, size, align, Ok((p, l))),
        a1.regions().len() == 0 || first_above(a1.regions(), p as int, 0) is Some,
        deallocation(a1, a2, p, size),
    ensures
        a2.regions() == a0.regions(),
{
    let rs = a0.regions();
    let bl = block_size(size as int);
    a0.lemma_wf_regions();
    lemma_first_fit(rs, bl, align as int, 0);
    law_allocation_takes_aligned_free_block(a0.heap_start(), a0.heap_len(), rs, bl, align as int);
    crate::free_list::lemma_regions_ok_facts(a0.heap_start(), a0.heap_len(), rs);
    let i = first_fit(rs, bl, align as int, 0)->0;
    let pl = placement(rs[i].0, rs[i].1, bl, align as int)->0;
    assert(rs[i].0 + pl.offset() == p as int);
    assert(l as int == bl);
    law_allocate_then_release_restores(a0.heap_start(), a0.heap_len(), rs, bl, align as int);
}

/// Law: `allocate` takes the first unused region, in address order, with room
/// for the block (see `room_for`): when it fails, no unused region has room,
/// and every unused region that ends at or before the block it hands out has
/// none.
pub proof fn law_allocate_takes_first_room(
    before: FreeListHeapAllocator,
    after: FreeListHeapAllocator,
    size: usize,
    align: usize,
    r: Result<(usize, usize), AllocError>,
)
    requires
        before.wf(),
        0 < align,
        allocation(before, after, size, align, r),
    ensures
        r is Err ==> forall|k: int|
            0 <= k < before.regions().len() ==> !room_for(
                (#[trigger] before.regions()[k]).0,
                before.regions()[k].1,
                block_size(size as int),
                align as int,
            ),
        r matches Ok((p, l)) ==> forall|k: int|
            0 <= k < before.regions().len() && end_of(#[trigger] before.regions()[k]) <= p ==> !room_for(
                before.regions()[k].0,
                before.regions()[k].1,
                block_size(size as int),
                align as int,
            ),
{
    let rs = before.regions();
    let bl = block_size(size as int);
    before.lemma_wf_regions();
    law_first_fit_is_first(rs, bl, align as int);
    if first_fit(rs, bl, align as int, 0) is Some {
        lemma_first_fit(rs, bl, align as int, 0);
        law_allocation_takes_aligned_free_block(before.heap_start(), before.heap_len(), rs, bl, align as int);
        crate::free_list::lemma_regions_ok_facts(before.heap_start(), before.heap_len(), rs);
    }
}

} // verus!
