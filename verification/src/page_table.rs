//! Four-level x86_64 page tables, and changing the flags of every entry on the
//! way to a page. The tables are reached through the direct map of physical
//! memory: a table at physical address `p` is read at the canonical form of
//! `p + phys_mem_offset`. `PageTableMemory` models the tables that memory holds,
//! by that address.
use crate::address::{canonical, table_index, VirtAddress};
use std::collections::HashMap;
use vstd::prelude::*;

verus! {

broadcast use vstd::std_specs::hash::group_hash_axioms;

/// The entry flag that forbids executing code from the pages below the entry.
pub const FORBID_EXECUTION: u64 = 0x8000_0000_0000_0000;

/// A page table: 512 entries.
pub struct PageTable {
    pub entries: [usize; 512],
}

impl PageTable {
    /// Clears every entry.
    pub fn zero(&mut self)
        ensures
            forall|i: int| 0 <= i < 512 ==> final(self).entries@[i] == 0,
    {
        self.entries = [0usize; 512];
    }
}

/// The page tables in memory, by the address they are read at.
pub struct PageTableMemory {
    tables: HashMap<usize, [usize; 512]>,
}

impl View for PageTableMemory {
    type V = Map<usize, Seq<usize>>;

    closed spec fn view(&self) -> Map<usize, Seq<usize>> {
        self.tables@.map_values(|t: [usize; 512]| t@)
    }
}

impl PageTableMemory {
    /// Memory that holds no page table.
    pub fn new() -> (m: Self)
        ensures
            m@ == Map::<usize, Seq<usize>>::empty(),
    {
        let m = PageTableMemory { tables: HashMap::new() };
        assert(m@ =~= Map::<usize, Seq<usize>>::empty());
        m
    }

    /// Places `table` at `address`.
    pub fn insert(&mut self, address: usize, table: PageTable)
        ensures
            final(self)@ == old(self)@.insert(address, table.entries@),
    {
        self.tables.insert(address, table.entries);
        assert(self@ =~= old(self)@.insert(address, table.entries@));
    }

    /// The entry `index` of the table at `address`.
    pub fn entry(&self, address: usize, index: usize) -> (e: usize)
        requires
            self@.contains_key(address),
            index < 512,
        ensures
            e == self@[address][index as int],
    {
        let t = self.tables.get(&address).unwrap();
        t[index]
    }

    /// Sets the entry `index` of the table at `address` to `value`.
    pub fn set_entry(&mut self, address: usize, index: usize, value: usize)
        requires
            old(self)@.contains_key(address),
            index < 512,
        ensures
            final(self)@ == old(self)@.insert(address, old(self)@[address].update(index as int, value)),
    {
        let mut t = *self.tables.get(&address).unwrap();
        t[index] = value;
        self.tables.insert(address, t);
        assert(self@ =~= old(self)@.insert(address, old(self)@[address].update(index as int, value)));
    }
}

/// The physical address that an entry holds: its bits 12 to 51.
pub open spec fn frame_of(entry: usize) -> int {
    (entry as int / 0x1000 % 0x100_0000_0000) * 0x1000
}

/// Whether an entry's present bit is set.
pub open spec fn present(entry: usize) -> bool {
    entry & 1 != 0
}

/// An entry with the flags `set` set and then the flags `unset` cleared.
pub open spec fn with_flags(entry: usize, set: usize, unset: usize) -> usize {
    (entry | set) & !unset
}

/// Where the table that `entry` points to is read.
pub open spec fn table_at(entry: usize, phys_mem_offset: usize) -> int {
    canonical(frame_of(entry) + phys_mem_offset)
}

/// Whether the walk for `x` from the table at `table`, on level `level`, finds
/// every table it needs and its present bits (on the levels above the last),
/// when each entry it passes gets its flags changed before the walk goes on.
pub open spec fn walk_ok(
    m: Map<usize, Seq<usize>>,
    table: int,
    x: usize,
    set: usize,
    unset: usize,
    off: usize,
    level: int,
) -> bool
    decreases 4 - level,
{
    if level >= 4 || level < 0 {
        true
    } else {
        let t = table as usize;
        let i = table_index(x as int, level);
        &&& 0 <= table <= usize::MAX
        &&& m.contains_key(t)
        &&& m[t].len() == 512
        &&& level < 3 ==> {
            let e = m[t][i];
            let e2 = with_flags(e, set, unset);
            &&& present(e)
            &&& frame_of(e2) + off <= usize::MAX
            &&& walk_ok(
                m.insert(t, m[t].update(i, e2)),
                table_at(e2, off),
                x,
                set,
                unset,
                off,
                level + 1,
            )
        }
    }
}

/// The tables after the walk for `x` from `table`, on level `level`, changed
/// the flags of each entry it passed.
pub open spec fn remapped(
    m: Map<usize, Seq<usize>>,
    table: int,
    x: usize,
    set: usize,
    unset: usize,
    off: usize,
    level: int,
) -> Map<usize, Seq<usize>>
    decreases 4 - level,
{
    if level >= 4 || level < 0 {
        m
    } else {
        let t = table as usize;
        let i = table_index(x as int, level);
        let e2 = with_flags(m[t][i], set, unset);
        let m2 = m.insert(t, m[t].update(i, e2));
        if level == 3 {
            m2
        } else {
            remapped(m2, table_at(e2, off), x, set, unset, off, level + 1)
        }
    }
}

/// The address at which the table that the register value `cr3` points to is read.
pub open spec fn top_table(cr3: usize, off: usize) -> int {
    table_at(cr3, off)
}

/// Bits 12 to 51 of `x`: the physical address it holds.
fn frame_bits(x: usize) -> (r: usize)
    requires
        usize::BITS == 64,
    ensures
        r as int == frame_of(x),
{
    assert(1usize << 52 > 0usize) by (bit_vector)
        requires
            usize::BITS == 64,
    ;
    let mask: usize = ((1usize << 52) - 1) & !0xfff;
    let r = x & mask;
    assert(r as int == (x as int / 0x1000 % 0x100_0000_0000) * 0x1000) by (bit_vector)
        requires
            usize::BITS == 64,
            mask == (((1usize << 52) - 1) as usize) & !0xfffusize,
            r == x & mask,
    ;
    r
}

/// Where the table that `entry` points to is read.
fn next_table(entry: usize, phys_mem_offset: usize) -> (r: usize)
    requires
        usize::BITS == 64,
        frame_of(entry) + phys_mem_offset <= usize::MAX,
    ensures
        r as int == table_at(entry, phys_mem_offset),
{
    VirtAddress(frame_bits(entry) + phys_mem_offset).canonicalize().0
}

/// Changes the flags of the entry `index` of the table at `table`; returns the
/// new entry.
fn update_entry(tables: &mut PageTableMemory, table: usize, index: usize, set: usize, unset: usize) -> (e: usize)
    requires
        old(tables)@.contains_key(table),
        old(tables)@[table].len() == 512,
        index < 512,
    ensures
        e == with_flags(old(tables)@[table][index as int], set, unset),
        final(tables)@ == old(tables)@.insert(table, old(tables)@[table].update(index as int, e)),
{
    let mut entry = tables.entry(table, index);
    entry |= set;
    entry &= !unset;
    tables.set_entry(table, index, entry);
    entry
}

/// Sets the flags `set` and then clears the flags `unset` in every entry on the
/// way to the page of `virt`, in the tables that `cr3` leads to. The entries
/// above the last level must be present.
pub fn remap_flags(
    tables: &mut PageTableMemory,
    cr3: usize,
    virt: VirtAddress,
    set: usize,
    unset: usize,
    phys_mem_offset: usize,
)
    requires
        usize::BITS == 64,
        frame_of(cr3) + phys_mem_offset <= usize::MAX,
        walk_ok(old(tables)@, top_table(cr3, phys_mem_offset), virt.0, set, unset, phys_mem_offset, 0),
    ensures
        final(tables)@ == remapped(
            old(tables)@,
            top_table(cr3, phys_mem_offset),
            virt.0,
            set,
            unset,
            phys_mem_offset,
            0,
        ),
{
    let indices = virt.indices();
    let ghost x = virt.0;
    let ghost m0 = tables@;
    // The top table.
    let l4 = next_table(cr3, phys_mem_offset);
    assert(present(tables@[l4][table_index(x as int, 0)]));
    let l3_entry = update_entry(tables, l4, indices[0], set, unset);
    let ghost m1 = tables@;
    let l3 = next_table(l3_entry, phys_mem_offset);
    assert(walk_ok(m1, l3 as int, x, set, unset, phys_mem_offset, 1));
    assert(present(tables@[l3][table_index(x as int, 1)]));
    let l2_entry = update_entry(tables, l3, indices[1], set, unset);
    let ghost m2 = tables@;
    let l2 = next_table(l2_entry, phys_mem_offset);
    assert(walk_ok(m2, l2 as int, x, set, unset, phys_mem_offset, 2));
    assert(present(tables@[l2][table_index(x as int, 2)]));
    let l1_entry = update_entry(tables, l2, indices[2], set, unset);
    let ghost m3 = tables@;
    let l1 = next_table(l1_entry, phys_mem_offset);
    assert(walk_ok(m3, l1 as int, x, set, unset, phys_mem_offset, 3));
    update_entry(tables, l1, indices[3], set, unset);
    assert(tables@ == remapped(m3, l1 as int, x, set, unset, phys_mem_offset, 3));
    assert(tables@ == remapped(m2, l2 as int, x, set, unset, phys_mem_offset, 2));
    assert(tables@ == remapped(m1, l3 as int, x, set, unset, phys_mem_offset, 1));
}

/// Flags that leave an entry's present bit and address bits (0 and 12 to 51)
/// alone when set or cleared.
pub open spec fn flags_keep_walks(set: usize, unset: usize) -> bool {
    &&& (set as u64) & 0x000f_ffff_ffff_f001u64 == 0
    &&& (unset as u64) & 0x000f_ffff_ffff_f001u64 == 0
}

/// The tables of `m1` and `m2` lie at the same addresses and their entries have
/// the same present bits and addresses.
pub open spec fn same_structure(m1: Map<usize, Seq<usize>>, m2: Map<usize, Seq<usize>>) -> bool {
    &&& m1.dom() == m2.dom()
    &&& forall|t: usize| #[trigger] m1.contains_key(t) ==> m1[t].len() == m2[t].len()
    &&& forall|t: usize, i: int|
        m1.contains_key(t) && 0 <= i < m1[t].len() ==> present(#[trigger] m1[t][i]) == present(m2[t][i])
            && frame_of(m1[t][i]) == frame_of(m2[t][i])
}

/// Changing such flags keeps an entry's present bit and address.
proof fn lemma_flags_keep_entry(e: usize, set: usize, unset: usize)
    requires
        usize::BITS == 64,
        flags_keep_walks(set, unset),
    ensures
        present(with_flags(e, set, unset)) == present(e),
        frame_of(with_flags(e, set, unset)) == frame_of(e),
{
    assert(((e | set) & !unset) & 1 != 0 <==> e & 1 != 0) by (bit_vector)
        requires
            usize::BITS == 64,
            (set as u64) & 0x000f_ffff_ffff_f001u64 == 0,
            (unset as u64) & 0x000f_ffff_ffff_f001u64 == 0,
    ;
    assert(((((e | set) & !unset) as int) / 0x1000 % 0x100_0000_0000) * 0x1000 == ((e as int) / 0x1000
        % 0x100_0000_0000) * 0x1000) by (bit_vector)
        requires
            usize::BITS == 64,
            (set as u64) & 0x000f_ffff_ffff_f001u64 == 0,
            (unset as u64) & 0x000f_ffff_ffff_f001u64 == 0,
    ;
}

proof fn lemma_same_structure_trans(
    m1: Map<usize, Seq<usize>>,
    m2: Map<usize, Seq<usize>>,
    m3: Map<usize, Seq<usize>>,
)
    requires
        same_structure(m1, m2),
        same_structure(m2, m3),
    ensures
        same_structure(m1, m3),
{
    assert forall|t: usize, i: int| m1.contains_key(t) && 0 <= i < m1[t].len() implies present(
        #[trigger] m1[t][i],
    ) == present(m3[t][i]) && frame_of(m1[t][i]) == frame_of(m3[t][i]) by {
        assert(m2.contains_key(t));
        assert(present(m2[t][i]) == present(m3[t][i]));
    }
}

/// Changing the flags of one entry keeps the structure.
proof fn lemma_update_same_structure(m: Map<usize, Seq<usize>>, t: usize, i: int, set: usize, unset: usize)
    requires
        usize::BITS == 64,
        flags_keep_walks(set, unset),
        m.contains_key(t),
        0 <= i < m[t].len(),
    ensures
        same_structure(m, m.insert(t, m[t].update(i, with_flags(m[t][i], set, unset)))),
{
    let m2 = m.insert(t, m[t].update(i, with_flags(m[t][i], set, unset)));
    lemma_flags_keep_entry(m[t][i], set, unset);
    assert(m.dom() =~= m2.dom());
}

/// A walk that succeeds in some tables succeeds in tables of the same structure.
proof fn lemma_walk_ok_same_structure(
    m: Map<usize, Seq<usize>>,
    n: Map<usize, Seq<usize>>,
    table: int,
    y: usize,
    set: usize,
    unset: usize,
    off: usize,
    level: int,
)
    requires
        usize::BITS == 64,
        flags_keep_walks(set, unset),
        same_structure(m, n),
        walk_ok(m, table, y, set, unset, off, level),
    ensures
        walk_ok(n, table, y, set, unset, off, level),
    decreases 4 - level,
{
    if 0 <= level < 3 {
        let t = table as usize;
        let i = table_index(y as int, level);
        assert(0 <= i < 512);
        let e = m[t][i];
        let f = n[t][i];
        lemma_flags_keep_entry(e, set, unset);
        lemma_flags_keep_entry(f, set, unset);
        let m2 = m.insert(t, m[t].update(i, with_flags(e, set, unset)));
        let n2 = n.insert(t, n[t].update(i, with_flags(f, set, unset)));
        assert(same_structure(m2, n2)) by {
            assert(m2.dom() =~= n2.dom());
            assert forall|u: usize, k: int| m2.contains_key(u) && 0 <= k < m2[u].len() implies present(
                #[trigger] m2[u][k],
            ) == present(n2[u][k]) && frame_of(m2[u][k]) == frame_of(n2[u][k]) by {
                if u != t || k != i {
                    assert(present(m[u][k]) == present(n[u][k]));
                }
            }
        }
        lemma_walk_ok_same_structure(
            m2,
            n2,
            table_at(with_flags(e, set, unset), off),
            y,
            set,
            unset,
            off,
            level + 1,
        );
    }
}

/// The walk's own changes keep the structure.
proof fn lemma_remapped_same_structure(
    m: Map<usize, Seq<usize>>,
    table: int,
    x: usize,
    set: usize,
    unset: usize,
    off: usize,
    level: int,
)
    requires
        usize::BITS == 64,
        flags_keep_walks(set, unset),
        walk_ok(m, table, x, set, unset, off, level),
    ensures
        same_structure(m, remapped(m, table, x, set, unset, off, level)),
    decreases 4 - level,
{
    if 0 <= level < 4 {
        let t = table as usize;
        let i = table_index(x as int, level);
        assert(0 <= i < 512);
        let e2 = with_flags(m[t][i], set, unset);
        let m2 = m.insert(t, m[t].update(i, e2));
        lemma_update_same_structure(m, t, i, set, unset);
        if level < 3 {
            lemma_remapped_same_structure(m2, table_at(e2, off), x, set, unset, off, level + 1);
            lemma_same_structure_trans(m, m2, remapped(m2, table_at(e2, off), x, set, unset, off, level + 1));
        }
    } else {
        assert(m.dom() =~= m.dom());
    }
}

/// Law: changing flags that leave present bits and addresses alone, on the way
/// to one page, keeps every other walk through the same tables possible.
pub proof fn law_remap_keeps_walks(
    m: Map<usize, Seq<usize>>,
    top: int,
    x: usize,
    y: usize,
    set: usize,
    unset: usize,
    off: usize,
)
    requires
        usize::BITS == 64,
        flags_keep_walks(set, unset),
        walk_ok(m, top, x, set, unset, off, 0),
        walk_ok(m, top, y, set, unset, off, 0),
    ensures
        walk_ok(remapped(m, top, x, set, unset, off, 0), top, y, set, unset, off, 0),
        same_structure(m, remapped(m, top, x, set, unset, off, 0)),
{
    lemma_remapped_same_structure(m, top, x, set, unset, off, 0);
    lemma_walk_ok_same_structure(m, remapped(m, top, x, set, unset, off, 0), top, y, set, unset, off, 0);
}

/// Where the walk reads the table that the entry `e` points to: the canonical
/// form of the entry's physical address (its bits 12 to 51) plus the offset of
/// the direct map of physical memory.
pub open spec fn next_table_address(e: usize, off: usize) -> int {
    canonical((e as int / 0x1000) % 0x100_0000_0000 * 0x1000 + off)
}

/// The entry `e` with the bits of `set` set and then those of `unset` cleared.
pub open spec fn entry_with(e: usize, set: usize, unset: usize) -> usize {
    (e | set) & !unset
}

/// Law: the top table is read at the canonical form of the physical address
/// in the register value plus the direct map's offset.
pub proof fn law_top_table_address(cr3: usize, off: usize)
    ensures
        top_table(cr3, off) == next_table_address(cr3, off),
{
}

/// Law: changing the flags on the walk to `x` changes exactly one entry in
/// each of the four tables on the walk, and nothing else. The top table is at
/// `top`; each later table is read where the changed entry before it points,
/// through the direct map (`next_table_address`), and in the table of level
/// `l` the entry changed is the one that `x`'s index for that level selects.
pub proof fn law_remap_changes_the_walk(
    m: Map<usize, Seq<usize>>,
    top: int,
    x: usize,
    set: usize,
    unset: usize,
    off: usize,
)
    requires
        walk_ok(m, top, x, set, unset, off, 0),
        ({
            let t0 = top as usize;
            let n0 = entry_with(m[t0][table_index(x as int, 0)], set, unset);
            let t1 = next_table_address(n0, off) as usize;
            let n1 = entry_with(m[t1][table_index(x as int, 1)], set, unset);
            let t2 = next_table_address(n1, off) as usize;
            let n2 = entry_with(m[t2][table_index(x as int, 2)], set, unset);
            let t3 = next_table_address(n2, off) as usize;
            t0 != t1 && t0 != t2 && t0 != t3 && t1 != t2 && t1 != t3 && t2 != t3
        }),
    ensures
        ({
            let i0 = table_index(x as int, 0);
            let i1 = table_index(x as int, 1);
            let i2 = table_index(x as int, 2);
            let i3 = table_index(x as int, 3);
            let t0 = top as usize;
            let n0 = entry_with(m[t0][i0], set, unset);
            let t1 = next_table_address(n0, off) as usize;
            let n1 = entry_with(m[t1][i1], set, unset);
            let t2 = next_table_address(n1, off) as usize;
            let n2 = entry_with(m[t2][i2], set, unset);
            let t3 = next_table_address(n2, off) as usize;
            let n3 = entry_with(m[t3][i3], set, unset);
            remapped(m, top, x, set, unset, off, 0) == m.insert(t0, m[t0].update(i0, n0)).insert(
                t1,
                m[t1].update(i1, n1),
            ).insert(t2, m[t2].update(i2, n2)).insert(t3, m[t3].update(i3, n3))
        }),
{
    reveal_with_fuel(remapped, 5);
    reveal_with_fuel(walk_ok, 5);
    let i0 = table_index(x as int, 0);
    let i1 = table_index(x as int, 1);
    let i2 = table_index(x as int, 2);
    let i3 = table_index(x as int, 3);
    let t0 = top as usize;
    let n0 = entry_with(m[t0][i0], set, unset);
    let m1 = m.insert(t0, m[t0].update(i0, n0));
    let t1 = next_table_address(n0, off) as usize;
    assert(table_at(n0, off) == next_table_address(n0, off));
    let n1 = entry_with(m[t1][i1], set, unset);
    assert(m1[t1] == m[t1]);
    let m2 = m1.insert(t1, m[t1].update(i1, n1));
    let t2 = next_table_address(n1, off) as usize;
    let n2 = entry_with(m[t2][i2], set, unset);
    assert(m2[t2] == m[t2]);
    let m3 = m2.insert(t2, m[t2].update(i2, n2));
    let t3 = next_table_address(n2, off) as usize;
    let n3 = entry_with(m[t3][i3], set, unset);
    assert(m3[t3] == m[t3]);
    assert(remapped(m, top, x, set, unset, off, 0) == remapped(m1, table_at(n0, off), x, set, unset, off, 1));
    assert(remapped(m1, table_at(n0, off), x, set, unset, off, 1) == remapped(
        m2,
        table_at(n1, off),
        x,
        set,
        unset,
        off,
        2,
    ));
    assert(remapped(m2, table_at(n1, off), x, set, unset, off, 2) == remapped(
        m3,
        table_at(n2, off),
        x,
        set,
        unset,
        off,
        3,
    ));
}

} // verus!
