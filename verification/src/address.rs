//! Virtual and physical addresses of x86_64: 48-bit virtual addresses in
//! canonical form, and the four 9-bit page-table indices they hold.
use vstd::prelude::*;

verus! {

/// A virtual address.
#[derive(Debug, Clone, Copy, PartialEq, Eq, Structural)]
pub struct VirtAddress(pub usize);

/// A physical address.
#[derive(Debug, Clone, Copy, PartialEq, Eq, Structural)]
pub struct PhysAddress(pub usize);

/// A processor register that can be read and written, such as the one that
/// holds the top page table's address.
pub trait Register {
    fn read(&self) -> usize;

    fn write(&self, input: usize);
}

/// `2^48`: the size of the virtual address space.
pub open spec fn space() -> int {
    0x1_0000_0000_0000
}

/// The canonical form of the address `x`: its low 48 bits, with bit 47 copied
/// into bits 48 to 63.
pub open spec fn canonical(x: int) -> int {
    let low = x % space();
    if low >= space() / 2 {
        low + 0x1_0000_0000_0000_0000 - space()
    } else {
        low
    }
}

/// Bytes of address space that one entry of a table of level `level` covers
/// (0 for the top table, 3 for the last): 512 GiB, 1 GiB, 2 MiB, 4 KiB.
pub open spec fn entry_span(level: int) -> int {
    if level == 0 {
        0x80_0000_0000
    } else if level == 1 {
        0x4000_0000
    } else if level == 2 {
        0x20_0000
    } else {
        0x1000
    }
}

/// The index into the table of level `level` that the address `x` selects: 9 of
/// its bits.
pub open spec fn table_index(x: int, level: int) -> int {
    (x / entry_span(level)) % 512
}

impl VirtAddress {
    /// The address in canonical form.
    pub fn canonicalize(self) -> (r: Self)
        requires
            usize::BITS == 64,
        ensures
            r.0 as int == canonical(self.0 as int),
    {
        let x = self.0;
        let r = ((x << 16) as isize >> 16) as usize;
        assert(r as int == canonical(x as int)) by (bit_vector)
            requires
                usize::BITS == 64,
                r == ((x << 16) as isize >> 16) as usize,
        ;
        Self(r)
    }

    /// Puts the address in canonical form.
    pub fn canonicalize_in_place(&mut self)
        requires
            usize::BITS == 64,
        ensures
            final(self).0 as int == canonical(old(self).0 as int),
    {
        *self = Self(((self.0 << 16) as isize >> 16) as usize);
        proof {
            let x = old(self).0;
            let r = self.0;
            assert(r as int == canonical(x as int)) by (bit_vector)
                requires
                    usize::BITS == 64,
                    r == ((x << 16) as isize >> 16) as usize,
            ;
        }
    }

    /// The indices into the four levels of page tables that the address selects.
    pub fn indices(&self) -> (r: [usize; 4])
        requires
            usize::BITS == 64,
        ensures
            forall|level: int| 0 <= level < 4 ==> r[level] as int == table_index(self.0 as int, level),
    {
        let x = self.0;
        let r = [((x >> 39) & 0x1FF), ((x >> 30) & 0x1FF), ((x >> 21) & 0x1FF), ((x >> 12) & 0x1FF)];
        assert(((x >> 39) & 0x1FF) as int == (x as int / 0x80_0000_0000int) % 512) by (bit_vector)
            requires
                usize::BITS == 64,
        ;
        assert(((x >> 30) & 0x1FF) as int == (x as int / 0x4000_0000int) % 512) by (bit_vector)
            requires
                usize::BITS == 64,
        ;
        assert(((x >> 21) & 0x1FF) as int == (x as int / 0x20_0000int) % 512) by (bit_vector)
            requires
                usize::BITS == 64,
        ;
        assert(((x >> 12) & 0x1FF) as int == (x as int / 0x1000int) % 512) by (bit_vector)
            requires
                usize::BITS == 64,
        ;
        assert forall|level: int| 0 <= level < 4 implies r[level] as int == table_index(x as int, level) by {
            if level == 0 {
            } else if level == 1 {
            } else if level == 2 {
            } else {
            }
        }
        r
    }
}

/// Law: putting an address in canonical form twice is putting it once.
pub proof fn law_canonical_idempotent(x: u64)
    ensures
        canonical(canonical(x as int)) == canonical(x as int),
{
    assert(canonical(canonical(x as int)) == canonical(x as int)) by (bit_vector);
}

/// Law: the canonical form of an address keeps its page-table indices and its
/// offset in the page.
pub proof fn law_canonical_keeps_indices(x: u64)
    ensures
        forall|level: int| 0 <= level < 4 ==> table_index(canonical(x as int), level) == table_index(x as int, level),
        canonical(x as int) % 0x1000 == (x as int) % 0x1000,
{
    assert((canonical(x as int) / 0x80_0000_0000int) % 512 == (x as int / 0x80_0000_0000int) % 512) by (bit_vector);
    assert((canonical(x as int) / 0x4000_0000int) % 512 == (x as int / 0x4000_0000int) % 512) by (bit_vector);
    assert((canonical(x as int) / 0x20_0000int) % 512 == (x as int / 0x20_0000int) % 512) by (bit_vector);
    assert((canonical(x as int) / 0x1000int) % 512 == (x as int / 0x1000int) % 512) by (bit_vector);
    assert(canonical(x as int) % 0x1000 == (x as int) % 0x1000) by (bit_vector);
}

/// Law: an address in canonical form is one whose bits 48 to 63 all equal bit 47.
pub proof fn law_canonical_sign_extends(x: u64)
    ensures
        canonical(x as int) < space() / 2 || canonical(x as int) >= 0x1_0000_0000_0000_0000 - space() / 2,
        canonical(x as int) % space() == (x as int) % space(),
        (x as int) < space() / 2 ==> canonical(x as int) == x,
{
    assert(canonical(x as int) < space() / 2 || canonical(x as int) >= 0x1_0000_0000_0000_0000
        - space() / 2) by (bit_vector);
    assert(canonical(x as int) % space() == (x as int) % space()) by (bit_vector);
    assert((x as int) < space() / 2 ==> canonical(x as int) == x) by (bit_vector);
}

/// Law: the four indices and the page offset of an address rebuild its low 48
/// bits.
pub proof fn law_indices_rebuild_address(x: u64)
    ensures
        (x as int) % space() == table_index(x as int, 0) * entry_span(0) + table_index(x as int, 1)
            * entry_span(1) + table_index(x as int, 2) * entry_span(2) + table_index(x as int, 3)
            * entry_span(3) + (x as int) % 0x1000,
{
    assert((x as int) % 0x1_0000_0000_0000int == ((x as int / 0x80_0000_0000int) % 512) * 0x80_0000_0000int
        + ((x as int / 0x4000_0000int) % 512) * 0x4000_0000int + ((x as int / 0x20_0000int) % 512)
        * 0x20_0000int + ((x as int / 0x1000int) % 512) * 0x1000int + (x as int) % 0x1000int) by (bit_vector);
}

} // verus!
