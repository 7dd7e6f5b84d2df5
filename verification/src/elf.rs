//! Loading a relocatable 64-bit ELF image: copying its loadable segments to
//! their place, finding its symbol and string tables, applying its relocations,
//! and looking symbols up by name. The memory that the image is loaded into is
//! modelled by a byte buffer whose first byte stands at the load address.
use crate::bytes::{
    byte_of, le_at, lemma_u64_le_value, put_u64, read_le, str_from_utf8, u64_le, write_le_u64,
};
use vstd::prelude::*;
use vstd::string::StringSliceAdditionalSpecFns;

verus! {

/// Size of the ELF file header.
pub const EHDR_SIZE: usize = 64;

/// Size of a program header.
pub const PHDR_SIZE: usize = 56;

/// Size of a section header.
pub const SHDR_SIZE: usize = 64;

/// Size of a symbol table entry.
pub const SYM_SIZE: usize = 24;

/// Size of a relocation entry with addend.
pub const RELA_SIZE: usize = 24;

/// Program header type of a loadable segment.
pub const PT_LOAD: u32 = 1;

/// Section type of a symbol table.
pub const SHT_SYMTAB: u32 = 2;

/// Section type of a string table.
pub const SHT_STRTAB: u32 = 3;

/// Section type of a table of relocations with addends.
pub const SHT_RELA: u32 = 4;

/// Relocation `S + A`: a symbol's value plus the addend.
pub const R_X86_64_64: u32 = 1;

/// Relocation `B + A`: the load address plus the addend.
pub const R_X86_64_RELATIVE: u32 = 8;

/// The ELF file header (its identification bytes aside).
#[derive(Debug, Clone, Copy, PartialEq, Eq, Structural)]
pub struct Elf64Ehdr {
    pub e_type: u16,
    pub e_machine: u16,
    pub e_version: u32,
    pub e_entry: u64,
    pub e_phoff: u64,
    pub e_shoff: u64,
    pub e_flags: u32,
    pub e_ehsize: u16,
    pub e_phentsize: u16,
    pub e_phnum: u16,
    pub e_shentsize: u16,
    pub e_shnum: u16,
    pub e_shstrndx: u16,
}

/// A program header.
#[derive(Debug, Clone, Copy, PartialEq, Eq, Structural)]
pub struct Elf64Phdr {
    pub p_type: u32,
    pub p_flags: u32,
    pub p_offset: u64,
    pub p_vaddr: u64,
    pub p_paddr: u64,
    pub p_filesz: u64,
    pub p_memsz: u64,
    pub p_align: u64,
}

/// A section header.
#[derive(Debug, Clone, Copy, PartialEq, Eq, Structural)]
pub struct Elf64Shdr {
    pub sh_name: u32,
    pub sh_type: u32,
    pub sh_flags: u64,
    pub sh_addr: u64,
    pub sh_offset: u64,
    pub sh_size: u64,
    pub sh_link: u32,
    pub sh_info: u32,
    pub sh_addralign: u64,
    pub sh_entsize: u64,
}

/// A symbol table entry.
#[derive(Debug, Clone, Copy, PartialEq, Eq, Structural)]
pub struct Elf64Sym {
    pub st_name: u32,
    pub st_info: u8,
    pub st_other: u8,
    pub st_shndx: u16,
    pub st_value: u64,
    pub st_size: u64,
}

/// A relocation entry with addend.
#[derive(Debug, Clone, Copy, PartialEq, Eq, Structural)]
pub struct Elf64Rela {
    pub r_offset: u64,
    pub r_info: u64,
    pub r_addend: i64,
}

/// The file header that the bytes `d` start with.
pub open spec fn spec_ehdr(d: Seq<u8>) -> Elf64Ehdr {
    Elf64Ehdr {
        e_type: le_at(d, 16, 2) as u16,
        e_machine: le_at(d, 18, 2) as u16,
        e_version: le_at(d, 20, 4) as u32,
        e_entry: le_at(d, 24, 8) as u64,
        e_phoff: le_at(d, 32, 8) as u64,
        e_shoff: le_at(d, 40, 8) as u64,
        e_flags: le_at(d, 48, 4) as u32,
        e_ehsize: le_at(d, 52, 2) as u16,
        e_phentsize: le_at(d, 54, 2) as u16,
        e_phnum: le_at(d, 56, 2) as u16,
        e_shentsize: le_at(d, 58, 2) as u16,
        e_shnum: le_at(d, 60, 2) as u16,
        e_shstrndx: le_at(d, 62, 2) as u16,
    }
}

/// The program header at offset `o` of `d`.
pub open spec fn spec_phdr(d: Seq<u8>, o: int) -> Elf64Phdr {
    Elf64Phdr {
        p_type: le_at(d, o, 4) as u32,
        p_flags: le_at(d, o + 4, 4) as u32,
        p_offset: le_at(d, o + 8, 8) as u64,
        p_vaddr: le_at(d, o + 16, 8) as u64,
        p_paddr: le_at(d, o + 24, 8) as u64,
        p_filesz: le_at(d, o + 32, 8) as u64,
        p_memsz: le_at(d, o + 40, 8) as u64,
        p_align: le_at(d, o + 48, 8) as u64,
    }
}

/// The section header at offset `o` of `d`.
pub open spec fn spec_shdr(d: Seq<u8>, o: int) -> Elf64Shdr {
    Elf64Shdr {
        sh_name: le_at(d, o, 4) as u32,
        sh_type: le_at(d, o + 4, 4) as u32,
        sh_flags: le_at(d, o + 8, 8) as u64,
        sh_addr: le_at(d, o + 16, 8) as u64,
        sh_offset: le_at(d, o + 24, 8) as u64,
        sh_size: le_at(d, o + 32, 8) as u64,
        sh_link: le_at(d, o + 40, 4) as u32,
        sh_info: le_at(d, o + 44, 4) as u32,
        sh_addralign: le_at(d, o + 48, 8) as u64,
        sh_entsize: le_at(d, o + 56, 8) as u64,
    }
}

/// The symbol table entry at offset `o` of `d`.
pub open spec fn spec_sym(d: Seq<u8>, o: int) -> Elf64Sym {
    Elf64Sym {
        st_name: le_at(d, o, 4) as u32,
        st_info: le_at(d, o + 4, 1) as u8,
        st_other: le_at(d, o + 5, 1) as u8,
        st_shndx: le_at(d, o + 6, 2) as u16,
        st_value: le_at(d, o + 8, 8) as u64,
        st_size: le_at(d, o + 16, 8) as u64,
    }
}

/// The relocation entry at offset `o` of `d`.
pub open spec fn spec_rela(d: Seq<u8>, o: int) -> Elf64Rela {
    Elf64Rela {
        r_offset: le_at(d, o, 8) as u64,
        r_info: le_at(d, o + 8, 8) as u64,
        r_addend: le_at(d, o + 16, 8) as i64,
    }
}

/// Reads the file header at the start of `data`.
pub(crate) fn read_ehdr(data: &[u8]) -> (h: Elf64Ehdr)
    requires
        EHDR_SIZE <= data@.len(),
    ensures
        h == spec_ehdr(data@),
{
    Elf64Ehdr {
        e_type: read_le(data, 16, 2) as u16,
        e_machine: read_le(data, 18, 2) as u16,
        e_version: read_le(data, 20, 4) as u32,
        e_entry: read_le(data, 24, 8),
        e_phoff: read_le(data, 32, 8),
        e_shoff: read_le(data, 40, 8),
        e_flags: read_le(data, 48, 4) as u32,
        e_ehsize: read_le(data, 52, 2) as u16,
        e_phentsize: read_le(data, 54, 2) as u16,
        e_phnum: read_le(data, 56, 2) as u16,
        e_shentsize: read_le(data, 58, 2) as u16,
        e_shnum: read_le(data, 60, 2) as u16,
        e_shstrndx: read_le(data, 62, 2) as u16,
    }
}

/// Reads the program header at offset `o` of `data`.
pub(crate) fn read_phdr(data: &[u8], o: usize) -> (h: Elf64Phdr)
    requires
        o + PHDR_SIZE <= data@.len(),
    ensures
        h == spec_phdr(data@, o as int),
{
    let _n = data.len();
    Elf64Phdr {
        p_type: read_le(data, o, 4) as u32,
        p_flags: read_le(data, o + 4, 4) as u32,
        p_offset: read_le(data, o + 8, 8),
        p_vaddr: read_le(data, o + 16, 8),
        p_paddr: read_le(data, o + 24, 8),
        p_filesz: read_le(data, o + 32, 8),
        p_memsz: read_le(data, o + 40, 8),
        p_align: read_le(data, o + 48, 8),
    }
}

/// Reads the section header at offset `o` of `data`.
pub(crate) fn read_shdr(data: &[u8], o: usize) -> (h: Elf64Shdr)
    requires
        o + SHDR_SIZE <= data@.len(),
    ensures
        h == spec_shdr(data@, o as int),
{
    let _n = data.len();
    Elf64Shdr {
        sh_name: read_le(data, o, 4) as u32,
        sh_type: read_le(data, o + 4, 4) as u32,
        sh_flags: read_le(data, o + 8, 8),
        sh_addr: read_le(data, o + 16, 8),
        sh_offset: read_le(data, o + 24, 8),
        sh_size: read_le(data, o + 32, 8),
        sh_link: read_le(data, o + 40, 4) as u32,
        sh_info: read_le(data, o + 44, 4) as u32,
        sh_addralign: read_le(data, o + 48, 8),
        sh_entsize: read_le(data, o + 56, 8),
    }
}

/// Reads the symbol table entry at offset `o` of `data`.
fn read_sym(data: &[u8], o: usize) -> (s: Elf64Sym)
    requires
        o + SYM_SIZE <= data@.len(),
    ensures
        s == spec_sym(data@, o as int),
{
    let _n = data.len();
    Elf64Sym {
        st_name: read_le(data, o, 4) as u32,
        st_info: read_le(data, o + 4, 1) as u8,
        st_other: read_le(data, o + 5, 1) as u8,
        st_shndx: read_le(data, o + 6, 2) as u16,
        st_value: read_le(data, o + 8, 8),
        st_size: read_le(data, o + 16, 8),
    }
}

/// Reads the relocation entry at offset `o` of `data`.
pub(crate) fn read_rela(data: &[u8], o: usize) -> (r: Elf64Rela)
    requires
        o + RELA_SIZE <= data@.len(),
    ensures
        r == spec_rela(data@, o as int),
{
    let _n = data.len();
    Elf64Rela {
        r_offset: read_le(data, o, 8),
        r_info: read_le(data, o + 8, 8),
        r_addend: read_le(data, o + 16, 8) as i64,
    }
}

/// The relocation type: the low byte of `r_info`.
pub fn r_type(info: u64) -> (t: u32)
    ensures
        t == info & 0xff,
{
    proof {
        assert(info & 0xff <= 0xff) by (bit_vector);
    }
    (info & 0xff) as u32
}

/// The symbol index: the high 32 bits of `r_info`.
pub fn r_sym(info: u64) -> (s: u32)
    ensures
        s == info >> 32,
{
    proof {
        assert(info >> 32 <= u32::MAX) by (bit_vector);
    }
    (info >> 32) as u32
}

/// The `i`-th program header.
pub open spec fn phdr_at(d: Seq<u8>, i: int) -> Elf64Phdr {
    spec_phdr(d, spec_ehdr(d).e_phoff + i * PHDR_SIZE)
}

/// The `i`-th section header.
pub open spec fn shdr_at(d: Seq<u8>, i: int) -> Elf64Shdr {
    spec_shdr(d, spec_ehdr(d).e_shoff + i * SHDR_SIZE)
}

/// The `j`-th entry of the relocation section `sh`.
pub open spec fn rela_at(d: Seq<u8>, sh: Elf64Shdr, j: int) -> Elf64Rela {
    spec_rela(d, sh.sh_offset + j * RELA_SIZE)
}

/// Number of entries of the section `sh`.
pub open spec fn entry_count(sh: Elf64Shdr) -> int {
    if sh.sh_entsize == 0 {
        0
    } else {
        (sh.sh_size / sh.sh_entsize) as int
    }
}

/// The memory `img` after the segment `ph` of `d` was loaded into it: a loadable
/// segment's file bytes are copied to `p_vaddr`, and the rest of its memory
/// size is cleared.
pub open spec fn segment_image(img: Seq<u8>, d: Seq<u8>, ph: Elf64Phdr) -> Seq<u8> {
    if ph.p_type == PT_LOAD {
        let v = ph.p_vaddr as int;
        let f = ph.p_filesz as int;
        let m = ph.p_memsz as int;
        let o = ph.p_offset as int;
        Seq::new(
            img.len(),
            |x: int|
                if v <= x < v + f {
                    d[o + (x - v)]
                } else if v + f <= x < v + m {
                    0u8
                } else {
                    img[x]
                },
        )
    } else {
        img
    }
}

/// The memory after the first `k` segments were loaded, in order.
pub open spec fn segments_image(img: Seq<u8>, d: Seq<u8>, k: int) -> Seq<u8>
    decreases k,
{
    if k <= 0 {
        img
    } else {
        segment_image(segments_image(img, d, k - 1), d, phdr_at(d, k - 1))
    }
}

/// Index of the last symbol table among the first `n` sections.
pub open spec fn symtab_section(d: Seq<u8>, n: int) -> Option<int>
    decreases n,
{
    if n <= 0 {
        None
    } else if shdr_at(d, n - 1).sh_type == SHT_SYMTAB {
        Some(n - 1)
    } else {
        symtab_section(d, n - 1)
    }
}

/// Index of the last string table, other than the section-name table, among the
/// first `n` sections.
pub open spec fn strtab_section(d: Seq<u8>, n: int) -> Option<int>
    decreases n,
{
    if n <= 0 {
        None
    } else if shdr_at(d, n - 1).sh_type == SHT_STRTAB && n - 1 != spec_ehdr(d).e_shstrndx {
        Some(n - 1)
    } else {
        strtab_section(d, n - 1)
    }
}

/// The symbols of the image's symbol table (none without one).
pub open spec fn spec_symtab(d: Seq<u8>) -> Seq<Elf64Sym> {
    match symtab_section(d, spec_ehdr(d).e_shnum as int) {
        None => Seq::empty(),
        Some(i) => {
            let sh = shdr_at(d, i);
            Seq::new(entry_count(sh) as nat, |k: int| spec_sym(d, sh.sh_offset + k * SYM_SIZE))
        },
    }
}

/// The bytes of the image's string table (none without one).
pub open spec fn spec_strtab(d: Seq<u8>) -> Seq<u8> {
    match strtab_section(d, spec_ehdr(d).e_shnum as int) {
        None => Seq::empty(),
        Some(i) => {
            let sh = shdr_at(d, i);
            d.subrange(sh.sh_offset as int, sh.sh_offset + sh.sh_size)
        },
    }
}

/// The value that the relocation `r` writes, for load address `base`.
pub open spec fn rela_value(r: Elf64Rela, base: usize, syms: Seq<Elf64Sym>) -> u64 {
    if r.r_info & 0xff == R_X86_64_RELATIVE {
        (base + (r.r_addend as u64)) as u64
    } else {
        (base + syms[(r.r_info >> 32) as int].st_value + (r.r_addend as u64)) as u64
    }
}

/// The memory after the relocation `r` was applied: a relative relocation, or
/// an absolute one whose symbol is in the table, writes its value at
/// `r_offset`; anything else writes nothing.
pub open spec fn apply_rela(img: Seq<u8>, r: Elf64Rela, base: usize, syms: Seq<Elf64Sym>) -> Seq<u8> {
    let t = r.r_info & 0xff;
    if t == R_X86_64_RELATIVE || (t == R_X86_64_64 && (r.r_info >> 32) < syms.len()) {
        put_u64(img, r.r_offset as int, rela_value(r, base, syms))
    } else {
        img
    }
}

/// The memory after the first `j` relocations of the section `sh` were applied.
pub open spec fn section_relocs(
    img: Seq<u8>,
    d: Seq<u8>,
    base: usize,
    syms: Seq<Elf64Sym>,
    sh: Elf64Shdr,
    j: int,
) -> Seq<u8>
    decreases j,
{
    if j <= 0 {
        img
    } else {
        apply_rela(section_relocs(img, d, base, syms, sh, j - 1), rela_at(d, sh, j - 1), base, syms)
    }
}

/// The memory after the relocations of the first `i` sections were applied.
pub open spec fn relocs_image(img: Seq<u8>, d: Seq<u8>, base: usize, syms: Seq<Elf64Sym>, i: int) -> Seq<u8>
    decreases i,
{
    if i <= 0 {
        img
    } else {
        let prev = relocs_image(img, d, base, syms, i - 1);
        let sh = shdr_at(d, i - 1);
        if sh.sh_type == SHT_RELA {
            section_relocs(prev, d, base, syms, sh, entry_count(sh))
        } else {
            prev
        }
    }
}

/// The memory after the whole image `d` was loaded at `base`: its segments
/// copied, then its relocations applied.
pub open spec fn loaded_image(img: Seq<u8>, d: Seq<u8>, base: usize) -> Seq<u8> {
    relocs_image(
        segments_image(img, d, spec_ehdr(d).e_phnum as int),
        d,
        base,
        spec_symtab(d),
        spec_ehdr(d).e_shnum as int,
    )
}

/// A loadable segment lies in the file and in the memory it goes to.
pub open spec fn segment_ok(ph: Elf64Phdr, dlen: int, base: usize, ilen: int) -> bool {
    ph.p_type == PT_LOAD ==> {
        &&& ph.p_offset + ph.p_filesz <= dlen
        &&& ph.p_filesz <= ph.p_memsz
        &&& ph.p_vaddr + ph.p_memsz <= ilen
        &&& base + ph.p_vaddr <= usize::MAX
    }
}

/// A relocation is of a supported type, its target lies in memory, and its
/// value does not overflow.
pub open spec fn rela_ok(r: Elf64Rela, base: usize, syms: Seq<Elf64Sym>, ilen: int) -> bool {
    let t = r.r_info & 0xff;
    &&& t == R_X86_64_RELATIVE || t == R_X86_64_64
    &&& r.r_offset + 8 <= ilen
    &&& base + r.r_offset <= usize::MAX
    &&& t == R_X86_64_RELATIVE ==> base + (r.r_addend as u64) <= u64::MAX
    &&& (t == R_X86_64_64 && (r.r_info >> 32) < syms.len()) ==> base + syms[(r.r_info
        >> 32) as int].st_value + (r.r_addend as u64) <= u64::MAX
}

/// Whether the bytes `[at, at + n)` lie in the memory of one loadable segment
/// of `d`.
pub open spec fn in_loaded_segment(d: Seq<u8>, at: int, n: int) -> bool {
    exists|i: int|
        0 <= i < spec_ehdr(d).e_phnum && (#[trigger] phdr_at(d, i)).p_type == PT_LOAD && phdr_at(
            d,
            i,
        ).p_vaddr <= at && at + n <= phdr_at(d, i).p_vaddr + phdr_at(d, i).p_memsz
}

/// The tables that section `i` holds lie in the file, and its relocations are
/// sound and write into the memory of loaded segments.
pub open spec fn section_ok(d: Seq<u8>, i: int, base: usize, ilen: int) -> bool {
    let sh = shdr_at(d, i);
    &&& sh.sh_type == SHT_SYMTAB ==> sh.sh_entsize != 0 && sh.sh_offset + entry_count(sh) * SYM_SIZE
        <= d.len()
    &&& (sh.sh_type == SHT_STRTAB && i != spec_ehdr(d).e_shstrndx) ==> sh.sh_offset + sh.sh_size
        <= d.len()
    &&& sh.sh_type == SHT_RELA ==> {
        &&& sh.sh_entsize != 0
        &&& sh.sh_offset + entry_count(sh) * RELA_SIZE <= d.len()
        &&& forall|j: int|
            0 <= j < entry_count(sh) ==> rela_ok(#[trigger] rela_at(d, sh, j), base, spec_symtab(d), ilen)
                && in_loaded_segment(d, rela_at(d, sh, j).r_offset as int, 8)
    }
}

/// The image `d` can be loaded at `base` into `ilen` bytes of memory: its
/// headers lie in the file, and so do its segments and tables.
pub open spec fn elf_loadable(d: Seq<u8>, base: usize, ilen: int) -> bool {
    let h = spec_ehdr(d);
    &&& EHDR_SIZE <= d.len()
    &&& h.e_phnum > 0 ==> h.e_phoff + h.e_phnum * PHDR_SIZE <= d.len()
    &&& h.e_shnum > 0 ==> h.e_shoff + h.e_shnum * SHDR_SIZE <= d.len()
    &&& forall|i: int| 0 <= i < h.e_phnum ==> segment_ok(#[trigger] phdr_at(d, i), d.len() as int, base, ilen)
    &&& forall|i: int| 0 <= i < h.e_shnum ==> #[trigger] section_ok(d, i, base, ilen)
}

/// Copies a loadable segment's file bytes to its place in `image` and clears
/// the rest of its memory size.
fn load_segment(data: &[u8], ph: Elf64Phdr, image: &mut Vec<u8>)
    requires
        ph.p_type == PT_LOAD,
        ph.p_offset + ph.p_filesz <= data@.len(),
        ph.p_filesz <= ph.p_memsz,
        ph.p_vaddr + ph.p_memsz <= old(image)@.len(),
    ensures
        final(image)@ == segment_image(old(image)@, data@, ph),
{
    let ghost img0 = image@;
    let n = image.len();
    let dlen = data.len();
    assert(ph.p_offset <= dlen && ph.p_filesz <= dlen && ph.p_vaddr <= n && ph.p_memsz <= n);
    let file_start = ph.p_offset as usize;
    let file_end = file_start + ph.p_filesz as usize;
    let dest = ph.p_vaddr as usize;
    let filesz = ph.p_filesz as usize;
    let memsz = ph.p_memsz as usize;
    let mut x: usize = 0;
    while x < filesz
        invariant
            image@.len() == n,
            n == img0.len(),
            file_end == file_start + filesz,
            file_end <= data@.len(),
            dest + memsz <= n,
            filesz <= memsz,
            x <= filesz,
            forall|y: int|
                0 <= y < n ==> #[trigger] image@[y] == if dest <= y < dest + x {
                    data@[file_start + (y - dest)]
                } else {
                    img0[y]
                },
        decreases filesz - x,
    {
        image.set(dest + x, data[file_start + x]);
        x = x + 1;
    }
    while x < memsz
        invariant
            image@.len() == n,
            n == img0.len(),
            file_end == file_start + filesz,
            file_end <= data@.len(),
            dest + memsz <= n,
            filesz <= x <= memsz,
            forall|y: int|
                0 <= y < n ==> #[trigger] image@[y] == if dest <= y < dest + filesz {
                    data@[file_start + (y - dest)]
                } else if dest + filesz <= y < dest + x {
                    0u8
                } else {
                    img0[y]
                },
        decreases memsz - x,
    {
        image.set(dest + x, 0);
        x = x + 1;
    }
    assert(image@ =~= segment_image(img0, data@, ph));
}

/// The symbol table found among the first `n` sections is one of them.
pub(crate) proof fn lemma_symtab_section(d: Seq<u8>, n: int)
    ensures
        symtab_section(d, n) matches Some(k) ==> 0 <= k < n && shdr_at(d, k).sh_type == SHT_SYMTAB,
    decreases n,
{
    if n > 0 {
        lemma_symtab_section(d, n - 1);
    }
}

/// Applying relocations keeps the memory's length.
proof fn lemma_section_relocs_len(
    img: Seq<u8>,
    d: Seq<u8>,
    base: usize,
    syms: Seq<Elf64Sym>,
    sh: Elf64Shdr,
    j: int,
)
    ensures
        section_relocs(img, d, base, syms, sh, j).len() == img.len(),
    decreases j,
{
    if j > 0 {
        lemma_section_relocs_len(img, d, base, syms, sh, j - 1);
    }
}

/// Applies the relocations of the section `sh` to `image`, in order.
fn apply_section_relocs(
    data: &[u8],
    sh: Elf64Shdr,
    base_address: usize,
    symtab: &Vec<Elf64Sym>,
    image: &mut Vec<u8>,
)
    requires
        sh.sh_type == SHT_RELA,
        sh.sh_entsize != 0,
        sh.sh_offset + entry_count(sh) * RELA_SIZE <= data@.len(),
        forall|j: int|
            0 <= j < entry_count(sh) ==> rela_ok(
                #[trigger] rela_at(data@, sh, j),
                base_address,
                symtab@,
                old(image)@.len() as int,
            ),
    ensures
        final(image)@ == section_relocs(old(image)@, data@, base_address, symtab@, sh, entry_count(sh)),
{
    let ghost img0 = image@;
    let dlen = data.len();
    let rela_count = (sh.sh_size / sh.sh_entsize) as usize;
    assert(rela_count as int == entry_count(sh)) by {
        assert(entry_count(sh) * RELA_SIZE <= dlen);
    }
    let off = sh.sh_offset as usize;
    let mut j: usize = 0;
    while j < rela_count
        invariant
            dlen == data@.len(),
            off == sh.sh_offset,
            rela_count == entry_count(sh),
            off + rela_count * RELA_SIZE <= dlen,
            j <= rela_count,
            image@.len() == img0.len(),
            image@ == section_relocs(img0, data@, base_address, symtab@, sh, j as int),
            forall|k: int|
                0 <= k < entry_count(sh) ==> rela_ok(
                    #[trigger] rela_at(data@, sh, k),
                    base_address,
                    symtab@,
                    img0.len() as int,
                ),
        decreases rela_count - j,
    {
        assert(off + j * RELA_SIZE + RELA_SIZE <= dlen) by (nonlinear_arith)
            requires
                j < rela_count,
                off + rela_count * RELA_SIZE <= dlen,
        ;
        let r_off = off + j * RELA_SIZE;
        let rela = read_rela(data, r_off);
        assert(rela == rela_at(data@, sh, j as int));
        assert(rela_ok(rela, base_address, symtab@, img0.len() as int));
        let ghost before = image@;
        match r_type(rela.r_info) {
            8 => {
                write_le_u64(image, rela.r_offset as usize, base_address as u64 + rela.r_addend as u64);
            },
            1 => {
                let sym_idx = r_sym(rela.r_info) as usize;
                if sym_idx < symtab.len() {
                    let sym = symtab[sym_idx];
                    write_le_u64(
                        image,
                        rela.r_offset as usize,
                        base_address as u64 + sym.st_value + rela.r_addend as u64,
                    );
                }
            },
            _ => {},
        }
        assert(image@ == apply_rela(before, rela, base_address, symtab@));
        j = j + 1;
    }
}

/// Reads the `count` symbols of the table at offset `off`.
pub(crate) fn read_symbols(data: &[u8], off: usize, count: usize) -> (v: Vec<Elf64Sym>)
    requires
        off + count * SYM_SIZE <= data@.len(),
    ensures
        v@ == Seq::new(count as nat, |k: int| spec_sym(data@, off + k * SYM_SIZE)),
{
    let dlen = data.len();
    let mut v: Vec<Elf64Sym> = Vec::new();
    let mut k: usize = 0;
    while k < count
        invariant
            dlen == data@.len(),
            off + count * SYM_SIZE <= dlen,
            k <= count,
            v@ == Seq::new(k as nat, |x: int| spec_sym(data@, off + x * SYM_SIZE)),
        decreases count - k,
    {
        assert(off + k * SYM_SIZE + SYM_SIZE <= dlen) by (nonlinear_arith)
            requires
                k < count,
                off + count * SYM_SIZE <= dlen,
        ;
        let sym = read_sym(data, off + k * SYM_SIZE);
        v.push(sym);
        k = k + 1;
        assert(v@ =~= Seq::new(k as nat, |x: int| spec_sym(data@, off + x * SYM_SIZE)));
    }
    v
}

/// A loaded ELF image: where it was loaded, and its string and symbol tables.
#[derive(Debug)]
pub struct ElfHandle<'a> {
    base_addr: usize,
    strtab: &'a [u8],
    symtab: Vec<Elf64Sym>,
}

impl<'a> ElfHandle<'a> {
    /// The address the image was loaded at.
    pub closed spec fn base_addr_spec(&self) -> usize {
        self.base_addr
    }

    /// The bytes of the image's string table.
    pub closed spec fn strtab_spec(&self) -> Seq<u8> {
        self.strtab@
    }

    /// The image's symbols.
    pub closed spec fn symtab_spec(&self) -> Seq<Elf64Sym> {
        self.symtab@
    }
}

/// Loads the ELF image `data` at `base_address`: `image` stands for the memory
/// from `base_address` on. Copies the loadable segments, finds the symbol and
/// string tables, and applies the relocations.
pub fn load_elf<'a>(data: &'a [u8], base_address: usize, image: &mut Vec<u8>) -> (h: ElfHandle<'a>)
    requires
        elf_loadable(data@, base_address, old(image)@.len() as int),
    ensures
        final(image)@ == loaded_image(old(image)@, data@, base_address),
        h.base_addr_spec() == base_address,
        h.strtab_spec() == spec_strtab(data@),
        h.symtab_spec() == spec_symtab(data@),
{
    let ghost d = data@;
    let ghost img0 = image@;
    let dlen = data.len();
    let ilen = image.len();
    let ehdr = read_ehdr(data);
    // The loadable segments.
    let phnum = ehdr.e_phnum as usize;
    let mut i: usize = 0;
    while i < phnum
        invariant
            d == data@,
            dlen == d.len(),
            ehdr == spec_ehdr(d),
            phnum == ehdr.e_phnum,
            elf_loadable(d, base_address, img0.len() as int),
            ilen == img0.len(),
            i <= phnum,
            image@.len() == ilen,
            image@ == segments_image(img0, d, i as int),
        decreases phnum - i,
    {
        assert(ehdr.e_phoff + i * PHDR_SIZE + PHDR_SIZE <= dlen) by (nonlinear_arith)
            requires
                i < phnum,
                ehdr.e_phoff + phnum * PHDR_SIZE <= dlen,
        ;
        let offset = ehdr.e_phoff as usize + i * PHDR_SIZE;
        let ph = read_phdr(data, offset);
        assert(ph == phdr_at(d, i as int));
        assert(segment_ok(phdr_at(d, i as int), d.len() as int, base_address, ilen as int));
        if ph.p_type == PT_LOAD {
            load_segment(data, ph, image);
        }
        assert(image@.len() == ilen);
        i = i + 1;
    }
    let ghost segs = image@;
    // The symbol and string tables.
    let shnum = ehdr.e_shnum as usize;
    let mut sym_loc: Option<(usize, usize)> = None;
    let mut strtab: &'a [u8] = &data[0..0];
    i = 0;
    while i < shnum
        invariant
            d == data@,
            dlen == d.len(),
            ehdr == spec_ehdr(d),
            shnum == ehdr.e_shnum,
            elf_loadable(d, base_address, img0.len() as int),
            ilen == img0.len(),
            i <= shnum,
            match symtab_section(d, i as int) {
                None => sym_loc is None,
                Some(k) => sym_loc == Some(
                    (shdr_at(d, k).sh_offset as usize, entry_count(shdr_at(d, k)) as usize),
                ),
            },
            symtab_section(d, i as int) matches Some(k) ==> 0 <= k < shnum,
            strtab@ == match strtab_section(d, i as int) {
                None => Seq::empty(),
                Some(k) => d.subrange(shdr_at(d, k).sh_offset as int, shdr_at(d, k).sh_offset + shdr_at(d, k).sh_size),
            },
        decreases shnum - i,
    {
        assert(ehdr.e_shoff + i * SHDR_SIZE + SHDR_SIZE <= dlen) by (nonlinear_arith)
            requires
                i < shnum,
                ehdr.e_shoff + shnum * SHDR_SIZE <= dlen,
        ;
        let off = ehdr.e_shoff as usize + i * SHDR_SIZE;
        let sh = read_shdr(data, off);
        assert(sh == shdr_at(d, i as int));
        assert(section_ok(d, i as int, base_address, ilen as int));
        if sh.sh_type == SHT_SYMTAB {
            assert(entry_count(sh) * SYM_SIZE <= dlen);
            let count = (sh.sh_size / sh.sh_entsize) as usize;
            sym_loc = Some((sh.sh_offset as usize, count));
        } else if sh.sh_type == SHT_STRTAB && i != ehdr.e_shstrndx as usize {
            let start = sh.sh_offset as usize;
            strtab = &data[start..start + sh.sh_size as usize];
        }
        i = i + 1;
    }
    let symtab = match sym_loc {
        None => Vec::new(),
        Some((off, count)) => {
            proof {
                lemma_symtab_section(d, shnum as int);
                let k = symtab_section(d, shnum as int)->0;
                assert(section_ok(d, k, base_address, ilen as int));
                let sh = shdr_at(d, k);
                assert(sh.sh_type == SHT_SYMTAB);
                assert(sh.sh_offset + entry_count(sh) * SYM_SIZE <= dlen);
                assert(entry_count(sh) * SYM_SIZE >= entry_count(sh)) by (nonlinear_arith)
                    requires entry_count(sh) >= 0;
                assert(off == sh.sh_offset && count == entry_count(sh));
            }
            read_symbols(data, off, count)
        },
    };
    assert(symtab@ =~= spec_symtab(d));
    // The relocations.
    i = 0;
    while i < shnum
        invariant
            d == data@,
            dlen == d.len(),
            ehdr == spec_ehdr(d),
            shnum == ehdr.e_shnum,
            elf_loadable(d, base_address, img0.len() as int),
            symtab@ == spec_symtab(d),
            ilen == img0.len(),
            ilen == segs.len(),
            image@.len() == ilen,
            i <= shnum,
            image@ == relocs_image(segs, d, base_address, symtab@, i as int),
        decreases shnum - i,
    {
        assert(ehdr.e_shoff + i * SHDR_SIZE + SHDR_SIZE <= dlen) by (nonlinear_arith)
            requires
                i < shnum,
                ehdr.e_shoff + shnum * SHDR_SIZE <= dlen,
        ;
        let off = ehdr.e_shoff as usize + i * SHDR_SIZE;
        let sh = read_shdr(data, off);
        assert(sh == shdr_at(d, i as int));
        assert(section_ok(d, i as int, base_address, ilen as int));
        if sh.sh_type == SHT_RELA {
            let ghost before = image@;
            apply_section_relocs(data, sh, base_address, &symtab, image);
            proof {
                lemma_section_relocs_len(before, d, base_address, symtab@, sh, entry_count(sh));
            }
        }
        i = i + 1;
    }
    ElfHandle { base_addr: base_address, strtab, symtab }
}

/// Index of the first 0 byte of `s` at or after `i`.
pub open spec fn first_nul_from(s: Seq<u8>, i: int) -> Option<int>
    decreases s.len() - i,
{
    if i < 0 || i >= s.len() {
        None
    } else if s[i] == 0 {
        Some(i)
    } else {
        first_nul_from(s, i + 1)
    }
}

/// The name that starts at `st_name` in the string table: its bytes up to the
/// first NUL. None when it starts past the table or no NUL ends it.
pub open spec fn symbol_name(strtab: Seq<u8>, st_name: int) -> Option<Seq<u8>> {
    if st_name >= strtab.len() {
        None
    } else {
        let rest = strtab.subrange(st_name, strtab.len() as int);
        match first_nul_from(rest, 0) {
            None => None,
            Some(len) => Some(rest.subrange(0, len)),
        }
    }
}

/// Index of the first symbol, at or after `k`, named `name`.
pub open spec fn first_named(syms: Seq<Elf64Sym>, strtab: Seq<u8>, name: Seq<u8>, k: int) -> Option<int>
    decreases syms.len() - k,
{
    if k < 0 || k >= syms.len() {
        None
    } else if symbol_name(strtab, syms[k].st_name as int) == Some(name) {
        Some(k)
    } else {
        first_named(syms, strtab, name, k + 1)
    }
}

/// Index of the first 0 byte of `s` at or after `from`.
fn position_of_nul(s: &[u8], from: usize) -> (r: Option<usize>)
    requires
        from <= s@.len(),
    ensures
        r matches Some(p) ==> first_nul_from(s@, from as int) == Some(p as int),
        r is None ==> first_nul_from(s@, from as int) is None,
{
    let n = s.len();
    let mut i = from;
    while i < n
        invariant
            n == s@.len(),
            from <= i <= n,
            first_nul_from(s@, from as int) == first_nul_from(s@, i as int),
        decreases n - i,
    {
        if s[i] == 0 {
            return Some(i);
        }
        i = i + 1;
    }
    None
}

/// Whether the bytes `a[off..off + len]` are the bytes `b`.
fn bytes_equal(a: &[u8], off: usize, len: usize, b: &[u8]) -> (r: bool)
    requires
        off + len <= a@.len(),
    ensures
        r == (a@.subrange(off as int, off + len) == b@),
{
    if len != b.len() {
        assert(a@.subrange(off as int, off + len).len() != b@.len());
        return false;
    }
    let alen = a.len();
    let mut i: usize = 0;
    while i < len
        invariant
            alen == a@.len(),
            off + len <= a@.len(),
            len == b@.len(),
            i <= len,
            forall|k: int| 0 <= k < i ==> a@[off + k] == b@[k],
        decreases len - i,
    {
        if a[off + i] != b[i] {
            assert(a@.subrange(off as int, off + len)[i as int] != b@[i as int]);
            return false;
        }
        i = i + 1;
    }
    assert(a@.subrange(off as int, off + len) =~= b@);
    true
}

/// Whether the names of the first `m` symbols that have one are valid UTF-8.
pub open spec fn names_valid_before(syms: Seq<Elf64Sym>, strtab: Seq<u8>, m: int) -> bool {
    forall|k: int|
        0 <= k < m ==> ((#[trigger] symbol_name(strtab, syms[k].st_name as int)) matches Some(nm)
            ==> vstd::utf8::valid_utf8(nm))
}

impl<'a> ElfHandle<'a> {
    /// Whether looking up `name` succeeds: a symbol has that name, the names
    /// before the first such symbol are valid UTF-8, and the symbol's address
    /// fits in a `usize`.
    pub open spec fn lookup_ok(&self, name: Seq<u8>) -> bool {
        match first_named(self.symtab_spec(), self.strtab_spec(), name, 0) {
            None => false,
            Some(m) => {
                &&& names_valid_before(self.symtab_spec(), self.strtab_spec(), m)
                &&& self.base_addr_spec() + self.symtab_spec()[m].st_value <= usize::MAX
            },
        }
    }

    /// Whether looking up `name` succeeds; see `lookup_ok`.
    pub fn can_get_symbol(&self, name: &str) -> (b: bool)
        ensures
            b == self.lookup_ok(name.spec_bytes()),
    {
        proof {
            lemma_first_named(self.symtab@, self.strtab@, name.spec_bytes(), 0);
        }
        let target = name.as_bytes();
        let n = self.symtab.len();
        let slen = self.strtab.len();
        let mut k: usize = 0;
        while k < n
            invariant
                n == self.symtab@.len(),
                slen == self.strtab@.len(),
                target@ == name.spec_bytes(),
                k <= n,
                first_named(self.symtab@, self.strtab@, name.spec_bytes(), 0) == first_named(
                    self.symtab@,
                    self.strtab@,
                    name.spec_bytes(),
                    k as int,
                ),
                names_valid_before(self.symtab@, self.strtab@, k as int),
            decreases n - k,
        {
            let sym = self.symtab[k];
            let ghost nm = symbol_name(self.strtab@, sym.st_name as int);
            proof {
                lemma_first_named(self.symtab@, self.strtab@, name.spec_bytes(), k as int);
            }
            if (sym.st_name as usize) < slen {
                let start = sym.st_name as usize;
                let ghost rest = self.strtab@.subrange(start as int, slen as int);
                match position_of_nul(self.strtab, start) {
                    Some(end) => {
                        proof {
                            lemma_first_nul_shift(self.strtab@, start as int, start as int);
                            assert(rest.subrange(0, end - start) =~= self.strtab@.subrange(
                                start as int,
                                end as int,
                            ));
                        }
                        if bytes_equal(self.strtab, start, end - start, target) {
                            return (self.base_addr as u128) + (sym.st_value as u128) <= usize::MAX as u128;
                        }
                        if str_from_utf8(&self.strtab[start..end]).is_none() {
                            proof {
                                lemma_first_named(self.symtab@, self.strtab@, name.spec_bytes(), k + 1);
                                assert(nm == Some(self.strtab@.subrange(start as int, end as int)));
                            }
                            return false;
                        }
                    },
                    None => {
                        proof {
                            lemma_first_nul_shift(self.strtab@, start as int, start as int);
                        }
                    },
                }
            }
            k = k + 1;
        }
        false
    }
}

impl<'a> ElfHandle<'a> {
    /// Index of the first symbol named `name`, if any.
    fn named_index(&self, name: &str) -> (r: Option<usize>)
        ensures
            r matches Some(k) ==> first_named(self.symtab@, self.strtab@, name.spec_bytes(), 0) == Some(
                k as int,
            ),
            r is None ==> first_named(self.symtab@, self.strtab@, name.spec_bytes(), 0) is None,
    {
        let target = name.as_bytes();
        let n = self.symtab.len();
        let slen = self.strtab.len();
        let mut k: usize = 0;
        while k < n
            invariant
                n == self.symtab@.len(),
                slen == self.strtab@.len(),
                target@ == name.spec_bytes(),
                k <= n,
                first_named(self.symtab@, self.strtab@, name.spec_bytes(), 0) == first_named(
                    self.symtab@,
                    self.strtab@,
                    name.spec_bytes(),
                    k as int,
                ),
            decreases n - k,
        {
            let sym = self.symtab[k];
            if (sym.st_name as usize) < slen {
                let start = sym.st_name as usize;
                let ghost rest = self.strtab@.subrange(start as int, slen as int);
                match position_of_nul(self.strtab, start) {
                    Some(end) => {
                        proof {
                            lemma_first_nul_shift(self.strtab@, start as int, start as int);
                        }
                        if bytes_equal(self.strtab, start, end - start, target) {
                            proof {
                                assert(rest.subrange(0, end - start) =~= self.strtab@.subrange(
                                    start as int,
                                    end as int,
                                ));
                            }
                            return Some(k);
                        }
                        proof {
                            assert(rest.subrange(0, end - start) =~= self.strtab@.subrange(
                                start as int,
                                end as int,
                            ));
                        }
                    },
                    None => {
                        proof {
                            lemma_first_nul_shift(self.strtab@, start as int, start as int);
                        }
                    },
                }
            }
            k = k + 1;
        }
        None
    }

    /// Whether some symbol is named `name`.
    pub fn has_symbol(&self, name: &str) -> (b: bool)
        ensures
            b == first_named(self.symtab_spec(), self.strtab_spec(), name.spec_bytes(), 0) is Some,
    {
        self.named_index(name).is_some()
    }

    /// The address of the first symbol named `name`: the load address plus its
    /// value.
    pub fn get_symbol(&self, name: &str) -> (addr: usize)
        requires
            self.lookup_ok(name.spec_bytes()),
        ensures
            addr == self.base_addr_spec() + self.symtab_spec()[first_named(
                self.symtab_spec(),
                self.strtab_spec(),
                name.spec_bytes(),
                0,
            )->0].st_value,
    {
        proof {
            lemma_first_named(self.symtab@, self.strtab@, name.spec_bytes(), 0);
        }
        let k = self.named_index(name).unwrap();
        let sym = self.symtab[k];
        self.base_addr + sym.st_value as usize
    }
}

/// Searching for a NUL in the bytes from `off` on finds it at the same place as
/// searching the sequence of those bytes from the start.
proof fn lemma_first_nul_shift(s: Seq<u8>, off: int, i: int)
    requires
        0 <= off <= i,
        off <= s.len(),
    ensures
        first_nul_from(s, i) matches Some(p) ==> first_nul_from(s.subrange(off, s.len() as int), i - off)
            == Some(p - off) && off <= p < s.len(),
        first_nul_from(s, i) is None ==> first_nul_from(s.subrange(off, s.len() as int), i - off) is None,
    decreases s.len() - i,
{
    let sub = s.subrange(off, s.len() as int);
    if i < s.len() {
        assert(sub[i - off] == s[i]);
        if s[i] != 0 {
            lemma_first_nul_shift(s, off, i + 1);
        }
    }
}

/// What `first_named` finds is a symbol of the table.
proof fn lemma_first_named(syms: Seq<Elf64Sym>, strtab: Seq<u8>, name: Seq<u8>, k: int)
    requires
        0 <= k,
    ensures
        first_named(syms, strtab, name, k) matches Some(m) ==> k <= m < syms.len(),
    decreases syms.len() - k,
{
    if k < syms.len() && symbol_name(strtab, syms[k].st_name as int) != Some(name) {
        lemma_first_named(syms, strtab, name, k + 1);
    }
}

/// A byte outside every loadable segment keeps its value through the loading
/// of the first `k` segments.
proof fn lemma_segments_keep(img: Seq<u8>, d: Seq<u8>, k: int, x: int)
    requires
        0 <= k <= spec_ehdr(d).e_phnum,
        0 <= x < img.len(),
        !in_loaded_segment(d, x, 1),
        forall|i: int|
            0 <= i < spec_ehdr(d).e_phnum && (#[trigger] phdr_at(d, i)).p_type == PT_LOAD ==> phdr_at(
                d,
                i,
            ).p_filesz <= phdr_at(d, i).p_memsz,
    ensures
        segments_image(img, d, k).len() == img.len(),
        segments_image(img, d, k)[x] == img[x],
    decreases k,
{
    if k > 0 {
        lemma_segments_keep(img, d, k - 1, x);
        let ph = phdr_at(d, k - 1);
        let prev = segments_image(img, d, k - 1);
        assert(!(ph.p_type == PT_LOAD && ph.p_vaddr <= x && x + 1 <= ph.p_vaddr + ph.p_memsz));
        if ph.p_type == PT_LOAD {
            assert(segment_image(prev, d, ph)[x] == prev[x]);
        }
    }
}

/// A byte outside every loadable segment keeps its value through the first
/// `j` relocations of a section whose targets lie in loadable segments.
proof fn lemma_section_relocs_keep(
    img: Seq<u8>,
    d: Seq<u8>,
    base: usize,
    syms: Seq<Elf64Sym>,
    sh: Elf64Shdr,
    j: int,
    x: int,
)
    requires
        0 <= x < img.len(),
        !in_loaded_segment(d, x, 1),
        forall|k: int| 0 <= k < j ==> in_loaded_segment(d, (#[trigger] rela_at(d, sh, k)).r_offset as int, 8),
    ensures
        section_relocs(img, d, base, syms, sh, j).len() == img.len(),
        section_relocs(img, d, base, syms, sh, j)[x] == img[x],
    decreases j,
{
    if j > 0 {
        lemma_section_relocs_keep(img, d, base, syms, sh, j - 1, x);
        let r = rela_at(d, sh, j - 1);
        let at = r.r_offset as int;
        assert(in_loaded_segment(d, at, 8));
        if at <= x < at + 8 {
            let i = choose|i: int|
                0 <= i < spec_ehdr(d).e_phnum && (#[trigger] phdr_at(d, i)).p_type == PT_LOAD
                    && phdr_at(d, i).p_vaddr <= at && at + 8 <= phdr_at(d, i).p_vaddr + phdr_at(
                    d,
                    i,
                ).p_memsz;
            assert(phdr_at(d, i).p_vaddr <= x && x + 1 <= phdr_at(d, i).p_vaddr + phdr_at(d, i).p_memsz);
            assert(in_loaded_segment(d, x, 1));
        }
    }
}

/// A byte outside every loadable segment keeps its value through the
/// relocations of the first `i` sections of a loadable image.
proof fn lemma_relocs_keep(img: Seq<u8>, d: Seq<u8>, base: usize, ilen: int, syms: Seq<Elf64Sym>, i: int, x: int)
    requires
        elf_loadable(d, base, ilen),
        0 <= i <= spec_ehdr(d).e_shnum,
        0 <= x < img.len(),
        !in_loaded_segment(d, x, 1),
    ensures
        relocs_image(img, d, base, syms, i).len() == img.len(),
        relocs_image(img, d, base, syms, i)[x] == img[x],
    decreases i,
{
    if i > 0 {
        lemma_relocs_keep(img, d, base, ilen, syms, i - 1, x);
        let sh = shdr_at(d, i - 1);
        if sh.sh_type == SHT_RELA {
            assert(section_ok(d, i - 1, base, ilen));
            let prev = relocs_image(img, d, base, syms, i - 1);
            lemma_section_relocs_keep(prev, d, base, syms, sh, entry_count(sh), x);
        }
    }
}

/// Law: loading an image changes only the memory of its loadable segments:
/// every byte outside them keeps its value, whatever the segments and
/// relocations hold.
pub proof fn law_load_writes_only_segments(img: Seq<u8>, d: Seq<u8>, base: usize, x: int)
    requires
        elf_loadable(d, base, img.len() as int),
        0 <= x < img.len(),
        !in_loaded_segment(d, x, 1),
    ensures
        loaded_image(img, d, base).len() == img.len(),
        loaded_image(img, d, base)[x] == img[x],
{
    let h = spec_ehdr(d);
    assert forall|i: int|
        0 <= i < h.e_phnum && (#[trigger] phdr_at(d, i)).p_type == PT_LOAD implies phdr_at(d, i).p_filesz
        <= phdr_at(d, i).p_memsz by {
        assert(segment_ok(phdr_at(d, i), d.len() as int, base, img.len() as int));
    }
    lemma_segments_keep(img, d, h.e_phnum as int, x);
    let segs = segments_image(img, d, h.e_phnum as int);
    lemma_relocs_keep(segs, d, base, img.len() as int, spec_symtab(d), h.e_shnum as int, x);
}

/// Among the first `n` sections, the last string table other than the
/// section-name table is `j`, when no later one is.
proof fn lemma_strtab_section_last(d: Seq<u8>, n: int, j: int)
    requires
        0 <= j < n,
        shdr_at(d, j).sh_type == SHT_STRTAB,
        j != spec_ehdr(d).e_shstrndx,
        forall|t: int|
            j < t < n ==> !((#[trigger] shdr_at(d, t)).sh_type == SHT_STRTAB && t != spec_ehdr(d).e_shstrndx),
    ensures
        strtab_section(d, n) == Some(j),
    decreases n,
{
    if n - 1 > j {
        assert(!(shdr_at(d, n - 1).sh_type == SHT_STRTAB && n - 1 != spec_ehdr(d).e_shstrndx));
        lemma_strtab_section_last(d, n - 1, j);
    }
}

/// Among the first `n` sections, none is a string table other than the
/// section-name table.
proof fn lemma_strtab_section_none(d: Seq<u8>, n: int)
    requires
        forall|t: int|
            0 <= t < n ==> !((#[trigger] shdr_at(d, t)).sh_type == SHT_STRTAB && t != spec_ehdr(d).e_shstrndx),
    ensures
        strtab_section(d, n) is None,
    decreases n,
{
    if n > 0 {
        assert(!(shdr_at(d, n - 1).sh_type == SHT_STRTAB && n - 1 != spec_ehdr(d).e_shstrndx));
        lemma_strtab_section_none(d, n - 1);
    }
}

/// Among the first `n` sections, the last symbol table is `j`, when no later
/// one is.
proof fn lemma_symtab_section_last(d: Seq<u8>, n: int, j: int)
    requires
        0 <= j < n,
        shdr_at(d, j).sh_type == SHT_SYMTAB,
        forall|t: int| j < t < n ==> (#[trigger] shdr_at(d, t)).sh_type != SHT_SYMTAB,
    ensures
        symtab_section(d, n) == Some(j),
    decreases n,
{
    if n - 1 > j {
        assert(shdr_at(d, n - 1).sh_type != SHT_SYMTAB);
        lemma_symtab_section_last(d, n - 1, j);
    }
}

/// Law: the string table that a loaded image's handle keeps is the last
/// section of type `SHT_STRTAB` other than the section-name table: its bytes
/// from `sh_offset` for `sh_size` bytes. Without such a section it is empty.
pub proof fn law_strtab_is_last_string_table(d: Seq<u8>, j: int)
    requires
        0 <= j < spec_ehdr(d).e_shnum,
        shdr_at(d, j).sh_type == SHT_STRTAB,
        j != spec_ehdr(d).e_shstrndx,
        forall|t: int|
            j < t < spec_ehdr(d).e_shnum ==> !((#[trigger] shdr_at(d, t)).sh_type == SHT_STRTAB && t
                != spec_ehdr(d).e_shstrndx),
    ensures
        spec_strtab(d) == d.subrange(
            shdr_at(d, j).sh_offset as int,
            shdr_at(d, j).sh_offset + shdr_at(d, j).sh_size,
        ),
{
    lemma_strtab_section_last(d, spec_ehdr(d).e_shnum as int, j);
}

/// Law: an image with no string table other than the section-name table gives
/// its handle an empty string table.
pub proof fn law_no_string_table(d: Seq<u8>)
    requires
        forall|t: int|
            0 <= t < spec_ehdr(d).e_shnum ==> !((#[trigger] shdr_at(d, t)).sh_type == SHT_STRTAB && t
                != spec_ehdr(d).e_shstrndx),
    ensures
        spec_strtab(d) == Seq::<u8>::empty(),
{
    lemma_strtab_section_none(d, spec_ehdr(d).e_shnum as int);
}

/// Law: the symbols that a loaded image's handle keeps are the entries of the
/// last section of type `SHT_SYMTAB`: `sh_size / sh_entsize` entries of 24
/// bytes from `sh_offset`.
pub proof fn law_symtab_is_last_symbol_table(d: Seq<u8>, j: int)
    requires
        0 <= j < spec_ehdr(d).e_shnum,
        shdr_at(d, j).sh_type == SHT_SYMTAB,
        shdr_at(d, j).sh_entsize != 0,
        forall|t: int| j < t < spec_ehdr(d).e_shnum ==> (#[trigger] shdr_at(d, t)).sh_type != SHT_SYMTAB,
    ensures
        spec_symtab(d).len() == shdr_at(d, j).sh_size / shdr_at(d, j).sh_entsize,
        forall|k: int|
            0 <= k < spec_symtab(d).len() ==> #[trigger] spec_symtab(d)[k] == spec_sym(
                d,
                shdr_at(d, j).sh_offset + k * 24,
            ),
{
    lemma_symtab_section_last(d, spec_ehdr(d).e_shnum as int, j);
}

/// No two loadable segments of `d` share memory.
pub open spec fn segments_disjoint(d: Seq<u8>) -> bool {
    forall|i: int, j: int|
        0 <= i < j < spec_ehdr(d).e_phnum && (#[trigger] phdr_at(d, i)).p_type == PT_LOAD && (#[trigger] phdr_at(
            d,
            j,
        )).p_type == PT_LOAD ==> phdr_at(d, i).p_vaddr + phdr_at(d, i).p_memsz <= phdr_at(d, j).p_vaddr
            || phdr_at(d, j).p_vaddr + phdr_at(d, j).p_memsz <= phdr_at(d, i).p_vaddr
}

/// No section of `d` holds relocations.
pub open spec fn no_relocations(d: Seq<u8>) -> bool {
    forall|t: int| 0 <= t < spec_ehdr(d).e_shnum ==> (#[trigger] shdr_at(d, t)).sh_type != SHT_RELA
}

/// Loading segments keeps the memory's length.
proof fn lemma_segments_len(img: Seq<u8>, d: Seq<u8>, k: int)
    ensures
        segments_image(img, d, k).len() == img.len(),
    decreases k,
{
    if k > 0 {
        lemma_segments_len(img, d, k - 1);
    }
}

/// Relocating with the first `n` sections, none of which holds relocations,
/// changes nothing.
proof fn lemma_relocs_none(img: Seq<u8>, d: Seq<u8>, base: usize, syms: Seq<Elf64Sym>, n: int)
    requires
        n <= spec_ehdr(d).e_shnum,
        no_relocations(d),
    ensures
        relocs_image(img, d, base, syms, n) == img,
    decreases n,
{
    if n > 0 {
        assert(shdr_at(d, n - 1).sh_type != SHT_RELA);
        lemma_relocs_none(img, d, base, syms, n - 1);
    }
}

/// After the first `k` segments were loaded, a byte of the memory of loadable
/// segment `i < k` holds the segment's file byte, or 0 past its file size.
proof fn lemma_segment_content(img: Seq<u8>, d: Seq<u8>, k: int, i: int, y: int)
    requires
        0 <= i < k <= spec_ehdr(d).e_phnum,
        phdr_at(d, i).p_type == PT_LOAD,
        phdr_at(d, i).p_vaddr <= y < phdr_at(d, i).p_vaddr + phdr_at(d, i).p_memsz,
        y < img.len(),
        forall|t: int|
            0 <= t < spec_ehdr(d).e_phnum && (#[trigger] phdr_at(d, t)).p_type == PT_LOAD ==> phdr_at(
                d,
                t,
            ).p_filesz <= phdr_at(d, t).p_memsz,
        segments_disjoint(d),
    ensures
        segments_image(img, d, k)[y] == if y - phdr_at(d, i).p_vaddr < phdr_at(d, i).p_filesz {
            d[phdr_at(d, i).p_offset + (y - phdr_at(d, i).p_vaddr)]
        } else {
            0u8
        },
    decreases k,
{
    lemma_segments_len(img, d, k - 1);
    let prev = segments_image(img, d, k - 1);
    let ph = phdr_at(d, k - 1);
    if k - 1 > i {
        lemma_segment_content(img, d, k - 1, i, y);
        if ph.p_type == PT_LOAD {
            assert(phdr_at(d, i).p_vaddr + phdr_at(d, i).p_memsz <= ph.p_vaddr || ph.p_vaddr + ph.p_memsz
                <= phdr_at(d, i).p_vaddr);
            assert(segment_image(prev, d, ph)[y] == prev[y]);
        }
    } else {
        assert(segment_image(prev, d, ph)[y] == if y - ph.p_vaddr < ph.p_filesz {
            d[ph.p_offset + (y - ph.p_vaddr)]
        } else {
            0u8
        });
    }
}

/// Law: loading an image without relocations whose loadable segments do not
/// overlap puts every loadable segment in memory: for each such segment and
/// each `x` below its memory size, the byte at `p_vaddr + x` is the file byte
/// at `p_offset + x` when `x` is below the file size, and 0 after it.
pub proof fn law_load_copies_segments(img: Seq<u8>, d: Seq<u8>, base: usize, i: int, x: int)
    requires
        elf_loadable(d, base, img.len() as int),
        no_relocations(d),
        segments_disjoint(d),
        0 <= i < spec_ehdr(d).e_phnum,
        phdr_at(d, i).p_type == PT_LOAD,
        0 <= x < phdr_at(d, i).p_memsz,
    ensures
        loaded_image(img, d, base)[phdr_at(d, i).p_vaddr + x] == if x < phdr_at(d, i).p_filesz {
            d[phdr_at(d, i).p_offset + x]
        } else {
            0u8
        },
{
    let h = spec_ehdr(d);
    assert(segment_ok(phdr_at(d, i), d.len() as int, base, img.len() as int));
    assert forall|t: int|
        0 <= t < h.e_phnum && (#[trigger] phdr_at(d, t)).p_type == PT_LOAD implies phdr_at(d, t).p_filesz
        <= phdr_at(d, t).p_memsz by {
        assert(segment_ok(phdr_at(d, t), d.len() as int, base, img.len() as int));
    }
    let segs = segments_image(img, d, h.e_phnum as int);
    lemma_segment_content(img, d, h.e_phnum as int, i, phdr_at(d, i).p_vaddr + x);
    lemma_relocs_none(segs, d, base, spec_symtab(d), h.e_shnum as int);
}

/// Whether relocation `q` of section `t` of `d` is one that loading applies.
pub open spec fn is_reloc(d: Seq<u8>, t: int, q: int) -> bool {
    &&& 0 <= t < spec_ehdr(d).e_shnum
    &&& shdr_at(d, t).sh_type == SHT_RELA
    &&& 0 <= q < entry_count(shdr_at(d, t))
}

/// Whether relocation `r` writes the byte `y`.
spec fn covers(r: Elf64Rela, y: int) -> bool {
    r.r_offset <= y < r.r_offset + 8
}

/// Applying a relocation keeps the memory's length, and leaves every byte
/// outside its 8 bytes alone.
proof fn lemma_apply_rela_keep(img: Seq<u8>, r: Elf64Rela, base: usize, syms: Seq<Elf64Sym>, y: int)
    requires
        0 <= y < img.len(),
        !covers(r, y),
    ensures
        apply_rela(img, r, base, syms).len() == img.len(),
        apply_rela(img, r, base, syms)[y] == img[y],
{
}

/// After the first `q` relocations of section `sh`, a byte that none of them
/// writes keeps its value.
proof fn lemma_section_keep(img: Seq<u8>, d: Seq<u8>, base: usize, syms: Seq<Elf64Sym>, sh: Elf64Shdr, q: int, y: int)
    requires
        0 <= y < img.len(),
        forall|k: int| 0 <= k < q ==> !covers(#[trigger] rela_at(d, sh, k), y),
    ensures
        section_relocs(img, d, base, syms, sh, q)[y] == img[y],
    decreases q,
{
    if q > 0 {
        lemma_section_keep(img, d, base, syms, sh, q - 1, y);
        lemma_section_relocs_len(img, d, base, syms, sh, q - 1);
        lemma_apply_rela_keep(section_relocs(img, d, base, syms, sh, q - 1), rela_at(d, sh, q - 1), base, syms, y);
    }
}

/// After the first `q` relocations of section `sh`, a byte that relocation
/// `j < q` writes, and no later one does, holds that relocation's byte.
proof fn lemma_section_sets(
    img: Seq<u8>,
    d: Seq<u8>,
    base: usize,
    syms: Seq<Elf64Sym>,
    sh: Elf64Shdr,
    q: int,
    j: int,
    y: int,
)
    requires
        0 <= j < q,
        covers(rela_at(d, sh, j), y),
        rela_at(d, sh, j).r_offset + 8 <= img.len(),
        rela_at(d, sh, j).r_info & 0xff == R_X86_64_RELATIVE || (rela_at(d, sh, j).r_info & 0xff
            == R_X86_64_64 && (rela_at(d, sh, j).r_info >> 32) < syms.len()),
        forall|k: int| j < k < q ==> !covers(#[trigger] rela_at(d, sh, k), y),
    ensures
        section_relocs(img, d, base, syms, sh, q)[y] == byte_of(
            rela_value(rela_at(d, sh, j), base, syms),
            y - rela_at(d, sh, j).r_offset,
        ),
    decreases q,
{
    lemma_section_relocs_len(img, d, base, syms, sh, q - 1);
    if q - 1 > j {
        lemma_section_sets(img, d, base, syms, sh, q - 1, j, y);
        lemma_apply_rela_keep(section_relocs(img, d, base, syms, sh, q - 1), rela_at(d, sh, q - 1), base, syms, y);
    }
}

/// Relocating keeps the memory's length.
proof fn lemma_relocs_len(img: Seq<u8>, d: Seq<u8>, base: usize, syms: Seq<Elf64Sym>, n: int)
    ensures
        relocs_image(img, d, base, syms, n).len() == img.len(),
    decreases n,
{
    if n > 0 {
        lemma_relocs_len(img, d, base, syms, n - 1);
        let prev = relocs_image(img, d, base, syms, n - 1);
        let sh = shdr_at(d, n - 1);
        lemma_section_relocs_len(prev, d, base, syms, sh, entry_count(sh));
    }
}

/// After the relocations of the first `n > i` sections, a byte that relocation
/// `j` of section `i` writes, and no other relocation does, holds that
/// relocation's byte.
proof fn lemma_relocs_sets(
    img: Seq<u8>,
    d: Seq<u8>,
    base: usize,
    syms: Seq<Elf64Sym>,
    n: int,
    i: int,
    j: int,
    y: int,
)
    requires
        i < n <= spec_ehdr(d).e_shnum,
        is_reloc(d, i, j),
        covers(rela_at(d, shdr_at(d, i), j), y),
        rela_at(d, shdr_at(d, i), j).r_offset + 8 <= img.len(),
        rela_at(d, shdr_at(d, i), j).r_info & 0xff == R_X86_64_RELATIVE || (rela_at(d, shdr_at(d, i), j).r_info
            & 0xff == R_X86_64_64 && (rela_at(d, shdr_at(d, i), j).r_info >> 32) < syms.len()),
        forall|t: int, k: int|
            #![trigger rela_at(d, shdr_at(d, t), k)]
            is_reloc(d, t, k) && (t != i || k != j) ==> !covers(rela_at(d, shdr_at(d, t), k), y),
    ensures
        relocs_image(img, d, base, syms, n)[y] == byte_of(
            rela_value(rela_at(d, shdr_at(d, i), j), base, syms),
            y - rela_at(d, shdr_at(d, i), j).r_offset,
        ),
    decreases n,
{
    let prev = relocs_image(img, d, base, syms, n - 1);
    let sh = shdr_at(d, n - 1);
    lemma_relocs_len(img, d, base, syms, n - 1);
    if n - 1 == i {
        assert forall|k: int| j < k < entry_count(sh) implies !covers(#[trigger] rela_at(d, sh, k), y) by {
            assert(is_reloc(d, i, k));
        }
        lemma_section_sets(prev, d, base, syms, sh, entry_count(sh), j, y);
    } else {
        lemma_relocs_sets(img, d, base, syms, n - 1, i, j, y);
        if sh.sh_type == SHT_RELA {
            assert forall|k: int| 0 <= k < entry_count(sh) implies !covers(#[trigger] rela_at(d, sh, k), y) by {
                assert(is_reloc(d, n - 1, k));
            }
            lemma_section_keep(prev, d, base, syms, sh, entry_count(sh), y);
        }
    }
}

/// Law: a relocation that no other relocation overlaps leaves its value in the
/// loaded memory: the 8 bytes at `r_offset`, read as a little-endian number,
/// are the load address plus the addend for a relative relocation, and the
/// load address plus the symbol's value plus the addend for an absolute one
/// whose symbol is in the table.
pub proof fn law_relocation_value(img: Seq<u8>, d: Seq<u8>, base: usize, i: int, j: int)
    requires
        elf_loadable(d, base, img.len() as int),
        is_reloc(d, i, j),
        forall|t: int, k: int|
            #![trigger rela_at(d, shdr_at(d, t), k)]
            is_reloc(d, t, k) && (t != i || k != j) ==> rela_at(d, shdr_at(d, t), k).r_offset + 8
                <= rela_at(d, shdr_at(d, i), j).r_offset || rela_at(d, shdr_at(d, i), j).r_offset + 8
                <= rela_at(d, shdr_at(d, t), k).r_offset,
    ensures
        ({
            let r = rela_at(d, shdr_at(d, i), j);
            let syms = spec_symtab(d);
            let v = le_at(loaded_image(img, d, base), r.r_offset as int, 8);
            &&& r.r_info & 0xff == 8 ==> v == base + (r.r_addend as u64)
            &&& (r.r_info & 0xff == 1 && (r.r_info >> 32) < syms.len()) ==> v == base + syms[(r.r_info
                >> 32) as int].st_value + (r.r_addend as u64)
        }),
{
    let sh = shdr_at(d, i);
    let r = rela_at(d, sh, j);
    let syms = spec_symtab(d);
    let h = spec_ehdr(d);
    assert(section_ok(d, i, base, img.len() as int));
    assert(rela_ok(r, base, syms, img.len() as int));
    let t = r.r_info & 0xff;
    if t == R_X86_64_RELATIVE || (t == R_X86_64_64 && (r.r_info >> 32) < syms.len()) {
        let segs = segments_image(img, d, h.e_phnum as int);
        lemma_segments_len(img, d, h.e_phnum as int);
        let out = loaded_image(img, d, base);
        lemma_relocs_len(segs, d, base, syms, h.e_shnum as int);
        let v = rela_value(r, base, syms);
        assert forall|y: int| r.r_offset <= y < r.r_offset + 8 implies out[y] == byte_of(v, y - r.r_offset) by {
            lemma_relocs_sets(segs, d, base, syms, h.e_shnum as int, i, j, y);
        }
        assert(out.subrange(r.r_offset as int, r.r_offset + 8) =~= u64_le(v));
        lemma_u64_le_value(v);
    }
}

/// What `first_named` finds from `k` on is a symbol with the name, and every
/// symbol before it, from `k` on, has another name; without one, none has it.
proof fn lemma_first_named_meaning(syms: Seq<Elf64Sym>, strtab: Seq<u8>, name: Seq<u8>, k: int)
    requires
        0 <= k,
    ensures
        first_named(syms, strtab, name, k) matches Some(m) ==> k <= m < syms.len() && symbol_name(
            strtab,
            syms[m].st_name as int,
        ) == Some(name) && forall|j: int|
            k <= j < m ==> symbol_name(strtab, (#[trigger] syms[j]).st_name as int) != Some(name),
        first_named(syms, strtab, name, k) is None ==> forall|j: int|
            k <= j < syms.len() ==> symbol_name(strtab, (#[trigger] syms[j]).st_name as int) != Some(name),
    decreases syms.len() - k,
{
    if k < syms.len() && symbol_name(strtab, syms[k].st_name as int) != Some(name) {
        lemma_first_named_meaning(syms, strtab, name, k + 1);
    }
}

/// Law: looking a symbol up finds the first symbol of the table whose name
/// (its bytes in the string table up to the NUL) is the name asked for: that
/// symbol has the name and no earlier one has it; when the lookup finds
/// nothing, no symbol has the name. `get_symbol` returns the load address
/// plus that symbol's value.
pub proof fn law_lookup_finds_first_named(h: ElfHandle, name: Seq<u8>)
    ensures
        first_named(h.symtab_spec(), h.strtab_spec(), name, 0) matches Some(m) ==> 0 <= m < h.symtab_spec().len()
            && symbol_name(h.strtab_spec(), h.symtab_spec()[m].st_name as int) == Some(name) && forall|j: int|
            0 <= j < m ==> symbol_name(h.strtab_spec(), (#[trigger] h.symtab_spec()[j]).st_name as int) != Some(
                name,
            ),
        first_named(h.symtab_spec(), h.strtab_spec(), name, 0) is None ==> forall|j: int|
            0 <= j < h.symtab_spec().len() ==> symbol_name(
                h.strtab_spec(),
                (#[trigger] h.symtab_spec()[j]).st_name as int,
            ) != Some(name),
{
    lemma_first_named_meaning(h.symtab_spec(), h.strtab_spec(), name, 0);
}

} // verus!
