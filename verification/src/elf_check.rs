//! Checking that an ELF image can be loaded, before loading it: its headers,
//! segments and tables lie in the file, its segments in memory, and its
//! relocations are of a supported type and do not overflow.
use crate::elf::{
    elf_loadable, entry_count, in_loaded_segment, lemma_symtab_section, phdr_at, read_ehdr, read_phdr, read_rela,
    read_shdr, read_symbols, rela_at, rela_ok, section_ok, segment_ok, shdr_at, spec_ehdr,
    spec_symtab, symtab_section, Elf64Phdr, Elf64Rela, Elf64Shdr, Elf64Sym, EHDR_SIZE, PHDR_SIZE,
    PT_LOAD, RELA_SIZE, SHDR_SIZE, SHT_RELA, SHT_STRTAB, SHT_SYMTAB, SYM_SIZE,
};
use vstd::prelude::*;

verus! {

/// Whether a symbol table section `sh` lies in a file of `dlen` bytes (any
/// other section passes).
pub open spec fn symtab_fits(sh: Elf64Shdr, dlen: int) -> bool {
    sh.sh_type == SHT_SYMTAB ==> sh.sh_entsize != 0 && sh.sh_offset + entry_count(sh) * SYM_SIZE <= dlen
}

/// Whether the segment `ph` passes `segment_ok`.
fn segment_fits(ph: Elf64Phdr, dlen: usize, base: usize, ilen: usize) -> (b: bool)
    ensures
        b == segment_ok(ph, dlen as int, base, ilen as int),
{
    if ph.p_type != PT_LOAD {
        return true;
    }
    (ph.p_offset as u128) + (ph.p_filesz as u128) <= dlen as u128 && ph.p_filesz <= ph.p_memsz && (
    ph.p_vaddr as u128) + (ph.p_memsz as u128) <= ilen as u128 && (base as u128) + (ph.p_vaddr as u128)
        <= usize::MAX as u128
}

/// Whether the relocation `r` passes `rela_ok`.
fn rela_fits(r: Elf64Rela, base: usize, syms: &Vec<Elf64Sym>, ilen: usize) -> (b: bool)
    ensures
        b == rela_ok(r, base, syms@, ilen as int),
{
    let t = r.r_info & 0xff;
    if !(t == 8 || t == 1) {
        return false;
    }
    if (r.r_offset as u128) + 8 > ilen as u128 {
        return false;
    }
    if (base as u128) + (r.r_offset as u128) > usize::MAX as u128 {
        return false;
    }
    let addend = r.r_addend as u64;
    if t == 8 && (base as u128) + (addend as u128) > u64::MAX as u128 {
        return false;
    }
    if t == 1 {
        let s = r.r_info >> 32;
        if s < syms.len() as u64 {
            let v = syms[s as usize].st_value;
            if (base as u128) + (v as u128) + (addend as u128) > u64::MAX as u128 {
                return false;
            }
        }
    }
    true
}

/// Whether the 8 bytes at `at` lie in the memory of one loadable segment of
/// the image `data`.
fn target_in_segment(data: &[u8], at: u64) -> (b: bool)
    requires
        EHDR_SIZE <= data@.len(),
        spec_ehdr(data@).e_phnum > 0 ==> spec_ehdr(data@).e_phoff + spec_ehdr(data@).e_phnum * PHDR_SIZE
            <= data@.len(),
    ensures
        b == in_loaded_segment(data@, at as int, 8),
{
    let ghost d = data@;
    let dlen = data.len();
    let h = read_ehdr(data);
    let phnum = h.e_phnum as usize;
    let mut i: usize = 0;
    while i < phnum
        invariant
            d == data@,
            dlen == d.len(),
            h == spec_ehdr(d),
            phnum == h.e_phnum,
            phnum > 0 ==> h.e_phoff + phnum * PHDR_SIZE <= dlen,
            i <= phnum,
            forall|j: int|
                0 <= j < i ==> !((#[trigger] phdr_at(d, j)).p_type == PT_LOAD && phdr_at(d, j).p_vaddr
                    <= at && at + 8 <= phdr_at(d, j).p_vaddr + phdr_at(d, j).p_memsz),
        decreases phnum - i,
    {
        assert(h.e_phoff + i * PHDR_SIZE + PHDR_SIZE <= dlen) by (nonlinear_arith)
            requires
                i < phnum,
                h.e_phoff + phnum * PHDR_SIZE <= dlen,
        ;
        let ph = read_phdr(data, h.e_phoff as usize + i * PHDR_SIZE);
        assert(ph == phdr_at(d, i as int));
        if ph.p_type == PT_LOAD && ph.p_vaddr <= at && (at as u128) + 8 <= (ph.p_vaddr as u128) + (
        ph.p_memsz as u128) {
            return true;
        }
        i = i + 1;
    }
    false
}

/// Whether the symbol table section `sh` passes `symtab_fits`.
fn symtab_section_fits(sh: Elf64Shdr, dlen: usize) -> (b: bool)
    ensures
        b == symtab_fits(sh, dlen as int),
{
    if sh.sh_type != SHT_SYMTAB {
        return true;
    }
    if sh.sh_entsize == 0 {
        return false;
    }
    let count = sh.sh_size / sh.sh_entsize;
    (sh.sh_offset as u128) + (count as u128) * (SYM_SIZE as u128) <= dlen as u128
}

/// Whether section `i`, whose header is `sh`, passes `section_ok`; `syms` is
/// the image's symbol table.
fn section_fits(data: &[u8], i: usize, sh: Elf64Shdr, base: usize, ilen: usize, syms: &Vec<Elf64Sym>) -> (b:
    bool)
    requires
        sh == shdr_at(data@, i as int),
        syms@ == spec_symtab(data@),
        EHDR_SIZE <= data@.len(),
        spec_ehdr(data@).e_phnum > 0 ==> spec_ehdr(data@).e_phoff + spec_ehdr(data@).e_phnum * PHDR_SIZE
            <= data@.len(),
    ensures
        b == section_ok(data@, i as int, base, ilen as int),
{
    let dlen = data.len();
    if !symtab_section_fits(sh, dlen) {
        return false;
    }
    let shstrndx = read_ehdr(data).e_shstrndx;
    if sh.sh_type == SHT_STRTAB && i != shstrndx as usize && (sh.sh_offset as u128) + (
    sh.sh_size as u128) > dlen as u128 {
        return false;
    }
    if sh.sh_type != SHT_RELA {
        return true;
    }
    if sh.sh_entsize == 0 {
        return false;
    }
    let count = sh.sh_size / sh.sh_entsize;
    if (sh.sh_offset as u128) + (count as u128) * (RELA_SIZE as u128) > dlen as u128 {
        return false;
    }
    assert(count as int == entry_count(sh));
    let count = count as usize;
    let off = sh.sh_offset as usize;
    let mut j: usize = 0;
    while j < count
        invariant
            sh == shdr_at(data@, i as int),
            sh.sh_type == SHT_RELA,
            sh.sh_entsize != 0,
            syms@ == spec_symtab(data@),
            EHDR_SIZE <= data@.len(),
            spec_ehdr(data@).e_phnum > 0 ==> spec_ehdr(data@).e_phoff + spec_ehdr(data@).e_phnum
                * PHDR_SIZE <= data@.len(),
            dlen == data@.len(),
            off == sh.sh_offset,
            count == entry_count(sh),
            off + count * RELA_SIZE <= dlen,
            j <= count,
            forall|k: int|
                0 <= k < j ==> rela_ok(#[trigger] rela_at(data@, sh, k), base, syms@, ilen as int)
                    && in_loaded_segment(data@, rela_at(data@, sh, k).r_offset as int, 8),
        decreases count - j,
    {
        assert(off + j * RELA_SIZE + RELA_SIZE <= dlen) by (nonlinear_arith)
            requires
                j < count,
                off + count * RELA_SIZE <= dlen,
        ;
        let r = read_rela(data, off + j * RELA_SIZE);
        assert(r == rela_at(data@, sh, j as int));
        if !rela_fits(r, base, syms, ilen) || !target_in_segment(data, r.r_offset) {
            return false;
        }
        j = j + 1;
    }
    assert(section_ok(data@, i as int, base, ilen as int));
    true
}

/// Whether the image `data` can be loaded at `base_address` into `image_len`
/// bytes of memory: exactly when `load_elf` accepts it.
pub fn can_load_elf(data: &[u8], base_address: usize, image_len: usize) -> (b: bool)
    ensures
        b == elf_loadable(data@, base_address, image_len as int),
{
    let ghost d = data@;
    let dlen = data.len();
    if dlen < EHDR_SIZE {
        return false;
    }
    let h = read_ehdr(data);
    let phnum = h.e_phnum as usize;
    let shnum = h.e_shnum as usize;
    if phnum > 0 && (h.e_phoff as u128) + (phnum as u128) * (PHDR_SIZE as u128) > dlen as u128 {
        return false;
    }
    if shnum > 0 && (h.e_shoff as u128) + (shnum as u128) * (SHDR_SIZE as u128) > dlen as u128 {
        return false;
    }
    // The segments.
    let mut i: usize = 0;
    while i < phnum
        invariant
            d == data@,
            dlen == d.len(),
            h == spec_ehdr(d),
            phnum == h.e_phnum,
            phnum > 0 ==> h.e_phoff + phnum * PHDR_SIZE <= dlen,
            i <= phnum,
            forall|j: int| 0 <= j < i ==> segment_ok(#[trigger] phdr_at(d, j), dlen as int, base_address, image_len as int),
        decreases phnum - i,
    {
        assert(h.e_phoff + i * PHDR_SIZE + PHDR_SIZE <= dlen) by (nonlinear_arith)
            requires
                i < phnum,
                h.e_phoff + phnum * PHDR_SIZE <= dlen,
        ;
        let ph = read_phdr(data, h.e_phoff as usize + i * PHDR_SIZE);
        assert(ph == phdr_at(d, i as int));
        if !segment_fits(ph, dlen, base_address, image_len) {
            return false;
        }
        i = i + 1;
    }
    // The symbol tables, which the relocations need.
    i = 0;
    while i < shnum
        invariant
            d == data@,
            dlen == d.len(),
            h == spec_ehdr(d),
            shnum == h.e_shnum,
            shnum > 0 ==> h.e_shoff + shnum * SHDR_SIZE <= dlen,
            i <= shnum,
            forall|j: int| 0 <= j < i ==> symtab_fits(#[trigger] shdr_at(d, j), dlen as int),
        decreases shnum - i,
    {
        assert(h.e_shoff + i * SHDR_SIZE + SHDR_SIZE <= dlen) by (nonlinear_arith)
            requires
                i < shnum,
                h.e_shoff + shnum * SHDR_SIZE <= dlen,
        ;
        let sh = read_shdr(data, h.e_shoff as usize + i * SHDR_SIZE);
        assert(sh == shdr_at(d, i as int));
        if !symtab_section_fits(sh, dlen) {
            assert(!section_ok(d, i as int, base_address, image_len as int));
            return false;
        }
        i = i + 1;
    }
    let symtab = image_symbols(data);
    // Every section.
    i = 0;
    while i < shnum
        invariant
            d == data@,
            dlen == d.len(),
            EHDR_SIZE <= dlen,
            h == spec_ehdr(d),
            shnum == h.e_shnum,
            shnum > 0 ==> h.e_shoff + shnum * SHDR_SIZE <= dlen,
            symtab@ == spec_symtab(d),
            phnum == h.e_phnum,
            phnum > 0 ==> h.e_phoff + phnum * PHDR_SIZE <= dlen,
            i <= shnum,
            forall|j: int| 0 <= j < i ==> #[trigger] section_ok(d, j, base_address, image_len as int),
        decreases shnum - i,
    {
        assert(h.e_shoff + i * SHDR_SIZE + SHDR_SIZE <= dlen) by (nonlinear_arith)
            requires
                i < shnum,
                h.e_shoff + shnum * SHDR_SIZE <= dlen,
        ;
        let sh = read_shdr(data, h.e_shoff as usize + i * SHDR_SIZE);
        assert(sh == shdr_at(d, i as int));
        if !section_fits(data, i, sh, base_address, image_len, &symtab) {
            return false;
        }
        i = i + 1;
    }
    true
}

/// The symbols of the image's symbol table, when every symbol table section
/// lies in the file.
fn image_symbols(data: &[u8]) -> (v: Vec<Elf64Sym>)
    requires
        EHDR_SIZE <= data@.len(),
        spec_ehdr(data@).e_shnum > 0 ==> spec_ehdr(data@).e_shoff + spec_ehdr(data@).e_shnum * SHDR_SIZE
            <= data@.len(),
        forall|j: int|
            0 <= j < spec_ehdr(data@).e_shnum ==> symtab_fits(#[trigger] shdr_at(data@, j), data@.len() as int),
    ensures
        v@ == spec_symtab(data@),
{
    let ghost d = data@;
    let dlen = data.len();
    let h = read_ehdr(data);
    let shnum = h.e_shnum as usize;
    let mut sym_loc: Option<(usize, usize)> = None;
    let mut i: usize = 0;
    while i < shnum
        invariant
            d == data@,
            dlen == d.len(),
            h == spec_ehdr(d),
            shnum == h.e_shnum,
            shnum > 0 ==> h.e_shoff + shnum * SHDR_SIZE <= dlen,
            forall|j: int| 0 <= j < shnum ==> symtab_fits(#[trigger] shdr_at(d, j), dlen as int),
            i <= shnum,
            match symtab_section(d, i as int) {
                None => sym_loc is None,
                Some(k) => sym_loc == Some(
                    (shdr_at(d, k).sh_offset as usize, entry_count(shdr_at(d, k)) as usize),
                ),
            },
        decreases shnum - i,
    {
        assert(h.e_shoff + i * SHDR_SIZE + SHDR_SIZE <= dlen) by (nonlinear_arith)
            requires
                i < shnum,
                h.e_shoff + shnum * SHDR_SIZE <= dlen,
        ;
        let sh = read_shdr(data, h.e_shoff as usize + i * SHDR_SIZE);
        assert(sh == shdr_at(d, i as int));
        if sh.sh_type == SHT_SYMTAB {
            assert(symtab_fits(sh, dlen as int));
            assert(entry_count(sh) * SYM_SIZE >= entry_count(sh)) by (nonlinear_arith)
                requires
                    entry_count(sh) >= 0,
            ;
            let count = (sh.sh_size / sh.sh_entsize) as usize;
            sym_loc = Some((sh.sh_offset as usize, count));
        }
        i = i + 1;
    }
    match sym_loc {
        None => {
            let v: Vec<Elf64Sym> = Vec::new();
            assert(v@ =~= spec_symtab(d));
            v
        },
        Some((off, count)) => {
            proof {
                lemma_symtab_section(d, shnum as int);
                let k = symtab_section(d, shnum as int)->0;
                let sh = shdr_at(d, k);
                assert(symtab_fits(sh, dlen as int));
                assert(entry_count(sh) * SYM_SIZE >= entry_count(sh)) by (nonlinear_arith)
                    requires
                        entry_count(sh) >= 0,
                ;
            }
            let v = read_symbols(data, off, count);
            assert(v@ =~= spec_symtab(d));
            v
        },
    }
}

} // verus!
