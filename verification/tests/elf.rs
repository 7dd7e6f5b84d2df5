use kernel::elf::{load_elf, r_sym, r_type};
use kernel::elf_check::can_load_elf;

fn put(buf: &mut [u8], at: usize, bytes: &[u8]) {
    buf[at..at + bytes.len()].copy_from_slice(bytes);
}

fn u16le(v: u16) -> [u8; 2] {
    v.to_le_bytes()
}
fn u32le(v: u32) -> [u8; 4] {
    v.to_le_bytes()
}
fn u64le(v: u64) -> [u8; 8] {
    v.to_le_bytes()
}

fn section(buf: &mut [u8], at: usize, sh_type: u32, offset: u64, size: u64, entsize: u64) {
    put(buf, at + 4, &u32le(sh_type));
    put(buf, at + 24, &u64le(offset));
    put(buf, at + 32, &u64le(size));
    put(buf, at + 56, &u64le(entsize));
}

/// An image with one loadable segment (8 file bytes, 16 in memory), a symbol
/// table with `MODULE` at 0x10, its string table, and two relocations: a
/// relative one at 0 with addend 0x20, and an absolute one at 8 against
/// `MODULE` with addend 4.
fn image() -> Vec<u8> {
    let mut d = vec![0u8; 488];
    put(&mut d, 0, b"\x7fELF");
    put(&mut d, 32, &u64le(64)); // e_phoff
    put(&mut d, 40, &u64le(120)); // e_shoff
    put(&mut d, 56, &u16le(1)); // e_phnum
    put(&mut d, 60, &u16le(4)); // e_shnum
    put(&mut d, 62, &u16le(0)); // e_shstrndx
    // Program header.
    put(&mut d, 64, &u32le(1));
    put(&mut d, 64 + 8, &u64le(480));
    put(&mut d, 64 + 16, &u64le(0));
    put(&mut d, 64 + 32, &u64le(8));
    put(&mut d, 64 + 40, &u64le(16));
    // Sections: null, symbols, strings, relocations.
    section(&mut d, 120 + 64, 2, 376, 48, 24);
    section(&mut d, 120 + 128, 3, 424, 8, 0);
    section(&mut d, 120 + 192, 4, 432, 48, 24);
    // Symbol 1: name at 1, value 0x10.
    put(&mut d, 376 + 24, &u32le(1));
    put(&mut d, 376 + 24 + 8, &u64le(0x10));
    put(&mut d, 424, b"\0MODULE\0");
    // Relocations.
    put(&mut d, 432, &u64le(0));
    put(&mut d, 432 + 8, &u64le(8));
    put(&mut d, 432 + 16, &u64le(0x20));
    put(&mut d, 456, &u64le(8));
    put(&mut d, 456 + 8, &u64le((1 << 32) | 1));
    put(&mut d, 456 + 16, &u64le(4));
    // Segment contents.
    put(&mut d, 480, &[1, 2, 3, 4, 5, 6, 7, 8]);
    d
}

#[test]
fn relocation_info_fields() {
    assert_eq!(r_type(0x0000_0001_0000_0008), 8);
    assert_eq!(r_sym(0x0000_0001_0000_0008), 1);
    assert_eq!(r_type(0xFFFF_FFFF_0000_0101), 0x01);
    assert_eq!(r_sym(0xFFFF_FFFF_0000_0101), 0xFFFF_FFFF);
}

#[test]
fn load_elf_copies_and_relocates() {
    let data = image();
    let mut memory = vec![0xAAu8; 32];
    let handle = load_elf(&data, 0x1000, &mut memory);
    assert_eq!(&memory[0..8], &u64le(0x1020));
    assert_eq!(&memory[8..16], &u64le(0x1014));
    assert!(memory[16..].iter().all(|&b| b == 0xAA));
    assert!(handle.has_symbol("MODULE"));
    assert!(!handle.has_symbol("MODUL"));
    assert!(!handle.has_symbol("GLOBAL_ALLOCATOR"));
    assert_eq!(handle.get_symbol("MODULE"), 0x1010);
}

#[test]
fn load_elf_clears_the_rest_of_a_segment() {
    let mut data = image();
    // No relocations: only the segment is loaded.
    put(&mut data, 60, &u16le(0));
    let mut memory = vec![0xAAu8; 32];
    let handle = load_elf(&data, 0x1000, &mut memory);
    assert_eq!(&memory[0..8], &[1, 2, 3, 4, 5, 6, 7, 8]);
    assert_eq!(&memory[8..16], &[0u8; 8]);
    assert!(memory[16..].iter().all(|&b| b == 0xAA));
    assert!(!handle.has_symbol("MODULE"));
}

#[test]
fn can_load_elf_accepts_a_sound_image() {
    let data = image();
    assert!(can_load_elf(&data, 0x1000, 32));
    assert!(can_load_elf(&data, 0x1000, 16));
}

#[test]
fn can_load_elf_refuses_what_does_not_fit() {
    let data = image();
    // The segment takes 16 bytes of memory, the second relocation ends at 16.
    assert!(!can_load_elf(&data, 0x1000, 15));
    // Headers past the end of the file.
    assert!(!can_load_elf(&data[..100], 0x1000, 32));
    assert!(!can_load_elf(&data[..63], 0x1000, 32));
    // A relocation of an unsupported type.
    let mut bad = image();
    put(&mut bad, 432 + 8, &u64le(2));
    assert!(!can_load_elf(&bad, 0x1000, 32));
    // A symbol table with entries of size 0.
    let mut bad = image();
    put(&mut bad, 120 + 64 + 56, &u64le(0));
    assert!(!can_load_elf(&bad, 0x1000, 32));
    // A load address whose relocated value overflows.
    assert!(!can_load_elf(&data, usize::MAX - 0x10, 32));
}

#[test]
fn can_get_symbol_needs_valid_names_before_it() {
    let data = image();
    let mut memory = vec![0u8; 32];
    let handle = load_elf(&data, 0x1000, &mut memory);
    assert!(handle.can_get_symbol("MODULE"));
    assert!(!handle.can_get_symbol("PANIC_HANDLER"));

    let mut bad = image();
    // Symbol 0 is now named by the bytes FF "MODULE": not UTF-8.
    put(&mut bad, 424, &[0xFF]);
    let mut memory = vec![0u8; 32];
    let handle = load_elf(&bad, 0x1000, &mut memory);
    assert!(handle.has_symbol("MODULE"));
    assert!(!handle.can_get_symbol("MODULE"));
}

#[test]
fn can_load_elf_refuses_a_relocation_outside_the_segments() {
    // The second relocation now targets byte 16, past the segment's 16 bytes of
    // memory though still inside a 32-byte buffer.
    let mut bad = image();
    put(&mut bad, 456, &u64le(16));
    assert!(!can_load_elf(&bad, 0x1000, 32));
    assert!(can_load_elf(&image(), 0x1000, 32));
}
