//! The logic of a small x86_64 kernel, verified: its free-list heap allocator,
//! page-table walks, ELF loading, the init ramdisk format, the interrupt
//! descriptor table, the frame-buffer text writer, the serial port's protocol
//! and the logger.
pub mod address;
pub mod boot_info;
pub mod bytes;
pub mod elf;
pub mod elf_check;
pub mod free_list;
pub mod global_alloc;
pub mod heap;
pub mod heap_init;
pub mod idt;
pub mod initfs;
pub mod log;
pub mod module_api;
pub mod page_table;
