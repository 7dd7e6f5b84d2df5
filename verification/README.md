# kernel

The logic of a small x86_64 kernel, written in Verus and verified: every
function in `src/` carries a contract that Verus proves, but one. The
exception is `bytes::str_from_utf8`, a trusted wrapper around
`core::str::from_utf8`, whose contract (`Some` exactly for valid UTF-8, with
the same bytes) is taken from that function's documentation.

- `free_list`, `heap`: the free-list heap allocator. `free_list` is the
  mathematical model (a list of unused regions ordered by address, and what
  allocating from it and releasing into it do), with its laws; `heap` keeps the
  list as headers in the heap's memory and is proved to follow the model.
- `global_alloc`, `heap_init`: the allocator behind the kernel's allocations,
  and setting the heap up in the longest run of usable memory.
- `address`, `page_table`: canonical virtual addresses, their page-table
  indices, and changing the flags of the entries on the walk to a page.
- `bytes`, `elf`, `elf_check`: little-endian fields, loading an ELF image
  (segments, symbol and string tables, relocations) and checking beforehand
  that an image can be loaded: its tables lie in the file and its
  relocations write only into its loaded segments.
- `initfs`: the init ramdisk, a sequence of (name, data) records.
- `idt`: the interrupt descriptor table.
- `log`: the frame-buffer text writer (`display`), the UART's set-up and send
  protocol (`serial`), and the logger.
- `module_api`, `boot_info`: what the kernel and its modules exchange.

`tests/` runs the library on concrete values. `app/` is the program around
it: port I/O, the CR3 and IDT registers, and a run of the start-up on a host
with the ramdisk and the font read from files.
