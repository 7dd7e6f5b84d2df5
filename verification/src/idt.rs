//! The interrupt descriptor table: 256 gate descriptors of 16 bytes, each
//! pointing at a handler.
use vstd::prelude::*;

verus! {

/// What the processor pushes on the stack when it takes an interrupt.
#[derive(Debug, Clone, Copy, PartialEq, Eq, Structural)]
pub struct InterruptStackFrame {
    pub instruction_pointer: usize,
    pub code_segment: usize,
    pub cpu_flags: usize,
    pub stack_pointer: usize,
    pub stack_segment: usize,
}

/// A gate descriptor: the handler's address split in three parts, the code
/// segment selector and its options.
#[derive(Debug, Clone, Copy, PartialEq, Eq, Structural)]
pub struct IdtEntry {
    pub offset_low: u16,
    pub selector: u16,
    pub options: u16,
    pub offset_middle: u16,
    pub offset_high: u32,
    pub zero: u32,
}

/// Number of gates in the table.
pub const IDT_ENTRIES: usize = 256;

/// Size in bytes of one gate descriptor.
pub const IDT_ENTRY_SIZE: usize = 16;

/// The kernel's code segment selector (the second GDT entry).
pub const KERNEL_CODE_SELECTOR: u16 = 0x08;

/// Options of a present interrupt gate of privilege level 0.
pub const INTERRUPT_GATE: u16 = 0x8E00;

/// The vectors of the faults that have a handler of their own: invalid
/// opcode, double fault, general protection fault and page fault.
pub const VECTOR_UD: usize = 6;
pub const VECTOR_DF: usize = 8;
pub const VECTOR_GP: usize = 13;
pub const VECTOR_PF: usize = 14;

/// The handler address that a descriptor holds.
pub open spec fn handler_of(e: IdtEntry) -> int {
    e.offset_low as int + e.offset_middle as int * 0x1_0000 + e.offset_high as int * 0x1_0000_0000
}

/// Whether a descriptor points nowhere: all three parts of its address are 0.
pub open spec fn is_missing(e: IdtEntry) -> bool {
    e.offset_low == 0 && e.offset_middle == 0 && e.offset_high == 0
}

/// The descriptor for the handler at address `h`.
pub open spec fn descriptor(h: int) -> IdtEntry {
    IdtEntry {
        offset_low: (h % 0x1_0000) as u16,
        selector: KERNEL_CODE_SELECTOR,
        options: INTERRUPT_GATE,
        offset_middle: ((h / 0x1_0000) % 0x1_0000) as u16,
        offset_high: ((h / 0x1_0000_0000) % 0x1_0000_0000) as u32,
        zero: 0,
    }
}

/// The handler that descriptor `i` gets from `init_idt`: the fault's own handler
/// where it has one and that handler's address is not 0, else the default one.
pub open spec fn chosen_handler(i: int, ud: int, df: int, gp: int, pf: int, default: int) -> int {
    if i == VECTOR_UD && ud != 0 {
        ud
    } else if i == VECTOR_DF && df != 0 {
        df
    } else if i == VECTOR_GP && gp != 0 {
        gp
    } else if i == VECTOR_PF && pf != 0 {
        pf
    } else {
        default
    }
}

impl IdtEntry {
    /// The descriptor that points nowhere.
    pub open spec fn missing_spec() -> IdtEntry {
        IdtEntry { offset_low: 0, selector: 0, options: 0, offset_middle: 0, offset_high: 0, zero: 0 }
    }

    /// A descriptor that points nowhere.
    pub fn missing() -> (e: Self)
        ensures
            e == Self::missing_spec(),
    {
        Self { offset_low: 0, selector: 0, options: 0, offset_middle: 0, offset_high: 0, zero: 0 }
    }

    /// An interrupt gate for the handler at `handler`, in the kernel's code
    /// segment.
    pub fn new(handler: usize) -> (e: Self)
        requires
            usize::BITS == 64,
        ensures
            e == descriptor(handler as int),
    {
        let low = handler as u16;
        let middle = (handler >> 16) as u16;
        let high = (handler >> 32) as u32;
        let ghost h = handler as u64;
        assert(h == handler && low == h % 0x1_0000 && middle == (h / 0x1_0000) % 0x1_0000 && high == (h
            / 0x1_0000_0000) % 0x1_0000_0000) by (bit_vector)
            requires
                usize::BITS == 64,
                h == handler as u64,
                low == handler as u16,
                middle == (handler >> 16) as u16,
                high == (handler >> 32) as u32,
        ;
        Self {
            offset_low: low,
            selector: KERNEL_CODE_SELECTOR,
            options: INTERRUPT_GATE,
            offset_middle: middle,
            offset_high: high,
            zero: 0,
        }
    }

    /// Whether the descriptor points nowhere.
    pub fn is_missing(&self) -> (b: bool)
        ensures
            b == is_missing(*self),
    {
        self.offset_low == 0 && self.offset_middle == 0 && self.offset_high == 0
    }
}

/// A descriptor built for a handler gives that handler's address back: the three
/// parts of the address put together are the address.
pub proof fn law_descriptor_keeps_handler(handler: usize)
    requires
        usize::BITS == 64,
    ensures
        handler_of(descriptor(handler as int)) == handler,
{
    let h = handler as int;
    let h64 = handler as u64;
    assert(h64 == handler) by (bit_vector)
        requires
            usize::BITS == 64,
            h64 == handler as u64,
    ;
    assert((h % 0x1_0000) + ((h / 0x1_0000) % 0x1_0000) * 0x1_0000 + ((h / 0x1_0000_0000)
        % 0x1_0000_0000) * 0x1_0000_0000 == h) by (nonlinear_arith)
        requires
            0 <= h < 0x1_0000_0000_0000_0000,
    ;
}

/// A descriptor points nowhere exactly when its handler's address is 0.
pub proof fn law_descriptor_missing_iff_null(handler: usize)
    requires
        usize::BITS == 64,
    ensures
        is_missing(descriptor(handler as int)) <==> handler == 0,
{
    law_descriptor_keeps_handler(handler);
}

/// The table of interrupt descriptors, and the limit (its size in bytes less one) to
/// load it with: the four faults get their own handlers, and every descriptor that
/// still points nowhere gets the default handler.
pub fn init_idt(ud: usize, df: usize, gp: usize, pf: usize, default: usize) -> (r: (Vec<IdtEntry>, u16))
    requires
        usize::BITS == 64,
    ensures
        r.0@.len() == IDT_ENTRIES,
        forall|i: int|
            0 <= i < IDT_ENTRIES ==> #[trigger] r.0@[i] == descriptor(
                chosen_handler(i, ud as int, df as int, gp as int, pf as int, default as int),
            ),
        r.1 == 4095,
{
    let mut table: Vec<IdtEntry> = Vec::new();
    let mut i: usize = 0;
    while i < IDT_ENTRIES
        invariant
            i <= IDT_ENTRIES,
            table@.len() == i,
            forall|j: int| 0 <= j < i ==> #[trigger] table@[j] == IdtEntry::missing_spec(),
        decreases IDT_ENTRIES - i,
    {
        table.push(IdtEntry::missing());
        i = i + 1;
    }
    table.set(VECTOR_UD, IdtEntry::new(ud));
    table.set(VECTOR_DF, IdtEntry::new(df));
    table.set(VECTOR_GP, IdtEntry::new(gp));
    table.set(VECTOR_PF, IdtEntry::new(pf));
    let ghost special = table@;
    assert(forall|j: int|
        0 <= j < IDT_ENTRIES ==> #[trigger] special[j] == if j == VECTOR_UD {
            descriptor(ud as int)
        } else if j == VECTOR_DF {
            descriptor(df as int)
        } else if j == VECTOR_GP {
            descriptor(gp as int)
        } else if j == VECTOR_PF {
            descriptor(pf as int)
        } else {
            IdtEntry::missing_spec()
        });
    let mut i: usize = 0;
    while i < IDT_ENTRIES
        invariant
            usize::BITS == 64,
            i <= IDT_ENTRIES,
            table@.len() == IDT_ENTRIES,
            forall|j: int| i <= j < IDT_ENTRIES ==> #[trigger] table@[j] == special[j],
            forall|j: int|
                0 <= j < IDT_ENTRIES ==> #[trigger] special[j] == if j == VECTOR_UD {
                    descriptor(ud as int)
                } else if j == VECTOR_DF {
                    descriptor(df as int)
                } else if j == VECTOR_GP {
                    descriptor(gp as int)
                } else if j == VECTOR_PF {
                    descriptor(pf as int)
                } else {
                    IdtEntry::missing_spec()
                },
            forall|j: int|
                0 <= j < i ==> #[trigger] table@[j] == descriptor(
                    chosen_handler(j, ud as int, df as int, gp as int, pf as int, default as int),
                ),
        decreases IDT_ENTRIES - i,
    {
        proof {
            law_descriptor_missing_iff_null(ud);
            law_descriptor_missing_iff_null(df);
            law_descriptor_missing_iff_null(gp);
            law_descriptor_missing_iff_null(pf);
        }
        if table[i].is_missing() {
            table.set(i, IdtEntry::new(default));
        }
        i = i + 1;
    }
    let limit = (IDT_ENTRIES * IDT_ENTRY_SIZE - 1) as u16;
    (table, limit)
}

} // verus!
