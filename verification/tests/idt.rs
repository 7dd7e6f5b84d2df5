use kernel::idt::{init_idt, IdtEntry, INTERRUPT_GATE, KERNEL_CODE_SELECTOR};

#[test]
fn missing_entry_is_all_zero() {
    let e = IdtEntry::missing();
    assert_eq!(
        e,
        IdtEntry { offset_low: 0, selector: 0, options: 0, offset_middle: 0, offset_high: 0, zero: 0 }
    );
    assert!(e.is_missing());
}

#[test]
fn new_entry_splits_the_handler_address() {
    let e = IdtEntry::new(0xFFFF_8000_1234_5678);
    assert_eq!(e.offset_low, 0x5678);
    assert_eq!(e.offset_middle, 0x1234);
    assert_eq!(e.offset_high, 0xFFFF_8000);
    assert_eq!(e.selector, 0x08);
    assert_eq!(e.options, 0x8E00);
    assert_eq!(e.zero, 0);
    assert_eq!(KERNEL_CODE_SELECTOR, 0x08);
    assert_eq!(INTERRUPT_GATE, 0x8E00);
}

#[test]
fn entry_parts_rebuild_the_handler() {
    for h in [0usize, 1, 0xFFFF, 0x1_0000, 0x1234_5678_9ABC_DEF0, usize::MAX] {
        let e = IdtEntry::new(h);
        let back = e.offset_low as usize | (e.offset_middle as usize) << 16 | (e.offset_high as usize) << 32;
        assert_eq!(back, h);
        assert_eq!(e.is_missing(), h == 0);
    }
}

#[test]
fn init_idt_fills_the_table() {
    let (table, limit) = init_idt(0x1000, 0x2000, 0x3000, 0x4000, 0x9000);
    assert_eq!(table.len(), 256);
    assert_eq!(limit, 4095);
    assert_eq!(table[6], IdtEntry::new(0x1000));
    assert_eq!(table[8], IdtEntry::new(0x2000));
    assert_eq!(table[13], IdtEntry::new(0x3000));
    assert_eq!(table[14], IdtEntry::new(0x4000));
    for (i, e) in table.iter().enumerate() {
        if ![6, 8, 13, 14].contains(&i) {
            assert_eq!(*e, IdtEntry::new(0x9000));
        }
    }
}

#[test]
fn init_idt_gives_a_null_handler_the_default() {
    let (table, _) = init_idt(0x1000, 0, 0x3000, 0x4000, 0x9000);
    assert_eq!(table[8], IdtEntry::new(0x9000));
    assert_eq!(table[6], IdtEntry::new(0x1000));
}
