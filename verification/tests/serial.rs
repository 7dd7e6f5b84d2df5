use kernel::log::serial::{serial_init, uart_init_writes, PortAction, SerialLogMod, SerialPort, COM1};

const SETUP: [(u16, u8); 7] =
    [(0x3F9, 0x00), (0x3FB, 0x80), (0x3F8, 0x03), (0x3F9, 0x00), (0x3FB, 0x03), (0x3FA, 0xC7), (0x3FC, 0x0B)];

#[test]
fn serial_init_writes_the_setup_sequence() {
    assert_eq!(serial_init(), SETUP.to_vec());
    assert_eq!(SerialLogMod::init(), SETUP.to_vec());
    assert_eq!(uart_init_writes(COM1), SETUP.to_vec());
}

#[test]
fn serial_port_init_uses_its_base() {
    let port = SerialPort::new(0x2F8);
    assert_eq!(
        port.init(),
        vec![(0x2F9, 0x00), (0x2FB, 0x80), (0x2F8, 0x03), (0x2F9, 0x00), (0x2FB, 0x03), (0x2FA, 0xC7), (0x2FC, 0x0B)]
    );
    assert_eq!(port.line_status_port(), 0x2FD);
}

#[test]
fn transmit_ready_reads_bit_5() {
    assert!(SerialLogMod::is_transmit_ready(0x20));
    assert!(SerialLogMod::is_transmit_ready(0x60));
    assert!(!SerialLogMod::is_transmit_ready(0x00));
    assert!(!SerialLogMod::is_transmit_ready(0xDF));
    assert!(SerialPort::new(COM1).is_transmit_ready(0xFF));
}

#[test]
fn write_byte_sends_or_polls() {
    assert_eq!(SerialLogMod::write_byte(b'a', 0x20), PortAction::Out { port: 0x3F8, value: b'a' });
    assert_eq!(SerialLogMod::write_byte(b'a', 0x01), PortAction::Poll { port: 0x3FD });
    let port = SerialPort::new(0x2F8);
    assert_eq!(port.write_byte(b'z', 0x61), PortAction::Out { port: 0x2F8, value: b'z' });
    assert_eq!(port.write_byte(b'z', 0x00), PortAction::Poll { port: 0x2FD });
}
