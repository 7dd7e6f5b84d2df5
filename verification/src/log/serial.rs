//! The 16550 UART behind the serial ports: the register writes that set one up,
//! and the decision, from the line status, whether a byte can be sent.
use vstd::prelude::*;

verus! {

/// I/O base of the first serial port.
pub const COM1: u16 = 0x3F8;

/// Offset of the line status register from a port's base.
pub const LINE_STATUS: u16 = 5;

/// Bit of the line status that is set when the transmit buffer is empty.
pub const TRANSMIT_EMPTY: u8 = 0x20;

/// The register writes, as (port, value), that set up the UART at `base`:
/// interrupts off, divisor 3 (38400 baud), 8 bits with no parity and one stop
/// bit, FIFO on with a 14-byte threshold, then IRQs on with RTS and DSR set.
pub open spec fn init_writes(base: int) -> Seq<(int, u8)> {
    seq![
        (base + 1, 0x00u8),
        (base + 3, 0x80u8),
        (base + 0, 0x03u8),
        (base + 1, 0x00u8),
        (base + 3, 0x03u8),
        (base + 2, 0xC7u8),
        (base + 4, 0x0Bu8),
    ]
}

/// The writes `ws` seen as (port, value) pairs of integers.
pub open spec fn writes_view(ws: Seq<(u16, u8)>) -> Seq<(int, u8)> {
    ws.map_values(|w: (u16, u8)| (w.0 as int, w.1))
}

/// Whether the line status `status` says that a byte can be sent.
pub open spec fn transmit_ready(status: u8) -> bool {
    status & TRANSMIT_EMPTY != 0
}

/// What to do next to send a byte.
#[derive(Debug, Clone, Copy, PartialEq, Eq, Structural)]
pub enum PortAction {
    /// Read the line status at `port` again and decide anew.
    Poll { port: u16 },
    /// Write `value` to `port`: the byte is sent.
    Out { port: u16, value: u8 },
}

/// The register writes that set up the UART at `base`.
pub fn uart_init_writes(base: u16) -> (ws: Vec<(u16, u8)>)
    requires
        base + 4 <= u16::MAX,
    ensures
        writes_view(ws@) == init_writes(base as int),
{
    let mut ws: Vec<(u16, u8)> = Vec::new();
    ws.push((base + 1, 0x00));
    ws.push((base + 3, 0x80));
    ws.push((base + 0, 0x03));
    ws.push((base + 1, 0x00));
    ws.push((base + 3, 0x03));
    ws.push((base + 2, 0xC7));
    ws.push((base + 4, 0x0B));
    assert(writes_view(ws@) =~= init_writes(base as int));
    ws
}

/// Whether the line status `status` says that a byte can be sent.
pub fn status_ready(status: u8) -> (b: bool)
    ensures
        b == transmit_ready(status),
{
    status & TRANSMIT_EMPTY != 0
}

/// The decision for sending `byte` through the UART at `base`, given its line
/// status: send when the transmit buffer is empty, else poll the status again.
pub fn send_step(base: u16, byte: u8, status: u8) -> (a: PortAction)
    requires
        base + LINE_STATUS <= u16::MAX,
    ensures
        a == if transmit_ready(status) {
            PortAction::Out { port: base, value: byte }
        } else {
            PortAction::Poll { port: (base + LINE_STATUS) as u16 }
        },
{
    if status_ready(status) {
        PortAction::Out { port: base, value: byte }
    } else {
        PortAction::Poll { port: base + LINE_STATUS }
    }
}

/// The register writes that set up the first serial port.
pub fn serial_init() -> (ws: Vec<(u16, u8)>)
    ensures
        writes_view(ws@) == init_writes(COM1 as int),
{
    uart_init_writes(COM1)
}

/// A serial port, by its I/O base.
pub struct SerialPort {
    port: u16,
}

impl SerialPort {
    /// The port's I/O base.
    pub closed spec fn base(&self) -> u16 {
        self.port
    }

    /// The serial port at I/O base `port`.
    pub fn new(port: u16) -> (p: Self)
        ensures
            p.base() == port,
    {
        SerialPort { port }
    }

    /// The register writes that set this port up.
    pub fn init(&self) -> (ws: Vec<(u16, u8)>)
        requires
            self.base() + 4 <= u16::MAX,
        ensures
            writes_view(ws@) == init_writes(self.base() as int),
    {
        uart_init_writes(self.port)
    }

    /// The port that holds this UART's line status.
    pub fn line_status_port(&self) -> (p: u16)
        requires
            self.base() + LINE_STATUS <= u16::MAX,
        ensures
            p == self.base() + LINE_STATUS,
    {
        self.port + LINE_STATUS
    }

    /// Whether the line status `status` says that a byte can be sent.
    pub fn is_transmit_ready(&self, status: u8) -> (b: bool)
        ensures
            b == transmit_ready(status),
    {
        status_ready(status)
    }

    /// The next step in sending `byte` through this port, given its line status.
    pub fn write_byte(&self, byte: u8, status: u8) -> (a: PortAction)
        requires
            self.base() + LINE_STATUS <= u16::MAX,
        ensures
            a == if transmit_ready(status) {
                PortAction::Out { port: self.base(), value: byte }
            } else {
                PortAction::Poll { port: (self.base() + LINE_STATUS) as u16 }
            },
    {
        send_step(self.port, byte, status)
    }
}

/// The kernel module that drives the first serial port.
pub struct SerialLogMod;

impl SerialLogMod {
    /// The register writes that the module's initialisation makes.
    pub fn init() -> (ws: Vec<(u16, u8)>)
        ensures
            writes_view(ws@) == init_writes(COM1 as int),
    {
        uart_init_writes(COM1)
    }

    /// Whether the line status `status` of the first serial port says that a
    /// byte can be sent.
    pub fn is_transmit_ready(status: u8) -> (b: bool)
        ensures
            b == transmit_ready(status),
    {
        status_ready(status)
    }

    /// The next step in sending `byte` through the first serial port, given its
    /// line status.
    pub fn write_byte(byte: u8, status: u8) -> (a: PortAction)
        ensures
            a == if transmit_ready(status) {
                PortAction::Out { port: COM1, value: byte }
            } else {
                PortAction::Poll { port: (COM1 + LINE_STATUS) as u16 }
            },
    {
        send_step(COM1, byte, status)
    }
}

/// Law: a byte goes out exactly when bit 5 (value 32) of the line status is
/// set, the transmit-buffer-empty bit of the 16550 UART.
pub proof fn law_ready_is_bit_5(status: u8)
    ensures
        transmit_ready(status) == ((status as int / 32) % 2 == 1),
{
    assert((status & 0x20 != 0) == ((status / 32) % 2 == 1)) by (bit_vector);
}

} // verus!
