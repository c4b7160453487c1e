//! Raw Super I/O access over the LPC bus, as requests to the `LpcIO` module.
//!
//! This adds no chip knowledge, but it owns two things that are easy to get wrong and
//! dangerous when wrong: the ports and unlock sequences, and what counts as an answer.
//!
//! Super I/O access is a two-step transaction: write a register number to an index port, then
//! read or write the data port next to it. The chip has exactly one index register, so the
//! sequence is not atomic, and every request has to be made while the bus is held.
use crate::pawnio::{pawnio_message, PawnIoError};
use crate::text::{joined, Text};
use vstd::prelude::*;

verus! {

/// Failure to arbitrate for the bus.
#[derive(Debug, Clone, PartialEq, Eq)]
pub enum IsaBusError {
    Unavailable(String),
    /// How long was waited, as it is shown.
    Timeout(String),
}

/// How waiting for the bus ended.
#[derive(Debug, Clone, Copy, PartialEq, Eq, Structural)]
pub enum Wait {
    /// The bus was free.
    Owned,
    /// The previous owner died holding it.
    Abandoned,
    /// It did not become free.
    Other,
}

/// Whether the bus is ours after waiting for it.
///
/// An abandoned bus is taken: refusing would mean that a crashed third-party tool permanently
/// locks us out of controlling the fans.
pub fn bus_is_ours(wait: Wait) -> (r: bool)
    ensures
        r == !(wait is Other),
{
    match wait {
        Wait::Owned => true,
        Wait::Abandoned => true,
        Wait::Other => false,
    }
}

/// How long to wait, in the milliseconds that the OS takes.
pub fn wait_millis(timeout: u128) -> (r: u32)
    ensures
        r == if timeout <= u32::MAX {
            timeout as int
        } else {
            u32::MAX as int
        },
{
    if timeout <= u32::MAX as u128 {
        timeout as u32
    } else {
        u32::MAX
    }
}

/// What can go wrong on the LPC bus.
#[derive(Debug, Clone, PartialEq, Eq)]
pub enum LpcError {
    PawnIo(PawnIoError),
    Bus(IsaBusError),
}

/// What an error says to a person.
pub open spec fn lpc_message(e: LpcError) -> Text {
    match e {
        LpcError::PawnIo(e) => pawnio_message(e),
        LpcError::Bus(IsaBusError::Unavailable(reason)) => "could not open the ISA bus mutex: "@
            + reason@,
        LpcError::Bus(IsaBusError::Timeout(waited)) => "timed out after "@ + waited@
            + " waiting for the ISA bus mutex. Another hardware monitoring or fan control application is holding it and not letting go."@,
    }
}

impl LpcError {
    /// What this says to a person.
    pub fn message(&self) -> (r: String)
        ensures
            r@ == lpc_message(*self),
    {
        match self {
            LpcError::PawnIo(e) => e.message(),
            LpcError::Bus(IsaBusError::Unavailable(reason)) => joined(
                "could not open the ISA bus mutex: ",
                reason.as_str(),
            ),
            LpcError::Bus(IsaBusError::Timeout(waited)) => joined(
                joined("timed out after ", waited.as_str()).as_str(),
                " waiting for the ISA bus mutex. Another hardware monitoring or fan control application is holding it and not letting go.",
            ),
        }
    }
}

/// The Super I/O index/data port pairs a PC can use.
#[derive(Debug, Clone, Copy, PartialEq, Eq, Structural)]
pub enum Slot {
    /// Ports `0x2E`/`0x2F`. Where nearly every desktop Super I/O lives.
    Primary,
    /// Ports `0x4E`/`0x4F`.
    Secondary,
}

impl Slot {
    /// The number the module knows a slot by.
    pub fn index(self) -> (r: u64)
        ensures
            r == match self {
                Slot::Primary => 0u64,
                Slot::Secondary => 1u64,
            },
    {
        match self {
            Slot::Primary => 0,
            Slot::Secondary => 1,
        }
    }

    /// The index port. The data port is always the next one up.
    pub fn index_port(self) -> (r: u16)
        ensures
            r == port_of(self),
    {
        match self {
            Slot::Primary => 0x2E,
            Slot::Secondary => 0x4E,
        }
    }

    /// The slot to probe after this one, if any: the primary is probed first.
    pub fn next(self) -> (r: Option<Slot>)
        ensures
            r == match self {
                Slot::Primary => Some(Slot::Secondary),
                Slot::Secondary => None,
            },
    {
        match self {
            Slot::Primary => Some(Slot::Secondary),
            Slot::Secondary => None,
        }
    }
}

/// The index port of a slot.
pub open spec fn port_of(slot: Slot) -> u16 {
    match slot {
        Slot::Primary => 0x2E,
        Slot::Secondary => 0x4E,
    }
}

/// Register holding the 16-bit chip identifier, readable only in configuration mode.
pub const CHIP_ID_REGISTER: u8 = 0x20;

/// Logical device selector. A Super I/O multiplexes many devices behind one register window;
/// the hardware monitor is one of them.
pub const DEVICE_SELECT_REGISTER: u8 = 0x07;

/// Base address register of the selected logical device.
pub const BASE_ADDRESS_REGISTER: u8 = 0x60;

/// One request to the module.
#[derive(Debug, Clone, Copy, PartialEq, Eq, Structural)]
pub enum Request {
    /// Point at a slot.
    SelectSlot(Slot),
    /// Let the module discover base addresses, which widens the ports that it accepts.
    FindBars,
    /// Read a byte from a port.
    PortIn { port: u16 },
    /// Write a byte to a port.
    PortOut { port: u16, value: u8 },
    /// Read a Super I/O register. Meaningful only in configuration mode.
    SuperIoByte { register: u8 },
    /// Read a Super I/O register pair.
    SuperIoWord { register: u8 },
    /// Write a Super I/O register.
    SuperIoOut { register: u8, value: u8 },
}

impl Request {
    /// The entry point of the module that serves a request.
    pub open spec fn entry(self) -> Text {
        match self {
            Request::SelectSlot(_) => "ioctl_select_slot"@,
            Request::FindBars => "ioctl_find_bars"@,
            Request::PortIn { .. } => "ioctl_pio_inb"@,
            Request::PortOut { .. } => "ioctl_pio_outb"@,
            Request::SuperIoByte { .. } => "ioctl_superio_inb"@,
            Request::SuperIoWord { .. } => "ioctl_superio_inw"@,
            Request::SuperIoOut { .. } => "ioctl_superio_outb"@,
        }
    }

    /// The numbers handed to the entry point.
    pub open spec fn arguments(self) -> Seq<u64> {
        match self {
            Request::SelectSlot(Slot::Primary) => seq![0u64],
            Request::SelectSlot(Slot::Secondary) => seq![1u64],
            Request::FindBars => Seq::empty(),
            Request::PortIn { port } => seq![port as u64],
            Request::PortOut { port, value } => seq![port as u64, value as u64],
            Request::SuperIoByte { register } => seq![register as u64],
            Request::SuperIoWord { register } => seq![register as u64],
            Request::SuperIoOut { register, value } => seq![register as u64, value as u64],
        }
    }

    /// The entry point and the numbers for this request.
    pub fn call(&self) -> (r: (String, Vec<u64>))
        ensures
            r.0@ == self.entry(),
            r.1@ == self.arguments(),
    {
        let mut arguments: Vec<u64> = Vec::new();
        let entry = match self {
            Request::SelectSlot(slot) => {
                arguments.push(slot.index());
                "ioctl_select_slot"
            },
            Request::FindBars => "ioctl_find_bars",
            Request::PortIn { port } => {
                arguments.push(*port as u64);
                "ioctl_pio_inb"
            },
            Request::PortOut { port, value } => {
                arguments.push(*port as u64);
                arguments.push(*value as u64);
                "ioctl_pio_outb"
            },
            Request::SuperIoByte { register } => {
                arguments.push(*register as u64);
                "ioctl_superio_inb"
            },
            Request::SuperIoWord { register } => {
                arguments.push(*register as u64);
                "ioctl_superio_inw"
            },
            Request::SuperIoOut { register, value } => {
                arguments.push(*register as u64);
                arguments.push(*value as u64);
                "ioctl_superio_outb"
            },
        };
        assert(arguments@ =~= self.arguments());
        (entry.to_owned(), arguments)
    }

    /// Whether a request is answered with a number.
    pub fn is_read(&self) -> (r: bool)
        ensures
            r == (*self is PortIn || *self is SuperIoByte || *self is SuperIoWord),
    {
        match self {
            Request::PortIn { .. } => true,
            Request::SuperIoByte { .. } => true,
            Request::SuperIoWord { .. } => true,
            _ => false,
        }
    }
}

/// The request that selects a logical device within the chip.
pub fn select_logical_device(ldn: u8) -> (r: Request)
    ensures
        r == (Request::SuperIoOut { register: DEVICE_SELECT_REGISTER, value: ldn }),
{
    Request::SuperIoOut { register: DEVICE_SELECT_REGISTER, value: ldn }
}

/// How a vendor's Super I/O family wants its configuration registers unlocked.
///
/// The sequences are written to the index port with no data write between them.
#[derive(Debug, Clone, Copy, PartialEq, Eq, Structural)]
pub enum Unlock {
    /// Nuvoton NCT6xxx: `0x87` twice to enter, `0xAA` to leave.
    Nuvoton,
    /// ITE IT87xx: `0x87 0x01 0x55 0x55` to enter (the last `0x55` is `0xAA` on the secondary
    /// slot); leaving is a register write rather than a port sequence.
    Ite,
}

/// The configuration control register of ITE's chips.
pub const ITE_CONTROL_REGISTER: u8 = 0x02;

/// What its `return to wait for key` bit is set by: the chip then leaves configuration mode.
pub const ITE_WAIT_FOR_KEY: u8 = 0x02;

impl Unlock {
    /// The bytes that unlock the chip in a slot.
    pub open spec fn entering(self, slot: Slot) -> Seq<u8> {
        match (self, slot) {
            (Unlock::Nuvoton, _) => seq![0x87u8, 0x87u8],
            (Unlock::Ite, Slot::Primary) => seq![0x87u8, 0x01u8, 0x55u8, 0x55u8],
            (Unlock::Ite, Slot::Secondary) => seq![0x87u8, 0x01u8, 0x55u8, 0xAAu8],
        }
    }

    /// The bytes written to the index port to lock it again.
    pub open spec fn leaving(self) -> Seq<u8> {
        match self {
            Unlock::Nuvoton => seq![0xAAu8],
            Unlock::Ite => Seq::empty(),
        }
    }

    /// What is written to a register to lock it again, and to which, where that is how it is
    /// done.
    pub open spec fn relocking(self) -> Seq<Request> {
        match self {
            Unlock::Nuvoton => Seq::empty(),
            Unlock::Ite => seq![
                Request::SuperIoOut { register: ITE_CONTROL_REGISTER, value: ITE_WAIT_FOR_KEY },
            ],
        }
    }

    /// The bytes that unlock the chip in a slot.
    pub fn enter_sequence(self, slot: Slot) -> (r: Vec<u8>)
        ensures
            r@ == self.entering(slot),
    {
        let r: Vec<u8> = match (self, slot) {
            (Unlock::Nuvoton, _) => vec![0x87, 0x87],
            (Unlock::Ite, Slot::Primary) => vec![0x87, 0x01, 0x55, 0x55],
            (Unlock::Ite, Slot::Secondary) => vec![0x87, 0x01, 0x55, 0xAA],
        };
        assert(r@ =~= self.entering(slot));
        r
    }

    /// The bytes written to the index port to lock it again.
    pub fn exit_sequence(self) -> (r: Vec<u8>)
        ensures
            r@ == self.leaving(),
    {
        let r: Vec<u8> = match self {
            Unlock::Nuvoton => vec![0xAA],
            Unlock::Ite => Vec::new(),
        };
        assert(r@ =~= self.leaving());
        r
    }
}

/// Bytes written to one port, one after the other.
pub open spec fn written_to(port: u16, bytes: Seq<u8>) -> Seq<Request> {
    Seq::new(bytes.len(), |i: int| Request::PortOut { port, value: bytes[i] })
}

fn write_all(port: u16, bytes: &Vec<u8>) -> (r: Vec<Request>)
    ensures
        r@ == written_to(port, bytes@),
{
    let mut out: Vec<Request> = Vec::new();
    let n: usize = bytes.len();
    for i in 0..n
        invariant
            n == bytes@.len(),
            out@ == written_to(port, bytes@.take(i as int)),
    {
        out.push(Request::PortOut { port, value: bytes[i] });
        assert(out@ =~= written_to(port, bytes@.take(i + 1)));
    }
    assert(bytes@.take(n as int) =~= bytes@);
    out
}

/// The requests that unlock the chip in a slot.
pub fn enter_config_mode(slot: Slot, vendor: Unlock) -> (r: Vec<Request>)
    ensures
        r@ == written_to(port_of(slot), vendor.entering(slot)),
{
    write_all(slot.index_port(), &vendor.enter_sequence(slot))
}

/// The requests that lock it again. They have to be made however the work in between went, so
/// that a failure cannot leave the chip unlocked.
pub fn leave_config_mode(slot: Slot, vendor: Unlock) -> (r: Vec<Request>)
    ensures
        r@ == written_to(port_of(slot), vendor.leaving()) + vendor.relocking(),
        r@.len() > 0,
{
    let mut out = write_all(slot.index_port(), &vendor.exit_sequence());
    let ghost before = out@;
    match vendor {
        Unlock::Nuvoton => {},
        Unlock::Ite => {
            out.push(
                Request::SuperIoOut { register: ITE_CONTROL_REGISTER, value: ITE_WAIT_FOR_KEY },
            );
        },
    }
    assert(out@ =~= before + vendor.relocking());
    out
}

/// Whether a chip ID reads as a real answer rather than a floating bus.
///
/// An absent chip reads all-ones (nothing driving the bus low) or all-zeroes.
pub fn plausible_chip_id(id: u16) -> (r: Option<u16>)
    ensures
        r == if id == 0x0000 || id == 0xFFFF {
            None
        } else {
            Some(id)
        },
{
    if id == 0x0000 || id == 0xFFFF {
        None
    } else {
        Some(id)
    }
}

} // verus!
