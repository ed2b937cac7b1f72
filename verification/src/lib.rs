//! Bus-master driver for a single-wire, half-duplex, open-drain serial bus:
//! one signal line, one master, any number of devices.
//!
//! The master controls the timing of the bus. Every bit is framed by a low
//! pulse of the master, and the devices sample the line or hold it low in
//! answer. On top of that the driver addresses devices by their 64-bit
//! identifiers, finds the identifiers of all devices on the bus, and reads
//! and writes their scratchpads.
//!
//! The parts, from the line up:
//!
//! - [`line`]: what the driver needs of the hardware, a [`Pin`] and a
//!   [`Delay`], and the record of what is done with them;
//! - [`driver`]: the transport, which resets the bus and transfers bits in
//!   time slots and bytes as eight bits, least significant first;
//! - [`crc8`]: the checksum that guards identifiers and scratchpads;
//! - [`rom`] and [`scratchpad`]: the identifier of a device and the part of
//!   its registers that the driver reads and writes;
//! - [`command`] and [`commands`]: the operations of the protocol as values
//!   that are executed against the transport;
//! - [`search`]: the decisions of the enumeration, pass by pass;
//! - [`enumeration`]: why the enumeration finds every device exactly once.
//!
//! Every operation states what it does to the bus in terms of two records:
//! of the transport operations performed, and of what was done on the line
//! to perform them. The driver owns pin and delay, so nothing else can get
//! between two operations; and whatever is done through the driver is done
//! on the line slot by slot, each reset and each time slot complete and
//! with its standard timing, unless the pin breaks it off.

pub mod bits;
pub mod command;
pub mod commands;
pub mod crc8;
pub mod driver;
pub mod enumeration;
pub mod error;
pub mod line;
pub mod rom;
pub mod scratchpad;
pub mod search;

pub use command::{Command, Commander};
pub use driver::{BusEvent, OneWireDriver};
pub use error::Error;
pub use line::{Delay, Fault, Line, LineEvent, Pin};
pub use rom::Rom;
pub use scratchpad::Scratchpad;
