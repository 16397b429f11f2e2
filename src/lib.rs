//! Building blocks for emulators of memory-mapped hardware: byte-addressable
//! devices, and adapters that compose, window, remap and bank-switch them over
//! shared storage.
//!
//! Devices live in a [`Devices`] collection and are reached through
//! [`SharedDevice`] handles. Leaves ([`Ram`], [`Rom`], [`Register`], and the
//! null and random devices) hold bytes; adapters ([`Bank`], [`Remap`],
//! [`Window`]) hold handles and forward each access, and a [`Bus`] routes a
//! flat address space to devices mounted at base addresses.
use vstd::prelude::*;

pub use self::adapt::{Remap, Window};
pub use self::bank::Bank;
pub use self::bus::Bus;
pub use self::dev::{Devices, Node, SharedDevice};
pub use self::mem::{Ram, Rom};
pub use self::reg::Register;

pub mod adapt;
pub mod bank;
pub mod bus;
pub mod dev;
pub mod laws;
pub mod mem;
pub mod reg;

verus! {

} // verus!
