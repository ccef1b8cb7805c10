//! Firmware interface definitions: status codes, memory descriptors, and the
//! processing that turns the firmware's memory map into the initial free set.

pub mod efi;
pub mod memory;
pub mod status;

use vstd::prelude::*;

verus! {

/// Errors possibly returned by memory routines.
#[derive(Clone, Copy, Debug, PartialEq, Eq, Structural)]
pub enum Error {
    /// The memory map expected a larger array; the required size in bytes.
    WrongMemoryMapSize(usize),
    /// Boot services could not be exited.
    ExitBootSvcFailed,
}

} // verus!
