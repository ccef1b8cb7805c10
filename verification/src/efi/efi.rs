//! Generic firmware table definitions shared by the interface modules. The
//! table mirrors that carry live firmware pointers stay with the code that
//! performs the calls; only the plain-data records live here.

use vstd::prelude::*;

verus! {

/// Data structure that precedes all of the standard firmware table types.
#[derive(Clone, Copy, Debug)]
pub struct TableHeader {
    /// A 64-bit signature that identifies the type of table that follows.
    pub signature: u64,
    /// The revision of the specification the table conforms to: major in the
    /// upper 16 bits, minor as binary-coded decimal in the lower 16.
    pub revision: u32,
    /// The size, in bytes, of the entire table including this header.
    pub header_size: u32,
    /// The 32-bit CRC of the entire table, computed with this field as zero.
    pub crc32: u32,
    /// Reserved; must be zero.
    pub reserved: u32,
}

impl TableHeader {
    /// Assemble a header; the reserved field is always zero.
    pub fn new(signature: u64, revision: u32, header_size: u32, crc32: u32) -> (r: TableHeader)
        ensures
            r.signature == signature,
            r.revision == revision,
            r.header_size == header_size,
            r.crc32 == crc32,
            r.reserved == 0,
    {
        TableHeader { signature, revision, header_size, crc32, reserved: 0 }
    }
}

/// Firmware-defined globally unique identifier.
#[derive(Clone, Copy, Debug, PartialEq, Eq)]
pub struct Guid {
    /// First group: 32 bits.
    pub d1: u32,
    /// Second group: 16 bits.
    pub d2: u16,
    /// Third group: 16 bits.
    pub d3: u16,
    /// Final groups: 8 bytes.
    pub d4: [u8; 8],
}

impl Guid {
    /// Assemble an identifier from its four groups.
    pub fn new(d1: u32, d2: u16, d3: u16, d4: [u8; 8]) -> (r: Guid)
        ensures
            r.d1 == d1,
            r.d2 == d2,
            r.d3 == d3,
            r.d4@ == d4@,
    {
        Guid { d1, d2, d3, d4 }
    }
}

} // verus!
