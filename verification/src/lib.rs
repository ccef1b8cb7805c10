//! Boot-time physical memory management: a capacity-bounded range set that
//! tracks free physical memory, a ticket lock that guards it, the facade that
//! serves allocate/deallocate requests, and the pure parts of the firmware
//! memory-map processing that builds the initial free set.

pub mod rangeset;
pub mod spinlock;
pub mod mm;
pub mod efi;
