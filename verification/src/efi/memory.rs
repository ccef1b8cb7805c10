//! Memory-related firmware definitions, and the processing that turns the
//! descriptor list reported by the firmware into the initial set of free
//! physical memory.

use vstd::prelude::*;
use crate::rangeset::{Range, RangeSet, RangeSetError, CAPACITY, span, splits};
use crate::rangeset::lemma_range_bounds;

verus! {

/// Errors possibly returned by the memory-map routines.
#[derive(Clone, Copy, Debug, PartialEq, Eq, Structural)]
pub enum Error {
    /// The memory map expected a larger array; the size it asked for.
    WrongMemoryMapSize(usize),
    /// Boot services could not be exited.
    ExitBootSvcFailed,
    /// A byte-range computation wrapped around while building the free memory
    /// map: the map is treated as corrupt.
    MemoryMapOverflow,
}

/// Memory types as the firmware specification defines them.
#[derive(Clone, Copy, Debug, PartialEq, Eq, Structural)]
pub enum MemoryType {
    /// Not usable.
    Reserved,
    /// Code portion of a loaded firmware application.
    LoaderCode,
    /// Data portion of a loaded firmware application.
    LoaderData,
    /// Code portion of a loaded boot-service driver.
    BootServicesCode,
    /// Data portion of a loaded boot-service driver.
    BootServicesData,
    /// Code portion of a loaded runtime driver.
    RuntimeServicesCode,
    /// Data portion of a loaded runtime driver.
    RuntimeServicesData,
    /// Free, unallocated memory.
    ConventionalMemory,
    /// Memory in which errors have been detected.
    UnusableMemory,
    /// Memory holding ACPI tables.
    ACPIReclaimMemory,
    /// Reserved for use by the firmware.
    ACPIMemoryNVS,
    /// Memory-mapped I/O the firmware asks to have mapped for runtime
    /// services.
    MemoryMappedIO,
    /// Memory-mapped I/O port space used to translate memory cycles to I/O
    /// cycles.
    MemoryMappedIOPortSpace,
    /// Address space reserved by the firmware for processor code.
    PalCode,
    /// Like conventional memory, but byte-addressable and non-volatile.
    PersistentMemory,
    /// A memory type this system does not support at all.
    Unsupported,
}

/// The four classes that may be reclaimed once boot services have been
/// exited: boot-service code and data, conventional memory, and persistent
/// memory. Everything else is excluded even where numerically free, because
/// reclaiming it risks colliding with firmware or platform expectations.
pub open spec fn spec_usable(t: MemoryType) -> bool {
    ||| t is BootServicesCode
    ||| t is BootServicesData
    ||| t is ConventionalMemory
    ||| t is PersistentMemory
}

/// The memory type each raw class value stands for.
pub open spec fn spec_memory_type_from(val: int) -> MemoryType {
    if val == 0 {
        MemoryType::Reserved
    } else if val == 1 {
        MemoryType::LoaderCode
    } else if val == 2 {
        MemoryType::LoaderData
    } else if val == 3 {
        MemoryType::BootServicesCode
    } else if val == 4 {
        MemoryType::BootServicesData
    } else if val == 5 {
        MemoryType::RuntimeServicesCode
    } else if val == 6 {
        MemoryType::RuntimeServicesData
    } else if val == 7 {
        MemoryType::ConventionalMemory
    } else if val == 8 {
        MemoryType::UnusableMemory
    } else if val == 9 {
        MemoryType::ACPIReclaimMemory
    } else if val == 10 {
        MemoryType::ACPIMemoryNVS
    } else if val == 11 {
        MemoryType::MemoryMappedIO
    } else if val == 12 {
        MemoryType::MemoryMappedIOPortSpace
    } else if val == 13 {
        MemoryType::PalCode
    } else if val == 14 {
        MemoryType::PersistentMemory
    } else {
        MemoryType::Unsupported
    }
}

impl MemoryType {
    /// Whether this memory type is available for general use after boot
    /// services have been exited.
    pub fn available_post_boot_svc_exit(&self) -> (r: bool)
        ensures
            r == spec_usable(*self),
    {
        match self {
            MemoryType::BootServicesCode
            | MemoryType::BootServicesData
            | MemoryType::PersistentMemory
            | MemoryType::ConventionalMemory => true,
            _ => false,
        }
    }
}

impl From<u32> for MemoryType {
    /// Decode a raw class value.
    fn from(val: u32) -> (r: MemoryType) {
        match val {
            0 => MemoryType::Reserved,
            1 => MemoryType::LoaderCode,
            2 => MemoryType::LoaderData,
            3 => MemoryType::BootServicesCode,
            4 => MemoryType::BootServicesData,
            5 => MemoryType::RuntimeServicesCode,
            6 => MemoryType::RuntimeServicesData,
            7 => MemoryType::ConventionalMemory,
            8 => MemoryType::UnusableMemory,
            9 => MemoryType::ACPIReclaimMemory,
            10 => MemoryType::ACPIMemoryNVS,
            11 => MemoryType::MemoryMappedIO,
            12 => MemoryType::MemoryMappedIOPortSpace,
            13 => MemoryType::PalCode,
            14 => MemoryType::PersistentMemory,
            _ => MemoryType::Unsupported,
        }
    }
}

impl vstd::std_specs::convert::FromSpecImpl<u32> for MemoryType {
    open spec fn obeys_from_spec() -> bool {
        true
    }

    open spec fn from_spec(v: u32) -> MemoryType {
        spec_memory_type_from(v as int)
    }
}

/// One fixed-size record of the firmware's memory map.
#[derive(Clone, Copy, Debug)]
pub struct MemoryDescriptor {
    /// Type of the memory region.
    pub mem_type: MemoryType,
    /// Physical address of the first byte in the memory region.
    pub phys_addr: usize,
    /// Virtual address of the first byte in the memory region.
    pub virt_addr: usize,
    /// Number of 4096-byte pages in the memory region.
    pub n_pages: u64,
    /// Bit mask of the capabilities the region supports — not necessarily its
    /// current settings.
    pub attribute: u64,
}

impl MemoryDescriptor {
    /// A descriptor whose byte map is filled with zeroes.
    pub fn empty() -> (r: MemoryDescriptor)
        ensures
            r.mem_type is Reserved,
            r.phys_addr == 0,
            r.virt_addr == 0,
            r.n_pages == 0,
            r.attribute == 0,
    {
        MemoryDescriptor {
            mem_type: MemoryType::Reserved,
            phys_addr: 0,
            virt_addr: 0,
            n_pages: 0,
            attribute: 0,
        }
    }

    /// Assemble a descriptor from its fields.
    pub fn new(
        mem_type: MemoryType,
        phys_addr: usize,
        virt_addr: usize,
        n_pages: u64,
        attribute: u64,
    ) -> (r: MemoryDescriptor)
        ensures
            r.mem_type == mem_type,
            r.phys_addr == phys_addr,
            r.virt_addr == virt_addr,
            r.n_pages == n_pages,
            r.attribute == attribute,
    {
        MemoryDescriptor { mem_type, phys_addr, virt_addr, n_pages, attribute }
    }
}

/// Last byte address of the region a descriptor describes.
pub open spec fn desc_last(d: MemoryDescriptor) -> int {
    d.phys_addr + d.n_pages * 4096 - 1
}

/// A usable descriptor whose byte-range computation wraps the machine word:
/// the region is empty, or the page count in bytes or the last byte address
/// does not fit. Such a map is treated as corrupt.
pub open spec fn desc_corrupt(d: MemoryDescriptor) -> bool {
    spec_usable(d.mem_type) && (d.n_pages == 0 || d.n_pages * 4096 > usize::MAX || desc_last(d)
        > usize::MAX)
}

/// The byte addresses covered by the usable descriptors of the map.
pub open spec fn map_addrs(s: Seq<MemoryDescriptor>) -> Set<int> {
    Set::new(
        |a: int|
            exists|i: int|
                0 <= i < s.len() && spec_usable((#[trigger] s[i]).mem_type) && s[i].n_pages > 0
                    && s[i].phys_addr <= a <= desc_last(s[i]),
    )
}

/// Extending the map by one descriptor adds exactly its byte range when it is
/// usable and non-empty, and nothing otherwise.
proof fn lemma_map_addrs_step(s: Seq<MemoryDescriptor>, i: int)
    requires
        0 <= i < s.len(),
    ensures
        spec_usable(s[i].mem_type) && s[i].n_pages > 0 ==> map_addrs(s.take(i + 1)) == map_addrs(
            s.take(i),
        ) + span(s[i].phys_addr as int, desc_last(s[i])),
        !(spec_usable(s[i].mem_type) && s[i].n_pages > 0) ==> map_addrs(s.take(i + 1))
            == map_addrs(s.take(i)),
{
    let t = s.take(i + 1);
    let p = s.take(i);
    assert forall|a: int| map_addrs(p).contains(a) implies map_addrs(t).contains(a) by {
        let k = choose|k: int|
            0 <= k < p.len() && spec_usable((#[trigger] p[k]).mem_type) && p[k].n_pages > 0
                && p[k].phys_addr <= a <= desc_last(p[k]);
        assert(t[k] == p[k]);
        assert(spec_usable(t[k].mem_type) && t[k].n_pages > 0 && t[k].phys_addr <= a <= desc_last(
            t[k],
        ));
    }
    if spec_usable(s[i].mem_type) && s[i].n_pages > 0 {
        assert forall|a: int| map_addrs(t).contains(a)
            implies (map_addrs(p) + span(s[i].phys_addr as int, desc_last(s[i]))).contains(a) by {
            let k = choose|k: int|
                0 <= k < t.len() && spec_usable((#[trigger] t[k]).mem_type) && t[k].n_pages > 0
                    && t[k].phys_addr <= a <= desc_last(t[k]);
            if k < i {
                assert(p[k] == t[k]);
                assert(spec_usable(p[k].mem_type) && p[k].n_pages > 0 && p[k].phys_addr <= a
                    <= desc_last(p[k]));
            }
        }
        assert(span(s[i].phys_addr as int, desc_last(s[i])) <= map_addrs(t)) by {
            assert forall|a: int| span(s[i].phys_addr as int, desc_last(s[i])).contains(a)
                implies map_addrs(t).contains(a) by {
                assert(t[i] == s[i]);
                assert(spec_usable(t[i].mem_type) && t[i].n_pages > 0 && t[i].phys_addr <= a
                    <= desc_last(t[i]));
            }
        }
        assert(map_addrs(t) =~= map_addrs(p) + span(s[i].phys_addr as int, desc_last(s[i])));
    } else {
        assert forall|a: int| map_addrs(t).contains(a) implies map_addrs(p).contains(a) by {
            let k = choose|k: int|
                0 <= k < t.len() && spec_usable((#[trigger] t[k]).mem_type) && t[k].n_pages > 0
                    && t[k].phys_addr <= a <= desc_last(t[k]);
            assert(k != i);
            assert(p[k] == t[k]);
            assert(spec_usable(p[k].mem_type) && p[k].n_pages > 0 && p[k].phys_addr <= a
                <= desc_last(p[k]));
        }
        assert(map_addrs(t) =~= map_addrs(p));
    }
}

/// Build the initial free set from the firmware's memory map: keep only the
/// descriptor classes that are safely reusable after boot services exit, turn
/// each retained descriptor's pages into an inclusive byte range with
/// overflow-checked arithmetic — a wraparound means a corrupt map and fails
/// the whole build — insert every range, and withhold address zero from the
/// result so an allocation can never hand out the null address.
#[verifier::loop_isolation(false)]
#[verifier::rlimit(100)]
pub fn free_memory_from_map(descriptors: &Vec<MemoryDescriptor>) -> (res: Result<RangeSet, Error>)
    requires
        descriptors@.len() <= CAPACITY,
    ensures
        res matches Ok(rs) ==> rs.wf() && rs.addrs() == map_addrs(descriptors@) - span(0, 0)
            && !rs.addrs().contains(0),
        res is Ok <==> (forall|i: int| 0 <= i < descriptors@.len()
            ==> !desc_corrupt(#[trigger] descriptors@[i])),
        res is Err ==> res == Err::<RangeSet, Error>(Error::MemoryMapOverflow),
{
    let ghost ds = descriptors@;
    let mut rs = RangeSet::new();
    let n = descriptors.len();
    let mut i: usize = 0;
    proof {
        assert(map_addrs(ds.take(0)) =~= Set::<int>::empty());
        assert(rs.addrs() =~= map_addrs(ds.take(0)));
    }
    while i < n
        invariant
            0 <= i <= n,
            rs.wf(),
            rs@.len() <= i,
            rs.addrs() == map_addrs(ds.take(i as int)),
            forall|k: int| 0 <= k < i ==> !desc_corrupt(#[trigger] ds[k]),
        decreases n - i,
    {
        let d = descriptors[i];
        if d.mem_type.available_post_boot_svc_exit() {
            // Compute the region's inclusive byte range; any wraparound means
            // the map cannot be trusted.
            if d.n_pages == 0 {
                return Err(Error::MemoryMapOverflow);
            }
            if d.n_pages > usize::MAX as u64 {
                proof {
                    assert(d.n_pages * 4096 > usize::MAX) by (nonlinear_arith)
                        requires d.n_pages > usize::MAX as u64;
                }
                return Err(Error::MemoryMapOverflow);
            }
            let pages = d.n_pages as usize;
            let offset = match pages.checked_mul(4096) {
                None => {
                    return Err(Error::MemoryMapOverflow);
                },
                Some(o) => o,
            };
            let end = match d.phys_addr.checked_add(offset - 1) {
                None => {
                    return Err(Error::MemoryMapOverflow);
                },
                Some(e) => e,
            };
            match Range::new(d.phys_addr, end) {
                None => {
                    proof {
                        assert(false);
                    }
                    return Err(Error::MemoryMapOverflow);
                },
                Some(r) => {
                    match rs.insert(r) {
                        Ok(()) => {},
                        Err(RangeSetError::CapacityExceeded) => {
                            // Fewer ranges than descriptors can never exhaust a
                            // store as large as the descriptor list.
                            proof {
                                assert(false);
                            }
                        },
                    }
                },
            }
        }
        proof {
            lemma_map_addrs_step(ds, i as int);
        }
        i += 1;
    }
    proof {
        assert(ds.take(n as int) =~= ds);
    }
    // Withhold the null address so no allocation can ever return it.
    match Range::new(0, 0) {
        None => {
            proof {
                assert(false);
            }
            Err(Error::MemoryMapOverflow)
        },
        Some(z) => {
            let ghost before = rs;
            match rs.remove(z) {
                Ok(()) => {},
                Err(RangeSetError::CapacityExceeded) => {
                    // No entry can start below address zero, so removing the
                    // null address never splits an entry.
                    proof {
                        let j = choose|j: int|
                            0 <= j < before@.len() && splits(#[trigger] before@[j], z);
                        lemma_range_bounds(before@[j]);
                        assert(false);
                    }
                },
            }
            proof {
                assert(!rs.addrs().contains(0));
            }
            Ok(rs)
        },
    }
}

} // verus!
