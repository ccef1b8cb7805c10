//! The physical allocator facade: a shared cell, guarded by the ticket lock,
//! holding either "uninitialized" or the range set of free physical memory.
//! It is created uninitialized, installed exactly once by `init`, and serves
//! every later `allocate` / `deallocate` call by delegating to the range set
//! under the lock — exactly one range-set call per acquisition.

use vstd::prelude::*;
use crate::rangeset::{Range, RangeSet, RangeSetError, CAPACITY};
use crate::rangeset::{first_fit_entry, is_pow2, span, spec_align_up, touches_span};
use crate::spinlock::SpinLock;

verus! {

/// All physical memory available for use after boot: the explicit,
/// explicitly-initialized shared resource owned by the entry sequence.
pub struct FreeMemory {
    cell: SpinLock<Option<RangeSet>>,
}

impl FreeMemory {
    /// The guarding cell.
    pub closed spec fn spec_cell(self) -> SpinLock<Option<RangeSet>> {
        self.cell
    }

    /// Whether a range set has been installed.
    pub open spec fn is_init(self) -> bool {
        self.spec_cell().spec_val() is Some
    }

    /// The installed range set.
    pub open spec fn mem(self) -> RangeSet {
        self.spec_cell().spec_val()->Some_0
    }

    /// The lock is at rest between calls and whatever is installed is a valid
    /// range set.
    pub open spec fn wf(self) -> bool {
        &&& self.spec_cell().wf()
        &&& self.spec_cell().is_released()
        &&& (self.is_init() ==> self.mem().wf())
    }

    /// The uninitialized state every process starts from.
    pub fn new() -> (r: FreeMemory)
        ensures
            r.wf(),
            !r.is_init(),
            r.spec_cell().spec_ticket() == 0,
    {
        FreeMemory { cell: SpinLock::new(None) }
    }
}

/// Install `memory` as the free-memory backlog. The installation happens
/// exactly once: when the cell already holds a set, the call is a silent
/// no-op, tolerating defensive double-initialization without corrupting
/// state.
pub fn init(mm: &mut FreeMemory, memory: RangeSet)
    requires
        old(mm).wf(),
        memory.wf(),
        old(mm).spec_cell().spec_ticket() < u64::MAX,
    ensures
        final(mm).wf(),
        final(mm).is_init(),
        old(mm).is_init() ==> final(mm).mem() == old(mm).mem(),
        !old(mm).is_init() ==> final(mm).mem() == memory,
        final(mm).spec_cell().spec_ticket() == old(mm).spec_cell().spec_ticket() + 1,
{
    let guard = mm.cell.lock();
    let already = mm.cell.borrow(&guard).is_some();
    if !already {
        let _ = mm.cell.replace(&guard, Some(memory));
    }
    mm.cell.release(guard);
}

/// Allocate `size` addresses aligned to `align` out of the shared free
/// memory; the first address of the carved region is returned. Zero — never a
/// valid grant after boot processing withholds it — reports failure: the cell
/// is uninitialized, no free region suits, or the range set's store would
/// overflow. Failure is never loud here; escalating is the caller's policy.
pub fn allocate(mm: &mut FreeMemory, size: usize, align: usize) -> (addr: usize)
    requires
        old(mm).wf(),
        size >= 1,
        is_pow2(align as int),
        old(mm).spec_cell().spec_ticket() < u64::MAX,
    ensures
        final(mm).wf(),
        final(mm).is_init() == old(mm).is_init(),
        final(mm).spec_cell().spec_ticket() == old(mm).spec_cell().spec_ticket() + 1,
        !old(mm).is_init() ==> addr == 0,
        old(mm).is_init() ==> ({
            let s = old(mm).mem();
            &&& first_fit_entry(s@, size as int, align as int) is None
                ==> addr == 0 && final(mm).mem() == s
            &&& first_fit_entry(s@, size as int, align as int) matches Some(e) ==> ({
                let a = spec_align_up(e.spec_start(), align as int);
                if s@.len() == CAPACITY && e.spec_start() < a && a + size - 1 < e.spec_end() {
                    addr == 0 && final(mm).mem() == s
                } else {
                    addr == a && a % (align as int) == 0
                        && span(a, a + size - 1) <= s.addrs()
                        && final(mm).mem().addrs() == s.addrs() - span(a, a + size - 1)
                        && final(mm).mem().wf()
                }
            })
        }),
{
    let guard = mm.cell.lock();
    let held = mm.cell.replace(&guard, None);
    let addr: usize = match held {
        None => {
            let _ = mm.cell.replace(&guard, None);
            0
        },
        Some(mut rs) => {
            let ghost s = rs;
            let got = rs.allocate(size, align);
            proof {
                // The granted address is the aligned start of the fit entry,
                // which lies within the entry, so it fits the machine word.
                if first_fit_entry(s@, size as int, align as int) is Some {
                    let e = first_fit_entry(s@, size as int, align as int)->Some_0;
                    crate::rangeset::lemma_first_fit_fits(s@, size as int, align as int);
                    crate::rangeset::lemma_align_up(e.spec_start(), align as int);
                }
            }
            let a = match got {
                Ok(Some(a)) => a,
                Ok(None) => 0,
                Err(RangeSetError::CapacityExceeded) => 0,
            };
            let _ = mm.cell.replace(&guard, Some(rs));
            a
        },
    };
    mm.cell.release(guard);
    addr
}

/// Return the region `[ptr, ptr + size - 1]` to the shared free memory,
/// merging it with whatever it touches. Freeing before initialization, or
/// overflowing the fixed store, has no recovery: no code path may free memory
/// that early, and silently dropping the range would leak it for good — so
/// both are ruled out up front rather than handled.
pub fn deallocate(mm: &mut FreeMemory, ptr: usize, size: usize)
    requires
        old(mm).wf(),
        old(mm).is_init(),
        size >= 1,
        ptr + size - 1 <= usize::MAX,
        !(old(mm).mem()@.len() == CAPACITY
            && (forall|i: int| 0 <= i < old(mm).mem()@.len()
                ==> !touches_span(#[trigger] old(mm).mem()@[i], ptr as int, ptr + size - 1))),
        old(mm).spec_cell().spec_ticket() < u64::MAX,
    ensures
        final(mm).wf(),
        final(mm).is_init(),
        final(mm).spec_cell().spec_ticket() == old(mm).spec_cell().spec_ticket() + 1,
        final(mm).mem().addrs() == old(mm).mem().addrs() + span(ptr as int, ptr + size - 1),
{
    let guard = mm.cell.lock();
    let held = mm.cell.replace(&guard, None);
    match held {
        None => {
            proof {
                assert(false);
            }
        },
        Some(mut rs) => {
            let end = ptr + (size - 1);
            match Range::new(ptr, end) {
                None => {
                    proof {
                        assert(false);
                    }
                },
                Some(r) => {
                    match rs.insert(r) {
                        Ok(()) => {},
                        Err(RangeSetError::CapacityExceeded) => {
                            proof {
                                assert(false);
                            }
                        },
                    }
                },
            }
            let _ = mm.cell.replace(&guard, Some(rs));
        },
    };
    mm.cell.release(guard);
}

} // verus!
