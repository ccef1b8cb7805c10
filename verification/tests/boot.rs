use kernel::efi::memory::{free_memory_from_map, Error, MemoryDescriptor, MemoryType};
use kernel::efi::status::{Error as StatusError, Status, Warning, SIGN_BIT};
use kernel::efi::efi::{Guid, TableHeader};
use kernel::mm::{allocate, deallocate, init, FreeMemory};
use kernel::rangeset::{Range, RangeSet};
use kernel::spinlock::SpinLock;

fn desc(mem_type: MemoryType, phys_addr: usize, n_pages: u64) -> MemoryDescriptor {
    MemoryDescriptor::new(mem_type, phys_addr, 0, n_pages, 0)
}

fn set_entries(rs: &RangeSet) -> Vec<(usize, usize)> {
    let mut out = Vec::new();
    let mut i = 0;
    while i < rs.len() {
        let r = rs.get(i);
        out.push((r.start(), r.end()));
        i += 1;
    }
    out
}

#[test]
fn memory_types_usable_after_exit() {
    assert!(MemoryType::BootServicesCode.available_post_boot_svc_exit());
    assert!(MemoryType::BootServicesData.available_post_boot_svc_exit());
    assert!(MemoryType::ConventionalMemory.available_post_boot_svc_exit());
    assert!(MemoryType::PersistentMemory.available_post_boot_svc_exit());
    assert!(!MemoryType::Reserved.available_post_boot_svc_exit());
    assert!(!MemoryType::LoaderCode.available_post_boot_svc_exit());
    assert!(!MemoryType::LoaderData.available_post_boot_svc_exit());
    assert!(!MemoryType::RuntimeServicesCode.available_post_boot_svc_exit());
    assert!(!MemoryType::RuntimeServicesData.available_post_boot_svc_exit());
    assert!(!MemoryType::UnusableMemory.available_post_boot_svc_exit());
    assert!(!MemoryType::ACPIReclaimMemory.available_post_boot_svc_exit());
    assert!(!MemoryType::ACPIMemoryNVS.available_post_boot_svc_exit());
    assert!(!MemoryType::MemoryMappedIO.available_post_boot_svc_exit());
    assert!(!MemoryType::MemoryMappedIOPortSpace.available_post_boot_svc_exit());
    assert!(!MemoryType::PalCode.available_post_boot_svc_exit());
    assert!(!MemoryType::Unsupported.available_post_boot_svc_exit());
}

#[test]
fn memory_type_decodes_raw_class() {
    assert_eq!(MemoryType::from(0u32), MemoryType::Reserved);
    assert_eq!(MemoryType::from(3u32), MemoryType::BootServicesCode);
    assert_eq!(MemoryType::from(7u32), MemoryType::ConventionalMemory);
    assert_eq!(MemoryType::from(14u32), MemoryType::PersistentMemory);
    assert_eq!(MemoryType::from(15u32), MemoryType::Unsupported);
    assert_eq!(MemoryType::from(999u32), MemoryType::Unsupported);
}

#[test]
fn status_decodes_by_sign_bit() {
    assert_eq!(Status::from(0usize), Status::Success);
    assert_eq!(Status::from(1usize), Status::Warning(Warning::UnknownGlyph));
    assert_eq!(Status::from(5usize), Status::Warning(Warning::StaleData));
    assert_eq!(Status::from(8usize), Status::Warning(Warning::Undefined));
    assert_eq!(Status::from(SIGN_BIT + 1), Status::Error(StatusError::LoadError));
    assert_eq!(
        Status::from(SIGN_BIT + 2),
        Status::Error(StatusError::InvalidParameter)
    );
    assert_eq!(Status::from(SIGN_BIT + 9), Status::Error(StatusError::OutOfResources));
    assert_eq!(Status::from(SIGN_BIT + 31), Status::Error(StatusError::EndOfFile));
    // The gap between the end-of-media and end-of-file codes is undefined.
    assert_eq!(Status::from(SIGN_BIT + 29), Status::Error(StatusError::Undefined));
    assert_eq!(Status::from(usize::MAX), Status::Error(StatusError::Undefined));
}

#[test]
fn table_records_hold_their_fields() {
    let g = Guid::new(0x12345678, 0xabcd, 0xef01, [1, 2, 3, 4, 5, 6, 7, 8]);
    assert_eq!(g.d1, 0x12345678);
    assert_eq!(g.d2, 0xabcd);
    assert_eq!(g.d3, 0xef01);
    assert_eq!(g.d4, [1, 2, 3, 4, 5, 6, 7, 8]);
    let h = TableHeader::new(0x5453595320494249, 2 << 16 | 30, 120, 0xdeadbeef);
    assert_eq!(h.signature, 0x5453595320494249);
    assert_eq!(h.revision, 2 << 16 | 30);
    assert_eq!(h.header_size, 120);
    assert_eq!(h.crc32, 0xdeadbeef);
    let d = MemoryDescriptor::empty();
    assert_eq!(d.phys_addr, 0);
    assert_eq!(d.virt_addr, 0);
    assert_eq!(d.n_pages, 0);
}

#[test]
fn map_filters_to_usable_classes() {
    let descriptors = vec![
        desc(MemoryType::LoaderCode, 0x1000, 1),
        desc(MemoryType::ConventionalMemory, 0x10000, 2),
        desc(MemoryType::Reserved, 0x20000, 4),
        desc(MemoryType::BootServicesData, 0x30000, 1),
        desc(MemoryType::MemoryMappedIO, 0x40000, 1),
    ];
    let rs = free_memory_from_map(&descriptors).unwrap();
    assert_eq!(
        set_entries(&rs),
        vec![(0x10000, 0x11fff), (0x30000, 0x30fff)]
    );
}

#[test]
fn map_merges_touching_descriptors() {
    let descriptors = vec![
        desc(MemoryType::ConventionalMemory, 0x1000, 1),
        desc(MemoryType::BootServicesCode, 0x2000, 1),
    ];
    let rs = free_memory_from_map(&descriptors).unwrap();
    assert_eq!(set_entries(&rs), vec![(0x1000, 0x2fff)]);
}

#[test]
fn map_withholds_address_zero() {
    let descriptors = vec![desc(MemoryType::ConventionalMemory, 0, 1)];
    let mut rs = free_memory_from_map(&descriptors).unwrap();
    assert_eq!(set_entries(&rs), vec![(1, 0xfff)]);
    // An allocation out of that memory never returns the null address.
    assert_eq!(rs.allocate(1, 1), Ok(Some(1)));
}

#[test]
fn map_wraparound_is_fatal() {
    // The last byte address of this region does not fit the machine word.
    let descriptors = vec![desc(MemoryType::ConventionalMemory, usize::MAX - 0xfff, 2)];
    assert!(matches!(
        free_memory_from_map(&descriptors),
        Err(Error::MemoryMapOverflow)
    ));
    // An empty usable region is a corrupt map too.
    let zero_pages = vec![desc(MemoryType::BootServicesData, 0x1000, 0)];
    assert!(matches!(
        free_memory_from_map(&zero_pages),
        Err(Error::MemoryMapOverflow)
    ));
    // A non-usable descriptor may be corrupt without failing the build.
    let ignored = vec![desc(MemoryType::Reserved, usize::MAX, 99)];
    assert!(free_memory_from_map(&ignored).is_ok());
}

#[test]
fn facade_allocates_and_frees_under_the_lock() {
    let mut mm = FreeMemory::new();
    let mut rs = RangeSet::new();
    rs.insert(Range::new(0x1000, 0x1fff).unwrap()).unwrap();
    init(&mut mm, rs);
    let a = allocate(&mut mm, 0x100, 0x10);
    assert_eq!(a, 0x1000);
    let b = allocate(&mut mm, 0x100, 0x10);
    assert_eq!(b, 0x1100);
    deallocate(&mut mm, a, 0x100);
    // The freed low region is reused first.
    assert_eq!(allocate(&mut mm, 0x100, 0x10), 0x1000);
}

#[test]
fn facade_deallocate_merges_freed_regions() {
    let mut mm = FreeMemory::new();
    let mut rs = RangeSet::new();
    rs.insert(Range::new(0x1000, 0x13ff).unwrap()).unwrap();
    init(&mut mm, rs);
    let a = allocate(&mut mm, 0x200, 0x10);
    let b = allocate(&mut mm, 0x200, 0x10);
    assert_eq!(a, 0x1000);
    assert_eq!(b, 0x1200);
    // Nothing is left, then both halves come back and coalesce into the
    // original region, so a full-size request succeeds again.
    assert_eq!(allocate(&mut mm, 0x400, 0x10), 0);
    deallocate(&mut mm, b, 0x200);
    deallocate(&mut mm, a, 0x200);
    assert_eq!(allocate(&mut mm, 0x400, 0x10), 0x1000);
}

#[test]
fn facade_allocate_before_init_returns_null() {
    let mut mm = FreeMemory::new();
    assert_eq!(allocate(&mut mm, 16, 8), 0);
}

#[test]
fn facade_allocate_no_fit_returns_null() {
    let mut mm = FreeMemory::new();
    let mut rs = RangeSet::new();
    rs.insert(Range::new(10, 20).unwrap()).unwrap();
    init(&mut mm, rs);
    assert_eq!(allocate(&mut mm, 8, 8), 0);
}

#[test]
fn facade_init_is_idempotent() {
    let mut mm = FreeMemory::new();
    let mut first = RangeSet::new();
    first.insert(Range::new(0x1000, 0x1fff).unwrap()).unwrap();
    init(&mut mm, first);
    // A second installation is a silent no-op: the first backlog remains.
    let mut second = RangeSet::new();
    second.insert(Range::new(0x8000, 0x8fff).unwrap()).unwrap();
    init(&mut mm, second);
    assert_eq!(allocate(&mut mm, 0x10, 1), 0x1000);
}

#[test]
fn spinlock_guards_a_value() {
    let mut lock = SpinLock::new(41i32);
    let g = lock.lock();
    assert_eq!(*lock.borrow(&g), 41);
    let prev = lock.replace(&g, 42);
    assert_eq!(prev, 41);
    assert_eq!(*lock.borrow(&g), 42);
    lock.release(g);
    let g2 = lock.lock();
    assert_eq!(*lock.borrow(&g2), 42);
    lock.release(g2);
}

#[test]
fn spinlock_tickets_are_granted_in_arrival_order() {
    // Each acquisition draws the next ticket, and a ticket is served only
    // after every earlier ticket has been released.
    let mut lock = SpinLock::new(());
    let g0 = lock.lock();
    assert_eq!(g0.ticket(), 0);
    lock.release(g0);
    let g1 = lock.lock();
    assert_eq!(g1.ticket(), 1);
    lock.release(g1);
    let g2 = lock.lock();
    assert_eq!(g2.ticket(), 2);
    lock.release(g2);
}
