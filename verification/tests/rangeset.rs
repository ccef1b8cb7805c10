use kernel::rangeset::{Range, RangeSet, RangeSetError, CAPACITY};

fn range(start: usize, end: usize) -> Range {
    Range::new(start, end).expect("valid range")
}

fn entries(rs: &RangeSet) -> Vec<(usize, usize)> {
    let mut out = Vec::new();
    let mut i = 0;
    while i < rs.len() {
        let r = rs.get(i);
        out.push((r.start(), r.end()));
        i += 1;
    }
    out
}

#[test]
fn range_new_ordered_bounds() {
    let r = range(10, 20);
    assert_eq!(r.start(), 10);
    assert_eq!(r.end(), 20);
    assert!(Range::new(21, 20).is_none());
    let single = range(7, 7);
    assert_eq!(single.start(), 7);
    assert_eq!(single.end(), 7);
}

#[test]
fn range_overlaps_and_adjacency() {
    let a = range(0, 10);
    let b = range(10, 20);
    let c = range(11, 20);
    let d = range(12, 20);
    assert!(a.overlaps(&b));
    assert!(!a.overlaps(&c));
    assert!(!a.overlaps(&d));
    assert!(a.is_adjacent_to(&c));
    assert!(c.is_adjacent_to(&a));
    assert!(!a.is_adjacent_to(&b));
    assert!(!a.is_adjacent_to(&d));
}

#[test]
fn range_contains_and_size() {
    let r = range(5, 9);
    assert!(r.contains(5));
    assert!(r.contains(9));
    assert!(!r.contains(4));
    assert!(!r.contains(10));
    assert_eq!(r.size(), Some(5));
    let whole = range(0, usize::MAX);
    assert_eq!(whole.size(), None);
    let almost = range(1, usize::MAX);
    assert_eq!(almost.size(), Some(usize::MAX));
}

#[test]
fn insert_into_empty() {
    let mut rs = RangeSet::new();
    assert_eq!(rs.len(), 0);
    assert!(rs.insert(range(100, 200)).is_ok());
    assert_eq!(entries(&rs), vec![(100, 200)]);
}

#[test]
fn insert_coalesces_adjacent() {
    // Two adjacent spans become one entry covering both.
    let mut rs = RangeSet::new();
    rs.insert(range(0, 99)).unwrap();
    rs.insert(range(100, 199)).unwrap();
    assert_eq!(entries(&rs), vec![(0, 199)]);
}

#[test]
fn insert_coalesces_overlapping_run() {
    let mut rs = RangeSet::new();
    rs.insert(range(0, 10)).unwrap();
    rs.insert(range(20, 30)).unwrap();
    rs.insert(range(40, 50)).unwrap();
    assert_eq!(rs.len(), 3);
    // Bridges the first two entries and touches the third.
    rs.insert(range(5, 39)).unwrap();
    assert_eq!(entries(&rs), vec![(0, 50)]);
}

#[test]
fn insert_keeps_disjoint_entries_sorted() {
    let mut rs = RangeSet::new();
    rs.insert(range(500, 600)).unwrap();
    rs.insert(range(0, 10)).unwrap();
    rs.insert(range(100, 200)).unwrap();
    assert_eq!(entries(&rs), vec![(0, 10), (100, 200), (500, 600)]);
}

#[test]
fn insert_covered_span_is_no_op() {
    let mut rs = RangeSet::new();
    rs.insert(range(0, 999)).unwrap();
    rs.insert(range(100, 200)).unwrap();
    assert_eq!(entries(&rs), vec![(0, 999)]);
}

#[test]
fn insert_twice_is_idempotent() {
    let mut rs = RangeSet::new();
    rs.insert(range(10, 30)).unwrap();
    rs.insert(range(40, 60)).unwrap();
    let once = entries(&rs);
    rs.insert(range(10, 30)).unwrap();
    assert_eq!(entries(&rs), once);
}

#[test]
fn insert_then_remove_round_trips_to_empty() {
    let mut rs = RangeSet::new();
    rs.insert(range(123, 456)).unwrap();
    rs.remove(range(123, 456)).unwrap();
    assert_eq!(rs.len(), 0);
}

#[test]
fn remove_splits_interior() {
    // Removing a strict interior subset leaves the two remainders.
    let mut rs = RangeSet::new();
    rs.insert(range(0, 999)).unwrap();
    rs.remove(range(200, 299)).unwrap();
    assert_eq!(entries(&rs), vec![(0, 199), (300, 999)]);
}

#[test]
fn remove_trims_edges() {
    let mut rs = RangeSet::new();
    rs.insert(range(100, 200)).unwrap();
    rs.remove(range(100, 149)).unwrap();
    assert_eq!(entries(&rs), vec![(150, 200)]);
    rs.remove(range(180, 200)).unwrap();
    assert_eq!(entries(&rs), vec![(150, 179)]);
}

#[test]
fn remove_with_partial_or_no_overlap_succeeds() {
    let mut rs = RangeSet::new();
    rs.insert(range(100, 200)).unwrap();
    // No overlap at all: well defined, nothing changes.
    rs.remove(range(300, 400)).unwrap();
    assert_eq!(entries(&rs), vec![(100, 200)]);
    // Partial overlap: only the intersecting portion is consumed.
    rs.remove(range(150, 400)).unwrap();
    assert_eq!(entries(&rs), vec![(100, 149)]);
}

#[test]
fn remove_consumes_covered_entries() {
    let mut rs = RangeSet::new();
    rs.insert(range(0, 10)).unwrap();
    rs.insert(range(20, 30)).unwrap();
    rs.insert(range(40, 50)).unwrap();
    rs.remove(range(15, 55)).unwrap();
    assert_eq!(entries(&rs), vec![(0, 10)]);
}

#[test]
fn insert_at_capacity_fails_and_leaves_set_unchanged() {
    // Fill the store with disjoint, non-mergeable entries.
    let mut rs = RangeSet::new();
    for i in 0..CAPACITY {
        rs.insert(range(4 * i, 4 * i + 1)).unwrap();
    }
    assert_eq!(rs.len(), CAPACITY);
    let before = entries(&rs);
    // One further disjoint range cannot be stored.
    let far = 4 * CAPACITY + 100;
    assert_eq!(
        rs.insert(range(far, far + 1)),
        Err(RangeSetError::CapacityExceeded)
    );
    assert_eq!(entries(&rs), before);
    // The set still works: a mergeable insert succeeds, bridging the first two
    // entries into one.
    rs.insert(range(2, 3)).unwrap();
    assert_eq!(rs.len(), CAPACITY - 1);
    assert_eq!(rs.get(0).start(), 0);
    assert_eq!(rs.get(0).end(), 5);
}

#[test]
fn allocate_first_fit_in_ascending_order() {
    // Two free regions; page-sized, page-aligned requests drain them from the
    // lowest address up, then report no suitable range.
    let mut rs = RangeSet::new();
    rs.insert(range(0, 4095)).unwrap();
    rs.insert(range(8192, 12287)).unwrap();
    assert_eq!(rs.allocate(4096, 4096), Ok(Some(0)));
    assert_eq!(rs.allocate(4096, 4096), Ok(Some(8192)));
    assert_eq!(rs.allocate(4096, 4096), Ok(None));
}

#[test]
fn allocate_alignment_boundary() {
    // The only 8-aligned address in [10, 20] is 16, and 16 + 7 = 23 > 20.
    let mut rs = RangeSet::new();
    rs.insert(range(10, 20)).unwrap();
    assert_eq!(rs.allocate(8, 8), Ok(None));
    assert_eq!(entries(&rs), vec![(10, 20)]);
}

#[test]
fn allocate_carves_aligned_region() {
    let mut rs = RangeSet::new();
    rs.insert(range(5, 999)).unwrap();
    // The smallest 8-aligned address at or above 5 is 8.
    assert_eq!(rs.allocate(4, 8), Ok(Some(8)));
    assert_eq!(entries(&rs), vec![(5, 7), (12, 999)]);
}

#[test]
fn allocate_prefers_first_entry_that_fits() {
    let mut rs = RangeSet::new();
    rs.insert(range(0, 3)).unwrap();
    rs.insert(range(100, 131)).unwrap();
    // Too big for the first entry, taken from the second.
    assert_eq!(rs.allocate(16, 1), Ok(Some(100)));
    assert_eq!(entries(&rs), vec![(0, 3), (116, 131)]);
}

#[test]
fn allocate_split_at_capacity_is_distinct_error() {
    // A full store where the only fit would split an entry: the failure is
    // capacity-exceeded, not "no suitable range".
    let mut rs = RangeSet::new();
    for i in 0..CAPACITY {
        rs.insert(range(8 * i + 1, 8 * i + 3)).unwrap();
    }
    assert_eq!(rs.len(), CAPACITY);
    // First fit is entry [1, 3]: the 2-aligned address 2 lies strictly inside.
    assert_eq!(rs.allocate(1, 2), Err(RangeSetError::CapacityExceeded));
    // Untouched, and still serviceable where no split is needed.
    assert_eq!(rs.len(), CAPACITY);
    assert_eq!(rs.allocate(1, 1), Ok(Some(1)));
}

#[test]
fn allocate_from_empty_set() {
    let mut rs = RangeSet::new();
    assert_eq!(rs.allocate(1, 1), Ok(None));
}
