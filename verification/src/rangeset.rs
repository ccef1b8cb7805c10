//! A capacity-bounded set of inclusive physical-address ranges.
//!
//! The set is kept as a sequence of ranges sorted ascending by start, pairwise
//! disjoint and pairwise non-adjacent (touching spans are always coalesced into
//! one entry). It represents the memory that is currently free, and backs the
//! physical allocator: `insert` marks a span free (merging), `remove` marks a
//! span used (splitting), and `allocate` carves an aligned region out of the
//! first entry that can hold it.

use vstd::prelude::*;

verus! {

/// Upper bound on the number of entries a `RangeSet` can track. The backing
/// store never grows: once this many disjoint, non-mergeable entries exist,
/// further fragmentation is reported as `CapacityExceeded`.
pub const CAPACITY: usize = 4096;

/// The set of addresses from `lo` to `hi`, both included.
pub open spec fn span(lo: int, hi: int) -> Set<int> {
    Set::new(|a: int| lo <= a <= hi)
}

/// One inclusive, contiguous span of physical byte addresses.
/// Valid ranges always have `start <= end`, so a range is never empty.
#[derive(Clone, Copy, Debug, PartialEq, Eq, Structural)]
pub struct Range {
    start: usize,
    end: usize,
}

impl Range {
    /// First address of the span.
    pub closed spec fn spec_start(self) -> int {
        self.start as int
    }

    /// Last address of the span (inclusive).
    pub closed spec fn spec_end(self) -> int {
        self.end as int
    }

    /// A range is well formed when its bounds are ordered.
    pub open spec fn wf(self) -> bool {
        self.spec_start() <= self.spec_end()
    }

    /// The set of addresses the span covers.
    pub open spec fn addrs(self) -> Set<int> {
        span(self.spec_start(), self.spec_end())
    }

    /// Construct a range; yields nothing when `start > end`.
    pub fn new(start: usize, end: usize) -> (r: Option<Range>)
        ensures
            start <= end ==> (r matches Some(rg)
                && rg.spec_start() == start
                && rg.spec_end() == end),
            start > end ==> r is None,
    {
        if start <= end {
            Some(Range { start, end })
        } else {
            None
        }
    }

    /// First address of the span.
    pub fn start(&self) -> (s: usize)
        ensures
            s == self.spec_start(),
    {
        self.start
    }

    /// Last address of the span (inclusive).
    pub fn end(&self) -> (e: usize)
        ensures
            e == self.spec_end(),
    {
        self.end
    }

    /// Whether the two spans share at least one address.
    pub fn overlaps(&self, other: &Range) -> (r: bool)
        requires
            self.wf(),
            other.wf(),
        ensures
            r == !self.addrs().disjoint(other.addrs()),
    {
        let r = self.start <= other.end && other.start <= self.end;
        proof {
            if r {
                let w = if self.spec_start() >= other.spec_start() {
                    self.spec_start()
                } else {
                    other.spec_start()
                };
                assert(self.addrs().contains(w) && other.addrs().contains(w));
            }
        }
        r
    }

    /// Whether exactly one unit separates the two spans: they do not overlap,
    /// but no address lies between them either.
    pub fn is_adjacent_to(&self, other: &Range) -> (r: bool)
        ensures
            r == (self.spec_end() + 1 == other.spec_start()
                || other.spec_end() + 1 == self.spec_start()),
    {
        (self.end < usize::MAX && self.end + 1 == other.start)
            || (other.end < usize::MAX && other.end + 1 == self.start)
    }

    /// Whether `addr` lies within the span.
    pub fn contains(&self, addr: usize) -> (r: bool)
        ensures
            r == self.addrs().contains(addr as int),
    {
        self.start <= addr && addr <= self.end
    }

    /// Number of addresses in the span; `None` when the count does not fit in
    /// `usize` (the span covering all of memory).
    pub fn size(&self) -> (s: Option<usize>)
        requires
            self.wf(),
        ensures
            self.spec_end() - self.spec_start() + 1 <= usize::MAX
                ==> s == Some((self.spec_end() - self.spec_start() + 1) as usize),
            self.spec_end() - self.spec_start() + 1 > usize::MAX ==> s is None,
    {
        (self.end - self.start).checked_add(1)
    }
}

/// Overlapping or exactly adjacent: the two spans can be coalesced into one.
pub open spec fn touches(a: Range, b: Range) -> bool {
    a.spec_start() <= b.spec_end() + 1 && b.spec_start() <= a.spec_end() + 1
}

/// `touches`, stated from the bounds of a span rather than a built range: the
/// entry overlaps or is directly adjacent to the addresses from `lo` to `hi`.
pub open spec fn touches_span(e: Range, lo: int, hi: int) -> bool {
    lo <= e.spec_end() + 1 && e.spec_start() <= hi + 1
}

/// The well-formedness of the entry sequence: every entry ordered, and each
/// entry separated from the next by at least one non-free address (sorted,
/// disjoint, non-adjacent).
pub open spec fn wf_seq(s: Seq<Range>) -> bool {
    &&& forall|i: int| 0 <= i < s.len() ==> (#[trigger] s[i]).wf()
    &&& forall|i: int| 0 <= i < s.len() - 1 ==> (#[trigger] s[i]).spec_end() + 1 < s[i + 1].spec_start()
}

/// The set of addresses covered by any entry of the sequence.
pub open spec fn seq_addrs(s: Seq<Range>) -> Set<int> {
    Set::new(|a: int| exists|i: int| 0 <= i < s.len() && (#[trigger] s[i]).addrs().contains(a))
}

/// In a well-formed sequence every entry ends strictly more than one address
/// before any later entry starts, not only its immediate successor.
pub proof fn lemma_wf_seq_ordered(s: Seq<Range>)
    requires
        wf_seq(s),
    ensures
        forall|i: int, j: int|
            0 <= i < j < s.len() ==> (#[trigger] s[i]).spec_end() + 1 < (#[trigger] s[j]).spec_start(),
{
    assert forall|i: int, j: int| 0 <= i < j < s.len()
        implies (#[trigger] s[i]).spec_end() + 1 < (#[trigger] s[j]).spec_start() by {
        lemma_wf_seq_ordered_pair(s, i, j);
    }
}

proof fn lemma_wf_seq_ordered_pair(s: Seq<Range>, i: int, j: int)
    requires
        wf_seq(s),
        0 <= i < j < s.len(),
    ensures
        s[i].spec_end() + 1 < s[j].spec_start(),
    decreases j - i,
{
    if j == i + 1 {
    } else {
        lemma_wf_seq_ordered_pair(s, i, j - 1);
    }
}

proof fn lemma_seq_addrs_empty()
    ensures
        seq_addrs(Seq::<Range>::empty()) == Set::<int>::empty(),
{
    assert(seq_addrs(Seq::<Range>::empty()) =~= Set::<int>::empty());
}

proof fn lemma_seq_addrs_push(s: Seq<Range>, r: Range)
    ensures
        seq_addrs(s.push(r)) == seq_addrs(s) + r.addrs(),
{
    let t = s.push(r);
    assert forall|a: int| seq_addrs(t).contains(a)
        implies (seq_addrs(s) + r.addrs()).contains(a) by {
        let i = choose|i: int| 0 <= i < t.len() && (#[trigger] t[i]).addrs().contains(a);
        if i < s.len() {
            assert(s[i].addrs().contains(a));
        } else {
            assert(t[i] == r);
        }
    }
    assert forall|a: int| (seq_addrs(s) + r.addrs()).contains(a)
        implies seq_addrs(t).contains(a) by {
        if seq_addrs(s).contains(a) {
            let i = choose|i: int| 0 <= i < s.len() && (#[trigger] s[i]).addrs().contains(a);
            assert(t[i].addrs().contains(a));
        } else {
            assert(t[s.len() as int].addrs().contains(a));
        }
    }
    assert(seq_addrs(t) =~= seq_addrs(s) + r.addrs());
}

proof fn lemma_seq_addrs_concat(x: Seq<Range>, y: Seq<Range>)
    ensures
        seq_addrs(x + y) == seq_addrs(x) + seq_addrs(y),
    decreases y.len(),
{
    if y.len() == 0 {
        assert(x + y =~= x);
        lemma_seq_addrs_empty();
        assert(seq_addrs(x) + seq_addrs(Seq::<Range>::empty()) =~= seq_addrs(x));
        assert(seq_addrs(y) =~= Set::<int>::empty());
        assert(seq_addrs(x) + seq_addrs(y) =~= seq_addrs(x));
    } else {
        let y0 = y.drop_last();
        let r = y.last();
        lemma_seq_addrs_concat(x, y0);
        lemma_seq_addrs_push(x + y0, r);
        lemma_seq_addrs_push(y0, r);
        assert(y0.push(r) =~= y);
        assert((x + y0).push(r) =~= x + y);
        assert(seq_addrs(x) + (seq_addrs(y0) + r.addrs())
            =~= (seq_addrs(x) + seq_addrs(y0)) + r.addrs());
    }
}

/// Every range's bounds fit the machine word: its addresses are never
/// negative and never beyond the largest address.
pub proof fn lemma_range_bounds(r: Range)
    ensures
        0 <= r.spec_start(),
        r.spec_end() <= usize::MAX,
{
}

/// Coalescing two touching spans covers exactly the union of their addresses:
/// the span from the smaller start to the larger end contains no address that
/// lies outside both.
proof fn lemma_touching_union(a: Range, b: Range, c: Range)
    requires
        a.wf(),
        b.wf(),
        touches(a, b),
        c.spec_start() == if a.spec_start() <= b.spec_start() {
            a.spec_start()
        } else {
            b.spec_start()
        },
        c.spec_end() == if a.spec_end() >= b.spec_end() {
            a.spec_end()
        } else {
            b.spec_end()
        },
    ensures
        c.addrs() == a.addrs() + b.addrs(),
{
    assert(c.addrs() =~= a.addrs() + b.addrs());
}

/// Reported when the backing store is already full and an operation would need
/// one more entry than it can hold. This always means the bookkeeping is full,
/// never that physical memory is exhausted.
#[derive(Clone, Copy, Debug, PartialEq, Eq, Structural)]
pub enum RangeSetError {
    /// The fixed entry store cannot take one more entry.
    CapacityExceeded,
}

/// A capacity-bounded, sorted collection of disjoint, non-adjacent address
/// ranges: the memory currently free and allocatable.
pub struct RangeSet {
    ranges: Vec<Range>,
}

impl View for RangeSet {
    type V = Seq<Range>;

    closed spec fn view(&self) -> Seq<Range> {
        self.ranges@
    }
}

impl RangeSet {
    /// The invariant every mutation maintains: entries sorted ascending by
    /// start, pairwise non-overlapping, pairwise non-adjacent, and no more of
    /// them than the fixed capacity.
    pub open spec fn wf(self) -> bool {
        wf_seq(self@) && self@.len() <= CAPACITY
    }

    /// The set of addresses the entries cover: the memory currently free.
    pub open spec fn addrs(self) -> Set<int> {
        seq_addrs(self@)
    }

    /// An empty set: nothing is free.
    pub fn new() -> (r: RangeSet)
        ensures
            r.wf(),
            r@.len() == 0,
            r.addrs() == Set::<int>::empty(),
    {
        let r = RangeSet { ranges: Vec::new() };
        proof {
            lemma_seq_addrs_empty();
        }
        r
    }

    /// Number of entries currently tracked.
    pub fn len(&self) -> (n: usize)
        ensures
            n == self@.len(),
    {
        self.ranges.len()
    }

    /// The entry at position `i`, in ascending-start order.
    pub fn get(&self, i: usize) -> (r: Range)
        requires
            i < self@.len(),
        ensures
            r == self@[i as int],
    {
        self.ranges[i]
    }
}

impl RangeSet {
    /// Mark `r` free. Every entry that overlaps or is adjacent to `r` is
    /// coalesced with it into one entry spanning the union; afterwards the set
    /// covers exactly the old addresses plus those of `r`. Inserting a span
    /// already fully covered changes nothing. The operation fails, leaving the
    /// set untouched, exactly when the store is full and `r` merges with no
    /// existing entry.
    #[verifier::loop_isolation(false)]
    #[verifier::rlimit(100)]
    pub fn insert(&mut self, r: Range) -> (res: Result<(), RangeSetError>)
        requires
            old(self).wf(),
            r.wf(),
        ensures
            final(self).wf(),
            res is Ok ==> final(self).addrs() == old(self).addrs() + r.addrs(),
            res is Ok ==> final(self)@.len() <= old(self)@.len() + 1,
            res is Err ==> *final(self) == *old(self),
            res is Err <==> (old(self)@.len() == CAPACITY
                && (forall|i: int| 0 <= i < old(self)@.len()
                    ==> !touches(r, #[trigger] old(self)@[i]))),
    {
        let ghost s0 = self.ranges@;
        proof {
            lemma_wf_seq_ordered(s0);
        }
        let n = self.ranges.len();
        let mut out: Vec<Range> = Vec::new();
        let mut i: usize = 0;

        // Entries that end with a gap before `r` starts: kept unchanged.
        while i < n && gap_before(&self.ranges[i], &r)
            invariant
                0 <= i <= n,
                out@ == s0.take(i as int),
                forall|k: int| 0 <= k < i ==> (#[trigger] s0[k]).spec_end() + 1 < r.spec_start(),
            decreases n - i,
        {
            out.push(self.ranges[i]);
            proof {
                assert(s0.take(i as int + 1) =~= s0.take(i as int).push(s0[i as int]));
            }
            i += 1;
        }

        let ghost lo = i as int;
        proof {
            lemma_seq_addrs_empty();
            assert(s0.subrange(lo, lo) =~= Seq::<Range>::empty());
            assert(r.addrs() + seq_addrs(s0.subrange(lo, lo)) =~= r.addrs());
        }

        // Entries that overlap `r` or touch it: folded into one growing span.
        let mut cur = r;
        while i < n && starts_by(&self.ranges[i], &cur)
            invariant
                lo <= i <= n,
                cur.wf(),
                cur.addrs() == r.addrs() + seq_addrs(s0.subrange(lo, i as int)),
                cur.spec_start() <= r.spec_start(),
                cur.spec_end() >= r.spec_end(),
                cur.spec_end() == r.spec_end() || (i > lo && cur.spec_end() == s0[i - 1].spec_end()),
                i == lo ==> cur == r,
                forall|k: int| 0 <= k < lo ==> (#[trigger] s0[k]).spec_end() + 1 < cur.spec_start(),
                forall|k: int| lo <= k < i ==> touches(r, #[trigger] s0[k]),
                lo < n ==> s0[lo].spec_end() + 1 >= r.spec_start(),
            decreases n - i,
        {
            let e = self.ranges[i];
            let ghost prev = cur;
            proof {
                // `e` touches `r`: its end reaches back to `r` and, because the
                // entries are mutually non-adjacent, its start cannot lie
                // beyond `r` unless the loop condition already failed.
                if i as int > lo {
                    assert(s0[lo].spec_end() + 1 < e.spec_start());
                }
                assert(e.spec_end() + 1 >= r.spec_start());
                if cur.spec_end() != r.spec_end() {
                    assert(cur.spec_end() == s0[i as int - 1].spec_end());
                    assert(s0[i as int - 1].spec_end() + 1 < e.spec_start());
                    assert(false);
                }
                assert(touches(r, e));
                assert(touches(prev, e));
            }
            if e.start < cur.start {
                cur.start = e.start;
            }
            if e.end > cur.end {
                cur.end = e.end;
            }
            proof {
                lemma_touching_union(prev, e, cur);
                assert(s0.subrange(lo, i as int + 1)
                    =~= s0.subrange(lo, i as int).push(s0[i as int]));
                lemma_seq_addrs_push(s0.subrange(lo, i as int), s0[i as int]);
                assert(cur.addrs() =~= r.addrs() + seq_addrs(s0.subrange(lo, i as int + 1)));
            }
            i += 1;
        }

        let ghost mid = i as int;

        // The merge never grows the entry count, so a capacity failure can only
        // happen when nothing merged and the store is already full.
        let total = out.len() + 1 + (n - i);
        if total > CAPACITY {
            proof {
                assert(out@.len() == lo);
                assert(mid == lo);
                assert(cur == r);
                assert forall|k: int| 0 <= k < s0.len()
                    implies !touches(r, #[trigger] s0[k]) by {
                    if k < lo {
                    } else {
                        assert(s0[mid].spec_start() > r.spec_end() + 1);
                        if k > mid {
                            assert(s0[mid].spec_end() + 1 < s0[k].spec_start());
                        }
                    }
                }
            }
            return Err(RangeSetError::CapacityExceeded);
        }

        out.push(cur);
        let ghost head = s0.take(lo) + seq![cur];
        proof {
            assert(out@ =~= head + s0.subrange(mid, mid));
        }

        // Entries wholly right of the merged span: kept unchanged.
        while i < n
            invariant
                mid <= i <= n,
                out@ == head + s0.subrange(mid, i as int),
            decreases n - i,
        {
            out.push(self.ranges[i]);
            proof {
                assert(s0.subrange(mid, i as int + 1)
                    =~= s0.subrange(mid, i as int).push(s0[i as int]));
                assert(out@ =~= head + s0.subrange(mid, i as int + 1));
            }
            i += 1;
        }

        proof {
            assert(out@ == head + s0.subrange(mid, n as int));
            lemma_insert_commit(s0, r, cur, lo, mid);
        }
        self.ranges = out;
        Ok(())
    }
}

/// The shape committed by a merging insert — the untouched left entries, the
/// coalesced span, the untouched right entries — is well formed and covers
/// exactly the old addresses plus the inserted ones.
#[verifier::rlimit(100)]
proof fn lemma_insert_commit(s0: Seq<Range>, r: Range, cur: Range, lo: int, mid: int)
    requires
        wf_seq(s0),
        r.wf(),
        cur.wf(),
        0 <= lo <= mid <= s0.len(),
        cur.addrs() == r.addrs() + seq_addrs(s0.subrange(lo, mid)),
        forall|k: int| 0 <= k < lo ==> (#[trigger] s0[k]).spec_end() + 1 < cur.spec_start(),
        mid < s0.len() ==> s0[mid].spec_start() > cur.spec_end() + 1,
    ensures
        wf_seq(s0.take(lo) + seq![cur] + s0.subrange(mid, s0.len() as int)),
        seq_addrs(s0.take(lo) + seq![cur] + s0.subrange(mid, s0.len() as int))
            == seq_addrs(s0) + r.addrs(),
{
    lemma_insert_commit_wf(s0, cur, lo, mid);
    lemma_insert_commit_addrs(s0, r, cur, lo, mid);
}

/// Sortedness half of `lemma_insert_commit`.
#[verifier::rlimit(100)]
proof fn lemma_insert_commit_wf(s0: Seq<Range>, cur: Range, lo: int, mid: int)
    requires
        wf_seq(s0),
        cur.wf(),
        0 <= lo <= mid <= s0.len(),
        forall|k: int| 0 <= k < lo ==> (#[trigger] s0[k]).spec_end() + 1 < cur.spec_start(),
        mid < s0.len() ==> s0[mid].spec_start() > cur.spec_end() + 1,
    ensures
        wf_seq(s0.take(lo) + seq![cur] + s0.subrange(mid, s0.len() as int)),
{
    let n = s0.len() as int;
    let o = s0.take(lo) + seq![cur] + s0.subrange(mid, n);
    assert(o.len() == lo + 1 + (n - mid));
    assert forall|k: int| 0 <= k < o.len() implies (#[trigger] o[k]).wf() by {
        if k < lo {
            assert(o[k] == s0[k]);
        } else if k == lo {
            assert(o[k] == cur);
        } else {
            assert(o[k] == s0[k - 1 + mid - lo]);
        }
    }
    assert forall|k: int| 0 <= k < o.len() - 1
        implies (#[trigger] o[k]).spec_end() + 1 < o[k + 1].spec_start() by {
        if k + 1 < lo {
            assert(o[k] == s0[k]);
            assert(o[k + 1] == s0[k + 1]);
        } else if k + 1 == lo {
            assert(o[k] == s0[k]);
            assert(o[lo] == cur);
        } else if k == lo {
            assert(o[k] == cur);
            assert(o[k + 1] == s0[mid]);
        } else {
            assert(o[k] == s0[k - 1 + mid - lo]);
            assert(o[k + 1] == s0[k + mid - lo]);
            lemma_wf_seq_ordered(s0);
        }
    }
}

/// Address-set half of `lemma_insert_commit`.
#[verifier::rlimit(100)]
proof fn lemma_insert_commit_addrs(s0: Seq<Range>, r: Range, cur: Range, lo: int, mid: int)
    requires
        0 <= lo <= mid <= s0.len(),
        cur.addrs() == r.addrs() + seq_addrs(s0.subrange(lo, mid)),
    ensures
        seq_addrs(s0.take(lo) + seq![cur] + s0.subrange(mid, s0.len() as int))
            == seq_addrs(s0) + r.addrs(),
{
    let n = s0.len() as int;
    let head = s0.take(lo) + seq![cur];
    let o = head + s0.subrange(mid, n);
    lemma_seq_addrs_concat(s0.take(lo), seq![cur]);
    lemma_seq_addrs_concat(head, s0.subrange(mid, n));
    lemma_seq_addrs_push(Seq::<Range>::empty(), cur);
    assert(Seq::<Range>::empty().push(cur) =~= seq![cur]);
    lemma_seq_addrs_empty();
    assert(seq_addrs(seq![cur]) =~= cur.addrs());
    assert(s0 =~= s0.take(lo) + s0.subrange(lo, mid) + s0.subrange(mid, n));
    lemma_seq_addrs_concat(s0.take(lo) + s0.subrange(lo, mid), s0.subrange(mid, n));
    lemma_seq_addrs_concat(s0.take(lo), s0.subrange(lo, mid));
    let a = seq_addrs(s0.take(lo));
    let b = seq_addrs(s0.subrange(lo, mid));
    let c = seq_addrs(s0.subrange(mid, n));
    assert(seq_addrs(o) == a + (r.addrs() + b) + c);
    assert(seq_addrs(s0) == (a + b) + c);
    assert(a + (r.addrs() + b) + c =~= ((a + b) + c) + r.addrs());
}

/// `r` lies strictly inside `e`: removing it would split `e` into a left and a
/// right remainder, growing the entry count by one.
pub open spec fn splits(e: Range, r: Range) -> bool {
    e.spec_start() < r.spec_start() && r.spec_end() < e.spec_end()
}

impl RangeSet {
    /// Mark `r` no longer free. Every entry overlapping `r` is replaced by its
    /// residual pieces outside `r`: none when fully covered, one when `r`
    /// reaches an edge, two when `r` is a strict interior subset. Removing a
    /// span with no or only partial overlap succeeds, consuming just the
    /// intersecting portions. The operation fails atomically, leaving the set
    /// untouched, exactly when the store is full and a split would be needed.
    #[verifier::loop_isolation(false)]
    #[verifier::rlimit(100)]
    pub fn remove(&mut self, r: Range) -> (res: Result<(), RangeSetError>)
        requires
            old(self).wf(),
            r.wf(),
        ensures
            final(self).wf(),
            res is Ok ==> final(self).addrs() == old(self).addrs() - r.addrs(),
            res is Ok ==> final(self)@.len() <= old(self)@.len() + 1,
            res is Err ==> *final(self) == *old(self),
            res is Err <==> (old(self)@.len() == CAPACITY
                && (exists|i: int| 0 <= i < old(self)@.len()
                    && splits(#[trigger] old(self)@[i], r))),
    {
        let ghost s0 = self.ranges@;
        proof {
            lemma_wf_seq_ordered(s0);
        }
        let n = self.ranges.len();

        // A split adds one entry, so it is refused up front when the store is
        // already full; the set is then left untouched.
        if n == CAPACITY {
            let mut i: usize = 0;
            while i < n
                invariant
                    0 <= i <= n,
                    forall|k: int| 0 <= k < i ==> !splits(#[trigger] s0[k], r),
                decreases n - i,
            {
                let e = self.ranges[i];
                if e.start < r.start && r.end < e.end {
                    return Err(RangeSetError::CapacityExceeded);
                }
                i += 1;
            }
        }

        let out = build_removed(&self.ranges, r);
        proof {
            if n == CAPACITY {
                assert(out@.len() <= n as int);
            }
        }
        self.ranges = out;
        Ok(())
    }
}

/// The pieces an entry leaves behind once the addresses of `r` are withdrawn
/// from it: itself when the two do not overlap, nothing when fully covered,
/// one trimmed remainder when `r` reaches an edge, two when `r` lies strictly
/// inside.
spec fn residual(e: Range, r: Range) -> Seq<Range> {
    if e.spec_end() < r.spec_start() || r.spec_end() < e.spec_start() {
        seq![e]
    } else {
        let left = if e.spec_start() < r.spec_start() {
            seq![Range { start: e.start, end: (r.start - 1) as usize }]
        } else {
            Seq::<Range>::empty()
        };
        let right = if r.spec_end() < e.spec_end() {
            seq![Range { start: (r.end + 1) as usize, end: e.end }]
        } else {
            Seq::<Range>::empty()
        };
        left + right
    }
}

/// What `residual` covers and how it is laid out.
proof fn lemma_residual(e: Range, r: Range)
    requires
        e.wf(),
        r.wf(),
    ensures
        seq_addrs(residual(e, r)) == e.addrs() - r.addrs(),
        forall|k: int| 0 <= k < residual(e, r).len() ==> (#[trigger] residual(e, r)[k]).wf(),
        forall|k: int| 0 <= k < residual(e, r).len()
            ==> (#[trigger] residual(e, r)[k]).spec_start() >= e.spec_start()
                && residual(e, r)[k].spec_end() <= e.spec_end(),
        wf_seq(residual(e, r)),
        residual(e, r).len() <= 2,
        residual(e, r).len() <= 1 || splits(e, r),
{
    let o = residual(e, r);
    if e.spec_end() < r.spec_start() || r.spec_end() < e.spec_start() {
        assert(o == seq![e]);
        lemma_seq_addrs_push(Seq::<Range>::empty(), e);
        lemma_seq_addrs_empty();
        assert(Seq::<Range>::empty().push(e) =~= seq![e]);
        assert(seq_addrs(o) =~= e.addrs() - r.addrs());
    } else {
        let lp = Range { start: e.start, end: (r.start - 1) as usize };
        let rp = Range { start: (r.end + 1) as usize, end: e.end };
        if e.spec_start() < r.spec_start() && r.spec_end() < e.spec_end() {
            assert(o =~= seq![lp, rp]);
            lemma_seq_addrs_push(Seq::<Range>::empty().push(lp), rp);
            lemma_seq_addrs_push(Seq::<Range>::empty(), lp);
            lemma_seq_addrs_empty();
            assert(Seq::<Range>::empty().push(lp).push(rp) =~= seq![lp, rp]);
            assert(seq_addrs(o) =~= e.addrs() - r.addrs());
        } else if e.spec_start() < r.spec_start() {
            assert(o =~= seq![lp]);
            lemma_seq_addrs_push(Seq::<Range>::empty(), lp);
            lemma_seq_addrs_empty();
            assert(Seq::<Range>::empty().push(lp) =~= seq![lp]);
            assert(seq_addrs(o) =~= e.addrs() - r.addrs());
        } else if r.spec_end() < e.spec_end() {
            assert(o =~= seq![rp]);
            lemma_seq_addrs_push(Seq::<Range>::empty(), rp);
            lemma_seq_addrs_empty();
            assert(Seq::<Range>::empty().push(rp) =~= seq![rp]);
            assert(seq_addrs(o) =~= e.addrs() - r.addrs());
        } else {
            assert(o =~= Seq::<Range>::empty());
            lemma_seq_addrs_empty();
            assert(seq_addrs(o) =~= e.addrs() - r.addrs());
        }
    }
}

/// Withdrawing the same addresses from two parts and joining them is the same
/// as joining first and withdrawing once.
proof fn lemma_union_sub_distrib(x: Set<int>, y: Set<int>, z: Set<int>)
    ensures
        (x - z) + (y - z) == (x + y) - z,
{
    assert((x - z) + (y - z) =~= (x + y) - z);
}

/// Build the sequence of entries left once the addresses of `r` are withdrawn
/// from every entry of `src`.
#[verifier::loop_isolation(false)]
#[verifier::rlimit(100)]
fn build_removed(src: &Vec<Range>, r: Range) -> (out: Vec<Range>)
    requires
        wf_seq(src@),
        r.wf(),
    ensures
        wf_seq(out@),
        seq_addrs(out@) == seq_addrs(src@) - r.addrs(),
        out@.len() <= src@.len() + 1,
        (forall|k: int| 0 <= k < src@.len() ==> !splits(#[trigger] src@[k], r))
            ==> out@.len() <= src@.len(),
{
    let ghost s0 = src@;
    proof {
        lemma_wf_seq_ordered(s0);
    }
    let n = src.len();
    let mut out: Vec<Range> = Vec::new();
    let mut i: usize = 0;
    proof {
        lemma_seq_addrs_empty();
        assert(s0.take(0) =~= Seq::<Range>::empty());
        assert(seq_addrs(out@) =~= seq_addrs(s0.take(0)) - r.addrs());
    }
    while i < n
        invariant
            0 <= i <= n,
            wf_seq(out@),
            seq_addrs(out@) == seq_addrs(s0.take(i as int)) - r.addrs(),
            out@.len() <= i + 1,
            out@.len() <= i || (exists|k: int| 0 <= k < i && splits(#[trigger] s0[k], r)),
            forall|k: int| 0 <= k < out@.len()
                ==> (#[trigger] out@[k]).wf()
                    && (i > 0 ==> out@[k].spec_end() <= s0[i - 1].spec_end()),
        decreases n - i,
    {
        let e = src[i];
        let ghost out_pre = out@;
        if e.end < r.start || r.end < e.start {
            out.push(e);
        } else {
            if e.start < r.start {
                out.push(Range { start: e.start, end: r.start - 1 });
            }
            if r.end < e.end {
                out.push(Range { start: r.end + 1, end: e.end });
            }
        }
        proof {
            assert(out@ =~= out_pre + residual(e, r));
            lemma_residual(e, r);
            lemma_seq_addrs_concat(out_pre, residual(e, r));
            lemma_union_sub_distrib(seq_addrs(s0.take(i as int)), e.addrs(), r.addrs());
            assert(s0.take(i as int + 1) =~= s0.take(i as int).push(e));
            lemma_seq_addrs_push(s0.take(i as int), e);
            assert(seq_addrs(out@) == seq_addrs(s0.take(i as int + 1)) - r.addrs());
            if splits(e, r) && out_pre.len() > i as int {
                // Two entries cannot both strictly contain `r`.
                let k = choose|k: int| 0 <= k < i && splits(#[trigger] s0[k], r);
                assert(s0[k].spec_end() + 1 < s0[i as int].spec_start());
                assert(false);
            }
            // The new pieces keep the sequence sorted and non-adjacent.
            assert forall|k: int| 0 <= k < out@.len() - 1
                implies (#[trigger] out@[k]).spec_end() + 1 < out@[k + 1].spec_start() by {
                if k < out_pre.len() - 1 {
                } else if k >= out_pre.len() {
                    assert(out@[k] == residual(e, r)[k - out_pre.len()]);
                    assert(out@[k + 1] == residual(e, r)[k + 1 - out_pre.len()]);
                } else {
                    assert(out@[k] == out_pre[k]);
                    assert(out@[k + 1] == residual(e, r)[0]);
                    if i > 0 {
                        assert(s0[i as int - 1].spec_end() + 1 < s0[i as int].spec_start());
                    }
                }
            }
        }
        i += 1;
    }
    proof {
        assert(s0.take(n as int) =~= s0);
    }
    out
}

/// A power of two: one doubled zero or more times.
pub open spec fn is_pow2(n: int) -> bool
    decreases n,
{
    if n <= 0 {
        false
    } else if n == 1 {
        true
    } else {
        n % 2 == 0 && is_pow2(n / 2)
    }
}

/// The smallest multiple of `align` that is at least `a`.
pub open spec fn spec_align_up(a: int, align: int) -> int
    recommends
        a >= 0,
        align >= 1,
{
    if a % align == 0 {
        a
    } else {
        a + align - a % align
    }
}

/// `spec_align_up` lands on a multiple of the alignment, at most one whole
/// alignment step past `a`.
pub proof fn lemma_align_up(a: int, align: int)
    requires
        a >= 0,
        align >= 1,
    ensures
        a <= spec_align_up(a, align) < a + align,
        spec_align_up(a, align) % align == 0,
{
    let m = a % align;
    vstd::arithmetic::div_mod::lemma_fundamental_div_mod(a, align);
    if m != 0 {
        vstd::arithmetic::div_mod::lemma_mod_multiples_vanish(a / align + 1, 0, align);
        assert(align * (a / align + 1) == align * (a / align) + align) by (nonlinear_arith);
    }
}

/// An aligned region of `size` addresses placed at the lowest aligned address
/// inside `e` still ends within `e`.
pub open spec fn spec_fits(e: Range, size: int, align: int) -> bool {
    spec_align_up(e.spec_start(), align) + size - 1 <= e.spec_end()
}

/// The first entry, in ascending-start order, that can hold an aligned region
/// of `size` addresses; the allocator's first-fit policy.
pub open spec fn first_fit_entry(s: Seq<Range>, size: int, align: int) -> Option<Range>
    decreases s.len(),
{
    if s.len() == 0 {
        None
    } else if spec_fits(s[0], size, align) {
        Some(s[0])
    } else {
        first_fit_entry(s.drop_first(), size, align)
    }
}

/// A region carved out of one entry lies inside the tracked addresses, and no
/// other entry can be split by withdrawing it.
proof fn lemma_alloc_carve(s0: Seq<Range>, i: int, rg: Range)
    requires
        wf_seq(s0),
        0 <= i < s0.len(),
        rg.wf(),
        s0[i].spec_start() <= rg.spec_start(),
        rg.spec_end() <= s0[i].spec_end(),
    ensures
        span(rg.spec_start(), rg.spec_end()) <= seq_addrs(s0),
        forall|j: int| 0 <= j < s0.len() && splits(#[trigger] s0[j], rg) ==> j == i,
{
    lemma_wf_seq_ordered(s0);
    assert forall|a: int| span(rg.spec_start(), rg.spec_end()).contains(a)
        implies seq_addrs(s0).contains(a) by {
        assert(s0[i].addrs().contains(a));
    }
    assert forall|j: int| 0 <= j < s0.len() && splits(#[trigger] s0[j], rg) implies j == i by {
        if j < i {
            assert(s0[j].spec_end() + 1 < s0[i].spec_start());
        } else if j > i {
            assert(s0[i].spec_end() + 1 < s0[j].spec_start());
        }
    }
}

/// The entry a first fit names can in fact hold the region.
pub proof fn lemma_first_fit_fits(s: Seq<Range>, sz: int, al: int)
    requires
        first_fit_entry(s, sz, al) is Some,
    ensures
        spec_fits(first_fit_entry(s, sz, al)->Some_0, sz, al),
        0 <= first_fit_entry(s, sz, al)->Some_0.spec_start(),
        first_fit_entry(s, sz, al)->Some_0.spec_end() <= usize::MAX,
    decreases s.len(),
{
    if !spec_fits(s[0], sz, al) {
        lemma_first_fit_fits(s.drop_first(), sz, al);
    }
}

/// When a first fit exists, some entry of the sequence is that fit.
proof fn lemma_first_fit_index(s: Seq<Range>, sz: int, al: int)
    requires
        first_fit_entry(s, sz, al) is Some,
    ensures
        exists|j: int| 0 <= j < s.len() && first_fit_entry(s, sz, al) == Some(#[trigger] s[j]),
    decreases s.len(),
{
    if spec_fits(s[0], sz, al) {
        assert(first_fit_entry(s, sz, al) == Some(s[0]));
    } else {
        lemma_first_fit_index(s.drop_first(), sz, al);
        let j = choose|j: int| 0 <= j < s.drop_first().len()
            && first_fit_entry(s.drop_first(), sz, al) == Some(#[trigger] s.drop_first()[j]);
        assert(s.drop_first()[j] == s[j + 1]);
        assert(first_fit_entry(s, sz, al) == Some(s[j + 1]));
    }
}

impl RangeSet {
    /// Find the first entry that can hold an aligned region of `size`
    /// addresses, and the region's first and last address within it.
    #[verifier::loop_isolation(false)]
    #[verifier::rlimit(100)]
    fn find_first_fit(&self, size: usize, align: usize) -> (found: Option<(usize, usize)>)
        requires
            self.wf(),
            size >= 1,
            is_pow2(align as int),
        ensures
            found is None ==> first_fit_entry(self@, size as int, align as int) is None,
            found matches Some(p) ==> (first_fit_entry(self@, size as int, align as int)
                matches Some(e)
                && p.0 == spec_align_up(e.spec_start(), align as int)
                && p.1 == p.0 + size - 1
                && e.spec_start() <= p.0
                && p.1 <= e.spec_end()),
    {
        proof {
            assert(align >= 1);
        }
        let ghost s0 = self.ranges@;
        let ghost sz = size as int;
        let ghost al = align as int;
        let n = self.ranges.len();
        let mut i: usize = 0;
        proof {
            assert(s0.skip(0) =~= s0);
        }
        while i < n
            invariant
                0 <= i <= n,
                first_fit_entry(s0, sz, al) == first_fit_entry(s0.skip(i as int), sz, al),
            decreases n - i,
        {
            let e = self.ranges[i];
            proof {
                lemma_align_up(e.spec_start(), al);
                assert(s0.skip(i as int)[0] == e);
            }
            let rem = e.start % align;
            let aligned_opt = if rem == 0 {
                Some(e.start)
            } else {
                e.start.checked_add(align - rem)
            };
            if let Some(aligned) = aligned_opt {
                if let Some(last) = aligned.checked_add(size - 1) {
                    if last <= e.end {
                        proof {
                            assert(spec_fits(e, sz, al));
                            assert(first_fit_entry(s0.skip(i as int), sz, al) == Some(e));
                        }
                        return Some((aligned, last));
                    }
                }
            }
            proof {
                // This entry cannot hold the region: the aligned start or the
                // region end lands past the entry, or past the largest address.
                assert(!spec_fits(e, sz, al));
                assert(s0.skip(i as int).drop_first() =~= s0.skip(i as int + 1));
            }
            i += 1;
        }
        proof {
            assert(s0.skip(n as int).len() == 0);
        }
        None
    }

    /// Carve an aligned region out of the free memory. Entries are scanned in
    /// ascending-start order; the first whose lowest suitably aligned address
    /// leaves room for `size` addresses is chosen, the region is withdrawn
    /// from the set, and its first address is returned. `Ok(None)` — no entry
    /// qualifies — is a normal outcome, not an error; `Err` is reported, with
    /// the set untouched, only when the withdrawal would split a full store.
    #[verifier::loop_isolation(false)]
    #[verifier::rlimit(100)]
    pub fn allocate(&mut self, size: usize, align: usize) -> (res: Result<
        Option<usize>,
        RangeSetError,
    >)
        requires
            old(self).wf(),
            size >= 1,
            is_pow2(align as int),
        ensures
            final(self).wf(),
            first_fit_entry(old(self)@, size as int, align as int) is None
                ==> res == Ok::<Option<usize>, RangeSetError>(None) && *final(self) == *old(self),
            first_fit_entry(old(self)@, size as int, align as int) matches Some(e) ==> ({
                let a = spec_align_up(e.spec_start(), align as int);
                &&& (res is Err <==> (old(self)@.len() == CAPACITY
                    && e.spec_start() < a && a + size - 1 < e.spec_end()))
                &&& (res is Err ==> *final(self) == *old(self))
                &&& (res is Ok ==> res == Ok::<Option<usize>, RangeSetError>(Some(a as usize))
                    && a % (align as int) == 0
                    && span(a, a + size - 1) <= old(self).addrs()
                    && final(self).addrs() == old(self).addrs() - span(a, a + size - 1))
            }),
    {
        let ghost s0 = self.ranges@;
        let ghost sz = size as int;
        let ghost al = align as int;
        let fit = self.find_first_fit(size, align);
        let (found_addr, found_last) = match fit {
            None => {
                return Ok(None);
            },
            Some(pair) => pair,
        };
        proof {
            lemma_first_fit_index(s0, sz, al);
        }
        let ghost fidx = choose|j: int| 0 <= j < s0.len()
            && first_fit_entry(s0, sz, al) == Some(s0[j]);
        let rg = Range { start: found_addr, end: found_last };
        proof {
            lemma_alloc_carve(s0, fidx, rg);
            lemma_align_up(s0[fidx].spec_start(), al);
            assert(spec_align_up(s0[fidx].spec_start(), al) == found_addr as int);
        }
        let carved = self.remove(rg);
        proof {
            // The carved region lies inside the chosen entry alone, so a split
            // can only happen there.
            if carved is Err {
                let j = choose|j: int| 0 <= j < s0.len() && splits(#[trigger] s0[j], rg);
                assert(j == fidx);
            }
            if carved is Ok && s0.len() == CAPACITY && s0[fidx].spec_start() < found_addr as int
                && found_last < s0[fidx].spec_end() {
                assert(splits(s0[fidx], rg));
                assert(false);
            }
        }
        match carved {
            Ok(()) => Ok(Some(found_addr)),
            Err(err) => Err(err),
        }
    }
}

/// The first entry of a well-formed sequence starts at the least tracked
/// address, covers a contiguous run, and the address one past its end is not
/// tracked at all.
proof fn lemma_first_entry_shape(s: Seq<Range>)
    requires
        wf_seq(s),
        s.len() > 0,
    ensures
        seq_addrs(s).contains(s[0].spec_start()),
        forall|a: int| seq_addrs(s).contains(a) ==> a >= s[0].spec_start(),
        forall|a: int| s[0].addrs().contains(a) ==> seq_addrs(s).contains(a),
        !seq_addrs(s).contains(s[0].spec_end() + 1),
{
    lemma_wf_seq_ordered(s);
    assert(s[0].addrs().contains(s[0].spec_start()));
    assert forall|a: int| seq_addrs(s).contains(a) implies a >= s[0].spec_start() by {
        let i = choose|i: int| 0 <= i < s.len() && (#[trigger] s[i]).addrs().contains(a);
        if i > 0 {
            assert(s[0].spec_end() + 1 < s[i].spec_start());
        }
    }
    assert forall|a: int| s[0].addrs().contains(a) implies seq_addrs(s).contains(a) by {
        assert(s[0].addrs().contains(a));
    }
    if seq_addrs(s).contains(s[0].spec_end() + 1) {
        let i = choose|i: int| 0 <= i < s.len()
            && (#[trigger] s[i]).addrs().contains(s[0].spec_end() + 1);
        if i > 0 {
            assert(s[0].spec_end() + 1 < s[i].spec_start());
        }
        assert(false);
    }
}

/// Dropping the first entry of a well-formed sequence removes exactly its
/// addresses.
proof fn lemma_seq_addrs_drop_first(s: Seq<Range>)
    requires
        wf_seq(s),
        s.len() > 0,
    ensures
        wf_seq(s.drop_first()),
        seq_addrs(s.drop_first()) == seq_addrs(s) - s[0].addrs(),
{
    lemma_wf_seq_ordered(s);
    let t = s.drop_first();
    assert forall|k: int| 0 <= k < t.len() implies (#[trigger] t[k]).wf() by {
        assert(t[k] == s[k + 1]);
    }
    assert forall|k: int| 0 <= k < t.len() - 1
        implies (#[trigger] t[k]).spec_end() + 1 < t[k + 1].spec_start() by {
        assert(t[k] == s[k + 1]);
        assert(t[k + 1] == s[k + 2]);
    }
    assert forall|a: int| seq_addrs(t).contains(a)
        implies (seq_addrs(s) - s[0].addrs()).contains(a) by {
        let i = choose|i: int| 0 <= i < t.len() && (#[trigger] t[i]).addrs().contains(a);
        assert(t[i] == s[i + 1]);
        assert(s[i + 1].addrs().contains(a));
        assert(s[0].spec_end() + 1 < s[i + 1].spec_start());
    }
    assert forall|a: int| (seq_addrs(s) - s[0].addrs()).contains(a)
        implies seq_addrs(t).contains(a) by {
        let i = choose|i: int| 0 <= i < s.len() && (#[trigger] s[i]).addrs().contains(a);
        assert(i > 0);
        assert(t[i - 1].addrs().contains(a));
    }
    assert(seq_addrs(t) =~= seq_addrs(s) - s[0].addrs());
}

/// The sorted, coalesced form is canonical: two well-formed entry sequences
/// that cover the same addresses are the same sequence. It follows that any
/// two sequences of successful operations leaving the same free addresses
/// leave identical sets.
#[verifier::rlimit(100)]
pub proof fn lemma_canonical_form(s1: Seq<Range>, s2: Seq<Range>)
    requires
        wf_seq(s1),
        wf_seq(s2),
        seq_addrs(s1) == seq_addrs(s2),
    ensures
        s1 == s2,
    decreases s1.len(),
{
    if s1.len() == 0 && s2.len() == 0 {
        assert(s1 =~= s2);
    } else if s1.len() == 0 {
        lemma_first_entry_shape(s2);
        assert(seq_addrs(s1).contains(s2[0].spec_start()));
        assert(false);
    } else if s2.len() == 0 {
        lemma_first_entry_shape(s1);
        assert(seq_addrs(s2).contains(s1[0].spec_start()));
        assert(false);
    } else {
        lemma_first_entry_equal(s1, s2);
        lemma_seq_addrs_drop_first(s1);
        lemma_seq_addrs_drop_first(s2);
        lemma_canonical_form(s1.drop_first(), s2.drop_first());
        assert(s1.len() == s2.len());
        assert forall|i: int| 0 <= i < s1.len() implies s1[i] == s2[i] by {
            if i > 0 {
                assert(s1.drop_first()[i - 1] == s2.drop_first()[i - 1]);
                assert(s1.drop_first()[i - 1] == s1[i]);
                assert(s2.drop_first()[i - 1] == s2[i]);
            }
        }
        assert(s1 =~= s2);
    }
}

/// Two well-formed sequences over the same addresses begin with the same
/// entry: the least tracked address pins the start, and the first untracked
/// address past the contiguous run pins the end.
#[verifier::rlimit(100)]
proof fn lemma_first_entry_equal(s1: Seq<Range>, s2: Seq<Range>)
    requires
        wf_seq(s1),
        wf_seq(s2),
        seq_addrs(s1) == seq_addrs(s2),
        s1.len() > 0,
        s2.len() > 0,
    ensures
        s1[0] == s2[0],
{
    lemma_first_entry_shape(s1);
    lemma_first_entry_shape(s2);
    assert(s1[0].spec_start() == s2[0].spec_start());
    if s1[0].spec_end() < s2[0].spec_end() {
        assert(s2[0].addrs().contains(s1[0].spec_end() + 1));
        assert(false);
    }
    if s2[0].spec_end() < s1[0].spec_end() {
        assert(s1[0].addrs().contains(s2[0].spec_end() + 1));
        assert(false);
    }
}

/// Round trip: inserting a span into an empty set and then removing the same
/// span leaves the set empty again. The two premises are exactly what a
/// successful `insert` and a successful `remove` ensure.
pub proof fn lemma_insert_remove_round_trip(s0: RangeSet, s1: RangeSet, s2: RangeSet, r: Range)
    requires
        s0.wf(),
        s1.wf(),
        s2.wf(),
        s0@.len() == 0,
        s1.addrs() == s0.addrs() + r.addrs(),
        s2.addrs() == s1.addrs() - r.addrs(),
    ensures
        s2@ == s0@,
        s2@.len() == 0,
{
    assert(s2.addrs() =~= s0.addrs());
    lemma_canonical_form(s2@, s0@);
}

/// Idempotence: inserting the same span twice leaves exactly the set one
/// insert leaves. The premises are what two successful `insert` calls ensure.
pub proof fn lemma_insert_idempotent(s0: RangeSet, s1: RangeSet, s2: RangeSet, r: Range)
    requires
        s0.wf(),
        s1.wf(),
        s2.wf(),
        s1.addrs() == s0.addrs() + r.addrs(),
        s2.addrs() == s1.addrs() + r.addrs(),
    ensures
        s2@ == s1@,
{
    assert(s2.addrs() =~= s1.addrs());
    lemma_canonical_form(s2@, s1@);
}

/// Null guard: an address handed out of a free set that does not contain the
/// null address is never null. `allocate` ensures the returned region was a
/// subset of the free addresses, so a set built without address zero can never
/// produce it.
pub proof fn lemma_null_guard(free: Set<int>, addr: int, last: int)
    requires
        !free.contains(0),
        span(addr, last) <= free,
        addr <= last,
    ensures
        addr != 0,
{
    assert(span(addr, last).contains(addr));
}

/// `a` ends strictly more than one address before `b` starts: the two spans
/// neither overlap nor touch, and `a` lies entirely to the left.
fn gap_before(a: &Range, b: &Range) -> (r: bool)
    ensures
        r == (a.spec_end() + 1 < b.spec_start()),
{
    a.end < b.start && b.start - a.end > 1
}

/// `b` starts no further than one address past the end of `a`, so `b` either
/// overlaps `a` or is directly adjacent to it on the right.
fn starts_by(b: &Range, a: &Range) -> (r: bool)
    ensures
        r == (b.spec_start() <= a.spec_end() + 1),
{
    b.start <= a.end || (a.end < usize::MAX && b.start == a.end + 1)
}

} // verus!

