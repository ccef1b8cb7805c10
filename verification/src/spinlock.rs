//! A ticket lock: fairness-preserving mutual exclusion for the pre-scheduler
//! boot environment.
//!
//! Acquiring draws a ticket from a monotonically increasing counter and the
//! holder is the caller whose ticket equals the "now serving" counter; a
//! release increments "now serving" by one. Requests are therefore granted in
//! exact arrival order. There is no poisoning model and no recursive
//! acquisition: a holder that fails while holding leaves the lock held for
//! good, which is by design in an environment where failures are already
//! fatal.

use vstd::prelude::*;

verus! {

/// A lock-guarded inner-mutable variable. The two counters realise the ticket
/// discipline; the guarded value is reachable only through a guard handed out
/// while the lock is held.
pub struct SpinLock<T> {
    /// Ticket counter: each acquisition draws the current value and
    /// increments it.
    ticket: u64,
    /// Current ticket value being served; incremented by one on release.
    release: u64,
    /// Value guarded by this lock.
    val: T,
}

/// Witness that the lock is held: the drawn ticket that is now being served.
/// Only `SpinLock::lock` creates one, and releasing consumes it.
pub struct SpinLockGuard {
    ticket: u64,
}

impl SpinLockGuard {
    /// The ticket this guard was granted for.
    pub closed spec fn spec_ticket(self) -> int {
        self.ticket as int
    }

    /// The granted ticket number.
    pub fn ticket(&self) -> (t: u64)
        ensures
            t == self.spec_ticket(),
    {
        self.ticket
    }
}

impl<T> SpinLock<T> {
    /// Next ticket to be drawn: also the number of acquisitions so far.
    pub closed spec fn spec_ticket(self) -> int {
        self.ticket as int
    }

    /// Ticket currently served: also the number of releases so far.
    pub closed spec fn spec_release(self) -> int {
        self.release as int
    }

    /// The guarded value.
    pub closed spec fn spec_val(self) -> T {
        self.val
    }

    /// Counters never run backwards past one another.
    pub open spec fn wf(self) -> bool {
        self.spec_release() <= self.spec_ticket()
    }

    /// Nobody holds the lock: every drawn ticket has been released.
    pub open spec fn is_released(self) -> bool {
        self.spec_release() == self.spec_ticket()
    }

    /// `g` is the guard of the current holder.
    pub open spec fn holds(self, g: SpinLockGuard) -> bool {
        g.spec_ticket() == self.spec_release() && self.spec_release() < self.spec_ticket()
    }

    /// Move `val` into a new, unheld lock.
    pub fn new(val: T) -> (r: SpinLock<T>)
        ensures
            r.wf(),
            r.is_released(),
            r.spec_ticket() == 0,
            r.spec_val() == val,
    {
        SpinLock { ticket: 0, release: 0, val }
    }

    /// Acquire exclusive access: draw a ticket, then wait until it is served.
    /// In this single-core, interrupt-free environment the lock must be free
    /// when acquisition starts — acquiring a held lock could never be served —
    /// so the drawn ticket is granted at once.
    pub fn lock(&mut self) -> (g: SpinLockGuard)
        requires
            old(self).wf(),
            old(self).is_released(),
            old(self).spec_ticket() < u64::MAX,
        ensures
            final(self).wf(),
            g.spec_ticket() == old(self).spec_ticket(),
            final(self).spec_ticket() == old(self).spec_ticket() + 1,
            final(self).spec_release() == old(self).spec_release(),
            final(self).spec_val() == old(self).spec_val(),
            final(self).holds(g),
    {
        let ticket = self.ticket;
        self.ticket = self.ticket + 1;
        while self.release != ticket
            invariant
                self.release == ticket,
            decreases 0int,
        {
        }
        SpinLockGuard { ticket }
    }

    /// Release the lock, consuming the holder's guard: the next drawn ticket
    /// becomes servable.
    pub fn release(&mut self, g: SpinLockGuard)
        requires
            old(self).wf(),
            old(self).holds(g),
        ensures
            final(self).wf(),
            final(self).spec_ticket() == old(self).spec_ticket(),
            final(self).spec_release() == old(self).spec_release() + 1,
            final(self).spec_val() == old(self).spec_val(),
    {
        let _ = g;
        self.release = self.release + 1;
    }

    /// Read the guarded value; only the holder can.
    pub fn borrow<'a>(&'a self, g: &SpinLockGuard) -> (v: &'a T)
        requires
            self.holds(*g),
        ensures
            *v == self.spec_val(),
    {
        &self.val
    }

    /// Exchange the guarded value; only the holder can.
    pub fn replace(&mut self, g: &SpinLockGuard, val: T) -> (prev: T)
        requires
            old(self).holds(*g),
        ensures
            final(self).spec_ticket() == old(self).spec_ticket(),
            final(self).spec_release() == old(self).spec_release(),
            final(self).spec_val() == val,
            prev == old(self).spec_val(),
            final(self).holds(*g),
    {
        let mut v = val;
        core::mem::swap(&mut self.val, &mut v);
        v
    }
}

/// One step of the ticket discipline, as seen from outside: an acquisition
/// attempt drawing a ticket, or a holder releasing.
pub enum LockEvent {
    /// A caller draws a ticket.
    Acquire,
    /// The current holder releases.
    Release,
}

/// Number of tickets drawn over a history of lock events; `lock` ensures the
/// ticket counter advances by one on each acquisition, so after `t` the
/// counter reads this.
pub open spec fn acquires_in(t: Seq<LockEvent>) -> nat
    decreases t.len(),
{
    if t.len() == 0 {
        0
    } else {
        acquires_in(t.drop_last()) + (if t.last() is Acquire {
            1nat
        } else {
            0nat
        })
    }
}

/// Number of releases over a history of lock events; `release` ensures the
/// serving counter advances by one each time, so after `t` it reads this.
pub open spec fn releases_in(t: Seq<LockEvent>) -> nat
    decreases t.len(),
{
    if t.len() == 0 {
        0
    } else {
        releases_in(t.drop_last()) + (if t.last() is Release {
            1nat
        } else {
            0nat
        })
    }
}

/// A history a lock starting at zero can produce: only a holder can release,
/// so releases never outnumber drawn tickets in any prefix.
pub open spec fn wf_history(t: Seq<LockEvent>) -> bool {
    forall|i: int| 0 <= i <= t.len() ==> releases_in(#[trigger] t.take(i)) <= acquires_in(t.take(i))
}

/// The `n`th acquisition attempt (counting from one) holds the lock after
/// history `t`: its ticket, `n - 1`, is the one now serving, and it has been
/// drawn.
pub open spec fn granted(t: Seq<LockEvent>, n: nat) -> bool {
    1 <= n <= acquires_in(t) && releases_in(t) == n - 1
}

proof fn lemma_counts_step(t: Seq<LockEvent>, i: int)
    requires
        0 <= i < t.len(),
    ensures
        releases_in(t.take(i + 1)) == releases_in(t.take(i)) + (if t[i] is Release {
            1nat
        } else {
            0nat
        }),
        acquires_in(t.take(i + 1)) == acquires_in(t.take(i)) + (if t[i] is Acquire {
            1nat
        } else {
            0nat
        }),
{
    assert(t.take(i + 1).drop_last() =~= t.take(i));
    assert(t.take(i + 1).last() == t[i]);
}

/// Counters only grow as a history extends.
proof fn lemma_counts_monotone(t: Seq<LockEvent>, i: int, j: int)
    requires
        0 <= i <= j <= t.len(),
    ensures
        releases_in(t.take(i)) <= releases_in(t.take(j)),
        acquires_in(t.take(i)) <= acquires_in(t.take(j)),
    decreases j - i,
{
    if i < j {
        lemma_counts_monotone(t, i, j - 1);
        lemma_counts_step(t, j - 1);
    }
}

/// Somewhere before a point with `m` or more releases lies the exact moment
/// of the `m`th release.
proof fn lemma_release_point(t: Seq<LockEvent>, i: int, m: nat)
    requires
        0 <= i <= t.len(),
        m >= 1,
        releases_in(t.take(i)) >= m,
    ensures
        exists|p: int| 0 <= p < i && releases_in(#[trigger] t.take(p)) == m - 1
            && t[p] is Release,
    decreases i,
{
    assert(t.take(0).len() == 0);
    if releases_in(t.take(i - 1)) >= m {
        lemma_release_point(t, i - 1, m);
        let p = choose|p: int| 0 <= p < i - 1 && releases_in(#[trigger] t.take(p)) == m - 1
            && t[p] is Release;
        assert(0 <= p < i && releases_in(t.take(p)) == m - 1 && t[p] is Release);
    } else {
        lemma_counts_step(t, i - 1);
        assert(releases_in(t.take(i - 1)) == m - 1 && t[i - 1] is Release);
    }
}

/// Strict first-in-first-out fairness of the ticket discipline. Over any
/// history the lock can produce, the `n`th acquisition attempt holds the lock
/// only when exactly the first `n - 1` releases have happened: at no point up
/// to the grant have `n` or more releases occurred, and at every point with
/// fewer than `n - 1` releases the attempt does not hold the lock. Under any
/// number of acquisition attempts issued in a known arrival order, the `n`th
/// attempt is therefore granted strictly after the `n - 1`th release and
/// before the `n`th.
pub proof fn lemma_ticket_fairness(t: Seq<LockEvent>, i: int, n: nat)
    requires
        wf_history(t),
        0 <= i <= t.len(),
        granted(t.take(i), n),
    ensures
        releases_in(t.take(i)) == n - 1,
        forall|j: int| 0 <= j <= i ==> releases_in(#[trigger] t.take(j)) <= n - 1,
        forall|j: int| 0 <= j <= i && releases_in(#[trigger] t.take(j)) < n - 1
            ==> !granted(t.take(j), n),
{
    assert forall|j: int| 0 <= j <= i implies releases_in(#[trigger] t.take(j)) <= n - 1 by {
        lemma_counts_monotone(t, j, i);
    }
}

/// Grants come in arrival order: before a later attempt holds the lock, every
/// earlier attempt has already held it — at a point that saw strictly fewer
/// releases.
pub proof fn lemma_grants_in_arrival_order(t: Seq<LockEvent>, i: int, m: nat, n: nat)
    requires
        wf_history(t),
        0 <= i <= t.len(),
        1 <= m < n,
        granted(t.take(i), n),
    ensures
        exists|p: int| 0 <= p < i && granted(t.take(p), m)
            && releases_in(#[trigger] t.take(p)) < releases_in(t.take(i)),
{
    assert(releases_in(t.take(i)) == n - 1 >= m);
    lemma_release_point(t, i, m);
    let p = choose|p: int| 0 <= p < i && releases_in(#[trigger] t.take(p)) == m - 1
        && t[p] is Release;
    // Only a holder releases: the history keeps releases below acquisitions,
    // so the `m`th ticket had been drawn when the `m`th release happened.
    lemma_counts_step(t, p);
    assert(releases_in(t.take(p + 1)) == m);
    assert(releases_in(t.take(p + 1)) <= acquires_in(t.take(p + 1)));
    assert(acquires_in(t.take(p)) >= m);
    assert(granted(t.take(p), m));
}

} // verus!
