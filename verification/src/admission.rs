//! The admission cap that bounds how many write requests may be in
//! flight at once.
//!
//! The dispatcher asks for admission before starting a write and reports
//! back when one resolves. Admission is denied once `max` writes are
//! outstanding, so the dispatcher must wait for a completion before
//! starting another write — explicit backpressure rather than an unbounded
//! task explosion.

use vstd::prelude::*;

verus! {

/// Counts the write operations whose network round-trips are currently
/// outstanding, against the configured cap.
pub struct PaintPermits {
    pub in_flight: usize,
    pub max: usize,
}

/// The cap's invariant: outstanding writes never exceed it.
pub open spec fn permits_wf(g: PaintPermits) -> bool {
    g.in_flight <= g.max
}

impl PaintPermits {
    /// A fresh counter with no writes outstanding.
    pub fn new(max: usize) -> (g: Self)
        ensures
            g.in_flight == 0,
            g.max == max,
            permits_wf(g),
    {
        PaintPermits { in_flight: 0, max }
    }

    /// Asks to start one write. Admission succeeds exactly when the cap is
    /// not yet reached; a denied caller must wait for a completion.
    pub fn try_admit(&mut self) -> (admitted: bool)
        requires
            permits_wf(*old(self)),
        ensures
            permits_wf(*final(self)),
            final(self).max == old(self).max,
            admitted == (old(self).in_flight < old(self).max),
            admitted ==> final(self).in_flight == old(self).in_flight + 1,
            !admitted ==> final(self).in_flight == old(self).in_flight,
    {
        if self.in_flight < self.max {
            self.in_flight = self.in_flight + 1;
            true
        } else {
            false
        }
    }

    /// Records that one outstanding write resolved (successfully or not).
    pub fn complete(&mut self)
        requires
            permits_wf(*old(self)),
            old(self).in_flight > 0,
        ensures
            permits_wf(*final(self)),
            final(self).max == old(self).max,
            final(self).in_flight == old(self).in_flight - 1,
    {
        self.in_flight = self.in_flight - 1;
    }
}

/// Law: at no point do more writes have outstanding network calls than the
/// configured cap — every admission operation preserves `permits_wf`, and under it
/// the outstanding count is bounded by the cap.
pub proof fn lemma_permits_bounded(g: PaintPermits)
    requires
        permits_wf(g),
    ensures
        g.in_flight <= g.max,
{
}

} // verus!
