//! The backlog store: the single shared container of pending corrective
//! writes.
//!
//! One fetch cycle replaces its contents wholesale; the dispatcher drains
//! it incrementally from the front. Each operation takes the store by
//! `&mut`, so operations are mutually exclusive and each one is atomic
//! (linearizable) with respect to the others; the caller that shares the
//! store between the two loops wraps it in a mutual-exclusion primitive.

use vstd::prelude::*;
use crate::diff::WriteJob;

verus! {

/// The entries a drain of `n` removes: the first `min(n, len)` entries, in
/// backlog order.
pub open spec fn drained_spec(s: Seq<WriteJob>, n: int) -> Seq<WriteJob> {
    if n <= s.len() {
        s.take(n)
    } else {
        s
    }
}

/// The entries a drain of `n` leaves behind.
pub open spec fn remainder_spec(s: Seq<WriteJob>, n: int) -> Seq<WriteJob> {
    if n <= s.len() {
        s.skip(n)
    } else {
        Seq::empty()
    }
}

/// Holds the current backlog; replaced wholesale each fetch cycle and
/// drained from the front by the dispatcher.
pub struct BacklogStore {
    jobs: Vec<WriteJob>,
}

impl View for BacklogStore {
    type V = Seq<WriteJob>;

    closed spec fn view(&self) -> Seq<WriteJob> {
        self.jobs@
    }
}

impl BacklogStore {
    /// An empty store: nothing to paint until the first fetch succeeds.
    pub fn new() -> (s: Self)
        ensures
            s@ == Seq::<WriteJob>::empty(),
    {
        BacklogStore { jobs: Vec::new() }
    }

    /// How many corrective writes are pending.
    pub fn len(&self) -> (n: usize)
        ensures
            n == self@.len(),
    {
        self.jobs.len()
    }

    /// Overwrites the whole backlog with the jobs of a fresh fetch cycle.
    pub fn replace(&mut self, new_jobs: Vec<WriteJob>)
        ensures
            final(self)@ == new_jobs@,
    {
        self.jobs = new_jobs;
    }

    /// Removes and returns up to `n` entries from the front, in backlog
    /// order. Returns fewer than `n` (possibly zero) when the backlog is
    /// smaller than requested; that is not an error, it means there is
    /// nothing more to paint this tick.
    pub fn drain_up_to(&mut self, n: usize) -> (r: Vec<WriteJob>)
        ensures
            r@ == drained_spec(old(self)@, n as int),
            final(self)@ == remainder_spec(old(self)@, n as int),
            r@.len() <= n,
            r@ + final(self)@ == old(self)@,
    {
        let len = self.jobs.len();
        let k = if n < len {
            n
        } else {
            len
        };
        let mut drained: Vec<WriteJob> = Vec::new();
        let mut idx: usize = 0;
        while idx < k
            invariant
                k <= self.jobs@.len(),
                idx <= k,
                drained@ == self.jobs@.subrange(0, idx as int),
            decreases k - idx,
        {
            drained.push(self.jobs[idx]);
            idx += 1;
        }
        let mut rest: Vec<WriteJob> = Vec::new();
        let mut idx2: usize = k;
        while idx2 < self.jobs.len()
            invariant
                k <= idx2 <= self.jobs@.len(),
                rest@ == self.jobs@.subrange(k as int, idx2 as int),
            decreases self.jobs@.len() - idx2,
        {
            rest.push(self.jobs[idx2]);
            idx2 += 1;
        }
        proof {
            assert(drained@ == old(self)@.take(k as int));
            assert(rest@ == old(self)@.skip(k as int));
            assert(drained@ + rest@ == old(self)@);
        }
        self.jobs = rest;
        drained
    }
}

/// Law: a drain never returns more than requested, and two successive
/// drains return disjoint consecutive segments of the stored sequence —
/// together with the final remainder they reconstitute it exactly, so no
/// entry is returned twice and none is lost until the next replace.
pub proof fn lemma_drain_sequencing(s: Seq<WriteJob>, n1: int, n2: int)
    requires
        0 <= n1,
        0 <= n2,
    ensures
        drained_spec(s, n1).len() <= n1,
        drained_spec(remainder_spec(s, n1), n2).len() <= n2,
        drained_spec(s, n1) + drained_spec(remainder_spec(s, n1), n2) + remainder_spec(
            remainder_spec(s, n1),
            n2,
        ) == s,
{
    let d1 = drained_spec(s, n1);
    let r1 = remainder_spec(s, n1);
    let d2 = drained_spec(r1, n2);
    let r2 = remainder_spec(r1, n2);
    assert(d1 + r1 =~= s);
    assert(d2 + r2 =~= r1);
    assert(d1 + d2 + r2 =~= s);
}

} // verus!
