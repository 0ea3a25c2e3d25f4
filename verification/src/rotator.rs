//! The credential rotator: a cursor over the ordered credential pool.
//!
//! `next` hands out the pool index at the cursor and advances the cursor,
//! wrapping to the start of the pool, which yields round-robin fairness:
//! over any `k * pool_size` consecutive calls every credential is used
//! exactly `k` times.

use vstd::prelude::*;
use vstd::arithmetic::div_mod::{lemma_small_mod, lemma_mod_add_multiples_vanish};

verus! {

/// Cycles fairly through the indices `0 .. pool_size` of the credential
/// pool.
pub struct CredentialRotator {
    pub pos: usize,
    pub pool_size: usize,
}

/// The rotator's invariant: a non-empty pool and a cursor inside it.
pub open spec fn rotator_wf(r: CredentialRotator) -> bool {
    0 < r.pool_size && r.pos < r.pool_size
}

impl CredentialRotator {
    /// A rotator over a pool of `pool_size` credentials, starting at the
    /// first. An empty pool is a fatal configuration error, rejected
    /// before the running phase starts.
    pub fn new(pool_size: usize) -> (r: Self)
        requires
            0 < pool_size,
        ensures
            rotator_wf(r),
            r.pos == 0,
            r.pool_size == pool_size,
    {
        CredentialRotator { pos: 0, pool_size }
    }

    /// Returns the pool index at the cursor and advances the cursor,
    /// wrapping to 0 past the end of the pool.
    pub fn next(&mut self) -> (idx: usize)
        requires
            rotator_wf(*old(self)),
        ensures
            rotator_wf(*final(self)),
            final(self).pool_size == old(self).pool_size,
            idx == old(self).pos,
            final(self).pos == (old(self).pos + 1) % (old(self).pool_size as int),
    {
        let idx = self.pos;
        if self.pos + 1 < self.pool_size {
            self.pos = self.pos + 1;
        } else {
            self.pos = 0;
        }
        proof {
            if old(self).pos + 1 < old(self).pool_size {
                lemma_small_mod((old(self).pos + 1) as nat, old(self).pool_size as nat);
            } else {
                lemma_mod_add_multiples_vanish(0, old(self).pool_size as int);
                lemma_small_mod(0, old(self).pool_size as nat);
            }
        }
        idx
    }
}

/// The indices `n` successive `next` calls return when the cursor starts
/// at `start` over a pool of `size`.
pub open spec fn rotation_seq(start: int, size: int, n: int) -> Seq<int> {
    Seq::new(n as nat, |i: int| (start + i) % size)
}

/// How many entries of `s` equal `v`.
pub open spec fn count_of(s: Seq<int>, v: int) -> int
    decreases s.len(),
{
    if s.len() == 0 {
        0
    } else {
        count_of(s.drop_last(), v) + if s.last() == v {
            1int
        } else {
            0int
        }
    }
}

proof fn lemma_count_of_add(s1: Seq<int>, s2: Seq<int>, v: int)
    ensures
        count_of(s1 + s2, v) == count_of(s1, v) + count_of(s2, v),
    decreases s2.len(),
{
    if s2.len() == 0 {
        assert(s1 + s2 =~= s1);
    } else {
        lemma_count_of_add(s1, s2.drop_last(), v);
        assert((s1 + s2).drop_last() =~= s1 + s2.drop_last());
        assert((s1 + s2).last() == s2.last());
    }
}

proof fn lemma_wrap_index(start: int, size: int, i: int)
    requires
        0 <= start < size,
        0 <= i < size,
    ensures
        (start + i) % size == if start + i < size {
            start + i
        } else {
            start + i - size
        },
{
    if start + i < size {
        lemma_small_mod((start + i) as nat, size as nat);
    } else {
        lemma_mod_add_multiples_vanish(start + i - size, size);
        lemma_small_mod((start + i - size) as nat, size as nat);
    }
}

proof fn lemma_cycle_count_prefix(start: int, size: int, j: int, m: int)
    requires
        0 <= start < size,
        0 <= j < size,
        0 <= m <= size,
    ensures
        count_of(rotation_seq(start, size, m), j) == if (if j >= start {
            j - start
        } else {
            j + size - start
        }) < m {
            1int
        } else {
            0int
        },
    decreases m,
{
    let t = if j >= start {
        j - start
    } else {
        j + size - start
    };
    if m == 0 {
    } else {
        lemma_cycle_count_prefix(start, size, j, m - 1);
        let cur = rotation_seq(start, size, m);
        assert(cur.drop_last() =~= rotation_seq(start, size, m - 1));
        assert(cur.last() == (start + (m - 1)) % size);
        lemma_wrap_index(start, size, m - 1);
        assert((start + (m - 1)) % size == j <==> m - 1 == t);
    }
}

proof fn lemma_rotation_decompose(start: int, size: int, k: int)
    requires
        0 <= start < size,
        1 <= k,
    ensures
        rotation_seq(start, size, k * size) == rotation_seq(start, size, (k - 1) * size)
            + rotation_seq(start, size, size),
{
    assert(k * size == (k - 1) * size + size) by (nonlinear_arith);
    assert((k - 1) * size >= 0) by (nonlinear_arith)
        requires
            0 <= k - 1,
            0 < size,
    ;
    let n_prev = (k - 1) * size;
    let prev = rotation_seq(start, size, n_prev);
    let cycle = rotation_seq(start, size, size);
    let cur = rotation_seq(start, size, k * size);
    assert forall|ii: int| 0 <= ii < k * size implies #[trigger] cur[ii] == (prev + cycle)[ii] by {
        if ii < n_prev {
            assert((prev + cycle)[ii] == prev[ii]);
        } else {
            let i = ii - n_prev;
            assert((prev + cycle)[ii] == cycle[i]);
            assert(cur[ii] == (start + ii) % size);
            assert(start + ii == (start + i) + (k - 1) * size);
            lemma_mod_multiples_vanish_helper(k - 1, start + i, size);
        }
    }
    assert(cur =~= prev + cycle);
}

/// Law: round-robin fairness of the rotator — over `k * size` successive
/// `next` calls starting at any cursor position, every pool index is
/// returned exactly `k` times.
pub proof fn lemma_rotator_fair(start: int, size: int, k: int, j: int)
    requires
        0 <= start < size,
        0 <= j < size,
        0 <= k,
    ensures
        count_of(rotation_seq(start, size, k * size), j) == k,
    decreases k,
{
    if k == 0 {
        assert(rotation_seq(start, size, 0) =~= Seq::<int>::empty());
    } else {
        lemma_rotator_fair(start, size, k - 1, j);
        lemma_rotation_decompose(start, size, k);
        let n_prev = (k - 1) * size;
        let prev = rotation_seq(start, size, n_prev);
        let cycle = rotation_seq(start, size, size);
        lemma_count_of_add(prev, cycle, j);
        lemma_cycle_count_prefix(start, size, j, size);
        let t: int = if j >= start {
            j - start
        } else {
            j + size - start
        };
        assert(t < size);
        assert(count_of(cycle, j) == 1);
    }
}

proof fn lemma_mod_multiples_vanish_helper(c: int, b: int, m: int)
    requires
        0 < m,
        0 <= c,
    ensures
        (b + c * m) % m == b % m,
    decreases c,
{
    if c == 0 {
        assert(b + 0 * m == b) by (nonlinear_arith);
    } else {
        lemma_mod_multiples_vanish_helper(c - 1, b, m);
        assert(b + c * m == (b + (c - 1) * m) + m) by (nonlinear_arith);
        lemma_mod_add_multiples_vanish(b + (c - 1) * m, m);
    }
}

} // verus!
