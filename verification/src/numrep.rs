//! Canonical decimal byte representations of integers, as they appear in
//! the write request form fields and in the write response body.

use vstd::prelude::*;
use vstd::arithmetic::div_mod::{
    lemma_fundamental_div_mod, lemma_fundamental_div_mod_converse, lemma_mod_bound,
};

verus! {

/// An ASCII decimal digit.
pub open spec fn is_dec_digit(c: u8) -> bool {
    48 <= c && c <= 57
}

/// The canonical decimal digits of a nonnegative integer: no sign, no
/// leading zeros (`0` itself is the single digit `0`).
pub open spec fn dec_rep(n: nat) -> Seq<u8>
    decreases n,
{
    if n < 10 {
        seq![(48 + n) as u8]
    } else {
        dec_rep(n / 10).push((48 + n % 10) as u8)
    }
}

/// The canonical decimal bytes of an integer: a `-` sign followed by the
/// magnitude when negative.
pub open spec fn int_rep(n: int) -> Seq<u8> {
    if n < 0 {
        seq![45u8] + dec_rep((-n) as nat)
    } else {
        dec_rep(n as nat)
    }
}

/// `10^k`.
pub open spec fn pow10(k: nat) -> nat
    decreases k,
{
    if k == 0 {
        1
    } else {
        10 * pow10((k - 1) as nat)
    }
}

pub proof fn lemma_dec_rep_basic(n: nat)
    ensures
        dec_rep(n).len() >= 1,
        forall|i: int| 0 <= i < dec_rep(n).len() ==> is_dec_digit(#[trigger] dec_rep(n)[i]),
        n > 0 ==> dec_rep(n)[0] != 48,
        n == 0 ==> dec_rep(n) == seq![48u8],
    decreases n,
{
    if n < 10 {
        assert(dec_rep(n) == seq![(48 + n) as u8]);
    } else {
        lemma_dec_rep_basic(n / 10);
        lemma_mod_bound(n as int, 10);
        let prev = dec_rep(n / 10);
        let cur = dec_rep(n);
        assert(cur == prev.push((48 + n % 10) as u8));
        assert(n / 10 > 0);
        assert forall|i: int| 0 <= i < cur.len() implies is_dec_digit(#[trigger] cur[i]) by {
            if i < prev.len() {
                assert(cur[i] == prev[i]);
            } else {
                assert(cur[i] == (48 + n % 10) as u8);
            }
        }
        assert(cur[0] == prev[0]);
    }
}

pub proof fn lemma_dec_rep_unique(a: nat, b: nat)
    requires
        dec_rep(a) == dec_rep(b),
    ensures
        a == b,
    decreases a,
{
    lemma_dec_rep_basic(a);
    lemma_dec_rep_basic(b);
    if a < 10 && b < 10 {
        assert(dec_rep(a)[0] == (48 + a) as u8);
        assert(dec_rep(b)[0] == (48 + b) as u8);
    } else if a < 10 && b >= 10 {
        assert(dec_rep(b).len() == dec_rep(b / 10).len() + 1);
        lemma_dec_rep_basic(b / 10);
        assert(dec_rep(a).len() == 1);
    } else if a >= 10 && b < 10 {
        assert(dec_rep(a).len() == dec_rep(a / 10).len() + 1);
        lemma_dec_rep_basic(a / 10);
        assert(dec_rep(b).len() == 1);
    } else {
        let ra = dec_rep(a);
        let rb = dec_rep(b);
        assert(ra == dec_rep(a / 10).push((48 + a % 10) as u8));
        assert(rb == dec_rep(b / 10).push((48 + b % 10) as u8));
        assert(ra.last() == (48 + a % 10) as u8);
        assert(rb.last() == (48 + b % 10) as u8);
        lemma_mod_bound(a as int, 10);
        lemma_mod_bound(b as int, 10);
        assert(a % 10 == b % 10);
        assert(ra.drop_last() =~= dec_rep(a / 10));
        assert(rb.drop_last() =~= dec_rep(b / 10));
        lemma_dec_rep_unique(a / 10, b / 10);
        lemma_fundamental_div_mod(a as int, 10);
        lemma_fundamental_div_mod(b as int, 10);
    }
}

pub proof fn lemma_dec_rep_len_le(n: nat, k: nat)
    requires
        1 <= k,
        n < pow10(k),
    ensures
        dec_rep(n).len() <= k,
    decreases k,
{
    if n < 10 {
    } else {
        assert(pow10(k) == 10 * pow10((k - 1) as nat));
        if k == 1 {
            assert(pow10(1nat) == 10);
            assert(false);
        }
        lemma_fundamental_div_mod(n as int, 10);
        lemma_mod_bound(n as int, 10);
        assert(n == 10 * (n as int / 10) + n as int % 10);
        if n / 10 >= pow10((k - 1) as nat) {
            assert(n >= 10 * pow10((k - 1) as nat)) by (nonlinear_arith)
                requires
                    n as int / 10 >= pow10((k - 1) as nat),
                    n == 10 * (n as int / 10) + n as int % 10,
                    n as int % 10 >= 0,
            ;
            assert(false);
        }
        lemma_dec_rep_len_le(n / 10, (k - 1) as nat);
    }
}

pub proof fn lemma_dec_rep_step(v: nat, d: nat)
    requires
        v > 0,
        d < 10,
    ensures
        dec_rep(v * 10 + d) == dec_rep(v).push((48 + d) as u8),
{
    let m = v * 10 + d;
    assert(m == 10 * v + d);
    lemma_fundamental_div_mod_converse(m as int, 10, v as int, d as int);
    assert(m >= 10) by (nonlinear_arith)
        requires
            v >= 1,
            m == 10 * v + d,
            d >= 0,
    ;
}

/// Relies on `String::from_utf8`: a sequence of ASCII bytes decodes to
/// the string whose characters have exactly those code points.
#[verifier::external_body]
pub(crate) fn ascii_to_string(bytes: Vec<u8>) -> (r: String)
    requires
        forall|i: int| 0 <= i < bytes@.len() ==> bytes@[i] < 128,
    ensures
        r@.len() == bytes@.len(),
        forall|i: int| 0 <= i < bytes@.len() ==> (#[trigger] r@[i]) as u8 == bytes@[i] && (r@[i]
            as u32) < 128,
{
    String::from_utf8(bytes).unwrap_or_default()
}

/// The decimal digits of `n`, as bytes.
pub fn u64_to_dec(n: u64) -> (r: Vec<u8>)
    ensures
        r@ == dec_rep(n as nat),
    decreases n,
{
    if n < 10 {
        let mut v: Vec<u8> = Vec::new();
        v.push(48 + (n as u8));
        proof {
            assert(v@ =~= seq![(48 + n as nat) as u8]);
        }
        v
    } else {
        let mut v = u64_to_dec(n / 10);
        v.push(48 + ((n % 10) as u8));
        proof {
            assert(n as nat / 10 == (n / 10) as nat);
            assert(n as nat % 10 == (n % 10) as nat);
        }
        v
    }
}

} // verus!
