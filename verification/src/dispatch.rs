//! The dispatch stage: drain a batch of jobs from the backlog store,
//! assign each one a rotated credential, and build the form fields of its
//! write request.

use vstd::prelude::*;
use vstd::arithmetic::div_mod::{lemma_small_mod, lemma_mod_bound, lemma_mod_adds, lemma_mod_self_0};
use crate::backlog::{BacklogStore, drained_spec, remainder_spec};
use crate::diff::WriteJob;
use crate::rotator::{CredentialRotator, rotator_wf};
use crate::config::Token;
use crate::numrep::{dec_rep, int_rep, u64_to_dec, lemma_dec_rep_basic, ascii_to_string};
use crate::response::ascii_codes;

verus! {

proof fn lemma_mod_succ(a: int, s: int)
    requires
        0 < s,
        0 <= a,
    ensures
        (a % s + 1) % s == (a + 1) % s,
{
    lemma_mod_bound(a, s);
    lemma_mod_bound(a + 1, s);
    if s == 1 {
        lemma_mod_bound(a % 1 + 1, 1);
    } else {
        lemma_small_mod(1nat, s as nat);
        lemma_mod_adds(a, 1, s);
        if a % s + 1 < s {
            lemma_small_mod((a % s + 1) as nat, s as nat);
        } else {
            assert(a % s + 1 == s);
            lemma_mod_self_0(s);
            let r: int = (a + 1) % s;
            let q: int = (a % s + 1int % s) / s;
            assert(a % s + 1int % s == r + s * q);
            assert(r == 0) by (nonlinear_arith)
                requires
                    s == r + s * q,
                    0 <= r < s,
            ;
        }
    }
}

/// One dispatch cycle's planning step: removes up to one pool's worth of
/// jobs from the store and pairs each with the pool index of the next
/// rotated credential. The store and the rotator cursor advance exactly
/// by what was drained.
pub fn plan_dispatch(store: &mut BacklogStore, rot: &mut CredentialRotator) -> (r: Vec<
    (WriteJob, usize),
>)
    requires
        rotator_wf(*old(rot)),
    ensures
        rotator_wf(*final(rot)),
        final(rot).pool_size == old(rot).pool_size,
        r@.len() == drained_spec(old(store)@, old(rot).pool_size as int).len(),
        forall|i: int|
            0 <= i < r@.len() ==> (#[trigger] r@[i]).0 == drained_spec(
                old(store)@,
                old(rot).pool_size as int,
            )[i] && r@[i].1 == (old(rot).pos + i) % (old(rot).pool_size as int) && r@[i].1 < old(
                rot,
            ).pool_size,
        final(store)@ == remainder_spec(old(store)@, old(rot).pool_size as int),
        final(rot).pos == (old(rot).pos + r@.len()) % (old(rot).pool_size as int),
{
    let ghost p0 = old(rot).pos as int;
    let ghost s = old(rot).pool_size as int;
    let jobs = store.drain_up_to(rot.pool_size);
    let mut r: Vec<(WriteJob, usize)> = Vec::new();
    let mut i: usize = 0;
    proof {
        lemma_small_mod(old(rot).pos as nat, old(rot).pool_size as nat);
    }
    while i < jobs.len()
        invariant
            i <= jobs@.len(),
            rotator_wf(*rot),
            rot.pool_size == old(rot).pool_size,
            s == old(rot).pool_size as int,
            p0 == old(rot).pos as int,
            0 <= p0 < s,
            rot.pos == (p0 + i) % s,
            r@.len() == i,
            forall|k: int|
                0 <= k < i ==> (#[trigger] r@[k]).0 == jobs@[k] && r@[k].1 == (p0 + k) % s
                    && r@[k].1 < s,
        decreases jobs@.len() - i,
    {
        let idx = rot.next();
        r.push((jobs[i], idx));
        proof {
            lemma_mod_succ(p0 + i, s);
            lemma_mod_bound(p0 + i, s);
        }
        i += 1;
    }
    r
}

/// The five form fields of one write request: the coordinates and color
/// in decimal, the credential identity in decimal, and the credential
/// secret verbatim.
pub fn build_paint_form(job: &WriteJob, token: &Token) -> (r: Vec<(String, String)>)
    ensures
        r@.len() == 5,
        r@[0].0@ == "x"@ && ascii_codes(r@[0].1@) == dec_rep(job.x as nat),
        r@[1].0@ == "y"@ && ascii_codes(r@[1].1@) == dec_rep(job.y as nat),
        r@[2].0@ == "color"@ && ascii_codes(r@[2].1@) == dec_rep(job.color as nat),
        r@[3].0@ == "uid"@ && ascii_codes(r@[3].1@) == int_rep(token.uid as int),
        r@[4].0@ == "token"@ && r@[4].1@ == token.token@,
{
    let x_s = dec_string_u64(job.x as u64);
    let y_s = dec_string_u64(job.y as u64);
    let c_s = dec_string_u64(job.color as u64);
    let uid_s = dec_string_i32(token.uid);
    let mut r: Vec<(String, String)> = Vec::new();
    r.push(("x".to_owned(), x_s));
    r.push(("y".to_owned(), y_s));
    r.push(("color".to_owned(), c_s));
    r.push(("uid".to_owned(), uid_s));
    r.push(("token".to_owned(), token.token.clone()));
    r
}

/// The decimal string of an unsigned value.
pub fn dec_string_u64(n: u64) -> (r: String)
    ensures
        ascii_codes(r@) == dec_rep(n as nat),
{
    let bytes = u64_to_dec(n);
    proof {
        lemma_dec_rep_basic(n as nat);
        assert(forall|i: int| 0 <= i < bytes@.len() ==> bytes@[i] < 128);
    }
    let r = ascii_to_string(bytes);
    proof {
        assert(ascii_codes(r@) =~= dec_rep(n as nat));
    }
    r
}

/// The decimal string of a signed value, `-` sign included.
pub fn dec_string_i32(n: i32) -> (r: String)
    ensures
        ascii_codes(r@) == int_rep(n as int),
{
    if n >= 0 {
        let r = dec_string_u64(n as u64);
        proof {
            assert(int_rep(n as int) == dec_rep(n as nat));
        }
        r
    } else {
        let mag: u64 = (-(n as i64)) as u64;
        let mut bytes: Vec<u8> = Vec::new();
        bytes.push(45);
        let mut digits = u64_to_dec(mag);
        bytes.append(&mut digits);
        proof {
            lemma_dec_rep_basic(mag as nat);
            assert(bytes@ =~= seq![45u8] + dec_rep(mag as nat));
            assert(forall|i: int| 0 <= i < bytes@.len() ==> bytes@[i] < 128);
        }
        let r = ascii_to_string(bytes);
        proof {
            assert(mag as nat == (-(n as int)) as nat);
            assert(ascii_codes(r@) =~= int_rep(n as int));
        }
        r
    }
}

} // verus!
