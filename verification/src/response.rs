//! The write response body: a small JSON object `{"data":<string>,"status":<integer>}`
//! in its canonical serialization, and its classification into success,
//! non-fatal rejection, or unparseable error.
//!
//! The accepted grammar is the canonical form the write endpoint emits: no
//! surrounding whitespace, the two fields in this order, the string free
//! of escapes, the integer in canonical decimal. A body outside this
//! grammar is classified as unparseable.

use vstd::prelude::*;
use crate::numrep::{
    dec_rep, int_rep, is_dec_digit, pow10, lemma_dec_rep_basic, lemma_dec_rep_unique,
    lemma_dec_rep_len_le, lemma_dec_rep_step, ascii_to_string,
};

verus! {

/// A parsed write response: the server's message and its status code.
#[derive(Clone, Debug)]
pub struct PaintResponse {
    pub data: String,
    pub status: i32,
}

/// The bytes `{"data":"`.
pub open spec fn lit_open() -> Seq<u8> {
    seq![123u8, 34u8, 100u8, 97u8, 116u8, 97u8, 34u8, 58u8, 34u8]
}

/// The bytes `","status":`.
pub open spec fn lit_mid() -> Seq<u8> {
    seq![34u8, 44u8, 34u8, 115u8, 116u8, 97u8, 116u8, 117u8, 115u8, 34u8, 58u8]
}

/// A byte that may appear in the data string: printable ASCII, no quote,
/// no backslash.
pub open spec fn plain_byte(c: u8) -> bool {
    32 <= c && c < 127 && c != 34 && c != 92
}

/// A payload the response grammar can carry: a plain data string and a
/// status in the signed 32-bit range.
pub open spec fn wf_payload(d: Seq<u8>, n: int) -> bool {
    (forall|i: int| 0 <= i < d.len() ==> plain_byte(#[trigger] d[i])) && -2147483648 <= n
        <= 2147483647
}

/// The canonical response body carrying data `d` and status `n`.
pub open spec fn render(d: Seq<u8>, n: int) -> Seq<u8> {
    lit_open() + d + lit_mid() + int_rep(n) + seq![125u8]
}

/// `s` is the canonical response body for payload `(d, n)`.
pub open spec fn is_paint_body(s: Seq<u8>, d: Seq<u8>, n: int) -> bool {
    wf_payload(d, n) && s == render(d, n)
}

/// The byte codes of an ASCII character sequence.
pub open spec fn ascii_codes(s: Seq<char>) -> Seq<u8> {
    s.map_values(|c: char| c as u8)
}

/// The first nine bytes spell `{"data":"`.
pub open spec fn open_prefix_ok(s: Seq<u8>) -> bool {
    &&& s.len() >= 9
    &&& s[0] == 123
    &&& s[1] == 34
    &&& s[2] == 100
    &&& s[3] == 97
    &&& s[4] == 116
    &&& s[5] == 97
    &&& s[6] == 34
    &&& s[7] == 58
    &&& s[8] == 34
}

/// The eleven bytes at `q` spell `","status":`.
pub open spec fn mid_ok(s: Seq<u8>, q: int) -> bool {
    &&& q + 11 <= s.len()
    &&& s[q] == 34
    &&& s[q + 1] == 44
    &&& s[q + 2] == 34
    &&& s[q + 3] == 115
    &&& s[q + 4] == 116
    &&& s[q + 5] == 97
    &&& s[q + 6] == 116
    &&& s[q + 7] == 117
    &&& s[q + 8] == 115
    &&& s[q + 9] == 34
    &&& s[q + 10] == 58
}

proof fn lemma_render_facts(d: Seq<u8>, n: int)
    requires
        wf_payload(d, n),
    ensures
        render(d, n).len() == 21 + d.len() + int_rep(n).len(),
        open_prefix_ok(render(d, n)),
        forall|i: int|
            9 <= i < 9 + d.len() ==> plain_byte(#[trigger] render(d, n)[i]) && render(d, n)[i]
                == d[i - 9],
        mid_ok(render(d, n), 9 + d.len() as int),
        render(d, n).skip(20 + d.len() as int) == int_rep(n) + seq![125u8],
{
    let s = render(d, n);
    let dl = d.len() as int;
    let il = int_rep(n).len() as int;
    assert(s.len() == 21 + dl + il);
    assert(s.skip(20 + dl) =~= int_rep(n) + seq![125u8]);
}

/// The magnitude of an integer.
pub open spec fn abs_of(n: int) -> nat {
    if n < 0 {
        (-n) as nat
    } else {
        n as nat
    }
}

proof fn lemma_int_rep_shape(n: int)
    requires
        -2147483648 <= n <= 2147483647,
    ensures
        int_rep(n).len() >= 1,
        n >= 0 ==> int_rep(n) == dec_rep(n as nat) && dec_rep(n as nat).len() <= 10,
        n < 0 ==> int_rep(n) == seq![45u8] + dec_rep((-n) as nat) && int_rep(n)[0] == 45
            && dec_rep((-n) as nat).len() <= 10 && dec_rep((-n) as nat)[0] != 48,
        forall|i: int|
            0 <= i < dec_rep(abs_of(n)).len() ==> is_dec_digit(
                #[trigger] dec_rep(abs_of(n))[i],
            ),
        n > 0 ==> dec_rep(n as nat)[0] != 48,
        n == 0 ==> dec_rep(n as nat) == seq![48u8],
{
    reveal_with_fuel(pow10, 12);
    assert(pow10(10) == 10000000000);
    let m = abs_of(n);
    lemma_dec_rep_basic(m);
    lemma_dec_rep_len_le(m, 10);
    if n >= 0 {
        assert(abs_of(n) == n);
    } else {
        assert(abs_of(n) == -n);
        assert((-n) as nat > 0);
    }
}

proof fn lemma_run_pins_magnitude(seg: Seq<u8>, p0: int, r_len: int, v: nat, m: nat)
    requires
        1 <= r_len,
        v >= 1,
        0 <= p0,
        p0 + r_len <= seg.len(),
        seg.subrange(p0, p0 + r_len) == dec_rep(v),
        p0 + r_len == seg.len() || !is_dec_digit(seg[p0 + r_len]),
        seg.skip(p0) == dec_rep(m) + seq![125u8],
    ensures
        m == v,
        seg.len() == p0 + r_len + 1,
        seg[p0 + r_len] == 125,
{
    lemma_dec_rep_basic(v);
    lemma_dec_rep_basic(m);
    let dl = dec_rep(m).len() as int;
    assert(dec_rep(v).len() == r_len);
    assert(seg.skip(p0).len() == seg.len() - p0);
    assert(seg.len() - p0 == dl + 1);
    assert forall|i: int| 0 <= i < dl implies #[trigger] seg[p0 + i] == dec_rep(m)[i] by {
        assert(seg.skip(p0)[i] == dec_rep(m)[i]);
    }
    assert(seg[p0 + dl] == (dec_rep(m) + seq![125u8])[dl]);
    assert(seg[p0 + dl] == 125);
    if dl < r_len {
        assert(seg[p0 + dl] == dec_rep(v)[dl]);
        assert(is_dec_digit(dec_rep(v)[dl]));
        assert(false);
    }
    if dl > r_len {
        assert(p0 + r_len < seg.len());
        assert(!is_dec_digit(seg[p0 + r_len]));
        assert(seg[p0 + r_len] == dec_rep(m)[r_len]);
        assert(false);
    }
    assert(dec_rep(m) =~= seg.subrange(p0, p0 + dl));
    lemma_dec_rep_unique(m, v);
}

/// Parses the byte range from `pos` to the end as a canonical decimal
/// integer followed by the closing brace `}` of the response object.
#[verifier::rlimit(100)]
fn parse_int_segment(body: &Vec<u8>, pos: usize) -> (r: Option<i32>)
    requires
        pos <= body@.len(),
    ensures
        match r {
            Some(v) => body@.skip(pos as int) == int_rep(v as int) + seq![125u8],
            None => forall|n: int|
                -2147483648 <= n <= 2147483647 ==> body@.skip(pos as int) != int_rep(n) + seq![
                    125u8,
                ],
        },
{
    let ghost seg = body@.skip(pos as int);
    let len = body.len();
    proof {
        reveal_with_fuel(pow10, 12);
        assert(pow10(0nat) == 1);
        assert(pow10(10) == 10000000000);
    }
    if pos >= len {
        proof {
            assert forall|n: int| -2147483648 <= n <= 2147483647 implies seg != int_rep(n) + seq![
                125u8,
            ] by {
                lemma_int_rep_shape(n);
                lemma_dec_rep_basic(abs_of(n));
                if n >= 0 {
                    assert(abs_of(n) == n as nat);
                } else {
                    assert(abs_of(n) == (-n) as nat);
                }
                assert((int_rep(n) + seq![125u8]).len() >= 2);
                assert(seg.len() == 0);
            }
        }
        return None;
    }
    let neg = body[pos] == 45;
    let start: usize = if neg {
        pos + 1
    } else {
        pos
    };
    let ghost p0: int = if neg {
        1int
    } else {
        0int
    };
    if start >= len || !(48 <= body[start] && body[start] <= 57) {
        proof {
            assert forall|n: int| -2147483648 <= n <= 2147483647 implies seg != int_rep(n) + seq![
                125u8,
            ] by {
                lemma_int_rep_shape(n);
                lemma_dec_rep_basic(abs_of(n));
                if n >= 0 {
                    assert(abs_of(n) == n as nat);
                } else {
                    assert(abs_of(n) == (-n) as nat);
                }
                if seg == int_rep(n) + seq![125u8] {
                    if n >= 0 {
                        assert(seg[0] == dec_rep(n as nat)[0]);
                        assert(is_dec_digit(seg[0]));
                        assert(!neg);
                        assert(seg[0] == body@[pos as int]);
                        assert(false);
                    } else {
                        assert(seg[0] == 45);
                        assert(neg);
                        assert(seg.len() >= dec_rep((-n) as nat).len() + 2);
                        assert(seg[1] == dec_rep((-n) as nat)[0]);
                        assert(is_dec_digit(seg[1]));
                        assert(seg[1] == body@[pos + 1]);
                        assert(false);
                    }
                }
            }
        }
        return None;
    }
    // first digit present at `start`
    let d0 = body[start];
    let mut i: usize = start + 1;
    let mut v: u64 = (d0 - 48) as u64;
    if d0 == 48 {
        // canonical zero: the digit run must be exactly "0"
        if i < len && 48 <= body[i] && body[i] <= 57 {
            proof {
                assert forall|n: int|
                    -2147483648 <= n <= 2147483647 implies seg != int_rep(n) + seq![125u8] by {
                    lemma_int_rep_shape(n);
                    lemma_dec_rep_basic(abs_of(n));
                    if n >= 0 {
                        assert(abs_of(n) == n as nat);
                    } else {
                        assert(abs_of(n) == (-n) as nat);
                    }
                lemma_dec_rep_basic(abs_of(n));
                if n >= 0 {
                    assert(abs_of(n) == n as nat);
                } else {
                    assert(abs_of(n) == (-n) as nat);
                }
                    if seg == int_rep(n) + seq![125u8] {
                        if n > 0 {
                            assert(seg[0] == dec_rep(n as nat)[0]);
                            assert(seg[p0] == body@[start as int]);
                            if neg {
                                assert(seg[0] == 45);
                                assert(is_dec_digit(dec_rep(n as nat)[0]));
                                assert(false);
                            } else {
                                assert(seg[0] == 48);
                                assert(dec_rep(n as nat)[0] != 48);
                                assert(false);
                            }
                        } else if n == 0 {
                            assert(int_rep(n) == seq![48u8]);
                            assert(seg.len() == 2);
                            if neg {
                                assert(seg[0] == 45);
                                assert((seq![48u8] + seq![125u8])[0] == 48);
                                assert(false);
                            } else {
                                assert(seg[1] == (seq![48u8] + seq![125u8])[1]);
                                assert(seg[1] == 125);
                                assert(seg[1] == body@[start + 1]);
                                assert(is_dec_digit(body@[start + 1]));
                                assert(false);
                            }
                        } else {
                            assert(seg[0] == 45);
                            assert(neg);
                            assert(seg[1] == dec_rep((-n) as nat)[0]);
                            assert(seg[1] == body@[start as int]);
                            assert(body@[start as int] == 48);
                            assert(dec_rep((-n) as nat)[0] != 48);
                            assert(false);
                        }
                    }
                }
            }
            return None;
        }
    } else {
        // scan further digits, at most ten in total
        while i < len && 48 <= body[i] && body[i] <= 57 && i - start < 10
            invariant
                pos <= start < i <= len,
                i - start <= 10,
                len == body@.len(),
                1 <= v,
                v < pow10((i - start) as nat),
                body@.subrange(start as int, i as int) == dec_rep(v as nat),
            decreases len - i,
        {
            let dg = body[i];
            proof {
                reveal_with_fuel(pow10, 12);
                assert(pow10(((i - start) + 1) as nat) == 10 * pow10((i - start) as nat));
                assert(v * 10 + 9 < 10 * pow10((i - start) as nat));
                lemma_dec_rep_step(v as nat, (dg - 48) as nat);
                assert(body@.subrange(start as int, i + 1) =~= body@.subrange(
                    start as int,
                    i as int,
                ).push(dg));
            }
            v = v * 10 + ((dg - 48) as u64);
            i = i + 1;
        }
        if i < len && 48 <= body[i] && body[i] <= 57 {
            // an eleventh digit: no 32-bit status has this many
            proof {
                assert(i - start == 10);
                assert forall|n: int|
                    -2147483648 <= n <= 2147483647 implies seg != int_rep(n) + seq![125u8] by {
                    lemma_int_rep_shape(n);
                    lemma_dec_rep_basic(abs_of(n));
                    if n >= 0 {
                        assert(abs_of(n) == n as nat);
                    } else {
                        assert(abs_of(n) == (-n) as nat);
                    }
                lemma_dec_rep_basic(abs_of(n));
                if n >= 0 {
                    assert(abs_of(n) == n as nat);
                } else {
                    assert(abs_of(n) == (-n) as nat);
                }
                    if seg == int_rep(n) + seq![125u8] {
                        let m = abs_of(n);
                        assert(seg.skip(p0) =~= dec_rep(m) + seq![125u8]) by {
                            if n < 0 {
                                assert(seg[0] == 45);
                                assert(neg) by {
                                    assert(seg[0] == body@[pos as int]);
                                }
                                assert forall|z: int|
                                    0 <= z < seg.len() - 1 implies #[trigger] seg.skip(1)[z] == (
                                    dec_rep(m) + seq![125u8])[z] by {
                                    assert(seg[1 + z] == (seq![45u8] + dec_rep(m) + seq![
                                        125u8,
                                    ])[1 + z]);
                                }
                            } else {
                                assert(!neg) by {
                                    assert(seg[0] == dec_rep(m)[0]);
                                    assert(is_dec_digit(seg[0]));
                                    assert(seg[0] == body@[pos as int]);
                                }
                            }
                        }
                        let dl = dec_rep(m).len() as int;
                        assert(dl <= 10);
                        assert(seg[p0 + dl] == (dec_rep(m) + seq![125u8])[dl]);
                        assert(seg[p0 + dl] == 125);
                        assert(seg[p0 + dl] == body@[start + dl]);
                        assert(is_dec_digit(body@[start + dl])) by {
                            if dl < 10 {
                                assert(body@[start + dl] == body@.subrange(
                                    start as int,
                                    i as int,
                                )[dl]);
                                assert(body@.subrange(start as int, i as int)[dl] == dec_rep(
                                    v as nat,
                                )[dl]);
                                lemma_dec_rep_basic(v as nat);
                            }
                        }
                        assert(false);
                    }
                }
            }
            return None;
        }
    }
    // the digit run ends at `i`; it must be followed by the closing brace
    // and nothing else, and the value must fit a 32-bit status
    let ghost r_len: int = i - start;
    proof {
        assert(body@.subrange(start as int, i as int) == dec_rep(v as nat)) by {
            if d0 == 48 {
                assert(body@.subrange(start as int, i as int) =~= seq![48u8]);
            }
        }
        assert(seg.subrange(p0, p0 + r_len) =~= body@.subrange(start as int, i as int));
        assert(p0 + r_len == seg.len() || !is_dec_digit(seg[p0 + r_len])) by {
            if i < len {
                assert(seg[p0 + r_len] == body@[i as int]);
            }
        }
    }
    if neg && v == 0 {
        proof {
            assert forall|n: int| -2147483648 <= n <= 2147483647 implies seg != int_rep(n) + seq![
                125u8,
            ] by {
                lemma_int_rep_shape(n);
                lemma_dec_rep_basic(abs_of(n));
                if n >= 0 {
                    assert(abs_of(n) == n as nat);
                } else {
                    assert(abs_of(n) == (-n) as nat);
                }
                if seg == int_rep(n) + seq![125u8] {
                    assert(seg[0] == body@[pos as int]);
                    assert(seg[0] == 45);
                    assert(n < 0) by {
                        if n >= 0 {
                            assert(seg[0] == dec_rep(n as nat)[0]);
                            assert(is_dec_digit(seg[0]));
                        }
                    }
                    assert(seg[1] == dec_rep((-n) as nat)[0]);
                    assert(seg[1] == body@[start as int]);
                    assert(body@[start as int] == 48);
                    assert(dec_rep((-n) as nat)[0] != 48);
                    assert(false);
                }
            }
        }
        return None;
    }
    let fits = if neg {
        v <= 2147483648
    } else {
        v <= 2147483647
    };
    let ends = i < len && body[i] == 125 && len - i == 1;
    if !(fits && ends) {
        proof {
            assert forall|n: int| -2147483648 <= n <= 2147483647 implies seg != int_rep(n) + seq![
                125u8,
            ] by {
                lemma_int_rep_shape(n);
                lemma_dec_rep_basic(abs_of(n));
                if n >= 0 {
                    assert(abs_of(n) == n as nat);
                } else {
                    assert(abs_of(n) == (-n) as nat);
                }
                if seg == int_rep(n) + seq![125u8] {
                    let m = abs_of(n);
                    assert(seg.skip(p0) =~= dec_rep(m) + seq![125u8]) by {
                        if n < 0 {
                            assert(seg[0] == 45);
                            assert(neg) by {
                                assert(seg[0] == body@[pos as int]);
                            }
                            assert forall|z: int|
                                0 <= z < seg.len() - 1 implies #[trigger] seg.skip(1)[z] == (
                                dec_rep(m) + seq![125u8])[z] by {
                                assert(seg[1 + z] == (seq![45u8] + dec_rep(m) + seq![125u8])[1
                                    + z]);
                            }
                        } else {
                            assert(!neg) by {
                                assert(seg[0] == dec_rep(m)[0]);
                                assert(is_dec_digit(seg[0]));
                                assert(seg[0] == body@[pos as int]);
                                if neg {
                                    assert(seg[0] == 45);
                                }
                            }
                        }
                    }
                    if v == 0 {
                        assert(!neg);
                        assert(seg.subrange(p0, p0 + r_len) =~= seq![48u8]);
                        assert(seg[p0] == 48);
                        assert(dec_rep(m)[0] == seg.skip(p0)[0]);
                        assert(dec_rep(m)[0] == 48);
                        lemma_dec_rep_basic(m);
                        assert(m == 0) by {
                            if m > 0 {
                                assert(dec_rep(m)[0] != 48);
                            }
                        }
                        assert(seg.len() - p0 == 2);
                        assert(seg[p0 + 1] == (dec_rep(m) + seq![125u8])[1]);
                        assert(seg[p0 + 1] == 125);
                        assert(fits);
                        assert(i < len && body@[i as int] == 125 && len - i == 1) by {
                            assert(seg.len() == len - pos);
                            assert(seg[p0 + 1] == body@[i as int]);
                        }
                        assert(false);
                    } else {
                        lemma_run_pins_magnitude(seg, p0, r_len, v as nat, m);
                        assert(m == v);
                        assert(m <= 2147483648);
                        assert(n >= 0 ==> m <= 2147483647);
                        assert(fits) by {
                            if neg {
                                assert(v <= 2147483648);
                            } else {
                                assert(n >= 0);
                                assert(v <= 2147483647);
                            }
                        }
                        assert(seg.len() == p0 + r_len + 1);
                        assert(seg[p0 + r_len] == 125);
                        assert(i < len && body@[i as int] == 125 && len - i == 1) by {
                            assert(seg.len() == len - pos);
                            assert(seg[p0 + r_len] == body@[i as int]);
                        }
                        assert(false);
                    }
                }
            }
        }
        return None;
    }
    let value: i32 = if neg {
        if v == 2147483648 {
            i32::MIN
        } else {
            0 - (v as i32)
        }
    } else {
        v as i32
    };
    proof {
        let n = value as int;
        assert(abs_of(n) == v as nat);
        lemma_int_rep_shape(n);
        assert(seg =~= int_rep(n) + seq![125u8]) by {
            assert(seg.len() == len - pos);
            assert(seg.len() == p0 + r_len + 1);
            assert(int_rep(n).len() == p0 + r_len);
            assert forall|z: int| 0 <= z < seg.len() implies #[trigger] seg[z] == (int_rep(n)
                + seq![125u8])[z] by {
                if neg {
                    assert(int_rep(n) == seq![45u8] + dec_rep(v as nat));
                    if z == 0 {
                        assert(seg[0] == body@[pos as int]);
                    } else if z < p0 + r_len {
                        assert(int_rep(n)[z] == dec_rep(v as nat)[z - 1]);
                        assert(seg[z] == seg.subrange(p0, p0 + r_len)[z - 1]);
                    } else {
                        assert(seg[z] == body@[i as int]);
                    }
                } else {
                    assert(int_rep(n) == dec_rep(v as nat));
                    if z < r_len {
                        assert(seg[z] == seg.subrange(p0, p0 + r_len)[z]);
                    } else {
                        assert(seg[z] == body@[i as int]);
                    }
                }
            }
        }
    }
    Some(value)
}

/// `q` is a closing quote for the data string: a quote preceded only by
/// plain bytes from position 9 on.
pub open spec fn quote_pos_ok(s: Seq<u8>, q: int) -> bool {
    s[q] == 34 && forall|i: int| 9 <= i < q ==> plain_byte(#[trigger] s[i])
}

fn has_open_prefix(body: &Vec<u8>) -> (r: bool)
    ensures
        r == open_prefix_ok(body@),
{
    body.len() >= 9 && body[0] == 123 && body[1] == 34 && body[2] == 100 && body[3] == 97
        && body[4] == 116 && body[5] == 97 && body[6] == 34 && body[7] == 58 && body[8] == 34
}

fn find_data_end(body: &Vec<u8>) -> (r: Option<usize>)
    requires
        body@.len() >= 9,
    ensures
        match r {
            Some(q) => 9 <= q < body@.len() && quote_pos_ok(body@, q as int),
            None => forall|q: int| 9 <= q < body@.len() ==> !quote_pos_ok(body@, q),
        },
{
    let len = body.len();
    let mut i: usize = 9;
    while i < len
        invariant
            9 <= i <= len,
            len == body@.len(),
            forall|k: int| 9 <= k < i ==> plain_byte(#[trigger] body@[k]),
        decreases len - i,
    {
        if body[i] == 34 {
            return Some(i);
        }
        let c = body[i];
        if !(32 <= c && c < 127 && c != 92) {
            proof {
                let b = i as int;
                assert(!plain_byte(body@[b]));
                assert forall|q: int| 9 <= q < body@.len() implies !quote_pos_ok(body@, q) by {
                    if q < b {
                        assert(plain_byte(body@[q]));
                    } else if q == b {
                        assert(body@[q] != 34);
                    } else {
                        assert(9 <= b < q && !plain_byte(body@[b]));
                    }
                }
            }
            return None;
        }
        i += 1;
    }
    proof {
        assert forall|q: int| 9 <= q < body@.len() implies !quote_pos_ok(body@, q) by {
            assert(plain_byte(body@[q]));
        }
    }
    None
}

fn matches_mid(body: &Vec<u8>, q: usize) -> (r: bool)
    requires
        q < body@.len(),
    ensures
        r == mid_ok(body@, q as int),
{
    let len = body.len();
    if len - q < 11 {
        return false;
    }
    body[q] == 34 && body[q + 1] == 44 && body[q + 2] == 34 && body[q + 3] == 115 && body[q + 4]
        == 116 && body[q + 5] == 97 && body[q + 6] == 116 && body[q + 7] == 117 && body[q + 8]
        == 115 && body[q + 9] == 34 && body[q + 10] == 58
}

/// Parses a write response body. Succeeds exactly on the canonical bodies
/// `{"data":"<plain text>","status":<canonical 32-bit decimal>}` and then
/// returns the carried payload; on every other body it returns `None`.
pub fn parse_paint_response(body: &Vec<u8>) -> (r: Option<PaintResponse>)
    ensures
        match r {
            Some(p) => is_paint_body(body@, ascii_codes(p.data@), p.status as int),
            None => forall|d: Seq<u8>, n: int| !is_paint_body(body@, d, n),
        },
{
    let ghost s = body@;
    if !has_open_prefix(body) {
        proof {
            assert forall|d: Seq<u8>, n: int| !is_paint_body(s, d, n) by {
                if is_paint_body(s, d, n) {
                    lemma_render_facts(d, n);
                }
            }
        }
        return None;
    }
    let q = match find_data_end(body) {
        Some(q) => q,
        None => {
            proof {
                assert forall|d: Seq<u8>, n: int| !is_paint_body(s, d, n) by {
                    if is_paint_body(s, d, n) {
                        lemma_render_facts(d, n);
                        let qq = 9 + d.len() as int;
                        assert(s[qq] == 34);
                        assert(qq < s.len());
                        assert(quote_pos_ok(s, qq));
                    }
                }
            }
            return None;
        },
    };
    if !matches_mid(body, q) {
        proof {
            assert forall|d: Seq<u8>, n: int| !is_paint_body(s, d, n) by {
                if is_paint_body(s, d, n) {
                    lemma_render_facts(d, n);
                    let qq = 9 + d.len() as int;
                    if q < qq {
                        assert(plain_byte(s[q as int]));
                        assert(s[q as int] == 34);
                        assert(false);
                    } else if q > qq {
                        assert(plain_byte(s[qq]));
                        assert(s[qq] == 34);
                        assert(false);
                    }
                    assert(mid_ok(s, q as int));
                }
            }
        }
        return None;
    }
    let blen = body.len();
    proof {
        assert(q + 11 <= blen);
    }
    let st = match parse_int_segment(body, q + 11) {
        Some(st) => st,
        None => {
            proof {
                assert forall|d: Seq<u8>, n: int| !is_paint_body(s, d, n) by {
                    if is_paint_body(s, d, n) {
                        lemma_render_facts(d, n);
                        let qq = 9 + d.len() as int;
                        if q < qq {
                            assert(plain_byte(s[q as int]));
                            assert(s[q as int] == 34);
                            assert(false);
                        } else if q > qq {
                            assert(plain_byte(s[qq]));
                            assert(s[qq] == 34);
                            assert(false);
                        }
                        assert(s.skip(q + 11) == int_rep(n) + seq![125u8]);
                    }
                }
            }
            return None;
        },
    };
    let mut data_bytes: Vec<u8> = Vec::new();
    let mut i: usize = 9;
    while i < q
        invariant
            9 <= i <= q,
            q < body@.len(),
            s == body@,
            quote_pos_ok(s, q as int),
            data_bytes@ == s.subrange(9, i as int),
        decreases q - i,
    {
        data_bytes.push(body[i]);
        proof {
            assert(data_bytes@ =~= s.subrange(9, i + 1));
        }
        i += 1;
    }
    proof {
        assert forall|k: int| 0 <= k < data_bytes@.len() implies data_bytes@[k] < 128 by {
            assert(data_bytes@[k] == s[9 + k]);
            assert(plain_byte(s[9 + k]));
        }
    }
    let data = ascii_to_string(data_bytes);
    let resp = PaintResponse { data, status: st };
    proof {
        let d = s.subrange(9, q as int);
        let nn = st as int;
        assert forall|k: int| 0 <= k < d.len() implies plain_byte(#[trigger] d[k]) by {
            assert(d[k] == s[9 + k]);
        }
        assert(wf_payload(d, nn));
        lemma_render_facts(d, nn);
        let rr = render(d, nn);
        assert(s.skip(q + 11).len() == s.len() - (q + 11));
        assert(s.len() == q + 11 + int_rep(nn).len() + 1);
        assert(rr.len() == s.len());
        assert forall|z: int| 0 <= z < s.len() implies s[z] == rr[z] by {
            if z < 9 {
                assert(open_prefix_ok(rr));
                if z == 0 {
                } else if z == 1 {
                } else if z == 2 {
                } else if z == 3 {
                } else if z == 4 {
                } else if z == 5 {
                } else if z == 6 {
                } else if z == 7 {
                } else {
                    assert(z == 8);
                }
            } else if z < q {
                assert(rr[z] == d[z - 9]);
                assert(d[z - 9] == s[z]);
            } else if z < q + 11 {
                assert(mid_ok(rr, q as int));
                assert(mid_ok(s, q as int));
                let off = z - q;
                if off == 0 {
                } else if off == 1 {
                } else if off == 2 {
                } else if off == 3 {
                } else if off == 4 {
                } else if off == 5 {
                } else if off == 6 {
                } else if off == 7 {
                } else if off == 8 {
                } else if off == 9 {
                } else {
                    assert(off == 10);
                }
            } else {
                assert(rr.skip(q + 11) == int_rep(nn) + seq![125u8]);
                assert(rr[z] == rr.skip(q + 11)[z - (q + 11)]);
                assert(s[z] == s.skip(q + 11)[z - (q + 11)]);
                assert(s.skip(q + 11) == int_rep(nn) + seq![125u8]);
            }
        }
        assert(s =~= rr);
        assert(ascii_codes(resp.data@) =~= d) by {
            assert(resp.data@.len() == d.len());
            assert forall|k: int| 0 <= k < d.len() implies ascii_codes(resp.data@)[k] == d[k] by {
                assert(ascii_codes(resp.data@)[k] == resp.data@[k] as u8);
                assert(resp.data@[k] as u8 == data_bytes@[k]);
            }
        }
    }
    Some(resp)
}

/// Law: a body is the canonical response for at most one payload — the
/// data string and the status it carries are uniquely determined.
pub proof fn lemma_paint_body_unique(s: Seq<u8>, d1: Seq<u8>, n1: int, d2: Seq<u8>, n2: int)
    requires
        is_paint_body(s, d1, n1),
        is_paint_body(s, d2, n2),
    ensures
        d1 == d2,
        n1 == n2,
{
    lemma_render_facts(d1, n1);
    lemma_render_facts(d2, n2);
    if d1.len() < d2.len() {
        assert(mid_ok(s, 9 + d1.len() as int));
        assert(s[9 + d1.len() as int] == 34);
        assert(plain_byte(s[9 + d1.len() as int]));
        assert(false);
    }
    if d2.len() < d1.len() {
        assert(mid_ok(s, 9 + d2.len() as int));
        assert(s[9 + d2.len() as int] == 34);
        assert(plain_byte(s[9 + d2.len() as int]));
        assert(false);
    }
    assert forall|k: int| 0 <= k < d1.len() implies d1[k] == d2[k] by {
        assert(s[9 + k] == d1[k]);
        assert(s[9 + k] == d2[k]);
    }
    assert(d1 =~= d2);
    let tail1 = int_rep(n1) + seq![125u8];
    let tail2 = int_rep(n2) + seq![125u8];
    assert(tail1 == s.skip(20 + d1.len() as int));
    assert(tail2 == s.skip(20 + d2.len() as int));
    assert(tail1 == tail2);
    assert(int_rep(n1).len() == int_rep(n2).len());
    assert forall|k: int| 0 <= k < int_rep(n1).len() implies int_rep(n1)[k] == int_rep(n2)[k] by {
        assert(tail1[k] == int_rep(n1)[k]);
        assert(tail2[k] == int_rep(n2)[k]);
    }
    assert(int_rep(n1) =~= int_rep(n2));
    lemma_int_rep_shape(n1);
    lemma_int_rep_shape(n2);
    lemma_dec_rep_basic(abs_of(n1));
    lemma_dec_rep_basic(abs_of(n2));
    if n1 >= 0 && n2 >= 0 {
        lemma_dec_rep_unique(n1 as nat, n2 as nat);
    } else if n1 < 0 && n2 < 0 {
        assert(abs_of(n1) == (-n1) as nat);
        assert(abs_of(n2) == (-n2) as nat);
        assert(dec_rep((-n1) as nat) =~= int_rep(n1).skip(1));
        assert(dec_rep((-n2) as nat) =~= int_rep(n2).skip(1));
        lemma_dec_rep_unique((-n1) as nat, (-n2) as nat);
    } else if n1 < 0 && n2 >= 0 {
        assert(int_rep(n1)[0] == 45);
        assert(int_rep(n2)[0] == dec_rep(n2 as nat)[0]);
        assert(abs_of(n2) == n2 as nat);
        assert(is_dec_digit(int_rep(n2)[0]));
        assert(false);
    } else {
        assert(int_rep(n2)[0] == 45);
        assert(int_rep(n1)[0] == dec_rep(n1 as nat)[0]);
        assert(abs_of(n1) == n1 as nat);
        assert(is_dec_digit(int_rep(n1)[0]));
        assert(false);
    }
}

/// The classification of one write attempt's response body.
#[derive(Clone, Copy, PartialEq, Eq, Structural, Debug)]
pub enum WriteOutcome {
    /// A parseable body with status 200: the write was accepted.
    Success,
    /// A parseable body with any other status: a non-fatal rejection.
    Rejected,
    /// An unparseable body (or none at all): an error.
    Invalid,
}

/// Classifies a write response body: status 200 is success, any other
/// parseable status a non-fatal rejection, anything unparseable an error.
pub fn classify_response(body: &Vec<u8>) -> (r: WriteOutcome)
    ensures
        (r == WriteOutcome::Success) <==> (exists|d: Seq<u8>| is_paint_body(body@, d, 200)),
        (r == WriteOutcome::Rejected) <==> (exists|d: Seq<u8>, n: int|
            n != 200 && #[trigger] is_paint_body(body@, d, n)),
        (r == WriteOutcome::Invalid) <==> (forall|d: Seq<u8>, n: int| !is_paint_body(body@, d, n)),
{
    let ghost s = body@;
    match parse_paint_response(body) {
        None => WriteOutcome::Invalid,
        Some(p) => {
            let ghost dp = ascii_codes(p.data@);
            let ghost np = p.status as int;
            if p.status == 200 {
                proof {
                    assert(is_paint_body(s, dp, 200));
                    assert(!(exists|d: Seq<u8>, n: int|
                        n != 200 && #[trigger] is_paint_body(s, d, n))) by {
                        if exists|d: Seq<u8>, n: int| n != 200 && #[trigger] is_paint_body(
                            s,
                            d,
                            n,
                        ) {
                            let (d, n) = choose|d: Seq<u8>, n: int|
                                n != 200 && #[trigger] is_paint_body(s, d, n);
                            lemma_paint_body_unique(s, d, n, dp, 200);
                        }
                    }
                }
                WriteOutcome::Success
            } else {
                proof {
                    assert(np != 200 && is_paint_body(s, dp, np));
                    assert(!(exists|d: Seq<u8>| is_paint_body(s, d, 200))) by {
                        if exists|d: Seq<u8>| is_paint_body(s, d, 200) {
                            let d = choose|d: Seq<u8>| is_paint_body(s, d, 200);
                            lemma_paint_body_unique(s, d, 200, dp, np);
                        }
                    }
                }
                WriteOutcome::Rejected
            }
        },
    }
}

} // verus!
