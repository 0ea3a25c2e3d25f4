//! Parsing a fetched canvas body: newline-separated rows, one base-36
//! color character per cell.

use vstd::prelude::*;
use crate::color::{is_color_char, color_of_char, char_to_color};
use crate::diff::grid_view;

verus! {

/// The index of the first newline in `s`, or `-1` if there is none.
pub open spec fn first_nl(s: Seq<u8>) -> int
    decreases s.len(),
{
    if s.len() == 0 {
        -1
    } else if s[0] == 10 {
        0
    } else {
        let r = first_nl(s.skip(1));
        if r < 0 {
            -1
        } else {
            r + 1
        }
    }
}

/// Splitting a byte sequence at newlines, as `split('\n')` does: an empty
/// input gives one empty row, and every newline starts a new row.
pub open spec fn spec_lines(s: Seq<u8>) -> Seq<Seq<u8>>
    decreases s.len(),
{
    let k = first_nl(s);
    if 0 <= k < s.len() {
        seq![s.take(k)] + spec_lines(s.skip(k + 1))
    } else {
        seq![s]
    }
}

proof fn lemma_first_nl_at(s: Seq<u8>, k: int)
    requires
        0 <= k < s.len(),
        s[k] == 10,
        forall|j: int| 0 <= j < k ==> s[j] != 10,
    ensures
        first_nl(s) == k,
    decreases k,
{
    if k == 0 {
    } else {
        assert(s[0] != 10);
        let t = s.skip(1);
        assert(t[k - 1] == 10);
        assert forall|j: int| 0 <= j < k - 1 implies t[j] != 10 by {
            assert(t[j] == s[j + 1]);
        }
        lemma_first_nl_at(t, k - 1);
    }
}

proof fn lemma_first_nl_none(s: Seq<u8>)
    requires
        forall|j: int| 0 <= j < s.len() ==> s[j] != 10,
    ensures
        first_nl(s) < 0,
    decreases s.len(),
{
    if s.len() > 0 {
        lemma_first_nl_none(s.skip(1));
    }
}

/// Splits a canvas body into its rows, exactly as splitting on `'\n'`
/// does.
pub fn split_lines(body: &Vec<u8>) -> (r: Vec<Vec<u8>>)
    ensures
        grid_view(r) == spec_lines(body@),
{
    let len = body.len();
    let mut rows: Vec<Vec<u8>> = Vec::new();
    let mut cur: Vec<u8> = Vec::new();
    let mut i: usize = 0;
    let ghost mut line_start: int = 0;
    proof {
        assert(grid_view(rows) =~= Seq::<Seq<u8>>::empty());
        assert(body@.skip(0) =~= body@);
        assert(grid_view(rows) + spec_lines(body@) =~= spec_lines(body@));
        assert(cur@ =~= body@.subrange(0, 0));
    }
    while i < len
        invariant
            0 <= line_start <= i <= len,
            len == body@.len(),
            cur@ == body@.subrange(line_start, i as int),
            forall|j: int| line_start <= j < i ==> body@[j] != 10,
            spec_lines(body@) == grid_view(rows) + spec_lines(body@.skip(line_start)),
        decreases len - i,
    {
        let b = body[i];
        if b == 10 {
            let ghost cur_v = cur@;
            let ghost prev = grid_view(rows);
            proof {
                let rest = body@.skip(line_start);
                assert(rest[i - line_start] == 10);
                assert forall|j: int| 0 <= j < i - line_start implies rest[j] != 10 by {
                    assert(rest[j] == body@[line_start + j]);
                }
                lemma_first_nl_at(rest, i - line_start);
                assert(rest.take(i - line_start) =~= cur_v);
                assert(rest.skip(i - line_start + 1) =~= body@.skip(i + 1));
                assert(spec_lines(rest) == seq![cur_v] + spec_lines(body@.skip(i + 1)));
            }
            rows.push(cur);
            cur = Vec::new();
            proof {
                assert(grid_view(rows) =~= prev.push(cur_v));
                assert(prev.push(cur_v) =~= prev + seq![cur_v]);
                assert(prev + (seq![cur_v] + spec_lines(body@.skip(i + 1))) =~= (prev + seq![
                    cur_v,
                ]) + spec_lines(body@.skip(i + 1)));
                line_start = i + 1;
                assert(cur@ =~= body@.subrange(line_start, i + 1));
            }
        } else {
            cur.push(b);
            proof {
                assert(cur@ =~= body@.subrange(line_start, i + 1));
            }
        }
        i += 1;
    }
    let ghost cur_v = cur@;
    let ghost prev = grid_view(rows);
    proof {
        let rest = body@.skip(line_start);
        assert forall|j: int| 0 <= j < rest.len() implies rest[j] != 10 by {
            assert(rest[j] == body@[line_start + j]);
        }
        lemma_first_nl_none(rest);
        assert(rest =~= cur_v);
        assert(spec_lines(rest) == seq![cur_v]);
    }
    rows.push(cur);
    proof {
        assert(grid_view(rows) =~= prev.push(cur_v));
        assert(prev.push(cur_v) =~= prev + seq![cur_v]);
    }
    rows
}

/// The split rows hold a full `bx` x `by` canvas of valid color
/// characters.
pub open spec fn board_chars_ok(rows: Seq<Seq<u8>>, bx: int, by: int) -> bool {
    &&& rows.len() >= bx
    &&& forall|i: int| 0 <= i < bx ==> (#[trigger] rows[i]).len() >= by
    &&& forall|i: int, j: int| 0 <= i < bx && 0 <= j < by ==> is_color_char(#[trigger] rows[i][j])
}

/// The decoded canvas: cell `(i, j)` holds the palette index encoded by
/// character `(i, j)` of the split body.
pub open spec fn decode_board(rows: Seq<Seq<u8>>, bx: int, by: int) -> Seq<Seq<u8>> {
    Seq::new(bx as nat, |i: int| Seq::new(by as nat, |j: int| color_of_char(rows[i][j])))
}

/// Decodes the first `bx` rows and `by` columns of the split body into a
/// canvas grid. Rejects a body whose rows are missing or short, or that
/// holds a byte that is no color character: a defined failure, the cycle
/// is skipped.
pub fn to_colors(rows: &Vec<Vec<u8>>, bx: usize, by: usize) -> (r: Option<Vec<Vec<u8>>>)
    ensures
        match r {
            Some(b) => board_chars_ok(grid_view(*rows), bx as int, by as int) && grid_view(b)
                == decode_board(grid_view(*rows), bx as int, by as int),
            None => !board_chars_ok(grid_view(*rows), bx as int, by as int),
        },
{
    let ghost rv = grid_view(*rows);
    if rows.len() < bx {
        return None;
    }
    let mut out: Vec<Vec<u8>> = Vec::new();
    let mut i: usize = 0;
    while i < bx
        invariant
            i <= bx,
            bx <= rows@.len(),
            rv == grid_view(*rows),
            grid_view(out).len() == i,
            forall|a: int| 0 <= a < i ==> (#[trigger] rv[a]).len() >= by,
            forall|a: int, c: int| 0 <= a < i && 0 <= c < by ==> is_color_char(#[trigger] rv[a][c]),
            forall|a: int|
                0 <= a < i ==> #[trigger] grid_view(out)[a] == Seq::new(
                    by as nat,
                    |j: int| color_of_char(rv[a][j]),
                ),
        decreases bx - i,
    {
        if rows[i].len() < by {
            proof {
                assert(rv[i as int].len() < by);
            }
            return None;
        }
        let mut newrow: Vec<u8> = Vec::new();
        let mut j: usize = 0;
        while j < by
            invariant
                j <= by,
                i < bx,
                bx <= rows@.len(),
                by <= rows@[i as int]@.len(),
                rv == grid_view(*rows),
                newrow@.len() == j,
                forall|c: int| 0 <= c < j ==> is_color_char(#[trigger] rv[i as int][c]),
                forall|c: int|
                    0 <= c < j ==> #[trigger] newrow@[c] == color_of_char(rv[i as int][c]),
            decreases by - j,
        {
            let ch = rows[i][j];
            proof {
                assert(rv[i as int][j as int] == ch);
            }
            if !((48 <= ch && ch <= 57) || (97 <= ch && ch <= 122)) {
                proof {
                    assert(!is_color_char(rv[i as int][j as int]));
                }
                return None;
            }
            newrow.push(char_to_color(ch));
            j += 1;
        }
        let ghost prev = grid_view(out);
        let ghost newrow_v = newrow@;
        out.push(newrow);
        proof {
            assert(grid_view(out) =~= prev.push(newrow_v));
            assert(newrow_v =~= Seq::new(by as nat, |j: int| color_of_char(rv[i as int][j])));
        }
        i += 1;
    }
    proof {
        assert(grid_view(out) =~= decode_board(rv, bx as int, by as int));
    }
    Some(out)
}

} // verus!
