//! The computing half of image loading: turning decoded pixel matrices
//! and text grids into overlay pixel data.
//!
//! Reading files and decoding image formats happens outside the library;
//! it hands in plain values (RGB triples, text rows) and gets back grids
//! of palette indices.

use vstd::prelude::*;
use crate::color::{is_color_char, color_of_char, char_to_color};
use crate::diff::grid_view;

verus! {

/// The view of an RGB pixel grid.
pub open spec fn pixel_view(g: Vec<Vec<(u8, u8, u8)>>) -> Seq<Seq<(u8, u8, u8)>> {
    g@.map_values(|row: Vec<(u8, u8, u8)>| row@)
}

/// The first palette index holding exactly this RGB value, or `-1` if
/// the palette lacks it.
pub open spec fn palette_index_spec(palette: Seq<(u8, u8, u8)>, c: (u8, u8, u8)) -> int
    decreases palette.len(),
{
    if palette.len() == 0 {
        -1
    } else if palette[0] == c {
        0
    } else {
        let r = palette_index_spec(palette.skip(1), c);
        if r < 0 {
            -1
        } else {
            r + 1
        }
    }
}

proof fn lemma_palette_index_found(palette: Seq<(u8, u8, u8)>, c: (u8, u8, u8), k: int)
    requires
        0 <= k < palette.len(),
        palette[k] == c,
        forall|j: int| 0 <= j < k ==> palette[j] != c,
    ensures
        palette_index_spec(palette, c) == k,
    decreases k,
{
    if k == 0 {
    } else {
        assert(palette[0] != c);
        let t = palette.skip(1);
        assert(t[k - 1] == c);
        assert forall|j: int| 0 <= j < k - 1 implies t[j] != c by {
            assert(t[j] == palette[j + 1]);
        }
        lemma_palette_index_found(t, c, k - 1);
    }
}

proof fn lemma_palette_index_missing(palette: Seq<(u8, u8, u8)>, c: (u8, u8, u8))
    requires
        forall|j: int| 0 <= j < palette.len() ==> palette[j] != c,
    ensures
        palette_index_spec(palette, c) < 0,
    decreases palette.len(),
{
    if palette.len() > 0 {
        lemma_palette_index_missing(palette.skip(1), c);
    }
}

/// Finds the palette index of one RGB value: the first equal entry.
pub fn palette_index_of(palette: &Vec<(u8, u8, u8)>, c: (u8, u8, u8)) -> (r: Option<usize>)
    ensures
        match r {
            Some(k) => k == palette_index_spec(palette@, c) && k < palette@.len()
                && palette@[k as int] == c,
            None => palette_index_spec(palette@, c) < 0,
        },
{
    let mut k: usize = 0;
    while k < palette.len()
        invariant
            k <= palette@.len(),
            forall|j: int| 0 <= j < k ==> palette@[j] != c,
        decreases palette@.len() - k,
    {
        let entry = palette[k];
        if entry.0 == c.0 && entry.1 == c.1 && entry.2 == c.2 {
            proof {
                assert(palette@[k as int] == c);
                lemma_palette_index_found(palette@, c, k as int);
            }
            return Some(k);
        }
        k += 1;
    }
    proof {
        lemma_palette_index_missing(palette@, c);
    }
    None
}

/// Every pixel of the grid has its RGB value in the palette.
pub open spec fn pixels_in_palette(pixels: Seq<Seq<(u8, u8, u8)>>, palette: Seq<(u8, u8, u8)>) -> bool {
    forall|i: int, j: int|
        0 <= i < pixels.len() && 0 <= j < pixels[i].len() ==> palette_index_spec(
            palette,
            #[trigger] pixels[i][j],
        ) >= 0
}

/// Maps a decoded RGB pixel grid to its grid of palette indices. A grid
/// holding a color outside the palette is rejected: a defined failure
/// the caller reports as a fatal load error.
pub fn pixels_to_board(pixels: &Vec<Vec<(u8, u8, u8)>>, palette: &Vec<(u8, u8, u8)>) -> (r: Option<
    Vec<Vec<u8>>,
>)
    requires
        palette@.len() <= 256,
    ensures
        match r {
            Some(b) => pixels_in_palette(pixel_view(*pixels), palette@) && grid_view(b).len()
                == pixel_view(*pixels).len() && forall|i: int, j: int|
                0 <= i < pixel_view(*pixels).len() && 0 <= j < pixel_view(*pixels)[i].len()
                    ==> grid_view(b)[i].len() == pixel_view(*pixels)[i].len() && #[trigger] grid_view(
                    b,
                )[i][j] == palette_index_spec(palette@, pixel_view(*pixels)[i][j]),
            None => !pixels_in_palette(pixel_view(*pixels), palette@),
        },
{
    let ghost pv = pixel_view(*pixels);
    let mut out: Vec<Vec<u8>> = Vec::new();
    let mut i: usize = 0;
    while i < pixels.len()
        invariant
            i <= pixels@.len(),
            palette@.len() <= 256,
            pv == pixel_view(*pixels),
            grid_view(out).len() == i,
            forall|a: int, b: int|
                0 <= a < i && 0 <= b < pv[a].len() ==> palette_index_spec(
                    palette@,
                    #[trigger] pv[a][b],
                ) >= 0,
            forall|a: int, b: int|
                0 <= a < i && 0 <= b < pv[a].len() ==> grid_view(out)[a].len() == pv[a].len()
                    && (#[trigger] grid_view(out)[a][b]) == palette_index_spec(
                    palette@,
                    pv[a][b],
                ),
            forall|a: int| 0 <= a < i ==> (#[trigger] grid_view(out)[a]).len() == pv[a].len(),
        decreases pixels@.len() - i,
    {
        let mut newrow: Vec<u8> = Vec::new();
        let mut j: usize = 0;
        while j < pixels[i].len()
            invariant
                i < pixels@.len(),
                j <= pv[i as int].len(),
                palette@.len() <= 256,
                pv == pixel_view(*pixels),
                newrow@.len() == j,
                forall|b: int|
                    0 <= b < j ==> palette_index_spec(palette@, #[trigger] pv[i as int][b]) >= 0,
                forall|b: int|
                    0 <= b < j ==> #[trigger] newrow@[b] == palette_index_spec(
                        palette@,
                        pv[i as int][b],
                    ),
            decreases pv[i as int].len() - j,
        {
            let px = pixels[i][j];
            match palette_index_of(palette, px) {
                None => {
                    proof {
                        assert(palette_index_spec(palette@, pv[i as int][j as int]) < 0);
                    }
                    return None;
                },
                Some(k) => {
                    newrow.push(k as u8);
                },
            }
            j += 1;
        }
        let ghost prev = grid_view(out);
        let ghost newrow_v = newrow@;
        out.push(newrow);
        proof {
            assert(grid_view(out) =~= prev.push(newrow_v));
        }
        i += 1;
    }
    Some(out)
}

/// The text rows form a full transposed grid: every row is at least
/// `width` long and every used character encodes a color.
pub open spec fn text_ok(rows: Seq<Seq<u8>>, width: int) -> bool {
    &&& rows.len() >= 1
    &&& forall|j: int| 0 <= j < rows.len() ==> (#[trigger] rows[j]).len() >= width
    &&& forall|i: int, j: int|
        0 <= i < width && 0 <= j < rows.len() ==> is_color_char(#[trigger] rows[j][i])
}

/// Decodes a text image: rows of color characters, transposed so that
/// cell `(i, j)` of the result is character `i` of text row `j`. The last
/// character of each row (a line-break artifact) is not part of the
/// image, so the width is one less than the first row's length. Short
/// rows and bytes that encode no color are rejected: a defined failure
/// the caller reports as a fatal load error.
pub fn text_to_board(rows: &Vec<Vec<u8>>) -> (r: Option<Vec<Vec<u8>>>)
    ensures
        match r {
            Some(b) => {
                let rv = grid_view(*rows);
                let width = rv[0].len() - 1;
                &&& rv.len() >= 1
                &&& text_ok(rv, width)
                &&& grid_view(b).len() == width
                &&& forall|i: int| 0 <= i < width ==> (#[trigger] grid_view(b)[i]).len() == rv.len()
                &&& forall|i: int, j: int|
                    0 <= i < width && 0 <= j < rv.len() ==> (#[trigger] grid_view(b)[i][j])
                        == color_of_char(rv[j][i])
            },
            None => rows@.len() == 0 || grid_view(*rows)[0].len() == 0 || !text_ok(
                grid_view(*rows),
                grid_view(*rows)[0].len() - 1,
            ),
        },
{
    let ghost rv = grid_view(*rows);
    if rows.len() == 0 {
        return None;
    }
    if rows[0].len() == 0 {
        return None;
    }
    let width = rows[0].len() - 1;
    let height = rows.len();
    let mut out: Vec<Vec<u8>> = Vec::new();
    let mut i: usize = 0;
    while i < width
        invariant
            i <= width,
            width + 1 == rv[0].len(),
            height == rows@.len(),
            height >= 1,
            rv == grid_view(*rows),
            grid_view(out).len() == i,
            forall|j: int| 0 <= j < height ==> (#[trigger] rv[j]).len() >= i,
            forall|a: int, j: int|
                0 <= a < i && 0 <= j < height ==> is_color_char((#[trigger] rv[j][a])),
            forall|a: int| 0 <= a < i ==> (#[trigger] grid_view(out)[a]).len() == height,
            forall|a: int, j: int|
                0 <= a < i && 0 <= j < height ==> (#[trigger] grid_view(out)[a][j])
                    == color_of_char(rv[j][a]),
        decreases width - i,
    {
        let mut newcol: Vec<u8> = Vec::new();
        let mut j: usize = 0;
        while j < height
            invariant
                i < width,
                j <= height,
                width + 1 == rv[0].len(),
                height == rows@.len(),
                height >= 1,
                rv == grid_view(*rows),
                newcol@.len() == j,
                forall|jj: int|
                    0 <= jj < j ==> (#[trigger] rv[jj]).len() > i && is_color_char(rv[jj][i as int]),
                forall|jj: int|
                    0 <= jj < j ==> #[trigger] newcol@[jj] == color_of_char(rv[jj][i as int]),
            decreases height - j,
        {
            if rows[j].len() <= i {
                proof {
                    assert(rv[j as int].len() < width);
                    assert(!text_ok(rv, width as int));
                }
                return None;
            }
            let ch = rows[j][i];
            if !((48 <= ch && ch <= 57) || (97 <= ch && ch <= 122)) {
                proof {
                    assert(!is_color_char(rv[j as int][i as int]));
                    assert(!text_ok(rv, width as int));
                }
                return None;
            }
            newcol.push(char_to_color(ch));
            j += 1;
        }
        let ghost prev = grid_view(out);
        let ghost newcol_v = newcol@;
        out.push(newcol);
        proof {
            assert(grid_view(out) =~= prev.push(newcol_v));
            assert forall|jj: int| 0 <= jj < height implies (#[trigger] rv[jj]).len() >= i
                + 1 by {
                assert(rv[jj].len() > i);
            }
        }
        i += 1;
    }
    proof {
        assert(text_ok(rv, width as int));
    }
    Some(out)
}

} // verus!
