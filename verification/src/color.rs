//! Canvas color codes and their textual encoding.
//!
//! The remote canvas encodes each cell as one base-36 digit: `'0'`..`'9'`
//! stand for palette indices 0..9 and `'a'`..`'z'` for indices 10..35.

use vstd::prelude::*;

verus! {

/// True of the bytes that encode a canvas color: a decimal digit or a
/// lowercase letter.
pub open spec fn is_color_char(c: u8) -> bool {
    (48 <= c && c <= 57) || (97 <= c && c <= 122)
}

/// The palette index encoded by a valid color character.
pub open spec fn color_of_char(c: u8) -> u8
    recommends
        is_color_char(c),
{
    if c < 58 {
        (c - 48) as u8
    } else {
        (c - 87) as u8
    }
}

/// Decodes one canvas character into its palette index.
pub fn char_to_color(char: u8) -> (r: u8)
    requires
        is_color_char(char),
    ensures
        r == color_of_char(char),
        r < 36,
{
    if char < 58 {
        char - 48
    } else {
        char - 87
    }
}

} // verus!
