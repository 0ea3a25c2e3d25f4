//! One fetch-and-diff cycle: decide whether a fetched canvas body is
//! acceptable, and if so replace the backlog with the fresh diff.
//!
//! A body is accepted only if its raw size exceeds `board_x * board_y`
//! (the crude sanity floor rejecting truncated or error bodies) and it
//! decodes to a full canvas grid. On any failure the cycle is skipped:
//! the store keeps its previous backlog and the caller logs a warning.

use vstd::prelude::*;
use crate::backlog::BacklogStore;
use crate::board::{spec_lines, board_chars_ok, decode_board, split_lines, to_colors};
use crate::diff::{Image, image_wf, image_in_grid, backlog_spec, image_jobs, build_backlog, grid_view};

verus! {

/// When a fetched body is accepted: large enough, and decodable into a
/// full `bx` x `by` grid of color characters.
pub open spec fn canvas_accepted(body: Seq<u8>, bx: int, by: int) -> bool {
    body.len() > bx * by && board_chars_ok(spec_lines(body), bx, by)
}

/// The overlays all fit inside a `bx` x `by` canvas; checked once at
/// startup, a violated bound is a fatal configuration error.
pub open spec fn images_fit(imgs: Seq<Image>, bx: int, by: int) -> bool {
    forall|m: int|
        0 <= m < imgs.len() ==> image_wf(#[trigger] imgs[m]) && imgs[m].x + imgs[m].len_x <= bx
            && imgs[m].y + imgs[m].len_y <= by
}

/// Applies one fetch cycle to the backlog store. On acceptance the store
/// is replaced wholesale with the diff of the decoded canvas against the
/// overlays and the per-overlay mismatch counts are returned for the
/// progress reporter; otherwise the store is left exactly as it was.
pub fn apply_fetch(
    store: &mut BacklogStore,
    body: &Vec<u8>,
    board_x: usize,
    board_y: usize,
    images: &Vec<Image>,
) -> (r: Option<Vec<usize>>)
    requires
        board_x * board_y <= usize::MAX,
        images_fit(images@, board_x as int, board_y as int),
    ensures
        r is Some <==> canvas_accepted(body@, board_x as int, board_y as int),
        r is None ==> final(store)@ == old(store)@,
        match r {
            Some(counts) => {
                let board = decode_board(
                    spec_lines(body@),
                    board_x as int,
                    board_y as int,
                );
                &&& final(store)@ == backlog_spec(board, images@)
                &&& counts@.len() == images@.len()
                &&& forall|m: int|
                    0 <= m < images@.len() ==> counts@[m] == image_jobs(
                        board,
                        #[trigger] images@[m],
                    ).len()
            },
            None => final(store)@ == old(store)@,
        },
{
    if body.len() <= board_x * board_y {
        return None;
    }
    let rows = split_lines(body);
    match to_colors(&rows, board_x, board_y) {
        None => None,
        Some(board) => {
            proof {
                let bd = grid_view(board);
                assert forall|m: int|
                    0 <= m < images@.len() implies image_wf(#[trigger] images@[m])
                    && image_in_grid(bd, images@[m]) by {
                    assert(bd.len() == board_x as int);
                    assert forall|i: int|
                        images@[m].x <= i < images@[m].x + images@[m].len_x implies images@[m].y
                        + images@[m].len_y <= (#[trigger] bd[i]).len() by {
                        assert(bd[i].len() == board_y as int);
                    }
                }
            }
            let (jobs, counts) = build_backlog(&board, images);
            store.replace(jobs);
            Some(counts)
        },
    }
}

} // verus!
