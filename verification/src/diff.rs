//! The diff engine: compares a fetched canvas against the configured
//! overlay images and produces the backlog of corrective pixel writes.
//!
//! Overlays are evaluated in list order (the list is validated to be sorted
//! ascending by priority, see `config`); within one overlay, cells are
//! visited in raster order (rows, then columns). Every mismatching cell
//! yields exactly one [`WriteJob`]; matching cells yield none. The backlog
//! policy is the unbounded one: every mismatch of every overlay is queued.

use vstd::prelude::*;

verus! {

/// One pending corrective pixel write: paint the canvas cell `(x, y)` with
/// palette index `color`.
#[derive(Clone, Copy, PartialEq, Eq, Structural, Debug)]
pub struct WriteJob {
    pub x: usize,
    pub y: usize,
    pub color: u8,
}

/// A named, prioritized target image anchored at canvas coordinate `(x, y)`.
/// `data` is a `len_x` x `len_y` grid of palette indices.
#[derive(Clone, Debug)]
pub struct Image {
    pub name: String,
    pub data: Vec<Vec<u8>>,
    pub x: usize,
    pub y: usize,
    pub len_x: usize,
    pub len_y: usize,
    pub priority: i32,
}

/// The mathematical view of a canvas or pixel grid: a sequence of rows.
pub open spec fn grid_view(g: Vec<Vec<u8>>) -> Seq<Seq<u8>> {
    g@.map_values(|row: Vec<u8>| row@)
}

/// Shape consistency of an overlay image: the pixel grid really is
/// `len_x` rows of `len_y` cells, and its bounding box fits in a machine
/// coordinate range.
pub open spec fn image_wf(img: Image) -> bool {
    &&& img.data@.len() == img.len_x
    &&& forall|i: int| 0 <= i < img.len_x ==> (#[trigger] img.data@[i])@.len() == img.len_y
    &&& img.x + img.len_x <= usize::MAX
    &&& img.y + img.len_y <= usize::MAX
}

/// The overlay's bounding box lies inside the given canvas grid.
pub open spec fn image_in_grid(board: Seq<Seq<u8>>, img: Image) -> bool {
    &&& img.x + img.len_x <= board.len()
    &&& forall|i: int|
        img.x <= i < img.x + img.len_x ==> img.y + img.len_y <= (#[trigger] board[i]).len()
}

/// The canvas disagrees with overlay cell `(i, j)`.
pub open spec fn mismatch_at(board: Seq<Seq<u8>>, img: Image, i: int, j: int) -> bool {
    board[img.x + i][img.y + j] != img.data@[i]@[j]
}

/// The corrective write for overlay cell `(i, j)`.
pub open spec fn job_of(img: Image, i: int, j: int) -> WriteJob {
    WriteJob {
        x: (img.x + i) as usize,
        y: (img.y + j) as usize,
        color: img.data@[i]@[j],
    }
}

/// Jobs from cells `(i, 0)` .. `(i, j-1)` of row `i`, in column order.
pub open spec fn row_jobs_upto(board: Seq<Seq<u8>>, img: Image, i: int, j: int) -> Seq<WriteJob>
    decreases j,
{
    if j <= 0 {
        Seq::empty()
    } else if mismatch_at(board, img, i, j - 1) {
        row_jobs_upto(board, img, i, j - 1).push(job_of(img, i, j - 1))
    } else {
        row_jobs_upto(board, img, i, j - 1)
    }
}

/// Jobs from all cells of rows `0` .. `i-1`, in raster order.
pub open spec fn rows_jobs_upto(board: Seq<Seq<u8>>, img: Image, i: int) -> Seq<WriteJob>
    decreases i,
{
    if i <= 0 {
        Seq::empty()
    } else {
        rows_jobs_upto(board, img, i - 1) + row_jobs_upto(board, img, i - 1, img.len_y as int)
    }
}

/// All corrective writes one overlay contributes for one canvas snapshot,
/// in raster order.
pub open spec fn image_jobs(board: Seq<Seq<u8>>, img: Image) -> Seq<WriteJob> {
    rows_jobs_upto(board, img, img.len_x as int)
}

/// Jobs of the first `m` overlays, concatenated in list (priority) order.
pub open spec fn backlog_upto(board: Seq<Seq<u8>>, imgs: Seq<Image>, m: int) -> Seq<WriteJob>
    decreases m,
{
    if m <= 0 {
        Seq::empty()
    } else {
        backlog_upto(board, imgs, m - 1) + image_jobs(board, imgs[m - 1])
    }
}

/// The whole backlog one fetch cycle produces: every overlay's mismatches,
/// overlays in list order, cells in raster order.
pub open spec fn backlog_spec(board: Seq<Seq<u8>>, imgs: Seq<Image>) -> Seq<WriteJob> {
    backlog_upto(board, imgs, imgs.len() as int)
}

/// The write `e` corrects some mismatching cell among the first `j` cells
/// of overlay row `i`.
pub open spec fn from_mismatch_in_row(
    board: Seq<Seq<u8>>,
    img: Image,
    i: int,
    j: int,
    e: WriteJob,
) -> bool {
    exists|jj: int|
        0 <= jj < j && #[trigger] mismatch_at(board, img, i, jj) && e == job_of(img, i, jj)
}

/// The write `e` corrects some mismatching cell of the overlay.
pub open spec fn from_mismatch(board: Seq<Seq<u8>>, img: Image, e: WriteJob) -> bool {
    exists|i: int, j: int|
        0 <= i < img.len_x && 0 <= j < img.len_y && #[trigger] mismatch_at(board, img, i, j) && e
            == job_of(img, i, j)
}

proof fn lemma_widen_row_source(board: Seq<Seq<u8>>, img: Image, i: int, j1: int, j2: int, e: WriteJob)
    requires
        j1 <= j2,
        from_mismatch_in_row(board, img, i, j1, e),
    ensures
        from_mismatch_in_row(board, img, i, j2, e),
{
    let jj = choose|jj: int|
        0 <= jj < j1 && #[trigger] mismatch_at(board, img, i, jj) && e == job_of(img, i, jj);
    assert(0 <= jj < j2 && mismatch_at(board, img, i, jj) && e == job_of(img, i, jj));
}

proof fn lemma_row_source_is_source(board: Seq<Seq<u8>>, img: Image, i: int, e: WriteJob)
    requires
        0 <= i < img.len_x,
        from_mismatch_in_row(board, img, i, img.len_y as int, e),
    ensures
        from_mismatch(board, img, e),
{
    let jj = choose|jj: int|
        0 <= jj < img.len_y && #[trigger] mismatch_at(board, img, i, jj) && e == job_of(img, i, jj);
    assert(0 <= i < img.len_x && 0 <= jj < img.len_y && mismatch_at(board, img, i, jj) && e
        == job_of(img, i, jj));
}

proof fn lemma_row_jobs_upto_props(board: Seq<Seq<u8>>, img: Image, i: int, j: int)
    requires
        image_wf(img),
        0 <= i < img.len_x,
        0 <= j <= img.len_y,
    ensures
        forall|k: int|
            0 <= k < row_jobs_upto(board, img, i, j).len() ==> from_mismatch_in_row(
                board,
                img,
                i,
                j,
                (#[trigger] row_jobs_upto(board, img, i, j)[k]),
            ),
        forall|jj: int|
            0 <= jj < j && mismatch_at(board, img, i, jj) ==> row_jobs_upto(
                board,
                img,
                i,
                j,
            ).contains(job_of(img, i, jj)),
        forall|k: int|
            0 <= k < row_jobs_upto(board, img, i, j).len() ==> img.x + i == #[trigger] row_jobs_upto(
                board,
                img,
                i,
                j,
            )[k].x && img.y <= row_jobs_upto(board, img, i, j)[k].y < img.y + j,
        forall|k1: int, k2: int|
            0 <= k1 < k2 < row_jobs_upto(board, img, i, j).len() ==> #[trigger] row_jobs_upto(
                board,
                img,
                i,
                j,
            )[k1].y < #[trigger] row_jobs_upto(board, img, i, j)[k2].y,
    decreases j,
{
    if j > 0 {
        lemma_row_jobs_upto_props(board, img, i, j - 1);
        let prev = row_jobs_upto(board, img, i, j - 1);
        let cur = row_jobs_upto(board, img, i, j);
        assert forall|k: int| 0 <= k < cur.len() implies from_mismatch_in_row(
            board,
            img,
            i,
            j,
            (#[trigger] cur[k]),
        ) by {
            if k < prev.len() {
                assert(cur[k] == prev[k]);
                assert(from_mismatch_in_row(board, img, i, j - 1, prev[k]));
                lemma_widen_row_source(board, img, i, j - 1, j, prev[k]);
            } else {
                assert(mismatch_at(board, img, i, j - 1));
                assert(cur == prev.push(job_of(img, i, j - 1)));
                assert(cur[k] == job_of(img, i, j - 1));
                assert(0 <= j - 1 < j && mismatch_at(board, img, i, j - 1) && cur[k] == job_of(
                    img,
                    i,
                    j - 1,
                ));
            }
        }
        if mismatch_at(board, img, i, j - 1) {
            assert(cur == prev.push(job_of(img, i, j - 1)));
            assert(cur[prev.len() as int] == job_of(img, i, j - 1));
            assert(job_of(img, i, j - 1).y == img.y + j - 1);
            assert forall|jj: int| 0 <= jj < j && mismatch_at(board, img, i, jj) implies cur
                .contains(job_of(img, i, jj)) by {
                if jj < j - 1 {
                    let k = choose|k: int| 0 <= k < prev.len() && prev[k] == job_of(img, i, jj);
                    assert(cur[k] == job_of(img, i, jj));
                } else {
                    assert(cur[prev.len() as int] == job_of(img, i, jj));
                }
            }
        } else {
            assert(cur == prev);
            assert forall|jj: int| 0 <= jj < j && mismatch_at(board, img, i, jj) implies cur
                .contains(job_of(img, i, jj)) by {
                assert(jj != j - 1);
                let k = choose|k: int| 0 <= k < prev.len() && prev[k] == job_of(img, i, jj);
                assert(cur[k] == job_of(img, i, jj));
            }
        }
    }
}

proof fn lemma_rows_jobs_upto_props(board: Seq<Seq<u8>>, img: Image, i: int)
    requires
        image_wf(img),
        0 <= i <= img.len_x,
    ensures
        forall|k: int|
            0 <= k < rows_jobs_upto(board, img, i).len() ==> from_mismatch(
                board,
                img,
                (#[trigger] rows_jobs_upto(board, img, i)[k]),
            ),
        forall|ii: int, jj: int|
            0 <= ii < i && 0 <= jj < img.len_y && mismatch_at(board, img, ii, jj)
                ==> rows_jobs_upto(board, img, i).contains(job_of(img, ii, jj)),
        forall|k: int|
            0 <= k < rows_jobs_upto(board, img, i).len() ==> img.x <= #[trigger] rows_jobs_upto(
                board,
                img,
                i,
            )[k].x < img.x + i,
        forall|k1: int, k2: int|
            0 <= k1 < k2 < rows_jobs_upto(board, img, i).len() ==> (#[trigger] rows_jobs_upto(
                board,
                img,
                i,
            )[k1].x < #[trigger] rows_jobs_upto(board, img, i)[k2].x || (rows_jobs_upto(
                board,
                img,
                i,
            )[k1].x == rows_jobs_upto(board, img, i)[k2].x && rows_jobs_upto(
                board,
                img,
                i,
            )[k1].y < rows_jobs_upto(board, img, i)[k2].y)),
    decreases i,
{
    if i > 0 {
        lemma_rows_jobs_upto_props(board, img, i - 1);
        lemma_row_jobs_upto_props(board, img, i - 1, img.len_y as int);
        let prev = rows_jobs_upto(board, img, i - 1);
        let row = row_jobs_upto(board, img, i - 1, img.len_y as int);
        let cur = rows_jobs_upto(board, img, i);
        assert(cur == prev + row);
        assert forall|k: int| 0 <= k < cur.len() implies from_mismatch(
            board,
            img,
            (#[trigger] cur[k]),
        ) by {
            if k < prev.len() {
                assert(cur[k] == prev[k]);
                assert(from_mismatch(board, img, prev[k]));
            } else {
                assert(cur[k] == row[k - prev.len()]);
                assert(from_mismatch_in_row(board, img, i - 1, img.len_y as int, row[k - prev.len()]));
                lemma_row_source_is_source(board, img, i - 1, row[k - prev.len()]);
            }
        }
        assert forall|ii: int, jj: int|
            0 <= ii < i && 0 <= jj < img.len_y && mismatch_at(board, img, ii, jj) implies cur
            .contains(job_of(img, ii, jj)) by {
            if ii < i - 1 {
                let k = choose|k: int| 0 <= k < prev.len() && prev[k] == job_of(img, ii, jj);
                assert(cur[k] == job_of(img, ii, jj));
            } else {
                let k = choose|k: int| 0 <= k < row.len() && row[k] == job_of(img, ii, jj);
                assert(cur[prev.len() + k] == job_of(img, ii, jj));
            }
        }
        assert forall|k: int| 0 <= k < cur.len() implies img.x <= #[trigger] cur[k].x < img.x
            + i by {
            if k < prev.len() {
                assert(cur[k] == prev[k]);
            } else {
                assert(cur[k] == row[k - prev.len()]);
            }
        }
        assert forall|k1: int, k2: int| 0 <= k1 < k2 < cur.len() implies (#[trigger] cur[k1].x
            < #[trigger] cur[k2].x || (cur[k1].x == cur[k2].x && cur[k1].y < cur[k2].y)) by {
            if k2 < prev.len() {
                assert(cur[k1] == prev[k1] && cur[k2] == prev[k2]);
            } else if k1 >= prev.len() {
                assert(cur[k1] == row[k1 - prev.len()] && cur[k2] == row[k2 - prev.len()]);
            } else {
                assert(cur[k1] == prev[k1] && cur[k2] == row[k2 - prev.len()]);
                assert(prev[k1].x < img.x + (i - 1));
                assert(row[k2 - prev.len()].x == img.x + (i - 1));
            }
        }
    }
}

/// Law: for every canvas/overlay pair, the overlay's diff output holds
/// exactly one corrective write per mismatching cell — every mismatching
/// cell's write is present, every entry corrects some mismatching cell,
/// and no two entries name the same coordinate.
pub proof fn lemma_diff_exact(board: Seq<Seq<u8>>, img: Image)
    requires
        image_wf(img),
    ensures
        forall|i: int, j: int|
            0 <= i < img.len_x && 0 <= j < img.len_y && mismatch_at(board, img, i, j)
                ==> image_jobs(board, img).contains(job_of(img, i, j)),
        forall|k: int|
            0 <= k < image_jobs(board, img).len() ==> from_mismatch(
                board,
                img,
                (#[trigger] image_jobs(board, img)[k]),
            ),
        forall|k1: int, k2: int|
            0 <= k1 < k2 < image_jobs(board, img).len() ==> !(#[trigger] image_jobs(
                board,
                img,
            )[k1].x == #[trigger] image_jobs(board, img)[k2].x && image_jobs(board, img)[k1].y
                == image_jobs(board, img)[k2].y),
{
    lemma_rows_jobs_upto_props(board, img, img.len_x as int);
    let jobs = image_jobs(board, img);
    assert forall|k1: int, k2: int| 0 <= k1 < k2 < jobs.len() implies !(#[trigger] jobs[k1].x
        == #[trigger] jobs[k2].x && jobs[k1].y == jobs[k2].y) by {
    }
}

/// Law: the diff engine is deterministic — on equal canvas snapshots and
/// equal overlay lists it produces equal backlogs, entry for entry and in
/// the same order.
pub proof fn lemma_diff_deterministic(
    b1: Seq<Seq<u8>>,
    b2: Seq<Seq<u8>>,
    imgs1: Seq<Image>,
    imgs2: Seq<Image>,
)
    requires
        b1 == b2,
        imgs1 == imgs2,
    ensures
        backlog_spec(b1, imgs1) == backlog_spec(b2, imgs2),
{
}

/// Computes the corrective writes for one overlay.
pub fn image_mismatches(board: &Vec<Vec<u8>>, img: &Image) -> (r: Vec<WriteJob>)
    requires
        image_wf(*img),
        image_in_grid(grid_view(*board), *img),
    ensures
        r@ == image_jobs(grid_view(*board), *img),
{
    let ghost bd = grid_view(*board);
    let mut r: Vec<WriteJob> = Vec::new();
    let mut i: usize = 0;
    while i < img.len_x
        invariant
            image_wf(*img),
            image_in_grid(bd, *img),
            bd == grid_view(*board),
            i <= img.len_x,
            r@ == rows_jobs_upto(bd, *img, i as int),
        decreases img.len_x - i,
    {
        let mut j: usize = 0;
        while j < img.len_y
            invariant
                image_wf(*img),
                image_in_grid(bd, *img),
                bd == grid_view(*board),
                i < img.len_x,
                j <= img.len_y,
                r@ == rows_jobs_upto(bd, *img, i as int) + row_jobs_upto(
                    bd,
                    *img,
                    i as int,
                    j as int,
                ),
            decreases img.len_y - j,
        {
            let board_color = board[img.x + i][img.y + j];
            let image_color = img.data[i][j];
            if board_color != image_color {
                r.push(WriteJob { x: img.x + i, y: img.y + j, color: image_color });
            }
            j += 1;
        }
        i += 1;
    }
    r
}

/// Computes the full backlog plus, for each overlay, its mismatched-cell
/// count (handed to the progress reporter by the caller).
pub fn build_backlog(board: &Vec<Vec<u8>>, images: &Vec<Image>) -> (r: (
    Vec<WriteJob>,
    Vec<usize>,
))
    requires
        forall|m: int|
            0 <= m < images@.len() ==> image_wf(#[trigger] images@[m]) && image_in_grid(
                grid_view(*board),
                images@[m],
            ),
    ensures
        r.0@ == backlog_spec(grid_view(*board), images@),
        r.1@.len() == images@.len(),
        forall|m: int|
            0 <= m < images@.len() ==> r.1@[m] == image_jobs(
                grid_view(*board),
                #[trigger] images@[m],
            ).len(),
{
    let ghost bd = grid_view(*board);
    let mut jobs: Vec<WriteJob> = Vec::new();
    let mut counts: Vec<usize> = Vec::new();
    let mut m: usize = 0;
    while m < images.len()
        invariant
            forall|k: int|
                0 <= k < images@.len() ==> image_wf(#[trigger] images@[k]) && image_in_grid(
                    bd,
                    images@[k],
                ),
            bd == grid_view(*board),
            m <= images@.len(),
            jobs@ == backlog_upto(bd, images@, m as int),
            counts@.len() == m,
            forall|k: int|
                0 <= k < m ==> counts@[k] == image_jobs(bd, #[trigger] images@[k]).len(),
        decreases images@.len() - m,
    {
        let mut part = image_mismatches(board, &images[m]);
        counts.push(part.len());
        jobs.append(&mut part);
        m += 1;
    }
    (jobs, counts)
}

} // verus!
