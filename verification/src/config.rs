//! Startup configuration: write credentials, canvas dimensions, loop
//! intervals, the concurrency cap, and the loaded overlay images.
//!
//! Reading `config.toml` and the image files is the loader's job and
//! happens outside the library; the library validates what it is handed
//! and refuses to enter the running phase on a violated bound (a fatal
//! configuration error).

use vstd::prelude::*;
use crate::diff::{Image, image_wf};
use crate::fetch::images_fit;

verus! {

/// One write credential: an identity and its secret.
#[derive(Clone, Debug)]
pub struct Token {
    pub uid: i32,
    pub token: String,
}

/// The raw numeric and credential configuration, as the loader reads it
/// from disk.
#[derive(Clone, Debug)]
pub struct DeserializeConfig {
    pub base_url: String,
    pub tokens: Vec<Token>,
    pub board_x: usize,
    pub board_y: usize,
    pub fetch_interval: u64,
    pub paint_interval: u64,
    pub max_concurrent_paint: usize,
}

/// The validated running configuration: derived endpoint URLs, the
/// credential pool, and the overlay images sorted ascending by priority.
#[derive(Clone, Debug)]
pub struct Config {
    pub board_url: String,
    pub paint_url: String,
    pub tokens: Vec<Token>,
    pub images: Vec<Image>,
    pub board_x: usize,
    pub board_y: usize,
    pub fetch_interval: u64,
    pub paint_interval: u64,
    pub max_concurrent_paint: usize,
}

/// The overlays are in ascending priority order (the loader sorts them;
/// the library checks).
pub open spec fn images_sorted(imgs: Seq<Image>) -> bool {
    forall|i: int| 0 <= i < imgs.len() - 1 ==> (#[trigger] imgs[i]).priority <= imgs[i + 1].priority
}

/// A setup the core may run with: at least one credential, every overlay
/// well-formed and inside the canvas, overlays sorted by priority, and
/// the canvas area within machine range.
pub open spec fn setup_ok(cfg: DeserializeConfig, imgs: Seq<Image>) -> bool {
    &&& cfg.tokens@.len() > 0
    &&& cfg.board_x * cfg.board_y <= usize::MAX
    &&& images_fit(imgs, cfg.board_x as int, cfg.board_y as int)
    &&& images_sorted(imgs)
}

/// Checks a loaded setup. A `false` here is a fatal configuration error:
/// the caller must refuse to enter the running phase.
#[verifier::rlimit(60)]
pub fn check_setup(cfg: &DeserializeConfig, images: &Vec<Image>) -> (ok: bool)
    ensures
        ok == setup_ok(*cfg, images@),
{
    if cfg.tokens.len() == 0 {
        return false;
    }
    match cfg.board_x.checked_mul(cfg.board_y) {
        Some(_) => {},
        None => {
            return false;
        },
    }
    let mut m: usize = 0;
    while m < images.len()
        invariant
            m <= images@.len(),
            forall|k: int|
                0 <= k < m ==> image_wf(#[trigger] images@[k]) && images@[k].x + images@[k].len_x
                    <= cfg.board_x && images@[k].y + images@[k].len_y <= cfg.board_y,
            forall|k: int|
                0 <= k < m - 1 ==> (#[trigger] images@[k]).priority <= images@[k + 1].priority,
        decreases images@.len() - m,
    {
        let img = &images[m];
        if img.data.len() != img.len_x {
            proof {
                assert(!image_wf(images@[m as int]));
            }
            return false;
        }
        let mut i: usize = 0;
        while i < img.len_x
            invariant
                i <= img.len_x,
                m < images@.len(),
                *img == images@[m as int],
                img.data@.len() == img.len_x,
                forall|k: int| 0 <= k < i ==> (#[trigger] img.data@[k])@.len() == img.len_y,
            decreases img.len_x - i,
        {
            if img.data[i].len() != img.len_y {
                proof {
                    assert(images@[m as int].data@[i as int]@.len() != images@[m as int].len_y);
                    assert(!image_wf(images@[m as int]));
                }
                return false;
            }
            i += 1;
        }
        if img.len_x > cfg.board_x || img.x > cfg.board_x - img.len_x {
            return false;
        }
        if img.len_y > cfg.board_y || img.y > cfg.board_y - img.len_y {
            return false;
        }
        if m > 0 && images[m - 1].priority > images[m].priority {
            proof {
                assert(!images_sorted(images@));
            }
            return false;
        }
        proof {
            assert(image_wf(images@[m as int]));
        }
        m += 1;
    }
    true
}

/// Relies on `format!`: the result is the concatenation of the two
/// argument strings.
#[verifier::external_body]
fn concat_str(a: &str, b: &str) -> (r: String)
    ensures
        r@ == a@ + b@,
{
    format!("{}{}", a, b)
}

/// Builds the running configuration from a validated setup: derives the
/// read and write endpoints from the base URL by their fixed path
/// suffixes and carries everything else over unchanged.
pub fn make_config(cfg: DeserializeConfig, images: Vec<Image>) -> (r: Config)
    requires
        setup_ok(cfg, images@),
    ensures
        r.board_url@ == cfg.base_url@ + "/board"@,
        r.paint_url@ == cfg.base_url@ + "/paint"@,
        r.tokens == cfg.tokens,
        r.images == images,
        r.board_x == cfg.board_x,
        r.board_y == cfg.board_y,
        r.fetch_interval == cfg.fetch_interval,
        r.paint_interval == cfg.paint_interval,
        r.max_concurrent_paint == cfg.max_concurrent_paint,
        setup_ok(cfg, r.images@),
{
    let board_url = concat_str(cfg.base_url.as_str(), "/board");
    let paint_url = concat_str(cfg.base_url.as_str(), "/paint");
    Config {
        board_url,
        paint_url,
        tokens: cfg.tokens,
        images,
        board_x: cfg.board_x,
        board_y: cfg.board_y,
        fetch_interval: cfg.fetch_interval,
        paint_interval: cfg.paint_interval,
        max_concurrent_paint: cfg.max_concurrent_paint,
    }
}

} // verus!
