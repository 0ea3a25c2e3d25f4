use luogu_paintboard::backlog::BacklogStore;
use luogu_paintboard::diff::{build_backlog, image_mismatches, Image, WriteJob};
use luogu_paintboard::fetch::apply_fetch;
use luogu_paintboard::admission::PaintPermits;
use luogu_paintboard::rotator::CredentialRotator;

fn image(name: &str, x: usize, y: usize, priority: i32, data: Vec<Vec<u8>>) -> Image {
    let len_x = data.len();
    let len_y = data[0].len();
    Image { name: name.to_string(), data, x, y, len_x, len_y, priority }
}

fn job(x: usize, y: usize, color: u8) -> WriteJob {
    WriteJob { x, y, color }
}

#[test]
fn scenario_all_zero_canvas_all_one_overlay() {
    // 3x3 all-zero canvas, one 3x3 all-one overlay at the origin:
    // nine corrective writes, raster order.
    let board: Vec<Vec<u8>> = vec![vec![0, 0, 0], vec![0, 0, 0], vec![0, 0, 0]];
    let img = image("a", 0, 0, 0, vec![vec![1, 1, 1], vec![1, 1, 1], vec![1, 1, 1]]);
    let jobs = image_mismatches(&board, &img);
    assert_eq!(jobs.len(), 9);
    let mut expected = Vec::new();
    for x in 0..3usize {
        for y in 0..3usize {
            expected.push(job(x, y, 1));
        }
    }
    assert_eq!(jobs, expected);
}

#[test]
fn scenario_overlapping_overlays_one_job_each() {
    // Two overlays of different priority covering the same mismatching
    // cell: one job per overlay, in priority order.
    let board: Vec<Vec<u8>> = vec![vec![0]];
    let first = image("p0", 0, 0, 0, vec![vec![1]]);
    let second = image("p1", 0, 0, 1, vec![vec![2]]);
    let (jobs, counts) = build_backlog(&board, &vec![first, second]);
    assert_eq!(jobs, vec![job(0, 0, 1), job(0, 0, 2)]);
    assert_eq!(counts, vec![1, 1]);
}

#[test]
fn diff_skips_matching_cells() {
    let board: Vec<Vec<u8>> = vec![vec![1, 0], vec![0, 1]];
    let img = image("a", 0, 0, 0, vec![vec![1, 1], vec![1, 1]]);
    let jobs = image_mismatches(&board, &img);
    assert_eq!(jobs, vec![job(0, 1, 1), job(1, 0, 1)]);
}

#[test]
fn diff_respects_overlay_origin() {
    let board: Vec<Vec<u8>> = vec![vec![0, 0, 0], vec![0, 5, 0], vec![0, 0, 0]];
    let img = image("a", 1, 1, 0, vec![vec![5]]);
    let jobs = image_mismatches(&board, &img);
    assert!(jobs.is_empty());
    let img2 = image("b", 1, 2, 0, vec![vec![7]]);
    let jobs2 = image_mismatches(&board, &img2);
    assert_eq!(jobs2, vec![job(1, 2, 7)]);
}

#[test]
fn diff_is_deterministic_across_runs() {
    let board: Vec<Vec<u8>> = vec![vec![0, 1, 2], vec![3, 4, 5]];
    let imgs = vec![
        image("a", 0, 0, 0, vec![vec![1, 1, 1]]),
        image("b", 1, 0, 1, vec![vec![3, 0, 5]]),
    ];
    let (jobs1, counts1) = build_backlog(&board, &imgs);
    let (jobs2, counts2) = build_backlog(&board, &imgs);
    assert_eq!(jobs1, jobs2);
    assert_eq!(counts1, counts2);
}

#[test]
fn backlog_drain_returns_at_most_n_and_never_twice() {
    let mut store = BacklogStore::new();
    let jobs: Vec<WriteJob> = (0..5).map(|i| job(i, i, 1)).collect();
    store.replace(jobs.clone());
    assert_eq!(store.len(), 5);
    let d1 = store.drain_up_to(2);
    let d2 = store.drain_up_to(2);
    let d3 = store.drain_up_to(2);
    let d4 = store.drain_up_to(2);
    assert_eq!(d1.len(), 2);
    assert_eq!(d2.len(), 2);
    assert_eq!(d3.len(), 1);
    assert_eq!(d4.len(), 0);
    let mut recombined = Vec::new();
    recombined.extend(d1);
    recombined.extend(d2);
    recombined.extend(d3);
    assert_eq!(recombined, jobs);
}

#[test]
fn backlog_replace_overwrites_wholesale() {
    let mut store = BacklogStore::new();
    store.replace(vec![job(1, 1, 1), job(2, 2, 2)]);
    store.replace(vec![job(9, 9, 9)]);
    let drained = store.drain_up_to(10);
    assert_eq!(drained, vec![job(9, 9, 9)]);
    assert_eq!(store.len(), 0);
}

#[test]
fn rotator_round_robin_exact_counts() {
    // Over k * pool_size calls each credential comes back exactly k
    // times, in round-robin order from wherever the cursor stood.
    let mut rot = CredentialRotator::new(3);
    let first: Vec<usize> = (0..6).map(|_| rot.next()).collect();
    assert_eq!(first, vec![0, 1, 2, 0, 1, 2]);
    // leave the cursor mid-pool, then run 2 * 3 more calls
    let _ = rot.next();
    let seq: Vec<usize> = (0..6).map(|_| rot.next()).collect();
    assert_eq!(seq, vec![1, 2, 0, 1, 2, 0]);
    for c in 0..3usize {
        assert_eq!(seq.iter().filter(|v| **v == c).count(), 2);
    }
}

#[test]
fn admission_caps_in_flight_writes() {
    let mut permits = PaintPermits::new(2);
    assert!(permits.try_admit());
    assert!(permits.try_admit());
    assert!(!permits.try_admit());
    assert!(permits.in_flight <= permits.max);
    permits.complete();
    assert!(permits.try_admit());
    assert!(!permits.try_admit());
    assert!(permits.in_flight <= permits.max);
    permits.complete();
    permits.complete();
    assert_eq!(permits.in_flight, 0);
}

#[test]
fn fetch_accepts_full_canvas_and_replaces_backlog() {
    let mut store = BacklogStore::new();
    store.replace(vec![job(9, 9, 9)]);
    let body: Vec<u8> = b"000\n000\n000\n".to_vec();
    let imgs = vec![image("a", 0, 0, 0, vec![vec![1, 1, 1], vec![1, 1, 1], vec![1, 1, 1]])];
    let counts = apply_fetch(&mut store, &body, 3, 3, &imgs);
    assert_eq!(counts, Some(vec![9]));
    let drained = store.drain_up_to(100);
    assert_eq!(drained.len(), 9);
    assert_eq!(drained[0], job(0, 0, 1));
    assert_eq!(drained[8], job(2, 2, 1));
}

#[test]
fn scenario_short_body_keeps_previous_backlog() {
    // A body no longer than board_x * board_y is rejected and the prior
    // backlog stays in force.
    let mut store = BacklogStore::new();
    let prior = vec![job(1, 2, 3), job(4, 5, 6)];
    store.replace(prior.clone());
    let body: Vec<u8> = b"000000000".to_vec();  // exactly 9 bytes, not more
    let imgs = vec![image("a", 0, 0, 0, vec![vec![1]])];
    let r = apply_fetch(&mut store, &body, 3, 3, &imgs);
    assert!(r.is_none());
    let drained = store.drain_up_to(10);
    assert_eq!(drained, prior);
}

#[test]
fn fetch_rejects_malformed_canvas_bytes() {
    let mut store = BacklogStore::new();
    let prior = vec![job(7, 7, 7)];
    store.replace(prior.clone());
    // long enough, but holds a byte that encodes no color
    let body: Vec<u8> = b"000\n0!0\n000\n".to_vec();
    let imgs = vec![image("a", 0, 0, 0, vec![vec![1]])];
    let r = apply_fetch(&mut store, &body, 3, 3, &imgs);
    assert!(r.is_none());
    assert_eq!(store.drain_up_to(10), prior);
}

#[test]
fn fetch_decodes_letter_colors() {
    let mut store = BacklogStore::new();
    let body: Vec<u8> = b"az\n09\n".to_vec();
    // canvas decodes to [[10, 35], [0, 9]]; overlay wants [[10, 35], [0, 8]]
    let imgs = vec![image("a", 0, 0, 0, vec![vec![10, 35], vec![0, 8]])];
    let counts = apply_fetch(&mut store, &body, 2, 2, &imgs);
    assert_eq!(counts, Some(vec![1]));
    assert_eq!(store.drain_up_to(10), vec![job(1, 1, 8)]);
}
