use luogu_paintboard::board::{split_lines, to_colors};
use luogu_paintboard::color::char_to_color;
use luogu_paintboard::config::{check_setup, make_config, DeserializeConfig, Token};
use luogu_paintboard::diff::{Image, WriteJob};
use luogu_paintboard::dispatch::{build_paint_form, dec_string_i32, dec_string_u64, plan_dispatch};
use luogu_paintboard::backlog::BacklogStore;
use luogu_paintboard::loader::{palette_index_of, pixels_to_board, text_to_board};
use luogu_paintboard::response::{classify_response, parse_paint_response, WriteOutcome};
use luogu_paintboard::rotator::CredentialRotator;

#[test]
fn char_to_color_digits_and_letters() {
    assert_eq!(char_to_color(b'0'), 0);
    assert_eq!(char_to_color(b'9'), 9);
    assert_eq!(char_to_color(b'a'), 10);
    assert_eq!(char_to_color(b'z'), 35);
}

#[test]
fn scenario_response_classification() {
    // status 200 is success, another status a non-fatal rejection, an
    // empty (unparseable) body an error.
    let ok: Vec<u8> = br#"{"data":"ok","status":200}"#.to_vec();
    assert_eq!(classify_response(&ok), WriteOutcome::Success);
    let cooldown: Vec<u8> = br#"{"data":"cooldown","status":429}"#.to_vec();
    assert_eq!(classify_response(&cooldown), WriteOutcome::Rejected);
    let empty: Vec<u8> = Vec::new();
    assert_eq!(classify_response(&empty), WriteOutcome::Invalid);
}

#[test]
fn parse_response_carries_payload() {
    let ok: Vec<u8> = br#"{"data":"ok","status":200}"#.to_vec();
    let p = parse_paint_response(&ok).unwrap();
    assert_eq!(p.data, "ok");
    assert_eq!(p.status, 200);
    let neg: Vec<u8> = br#"{"data":"x","status":-7}"#.to_vec();
    let p2 = parse_paint_response(&neg).unwrap();
    assert_eq!(p2.data, "x");
    assert_eq!(p2.status, -7);
}

#[test]
fn parse_response_rejects_malformed_bodies() {
    let cases: Vec<&[u8]> = vec![
        b"",
        b"{}",
        b"{\"data\":\"ok\"}",
        b"{\"data\":\"ok\",\"status\":}",
        b"{\"data\":\"ok\",\"status\":0200}",
        b"{\"data\":\"ok\",\"status\":-0}",
        b"{\"data\":\"ok\",\"status\":200} ",
        b"{\"data\":\"ok\",\"status\":99999999999}",
        b"{\"data\":\"a\\b\",\"status\":200}",
        b"not json at all",
    ];
    for c in cases {
        assert!(parse_paint_response(&c.to_vec()).is_none());
    }
}

#[test]
fn decimal_strings() {
    assert_eq!(dec_string_u64(0), "0");
    assert_eq!(dec_string_u64(1234), "1234");
    assert_eq!(dec_string_u64(u64::MAX), "18446744073709551615");
    assert_eq!(dec_string_i32(0), "0");
    assert_eq!(dec_string_i32(-123), "-123");
    assert_eq!(dec_string_i32(i32::MIN), "-2147483648");
}

#[test]
fn paint_form_fields() {
    let j = WriteJob { x: 5, y: 17, color: 3 };
    let t = Token { uid: 42, token: "s3cr3t".to_string() };
    let form = build_paint_form(&j, &t);
    assert_eq!(form.len(), 5);
    assert_eq!(form[0], ("x".to_string(), "5".to_string()));
    assert_eq!(form[1], ("y".to_string(), "17".to_string()));
    assert_eq!(form[2], ("color".to_string(), "3".to_string()));
    assert_eq!(form[3], ("uid".to_string(), "42".to_string()));
    assert_eq!(form[4], ("token".to_string(), "s3cr3t".to_string()));
}

#[test]
fn plan_pairs_jobs_with_rotated_credentials() {
    let mut store = BacklogStore::new();
    let jobs: Vec<WriteJob> = (0..5).map(|i| WriteJob { x: i, y: 0, color: 1 }).collect();
    store.replace(jobs.clone());
    let mut rot = CredentialRotator::new(3);
    let batch1 = plan_dispatch(&mut store, &mut rot);
    assert_eq!(batch1.len(), 3);
    let idx1: Vec<usize> = batch1.iter().map(|p| p.1).collect();
    assert_eq!(idx1, vec![0, 1, 2]);
    let batch2 = plan_dispatch(&mut store, &mut rot);
    assert_eq!(batch2.len(), 2);
    let idx2: Vec<usize> = batch2.iter().map(|p| p.1).collect();
    assert_eq!(idx2, vec![0, 1]);
    let got: Vec<WriteJob> = batch1.iter().chain(batch2.iter()).map(|p| p.0).collect();
    assert_eq!(got, jobs);
}

#[test]
fn split_lines_matches_split_on_newline() {
    let body: Vec<u8> = b"ab\nc\n\nd".to_vec();
    let rows = split_lines(&body);
    let expected: Vec<Vec<u8>> =
        vec![b"ab".to_vec(), b"c".to_vec(), Vec::new(), b"d".to_vec()];
    assert_eq!(rows, expected);
    assert_eq!(split_lines(&Vec::new()), vec![Vec::<u8>::new()]);
}

#[test]
fn to_colors_decodes_and_validates() {
    let rows: Vec<Vec<u8>> = vec![b"0az".to_vec(), b"999".to_vec()];
    let board = to_colors(&rows, 2, 3).unwrap();
    assert_eq!(board, vec![vec![0, 10, 35], vec![9, 9, 9]]);
    // short row
    assert!(to_colors(&vec![b"0a".to_vec(), b"9".to_vec()], 2, 2).is_none());
    // invalid character
    assert!(to_colors(&vec![b"0A".to_vec()], 1, 2).is_none());
}

#[test]
fn setup_checks() {
    let cfg = DeserializeConfig {
        base_url: "http://example".to_string(),
        tokens: vec![Token { uid: 1, token: "t".to_string() }],
        board_x: 10,
        board_y: 10,
        fetch_interval: 30,
        paint_interval: 10,
        max_concurrent_paint: 4,
    };
    let img = Image {
        name: "a".to_string(),
        data: vec![vec![1, 2], vec![3, 4]],
        x: 1,
        y: 2,
        len_x: 2,
        len_y: 2,
        priority: 0,
    };
    assert!(check_setup(&cfg, &vec![img.clone()]));

    let mut no_tokens = cfg.clone();
    no_tokens.tokens = Vec::new();
    assert!(!check_setup(&no_tokens, &vec![img.clone()]));

    let mut out_of_bounds = img.clone();
    out_of_bounds.x = 9;
    assert!(!check_setup(&cfg, &vec![out_of_bounds]));

    let mut ragged = img.clone();
    ragged.data = vec![vec![1, 2], vec![3]];
    assert!(!check_setup(&cfg, &vec![ragged]));

    let mut late = img.clone();
    late.priority = 5;
    let early = img.clone();
    assert!(check_setup(&cfg, &vec![img.clone(), late.clone()]));
    assert!(!check_setup(&cfg, &vec![late, early]));
}

#[test]
fn config_derives_endpoints() {
    let cfg = DeserializeConfig {
        base_url: "http://example".to_string(),
        tokens: vec![Token { uid: 1, token: "t".to_string() }],
        board_x: 4,
        board_y: 4,
        fetch_interval: 1,
        paint_interval: 1,
        max_concurrent_paint: 1,
    };
    let conf = make_config(cfg, Vec::new());
    assert_eq!(conf.board_url, "http://example/board");
    assert_eq!(conf.paint_url, "http://example/paint");
    assert_eq!(conf.tokens.len(), 1);
    assert_eq!(conf.board_x, 4);
}

#[test]
fn palette_lookup_finds_first_match() {
    let palette: Vec<(u8, u8, u8)> = vec![(0, 0, 0), (255, 255, 255), (255, 0, 0)];
    assert_eq!(palette_index_of(&palette, (255, 255, 255)), Some(1));
    assert_eq!(palette_index_of(&palette, (0, 0, 0)), Some(0));
    assert_eq!(palette_index_of(&palette, (1, 2, 3)), None);
}

#[test]
fn pixels_map_to_palette_indices() {
    let palette: Vec<(u8, u8, u8)> = vec![(0, 0, 0), (255, 255, 255)];
    let pixels: Vec<Vec<(u8, u8, u8)>> =
        vec![vec![(0, 0, 0), (255, 255, 255)], vec![(255, 255, 255), (0, 0, 0)]];
    let board = pixels_to_board(&pixels, &palette).unwrap();
    assert_eq!(board, vec![vec![0, 1], vec![1, 0]]);
    let unknown: Vec<Vec<(u8, u8, u8)>> = vec![vec![(9, 9, 9)]];
    assert!(pixels_to_board(&unknown, &palette).is_none());
}

#[test]
fn text_image_transposes_columns() {
    // text rows "012x" / "345x": the final character of each row is the
    // line-break artifact and is dropped; the image is the transpose
    let rows: Vec<Vec<u8>> = vec![b"012x".to_vec(), b"345x".to_vec()];
    let board = text_to_board(&rows).unwrap();
    assert_eq!(board, vec![vec![0, 3], vec![1, 4], vec![2, 5]]);
    // a character that encodes no color inside the used region fails
    let bad: Vec<Vec<u8>> = vec![b"0!2x".to_vec()];
    assert!(text_to_board(&bad).is_none());
}
