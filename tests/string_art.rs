use string_art::driver::{gen_img, layout_and_run, progress_step, run_pass, validate, ConfigError, Rng, StringConfig};
use string_art::grid::Grid;
use string_art::peg::{layout_pegs, Peg};
use string_art::raster::{get_line, line_high, line_low};
use string_art::score::checkpx;
use string_art::search::{best_lines, Frame};

fn grid(w: u32, h: u32, fill: u8) -> Grid {
    Grid::from_raw(w, h, vec![fill; (w * h) as usize]).unwrap()
}

fn samples(g: Grid) -> Vec<u8> {
    g.into_raw()
}

fn frame(w: u32, h: u32) -> Frame {
    Frame { left: 0, top: 0, right: w as i32 - 1, bottom: h as i32 - 1 }
}

fn config(pegs: usize, passes: usize, pass_val: u8, depth: usize) -> StringConfig {
    StringConfig { pegs_x: pegs, pegs_y: pegs, passes, pass_val, depth, retry: false, jitter: 0, seed: 1 }
}

fn peg(x: i32, y: i32) -> Peg {
    Peg { x, y }
}

#[test]
fn pixel_score_moves_towards_target() {
    let src = grid(1, 1, 100);
    let mut dst = grid(1, 1, 50);
    assert_eq!(checkpx(&src, &mut dst, 0, 0, 30, false), 30);
    assert_eq!(checkpx(&src, &mut dst, 0, 0, 30, true), 30);
    assert_eq!(samples(dst), vec![80]);
}

#[test]
fn pixel_score_penalises_overshoot() {
    let src = grid(1, 1, 100);
    let mut dst = grid(1, 1, 90);
    // |90 - 100| - |150 - 100| = 10 - 50
    assert_eq!(checkpx(&src, &mut dst, 0, 0, 60, true), -40);
    assert_eq!(samples(dst), vec![150]);
}

#[test]
fn pixel_score_saturates_at_255() {
    let src = grid(1, 1, 255);
    let mut dst = grid(1, 1, 250);
    assert_eq!(checkpx(&src, &mut dst, 0, 0, 10, true), 5);
    assert_eq!(checkpx(&src, &mut dst, 0, 0, 10, true), 0);
    assert_eq!(samples(dst), vec![255]);
}

#[test]
fn low_slope_line_pixels() {
    let src = grid(5, 3, 255);
    let mut dst = grid(5, 3, 0);
    let score = get_line(&src, &mut dst, peg(0, 0), peg(4, 2), 10, true);
    assert_eq!(score, 50);
    let expect: Vec<u8> = vec![
        10, 10, 0, 0, 0, //
        0, 0, 10, 10, 0, //
        0, 0, 0, 0, 10,
    ];
    assert_eq!(samples(dst), expect);
}

#[test]
fn high_slope_line_pixels() {
    let src = grid(3, 5, 255);
    let mut dst = grid(3, 5, 0);
    get_line(&src, &mut dst, peg(2, 4), peg(0, 0), 10, true);
    let expect: Vec<u8> = vec![
        10, 0, 0, //
        10, 0, 0, //
        0, 10, 0, //
        0, 10, 0, //
        0, 0, 10,
    ];
    assert_eq!(samples(dst), expect);
}

#[test]
fn single_point_line() {
    let src = grid(2, 2, 255);
    let mut dst = grid(2, 2, 0);
    assert_eq!(get_line(&src, &mut dst, peg(1, 1), peg(1, 1), 7, true), 7);
    assert_eq!(samples(dst), vec![0, 0, 0, 7]);
}

#[test]
fn line_is_symmetric() {
    let ends = [(peg(0, 0), peg(6, 3)), (peg(1, 5), peg(4, 0)), (peg(0, 2), peg(6, 2)), (peg(3, 0), peg(2, 5))];
    for (a, b) in ends {
        let src = grid(7, 6, 200);
        let mut d1 = grid(7, 6, 0);
        let mut d2 = grid(7, 6, 0);
        let s1 = get_line(&src, &mut d1, a, b, 40, true);
        let s2 = get_line(&src, &mut d2, b, a, 40, true);
        assert_eq!(s1, s2);
        assert_eq!(samples(d1), samples(d2));
    }
}

#[test]
fn apply_never_lowers_and_caps_at_255() {
    let src = grid(4, 4, 128);
    let mut dst = Grid::from_raw(4, 4, (0..16).map(|i| (i * 17) as u8).collect()).unwrap();
    let before = samples(Grid::from_raw(4, 4, (0..16).map(|i| (i * 17) as u8).collect()).unwrap());
    get_line(&src, &mut dst, peg(0, 0), peg(3, 3), 200, true);
    get_line(&src, &mut dst, peg(0, 3), peg(3, 0), 200, true);
    let after = samples(dst);
    for i in 0..16 {
        assert!(after[i] >= before[i]);
    }
    assert_eq!(after[15], 255);
    assert_eq!(after[0], 200);
}

#[test]
fn dry_run_is_repeatable() {
    let src = Grid::from_raw(4, 4, (0..16).map(|i| (i * 13) as u8).collect()).unwrap();
    let mut dst = grid(4, 4, 30);
    let s1 = get_line(&src, &mut dst, peg(0, 1), peg(3, 2), 50, false);
    let s2 = get_line(&src, &mut dst, peg(0, 1), peg(3, 2), 50, false);
    assert_eq!(s1, s2);
    assert_eq!(samples(dst), vec![30; 16]);
}

#[test]
fn layout_uniform_count() {
    let pegs = layout_pegs(10, 10, 2, 2);
    assert_eq!(pegs.len(), 4 * 2 - 1);
    let expect = vec![peg(0, 0), peg(5, 0), peg(0, 9), peg(5, 9), peg(0, 5), peg(9, 0), peg(9, 5)];
    assert_eq!(pegs, expect);
}

#[test]
fn layout_independent_counts() {
    let pegs = layout_pegs(12, 8, 3, 2);
    assert_eq!(pegs.len(), 2 * 3 + 2 * 2 - 1);
    let expect = vec![peg(0, 0), peg(4, 0), peg(8, 0), peg(0, 7), peg(4, 7), peg(8, 7), peg(0, 4), peg(11, 0), peg(11, 4)];
    assert_eq!(pegs, expect);
}

#[test]
fn layout_one_peg_per_edge() {
    let pegs = layout_pegs(4, 4, 1, 1);
    assert_eq!(pegs, vec![peg(0, 0), peg(0, 3), peg(3, 0)]);
}

#[test]
fn zero_intensity_finds_nothing() {
    let src = grid(4, 4, 255);
    let mut dst = grid(4, 4, 0);
    let pegs = vec![peg(0, 0), peg(3, 0), peg(0, 3), peg(3, 3)];
    let (score, path) = best_lines(&src, &mut dst, &pegs, peg(0, 0), 0, 0, 2, frame(4, 4));
    assert!(score <= 0);
    assert!(path.is_empty());
    let mut c = config(1, 10, 0, 2);
    c.retry = true;
    let mut rng = Rng::new(3);
    assert_eq!(run_pass(&src, &mut dst, &pegs, peg(0, 0), &c, &mut rng), None);
    assert_eq!(samples(dst), vec![0; 16]);
}

#[test]
fn corner_pegs_pick_the_diagonal() {
    let src = grid(4, 4, 255);
    let mut dst = grid(4, 4, 0);
    let pegs = vec![peg(0, 0), peg(3, 0), peg(0, 3), peg(3, 3)];
    let (score, path) = best_lines(&src, &mut dst, &pegs, peg(0, 0), 255, 0, 1, frame(4, 4));
    assert_eq!(path, vec![peg(3, 3)]);
    assert_eq!(score, 4 * 255);
    let c = config(1, 1, 255, 1);
    let mut rng = Rng::new(0);
    assert_eq!(run_pass(&src, &mut dst, &pegs, peg(0, 0), &c, &mut rng), Some(peg(3, 3)));
    let out = samples(dst);
    for i in 0..4 {
        assert_eq!(out[i * 4 + i], 255);
    }
    assert_eq!(out.iter().filter(|v| **v == 255).count(), 4);
}

#[test]
fn no_same_edge_chord_is_returned() {
    let src = Grid::from_raw(8, 8, (0..64).map(|i| (i * 7 % 256) as u8).collect()).unwrap();
    let mut dst = grid(8, 8, 0);
    let pegs = layout_pegs(8, 8, 3, 3);
    let f = frame(8, 8);
    for start in pegs.clone() {
        let (_, path) = best_lines(&src, &mut dst, &pegs, start, 60, 0, 2, f);
        let mut prev = start;
        for p in path {
            assert!(!(prev.x == 0 && p.x == 0 || prev.x == 7 && p.x == 7 || prev.y == 0 && p.y == 0 || prev.y == 7 && p.y == 7));
            prev = p;
        }
    }
}

#[test]
fn matched_canvas_stops_on_first_pass() {
    let target = grid(6, 6, 0);
    let (out, drawn) = layout_and_run(&target, &config(2, 20, 40, 1)).unwrap();
    assert_eq!(drawn, 0);
    assert_eq!(samples(out), vec![0; 36]);
}

#[test]
fn zero_jitter_matches_disabled_jitter() {
    let pixels: Vec<u8> = (0..100).map(|i| ((i * 37) % 251) as u8).collect();
    let target = Grid::from_raw(10, 10, pixels.clone()).unwrap();
    let mut a = config(3, 30, 50, 2);
    a.jitter = 0;
    a.seed = 11;
    let mut b = a;
    b.jitter = 1;
    b.seed = 987654321;
    let (ga, na) = layout_and_run(&target, &a).unwrap();
    let (gb, nb) = layout_and_run(&target, &b).unwrap();
    assert_eq!(na, nb);
    assert_eq!(samples(ga), samples(gb));
}

#[test]
fn jitter_stays_in_image() {
    let target = grid(9, 9, 255);
    let mut c = config(2, 15, 30, 1);
    c.jitter = 6;
    c.seed = 5;
    let (g, n) = layout_and_run(&target, &c).unwrap();
    assert!(n >= 1);
    assert!(samples(g).iter().any(|v| *v > 0));
}

#[test]
fn run_draws_toward_target() {
    let target = grid(8, 8, 255);
    let mut dst = grid(8, 8, 0);
    let n = gen_img(&target, &mut dst, &config(2, 3, 100, 1)).unwrap();
    assert!(n >= 1 && n <= 3);
    assert!(samples(dst).iter().any(|v| *v > 0));
}

#[test]
fn gen_img_rejects_size_mismatch() {
    let target = grid(8, 8, 255);
    let mut dst = grid(7, 8, 0);
    assert_eq!(gen_img(&target, &mut dst, &config(2, 3, 100, 1)), Err(ConfigError::SizeMismatch));
}

#[test]
fn validate_errors() {
    assert_eq!(validate(&config(0, 1, 10, 1), 10, 10), Err(ConfigError::NoPegs));
    assert_eq!(validate(&config(2, 1, 0, 1), 10, 10), Err(ConfigError::NoInk));
    assert_eq!(validate(&config(2, 1, 10, 1), 1, 10), Err(ConfigError::ImageTooSmall));
    assert_eq!(validate(&config(11, 1, 10, 1), 10, 10), Err(ConfigError::ImageTooSmall));
    assert_eq!(validate(&config(2, 1, 10, 1), 3_000_000_000, 10), Err(ConfigError::ImageTooLarge));
    assert_eq!(validate(&config(2, 1, 10, 1_000_000), 10, 10), Err(ConfigError::TooDeep));
    assert_eq!(validate(&config(2, 1, 10, 3), 10, 10), Ok(()));
}

#[test]
fn layout_and_run_reports_config_error() {
    let target = grid(4, 4, 255);
    assert!(matches!(layout_and_run(&target, &config(2, 1, 0, 1)), Err(ConfigError::NoInk)));
}

#[test]
fn progress_cadence() {
    assert_eq!(progress_step(0), 1);
    assert_eq!(progress_step(99), 1);
    assert_eq!(progress_step(100), 1);
    assert_eq!(progress_step(1024), 10);
}

#[test]
fn rng_is_seeded() {
    let mut a = Rng::new(42);
    let mut b = Rng::new(42);
    let xs: Vec<u64> = (0..5).map(|_| a.next()).collect();
    let ys: Vec<u64> = (0..5).map(|_| b.next()).collect();
    assert_eq!(xs, ys);
    assert_ne!(xs[0], xs[1]);
}

#[test]
fn grid_round_trip() {
    let g = Grid::from_raw(3, 2, vec![1, 2, 3, 4, 5, 6]).unwrap();
    assert_eq!(samples(g), vec![1, 2, 3, 4, 5, 6]);
    assert!(Grid::from_raw(3, 2, vec![0; 5]).is_none());
    let blank = Grid::new(2, 2);
    assert_eq!(samples(blank), vec![0; 4]);
}


fn retry_target() -> Grid {
    // 255 along the chord from (0, 4) to (4, 2), 0 elsewhere
    let mut px = vec![0u8; 25];
    for (x, y) in [(0, 4), (1, 4), (2, 3), (3, 3), (4, 2)] {
        px[y * 5 + x] = 255;
    }
    Grid::from_raw(5, 5, px).unwrap()
}

#[test]
fn deeper_search_sees_past_a_costly_chord() {
    let src = retry_target();
    let mut dst = grid(5, 5, 0);
    let pegs = vec![peg(0, 0), peg(4, 2), peg(0, 4)];
    let f = frame(5, 5);
    assert_eq!(best_lines(&src, &mut dst, &pegs, peg(0, 0), 100, 0, 1, f), (0, vec![]));
    assert_eq!(best_lines(&src, &mut dst, &pegs, peg(0, 0), 100, 0, 2, f), (200, vec![peg(4, 2), peg(0, 4)]));
}

#[test]
fn retry_deepening_draws_the_longer_chain() {
    let src = retry_target();
    let pegs = vec![peg(0, 0), peg(4, 2), peg(0, 4)];
    let mut c = config(1, 1, 100, 1);
    let mut rng = Rng::new(9);
    let mut plain = grid(5, 5, 0);
    assert_eq!(run_pass(&src, &mut plain, &pegs, peg(0, 0), &c, &mut rng), None);
    assert_eq!(samples(plain), vec![0; 25]);
    c.retry = true;
    let mut dst = grid(5, 5, 0);
    assert_eq!(run_pass(&src, &mut dst, &pegs, peg(0, 0), &c, &mut rng), Some(peg(0, 4)));
    let out = samples(dst);
    for (x, y) in [(0, 0), (1, 0), (2, 1), (3, 1), (0, 4), (1, 4), (2, 3), (3, 3)] {
        assert_eq!(out[y * 5 + x], 100);
    }
    assert_eq!(out[2 * 5 + 4], 200);
    assert_eq!(out.iter().filter(|v| **v > 0).count(), 9);
}

#[test]
fn line_low_single_pixel() {
    let src = grid(3, 3, 255);
    let mut dst = grid(3, 3, 0);
    assert_eq!(line_low(&src, &mut dst, peg(1, 2), peg(1, 2), 9, true), 9);
    assert_eq!(samples(dst), vec![0, 0, 0, 0, 0, 0, 0, 9, 0]);
}

#[test]
fn line_low_diagonal() {
    let src = grid(4, 4, 255);
    let mut dst = grid(4, 4, 0);
    assert_eq!(line_low(&src, &mut dst, peg(0, 3), peg(3, 0), 20, true), 80);
    let out = samples(dst);
    for x in 0..4 {
        assert_eq!(out[(3 - x) * 4 + x], 20);
    }
    assert_eq!(out.iter().filter(|v| **v > 0).count(), 4);
}

#[test]
fn line_high_diagonal_dry_run() {
    let src = grid(4, 4, 255);
    let mut dst = grid(4, 4, 0);
    assert_eq!(line_high(&src, &mut dst, peg(0, 0), peg(3, 3), 20, false), 80);
    assert_eq!(samples(dst), vec![0; 16]);
}
