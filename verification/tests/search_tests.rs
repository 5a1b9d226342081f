use pixel_grid::period::PeriodHint;
use pixel_grid::raster::{Pixel, PixelBuffer};
use pixel_grid::ratio::{is_fraction_less, is_score_less, Ratio};
use pixel_grid::search::{find_best_phase_for_scale, find_optimal_scale_v4, select_scale, ScaleResult};
use pixel_grid::variance::calculate_block_variance;

fn value(v: Option<Ratio>) -> f64 {
    match v {
        Some(r) => r.num as f64 / r.den as f64,
        None => f32::MAX as f64,
    }
}

fn tile_color(tx: u32, ty: u32) -> Pixel {
    // neighbouring tiles always differ, and no two tiles of a 2 by 2 group agree
    let r = 40 + 60 * (tx % 3) as u8;
    let g = 50 + 70 * (ty % 3) as u8;
    let b = 30 + 90 * ((tx + 2 * ty) % 2) as u8;
    Pixel::new(r, g, b, 255)
}

/// An image of `tiles_x` by `tiles_y` tiles of one colour each, `scale`
/// pixels wide, whose grid begins `phase` pixels behind the corner.
fn tiled(tiles_x: u32, tiles_y: u32, scale: u32, phase: u32) -> PixelBuffer {
    let width = tiles_x * scale;
    let height = tiles_y * scale;
    let mut img = PixelBuffer::new(width, height);
    for y in 0..height {
        for x in 0..width {
            let tx = (x + scale - phase) / scale;
            let ty = (y + scale - phase) / scale;
            img.put_pixel(x, y, tile_color(tx, ty));
        }
    }
    img
}

#[test]
fn test_block_variance_uniform() {
    // Create a simple uniform image - variance should be 0
    let img = PixelBuffer::from_pixel(100, 100, Pixel::new(128, 128, 128, 255));
    let var = value(calculate_block_variance(&img, 10, 0, 0));
    assert!(var < 0.1, "Uniform image should have near-zero variance");
}

#[test]
fn uniform_image_has_variance_zero_over_all_blocks() {
    let img = PixelBuffer::from_pixel(100, 100, Pixel::new(128, 128, 128, 255));
    let v = calculate_block_variance(&img, 10, 0, 0).expect("blocks");
    // margin 16, region 68 wide; the first boundary behind the margin is at
    // 20: 6 by 6 blocks of 100 pixels
    assert_eq!(v.num, 0);
    assert_eq!(v.den, 3 * 100 * 100 * 36);
    let v = calculate_block_variance(&img, 10, 5, 0).expect("blocks");
    // with the boundaries at 5, 15, 25 the first one is at 25: only 5 blocks
    // fit into the 59 columns up to 84
    assert_eq!(v.den, 3 * 100 * 100 * 30);
}

#[test]
fn variance_of_two_colors_is_exact() {
    // columns alternate between 0 and 10 in the red channel only;
    // blocks of 2 by 2 pixels hold two pixels of each: mean 5, variance 25
    // in red, 25 / 3 over the three channels
    let mut img = PixelBuffer::from_pixel(24, 24, Pixel::new(0, 7, 9, 255));
    for y in 0..24 {
        for x in (1..24).step_by(2) {
            img.put_pixel(x, y, Pixel::new(10, 7, 9, 255));
        }
    }
    let v = calculate_block_variance(&img, 2, 0, 0).expect("blocks");
    // margin 4, region 16 wide: 8 by 8 blocks of 4 pixels;
    // dispersion of a block: 4 * 200 - 20 * 20 = 400
    assert_eq!(v.num, 64 * 400);
    assert_eq!(v.den, 3 * 16 * 64);
    assert_eq!(value(Some(v)), 25.0 / 3.0);
    // the phase counts modulo the scale
    let w = calculate_block_variance(&img, 2, 2, 4).expect("blocks");
    assert_eq!((w.num, w.den), (v.num, v.den));
    // blocks of one pixel have no variance
    let one = calculate_block_variance(&img, 1, 0, 0).expect("blocks");
    assert_eq!(one.num, 0);
}

#[test]
fn too_few_blocks_cannot_be_measured() {
    let img = PixelBuffer::from_pixel(29, 100, Pixel::new(1, 2, 3, 255));
    // margin 4, region from 4 to 25: two blocks of 10 fit with the boundaries
    // at 4 and at 5, one with the boundaries at 6 or at 0
    assert!(calculate_block_variance(&img, 10, 4, 0).is_some());
    assert!(calculate_block_variance(&img, 10, 5, 0).is_some());
    assert!(calculate_block_variance(&img, 10, 15, 0).is_some());
    assert!(calculate_block_variance(&img, 10, 6, 0).is_none());
    assert!(calculate_block_variance(&img, 10, 0, 0).is_none());
    assert!(calculate_block_variance(&img, 11, 0, 0).is_none());
    assert!(calculate_block_variance(&PixelBuffer::new(1, 1), 6, 0, 0).is_none());
    assert!(calculate_block_variance(&PixelBuffer::new(0, 0), 6, 0, 0).is_none());
}

#[test]
fn aligned_tiles_have_variance_zero_and_misaligned_tiles_do_not() {
    let img = tiled(12, 12, 16, 0);
    let aligned = calculate_block_variance(&img, 16, 0, 0).expect("blocks");
    assert_eq!(aligned.num, 0);
    let half = calculate_block_variance(&img, 8, 0, 0).expect("blocks");
    assert_eq!(half.num, 0);
    for phase in 1..16 {
        let shifted = calculate_block_variance(&img, 16, phase, 0).expect("blocks");
        assert!(shifted.num > 0, "phase {}", phase);
        let shifted = calculate_block_variance(&img, 16, 0, phase).expect("blocks");
        assert!(shifted.num > 0, "phase {}", phase);
    }
    for scale in [6u32, 7, 9, 10, 11, 12, 13, 14, 15, 17, 18, 19, 20] {
        for phase in 0..scale {
            let other = calculate_block_variance(&img, scale, phase, phase).expect("blocks");
            assert!(other.num > 0, "scale {} phase {}", scale, phase);
        }
    }
}

#[test]
fn fractions_are_compared_exactly() {
    assert!(is_fraction_less(1, 3, 1, 2));
    assert!(!is_fraction_less(1, 2, 1, 3));
    assert!(!is_fraction_less(2, 4, 1, 2));
    assert!(is_fraction_less(0, 5, 1, 1000));
    assert!(!is_fraction_less(0, 5, 0, 7));
    let big = u128::MAX;
    assert!(is_fraction_less(big - 1, big, big, big));
    assert!(!is_fraction_less(big, big, big - 1, big));
    assert!(is_fraction_less(big - 2, big - 1, big - 1, big));
    assert!(!is_fraction_less(big - 1, big, big - 2, big - 1));
    assert!(!is_fraction_less(big, 1, big, 1));
    assert!(is_fraction_less(big, 2, big, 1));
    assert!(is_fraction_less(7, 22, 1, 3));
    assert!(is_fraction_less(355, 113, 22, 7));
}

#[test]
fn nothing_is_the_largest_score() {
    let a = Some(Ratio { num: 1, den: 2 });
    let b = Some(Ratio { num: 2, den: 3 });
    assert!(is_score_less(&a, &b));
    assert!(!is_score_less(&b, &a));
    assert!(is_score_less(&a, &None));
    assert!(!is_score_less(&None, &a));
    assert!(!is_score_less(&None, &None));
    assert!(!is_score_less(&a, &a));
}

#[test]
fn best_phase_finds_the_offset_of_the_grid() {
    // the grid begins 5 pixels behind the corner
    let img = tiled(12, 12, 16, 5);
    let (px, py, v) = find_best_phase_for_scale(&img, 16);
    assert_eq!((px, py), (5, 5));
    assert_eq!(v.expect("blocks").num, 0);
    let img = tiled(12, 12, 16, 0);
    let (px, py, v) = find_best_phase_for_scale(&img, 16);
    assert_eq!((px, py), (0, 0));
    assert_eq!(v.expect("blocks").num, 0);
    // a size whose margin is no multiple of the cell size
    let img = tiled(20, 16, 16, 0);
    let (px, py, v) = find_best_phase_for_scale(&img, 16);
    assert_eq!((px, py), (0, 0));
    assert_eq!(v.expect("blocks").num, 0);
    // a phase that only the fine pass reaches
    let img = tiled(20, 16, 16, 13);
    let (px, py, v) = find_best_phase_for_scale(&img, 16);
    assert_eq!((px, py), (13, 13));
    assert_eq!(v.expect("blocks").num, 0);
}

#[test]
fn best_phase_of_a_uniform_image_is_the_first() {
    let img = PixelBuffer::from_pixel(100, 100, Pixel::new(9, 9, 9, 255));
    for scale in 6..=20 {
        let (px, py, v) = find_best_phase_for_scale(&img, scale);
        assert_eq!((px, py), (0, 0));
        assert_eq!(v.expect("blocks").num, 0);
    }
}

#[test]
fn best_phase_stays_below_the_scale() {
    let mut img = PixelBuffer::new(90, 70);
    let mut seed: u32 = 12345;
    for y in 0..70 {
        for x in 0..90 {
            seed = seed.wrapping_mul(1664525).wrapping_add(1013904223);
            img.put_pixel(x, y, Pixel::new((seed >> 24) as u8, (seed >> 16) as u8, (seed >> 8) as u8, 255));
        }
    }
    for scale in 1..=24 {
        let (px, py, _) = find_best_phase_for_scale(&img, scale);
        assert!(px < scale && py < scale);
    }
    let (scale, px, py) = find_optimal_scale_v4(&img, None);
    assert!((6..=20).contains(&scale));
    assert!(px < scale && py < scale);
}

#[test]
fn best_phase_without_blocks_is_zero() {
    let img = PixelBuffer::new(10, 10);
    let (px, py, v) = find_best_phase_for_scale(&img, 8);
    assert_eq!((px, py), (0, 0));
    assert!(v.is_none());
}

fn candidate(scale: u32, num: u128, den: u128) -> ScaleResult {
    ScaleResult { scale, phase_x: scale - 1, phase_y: scale - 2, variance: Some(Ratio { num, den }) }
}

fn unmeasured(scale: u32) -> ScaleResult {
    ScaleResult { scale, phase_x: 0, phase_y: 0, variance: None }
}

#[test]
fn without_a_hint_the_largest_acceptable_scale_wins() {
    let cands = vec![candidate(6, 10, 1), candidate(8, 5, 1), candidate(12, 21, 2), candidate(16, 10, 1)];
    // least variance 5; acceptable up to 10: the scales 6, 8 and 16
    assert_eq!(select_scale(&cands, None), (16, 15, 14));
    let cands = vec![candidate(6, 10, 1), candidate(8, 5, 1), candidate(12, 21, 2), candidate(16, 11, 1)];
    assert_eq!(select_scale(&cands, None), (8, 7, 6));
}

#[test]
fn with_a_hint_the_nearest_acceptable_scale_wins() {
    let cands = vec![candidate(6, 10, 1), candidate(8, 5, 1), candidate(12, 21, 2), candidate(16, 10, 1)];
    let hint = |num, den| Some(PeriodHint { num, den });
    assert_eq!(select_scale(&cands, hint(16, 1)), (16, 15, 14));
    // 12 itself is not acceptable; 8 and 16 are equally near, the first wins
    assert_eq!(select_scale(&cands, hint(12, 1)), (8, 7, 6));
    assert_eq!(select_scale(&cands, hint(25, 2)), (16, 15, 14));
    assert_eq!(select_scale(&cands, hint(23, 2)), (8, 7, 6));
    assert_eq!(select_scale(&cands, hint(13, 2)), (6, 5, 4));
    assert_eq!(select_scale(&cands, hint(7, 1)), (6, 5, 4));
    assert_eq!(select_scale(&cands, hint(71, 10)), (8, 7, 6));
    assert_eq!(select_scale(&cands, hint(1000, 1)), (16, 15, 14));
}

#[test]
fn twice_the_least_variance_is_still_acceptable() {
    let cands = vec![candidate(6, 3, 7), candidate(9, 6, 7), candidate(10, 61, 70), candidate(11, 12, 14)];
    assert_eq!(select_scale(&cands, None), (11, 10, 9));
    let cands = vec![candidate(6, 0, 7), candidate(9, 0, 3), candidate(10, 1, 1000)];
    assert_eq!(select_scale(&cands, None), (9, 8, 7));
}

#[test]
fn unmeasured_candidates_are_never_chosen() {
    let cands = vec![unmeasured(6), candidate(7, 4, 1), unmeasured(20)];
    assert_eq!(select_scale(&cands, None), (7, 6, 5));
    assert_eq!(select_scale(&cands, Some(PeriodHint { num: 20, den: 1 })), (7, 6, 5));
}

#[test]
fn without_measurements_the_hint_decides() {
    let cands = vec![unmeasured(6), unmeasured(7)];
    let hint = |num, den| Some(PeriodHint { num, den });
    assert_eq!(select_scale(&cands, None), (10, 0, 0));
    assert_eq!(select_scale(&Vec::new(), None), (10, 0, 0));
    assert_eq!(select_scale(&cands, hint(16, 1)), (16, 0, 0));
    assert_eq!(select_scale(&cands, hint(25, 2)), (13, 0, 0));
    assert_eq!(select_scale(&cands, hint(37, 3)), (12, 0, 0));
    assert_eq!(select_scale(&cands, hint(3, 1)), (6, 0, 0));
    assert_eq!(select_scale(&cands, hint(41, 2)), (20, 0, 0));
    assert_eq!(select_scale(&cands, hint(u64::MAX, 1)), (20, 0, 0));
    assert_eq!(select_scale(&cands, hint(0, 1)), (6, 0, 0));
}

#[test]
fn scale_of_tiles_follows_the_hint() {
    let img = tiled(12, 12, 16, 0);
    // the tiles are uniform at the scales 8 and 16
    assert_eq!(find_optimal_scale_v4(&img, None), (16, 0, 0));
    assert_eq!(find_optimal_scale_v4(&img, Some(PeriodHint { num: 16, den: 1 })), (16, 0, 0));
    assert_eq!(find_optimal_scale_v4(&img, Some(PeriodHint { num: 8, den: 1 })), (8, 0, 0));
    let img = tiled(12, 12, 12, 7);
    assert_eq!(find_optimal_scale_v4(&img, None), (12, 7, 7));
    // the scale 6 divides the tiles too; its phase is 7 modulo 6
    assert_eq!(find_optimal_scale_v4(&img, Some(PeriodHint { num: 6, den: 1 })), (6, 1, 1));
}

#[test]
fn scale_of_a_tiny_image_is_the_fallback() {
    let img = PixelBuffer::new(5, 5);
    assert_eq!(find_optimal_scale_v4(&img, None), (10, 0, 0));
    assert_eq!(find_optimal_scale_v4(&img, Some(PeriodHint { num: 7, den: 1 })), (7, 0, 0));
}
