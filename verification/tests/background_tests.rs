use pixel_grid::backdrop::{clear_corner_color, color_distance, dominant_pixel, remove_backdrop};
use pixel_grid::background::{
    build_candidate_mask, is_content_edge, remove_background, remove_background_public, sample_edge_colors,
};
use pixel_grid::flood::{dilate_mask, dilate_once, flood_from_border};
use pixel_grid::palette::{find_background_colors, rgb_color_distance};
use pixel_grid::raster::{Mask, Pixel, PixelBuffer};
use pixel_grid::settings::{BgRemovalMode, DownscalerSettings};

/// A light background whose colour is the colour of its bucket.
fn white() -> Pixel {
    Pixel::new(240, 240, 240, 255)
}

fn red() -> Pixel {
    Pixel::new(200, 30, 30, 255)
}

fn settings(mode: BgRemovalMode) -> DownscalerSettings {
    let mut s = DownscalerSettings::default();
    s.bg_removal_mode = mode;
    s
}

/// A white canvas with a red square in columns and rows `from..to`.
fn square_on_white(size: u32, from: u32, to: u32) -> PixelBuffer {
    let mut img = PixelBuffer::from_pixel(size, size, white());
    for y in from..to {
        for x in from..to {
            img.put_pixel(x, y, red());
        }
    }
    img
}

fn mask_from(rows: &[&str]) -> Mask {
    let height = rows.len() as u32;
    let width = rows[0].len() as u32;
    let mut mask = Mask::filled(width, height, false);
    for (y, row) in rows.iter().enumerate() {
        for (x, c) in row.chars().enumerate() {
            mask.set(x as u32, y as u32, c == '#');
        }
    }
    mask
}

fn mask_rows(mask: &Mask) -> Vec<String> {
    (0..mask.height())
        .map(|y| (0..mask.width()).map(|x| if mask.get(x, y) { '#' } else { '.' }).collect())
        .collect()
}

#[test]
fn color_distance_sums_channel_differences() {
    assert_eq!(rgb_color_distance(&[10, 20, 30], &[13, 15, 30]), 8);
    assert_eq!(rgb_color_distance(&[0, 0, 0], &[255, 255, 255]), 765);
    assert_eq!(rgb_color_distance(&[9, 9, 9], &[9, 9, 9]), 0);
    assert_eq!(rgb_color_distance(&[255, 0, 7], &[0, 255, 7]), 510);
}

#[test]
fn samples_cover_the_four_bands() {
    let img = PixelBuffer::from_pixel(10, 10, white());
    let samples = sample_edge_colors(&img, 5);
    assert_eq!(samples.len(), 200);
    let img = PixelBuffer::from_pixel(20, 12, white());
    let samples = sample_edge_colors(&img, 5);
    assert_eq!(samples.len(), 5 * 20 + 5 * 20 + 12 * 5 + 12 * 5);
}

#[test]
fn samples_come_band_by_band() {
    let mut img = PixelBuffer::new(3, 3);
    for y in 0..3u32 {
        for x in 0..3u32 {
            img.put_pixel(x, y, Pixel::new((y * 3 + x) as u8, 0, 0, 255));
        }
    }
    let reds: Vec<u8> = sample_edge_colors(&img, 1).iter().map(|c| c[0]).collect();
    assert_eq!(reds, vec![0, 1, 2, 6, 7, 8, 0, 3, 6, 2, 5, 8]);
}

#[test]
fn samples_of_an_empty_image_are_empty() {
    let img = PixelBuffer::new(0, 0);
    assert!(sample_edge_colors(&img, 5).is_empty());
}

#[test]
fn background_colors_are_the_most_frequent_buckets() {
    let mut samples = Vec::new();
    for _ in 0..5 {
        samples.push([250u8, 251, 252]);
    }
    for _ in 0..3 {
        samples.push([17u8, 6, 2]);
    }
    for _ in 0..4 {
        samples.push([100u8, 110, 120]);
    }
    samples.push([33u8, 33, 33]);
    let colors = find_background_colors(&samples, 3);
    assert_eq!(colors, vec![[240, 240, 240], [96, 96, 112], [16, 0, 0]]);
    let colors = find_background_colors(&samples, 1);
    assert_eq!(colors, vec![[240, 240, 240]]);
    let colors = find_background_colors(&samples, 10);
    assert_eq!(colors.len(), 4);
    assert_eq!(colors[3], [32, 32, 32]);
}

#[test]
fn equally_frequent_buckets_come_by_index() {
    let samples = vec![[200u8, 0, 0], [0, 200, 0], [0, 0, 200], [0, 200, 0], [200, 0, 0], [0, 0, 200]];
    let colors = find_background_colors(&samples, 3);
    assert_eq!(colors, vec![[0, 0, 192], [0, 192, 0], [192, 0, 0]]);
}

#[test]
fn no_samples_give_no_background_color() {
    let samples: Vec<[u8; 3]> = Vec::new();
    assert!(find_background_colors(&samples, 3).is_empty());
    assert!(find_background_colors(&[[1, 2, 3]], 0).is_empty());
}

#[test]
fn uniform_surroundings_are_no_content() {
    let img = PixelBuffer::from_pixel(20, 20, white());
    assert!(!is_content_edge(&img, 0, 0, 3));
    assert!(!is_content_edge(&img, 10, 10, 3));
}

#[test]
fn a_wide_value_range_is_content() {
    let mut img = PixelBuffer::from_pixel(20, 20, Pixel::new(200, 200, 200, 255));
    img.put_pixel(10, 10, Pixel::new(149, 200, 200, 255));
    // one pixel of 49 differs by 51 in one channel: the range is 51, and the
    // variance 48 * 51^2 / 49^2 = 52 is not above 100
    assert!(is_content_edge(&img, 10, 10, 3));
    assert!(is_content_edge(&img, 13, 13, 3));
    assert!(is_content_edge(&img, 7, 7, 3));
    assert!(!is_content_edge(&img, 14, 10, 3));
    assert!(!is_content_edge(&img, 10, 6, 3));
    img.put_pixel(10, 10, Pixel::new(150, 200, 200, 255));
    // a range of 50 is not above 50
    assert!(!is_content_edge(&img, 10, 10, 3));
    // in a corner the window holds 16 pixels: variance 15 * 50^2 / 16^2 = 146
    img.put_pixel(0, 0, Pixel::new(150, 200, 200, 255));
    assert!(is_content_edge(&img, 0, 0, 3));
    img.put_pixel(0, 0, Pixel::new(159, 200, 200, 255));
    // variance 15 * 41^2 / 256 = 98.5
    assert!(!is_content_edge(&img, 0, 0, 3));
    img.put_pixel(0, 0, Pixel::new(158, 200, 200, 255));
    // variance 15 * 42^2 / 256 = 103.4
    assert!(is_content_edge(&img, 0, 0, 3));
}

#[test]
fn a_high_variance_is_content() {
    // half of the window differs by 17 in each channel: range 51 would do too,
    // so keep the range at 48 and let the variance decide
    let mut img = PixelBuffer::from_pixel(20, 20, Pixel::new(100, 100, 100, 255));
    for y in 0..20 {
        for x in 10..20 {
            img.put_pixel(x, y, Pixel::new(116, 116, 116, 255));
        }
    }
    // window of 49 pixels around (10, 10): 21 dark, 28 light, difference 16
    // dispersion per channel 21 * 28 * 256 = 150528, times 3 = 451584 > 100 * 49^2 = 240100
    assert!(is_content_edge(&img, 10, 10, 3));
    // window around (15, 10) is uniform
    assert!(!is_content_edge(&img, 15, 10, 3));
}

#[test]
fn mode_off_changes_nothing() {
    let mut img = square_on_white(40, 15, 25);
    remove_background(&mut img, &settings(BgRemovalMode::Off));
    for y in 0..40 {
        for x in 0..40 {
            assert_eq!(img.get_pixel(x, y).a, 255);
        }
    }
}

#[test]
fn background_around_a_sprite_is_cleared() {
    for mode in [BgRemovalMode::Conservative, BgRemovalMode::Aggressive] {
        let rounds = if mode == BgRemovalMode::Conservative { 1 } else { 2 };
        let mut img = square_on_white(40, 14, 26);
        remove_background(&mut img, &settings(mode));
        for y in 0..40u32 {
            for x in 0..40u32 {
                let p = img.get_pixel(x, y);
                let inside = (14..26).contains(&x) && (14..26).contains(&y);
                if !inside {
                    assert_eq!(p, Pixel::new(240, 240, 240, 0), "background at {} {}", x, y);
                } else {
                    // the dilation eats into the sprite by the number of rounds,
                    // measured in steps along the axes
                    let depth_x = (x - 14).min(25 - x);
                    let depth_y = (y - 14).min(25 - y);
                    let eaten = depth_x.min(depth_y) < rounds;
                    let expected = if eaten { 0 } else { 255 };
                    assert_eq!((p.r, p.g, p.b), (200, 30, 30));
                    assert_eq!(p.a, expected, "sprite at {} {}", x, y);
                }
            }
        }
    }
}

#[test]
fn an_image_of_background_only_is_cleared_entirely() {
    let mut img = PixelBuffer::from_pixel(64, 48, white());
    remove_background(&mut img, &settings(BgRemovalMode::Conservative));
    for y in 0..48 {
        for x in 0..64 {
            assert_eq!(img.get_pixel(x, y), Pixel::new(240, 240, 240, 0));
        }
    }
}

#[test]
fn pure_white_is_too_far_from_its_bucket() {
    // white falls into the bucket of 240, 45 away: beyond both tolerances
    let mut img = PixelBuffer::from_pixel(64, 48, Pixel::new(255, 255, 255, 255));
    remove_background(&mut img, &settings(BgRemovalMode::Conservative));
    assert_eq!(img.get_pixel(0, 0).a, 255);
    assert_eq!(img.get_pixel(30, 30).a, 255);
    let mut s = settings(BgRemovalMode::Conservative);
    s.bg_tolerance = 45;
    s.bg_edge_tolerance = 44;
    remove_background(&mut img, &s);
    // nothing matches in the border band, so nothing is joined to the border
    assert_eq!(img.get_pixel(0, 0).a, 255);
    assert_eq!(img.get_pixel(30, 30).a, 255);
    s.bg_edge_tolerance = 45;
    remove_background(&mut img, &s);
    assert_eq!(img.get_pixel(0, 0).a, 0);
    assert_eq!(img.get_pixel(30, 30).a, 0);
}

#[test]
fn background_far_from_the_border_is_reached() {
    // a corridor of background leads 690 pixels deep into a block of content
    let mut img = PixelBuffer::from_pixel(720, 40, white());
    for y in 6..34 {
        for x in 6..714 {
            img.put_pixel(x, y, red());
        }
    }
    for x in 6..700 {
        img.put_pixel(x, 20, white());
    }
    let mut conservative = img.duplicate();
    remove_background(&mut img, &settings(BgRemovalMode::Aggressive));
    assert_eq!(img.get_pixel(699, 20).a, 0);
    assert_eq!(img.get_pixel(350, 20).a, 0);
    assert_eq!(img.get_pixel(350, 10).a, 255);
    // the content beside the corridor loses two pixels to the dilation
    assert_eq!(img.get_pixel(350, 19).a, 0);
    assert_eq!(img.get_pixel(350, 18).a, 0);
    assert_eq!(img.get_pixel(350, 17).a, 255);
    assert_eq!(img.get_pixel(701, 20).a, 0);
    assert_eq!(img.get_pixel(702, 20).a, 255);
    // in conservative mode the mouth of the corridor counts as content at the
    // border, so the corridor is not joined to the border
    remove_background(&mut conservative, &settings(BgRemovalMode::Conservative));
    assert_eq!(conservative.get_pixel(0, 0).a, 0);
    assert_eq!(conservative.get_pixel(350, 20).a, 255);
    assert_eq!(conservative.get_pixel(699, 20).a, 255);
}

#[test]
fn dark_lines_are_kept() {
    let mut img = PixelBuffer::from_pixel(30, 30, Pixel::new(20, 20, 20, 255));
    let mut s = settings(BgRemovalMode::Conservative);
    remove_background(&mut img, &s);
    assert_eq!(img.get_pixel(0, 0).a, 255);
    assert_eq!(img.get_pixel(15, 15).a, 255);
    s.preserve_dark_lines = false;
    remove_background(&mut img, &s);
    assert_eq!(img.get_pixel(0, 0), Pixel::new(20, 20, 20, 0));
    assert_eq!(img.get_pixel(15, 15).a, 0);
}

#[test]
fn dark_threshold_is_exclusive() {
    // the channels sum to exactly 100: not below the threshold, so cleared
    let mut img = PixelBuffer::from_pixel(30, 30, Pixel::new(48, 32, 20, 255));
    remove_background(&mut img, &settings(BgRemovalMode::Conservative));
    assert_eq!(img.get_pixel(3, 3).a, 0);
    let mut img = PixelBuffer::from_pixel(30, 30, Pixel::new(48, 32, 19, 255));
    remove_background(&mut img, &settings(BgRemovalMode::Conservative));
    assert_eq!(img.get_pixel(3, 3).a, 255);
}

#[test]
fn enclosed_background_stays() {
    // a white hole inside a thick red ring is not joined to the border
    let mut img = PixelBuffer::from_pixel(60, 60, white());
    for y in 10..50 {
        for x in 10..50 {
            img.put_pixel(x, y, red());
        }
    }
    for y in 25..35 {
        for x in 25..35 {
            img.put_pixel(x, y, white());
        }
    }
    remove_background(&mut img, &settings(BgRemovalMode::Conservative));
    assert_eq!(img.get_pixel(0, 0).a, 0);
    assert_eq!(img.get_pixel(30, 30).a, 255);
    assert_eq!(img.get_pixel(20, 20).a, 255);
}

#[test]
fn removing_twice_equals_removing_once() {
    for mode in [BgRemovalMode::Conservative, BgRemovalMode::Aggressive, BgRemovalMode::Off] {
        let mut once = square_on_white(48, 9, 30);
        once.put_pixel(3, 3, Pixel::new(10, 10, 10, 255));
        once.put_pixel(40, 7, Pixel::new(250, 240, 250, 255));
        remove_background(&mut once, &settings(mode));
        let mut twice = once.duplicate();
        remove_background(&mut twice, &settings(mode));
        for y in 0..48 {
            for x in 0..48 {
                assert_eq!(once.get_pixel(x, y), twice.get_pixel(x, y));
            }
        }
    }
}

#[test]
fn public_entry_does_the_same() {
    let mut a = square_on_white(40, 14, 26);
    let mut b = a.duplicate();
    remove_background(&mut a, &settings(BgRemovalMode::Conservative));
    remove_background_public(&mut b, &settings(BgRemovalMode::Conservative));
    for y in 0..40 {
        for x in 0..40 {
            assert_eq!(a.get_pixel(x, y), b.get_pixel(x, y));
        }
    }
}

#[test]
fn candidate_mask_uses_the_looser_tolerance_near_the_border() {
    // colour distance 24 from white: inside the edge tolerance 30, outside the
    // interior tolerance 15
    let near = Pixel::new(232, 232, 232, 255);
    let img = PixelBuffer::from_pixel(40, 40, near);
    let background = vec![[240u8, 240, 240]];
    let mask = build_candidate_mask(&img, &background, &settings(BgRemovalMode::Aggressive));
    assert!(mask.get(0, 0));
    assert!(mask.get(9, 20));
    assert!(!mask.get(10, 20));
    assert!(!mask.get(20, 20));
    assert!(mask.get(30, 20));
    assert!(!mask.get(29, 29));
    assert!(mask.get(20, 30));
}

#[test]
fn conservative_mode_protects_content_at_the_border() {
    let mut img = PixelBuffer::from_pixel(40, 40, white());
    img.put_pixel(5, 5, Pixel::new(0, 0, 0, 255));
    let background = vec![[240u8, 240, 240]];
    let conservative = build_candidate_mask(&img, &background, &settings(BgRemovalMode::Conservative));
    let aggressive = build_candidate_mask(&img, &background, &settings(BgRemovalMode::Aggressive));
    // white pixels within three pixels of the black one are protected
    assert!(!conservative.get(6, 5));
    assert!(!conservative.get(8, 8));
    assert!(conservative.get(9, 5));
    assert!(aggressive.get(6, 5));
    assert!(!aggressive.get(5, 5));
    assert!(!conservative.get(5, 5));
}

#[test]
fn dilation_grows_along_the_axes() {
    let mask = mask_from(&[".....", ".....", "..#..", ".....", "....."]);
    assert_eq!(mask_rows(&dilate_once(&mask)), vec![".....", "..#..", ".###.", "..#..", "....."]);
    assert_eq!(mask_rows(&dilate_mask(&mask, 2)), vec!["..#..", ".###.", "#####", ".###.", "..#.."]);
    assert_eq!(mask_rows(&dilate_mask(&mask, 0)), mask_rows(&mask));
}

#[test]
fn dilation_stops_at_the_border() {
    let mask = mask_from(&["#..", "...", "..#"]);
    assert_eq!(mask_rows(&dilate_once(&mask)), vec!["##.", "#.#", ".##"]);
}

#[test]
fn flood_keeps_what_is_joined_to_the_border() {
    let mask = mask_from(&[
        "#......",
        "#.###..",
        "#.#.#..",
        "#.###..",
        "#......",
        "###..#.",
        ".....#.",
    ]);
    assert_eq!(
        mask_rows(&flood_from_border(&mask)),
        vec!["#......", "#......", "#......", "#......", "#......", "###..#.", ".....#."]
    );
}

#[test]
fn flood_does_not_cross_corners() {
    let mask = mask_from(&["#...", ".#..", "..#.", "...."]);
    assert_eq!(mask_rows(&flood_from_border(&mask)), vec!["#...", "....", "....", "...."]);
}

#[test]
fn flood_follows_a_winding_path() {
    let mask = mask_from(&[
        ".......",
        ".#####.",
        ".#...#.",
        ".#.#.#.",
        ".#.#.#.",
        ".#.###.",
        ".#.....",
    ]);
    let flooded = flood_from_border(&mask);
    assert_eq!(mask_rows(&flooded), mask_rows(&mask));
}

#[test]
fn flood_of_an_empty_mask_is_empty() {
    let mask = Mask::filled(0, 0, false);
    assert_eq!(flood_from_border(&mask).dimensions(), (0, 0));
    let mask = Mask::filled(4, 3, false);
    assert_eq!(mask_rows(&flood_from_border(&mask)), vec!["....", "....", "...."]);
}

#[test]
fn squared_distance_of_colours() {
    assert_eq!(color_distance(&Pixel::new(10, 20, 30, 0), &Pixel::new(13, 16, 30, 255)), 25);
    assert_eq!(color_distance(&Pixel::new(0, 0, 0, 255), &Pixel::new(255, 255, 255, 255)), 195075);
    assert_eq!(color_distance(&Pixel::new(7, 7, 7, 1), &Pixel::new(7, 7, 7, 2)), 0);
}

#[test]
fn dominant_pixel_is_the_last_of_the_best() {
    let a = Pixel::new(10, 10, 10, 255);
    let b = Pixel::new(200, 10, 10, 255);
    let near_a = Pixel::new(12, 10, 10, 255);
    // within a squared distance below 5: a and near_a see each other
    assert_eq!(dominant_pixel(&vec![b, a, near_a, b], 5), 3);
    assert_eq!(dominant_pixel(&vec![a, b, near_a, b, a], 5), 4);
    assert_eq!(dominant_pixel(&vec![a, b, b, b, near_a, a], 5), 5);
    assert_eq!(dominant_pixel(&vec![a, b, b, b, near_a], 5), 3);
    // a distance of 4 is not below 4
    assert_eq!(dominant_pixel(&vec![a, near_a, a, b, b], 4), 4);
    assert_eq!(dominant_pixel(&vec![a, near_a, a, b], 4), 2);
    assert_eq!(dominant_pixel(&vec![a], 0), 0);
}

#[test]
fn backdrop_of_one_colour_is_flooded() {
    let mut img = square_on_white(20, 5, 15);
    // a hole in the sprite and a dark pixel on the border
    img.put_pixel(10, 10, white());
    img.put_pixel(0, 7, Pixel::new(5, 5, 5, 255));
    let mut s = settings(BgRemovalMode::Aggressive);
    remove_backdrop(&mut img, &s);
    for y in 0..20u32 {
        for x in 0..20u32 {
            let inside = (5..15).contains(&x) && (5..15).contains(&y);
            let expected = if inside || (x, y) == (0, 7) { 255 } else { 0 };
            assert_eq!(img.get_pixel(x, y).a, expected, "at {} {}", x, y);
        }
    }
    assert_eq!(img.get_pixel(10, 10), white());
    // the tolerance is compared with the squared distance
    let mut img = PixelBuffer::from_pixel(8, 8, white());
    img.put_pixel(3, 3, Pixel::new(237, 238, 239, 255));
    img.put_pixel(4, 4, Pixel::new(237, 238, 238, 255));
    s.bg_tolerance = 15;
    remove_backdrop(&mut img, &s);
    // squared distances 9 + 4 + 1 = 14 and 9 + 4 + 4 = 17
    assert_eq!(img.get_pixel(3, 3).a, 0);
    assert_eq!(img.get_pixel(4, 4).a, 255);
    assert_eq!(img.get_pixel(0, 0).a, 0);
    s.bg_removal_mode = BgRemovalMode::Off;
    let mut img = PixelBuffer::from_pixel(8, 8, white());
    remove_backdrop(&mut img, &s);
    assert_eq!(img.get_pixel(0, 0).a, 255);
    let mut empty = PixelBuffer::new(0, 4);
    remove_backdrop(&mut empty, &settings(BgRemovalMode::Aggressive));
    assert_eq!(empty.dimensions(), (0, 4));
}

#[test]
fn dark_pixels_stop_the_flood_of_the_backdrop() {
    // a dark ring around a light middle, all within the tolerance of nothing
    // but their own colour
    let mut img = PixelBuffer::from_pixel(9, 9, Pixel::new(30, 30, 30, 255));
    let mut s = settings(BgRemovalMode::Aggressive);
    remove_backdrop(&mut img, &s);
    // every pixel is dark and kept
    assert_eq!(img.get_pixel(0, 0).a, 255);
    assert_eq!(img.get_pixel(4, 4).a, 255);
    s.preserve_dark_lines = false;
    remove_backdrop(&mut img, &s);
    assert_eq!(img.get_pixel(0, 0).a, 0);
    assert_eq!(img.get_pixel(4, 4).a, 0);
}

#[test]
fn colour_of_the_corner_is_cleared_everywhere() {
    let mut img = PixelBuffer::from_pixel(6, 6, Pixel::new(100, 100, 100, 255));
    img.put_pixel(2, 2, Pixel::new(117, 117, 117, 255));
    img.put_pixel(3, 3, Pixel::new(118, 117, 117, 255));
    img.put_pixel(4, 4, Pixel::new(70, 100, 100, 255));
    img.put_pixel(5, 5, Pixel::new(71, 100, 100, 255));
    clear_corner_color(&mut img);
    assert_eq!(img.get_pixel(0, 0), Pixel::new(100, 100, 100, 0));
    // 3 * 17^2 = 867 is below 900, 18^2 + 2 * 17^2 = 902 is not
    assert_eq!(img.get_pixel(2, 2).a, 0);
    assert_eq!(img.get_pixel(3, 3).a, 255);
    // 30^2 = 900 is not below 900, 29^2 = 841 is
    assert_eq!(img.get_pixel(4, 4).a, 255);
    assert_eq!(img.get_pixel(5, 5).a, 0);
    let mut empty = PixelBuffer::new(0, 0);
    clear_corner_color(&mut empty);
    assert_eq!(empty.dimensions(), (0, 0));
}
