use pixel_grid::canvas::auto_trim;
use pixel_grid::period::{center_profile, detect_grid_size, edge_profiles, PeriodHint};
use pixel_grid::pipeline::{downscale_with_hint, prepare_image};
use pixel_grid::raster::{Pixel, PixelBuffer};
use pixel_grid::settings::{BgRemovalMode, DownscaleResult, DownscalerSettings};
use rustfft::num_complex::Complex;
use rustfft::FftPlanner;

/// Magnitudes of the spectrum of a profile without its mean.
fn spectrum(profile: &Vec<u64>) -> Vec<u64> {
    let n = profile.len();
    if n == 0 {
        return Vec::new();
    }
    let unit = n as f64 * 255000.0;
    let mut buffer: Vec<Complex<f32>> =
        center_profile(profile).iter().map(|&v| Complex::new((v as f64 / unit) as f32, 0.0)).collect();
    let mut planner = FftPlanner::new();
    planner.plan_fft_forward(n).process(&mut buffer);
    buffer.iter().map(|c| c.norm().to_bits() as u64).collect()
}

/// The whole recovery, with the spectra taken between the two halves.
fn downscale(img: PixelBuffer, settings: &DownscalerSettings) -> (PixelBuffer, DownscaleResult) {
    let original_size = img.dimensions();
    let prepared = prepare_image(img, settings);
    let profiles = edge_profiles(&prepared);
    let hint = detect_grid_size(&spectrum(&profiles.horizontal), &spectrum(&profiles.vertical));
    downscale_with_hint(&prepared, hint, settings, original_size)
}

fn native_pixel(x: u32, y: u32) -> Pixel {
    let white = Pixel::new(240, 240, 240, 255);
    let dark = Pixel::new(17, 6, 2, 255);
    // a sprite with a dark outline that touches all four sides, on white
    let inside = (2..18).contains(&x) && (2..14).contains(&y);
    let on_cross = x == 9 || x == 10 || y == 7 || y == 8;
    if on_cross && !inside {
        dark
    } else if inside {
        let edge = x == 2 || x == 17 || y == 2 || y == 13;
        if edge {
            dark
        } else {
            let r = 60 + 45 * ((x * 7 + y * 3) % 4) as u8;
            let g = 70 + 40 * ((x * 5 + y * 11) % 4) as u8;
            let b = 80 + 35 * ((x * 3 + y * 13) % 5) as u8;
            Pixel::new(r, g, b, 255)
        }
    } else {
        white
    }
}

/// The native image of 20 by 16 pixels, each pixel drawn as a cell of
/// `scale` by `scale` pixels.
fn upscaled(scale: u32) -> PixelBuffer {
    let mut img = PixelBuffer::new(20 * scale, 16 * scale);
    for y in 0..16 * scale {
        for x in 0..20 * scale {
            img.put_pixel(x, y, native_pixel(x / scale, y / scale));
        }
    }
    img
}

#[test]
fn upscaled_sprite_comes_back_at_its_native_size() {
    let mut settings = DownscalerSettings::default();
    settings.pad_canvas = false;
    let img = upscaled(16);
    assert_eq!(img.dimensions(), (320, 256));
    let (out, result) = downscale(img, &settings);
    assert_eq!(result.original_size, (320, 256));
    assert!(result.grid_detected);
    assert_eq!(result.scale_factor, 16);
    assert_eq!(result.final_size, (20, 16));
    assert_eq!(out.dimensions(), (20, 16));
    for y in 0..16 {
        for x in 0..20 {
            let native = native_pixel(x, y);
            let got = out.get_pixel(x, y);
            assert_eq!((got.r, got.g, got.b), (native.r, native.g, native.b), "at {} {}", x, y);
            let background = native == Pixel::new(240, 240, 240, 255);
            assert_eq!(got.a, if background { 0 } else { 255 }, "at {} {}", x, y);
        }
    }
}

#[test]
fn upscaled_sprite_is_padded_to_the_canvas_unit() {
    let settings = DownscalerSettings::default();
    let (out, result) = downscale(upscaled(16), &settings);
    assert!(result.grid_detected);
    assert_eq!(result.scale_factor, 16);
    assert_eq!(result.final_size, (32, 16));
    // 12 columns are added, 6 on each side
    assert_eq!(out.get_pixel(6 + 9, 0), Pixel::new(17, 6, 2, 255));
    assert_eq!(out.get_pixel(5, 7), Pixel::new(0, 0, 0, 0));
    assert_eq!(out.get_pixel(6, 7), Pixel::new(17, 6, 2, 255));
    assert_eq!(out.get_pixel(6, 0), Pixel::new(0, 0, 0, 0));
}

#[test]
fn small_noise_passes_through() {
    // too small for a period and for blocks: no hint, and no cell fits
    let mut img = PixelBuffer::new(5, 5);
    let mut seed: u32 = 99;
    for y in 0..5 {
        for x in 0..5 {
            seed = seed.wrapping_mul(1664525).wrapping_add(1013904223);
            img.put_pixel(x, y, Pixel::new((seed >> 24) as u8, (seed >> 16) as u8, (seed >> 8) as u8, 255));
        }
    }
    let mut settings = DownscalerSettings::default();
    settings.bg_removal_mode = BgRemovalMode::Off;
    settings.pad_canvas = false;
    let before = img.duplicate();
    let (out, result) = downscale(img, &settings);
    assert!(!result.grid_detected);
    assert_eq!(result.final_size, (5, 5));
    assert_eq!(result.original_size, (5, 5));
    assert_eq!(result.scale_factor, 10);
    for y in 0..5 {
        for x in 0..5 {
            assert_eq!(out.get_pixel(x, y), before.get_pixel(x, y));
        }
    }
}

#[test]
fn transparent_image_becomes_one_pixel() {
    let mut settings = DownscalerSettings::default();
    settings.pad_canvas = false;
    for mode in [BgRemovalMode::Conservative, BgRemovalMode::Aggressive, BgRemovalMode::Off] {
        settings.bg_removal_mode = mode;
        let img = PixelBuffer::from_pixel(64, 48, Pixel::new(90, 80, 70, 0));
        let (out, result) = downscale(img, &settings);
        assert_eq!(result.original_size, (64, 48));
        assert_eq!(result.final_size, (1, 1));
        assert!(!result.grid_detected);
        assert_eq!(out.dimensions(), (1, 1));
        assert_eq!(out.get_pixel(0, 0), Pixel::new(0, 0, 0, 0));
    }
}

#[test]
fn transparent_image_with_padding_becomes_one_canvas_unit() {
    let settings = DownscalerSettings::default();
    let img = PixelBuffer::new(64, 48);
    let (out, result) = downscale(img, &settings);
    assert_eq!(result.final_size, (16, 16));
    assert_eq!(out.get_pixel(8, 8), Pixel::new(0, 0, 0, 0));
}

#[test]
fn transparent_image_ignores_the_hint() {
    let mut settings = DownscalerSettings::default();
    settings.pad_canvas = false;
    let prepared = prepare_image(PixelBuffer::new(30, 30), &settings);
    assert_eq!(prepared.dimensions(), (1, 1));
    for hint in [None, Some(PeriodHint { num: 16, den: 1 }), Some(PeriodHint { num: 1, den: 9 })] {
        let (out, result) = downscale_with_hint(&prepared, hint, &settings, (30, 30));
        assert_eq!(out.dimensions(), (1, 1));
        assert_eq!(result.final_size, (1, 1));
        assert_eq!(result.grid_detected, hint.is_some());
    }
}

#[test]
fn preparing_removes_the_background_and_trims() {
    let mut img = PixelBuffer::from_pixel(60, 50, Pixel::new(240, 240, 240, 255));
    for y in 20..32 {
        for x in 14..40 {
            img.put_pixel(x, y, Pixel::new(10, 10, 10, 255));
        }
    }
    let mut settings = DownscalerSettings::default();
    let trimmed = prepare_image(img.duplicate(), &settings);
    assert_eq!(trimmed.dimensions(), (26, 12));
    assert_eq!(trimmed.get_pixel(0, 0), Pixel::new(10, 10, 10, 255));
    settings.auto_trim = false;
    let kept = prepare_image(img.duplicate(), &settings);
    assert_eq!(kept.dimensions(), (60, 50));
    assert_eq!(kept.get_pixel(0, 0), Pixel::new(240, 240, 240, 0));
    assert_eq!(kept.get_pixel(14, 20), Pixel::new(10, 10, 10, 255));
    settings.bg_removal_mode = BgRemovalMode::Off;
    settings.auto_trim = true;
    let untouched = prepare_image(img.duplicate(), &settings);
    assert_eq!(untouched.dimensions(), (60, 50));
    assert_eq!(auto_trim(&untouched).dimensions(), (60, 50));
}
