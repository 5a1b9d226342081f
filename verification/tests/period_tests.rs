use pixel_grid::period::{
    center_profile, combine_hints, detect_grid_size, edge_profiles, fft_detect_period, PeriodHint,
};
use pixel_grid::raster::{Pixel, PixelBuffer};
use rustfft::num_complex::Complex;
use rustfft::FftPlanner;

/// Magnitudes of the spectrum of a signal, as the bit patterns of the
/// floats, which are ordered as the floats are.
fn spectrum(signal: &[f32]) -> Vec<u64> {
    let mut planner = FftPlanner::new();
    let fft = planner.plan_fft_forward(signal.len());
    let mut buffer: Vec<Complex<f32>> = signal.iter().map(|&x| Complex::new(x, 0.0)).collect();
    fft.process(&mut buffer);
    buffer.iter().map(|c| c.norm().to_bits() as u64).collect()
}

fn period_of(hint: PeriodHint) -> f64 {
    hint.num as f64 / hint.den as f64
}

fn sine(n: usize, period: f32) -> Vec<f32> {
    (0..n).map(|i| (i as f32 * 2.0 * std::f32::consts::PI / period).sin()).collect()
}

#[test]
fn downscaler_test_fft_detect_period() {
    let signal: Vec<f32> = (0..100).map(|i| (i as f32 * std::f32::consts::PI / 5.0).sin()).collect();
    let mean: f32 = signal.iter().sum::<f32>() / signal.len() as f32;
    let centered: Vec<f32> = signal.iter().map(|x| x - mean).collect();

    let period = fft_detect_period(&spectrum(&centered), 5, 15);
    assert!(period.is_some());

    if let Some(p) = period {
        assert!((period_of(p) - 10.0).abs() < 2.0);
    }
}

#[test]
fn downscaler_copy_test_fft_detect_period() {
    // Create a simple periodic signal
    let signal: Vec<f32> = (0..100).map(|i| (i as f32 * std::f32::consts::PI / 5.0).sin()).collect();

    let period = fft_detect_period(&spectrum(&signal), 5, 15);
    assert!(period.is_some());

    if let Some(p) = period {
        // Period should be around 10 (2π / (π/5) = 10)
        assert!((period_of(p) - 10.0).abs() < 2.0);
    }
}

#[test]
fn sine_periods_inside_the_window_are_found() {
    for period in [6.5f32, 8.0, 10.0, 12.5, 16.0, 19.0] {
        let found = fft_detect_period(&spectrum(&sine(320, period)), 6, 20).expect("a period");
        assert!((period_of(found) - period as f64).abs() < 2.0, "period {}", period);
        assert_eq!(found.num, 320);
    }
}

#[test]
fn exact_sine_period_is_exact() {
    let found = fft_detect_period(&spectrum(&sine(320, 16.0)), 6, 20).expect("a period");
    assert_eq!((found.num, found.den), (320, 20));
}

#[test]
fn short_signals_have_no_period() {
    assert!(fft_detect_period(&spectrum(&sine(19, 8.0)), 6, 20).is_none());
    let magnitudes: Vec<u64> = (0..19).map(|i| 100 + i).collect();
    assert!(fft_detect_period(&magnitudes, 1, 19).is_none());
    assert!(fft_detect_period(&[], 6, 20).is_none());
}

#[test]
fn twenty_samples_are_enough() {
    let mut magnitudes = vec![0u64; 20];
    magnitudes[2] = 5;
    let found = fft_detect_period(&magnitudes, 6, 20).expect("a period");
    assert_eq!((found.num, found.den), (20, 2));
}

#[test]
fn peak_is_the_first_largest_magnitude_of_the_band() {
    // 100 samples, periods 6 to 20: the band holds the indices 5 to 15
    let mut magnitudes = vec![1u64; 100];
    magnitudes[3] = 900;
    magnitudes[4] = 900;
    magnitudes[16] = 900;
    magnitudes[50] = 900;
    magnitudes[7] = 40;
    magnitudes[12] = 40;
    let found = fft_detect_period(&magnitudes, 6, 20).expect("a period");
    assert_eq!((found.num, found.den), (100, 7));
    magnitudes[15] = 41;
    let found = fft_detect_period(&magnitudes, 6, 20).expect("a period");
    assert_eq!((found.num, found.den), (100, 15));
    magnitudes[5] = 41;
    let found = fft_detect_period(&magnitudes, 6, 20).expect("a period");
    assert_eq!((found.num, found.den), (100, 5));
}

#[test]
fn band_never_reaches_past_half_the_samples() {
    // periods 1 to 100 of 40 samples: indices 1 to 19
    let mut magnitudes = vec![1u64; 40];
    magnitudes[20] = 77;
    magnitudes[19] = 3;
    let found = fft_detect_period(&magnitudes, 1, 100).expect("a period");
    assert_eq!((found.num, found.den), (40, 19));
    magnitudes[0] = 99;
    let found = fft_detect_period(&magnitudes, 1, 100).expect("a period");
    assert_eq!((found.num, found.den), (40, 19));
}

#[test]
fn silent_band_has_no_period() {
    let mut magnitudes = vec![0u64; 64];
    magnitudes[1] = 10;
    magnitudes[40] = 10;
    assert!(fft_detect_period(&magnitudes, 6, 20).is_none());
}

#[test]
fn empty_band_has_no_period() {
    let magnitudes = vec![5u64; 64];
    assert!(fft_detect_period(&magnitudes, 20, 6).is_none());
    assert!(fft_detect_period(&magnitudes, 6, 0).is_none());
    assert!(fft_detect_period(&magnitudes, 16, 16).is_none());
    assert!(fft_detect_period(&magnitudes, 0, 20).is_some());
}

#[test]
fn hints_are_averaged() {
    let h = PeriodHint { num: 320, den: 20 };
    let v = PeriodHint { num: 256, den: 32 };
    let both = combine_hints(Some(h), Some(v)).expect("a hint");
    // (320 / 20 + 256 / 32) / 2 = 12
    assert_eq!((both.num, both.den), (320 * 32 + 256 * 20, 2 * 20 * 32));
    assert_eq!(period_of(both), 12.0);
    let only = combine_hints(Some(h), None).expect("a hint");
    assert_eq!((only.num, only.den), (320, 20));
    let only = combine_hints(None, Some(v)).expect("a hint");
    assert_eq!((only.num, only.den), (256, 32));
    assert!(combine_hints(None, None).is_none());
}

#[test]
fn grid_size_joins_both_axes() {
    let mut horizontal = vec![0u64; 320];
    horizontal[20] = 9;
    let mut vertical = vec![0u64; 256];
    vertical[16] = 9;
    let hint = detect_grid_size(&horizontal, &vertical).expect("a hint");
    assert_eq!(period_of(hint), 16.0);
    let hint = detect_grid_size(&horizontal, &[0u64; 256]).expect("a hint");
    assert_eq!((hint.num, hint.den), (320, 20));
    let hint = detect_grid_size(&[1u64; 10], &vertical).expect("a hint");
    assert_eq!((hint.num, hint.den), (256, 16));
    assert!(detect_grid_size(&[1u64; 19], &[1u64; 19]).is_none());
}

#[test]
fn profiles_sum_the_luminance_steps() {
    // two columns: black and white, three rows
    let mut img = PixelBuffer::from_pixel(2, 3, Pixel::new(0, 0, 0, 255));
    for y in 0..3 {
        img.put_pixel(1, y, Pixel::new(255, 255, 255, 255));
    }
    let profiles = edge_profiles(&img);
    assert_eq!(profiles.horizontal, vec![3 * 255000, 0]);
    assert_eq!(profiles.vertical, vec![0, 0, 0]);
}

#[test]
fn profiles_weigh_the_channels() {
    let mut img = PixelBuffer::from_pixel(1, 4, Pixel::new(0, 0, 0, 255));
    img.put_pixel(0, 1, Pixel::new(10, 0, 0, 255));
    img.put_pixel(0, 2, Pixel::new(10, 10, 0, 255));
    img.put_pixel(0, 3, Pixel::new(10, 10, 10, 255));
    let profiles = edge_profiles(&img);
    assert_eq!(profiles.vertical, vec![2990, 5870, 1140, 0]);
    assert_eq!(profiles.horizontal, vec![0]);
}

#[test]
fn transparent_pixels_have_no_luminance() {
    let mut img = PixelBuffer::from_pixel(3, 1, Pixel::new(255, 255, 255, 255));
    img.put_pixel(1, 0, Pixel::new(255, 255, 255, 0));
    let profiles = edge_profiles(&img);
    assert_eq!(profiles.horizontal, vec![255000, 255000, 0]);
}

#[test]
fn profiles_of_an_empty_image_are_empty() {
    let profiles = edge_profiles(&PixelBuffer::new(0, 0));
    assert!(profiles.horizontal.is_empty());
    assert!(profiles.vertical.is_empty());
}

#[test]
fn centering_takes_the_mean_away() {
    let signal = center_profile(&vec![1, 2, 3, 6]);
    // n = 4, sum = 12
    assert_eq!(signal, vec![-8, -4, 0, 12]);
    assert_eq!(signal.iter().sum::<i128>(), 0);
    assert!(center_profile(&Vec::new()).is_empty());
    assert_eq!(center_profile(&vec![7]), vec![0]);
}
