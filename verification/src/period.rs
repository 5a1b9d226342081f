//! Periodicity of the image: the edge profiles of both axes and the period
//! that the strongest frequency of a profile's spectrum stands for.

use vstd::prelude::*;
use crate::num::abs_diff;
use crate::raster::{Grid, Pixel, PixelBuffer};
use crate::stats::{lemma_total_push, total};

verus! {

/// Fewest samples of a profile for which a period is looked for.
pub const MIN_SAMPLES: usize = 20;

/// Shortest period of the search window, in pixels.
pub const MIN_PERIOD: u32 = 6;

/// Longest period of the search window, in pixels.
pub const MAX_PERIOD: u32 = 20;

/// Largest value of the luminance: `1000 * 255`.
pub const LUMA_MAX: u64 = 255000;

/// Luminance of a pixel in units of `1 / 255000`, with the weights 0.299,
/// 0.587 and 0.114; a fully transparent pixel has luminance 0.
pub open spec fn luma(p: Pixel) -> int {
    if p.a == 0 {
        0
    } else {
        299 * p.r + 587 * p.g + 114 * p.b
    }
}

/// Sum over the first `rows` rows of the luminance step from column `x` to
/// column `x + 1`.
pub open spec fn column_step(g: Grid<Pixel>, x: int, rows: int) -> int
    decreases rows,
{
    if rows <= 0 {
        0
    } else {
        column_step(g, x, rows - 1) + abs_diff(luma(g.at(x + 1, rows - 1)), luma(g.at(x, rows - 1)))
    }
}

/// Sum over the first `cols` columns of the luminance step from row `y` to
/// row `y + 1`.
pub open spec fn row_step(g: Grid<Pixel>, y: int, cols: int) -> int
    decreases cols,
{
    if cols <= 0 {
        0
    } else {
        row_step(g, y, cols - 1) + abs_diff(luma(g.at(cols - 1, y + 1)), luma(g.at(cols - 1, y)))
    }
}

/// One value per column: the summed luminance step to the next column, and 0
/// for the last column.
pub open spec fn horizontal_profile(g: Grid<Pixel>) -> Seq<u64> {
    Seq::new(
        g.width,
        |x: int|
            if x + 1 < g.width {
                column_step(g, x, g.height as int) as u64
            } else {
                0u64
            },
    )
}

/// One value per row: the summed luminance step to the next row, and 0 for
/// the last row.
pub open spec fn vertical_profile(g: Grid<Pixel>) -> Seq<u64> {
    Seq::new(
        g.height,
        |y: int|
            if y + 1 < g.height {
                row_step(g, y, g.width as int) as u64
            } else {
                0u64
            },
    )
}

/// The summed steps of a column stay within the number of rows times the
/// largest step.
pub proof fn lemma_column_step_bound(g: Grid<Pixel>, x: int, rows: int)
    requires
        0 <= rows,
    ensures
        0 <= column_step(g, x, rows) <= rows * LUMA_MAX,
    decreases rows,
{
    if rows > 0 {
        lemma_column_step_bound(g, x, rows - 1);
        assert((rows - 1) * LUMA_MAX + LUMA_MAX == rows * LUMA_MAX) by (nonlinear_arith);
    }
}

/// The summed steps of a row stay within the number of columns times the
/// largest step.
pub proof fn lemma_row_step_bound(g: Grid<Pixel>, y: int, cols: int)
    requires
        0 <= cols,
    ensures
        0 <= row_step(g, y, cols) <= cols * LUMA_MAX,
    decreases cols,
{
    if cols > 0 {
        lemma_row_step_bound(g, y, cols - 1);
        assert((cols - 1) * LUMA_MAX + LUMA_MAX == cols * LUMA_MAX) by (nonlinear_arith);
    }
}

fn pixel_luma(p: Pixel) -> (l: u64)
    ensures
        l == luma(p),
        l <= LUMA_MAX,
{
    if p.a == 0 {
        0
    } else {
        299 * (p.r as u64) + 587 * (p.g as u64) + 114 * (p.b as u64)
    }
}

fn luma_step(a: Pixel, b: Pixel) -> (d: u64)
    ensures
        d == abs_diff(luma(a), luma(b)),
        d <= LUMA_MAX,
{
    let la: u64 = pixel_luma(a);
    let lb: u64 = pixel_luma(b);
    if la >= lb {
        la - lb
    } else {
        lb - la
    }
}

/// The edge profiles of both axes.
pub struct EdgeProfiles {
    /// One value per column.
    pub horizontal: Vec<u64>,
    /// One value per row.
    pub vertical: Vec<u64>,
}

/// Largest value of a profile: the longest side times the largest step.
pub open spec fn profile_limit() -> int {
    u32::MAX * LUMA_MAX
}

fn horizontal_edges(img: &PixelBuffer) -> (profile: Vec<u64>)
    ensures
        profile@ == horizontal_profile(img@),
        forall|i: int| 0 <= i < profile@.len() ==> #[trigger] profile@[i] <= profile_limit(),
{
    let (width, height) = img.dimensions();
    let mut profile: Vec<u64> = Vec::new();
    let mut x: u32 = 0;
    while x < width
        invariant
            img@.wf(),
            width == img@.width,
            height == img@.height,
            x <= width,
            profile@.len() == x,
            forall|i: int| 0 <= i < x ==> #[trigger] profile@[i] == horizontal_profile(img@)[i],
            forall|i: int| 0 <= i < x ==> #[trigger] profile@[i] <= profile_limit(),
        decreases width - x,
    {
        let mut sum: u64 = 0;
        if x < width - 1 {
            let mut y: u32 = 0;
            while y < height
                invariant
                    img@.wf(),
                    width == img@.width,
                    height == img@.height,
                    x + 1 < width,
                    y <= height,
                    sum == column_step(img@, x as int, y as int),
                    sum <= y * LUMA_MAX,
                decreases height - y,
            {
                let step: u64 = luma_step(img.get_pixel(x + 1, y), img.get_pixel(x, y));
                proof {
                    assert(y * LUMA_MAX + LUMA_MAX == (y + 1) * LUMA_MAX) by (nonlinear_arith);
                    assert((y + 1) * LUMA_MAX <= u32::MAX * LUMA_MAX) by (nonlinear_arith)
                        requires
                            y + 1 <= u32::MAX,
                    ;
                }
                sum = sum + step;
                y = y + 1;
            }
            proof {
                assert(height * LUMA_MAX <= u32::MAX * LUMA_MAX) by (nonlinear_arith)
                    requires
                        height <= u32::MAX,
                ;
            }
        }
        profile.push(sum);
        x = x + 1;
    }
    proof {
        assert(profile@ =~= horizontal_profile(img@));
    }
    profile
}

fn vertical_edges(img: &PixelBuffer) -> (profile: Vec<u64>)
    ensures
        profile@ == vertical_profile(img@),
        forall|i: int| 0 <= i < profile@.len() ==> #[trigger] profile@[i] <= profile_limit(),
{
    let (width, height) = img.dimensions();
    let mut profile: Vec<u64> = Vec::new();
    let mut y: u32 = 0;
    while y < height
        invariant
            img@.wf(),
            width == img@.width,
            height == img@.height,
            y <= height,
            profile@.len() == y,
            forall|i: int| 0 <= i < y ==> #[trigger] profile@[i] == vertical_profile(img@)[i],
            forall|i: int| 0 <= i < y ==> #[trigger] profile@[i] <= profile_limit(),
        decreases height - y,
    {
        let mut sum: u64 = 0;
        if y < height - 1 {
            let mut x: u32 = 0;
            while x < width
                invariant
                    img@.wf(),
                    width == img@.width,
                    height == img@.height,
                    y + 1 < height,
                    x <= width,
                    sum == row_step(img@, y as int, x as int),
                    sum <= x * LUMA_MAX,
                decreases width - x,
            {
                let step: u64 = luma_step(img.get_pixel(x, y + 1), img.get_pixel(x, y));
                proof {
                    assert(x * LUMA_MAX + LUMA_MAX == (x + 1) * LUMA_MAX) by (nonlinear_arith);
                    assert((x + 1) * LUMA_MAX <= u32::MAX * LUMA_MAX) by (nonlinear_arith)
                        requires
                            x + 1 <= u32::MAX,
                    ;
                }
                sum = sum + step;
                x = x + 1;
            }
            proof {
                assert(width * LUMA_MAX <= u32::MAX * LUMA_MAX) by (nonlinear_arith)
                    requires
                        width <= u32::MAX,
                ;
            }
        }
        profile.push(sum);
        y = y + 1;
    }
    proof {
        assert(profile@ =~= vertical_profile(img@));
    }
    profile
}

/// The two edge profiles of the image: for each column the luminance steps
/// to the next column summed over the rows, and for each row the steps to
/// the next row summed over the columns.
pub fn edge_profiles(img: &PixelBuffer) -> (profiles: EdgeProfiles)
    ensures
        profiles.horizontal@ == horizontal_profile(img@),
        profiles.vertical@ == vertical_profile(img@),
        profiles.horizontal@.len() == img@.width,
        profiles.vertical@.len() == img@.height,
        fits_profile(profiles.horizontal@),
        fits_profile(profiles.vertical@),
{
    let (width, height) = img.dimensions();
    EdgeProfiles { horizontal: horizontal_edges(img), vertical: vertical_edges(img) }
}

/// No longer than a side of an image can be, and no value above what a
/// profile can hold.
pub open spec fn fits_profile(profile: Seq<u64>) -> bool {
    &&& profile.len() <= u32::MAX
    &&& forall|i: int| 0 <= i < profile.len() ==> #[trigger] profile[i] <= profile_limit()
}

/// The values of a profile as integers.
pub open spec fn values(profile: Seq<u64>) -> Seq<int> {
    Seq::new(profile.len(), |i: int| profile[i] as int)
}

/// The profile with its mean taken away, in units of `1 / n` for a profile
/// of `n` values: value `v` becomes `n * v - sum`.
pub open spec fn centered(profile: Seq<u64>) -> Seq<int> {
    Seq::new(profile.len(), |i: int| profile.len() * profile[i] - total(values(profile)))
}

proof fn lemma_values_bound(profile: Seq<u64>, k: int)
    requires
        fits_profile(profile),
        0 <= k <= profile.len(),
    ensures
        0 <= total(values(profile.take(k))) <= k * profile_limit(),
    decreases k,
{
    if k > 0 {
        lemma_values_bound(profile, k - 1);
        assert(values(profile.take(k)) =~= values(profile.take(k - 1)).push(profile[k - 1] as int));
        lemma_total_push(values(profile.take(k - 1)), profile[k - 1] as int);
        assert((k - 1) * profile_limit() + profile_limit() == k * profile_limit()) by (nonlinear_arith);
    } else {
        assert(values(profile.take(0)) =~= Seq::<int>::empty());
    }
}

proof fn lemma_centered_prefix(profile: Seq<u64>, k: int)
    requires
        0 <= k <= profile.len(),
    ensures
        total(centered(profile).take(k)) == profile.len() * total(values(profile).take(k)) - k * total(
            values(profile),
        ),
    decreases k,
{
    let n = profile.len() as int;
    let t = total(values(profile));
    if k > 0 {
        lemma_centered_prefix(profile, k - 1);
        let before = centered(profile).take(k - 1);
        assert(centered(profile).take(k) =~= before.push(n * profile[k - 1] - t));
        lemma_total_push(before, n * profile[k - 1] - t);
        let seen = values(profile).take(k - 1);
        assert(values(profile).take(k) =~= seen.push(profile[k - 1] as int));
        lemma_total_push(seen, profile[k - 1] as int);
        assert(n * (total(seen) + profile[k - 1]) - k * t == (n * total(seen) - (k - 1) * t) + (n * profile[k - 1]
            - t)) by (nonlinear_arith);
    } else {
        assert(centered(profile).take(0) =~= Seq::<int>::empty());
        assert(values(profile).take(0) =~= Seq::<int>::empty());
        assert(0 * t == 0);
        assert(n * 0 == 0);
    }
}

/// The values of a centred profile sum to zero: its mean is gone.
pub proof fn lemma_centered_total(profile: Seq<u64>)
    ensures
        total(centered(profile)) == 0,
{
    let n = profile.len() as int;
    lemma_centered_prefix(profile, n);
    assert(centered(profile).take(n) =~= centered(profile));
    assert(values(profile).take(n) =~= values(profile));
}

/// Takes the mean away from the profile, so that the constant part of the
/// signal does not show in its spectrum.
pub fn center_profile(profile: &Vec<u64>) -> (signal: Vec<i128>)
    requires
        fits_profile(profile@),
    ensures
        signal@.len() == profile@.len(),
        forall|i: int| 0 <= i < signal@.len() ==> #[trigger] signal@[i] == centered(profile@)[i],
{
    let n: usize = profile.len();
    let mut sum: i128 = 0;
    let mut i: usize = 0;
    while i < n
        invariant
            n == profile@.len(),
            fits_profile(profile@),
            i <= n,
            sum == total(values(profile@.take(i as int))),
            0 <= sum <= i * profile_limit(),
        decreases n - i,
    {
        proof {
            lemma_values_bound(profile@, i as int + 1);
            assert(values(profile@.take(i as int + 1)) =~= values(profile@.take(i as int)).push(
                profile@[i as int] as int,
            ));
            lemma_total_push(values(profile@.take(i as int)), profile@[i as int] as int);
            assert((i + 1) * profile_limit() <= u32::MAX * profile_limit()) by (nonlinear_arith)
                requires
                    i + 1 <= u32::MAX,
            ;
        }
        sum = sum + profile[i] as i128;
        i = i + 1;
    }
    proof {
        assert(profile@.take(n as int) =~= profile@);
        assert(n * profile_limit() <= u32::MAX * profile_limit()) by (nonlinear_arith)
            requires
                n <= u32::MAX,
        ;
    }
    let mut signal: Vec<i128> = Vec::new();
    let mut k: usize = 0;
    while k < n
        invariant
            n == profile@.len(),
            fits_profile(profile@),
            k <= n,
            sum == total(values(profile@)),
            0 <= sum <= u32::MAX * profile_limit(),
            signal@.len() == k,
            forall|i: int| 0 <= i < k ==> #[trigger] signal@[i] == centered(profile@)[i],
        decreases n - k,
    {
        let v: i128 = profile[k] as i128;
        proof {
            assert(0 <= n * v <= u32::MAX * profile_limit()) by (nonlinear_arith)
                requires
                    0 <= n <= u32::MAX,
                    0 <= v <= profile_limit(),
            ;
        }
        signal.push((n as i128) * v - sum);
        k = k + 1;
    }
    signal
}

/// A period in pixels per grid cell, as the fraction `num / den`.
#[derive(Debug, Clone, Copy)]
pub struct PeriodHint {
    pub num: u64,
    pub den: u64,
}

impl PeriodHint {
    /// The denominator is not zero.
    pub open spec fn wf(self) -> bool {
        self.den > 0
    }

    /// Both parts are small enough for two hints to be averaged.
    pub open spec fn fits_axis(self) -> bool {
        self.num <= u32::MAX && 0 < self.den <= u32::MAX / 2
    }
}

/// First index of the frequency band of the periods up to `max_period`.
pub open spec fn band_low(n: int, max_period: int) -> int {
    if max_period <= 0 {
        n
    } else if n / max_period < 1 {
        1
    } else {
        n / max_period
    }
}

/// End of the frequency band of the periods from `min_period`: the first
/// index that no longer belongs to it.
pub open spec fn band_high(n: int, min_period: int) -> int {
    if min_period <= 0 || n / min_period > n / 2 {
        n / 2
    } else {
        n / min_period
    }
}

/// `k` is the first index of `lo..hi` that holds the largest magnitude there.
pub open spec fn is_peak(magnitudes: Seq<u64>, lo: int, hi: int, k: int) -> bool {
    &&& lo <= k < hi
    &&& forall|j: int| lo <= j < hi ==> magnitudes[j] <= magnitudes[k]
    &&& forall|j: int| lo <= j < k ==> magnitudes[j] < magnitudes[k]
}

/// The first index of `lo..hi` that holds the largest magnitude there.
pub open spec fn peak(magnitudes: Seq<u64>, lo: int, hi: int) -> int {
    choose|k: int| is_peak(magnitudes, lo, hi, k)
}

/// The period of the strongest frequency in the band of the periods between
/// `min_period` and `max_period`: the number of samples divided by the index
/// of the peak. Nothing for fewer than 20 samples, for an empty band, and for
/// a band without a positive magnitude.
pub open spec fn detected_period(magnitudes: Seq<u64>, min_period: int, max_period: int) -> Option<PeriodHint> {
    let n = magnitudes.len() as int;
    let lo = band_low(n, max_period);
    let hi = band_high(n, min_period);
    if n < MIN_SAMPLES || lo >= hi || magnitudes[peak(magnitudes, lo, hi)] == 0 {
        None
    } else {
        Some(PeriodHint { num: n as u64, den: peak(magnitudes, lo, hi) as u64 })
    }
}

/// A band has at most one peak.
pub proof fn lemma_peak_unique(magnitudes: Seq<u64>, lo: int, hi: int, k: int)
    requires
        is_peak(magnitudes, lo, hi, k),
    ensures
        peak(magnitudes, lo, hi) == k,
{
    let p = peak(magnitudes, lo, hi);
    assert(is_peak(magnitudes, lo, hi, p));
    if p < k {
        assert(magnitudes[p] < magnitudes[k]);
    } else if k < p {
        assert(magnitudes[k] < magnitudes[p]);
    }
}

/// The dominant period of a profile, read from the magnitudes of its
/// spectrum: `magnitudes[k]` is the magnitude of frequency `k` of a signal of
/// `magnitudes.len()` samples, in any unit that keeps their order.
pub fn fft_detect_period(magnitudes: &[u64], min_period: u32, max_period: u32) -> (period: Option<PeriodHint>)
    requires
        magnitudes@.len() <= u32::MAX,
    ensures
        period == detected_period(magnitudes@, min_period as int, max_period as int),
        magnitudes@.len() < MIN_SAMPLES ==> period is None,
        period is Some ==> period->0.fits_axis() && period->0.num == magnitudes@.len(),
{
    let n: usize = magnitudes.len();
    if n < MIN_SAMPLES {
        return None;
    }
    if max_period == 0 {
        return None;
    }
    let by_period: usize = n / (max_period as usize);
    let lo: usize = if by_period < 1 {
        1
    } else {
        by_period
    };
    let half: usize = n / 2;
    let hi: usize = if min_period == 0 {
        half
    } else if n / (min_period as usize) > half {
        half
    } else {
        n / (min_period as usize)
    };
    if lo >= hi {
        return None;
    }
    let mut best: usize = lo;
    let mut k: usize = lo + 1;
    while k < hi
        invariant
            lo < k <= hi,
            hi <= n,
            n == magnitudes@.len(),
            is_peak(magnitudes@, lo as int, k as int, best as int),
        decreases hi - k,
    {
        if magnitudes[k] > magnitudes[best] {
            best = k;
        }
        k = k + 1;
    }
    proof {
        lemma_peak_unique(magnitudes@, lo as int, hi as int, best as int);
    }
    if magnitudes[best] == 0 {
        None
    } else {
        Some(PeriodHint { num: n as u64, den: best as u64 })
    }
}

/// The mean of two periods.
pub open spec fn mean_period(h: PeriodHint, v: PeriodHint) -> PeriodHint {
    PeriodHint { num: (h.num * v.den + v.num * h.den) as u64, den: (2 * h.den * v.den) as u64 }
}

/// The hint that two profiles give together: the mean of their periods, the
/// one period where only one profile has one, and nothing where neither has.
pub open spec fn combined_hint(h: Option<PeriodHint>, v: Option<PeriodHint>) -> Option<PeriodHint> {
    match (h, v) {
        (Some(a), Some(b)) => Some(mean_period(a, b)),
        (Some(a), None) => Some(a),
        (None, Some(b)) => Some(b),
        (None, None) => None,
    }
}

/// Joins the periods of the two profiles into one hint.
pub fn combine_hints(h: Option<PeriodHint>, v: Option<PeriodHint>) -> (hint: Option<PeriodHint>)
    requires
        h is Some ==> h->0.fits_axis(),
        v is Some ==> v->0.fits_axis(),
    ensures
        hint == combined_hint(h, v),
        hint is Some ==> hint->0.wf(),
        hint is Some <==> h is Some || v is Some,
{
    match h {
        Some(a) => match v {
            Some(b) => {
                assert(a.num * b.den <= u32::MAX * (u32::MAX / 2)) by (nonlinear_arith)
                    requires
                        a.num <= u32::MAX,
                        b.den <= u32::MAX / 2,
                ;
                assert(b.num * a.den <= u32::MAX * (u32::MAX / 2)) by (nonlinear_arith)
                    requires
                        b.num <= u32::MAX,
                        a.den <= u32::MAX / 2,
                ;
                assert(0 < a.den * b.den <= (u32::MAX / 2) * (u32::MAX / 2)) by (nonlinear_arith)
                    requires
                        0 < a.den <= u32::MAX / 2,
                        0 < b.den <= u32::MAX / 2,
                ;
                assert(2 * a.den * b.den == 2 * (a.den * b.den)) by (nonlinear_arith);
                Some(PeriodHint { num: a.num * b.den + b.num * a.den, den: 2 * (a.den * b.den) })
            },
            None => Some(a),
        },
        None => v,
    }
}

/// The period hint of an image from the spectra of its two edge profiles,
/// looked for among the periods from 6 to 20 pixels.
pub fn detect_grid_size(horizontal: &[u64], vertical: &[u64]) -> (hint: Option<PeriodHint>)
    requires
        horizontal@.len() <= u32::MAX,
        vertical@.len() <= u32::MAX,
    ensures
        hint == combined_hint(
            detected_period(horizontal@, MIN_PERIOD as int, MAX_PERIOD as int),
            detected_period(vertical@, MIN_PERIOD as int, MAX_PERIOD as int),
        ),
        hint is Some ==> hint->0.wf(),
        horizontal@.len() < MIN_SAMPLES && vertical@.len() < MIN_SAMPLES ==> hint is None,
{
    let h = fft_detect_period(horizontal, MIN_PERIOD, MAX_PERIOD);
    let v = fft_detect_period(vertical, MIN_PERIOD, MAX_PERIOD);
    combine_hints(h, v)
}

} // verus!
