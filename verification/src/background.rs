//! Background isolation: sampling of the border, the mask of pixels that
//! look like background, and the clearing of the region that is connected
//! to the border.

use vstd::prelude::*;
use crate::num::{max_int, min_int};
use crate::flood::{
    dilate_mask,
    dilate_times,
    flood_from_border,
    flood_region,
    lemma_dilate_times,
    lemma_dilate_times_extremes,
    lemma_flood_of_everything,
    lemma_flood_of_nothing,
};
use crate::palette::{background_colors, color_distance, find_background_colors, rgb_color_distance};
use crate::raster::{visited, Grid, Mask, Pixel, PixelBuffer};
use crate::settings::{BgRemovalMode, DownscalerSettings};
use crate::window::{
    colors,
    high_bound,
    low_bound,
    dispersion3,
    lemma_colors,
    lemma_rect_len,
    rect,
    rect_dispersion,
    rect_inside,
    rect_value_range,
    value_range,
};

verus! {

/// Depth of the border band whose colours are sampled.
pub const SAMPLE_BAND: u32 = 5;

/// Number of background colours that are kept.
pub const MAX_BACKGROUND_COLORS: usize = 3;

/// Depth of the border band with the looser tolerance and the content test.
pub const EDGE_BAND: u32 = 10;

/// Radius of the window of the content test.
pub const CONTENT_WINDOW: u32 = 3;

/// Largest window radius for which the statistics fit the machine integers.
pub const MAX_WINDOW: u32 = 32767;

/// The colours of the four border bands of depth `band`: top, bottom, left,
/// right, each row by row. Pixels in the corners occur once for each band
/// they lie in.
pub open spec fn border_samples(c: Grid<[u8; 3]>, band: int) -> Seq<[u8; 3]> {
    let bh = min_int(band, c.height as int);
    let bw = min_int(band, c.width as int);
    rect(c, 0, c.width as int, 0, bh) + rect(c, 0, c.width as int, c.height - bh, c.height as int) + rect(
        c,
        0,
        bw,
        0,
        c.height as int,
    ) + rect(c, c.width - bw, c.width as int, 0, c.height as int)
}

fn append_rect(img: &PixelBuffer, x0: u32, x1: u32, y0: u32, y1: u32, out: &mut Vec<[u8; 3]>)
    requires
        rect_inside(img@, x0 as int, x1 as int, y0 as int, y1 as int),
    ensures
        final(out)@ == old(out)@ + rect(colors(img@), x0 as int, x1 as int, y0 as int, y1 as int),
{
    let (width, height) = img.dimensions();
    let ghost c = colors(img@);
    let ghost start = out@;
    proof {
        lemma_colors(img@);
        assert(out@ =~= start + rect(c, x0 as int, x1 as int, y0 as int, y0 as int));
    }
    let mut y: u32 = y0;
    while y < y1
        invariant
            img@.wf(),
            c == colors(img@),
            c.wf(),
            rect_inside(img@, x0 as int, x1 as int, y0 as int, y1 as int),
            y0 <= y <= y1,
            out@ == start + rect(c, x0 as int, x1 as int, y0 as int, y as int),
        decreases y1 - y,
    {
        let mut x: u32 = x0;
        proof {
            assert(out@ =~= start + (rect(c, x0 as int, x1 as int, y0 as int, y as int) + c.rows[y as int].subrange(
                x0 as int,
                x as int,
            )));
        }
        while x < x1
            invariant
                img@.wf(),
                c == colors(img@),
                c.wf(),
                rect_inside(img@, x0 as int, x1 as int, y0 as int, y1 as int),
                y0 <= y < y1,
                x0 <= x <= x1,
                out@ == start + (rect(c, x0 as int, x1 as int, y0 as int, y as int) + c.rows[y as int].subrange(
                    x0 as int,
                    x as int,
                )),
            decreases x1 - x,
        {
            let color: [u8; 3] = img.get_pixel(x, y).rgb();
            proof {
                lemma_colors(img@);
                assert(c.at(x as int, y as int) == color);
                assert(out@.push(color) =~= start + (rect(c, x0 as int, x1 as int, y0 as int, y as int)
                    + c.rows[y as int].subrange(x0 as int, x as int + 1)));
            }
            out.push(color);
            x = x + 1;
        }
        proof {
            assert(c.rows[y as int].subrange(x0 as int, x as int) == c.rows[y as int].subrange(x0 as int, x1 as int));
        }
        y = y + 1;
    }
}

/// The colours of the pixels in the four border bands of depth
/// `sample_width`.
pub fn sample_edge_colors(img: &PixelBuffer, sample_width: u32) -> (samples: Vec<[u8; 3]>)
    ensures
        samples@ == border_samples(colors(img@), sample_width as int),
{
    let (width, height) = img.dimensions();
    let band_h: u32 = if sample_width < height {
        sample_width
    } else {
        height
    };
    let band_w: u32 = if sample_width < width {
        sample_width
    } else {
        width
    };
    let mut samples: Vec<[u8; 3]> = Vec::new();
    proof {
        lemma_colors(img@);
    }
    append_rect(img, 0, width, 0, band_h, &mut samples);
    append_rect(img, 0, width, height - band_h, height, &mut samples);
    append_rect(img, 0, band_w, 0, height, &mut samples);
    append_rect(img, width - band_w, width, 0, height, &mut samples);
    proof {
        assert(samples@ =~= border_samples(colors(img@), sample_width as int));
    }
    samples
}

/// The colours within `radius` of `(x, y)`, as far as they lie inside the
/// grid.
pub open spec fn window_cells(c: Grid<[u8; 3]>, x: int, y: int, radius: int) -> Seq<[u8; 3]> {
    let x0 = max_int(x - radius, 0);
    let x1 = min_int(x + radius + 1, c.width as int);
    let y0 = max_int(y - radius, 0);
    let y1 = min_int(y + radius + 1, c.height as int);
    if x0 < x1 && y0 < y1 {
        rect(c, x0, x1, y0, y1)
    } else {
        Seq::empty()
    }
}

/// The window around `(x, y)` looks like content: its colour variance
/// exceeds 100 or its value range exceeds 50. With `n` colours in the
/// window, the variance is `dispersion3 / n^2`.
pub open spec fn content_edge(c: Grid<[u8; 3]>, x: int, y: int, radius: int) -> bool {
    let cells = window_cells(c, x, y, radius);
    let n = cells.len() as int;
    n > 0 && (dispersion3(cells) > 100 * n * n || value_range(cells) > 50)
}

/// Whether the surroundings of `(x, y)` within `window_size` pixels vary
/// too much to be background.
pub fn is_content_edge(img: &PixelBuffer, x: u32, y: u32, window_size: u32) -> (content: bool)
    requires
        window_size <= MAX_WINDOW,
    ensures
        content == content_edge(colors(img@), x as int, y as int, window_size as int),
{
    let (width, height) = img.dimensions();
    let x0: u32 = low_bound(x, window_size);
    let x1: u32 = high_bound(x, window_size, width);
    let y0: u32 = low_bound(y, window_size);
    let y1: u32 = high_bound(y, window_size, height);
    proof {
        lemma_colors(img@);
    }
    if x0 >= x1 || y0 >= y1 {
        return false;
    }
    proof {
        lemma_rect_len(colors(img@), x0 as int, x1 as int, y0 as int, y1 as int);
        assert((y1 - y0) * (x1 - x0) <= 65535 * 65535) by (nonlinear_arith)
            requires
                0 <= y1 - y0 <= 65535,
                0 <= x1 - x0 <= 65535,
        ;
        assert((y1 - y0) * (x1 - x0) > 0) by (nonlinear_arith)
            requires
                0 < y1 - y0,
                0 < x1 - x0,
        ;
    }
    let n: u128 = ((y1 - y0) as u128) * ((x1 - x0) as u128);
    let spread: u128 = rect_dispersion(img, x0, x1, y0, y1);
    let range: u32 = rect_value_range(img, x0, x1, y0, y1);
    assert(100 * n * n <= 100 * 0xFFFF_FFFF * 0xFFFF_FFFF) by (nonlinear_arith)
        requires
            n <= 0xFFFF_FFFF,
    ;
    spread > 100 * n * n || range > 50
}

/// Within `band` pixels of one of the four sides.
pub open spec fn near_border(width: int, height: int, x: int, y: int, band: int) -> bool {
    x < band || x + band >= width || y < band || y + band >= height
}

/// Within `threshold` of one of the background colours.
pub open spec fn matches_background(color: [u8; 3], background: Seq<[u8; 3]>, threshold: int) -> bool {
    exists|i: int| 0 <= i < background.len() && color_distance(color, #[trigger] background[i]) <= threshold
}

/// The pixel at `(x, y)` may be background: its colour is close to a
/// background colour, by the edge tolerance near the border and by the
/// interior tolerance elsewhere, and in conservative mode it is not content
/// that touches the border.
pub open spec fn is_candidate(
    c: Grid<[u8; 3]>,
    background: Seq<[u8; 3]>,
    settings: DownscalerSettings,
    x: int,
    y: int,
) -> bool {
    let near = near_border(c.width as int, c.height as int, x, y, EDGE_BAND as int);
    let threshold = if near {
        settings.bg_edge_tolerance
    } else {
        settings.bg_tolerance
    };
    &&& matches_background(c.at(x, y), background, threshold as int)
    &&& !(settings.bg_removal_mode == BgRemovalMode::Conservative && near && content_edge(
        c,
        x,
        y,
        CONTENT_WINDOW as int,
    ))
}

/// The mask of all pixels that may be background.
pub open spec fn candidate_mask(c: Grid<[u8; 3]>, background: Seq<[u8; 3]>, settings: DownscalerSettings) -> Grid<
    bool,
> {
    Grid::from_fn(c.width, c.height, |x: int, y: int| is_candidate(c, background, settings, x, y))
}

fn close_to_any(color: &[u8; 3], background: &Vec<[u8; 3]>, threshold: u8) -> (close: bool)
    ensures
        close == matches_background(*color, background@, threshold as int),
{
    let mut i: usize = 0;
    while i < background.len()
        invariant
            i <= background@.len(),
            forall|j: int| 0 <= j < i ==> color_distance(*color, #[trigger] background@[j]) > threshold,
        decreases background@.len() - i,
    {
        if rgb_color_distance(color, &background[i]) <= threshold as i32 {
            return true;
        }
        i = i + 1;
    }
    false
}

fn in_edge_band(width: u32, height: u32, x: u32, y: u32) -> (near: bool)
    ensures
        near == near_border(width as int, height as int, x as int, y as int, EDGE_BAND as int),
{
    x < EDGE_BAND || x as u64 + EDGE_BAND as u64 >= width as u64 || y < EDGE_BAND || y as u64 + EDGE_BAND as u64
        >= height as u64
}

/// Marks every pixel that may be background.
pub fn build_candidate_mask(img: &PixelBuffer, background: &Vec<[u8; 3]>, settings: &DownscalerSettings) -> (mask:
    Mask)
    ensures
        mask@ == candidate_mask(colors(img@), background@, *settings),
        mask@.wf(),
        mask@.width == img@.width,
        mask@.height == img@.height,
{
    let (width, height) = img.dimensions();
    let ghost c = colors(img@);
    proof {
        lemma_colors(img@);
    }
    let mut mask: Mask = Mask::filled(width, height, false);
    let mut y: u32 = 0;
    while y < height
        invariant
            img@.wf(),
            width == img@.width,
            height == img@.height,
            c == colors(img@),
            mask@.wf(),
            mask@.width == width,
            mask@.height == height,
            y <= height,
            forall|i: int, j: int|
                mask@.contains(i, j) && j < y ==> mask@.at(i, j) == is_candidate(c, background@, *settings, i, j),
        decreases height - y,
    {
        let mut x: u32 = 0;
        while x < width
            invariant
                img@.wf(),
                width == img@.width,
                height == img@.height,
                c == colors(img@),
                mask@.wf(),
                mask@.width == width,
                mask@.height == height,
                y < height,
                x <= width,
                forall|i: int, j: int|
                    mask@.contains(i, j) && visited(i, j, x as int, y as int) ==> mask@.at(i, j) == is_candidate(
                        c,
                        background@,
                        *settings,
                        i,
                        j,
                    ),
            decreases width - x,
        {
            let color: [u8; 3] = img.get_pixel(x, y).rgb();
            let near: bool = in_edge_band(width, height, x, y);
            let threshold: u8 = if near {
                settings.bg_edge_tolerance
            } else {
                settings.bg_tolerance
            };
            proof {
                lemma_colors(img@);
            }
            let mut candidate: bool = close_to_any(&color, background, threshold);
            if candidate && near && settings.bg_removal_mode == BgRemovalMode::Conservative {
                candidate = !is_content_edge(img, x, y, CONTENT_WINDOW);
            }
            let ghost before = mask@;
            mask.set(x, y, candidate);
            proof {
                before.lemma_update(x as int, y as int, candidate);
            }
            x = x + 1;
        }
        y = y + 1;
    }
    proof {
        let target = candidate_mask(c, background@, *settings);
        Grid::lemma_from_fn(c.width, c.height, |x: int, y: int| is_candidate(c, background@, *settings, x, y));
        mask@.lemma_equal(target);
    }
    mask
}

/// How often the candidate mask is dilated.
pub open spec fn dilation_rounds(mode: BgRemovalMode) -> nat {
    if mode == BgRemovalMode::Conservative {
        1
    } else {
        2
    }
}

/// The background region of an image with the colours `c`: the candidate
/// pixels, dilated, that are joined to the border.
pub open spec fn background_region(c: Grid<[u8; 3]>, settings: DownscalerSettings) -> Grid<bool> {
    let background = background_colors(border_samples(c, SAMPLE_BAND as int), MAX_BACKGROUND_COLORS as nat);
    flood_region(dilate_times(candidate_mask(c, background, settings), dilation_rounds(settings.bg_removal_mode)))
}

/// The three channels sum to less than `threshold`.
pub open spec fn is_dark(p: Pixel, threshold: int) -> bool {
    p.r + p.g + p.b < threshold
}

/// A pixel of the background region loses its opacity and keeps its colour,
/// unless dark lines are kept and it is dark. Other pixels stay as they are.
pub open spec fn cleared_pixel(p: Pixel, in_region: bool, settings: DownscalerSettings) -> Pixel {
    if in_region && !(settings.preserve_dark_lines && is_dark(p, settings.dark_line_threshold as int)) {
        p.with_alpha(0)
    } else {
        p
    }
}

/// The image with its background made transparent.
pub open spec fn background_removed(g: Grid<Pixel>, settings: DownscalerSettings) -> Grid<Pixel> {
    if settings.bg_removal_mode == BgRemovalMode::Off {
        g
    } else {
        Grid::from_fn(
            g.width,
            g.height,
            |x: int, y: int| cleared_pixel(g.at(x, y), background_region(colors(g), settings).at(x, y), settings),
        )
    }
}

fn clear_region(img: &mut PixelBuffer, region: &Mask, settings: &DownscalerSettings)
    requires
        region@.wf(),
        region@.width == old(img)@.width,
        region@.height == old(img)@.height,
    ensures
        final(img)@.wf(),
        final(img)@ == Grid::from_fn(
            old(img)@.width,
            old(img)@.height,
            |x: int, y: int| cleared_pixel(old(img)@.at(x, y), region@.at(x, y), *settings),
        ),
{
    let (width, height) = img.dimensions();
    let ghost start = img@;
    let mut y: u32 = 0;
    while y < height
        invariant
            start.wf(),
            img@.wf(),
            region@.wf(),
            width == start.width,
            height == start.height,
            img@.width == width,
            img@.height == height,
            region@.width == width,
            region@.height == height,
            y <= height,
            forall|i: int, j: int|
                start.contains(i, j) ==> img@.at(i, j) == if j < y {
                    cleared_pixel(start.at(i, j), region@.at(i, j), *settings)
                } else {
                    start.at(i, j)
                },
        decreases height - y,
    {
        let mut x: u32 = 0;
        while x < width
            invariant
                start.wf(),
                img@.wf(),
                region@.wf(),
                width == start.width,
                height == start.height,
                img@.width == width,
                img@.height == height,
                region@.width == width,
                region@.height == height,
                y < height,
                x <= width,
                forall|i: int, j: int|
                    start.contains(i, j) ==> img@.at(i, j) == if visited(i, j, x as int, y as int) {
                        cleared_pixel(start.at(i, j), region@.at(i, j), *settings)
                    } else {
                        start.at(i, j)
                    },
            decreases width - x,
        {
            if region.get(x, y) {
                let pixel: Pixel = img.get_pixel(x, y);
                let sum: u16 = pixel.r as u16 + pixel.g as u16 + pixel.b as u16;
                if !(settings.preserve_dark_lines && sum < settings.dark_line_threshold) {
                    let ghost before = img@;
                    img.put_pixel(x, y, Pixel::new(pixel.r, pixel.g, pixel.b, 0));
                    proof {
                        before.lemma_update(x as int, y as int, pixel.with_alpha(0));
                    }
                }
            }
            x = x + 1;
        }
        y = y + 1;
    }
    proof {
        let target = Grid::from_fn(
            start.width,
            start.height,
            |x: int, y: int| cleared_pixel(start.at(x, y), region@.at(x, y), *settings),
        );
        Grid::lemma_from_fn(
            start.width,
            start.height,
            |x: int, y: int| cleared_pixel(start.at(x, y), region@.at(x, y), *settings),
        );
        assert forall|i: int, j: int| img@.contains(i, j) implies img@.at(i, j) == target.at(i, j) by {
            assert(start.contains(i, j));
            assert(target.at(i, j) == cleared_pixel(start.at(i, j), region@.at(i, j), *settings));
        }
        img@.lemma_equal(target);
    }
}

/// Makes the background of the image transparent. The colours of the up to
/// three most frequent colour buckets of the border count as background; a
/// pixel is cleared when it belongs to the dilated mask of pixels close to
/// one of them and is joined to the border inside that mask. Cleared pixels
/// keep their colour.
pub fn remove_background(img: &mut PixelBuffer, settings: &DownscalerSettings)
    ensures
        final(img)@ == background_removed(old(img)@, *settings),
        final(img)@.wf(),
        final(img)@.width == old(img)@.width,
        final(img)@.height == old(img)@.height,
{
    let (width, height) = img.dimensions();
    if settings.bg_removal_mode == BgRemovalMode::Off {
        return ;
    }
    let samples: Vec<[u8; 3]> = sample_edge_colors(img, SAMPLE_BAND);
    let background: Vec<[u8; 3]> = find_background_colors(samples.as_slice(), MAX_BACKGROUND_COLORS);
    let mask: Mask = build_candidate_mask(img, &background, settings);
    let rounds: u32 = if settings.bg_removal_mode == BgRemovalMode::Conservative {
        1
    } else {
        2
    };
    let grown: Mask = dilate_mask(&mask, rounds);
    let region: Mask = flood_from_border(&grown);
    proof {
        lemma_colors(img@);
        lemma_background_region(colors(img@), *settings);
        assert(region@ == background_region(colors(img@), *settings));
        Grid::lemma_from_fn(
            img@.width,
            img@.height,
            |x: int, y: int| cleared_pixel(img@.at(x, y), region@.at(x, y), *settings),
        );
    }
    clear_region(img, &region, settings);
}

/// The background region has the shape of the image.
pub proof fn lemma_background_region(c: Grid<[u8; 3]>, settings: DownscalerSettings)
    ensures
        background_region(c, settings).wf(),
        background_region(c, settings).width == c.width,
        background_region(c, settings).height == c.height,
{
    let background = background_colors(border_samples(c, SAMPLE_BAND as int), MAX_BACKGROUND_COLORS as nat);
    let mask = candidate_mask(c, background, settings);
    Grid::lemma_from_fn(c.width, c.height, |x: int, y: int| is_candidate(c, background, settings, x, y));
    let grown = dilate_times(mask, dilation_rounds(settings.bg_removal_mode));
    lemma_dilate_times(mask, dilation_rounds(settings.bg_removal_mode));
    Grid::lemma_from_fn(grown.width, grown.height, |x: int, y: int| crate::flood::reaches_border(grown, x, y));
}

/// Same as [`remove_background`].
pub fn remove_background_public(img: &mut PixelBuffer, settings: &DownscalerSettings)
    ensures
        final(img)@ == background_removed(old(img)@, *settings),
        final(img)@.wf(),
        final(img)@.width == old(img)@.width,
        final(img)@.height == old(img)@.height,
{
    remove_background(img, settings);
}

/// Removing the background of an image whose background was already removed
/// with the same settings changes nothing: no further pixel is cleared.
pub proof fn lemma_remove_background_idempotent(g: Grid<Pixel>, settings: DownscalerSettings)
    requires
        g.wf(),
    ensures
        background_removed(background_removed(g, settings), settings) == background_removed(g, settings),
{
    if settings.bg_removal_mode != BgRemovalMode::Off {
        let once = background_removed(g, settings);
        let twice = background_removed(once, settings);
        let region = background_region(colors(g), settings);
        Grid::lemma_from_fn(
            g.width,
            g.height,
            |x: int, y: int| cleared_pixel(g.at(x, y), region.at(x, y), settings),
        );
        lemma_colors(g);
        lemma_colors(once);
        colors(once).lemma_equal(colors(g));
        Grid::lemma_from_fn(
            once.width,
            once.height,
            |x: int, y: int| cleared_pixel(once.at(x, y), region.at(x, y), settings),
        );
        twice.lemma_equal(once);
    }
}

/// The background colours of an image.
pub open spec fn image_background(c: Grid<[u8; 3]>) -> Seq<[u8; 3]> {
    background_colors(border_samples(c, SAMPLE_BAND as int), MAX_BACKGROUND_COLORS as nat)
}

/// Removing the background changes no colour, and it changes the alpha of a
/// pixel to 0 or not at all.
pub proof fn lemma_removal_touches_alpha_only(g: Grid<Pixel>, settings: DownscalerSettings)
    requires
        g.wf(),
    ensures
        background_removed(g, settings).wf(),
        background_removed(g, settings).width == g.width,
        background_removed(g, settings).height == g.height,
        forall|x: int, y: int|
            g.contains(x, y) ==> {
                let after = #[trigger] background_removed(g, settings).at(x, y);
                after.color() == g.at(x, y).color() && (after.a == g.at(x, y).a || after.a == 0)
            },
{
    if settings.bg_removal_mode != BgRemovalMode::Off {
        let region = background_region(colors(g), settings);
        Grid::lemma_from_fn(
            g.width,
            g.height,
            |x: int, y: int| cleared_pixel(g.at(x, y), region.at(x, y), settings),
        );
    }
}

/// Where no pixel may be background, removing the background changes
/// nothing.
pub proof fn lemma_nothing_to_remove(g: Grid<Pixel>, settings: DownscalerSettings)
    requires
        g.wf(),
        forall|x: int, y: int|
            g.contains(x, y) ==> !is_candidate(colors(g), image_background(colors(g)), settings, x, y),
    ensures
        background_removed(g, settings) == g,
{
    if settings.bg_removal_mode != BgRemovalMode::Off {
        let c = colors(g);
        lemma_colors(g);
        let mask = candidate_mask(c, image_background(c), settings);
        Grid::lemma_from_fn(c.width, c.height, |x: int, y: int| is_candidate(c, image_background(c), settings, x, y));
        let rounds = dilation_rounds(settings.bg_removal_mode);
        assert forall|x: int, y: int| mask.contains(x, y) implies !mask.at(x, y) by {
            assert(g.contains(x, y));
        }
        lemma_dilate_times(mask, rounds);
        lemma_dilate_times_extremes(mask, rounds);
        assert(dilate_times(mask, rounds) == mask);
        lemma_flood_of_nothing(mask);
        let region = background_region(c, settings);
        assert(region == mask);
        Grid::lemma_from_fn(
            g.width,
            g.height,
            |x: int, y: int| cleared_pixel(g.at(x, y), region.at(x, y), settings),
        );
        background_removed(g, settings).lemma_equal(g);
    }
}

/// Where every pixel may be background, every pixel is cleared but the dark
/// pixels that are kept.
pub proof fn lemma_all_background(g: Grid<Pixel>, settings: DownscalerSettings)
    requires
        g.wf(),
        settings.bg_removal_mode != BgRemovalMode::Off,
        forall|x: int, y: int|
            g.contains(x, y) ==> is_candidate(colors(g), image_background(colors(g)), settings, x, y),
    ensures
        forall|x: int, y: int|
            g.contains(x, y) ==> #[trigger] background_removed(g, settings).at(x, y) == cleared_pixel(
                g.at(x, y),
                true,
                settings,
            ),
{
    let c = colors(g);
    lemma_colors(g);
    let mask = candidate_mask(c, image_background(c), settings);
    Grid::lemma_from_fn(c.width, c.height, |x: int, y: int| is_candidate(c, image_background(c), settings, x, y));
    let rounds = dilation_rounds(settings.bg_removal_mode);
    assert forall|x: int, y: int| mask.contains(x, y) implies mask.at(x, y) by {
        assert(g.contains(x, y));
    }
    lemma_dilate_times(mask, rounds);
    lemma_dilate_times_extremes(mask, rounds);
    assert(dilate_times(mask, rounds) == mask);
    lemma_flood_of_everything(mask);
    let region = background_region(c, settings);
    assert(region == mask);
    Grid::lemma_from_fn(g.width, g.height, |x: int, y: int| cleared_pixel(g.at(x, y), region.at(x, y), settings));
}

} // verus!
