//! Removal of a backdrop of one colour: the colour that most pixels of the
//! frame of the image are near to, flooded from the border, and the plain
//! clearing of everything near the colour of the first pixel.

use vstd::prelude::*;
use crate::background::is_dark;
use crate::flood::{flood_from_border, flood_region};
use crate::raster::{visited, Grid, Mask, Pixel, PixelBuffer};
use crate::settings::{BgRemovalMode, DownscalerSettings};

verus! {

/// Squared tolerance within which a pixel counts as near the first pixel.
pub const CORNER_TOLERANCE: i32 = 900;

/// The squared distance of the colours of two pixels.
pub open spec fn squared_distance(a: Pixel, b: Pixel) -> int {
    (a.r - b.r) * (a.r - b.r) + (a.g - b.g) * (a.g - b.g) + (a.b - b.b) * (a.b - b.b)
}

fn channel_square(a: u8, b: u8) -> (d: i32)
    ensures
        d == (a - b) * (a - b),
        0 <= d <= 65025,
{
    let gap: i32 = a as i32 - b as i32;
    assert(0 <= gap * gap <= 65025) by (nonlinear_arith)
        requires
            -255 <= gap <= 255,
    ;
    gap * gap
}

/// The squared distance of the colours of two pixels. Alpha does not count.
pub fn color_distance(c1: &Pixel, c2: &Pixel) -> (d: i32)
    ensures
        d == squared_distance(*c1, *c2),
        0 <= d <= 195075,
{
    channel_square(c1.r, c2.r) + channel_square(c1.g, c2.g) + channel_square(c1.b, c2.b)
}

/// The pixels of the frame of the image: for every column the pixel of the
/// first and of the last row, and behind them for every row the pixel of the
/// first and of the last column.
pub open spec fn frame(g: Grid<Pixel>) -> Seq<Pixel> {
    Seq::new(
        2 * g.width + 2 * g.height,
        |i: int|
            if i < 2 * g.width {
                g.at(
                    i / 2,
                    if i % 2 == 0 {
                        0
                    } else {
                        g.height - 1
                    },
                )
            } else {
                g.at(
                    if (i - 2 * g.width) % 2 == 0 {
                        0
                    } else {
                        g.width - 1
                    },
                    (i - 2 * g.width) / 2,
                )
            },
    )
}

/// How many of the first `count` pixels are within `tolerance` of `c`.
pub open spec fn support(pixels: Seq<Pixel>, c: Pixel, tolerance: int, count: int) -> int
    decreases count,
{
    if count <= 0 {
        0
    } else {
        support(pixels, c, tolerance, count - 1) + if squared_distance(c, pixels[count - 1]) < tolerance {
            1int
        } else {
            0int
        }
    }
}

/// Pixel `k` has the most pixels near it, and every later pixel has fewer.
pub open spec fn is_dominant(pixels: Seq<Pixel>, tolerance: int, k: int) -> bool {
    &&& 0 <= k < pixels.len()
    &&& forall|j: int|
        0 <= j < pixels.len() ==> support(pixels, #[trigger] pixels[j], tolerance, pixels.len() as int) <= support(
            pixels,
            pixels[k],
            tolerance,
            pixels.len() as int,
        )
    &&& forall|j: int|
        k < j < pixels.len() ==> support(pixels, #[trigger] pixels[j], tolerance, pixels.len() as int) < support(
            pixels,
            pixels[k],
            tolerance,
            pixels.len() as int,
        )
}

/// The last of the pixels that have the most pixels near them.
pub open spec fn dominant(pixels: Seq<Pixel>, tolerance: int) -> int {
    choose|k: int| is_dominant(pixels, tolerance, k)
}

/// Only one pixel is the dominant one.
pub proof fn lemma_dominant_unique(pixels: Seq<Pixel>, tolerance: int, k: int)
    requires
        is_dominant(pixels, tolerance, k),
    ensures
        dominant(pixels, tolerance) == k,
{
    let d = dominant(pixels, tolerance);
    assert(is_dominant(pixels, tolerance, d));
    let n = pixels.len() as int;
    if d < k {
        assert(support(pixels, pixels[k], tolerance, n) < support(pixels, pixels[d], tolerance, n));
        assert(support(pixels, pixels[k], tolerance, n) <= support(pixels, pixels[k], tolerance, n));
        assert(support(pixels, pixels[d], tolerance, n) <= support(pixels, pixels[k], tolerance, n));
    } else if k < d {
        assert(support(pixels, pixels[d], tolerance, n) < support(pixels, pixels[k], tolerance, n));
        assert(support(pixels, pixels[k], tolerance, n) <= support(pixels, pixels[d], tolerance, n));
    }
}

proof fn lemma_support_bound(pixels: Seq<Pixel>, c: Pixel, tolerance: int, count: int)
    requires
        0 <= count,
    ensures
        0 <= support(pixels, c, tolerance, count) <= count,
    decreases count,
{
    if count > 0 {
        lemma_support_bound(pixels, c, tolerance, count - 1);
    }
}

fn frame_pixels(img: &PixelBuffer) -> (pixels: Vec<Pixel>)
    requires
        img@.width > 0,
        img@.height > 0,
    ensures
        pixels@ == frame(img@),
{
    let (width, height) = img.dimensions();
    let mut pixels: Vec<Pixel> = Vec::new();
    let mut x: u32 = 0;
    while x < width
        invariant
            img@.wf(),
            width == img@.width,
            height == img@.height,
            height > 0,
            x <= width,
            pixels@.len() == 2 * x,
            forall|i: int| 0 <= i < 2 * x ==> #[trigger] pixels@[i] == frame(img@)[i],
        decreases width - x,
    {
        pixels.push(img.get_pixel(x, 0));
        pixels.push(img.get_pixel(x, height - 1));
        x = x + 1;
    }
    let mut y: u32 = 0;
    while y < height
        invariant
            img@.wf(),
            width == img@.width,
            height == img@.height,
            width > 0,
            y <= height,
            pixels@.len() == 2 * width + 2 * y,
            forall|i: int| 0 <= i < 2 * width + 2 * y ==> #[trigger] pixels@[i] == frame(img@)[i],
        decreases height - y,
    {
        pixels.push(img.get_pixel(0, y));
        pixels.push(img.get_pixel(width - 1, y));
        y = y + 1;
    }
    proof {
        assert(pixels@ =~= frame(img@));
    }
    pixels
}

fn count_near(pixels: &Vec<Pixel>, c: &Pixel, tolerance: i32) -> (count: usize)
    ensures
        count == support(pixels@, *c, tolerance as int, pixels@.len() as int),
{
    let mut count: usize = 0;
    let mut i: usize = 0;
    while i < pixels.len()
        invariant
            i <= pixels@.len(),
            count == support(pixels@, *c, tolerance as int, i as int),
            count <= i,
        decreases pixels@.len() - i,
    {
        if color_distance(c, &pixels[i]) < tolerance {
            count = count + 1;
        }
        i = i + 1;
    }
    count
}

/// The pixel that has the most of the pixels within `tolerance` of it, the
/// last one of several.
pub fn dominant_pixel(pixels: &Vec<Pixel>, tolerance: i32) -> (best: usize)
    requires
        pixels@.len() > 0,
    ensures
        is_dominant(pixels@, tolerance as int, best as int),
        best as int == dominant(pixels@, tolerance as int),
{
    let mut best: usize = 0;
    let mut best_count: usize = count_near(pixels, &pixels[0], tolerance);
    let mut k: usize = 1;
    let ghost n = pixels@.len() as int;
    while k < pixels.len()
        invariant
            n == pixels@.len(),
            0 <= best < k <= n,
            best_count == support(pixels@, pixels@[best as int], tolerance as int, n),
            forall|j: int|
                0 <= j < k ==> support(pixels@, #[trigger] pixels@[j], tolerance as int, n) <= best_count,
            forall|j: int|
                best < j < k ==> support(pixels@, #[trigger] pixels@[j], tolerance as int, n) < best_count,
        decreases n - k,
    {
        let here: usize = count_near(pixels, &pixels[k], tolerance);
        if here >= best_count {
            best = k;
            best_count = here;
        }
        k = k + 1;
    }
    proof {
        lemma_dominant_unique(pixels@, tolerance as int, best as int);
    }
    best
}

/// The colour of the backdrop: that of the dominant pixel of the frame under
/// the edge tolerance.
pub open spec fn backdrop(g: Grid<Pixel>, settings: DownscalerSettings) -> Pixel {
    frame(g)[dominant(frame(g), settings.bg_edge_tolerance as int)]
}

/// The pixel belongs to the backdrop: its colour is within the tolerance of
/// the backdrop, and it is not a dark pixel that is to be kept.
pub open spec fn is_backdrop(g: Grid<Pixel>, settings: DownscalerSettings, x: int, y: int) -> bool {
    &&& squared_distance(backdrop(g, settings), g.at(x, y)) < settings.bg_tolerance
    &&& !(settings.preserve_dark_lines && is_dark(g.at(x, y), settings.dark_line_threshold as int))
}

/// The mask of the pixels that belong to the backdrop.
pub open spec fn backdrop_mask(g: Grid<Pixel>, settings: DownscalerSettings) -> Grid<bool> {
    Grid::from_fn(g.width, g.height, |x: int, y: int| is_backdrop(g, settings, x, y))
}

/// The image without its backdrop: the pixels of the backdrop that are
/// joined to the border have lost their opacity.
pub open spec fn backdrop_removed(g: Grid<Pixel>, settings: DownscalerSettings) -> Grid<Pixel> {
    if settings.bg_removal_mode == BgRemovalMode::Off || g.width == 0 || g.height == 0 {
        g
    } else {
        Grid::from_fn(
            g.width,
            g.height,
            |x: int, y: int|
                if flood_region(backdrop_mask(g, settings)).at(x, y) {
                    g.at(x, y).with_alpha(0)
                } else {
                    g.at(x, y)
                },
        )
    }
}

fn clear_where(img: &mut PixelBuffer, region: &Mask)
    requires
        region@.wf(),
        old(img)@.wf(),
        region@.width == old(img)@.width,
        region@.height == old(img)@.height,
    ensures
        final(img)@.wf(),
        final(img)@ == Grid::from_fn(
            old(img)@.width,
            old(img)@.height,
            |x: int, y: int|
                if region@.at(x, y) {
                    old(img)@.at(x, y).with_alpha(0)
                } else {
                    old(img)@.at(x, y)
                },
        ),
{
    let (width, height) = img.dimensions();
    let ghost start = img@;
    let mut y: u32 = 0;
    while y < height
        invariant
            start.wf(),
            img@.wf(),
            region@.wf(),
            width == start.width,
            height == start.height,
            img@.width == width,
            img@.height == height,
            region@.width == width,
            region@.height == height,
            y <= height,
            forall|i: int, j: int|
                start.contains(i, j) ==> img@.at(i, j) == if j < y && region@.at(i, j) {
                    start.at(i, j).with_alpha(0)
                } else {
                    start.at(i, j)
                },
        decreases height - y,
    {
        let mut x: u32 = 0;
        while x < width
            invariant
                start.wf(),
                img@.wf(),
                region@.wf(),
                width == start.width,
                height == start.height,
                img@.width == width,
                img@.height == height,
                region@.width == width,
                region@.height == height,
                y < height,
                x <= width,
                forall|i: int, j: int|
                    start.contains(i, j) ==> img@.at(i, j) == if visited(i, j, x as int, y as int) && region@.at(
                        i,
                        j,
                    ) {
                        start.at(i, j).with_alpha(0)
                    } else {
                        start.at(i, j)
                    },
            decreases width - x,
        {
            if region.get(x, y) {
                let pixel: Pixel = img.get_pixel(x, y);
                let ghost before = img@;
                img.put_pixel(x, y, Pixel::new(pixel.r, pixel.g, pixel.b, 0));
                proof {
                    before.lemma_update(x as int, y as int, pixel.with_alpha(0));
                }
            }
            x = x + 1;
        }
        y = y + 1;
    }
    proof {
        let target = Grid::from_fn(
            start.width,
            start.height,
            |x: int, y: int|
                if region@.at(x, y) {
                    start.at(x, y).with_alpha(0)
                } else {
                    start.at(x, y)
                },
        );
        Grid::lemma_from_fn(
            start.width,
            start.height,
            |x: int, y: int|
                if region@.at(x, y) {
                    start.at(x, y).with_alpha(0)
                } else {
                    start.at(x, y)
                },
        );
        assert forall|i: int, j: int| img@.contains(i, j) implies img@.at(i, j) == target.at(i, j) by {
            assert(start.contains(i, j));
        }
        img@.lemma_equal(target);
    }
}

/// Clears the backdrop of the image: the pixels within the tolerance of the
/// dominant colour of the frame that are joined to the border by such
/// pixels. Dark pixels that are to be kept stop the flood. Distances are
/// squared distances, and the tolerances are compared with them as they are.
pub fn remove_backdrop(img: &mut PixelBuffer, settings: &DownscalerSettings)
    ensures
        final(img)@ == backdrop_removed(old(img)@, *settings),
        final(img)@.wf(),
{
    let (width, height) = img.dimensions();
    if settings.bg_removal_mode == BgRemovalMode::Off || width == 0 || height == 0 {
        return ;
    }
    let ghost g = img@;
    let border: Vec<Pixel> = frame_pixels(img);
    let color: Pixel = border[dominant_pixel(&border, settings.bg_edge_tolerance as i32)];
    let mut mask: Mask = Mask::filled(width, height, false);
    proof {
        Grid::lemma_from_fn(width as nat, height as nat, |x: int, y: int| false);
    }
    let mut y: u32 = 0;
    while y < height
        invariant
            g == img@,
            g.wf(),
            width == g.width,
            height == g.height,
            color == backdrop(g, *settings),
            mask@.wf(),
            mask@.width == width,
            mask@.height == height,
            y <= height,
            forall|i: int, j: int| mask@.contains(i, j) && j < y ==> mask@.at(i, j) == is_backdrop(g, *settings, i, j),
        decreases height - y,
    {
        let mut x: u32 = 0;
        while x < width
            invariant
                g == img@,
                g.wf(),
                width == g.width,
                height == g.height,
                color == backdrop(g, *settings),
                mask@.wf(),
                mask@.width == width,
                mask@.height == height,
                y < height,
                x <= width,
                forall|i: int, j: int|
                    mask@.contains(i, j) && visited(i, j, x as int, y as int) ==> mask@.at(i, j) == is_backdrop(
                        g,
                        *settings,
                        i,
                        j,
                    ),
            decreases width - x,
        {
            let pixel: Pixel = img.get_pixel(x, y);
            let sum: u16 = pixel.r as u16 + pixel.g as u16 + pixel.b as u16;
            let kept: bool = settings.preserve_dark_lines && sum < settings.dark_line_threshold;
            let value: bool = color_distance(&color, &pixel) < settings.bg_tolerance as i32 && !kept;
            let ghost before = mask@;
            mask.set(x, y, value);
            proof {
                before.lemma_update(x as int, y as int, value);
            }
            x = x + 1;
        }
        y = y + 1;
    }
    proof {
        Grid::lemma_from_fn(g.width, g.height, |x: int, y: int| is_backdrop(g, *settings, x, y));
        mask@.lemma_equal(backdrop_mask(g, *settings));
    }
    let region: Mask = flood_from_border(&mask);
    proof {
        Grid::lemma_from_fn(
            mask@.width,
            mask@.height,
            |x: int, y: int| crate::flood::reaches_border(mask@, x, y),
        );
    }
    clear_where(img, &region);
}

/// The image with every pixel cleared whose colour is within a squared
/// distance of 900 of the colour of the first pixel.
pub open spec fn corner_cleared(g: Grid<Pixel>) -> Grid<Pixel> {
    Grid::from_fn(
        g.width,
        g.height,
        |x: int, y: int|
            if squared_distance(g.at(x, y), g.at(0, 0)) < CORNER_TOLERANCE {
                g.at(x, y).with_alpha(0)
            } else {
                g.at(x, y)
            },
    )
}

/// Clears every pixel whose colour is near the colour of the first pixel,
/// wherever it lies.
pub fn clear_corner_color(img: &mut PixelBuffer)
    ensures
        final(img)@ == corner_cleared(old(img)@),
        final(img)@.wf(),
{
    let (width, height) = img.dimensions();
    let ghost g = img@;
    proof {
        Grid::lemma_from_fn(
            g.width,
            g.height,
            |x: int, y: int|
                if squared_distance(g.at(x, y), g.at(0, 0)) < CORNER_TOLERANCE {
                    g.at(x, y).with_alpha(0)
                } else {
                    g.at(x, y)
                },
        );
    }
    if width == 0 || height == 0 {
        proof {
            img@.lemma_equal(corner_cleared(g));
        }
        return ;
    }
    let corner: Pixel = img.get_pixel(0, 0);
    let mut mask: Mask = Mask::filled(width, height, false);
    proof {
        Grid::lemma_from_fn(width as nat, height as nat, |x: int, y: int| false);
    }
    let mut y: u32 = 0;
    while y < height
        invariant
            g == img@,
            g.wf(),
            width == g.width,
            height == g.height,
            corner == g.at(0, 0),
            mask@.wf(),
            mask@.width == width,
            mask@.height == height,
            y <= height,
            forall|i: int, j: int|
                mask@.contains(i, j) && j < y ==> mask@.at(i, j) == (squared_distance(g.at(i, j), g.at(0, 0))
                    < CORNER_TOLERANCE),
        decreases height - y,
    {
        let mut x: u32 = 0;
        while x < width
            invariant
                g == img@,
                g.wf(),
                width == g.width,
                height == g.height,
                corner == g.at(0, 0),
                mask@.wf(),
                mask@.width == width,
                mask@.height == height,
                y < height,
                x <= width,
                forall|i: int, j: int|
                    mask@.contains(i, j) && visited(i, j, x as int, y as int) ==> mask@.at(i, j) == (
                    squared_distance(g.at(i, j), g.at(0, 0)) < CORNER_TOLERANCE),
            decreases width - x,
        {
            let pixel: Pixel = img.get_pixel(x, y);
            let value: bool = color_distance(&pixel, &corner) < CORNER_TOLERANCE;
            let ghost before = mask@;
            mask.set(x, y, value);
            proof {
                before.lemma_update(x as int, y as int, value);
            }
            x = x + 1;
        }
        y = y + 1;
    }
    clear_where(img, &mask);
    proof {
        img@.lemma_equal(corner_cleared(g));
    }
}

} // verus!
