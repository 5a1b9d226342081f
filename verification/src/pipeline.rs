//! The stages of the grid recovery in sequence. The spectrum of the edge
//! profiles is computed between the two halves, by the caller, and comes
//! back as the period hint.

use vstd::prelude::*;
use vstd::arithmetic::div_mod::lemma_div_is_ordered;
use crate::background::{background_removed, cleared_pixel, remove_background};
use crate::canvas::{
    auto_trim,
    can_pad,
    has_content,
    lemma_round_up,
    lemma_trimmed,
    opaque_at,
    pad_to_multiple,
    padded,
    round_up,
    trimmed,
};
use crate::period::PeriodHint;
use crate::raster::{Grid, Pixel, PixelBuffer};
use crate::resample::{cells_along, downsample_with_phase, downsampled, lemma_cell_center};
use crate::search::{
    candidates,
    fallback_scale,
    find_optimal_scale_v4,
    measured,
    selection,
    MAX_SCALE,
    MIN_SCALE,
};
use crate::settings::{BgRemovalMode, DownscaleResult, DownscalerSettings};
use crate::variance::{blocks_along, inner_extent};
use crate::window::{colors, lemma_colors};

verus! {

/// The image as the grid is measured on it: without its background, and
/// trimmed where the settings ask for it.
pub open spec fn prepared(g: Grid<Pixel>, settings: DownscalerSettings) -> Grid<Pixel> {
    if settings.auto_trim {
        trimmed(background_removed(g, settings))
    } else {
        background_removed(g, settings)
    }
}

/// Removes the background and, where the settings ask for it, trims the
/// transparent borders.
pub fn prepare_image(img: PixelBuffer, settings: &DownscalerSettings) -> (out: PixelBuffer)
    ensures
        out@ == prepared(img@, *settings),
        out@.wf(),
        img@.width >= 1 && img@.height >= 1 ==> out@.width <= img@.width && out@.height <= img@.height,
{
    let mut work = img;
    remove_background(&mut work, settings);
    if settings.auto_trim {
        let out = auto_trim(&work);
        proof {
            lemma_trimmed(work@);
        }
        out
    } else {
        work
    }
}

/// The image sampled on the grid that the search selects.
pub open spec fn regridded(g: Grid<Pixel>, hint: Option<PeriodHint>) -> Grid<Pixel> {
    let choice = selection(candidates(colors(g)), hint);
    if choice.0 > 1 {
        downsampled(g, choice.0, choice.1, choice.2)
    } else {
        g
    }
}

/// The output for a prepared image: sampled on the selected grid, and padded
/// where the settings ask for it.
pub open spec fn finished(g: Grid<Pixel>, hint: Option<PeriodHint>, settings: DownscalerSettings) -> Grid<Pixel> {
    if settings.pad_canvas {
        padded(regridded(g, hint), settings.canvas_multiple as int)
    } else {
        regridded(g, hint)
    }
}

/// Rounding up to a multiple keeps the order.
pub proof fn lemma_round_up_ordered(a: int, b: int, m: int)
    requires
        0 <= a <= b,
        1 <= m,
    ensures
        round_up(a, m) <= round_up(b, m),
{
    lemma_div_is_ordered(a + m - 1, b + m - 1, m);
    let qa = (a + m - 1) / m;
    let qb = (b + m - 1) / m;
    assert(qa * m <= qb * m) by (nonlinear_arith)
        requires
            qa <= qb,
            m >= 1,
    ;
}

/// Sampling on a grid never makes a side longer.
pub proof fn lemma_downsampled_size(g: Grid<Pixel>, scale: int, phase_x: int, phase_y: int)
    requires
        g.wf(),
        1 <= scale,
        0 <= phase_x,
        0 <= phase_y,
    ensures
        downsampled(g, scale, phase_x, phase_y).wf(),
        downsampled(g, scale, phase_x, phase_y).width <= g.width,
        downsampled(g, scale, phase_x, phase_y).height <= g.height,
{
    let ow = cells_along(g.width as int, scale, phase_x);
    let oh = cells_along(g.height as int, scale, phase_y);
    if ow > 0 && oh > 0 {
        lemma_cell_center(g.width as int, scale, phase_x, 0);
        lemma_cell_center(g.height as int, scale, phase_y, 0);
        Grid::lemma_from_fn(
            ow as nat,
            oh as nat,
            |x: int, y: int|
                g.at(crate::resample::cell_center(scale, phase_x, x), crate::resample::cell_center(scale, phase_y, y)),
        );
    }
}

/// Finds the grid of a prepared image, samples the image on it, pads the
/// result where the settings ask for it, and reports the sizes and the cell
/// size. `grid_hint` is the period that the spectra of the edge profiles
/// gave, if they gave one; `original_size` is the size of the image before
/// it was prepared.
pub fn downscale_with_hint(
    img: &PixelBuffer,
    grid_hint: Option<PeriodHint>,
    settings: &DownscalerSettings,
    original_size: (u32, u32),
) -> (done: (PixelBuffer, DownscaleResult))
    requires
        grid_hint is Some ==> grid_hint->0.wf(),
        settings.pad_canvas ==> can_pad(img@, settings.canvas_multiple as int),
    ensures
        done.0@ == finished(img@, grid_hint, *settings),
        done.0@.wf(),
        done.1.original_size == original_size,
        done.1.final_size.0 == done.0@.width,
        done.1.final_size.1 == done.0@.height,
        done.1.scale_factor == selection(candidates(colors(img@)), grid_hint).0,
        MIN_SCALE <= done.1.scale_factor <= MAX_SCALE,
        done.1.grid_detected == (grid_hint is Some),
{
    let (width, height) = img.dimensions();
    let choice = find_optimal_scale_v4(img, grid_hint);
    let sampled: PixelBuffer = downsample_with_phase(img, choice.0, choice.1, choice.2);
    proof {
        lemma_downsampled_size(img@, choice.0 as int, choice.1 as int, choice.2 as int);
    }
    let out: PixelBuffer = if settings.pad_canvas {
        proof {
            let m = settings.canvas_multiple as int;
            lemma_round_up_ordered(sampled@.width as int, img@.width as int, m);
            lemma_round_up_ordered(sampled@.height as int, img@.height as int, m);
            lemma_round_up(sampled@.width as int, m);
            lemma_round_up(sampled@.height as int, m);
            assert(round_up(sampled@.width as int, m) * round_up(sampled@.height as int, m) <= round_up(
                img@.width as int,
                m,
            ) * round_up(img@.height as int, m)) by (nonlinear_arith)
                requires
                    0 <= round_up(sampled@.width as int, m) <= round_up(img@.width as int, m),
                    0 <= round_up(sampled@.height as int, m) <= round_up(img@.height as int, m),
            ;
        }
        pad_to_multiple(&sampled, settings.canvas_multiple)
    } else {
        sampled
    };
    let final_size = out.dimensions();
    let result = DownscaleResult {
        original_size,
        final_size,
        scale_factor: choice.0,
        grid_detected: grid_hint.is_some(),
    };
    (out, result)
}

/// Every pixel is fully transparent.
pub open spec fn fully_transparent(g: Grid<Pixel>) -> bool {
    !has_content(g)
}

/// Removing the background makes no pixel visible.
pub proof fn lemma_removal_keeps_transparent(g: Grid<Pixel>, settings: DownscalerSettings)
    requires
        g.wf(),
        fully_transparent(g),
    ensures
        fully_transparent(background_removed(g, settings)),
        background_removed(g, settings).wf(),
{
    if settings.bg_removal_mode != BgRemovalMode::Off {
        let region = crate::background::background_region(colors(g), settings);
        Grid::lemma_from_fn(
            g.width,
            g.height,
            |x: int, y: int| cleared_pixel(g.at(x, y), region.at(x, y), settings),
        );
        let r = background_removed(g, settings);
        assert forall|x: int, y: int| !opaque_at(r, x, y) by {
            if r.contains(x, y) {
                assert(!opaque_at(g, x, y));
            }
        }
    }
}

/// An image of one pixel is too small for any cell size to be measured.
pub proof fn lemma_single_pixel_unmeasured(g: Grid<Pixel>, hint: Option<PeriodHint>)
    requires
        g.wf(),
        g.width == 1,
        g.height == 1,
    ensures
        !measured(candidates(colors(g))),
        regridded(g, hint) == g,
{
    let c = colors(g);
    lemma_colors(g);
    let cands = candidates(c);
    assert forall|i: int| 0 <= i < cands.len() implies !((#[trigger] cands[i]).variance is Some) by {
        let scale = MIN_SCALE + i;
        let p = crate::search::best_phase(c, scale);
        lemma_no_blocks(scale, p.0);
    }
    let choice = selection(cands, hint);
    assert(choice == (fallback_scale(hint), 0int, 0int));
    assert(cells_along(1, choice.0, 0) == 0) by {
        assert(1int / choice.0 == 0) by (nonlinear_arith)
            requires
                choice.0 >= 6,
        ;
    }
}

proof fn lemma_no_blocks(scale: int, phase: int)
    requires
        scale >= 2,
    ensures
        blocks_along(1, scale, phase) == 0,
{
    assert(1int / 6 == 0);
    assert(inner_extent(1) == 1);
    crate::variance::lemma_lead(1, scale, phase);
    let usable = 1 - crate::variance::lead(1, scale, phase);
    if usable > 0 {
        assert(usable == 1);
        assert(1int / scale == 0) by (nonlinear_arith)
            requires
                scale >= 2,
        ;
    }
}

/// A fully transparent image that is trimmed before the grid is measured
/// comes out as a single pixel, whatever the hint; with padding it comes
/// out as one canvas unit.
pub proof fn lemma_transparent_input(g: Grid<Pixel>, hint: Option<PeriodHint>, settings: DownscalerSettings)
    requires
        g.wf(),
        fully_transparent(g),
        settings.auto_trim,
        settings.pad_canvas ==> settings.canvas_multiple >= 1,
    ensures
        prepared(g, settings).width == 1,
        prepared(g, settings).height == 1,
        !settings.pad_canvas ==> finished(prepared(g, settings), hint, settings).width == 1 && finished(
            prepared(g, settings),
            hint,
            settings,
        ).height == 1,
        settings.pad_canvas ==> finished(prepared(g, settings), hint, settings).width == settings.canvas_multiple
            && finished(prepared(g, settings), hint, settings).height == settings.canvas_multiple,
{
    lemma_removal_keeps_transparent(g, settings);
    let r = background_removed(g, settings);
    lemma_trimmed(r);
    let t = prepared(g, settings);
    lemma_single_pixel_unmeasured(t, hint);
    if settings.pad_canvas {
        let m = settings.canvas_multiple as int;
        lemma_round_up(1, m);
        assert(round_up(1, m) == m) by {
            assert((1 + m - 1) / m == 1) by (nonlinear_arith)
                requires
                    m >= 1,
            ;
        }
        Grid::lemma_from_fn(
            m as nat,
            m as nat,
            |x: int, y: int|
                if t.contains(x - crate::canvas::pad_offset(t.width as int, m), y - crate::canvas::pad_offset(
                    t.height as int,
                    m,
                )) {
                    crate::canvas::laid_over_blank(
                        t.at(
                            x - crate::canvas::pad_offset(t.width as int, m),
                            y - crate::canvas::pad_offset(t.height as int, m),
                        ),
                    )
                } else {
                    Pixel::blank()
                },
        );
    }
}

} // verus!
