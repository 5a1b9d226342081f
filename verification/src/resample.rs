//! Phase-aware resampling: one output pixel for each grid cell, taken from
//! the centre of the cell.

use vstd::prelude::*;
use vstd::arithmetic::div_mod::lemma_fundamental_div_mod;
use crate::raster::{visited, Grid, Pixel, PixelBuffer};

verus! {

/// How many whole cells of size `scale` fit into a side behind the offset
/// `phase`.
pub open spec fn cells_along(extent: int, scale: int, phase: int) -> int {
    if extent <= phase {
        0
    } else {
        (extent - phase) / scale
    }
}

/// Where the centre of cell number `k` lies along a side.
pub open spec fn cell_center(scale: int, phase: int, k: int) -> int {
    phase + k * scale + scale / 2
}

/// The image sampled at the centres of the cells of the grid, or the image
/// itself where not even one cell fits along a side.
pub open spec fn downsampled(g: Grid<Pixel>, scale: int, phase_x: int, phase_y: int) -> Grid<Pixel> {
    let out_width = cells_along(g.width as int, scale, phase_x);
    let out_height = cells_along(g.height as int, scale, phase_y);
    if out_width <= 0 || out_height <= 0 {
        g
    } else {
        Grid::from_fn(
            out_width as nat,
            out_height as nat,
            |x: int, y: int| g.at(cell_center(scale, phase_x, x), cell_center(scale, phase_y, y)),
        )
    }
}

/// The centre of every cell that fits lies inside the side, and no more
/// cells fit than the side has pixels.
pub proof fn lemma_cell_center(extent: int, scale: int, phase: int, k: int)
    requires
        0 <= extent,
        1 <= scale,
        0 <= phase,
        0 <= k < cells_along(extent, scale, phase),
    ensures
        0 <= phase + k * scale,
        cell_center(scale, phase, k) < extent,
        cells_along(extent, scale, phase) <= extent,
{
    let room = extent - phase;
    let n = room / scale;
    lemma_fundamental_div_mod(room, scale);
    assert(n * scale <= room) by (nonlinear_arith)
        requires
            room == scale * n + room % scale,
            0 <= room % scale,
    ;
    assert((k + 1) * scale <= n * scale) by (nonlinear_arith)
        requires
            k + 1 <= n,
            scale >= 1,
    ;
    assert((k + 1) * scale == k * scale + scale) by (nonlinear_arith);
    assert(k * scale >= 0) by (nonlinear_arith)
        requires
            k >= 0,
            scale >= 1,
    ;
    assert(n <= n * scale) by (nonlinear_arith)
        requires
            n >= 0,
            scale >= 1,
    ;
}

fn count_cells(extent: u32, scale: u32, phase: u32) -> (count: u32)
    requires
        scale >= 1,
    ensures
        count == cells_along(extent as int, scale as int, phase as int),
        count <= extent,
{
    if extent <= phase {
        0
    } else {
        proof {
            if (extent - phase) / (scale as int) > 0 {
                lemma_cell_center(extent as int, scale as int, phase as int, 0);
            }
        }
        (extent - phase) / scale
    }
}

/// Samples the image at the centres of the cells of a grid with cells of
/// `scale` by `scale` pixels that begins at `(phase_x, phase_y)`. The result
/// has one pixel for each whole cell. Where not even one cell fits along a
/// side, the result is a copy of the image.
pub fn downsample_with_phase(img: &PixelBuffer, scale: u32, phase_x: u32, phase_y: u32) -> (out: PixelBuffer)
    requires
        scale >= 1,
    ensures
        out@ == downsampled(img@, scale as int, phase_x as int, phase_y as int),
        out@.wf(),
{
    let (width, height) = img.dimensions();
    let out_width: u32 = count_cells(width, scale, phase_x);
    let out_height: u32 = count_cells(height, scale, phase_y);
    if out_width == 0 || out_height == 0 {
        return img.duplicate();
    }
    proof {
        assert(out_width * out_height <= width * height) by (nonlinear_arith)
            requires
                0 <= out_width <= width,
                0 <= out_height <= height,
        ;
    }
    let mut out: PixelBuffer = PixelBuffer::new(out_width, out_height);
    let half: u32 = scale / 2;
    let ghost s = scale as int;
    let ghost px = phase_x as int;
    let ghost py = phase_y as int;
    proof {
        Grid::lemma_from_fn(out_width as nat, out_height as nat, |x: int, y: int| Pixel::blank());
    }
    let mut y: u32 = 0;
    while y < out_height
        invariant
            img@.wf(),
            width == img@.width,
            height == img@.height,
            scale >= 1,
            s == scale,
            px == phase_x,
            py == phase_y,
            half == scale / 2,
            out_width == cells_along(width as int, s, px),
            out_height == cells_along(height as int, s, py),
            out@.wf(),
            out@.width == out_width,
            out@.height == out_height,
            y <= out_height,
            forall|i: int, j: int|
                out@.contains(i, j) && j < y ==> out@.at(i, j) == img@.at(
                    cell_center(s, px, i),
                    cell_center(s, py, j),
                ),
        decreases out_height - y,
    {
        proof {
            lemma_cell_center(height as int, s, py, y as int);
        }
        let src_y: u32 = phase_y + y * scale + half;
        let mut x: u32 = 0;
        while x < out_width
            invariant
                img@.wf(),
                width == img@.width,
                height == img@.height,
                scale >= 1,
                s == scale,
                px == phase_x,
                py == phase_y,
                half == scale / 2,
                out_width == cells_along(width as int, s, px),
                out_height == cells_along(height as int, s, py),
                out@.wf(),
                out@.width == out_width,
                out@.height == out_height,
                y < out_height,
                x <= out_width,
                src_y == cell_center(s, py, y as int),
                src_y < height,
                forall|i: int, j: int|
                    out@.contains(i, j) && visited(i, j, x as int, y as int) ==> out@.at(i, j) == img@.at(
                        cell_center(s, px, i),
                        cell_center(s, py, j),
                    ),
            decreases out_width - x,
        {
            proof {
                lemma_cell_center(width as int, s, px, x as int);
            }
            let src_x: u32 = phase_x + x * scale + half;
            let pixel: Pixel = img.get_pixel(src_x, src_y);
            let ghost before = out@;
            out.put_pixel(x, y, pixel);
            proof {
                before.lemma_update(x as int, y as int, pixel);
            }
            x = x + 1;
        }
        y = y + 1;
    }
    proof {
        let target = downsampled(img@, s, px, py);
        Grid::lemma_from_fn(
            out_width as nat,
            out_height as nat,
            |x: int, y: int| img@.at(cell_center(s, px, x), cell_center(s, py, y)),
        );
        out@.lemma_equal(target);
    }
    out
}

} // verus!
