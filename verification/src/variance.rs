//! The block variance of an image for a trial grid: how far the pixels of
//! each grid cell are from being of one colour.

use vstd::prelude::*;
use vstd::arithmetic::div_mod::lemma_fundamental_div_mod;
use crate::raster::{Grid, PixelBuffer};
use crate::ratio::Ratio;
use crate::stats::{constant, lemma_dispersion_sign};
use crate::window::{
    channel,
    colors,
    dispersion3,
    lemma_channel_bounds,
    lemma_colors,
    lemma_rect_len,
    rect,
    rect_dispersion,
};

verus! {

/// Largest cell size for which the sums fit the machine integers.
pub const MAX_BLOCK: u32 = 65535;

/// The part of a side that is measured: the side without a sixth at each
/// end.
pub open spec fn inner_extent(extent: int) -> int {
    extent - 2 * (extent / 6)
}

/// Distance from the margin to the first boundary of the grid behind it:
/// the boundaries of a grid with offset `phase` lie at `phase` plus the
/// multiples of `scale`.
pub open spec fn lead(extent: int, scale: int, phase: int) -> int {
    (phase % scale + scale - (extent / 6) % scale) % scale
}

/// How many whole cells of the grid fit into the measured part of a side.
pub open spec fn blocks_along(extent: int, scale: int, phase: int) -> int {
    let usable = inner_extent(extent) - lead(extent, scale, phase);
    if usable <= 0 {
        0
    } else {
        usable / scale
    }
}

/// Where cell number `k` begins along a side.
pub open spec fn block_origin(extent: int, scale: int, phase: int, k: int) -> int {
    extent / 6 + lead(extent, scale, phase) + k * scale
}

/// The colours of the cell in column `bx` and row `by` of the trial grid.
pub open spec fn block_cells(c: Grid<[u8; 3]>, scale: int, phase_x: int, phase_y: int, bx: int, by: int) -> Seq<
    [u8; 3],
> {
    let x0 = block_origin(c.width as int, scale, phase_x, bx);
    let y0 = block_origin(c.height as int, scale, phase_y, by);
    rect(c, x0, x0 + scale, y0, y0 + scale)
}

/// Sum of the dispersions of the first `count` cells of row `by`.
pub open spec fn row_dispersion(c: Grid<[u8; 3]>, scale: int, phase_x: int, phase_y: int, by: int, count: int) -> int
    decreases count,
{
    if count <= 0 {
        0
    } else {
        row_dispersion(c, scale, phase_x, phase_y, by, count - 1) + dispersion3(
            block_cells(c, scale, phase_x, phase_y, count - 1, by),
        )
    }
}

/// Sum of the dispersions of all cells in the first `rows` rows.
pub open spec fn grid_dispersion(c: Grid<[u8; 3]>, scale: int, phase_x: int, phase_y: int, rows: int) -> int
    decreases rows,
{
    if rows <= 0 {
        0
    } else {
        grid_dispersion(c, scale, phase_x, phase_y, rows - 1) + row_dispersion(
            c,
            scale,
            phase_x,
            phase_y,
            rows - 1,
            blocks_along(c.width as int, scale, phase_x),
        )
    }
}

/// The variance of the colours inside the cells of the trial grid, averaged
/// over the cells and the three channels, or nothing where fewer than two
/// cells fit along a side. A cell of `n = scale^2` pixels with dispersion
/// `d` has variance `d / (3 n^2)`.
pub open spec fn block_variance(c: Grid<[u8; 3]>, scale: int, phase_x: int, phase_y: int) -> Option<Ratio> {
    let nx = blocks_along(c.width as int, scale, phase_x);
    let ny = blocks_along(c.height as int, scale, phase_y);
    if nx < 2 || ny < 2 {
        None
    } else {
        Some(
            Ratio {
                num: grid_dispersion(c, scale, phase_x, phase_y, ny) as u128,
                den: (3 * ((scale * scale) * (scale * scale)) * (nx * ny)) as u128,
            },
        )
    }
}

/// The lead is less than a cell, and behind it the margin is on a boundary
/// of the grid: the cells that are measured are cells of the grid with
/// offset `phase`.
pub proof fn lemma_lead(extent: int, scale: int, phase: int)
    requires
        1 <= scale,
    ensures
        0 <= lead(extent, scale, phase) < scale,
        (extent / 6 + lead(extent, scale, phase)) % scale == phase % scale,
{
    let m = extent / 6;
    let a = phase % scale + scale - m % scale;
    lemma_fundamental_div_mod(m, scale);
    lemma_fundamental_div_mod(a, scale);
    lemma_fundamental_div_mod(phase, scale);
    // m + lead = scale * (m / scale) + m % scale + a - scale * (a / scale)
    //          = phase % scale + scale * (m / scale + 1 - a / scale)
    let q = m / scale + 1 - a / scale;
    assert(m + lead(extent, scale, phase) == scale * q + phase % scale) by (nonlinear_arith)
        requires
            m == scale * (m / scale) + m % scale,
            a == scale * (a / scale) + lead(extent, scale, phase),
            a == phase % scale + scale - m % scale,
            q == m / scale + 1 - a / scale,
    ;
    vstd::arithmetic::div_mod::lemma_fundamental_div_mod_converse(
        m + lead(extent, scale, phase),
        scale,
        q,
        phase % scale,
    );
}

/// Every cell of the trial grid lies in the measured part of its side.
pub proof fn lemma_block_fits(extent: int, scale: int, phase: int, k: int)
    requires
        0 <= extent,
        1 <= scale,
        0 <= phase,
        0 <= k < blocks_along(extent, scale, phase),
    ensures
        extent / 6 <= block_origin(extent, scale, phase, k),
        block_origin(extent, scale, phase, k) + scale <= extent - extent / 6,
        extent - extent / 6 <= extent,
        blocks_along(extent, scale, phase) * scale <= extent,
{
    let usable = inner_extent(extent) - lead(extent, scale, phase);
    let n = usable / scale;
    lemma_lead(extent, scale, phase);
    lemma_fundamental_div_mod(usable, scale);
    assert(n * scale <= usable) by (nonlinear_arith)
        requires
            usable == scale * n + usable % scale,
            0 <= usable % scale,
    ;
    assert((k + 1) * scale <= n * scale) by (nonlinear_arith)
        requires
            k + 1 <= n,
            scale >= 1,
    ;
    assert((k + 1) * scale == k * scale + scale) by (nonlinear_arith);
    assert(k * scale >= 0) by (nonlinear_arith)
        requires
            k >= 0,
            scale >= 1,
    ;
}

/// The number of cells along a side times the cell size stays within the side.
pub proof fn lemma_blocks_along(extent: int, scale: int, phase: int)
    requires
        0 <= extent,
        1 <= scale,
        0 <= phase,
    ensures
        0 <= blocks_along(extent, scale, phase),
        blocks_along(extent, scale, phase) * scale <= extent,
{
    let usable = inner_extent(extent) - lead(extent, scale, phase);
    lemma_lead(extent, scale, phase);
    if usable > 0 {
        let n = usable / scale;
        lemma_fundamental_div_mod(usable, scale);
        assert(n * scale <= usable && n >= 0) by (nonlinear_arith)
            requires
                usable == scale * n + usable % scale,
                0 <= usable % scale < scale,
                usable > 0,
        ;
    }
}

/// The dispersion of a cell lies between 0 and `3 * 255^2 * n^2`.
pub proof fn lemma_block_bound(c: Grid<[u8; 3]>, scale: int, phase_x: int, phase_y: int, bx: int, by: int)
    requires
        c.wf(),
        1 <= scale,
        0 <= phase_x,
        0 <= phase_y,
        0 <= bx < blocks_along(c.width as int, scale, phase_x),
        0 <= by < blocks_along(c.height as int, scale, phase_y),
    ensures
        block_cells(c, scale, phase_x, phase_y, bx, by).len() == scale * scale,
        0 <= dispersion3(block_cells(c, scale, phase_x, phase_y, bx, by)) <= 195075 * ((scale * scale) * (scale
            * scale)),
{
    let cells = block_cells(c, scale, phase_x, phase_y, bx, by);
    let x0 = block_origin(c.width as int, scale, phase_x, bx);
    let y0 = block_origin(c.height as int, scale, phase_y, by);
    lemma_block_fits(c.width as int, scale, phase_x, bx);
    lemma_block_fits(c.height as int, scale, phase_y, by);
    lemma_rect_len(c, x0, x0 + scale, y0, y0 + scale);
    lemma_channel_bounds(cells, 0);
    lemma_channel_bounds(cells, 1);
    lemma_channel_bounds(cells, 2);
    let n = cells.len() as int;
    assert(n == scale * scale);
    assert(3 * (n * n * 65025) == 195075 * ((scale * scale) * (scale * scale))) by (nonlinear_arith)
        requires
            n == scale * scale,
    ;
}

proof fn lemma_row_bound(c: Grid<[u8; 3]>, scale: int, phase_x: int, phase_y: int, by: int, count: int)
    requires
        c.wf(),
        1 <= scale,
        0 <= phase_x,
        0 <= phase_y,
        0 <= count <= blocks_along(c.width as int, scale, phase_x),
        0 <= by < blocks_along(c.height as int, scale, phase_y),
    ensures
        0 <= row_dispersion(c, scale, phase_x, phase_y, by, count) <= count * (195075 * ((scale * scale) * (scale
            * scale))),
    decreases count,
{
    if count > 0 {
        lemma_row_bound(c, scale, phase_x, phase_y, by, count - 1);
        lemma_block_bound(c, scale, phase_x, phase_y, count - 1, by);
        let b = 195075 * ((scale * scale) * (scale * scale));
        assert((count - 1) * b + b == count * b) by (nonlinear_arith);
    }
}

proof fn lemma_grid_bound(c: Grid<[u8; 3]>, scale: int, phase_x: int, phase_y: int, rows: int)
    requires
        c.wf(),
        1 <= scale,
        0 <= phase_x,
        0 <= phase_y,
        0 <= rows <= blocks_along(c.height as int, scale, phase_y),
    ensures
        0 <= grid_dispersion(c, scale, phase_x, phase_y, rows) <= rows * (blocks_along(
            c.width as int,
            scale,
            phase_x,
        ) * (195075 * ((scale * scale) * (scale * scale)))),
    decreases rows,
{
    if rows > 0 {
        lemma_grid_bound(c, scale, phase_x, phase_y, rows - 1);
        lemma_blocks_along(c.width as int, scale, phase_x);
        lemma_row_bound(c, scale, phase_x, phase_y, rows - 1, blocks_along(c.width as int, scale, phase_x));
        let b = blocks_along(c.width as int, scale, phase_x) * (195075 * ((scale * scale) * (scale * scale)));
        assert((rows - 1) * b + b == rows * b) by (nonlinear_arith);
    }
}

/// With `nx * scale` and `ny * scale` below `2^32` and `scale` below `2^16`,
/// the sums over all cells stay far below `2^128`.
proof fn lemma_sums_fit(nx: int, ny: int, scale: int)
    requires
        0 <= nx,
        0 <= ny,
        1 <= scale <= 65535,
        nx * scale <= 0xFFFF_FFFF,
        ny * scale <= 0xFFFF_FFFF,
    ensures
        scale * scale <= 0xFFFF_FFFF,
        nx * ny >= 0,
        (scale * scale) * (scale * scale) <= 0xFFFF_FFFF * 0xFFFF_FFFF,
        ny * (nx * (195075 * ((scale * scale) * (scale * scale)))) <= 195075 * (0xFFFF_FFFF * 0xFFFF_FFFF
            * 0xFFFF_FFFF),
        3 * ((scale * scale) * (scale * scale)) * (nx * ny) <= 3 * (0xFFFF_FFFF * 0xFFFF_FFFF * 0xFFFF_FFFF),
        nx <= 0xFFFF_FFFF,
        ny <= 0xFFFF_FFFF,
        nx * ny <= 0xFFFF_FFFF * 0xFFFF_FFFF,
{
    let a = nx * scale;
    let b = ny * scale;
    let s2 = scale * scale;
    assert(s2 <= 65535 * 65535) by (nonlinear_arith)
        requires
            s2 == scale * scale,
            1 <= scale <= 65535,
    ;
    assert(nx <= a && ny <= b) by (nonlinear_arith)
        requires
            a == nx * scale,
            b == ny * scale,
            nx >= 0,
            ny >= 0,
            scale >= 1,
    ;
    assert(nx * ny >= 0 && nx * ny <= 0xFFFF_FFFF * 0xFFFF_FFFF) by (nonlinear_arith)
        requires
            0 <= nx <= 0xFFFF_FFFF,
            0 <= ny <= 0xFFFF_FFFF,
    ;
    assert(s2 * s2 <= 0xFFFF_FFFF * 0xFFFF_FFFF) by (nonlinear_arith)
        requires
            0 <= s2 <= 0xFFFF_FFFF,
    ;
    assert((s2 * s2) * (nx * ny) == (a * b) * s2) by (nonlinear_arith)
        requires
            a == nx * scale,
            b == ny * scale,
            s2 == scale * scale,
    ;
    assert((a * b) * s2 <= 0xFFFF_FFFF * 0xFFFF_FFFF * 0xFFFF_FFFF) by (nonlinear_arith)
        requires
            0 <= a <= 0xFFFF_FFFF,
            0 <= b <= 0xFFFF_FFFF,
            0 <= s2 <= 0xFFFF_FFFF,
    ;
    assert(ny * (nx * (195075 * (s2 * s2))) == 195075 * ((s2 * s2) * (nx * ny))) by (nonlinear_arith);
    assert(3 * (s2 * s2) * (nx * ny) == 3 * ((s2 * s2) * (nx * ny))) by (nonlinear_arith);
}

fn grid_lead(extent: u32, scale: u32, phase: u32) -> (adj: u32)
    requires
        1 <= scale <= MAX_BLOCK,
    ensures
        adj == lead(extent as int, scale as int, phase as int),
        adj < scale,
{
    (phase % scale + scale - (extent / 6) % scale) % scale
}

fn count_blocks(extent: u32, scale: u32, phase: u32) -> (count: u32)
    requires
        1 <= scale <= MAX_BLOCK,
    ensures
        count == blocks_along(extent as int, scale as int, phase as int),
        count * scale <= extent,
{
    let margin: u32 = extent / 6;
    let inner: u32 = extent - 2 * margin;
    let adj: u32 = grid_lead(extent, scale, phase);
    proof {
        lemma_blocks_along(extent as int, scale as int, phase as int);
    }
    if inner <= adj {
        0
    } else {
        (inner - adj) / scale
    }
}

/// The block variance of the image for the grid with cells of `scale` by
/// `scale` pixels whose boundaries lie at `phase_x` and `phase_y` plus the
/// multiples of `scale`. Only the cells that lie in the inner two thirds of
/// each side are measured.
pub fn calculate_block_variance(img: &PixelBuffer, scale: u32, phase_x: u32, phase_y: u32) -> (variance: Option<
    Ratio,
>)
    requires
        1 <= scale <= MAX_BLOCK,
    ensures
        variance == block_variance(colors(img@), scale as int, phase_x as int, phase_y as int),
        variance is Some ==> variance->0.wf() && variance->0.num <= u128::MAX / 2,
{
    let (width, height) = img.dimensions();
    let ghost c = colors(img@);
    let ghost s = scale as int;
    let ghost px = phase_x as int;
    let ghost py = phase_y as int;
    proof {
        lemma_colors(img@);
    }
    let nx: u32 = count_blocks(width, scale, phase_x);
    let ny: u32 = count_blocks(height, scale, phase_y);
    if nx < 2 || ny < 2 {
        return None;
    }
    let left: u32 = width / 6 + grid_lead(width, scale, phase_x);
    let top: u32 = height / 6 + grid_lead(height, scale, phase_y);
    proof {
        lemma_sums_fit(nx as int, ny as int, s);
        lemma_block_fits(width as int, s, px, 0);
        lemma_block_fits(height as int, s, py, 0);
        assert(0 * s == 0);
    }
    let mut total: u128 = 0;
    let mut by: u32 = 0;
    while by < ny
        invariant
            img@.wf(),
            c == colors(img@),
            c.wf(),
            c.width == width,
            c.height == height,
            width == img@.width,
            height == img@.height,
            s == scale,
            px == phase_x,
            py == phase_y,
            1 <= scale <= MAX_BLOCK,
            nx == blocks_along(width as int, s, px),
            ny == blocks_along(height as int, s, py),
            nx * scale <= 0xFFFF_FFFF,
            ny * scale <= 0xFFFF_FFFF,
            left == width / 6 + lead(width as int, s, px),
            top == height / 6 + lead(height as int, s, py),
            by <= ny,
            total == grid_dispersion(c, s, px, py, by as int),
        decreases ny - by,
    {
        proof {
            lemma_block_fits(height as int, s, py, by as int);
            assert(by * scale >= 0) by (nonlinear_arith)
                requires
                    by >= 0,
                    scale >= 1,
            ;
        }
        let y0: u32 = top + by * scale;
        let mut row: u128 = 0;
        let mut bx: u32 = 0;
        while bx < nx
            invariant
                img@.wf(),
                c == colors(img@),
                c.wf(),
                c.width == width,
                c.height == height,
                width == img@.width,
                height == img@.height,
                s == scale,
                px == phase_x,
                py == phase_y,
                1 <= scale <= MAX_BLOCK,
                nx == blocks_along(width as int, s, px),
                ny == blocks_along(height as int, s, py),
                nx * scale <= 0xFFFF_FFFF,
                ny * scale <= 0xFFFF_FFFF,
                left == width / 6 + lead(width as int, s, px),
                by < ny,
                y0 == block_origin(height as int, s, py, by as int),
                y0 + scale <= height,
                bx <= nx,
                row == row_dispersion(c, s, px, py, by as int, bx as int),
            decreases nx - bx,
        {
            proof {
                lemma_block_fits(width as int, s, px, bx as int);
                assert(bx * scale >= 0) by (nonlinear_arith)
                    requires
                        bx >= 0,
                        scale >= 1,
                ;
                lemma_sums_fit(nx as int, ny as int, s);
                lemma_row_bound(c, s, px, py, by as int, bx as int + 1);
                lemma_row_bound(c, s, px, py, by as int, bx as int);
                lemma_block_bound(c, s, px, py, bx as int, by as int);
                lemma_grid_bound(c, s, px, py, by as int + 1);
                lemma_grid_bound(c, s, px, py, ny as int);
                lemma_row_bound(c, s, px, py, by as int, nx as int);
                let b = 195075 * ((s * s) * (s * s));
                assert((bx + 1) * b <= nx * b) by (nonlinear_arith)
                    requires
                        bx + 1 <= nx,
                        b >= 0,
                ;
                assert(nx * b <= ny * (nx * b)) by (nonlinear_arith)
                    requires
                        ny >= 1,
                        nx * b >= 0,
                ;
            }
            let x0: u32 = left + bx * scale;
            let d: u128 = rect_dispersion(img, x0, x0 + scale, y0, y0 + scale);
            row = row + d;
            bx = bx + 1;
        }
        proof {
            lemma_sums_fit(nx as int, ny as int, s);
            lemma_grid_bound(c, s, px, py, by as int + 1);
            let b = nx * (195075 * ((s * s) * (s * s)));
            lemma_row_bound(c, s, px, py, by as int, nx as int);
            assert((by + 1) * b <= ny * b) by (nonlinear_arith)
                requires
                    by + 1 <= ny,
                    b >= 0,
            ;
        }
        total = total + row;
        by = by + 1;
    }
    proof {
        lemma_sums_fit(nx as int, ny as int, s);
        lemma_grid_bound(c, s, px, py, ny as int);
        assert(3 * ((s * s) * (s * s)) * (nx * ny) > 0) by (nonlinear_arith)
            requires
                s >= 1,
                nx >= 2,
                ny >= 2,
        ;
    }
    let s2: u128 = (scale as u128) * (scale as u128);
    let cells: u128 = (nx as u128) * (ny as u128);
    let den: u128 = 3 * (s2 * s2) * cells;
    Some(Ratio { num: total, den })
}

/// All colours of the sequence are the same.
pub open spec fn single_color(cells: Seq<[u8; 3]>) -> bool {
    forall|i: int, j: int| 0 <= i < cells.len() && 0 <= j < cells.len() ==> cells[i] == cells[j]
}

/// Every cell of the trial grid is of one colour.
pub open spec fn cells_uniform(c: Grid<[u8; 3]>, scale: int, phase_x: int, phase_y: int) -> bool {
    forall|bx: int, by: int|
        0 <= bx < blocks_along(c.width as int, scale, phase_x) && 0 <= by < blocks_along(
            c.height as int,
            scale,
            phase_y,
        ) ==> single_color(#[trigger] block_cells(c, scale, phase_x, phase_y, bx, by))
}

/// The dispersion of a sequence of colours is zero exactly when the colours
/// are all the same, and positive otherwise.
pub proof fn lemma_dispersion3_zero(cells: Seq<[u8; 3]>)
    ensures
        dispersion3(cells) >= 0,
        dispersion3(cells) == 0 <==> single_color(cells),
{
    lemma_dispersion_sign(channel(cells, 0));
    lemma_dispersion_sign(channel(cells, 1));
    lemma_dispersion_sign(channel(cells, 2));
    if dispersion3(cells) == 0 {
        assert forall|i: int, j: int| 0 <= i < cells.len() && 0 <= j < cells.len() implies cells[i] == cells[j] by {
            assert(channel(cells, 0)[i] == channel(cells, 0)[j]);
            assert(channel(cells, 1)[i] == channel(cells, 1)[j]);
            assert(channel(cells, 2)[i] == channel(cells, 2)[j]);
            assert(cells[i]@ =~= cells[j]@);
        }
    }
    if single_color(cells) {
        assert forall|k: int| 0 <= k < 3 implies constant(#[trigger] channel(cells, k)) by {
            assert forall|i: int, j: int|
                0 <= i < channel(cells, k).len() && 0 <= j < channel(cells, k).len() implies channel(cells, k)[i]
                == channel(cells, k)[j] by {
                assert(cells[i] == cells[j]);
            }
        }
        assert(constant(channel(cells, 0)));
        assert(constant(channel(cells, 1)));
        assert(constant(channel(cells, 2)));
    }
}

proof fn lemma_row_zero(c: Grid<[u8; 3]>, scale: int, phase_x: int, phase_y: int, by: int, count: int)
    requires
        0 <= count,
    ensures
        row_dispersion(c, scale, phase_x, phase_y, by, count) >= 0,
        row_dispersion(c, scale, phase_x, phase_y, by, count) == 0 <==> (forall|bx: int|
            0 <= bx < count ==> single_color(#[trigger] block_cells(c, scale, phase_x, phase_y, bx, by))),
    decreases count,
{
    if count > 0 {
        lemma_row_zero(c, scale, phase_x, phase_y, by, count - 1);
        lemma_dispersion3_zero(block_cells(c, scale, phase_x, phase_y, count - 1, by));
        if row_dispersion(c, scale, phase_x, phase_y, by, count) == 0 {
            assert forall|bx: int| 0 <= bx < count implies single_color(
                #[trigger] block_cells(c, scale, phase_x, phase_y, bx, by),
            ) by {
                if bx < count - 1 {
                }
            }
        }
    }
}

proof fn lemma_grid_zero(c: Grid<[u8; 3]>, scale: int, phase_x: int, phase_y: int, rows: int)
    requires
        0 <= rows,
        0 <= blocks_along(c.width as int, scale, phase_x),
    ensures
        grid_dispersion(c, scale, phase_x, phase_y, rows) >= 0,
        grid_dispersion(c, scale, phase_x, phase_y, rows) == 0 <==> (forall|bx: int, by: int|
            0 <= bx < blocks_along(c.width as int, scale, phase_x) && 0 <= by < rows ==> single_color(
                #[trigger] block_cells(c, scale, phase_x, phase_y, bx, by),
            )),
    decreases rows,
{
    if rows > 0 {
        let nx = blocks_along(c.width as int, scale, phase_x);
        lemma_grid_zero(c, scale, phase_x, phase_y, rows - 1);
        lemma_row_zero(c, scale, phase_x, phase_y, rows - 1, nx);
        if grid_dispersion(c, scale, phase_x, phase_y, rows) == 0 {
            assert forall|bx: int, by: int| 0 <= bx < nx && 0 <= by < rows implies single_color(
                #[trigger] block_cells(c, scale, phase_x, phase_y, bx, by),
            ) by {
                if by < rows - 1 {
                }
            }
        }
    }
}

/// Where the trial grid can be measured, its block variance is zero exactly
/// when every cell is of one colour; a single cell of two colours makes it
/// positive.
pub proof fn lemma_block_variance_zero(c: Grid<[u8; 3]>, scale: int, phase_x: int, phase_y: int)
    requires
        c.wf(),
        c.width <= u32::MAX,
        c.height <= u32::MAX,
        1 <= scale <= MAX_BLOCK,
        0 <= phase_x,
        0 <= phase_y,
        block_variance(c, scale, phase_x, phase_y) is Some,
    ensures
        block_variance(c, scale, phase_x, phase_y)->0.wf(),
        block_variance(c, scale, phase_x, phase_y)->0.num <= u128::MAX / 2,
        block_variance(c, scale, phase_x, phase_y)->0.num == 0 <==> cells_uniform(c, scale, phase_x, phase_y),
{
    let nx = blocks_along(c.width as int, scale, phase_x);
    let ny = blocks_along(c.height as int, scale, phase_y);
    lemma_blocks_along(c.width as int, scale, phase_x);
    lemma_blocks_along(c.height as int, scale, phase_y);
    lemma_sums_fit(nx, ny, scale);
    lemma_grid_bound(c, scale, phase_x, phase_y, ny);
    lemma_grid_zero(c, scale, phase_x, phase_y, ny);
    assert(3 * ((scale * scale) * (scale * scale)) * (nx * ny) > 0) by (nonlinear_arith)
        requires
            scale >= 1,
            nx >= 2,
            ny >= 2,
    ;
}

} // verus!
