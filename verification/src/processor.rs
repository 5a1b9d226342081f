//! Post-processing of recovered pixel art: the neighbourhood of a pixel and
//! the normalisation of opacity.

use vstd::prelude::*;
use crate::raster::{visited, Grid, Pixel, PixelBuffer};

verus! {

/// Which pixels count as neighbours of a pixel.
#[derive(Debug, Clone, Copy, PartialEq, Eq, Structural)]
pub enum Connectivity {
    /// The pixels that share a side.
    Four,
    /// The pixels that share a side or a corner.
    Eight,
}

/// Thresholds of the opacity normalisation.
#[derive(Debug, Clone, Copy)]
pub struct AlphaSettings {
    /// Alpha below this becomes fully transparent.
    pub low_cutoff: u8,
    /// Lower end of the alpha range that becomes fully opaque.
    pub high_min: u8,
    /// Upper end of the alpha range that becomes fully opaque.
    pub high_max: u8,
}

impl AlphaSettings {
    /// Transparent below 200, opaque from 200 to 255.
    pub open spec fn standard() -> AlphaSettings {
        AlphaSettings { low_cutoff: 200, high_min: 200, high_max: 255 }
    }
}

impl Default for AlphaSettings {
    fn default() -> (settings: Self)
        ensures
            settings == AlphaSettings::standard(),
    {
        AlphaSettings { low_cutoff: 200, high_min: 200, high_max: 255 }
    }
}

/// Options of the outline.
#[derive(Debug, Clone, Copy)]
pub struct OutlineSettings {
    /// Colour of the outline as red, green, blue, alpha.
    pub color: (u8, u8, u8, u8),
    pub connectivity: Connectivity,
    /// How many pixels deep the outline grows into the sprite.
    pub thickness: u32,
    /// Alpha up to this counts as transparent.
    pub edge_transparent_cutoff: u8,
}

impl OutlineSettings {
    /// A dark brown outline of one pixel along the four-connected border.
    pub open spec fn standard() -> OutlineSettings {
        OutlineSettings {
            color: (17u8, 6u8, 2u8, 255u8),
            connectivity: Connectivity::Four,
            thickness: 1,
            edge_transparent_cutoff: 0,
        }
    }
}

impl Default for OutlineSettings {
    fn default() -> (settings: Self)
        ensures
            settings == OutlineSettings::standard(),
    {
        OutlineSettings { color: (17, 6, 2, 255), connectivity: Connectivity::Four, thickness: 1, edge_transparent_cutoff: 0 }
    }
}

/// Counts that a colour merge reports.
#[derive(Debug, Clone, Copy)]
pub struct MergeResult {
    pub unique_colors_before: usize,
    pub unique_colors_after: usize,
    pub clusters_created: usize,
}

/// What the post-processing of one image reports.
#[derive(Debug, Clone, Copy)]
pub struct ProcessorResult {
    pub original_size: (u32, u32),
    pub unique_colors_before: usize,
    pub unique_colors_after: usize,
    pub clusters_created: usize,
}

/// The cell alone where it is present, and nothing otherwise.
pub open spec fn optional(present: bool, cell: (u32, u32)) -> Seq<(u32, u32)> {
    if present {
        seq![cell]
    } else {
        Seq::empty()
    }
}

/// The neighbours that share a side with `(x, y)`: left, right, above,
/// below, as far as they lie inside the grid.
pub open spec fn four_neighbors(x: u32, y: u32, width: u32, height: u32) -> Seq<(u32, u32)> {
    optional(x > 0, ((x - 1) as u32, y)) + optional(x + 1 < width, ((x + 1) as u32, y)) + optional(
        y > 0,
        (x, (y - 1) as u32),
    ) + optional(y + 1 < height, (x, (y + 1) as u32))
}

/// The cells of column `nx` in the rows next to `y`, from top to bottom,
/// without `(x, y)` itself.
pub open spec fn column_neighbors(nx: u32, x: u32, y: u32, height: u32) -> Seq<(u32, u32)> {
    optional(y > 0, (nx, (y - 1) as u32)) + optional(nx != x, (nx, y)) + optional(
        y + 1 < height,
        (nx, (y + 1) as u32),
    )
}

/// The neighbours that share a side or a corner with `(x, y)`, column by
/// column from the left, as far as they lie inside the grid.
pub open spec fn eight_neighbors(x: u32, y: u32, width: u32, height: u32) -> Seq<(u32, u32)> {
    (if x > 0 {
        column_neighbors((x - 1) as u32, x, y, height)
    } else {
        Seq::empty()
    }) + column_neighbors(x, x, y, height) + (if x + 1 < width {
        column_neighbors((x + 1) as u32, x, y, height)
    } else {
        Seq::empty()
    })
}

/// The neighbours of the cell `(x, y)` under the given connectivity.
pub open spec fn neighbors(x: u32, y: u32, width: u32, height: u32, connectivity: Connectivity) -> Seq<(u32, u32)> {
    match connectivity {
        Connectivity::Four => four_neighbors(x, y, width, height),
        Connectivity::Eight => eight_neighbors(x, y, width, height),
    }
}

/// `b` is another cell than `a` and at most one step away on each axis;
/// with four-connectivity, on one axis only.
pub open spec fn near(a: (int, int), b: (int, int), connectivity: Connectivity) -> bool {
    let dx = if a.0 >= b.0 {
        a.0 - b.0
    } else {
        b.0 - a.0
    };
    let dy = if a.1 >= b.1 {
        a.1 - b.1
    } else {
        b.1 - a.1
    };
    match connectivity {
        Connectivity::Four => dx + dy == 1,
        Connectivity::Eight => dx <= 1 && dy <= 1 && dx + dy >= 1,
    }
}

/// `near` for cells of a grid.
pub open spec fn is_neighbor(a: (u32, u32), b: (u32, u32), connectivity: Connectivity) -> bool {
    near((a.0 as int, a.1 as int), (b.0 as int, b.1 as int), connectivity)
}

/// The cell occurs in the list.
pub open spec fn on_list(list: Seq<(u32, u32)>, x: int, y: int) -> bool {
    exists|k: int| 0 <= k < list.len() && (#[trigger] list[k]).0 == x && list[k].1 == y
}

proof fn lemma_on_list_concat(a: Seq<(u32, u32)>, b: Seq<(u32, u32)>, x: int, y: int)
    ensures
        on_list(a + b, x, y) <==> on_list(a, x, y) || on_list(b, x, y),
{
    if on_list(a, x, y) {
        let k = choose|k: int| 0 <= k < a.len() && (#[trigger] a[k]).0 == x && a[k].1 == y;
        assert((a + b)[k] == a[k]);
    }
    if on_list(b, x, y) {
        let k = choose|k: int| 0 <= k < b.len() && (#[trigger] b[k]).0 == x && b[k].1 == y;
        assert((a + b)[a.len() + k] == b[k]);
    }
    if on_list(a + b, x, y) {
        let k = choose|k: int| 0 <= k < (a + b).len() && (#[trigger] (a + b)[k]).0 == x && (a + b)[k].1 == y;
        if k < a.len() {
            assert(a[k] == (a + b)[k]);
        } else {
            assert(b[k - a.len()] == (a + b)[k]);
        }
    }
}

proof fn lemma_on_list_optional(present: bool, cell: (u32, u32), x: int, y: int)
    ensures
        on_list(optional(present, cell), x, y) <==> present && cell.0 == x && cell.1 == y,
{
    if present {
        assert(optional(present, cell)[0] == cell);
    }
}

proof fn lemma_column_neighbors(nx: u32, x: u32, y: u32, height: u32, qx: int, qy: int)
    requires
        y < height,
    ensures
        on_list(column_neighbors(nx, x, y, height), qx, qy) <==> qx == nx && 0 <= qy < height && y - 1 <= qy <= y
            + 1 && !(qx == x && qy == y),
{
    let a = optional(y > 0, (nx, (y - 1) as u32));
    let b = optional(nx != x, (nx, y));
    let c = optional(y + 1 < height, (nx, (y + 1) as u32));
    lemma_on_list_optional(y > 0, (nx, (y - 1) as u32), qx, qy);
    lemma_on_list_optional(nx != x, (nx, y), qx, qy);
    lemma_on_list_optional(y + 1 < height, (nx, (y + 1) as u32), qx, qy);
    lemma_on_list_concat(a, b, qx, qy);
    lemma_on_list_concat(a + b, c, qx, qy);
}

/// The neighbours of a cell are exactly the cells of the grid that are near
/// it.
pub proof fn lemma_neighbors(x: u32, y: u32, width: u32, height: u32, connectivity: Connectivity, qx: int, qy: int)
    requires
        x < width,
        y < height,
    ensures
        on_list(neighbors(x, y, width, height, connectivity), qx, qy) <==> 0 <= qx < width && 0 <= qy < height
            && near((x as int, y as int), (qx, qy), connectivity),
{
    match connectivity {
        Connectivity::Four => {
            let a = optional(x > 0, ((x - 1) as u32, y));
            let b = optional(x + 1 < width, ((x + 1) as u32, y));
            let c = optional(y > 0, (x, (y - 1) as u32));
            let d = optional(y + 1 < height, (x, (y + 1) as u32));
            lemma_on_list_optional(x > 0, ((x - 1) as u32, y), qx, qy);
            lemma_on_list_optional(x + 1 < width, ((x + 1) as u32, y), qx, qy);
            lemma_on_list_optional(y > 0, (x, (y - 1) as u32), qx, qy);
            lemma_on_list_optional(y + 1 < height, (x, (y + 1) as u32), qx, qy);
            lemma_on_list_concat(a, b, qx, qy);
            lemma_on_list_concat(a + b, c, qx, qy);
            lemma_on_list_concat(a + b + c, d, qx, qy);
        },
        Connectivity::Eight => {
            let a = if x > 0 {
                column_neighbors((x - 1) as u32, x, y, height)
            } else {
                Seq::empty()
            };
            let b = column_neighbors(x, x, y, height);
            let c = if x + 1 < width {
                column_neighbors((x + 1) as u32, x, y, height)
            } else {
                Seq::empty()
            };
            if x > 0 {
                lemma_column_neighbors((x - 1) as u32, x, y, height, qx, qy);
            }
            lemma_column_neighbors(x, x, y, height, qx, qy);
            if x + 1 < width {
                lemma_column_neighbors((x + 1) as u32, x, y, height, qx, qy);
            }
            lemma_on_list_concat(a, b, qx, qy);
            lemma_on_list_concat(a + b, c, qx, qy);
        },
    }
}

fn push_column(out: &mut Vec<(u32, u32)>, nx: u32, x: u32, y: u32, height: u32)
    requires
        y < height,
    ensures
        final(out)@ == old(out)@ + column_neighbors(nx, x, y, height),
{
    let ghost start = out@;
    if y > 0 {
        out.push((nx, y - 1));
    }
    if nx != x {
        out.push((nx, y));
    }
    if y < height - 1 {
        out.push((nx, y + 1));
    }
    proof {
        assert(out@ =~= start + column_neighbors(nx, x, y, height));
    }
}

/// The neighbours of the cell `(x, y)` of a `width` by `height` grid.
pub fn get_neighbors(x: u32, y: u32, width: u32, height: u32, connectivity: &Connectivity) -> (found: Vec<(u32, u32)>)
    requires
        x < width,
        y < height,
    ensures
        found@ == neighbors(x, y, width, height, *connectivity),
        forall|i: int|
            0 <= i < found@.len() ==> (#[trigger] found@[i]).0 < width && found@[i].1 < height && is_neighbor(
                (x, y),
                found@[i],
                *connectivity,
            ),
        forall|qx: int, qy: int|
            0 <= qx < width && 0 <= qy < height && near((x as int, y as int), (qx, qy), *connectivity) ==> on_list(
                found@,
                qx,
                qy,
            ),
        *connectivity == Connectivity::Four ==> found@.len() <= 4,
        *connectivity == Connectivity::Eight ==> found@.len() <= 8,
        0 < x && x + 1 < width && 0 < y && y + 1 < height ==> found@.len() == match *connectivity {
            Connectivity::Four => 4nat,
            Connectivity::Eight => 8nat,
        },
{
    let mut found: Vec<(u32, u32)> = Vec::new();
    match connectivity {
        Connectivity::Four => {
            if x > 0 {
                found.push((x - 1, y));
            }
            if x < width - 1 {
                found.push((x + 1, y));
            }
            if y > 0 {
                found.push((x, y - 1));
            }
            if y < height - 1 {
                found.push((x, y + 1));
            }
            proof {
                assert(found@ =~= four_neighbors(x, y, width, height));
            }
        },
        Connectivity::Eight => {
            if x > 0 {
                push_column(&mut found, x - 1, x, y, height);
            }
            push_column(&mut found, x, x, y, height);
            if x < width - 1 {
                push_column(&mut found, x + 1, x, y, height);
            }
            proof {
                assert(found@ =~= eight_neighbors(x, y, width, height));
            }
        },
    }
    proof {
        assert forall|i: int| 0 <= i < found@.len() implies (#[trigger] found@[i]).0 < width && found@[i].1 < height
            && is_neighbor((x, y), found@[i], *connectivity) by {
            lemma_neighbors(x, y, width, height, *connectivity, found@[i].0 as int, found@[i].1 as int);
        }
        assert forall|qx: int, qy: int|
            0 <= qx < width && 0 <= qy < height && near((x as int, y as int), (qx, qy), *connectivity)
            implies on_list(found@, qx, qy) by {
            lemma_neighbors(x, y, width, height, *connectivity, qx, qy);
        }
    }
    found
}

/// The alpha value after normalisation: 0 below the cutoff, 255 inside the
/// opaque range, and unchanged elsewhere.
pub open spec fn normalized_alpha(a: u8, settings: AlphaSettings) -> u8 {
    if a < settings.low_cutoff {
        0
    } else if settings.high_min <= a <= settings.high_max {
        255
    } else {
        a
    }
}

/// The image with every alpha value normalised.
pub open spec fn alpha_normalized(g: Grid<Pixel>, settings: AlphaSettings) -> Grid<Pixel> {
    Grid::from_fn(
        g.width,
        g.height,
        |x: int, y: int| g.at(x, y).with_alpha(normalized_alpha(g.at(x, y).a, settings)),
    )
}

/// Makes pixels below the cutoff fully transparent and pixels in the opaque
/// range fully opaque. Colours stay as they are.
pub fn normalize_alpha(img: &mut PixelBuffer, settings: &AlphaSettings)
    ensures
        final(img)@ == alpha_normalized(old(img)@, *settings),
        final(img)@.wf(),
{
    let (width, height) = img.dimensions();
    let ghost start = img@;
    let mut y: u32 = 0;
    while y < height
        invariant
            start.wf(),
            img@.wf(),
            width == start.width,
            height == start.height,
            img@.width == width,
            img@.height == height,
            y <= height,
            forall|i: int, j: int|
                start.contains(i, j) ==> img@.at(i, j) == if j < y {
                    start.at(i, j).with_alpha(normalized_alpha(start.at(i, j).a, *settings))
                } else {
                    start.at(i, j)
                },
        decreases height - y,
    {
        let mut x: u32 = 0;
        while x < width
            invariant
                start.wf(),
                img@.wf(),
                width == start.width,
                height == start.height,
                img@.width == width,
                img@.height == height,
                y < height,
                x <= width,
                forall|i: int, j: int|
                    start.contains(i, j) ==> img@.at(i, j) == if visited(i, j, x as int, y as int) {
                        start.at(i, j).with_alpha(normalized_alpha(start.at(i, j).a, *settings))
                    } else {
                        start.at(i, j)
                    },
            decreases width - x,
        {
            let pixel: Pixel = img.get_pixel(x, y);
            let alpha: u8 = if pixel.a < settings.low_cutoff {
                0
            } else if pixel.a >= settings.high_min && pixel.a <= settings.high_max {
                255
            } else {
                pixel.a
            };
            let ghost before = img@;
            img.put_pixel(x, y, Pixel::new(pixel.r, pixel.g, pixel.b, alpha));
            proof {
                before.lemma_update(x as int, y as int, pixel.with_alpha(alpha));
            }
            x = x + 1;
        }
        y = y + 1;
    }
    proof {
        let target = alpha_normalized(start, *settings);
        Grid::lemma_from_fn(
            start.width,
            start.height,
            |x: int, y: int| start.at(x, y).with_alpha(normalized_alpha(start.at(x, y).a, *settings)),
        );
        assert forall|i: int, j: int| img@.contains(i, j) implies img@.at(i, j) == target.at(i, j) by {
            assert(start.contains(i, j));
        }
        img@.lemma_equal(target);
    }
}

/// Normalising twice with the same thresholds gives the same image as
/// normalising once.
pub proof fn lemma_normalize_alpha_idempotent(g: Grid<Pixel>, settings: AlphaSettings)
    requires
        g.wf(),
    ensures
        alpha_normalized(alpha_normalized(g, settings), settings) == alpha_normalized(g, settings),
{
    let once = alpha_normalized(g, settings);
    let twice = alpha_normalized(once, settings);
    Grid::lemma_from_fn(
        g.width,
        g.height,
        |x: int, y: int| g.at(x, y).with_alpha(normalized_alpha(g.at(x, y).a, settings)),
    );
    Grid::lemma_from_fn(
        once.width,
        once.height,
        |x: int, y: int| once.at(x, y).with_alpha(normalized_alpha(once.at(x, y).a, settings)),
    );
    twice.lemma_equal(once);
}

} // verus!
