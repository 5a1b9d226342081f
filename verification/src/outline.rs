//! The outline of a sprite: the pixels along its border, grown inward to a
//! given thickness and painted in one colour.

use vstd::prelude::*;
use crate::processor::{get_neighbors, near, on_list, Connectivity, OutlineSettings};
use crate::raster::{visited, Grid, Mask, Pixel, PixelBuffer};

verus! {

/// The pixel lies inside the image and its alpha is above the cutoff.
pub open spec fn solid(g: Grid<Pixel>, cutoff: u8, x: int, y: int) -> bool {
    g.contains(x, y) && g.at(x, y).a > cutoff
}

/// A neighbour of the pixel inside the image has an alpha up to the cutoff.
pub open spec fn has_clear_neighbor(g: Grid<Pixel>, settings: OutlineSettings, x: int, y: int) -> bool {
    exists|nx: int, ny: int|
        g.contains(nx, ny) && #[trigger] near((x, y), (nx, ny), settings.connectivity) && g.at(nx, ny).a
            <= settings.edge_transparent_cutoff
}

/// A solid pixel beside a pixel that is not solid. The outside of the image
/// does not count.
pub open spec fn is_border_pixel(g: Grid<Pixel>, settings: OutlineSettings, x: int, y: int) -> bool {
    solid(g, settings.edge_transparent_cutoff, x, y) && has_clear_neighbor(g, settings, x, y)
}

/// The mask of the border pixels.
pub open spec fn border_mask(g: Grid<Pixel>, settings: OutlineSettings) -> Grid<bool> {
    Grid::from_fn(g.width, g.height, |x: int, y: int| is_border_pixel(g, settings, x, y))
}

/// A neighbour of the cell is set in the mask.
pub open spec fn touches(m: Grid<bool>, connectivity: Connectivity, x: int, y: int) -> bool {
    exists|nx: int, ny: int| m.contains(nx, ny) && m.at(nx, ny) && #[trigger] near((x, y), (nx, ny), connectivity)
}

/// The mask with the solid pixels beside it added.
pub open spec fn thickened(m: Grid<bool>, g: Grid<Pixel>, settings: OutlineSettings) -> Grid<bool> {
    Grid::from_fn(
        m.width,
        m.height,
        |x: int, y: int|
            m.at(x, y) || (solid(g, settings.edge_transparent_cutoff, x, y) && touches(
                m,
                settings.connectivity,
                x,
                y,
            )),
    )
}

/// The outline of thickness `depth`: the border pixels, thickened `depth - 1`
/// times.
pub open spec fn outline_mask(g: Grid<Pixel>, settings: OutlineSettings, depth: nat) -> Grid<bool>
    decreases depth,
{
    if depth <= 1 {
        border_mask(g, settings)
    } else {
        thickened(outline_mask(g, settings, (depth - 1) as nat), g, settings)
    }
}

/// The colour of the outline as a pixel.
pub open spec fn outline_pixel(settings: OutlineSettings) -> Pixel {
    Pixel { r: settings.color.0, g: settings.color.1, b: settings.color.2, a: settings.color.3 }
}

/// The image with its outline painted.
pub open spec fn outlined(g: Grid<Pixel>, settings: OutlineSettings) -> Grid<Pixel> {
    if settings.thickness == 0 {
        g
    } else {
        Grid::from_fn(
            g.width,
            g.height,
            |x: int, y: int|
                if outline_mask(g, settings, settings.thickness as nat).at(x, y) {
                    outline_pixel(settings)
                } else {
                    g.at(x, y)
                },
        )
    }
}

/// The outline has the shape of the image.
pub proof fn lemma_outline_mask(g: Grid<Pixel>, settings: OutlineSettings, depth: nat)
    ensures
        outline_mask(g, settings, depth).wf(),
        outline_mask(g, settings, depth).width == g.width,
        outline_mask(g, settings, depth).height == g.height,
    decreases depth,
{
    if depth <= 1 {
        Grid::lemma_from_fn(g.width, g.height, |x: int, y: int| is_border_pixel(g, settings, x, y));
    } else {
        let m = outline_mask(g, settings, (depth - 1) as nat);
        lemma_outline_mask(g, settings, (depth - 1) as nat);
        Grid::lemma_from_fn(
            m.width,
            m.height,
            |x: int, y: int|
                m.at(x, y) || (solid(g, settings.edge_transparent_cutoff, x, y) && touches(
                    m,
                    settings.connectivity,
                    x,
                    y,
                )),
        );
    }
}

/// Every solid neighbour of the cell is set in the mask.
spec fn covered(m: Grid<bool>, g: Grid<Pixel>, settings: OutlineSettings, x: int, y: int) -> bool {
    forall|nx: int, ny: int|
        solid(g, settings.edge_transparent_cutoff, nx, ny) && #[trigger] near((x, y), (nx, ny), settings.connectivity)
            ==> m.at(nx, ny)
}

/// Every set cell that is not on the list has all its solid neighbours set.
spec fn closed(m: Grid<bool>, g: Grid<Pixel>, settings: OutlineSettings, list: Seq<(u32, u32)>) -> bool {
    forall|x: int, y: int|
        m.contains(x, y) && #[trigger] m.at(x, y) && !on_list(list, x, y) ==> covered(m, g, settings, x, y)
}

/// Every cell on the list is a set cell of the mask.
spec fn listed(m: Grid<bool>, list: Seq<(u32, u32)>) -> bool {
    forall|k: int|
        0 <= k < list.len() ==> m.contains((#[trigger] list[k]).0 as int, list[k].1 as int) && m.at(
            list[k].0 as int,
            list[k].1 as int,
        )
}

/// One of the first `count` cells of the list is near the cell.
spec fn reached(list: Seq<(u32, u32)>, count: int, connectivity: Connectivity, x: int, y: int) -> bool {
    exists|k: int| 0 <= k < count && near(((#[trigger] list[k]).0 as int, list[k].1 as int), (x, y), connectivity)
}

spec fn same_shape(m: Grid<bool>, g: Grid<Pixel>) -> bool {
    m.wf() && g.wf() && m.width == g.width && m.height == g.height
}

proof fn lemma_near_symmetric(a: (int, int), b: (int, int), connectivity: Connectivity)
    ensures
        near(a, b, connectivity) == near(b, a, connectivity),
{
}

/// A mask in which every set cell has all its solid neighbours set does not
/// grow any more.
proof fn lemma_stable(g: Grid<Pixel>, settings: OutlineSettings, from: nat, to: nat)
    requires
        g.wf(),
        1 <= from <= to,
        closed(outline_mask(g, settings, from), g, settings, Seq::empty()),
    ensures
        outline_mask(g, settings, to) == outline_mask(g, settings, from),
    decreases to - from,
{
    if to > from {
        lemma_stable(g, settings, from, (to - 1) as nat);
        let m = outline_mask(g, settings, from);
        lemma_outline_mask(g, settings, from);
        let t = thickened(m, g, settings);
        Grid::lemma_from_fn(
            m.width,
            m.height,
            |x: int, y: int|
                m.at(x, y) || (solid(g, settings.edge_transparent_cutoff, x, y) && touches(
                    m,
                    settings.connectivity,
                    x,
                    y,
                )),
        );
        assert forall|x: int, y: int| t.contains(x, y) implies t.at(x, y) == m.at(x, y) by {
            if solid(g, settings.edge_transparent_cutoff, x, y) && touches(m, settings.connectivity, x, y) {
                let (nx, ny) = choose|nx: int, ny: int|
                    m.contains(nx, ny) && m.at(nx, ny) && #[trigger] near((x, y), (nx, ny), settings.connectivity);
                assert(!on_list(Seq::empty(), nx, ny));
                assert(covered(m, g, settings, nx, ny));
                lemma_near_symmetric((x, y), (nx, ny), settings.connectivity);
                assert(near((nx, ny), (x, y), settings.connectivity));
            }
        }
        t.lemma_equal(m);
    }
}

fn clear_beside(img: &PixelBuffer, x: u32, y: u32, settings: &OutlineSettings) -> (clear: bool)
    requires
        img@.contains(x as int, y as int),
    ensures
        clear == has_clear_neighbor(img@, *settings, x as int, y as int),
{
    let (width, height) = img.dimensions();
    let beside = get_neighbors(x, y, width, height, &settings.connectivity);
    let mut i: usize = 0;
    while i < beside.len()
        invariant
            img@.wf(),
            width == img@.width,
            height == img@.height,
            i <= beside@.len(),
            forall|k: int|
                0 <= k < beside@.len() ==> (#[trigger] beside@[k]).0 < width && beside@[k].1 < height && near(
                    (x as int, y as int),
                    (beside@[k].0 as int, beside@[k].1 as int),
                    settings.connectivity,
                ),
            forall|k: int|
                0 <= k < i ==> img@.at((#[trigger] beside@[k]).0 as int, beside@[k].1 as int).a
                    > settings.edge_transparent_cutoff,
        decreases beside@.len() - i,
    {
        let cell = beside[i];
        if img.get_pixel(cell.0, cell.1).a <= settings.edge_transparent_cutoff {
            assert(near((x as int, y as int), (cell.0 as int, cell.1 as int), settings.connectivity));
            return true;
        }
        i = i + 1;
    }
    proof {
        assert forall|nx: int, ny: int|
            img@.contains(nx, ny) && #[trigger] near((x as int, y as int), (nx, ny), settings.connectivity)
            implies img@.at(nx, ny).a > settings.edge_transparent_cutoff by {
            assert(on_list(beside@, nx, ny));
            let k = choose|k: int| 0 <= k < beside@.len() && (#[trigger] beside@[k]).0 == nx && beside@[k].1 == ny;
            assert(img@.at(beside@[k].0 as int, beside@[k].1 as int).a > settings.edge_transparent_cutoff);
        }
    }
    false
}

fn find_border(img: &PixelBuffer, settings: &OutlineSettings) -> (found: (Mask, Vec<(u32, u32)>))
    ensures
        found.0@ == border_mask(img@, *settings),
        same_shape(found.0@, img@),
        listed(found.0@, found.1@),
        closed(found.0@, img@, *settings, found.1@),
{
    let (width, height) = img.dimensions();
    let mut mask: Mask = Mask::filled(width, height, false);
    let mut frontier: Vec<(u32, u32)> = Vec::new();
    proof {
        Grid::lemma_from_fn(width as nat, height as nat, |x: int, y: int| false);
    }
    let mut y: u32 = 0;
    while y < height
        invariant
            width == img@.width,
            height == img@.height,
            same_shape(mask@, img@),
            y <= height,
            listed(mask@, frontier@),
            forall|i: int, j: int|
                mask@.contains(i, j) ==> mask@.at(i, j) == (j < y && is_border_pixel(img@, *settings, i, j)),
            forall|i: int, j: int| mask@.contains(i, j) && #[trigger] mask@.at(i, j) ==> on_list(frontier@, i, j),
        decreases height - y,
    {
        let mut x: u32 = 0;
        while x < width
            invariant
                width == img@.width,
                height == img@.height,
                same_shape(mask@, img@),
                y < height,
                x <= width,
                listed(mask@, frontier@),
                forall|i: int, j: int|
                    mask@.contains(i, j) ==> mask@.at(i, j) == (visited(i, j, x as int, y as int) && is_border_pixel(
                        img@,
                        *settings,
                        i,
                        j,
                    )),
                forall|i: int, j: int|
                    mask@.contains(i, j) && #[trigger] mask@.at(i, j) ==> on_list(frontier@, i, j),
            decreases width - x,
        {
            if img.get_pixel(x, y).a > settings.edge_transparent_cutoff && clear_beside(img, x, y, settings) {
                let ghost m0 = mask@;
                let ghost f0 = frontier@;
                mask.set(x, y, true);
                frontier.push((x, y));
                proof {
                    m0.lemma_update(x as int, y as int, true);
                    let f1 = frontier@;
                    assert forall|k: int| 0 <= k < f1.len() implies mask@.contains(
                        (#[trigger] f1[k]).0 as int,
                        f1[k].1 as int,
                    ) && mask@.at(f1[k].0 as int, f1[k].1 as int) by {
                        if k < f0.len() {
                            assert(f1[k] == f0[k]);
                            assert(m0.at(f0[k].0 as int, f0[k].1 as int));
                        }
                    }
                    assert forall|i: int, j: int| mask@.contains(i, j) && #[trigger] mask@.at(i, j) implies on_list(
                        f1,
                        i,
                        j,
                    ) by {
                        if i == x && j == y {
                            assert(f1[f0.len() as int].0 == i && f1[f0.len() as int].1 == j);
                        } else {
                            assert(m0.at(i, j));
                            let k = choose|k: int| 0 <= k < f0.len() && (#[trigger] f0[k]).0 == i && f0[k].1 == j;
                            assert(f1[k] == f0[k]);
                        }
                    }
                }
            }
            x = x + 1;
        }
        y = y + 1;
    }
    proof {
        Grid::lemma_from_fn(img@.width, img@.height, |x: int, y: int| is_border_pixel(img@, *settings, x, y));
        mask@.lemma_equal(border_mask(img@, *settings));
    }
    (mask, frontier)
}

/// Adds the solid neighbours of the cells on the list to the mask and lists
/// the cells that were added.
fn grow(img: &PixelBuffer, mask: &mut Mask, frontier: &Vec<(u32, u32)>, settings: &OutlineSettings) -> (added: Vec<
    (u32, u32),
>)
    requires
        same_shape(old(mask)@, img@),
        listed(old(mask)@, frontier@),
        closed(old(mask)@, img@, *settings, frontier@),
    ensures
        final(mask)@ == thickened(old(mask)@, img@, *settings),
        same_shape(final(mask)@, img@),
        listed(final(mask)@, added@),
        closed(final(mask)@, img@, *settings, added@),
{
    let (width, height) = img.dimensions();
    let ghost g = img@;
    let ghost m0 = mask@;
    let ghost conn = settings.connectivity;
    let cutoff: u8 = settings.edge_transparent_cutoff;
    let mut added: Vec<(u32, u32)> = Vec::new();
    let mut i: usize = 0;
    while i < frontier.len()
        invariant
            g == img@,
            m0 == old(mask)@,
            conn == settings.connectivity,
            cutoff == settings.edge_transparent_cutoff,
            width == g.width,
            height == g.height,
            same_shape(m0, g),
            same_shape(mask@, g),
            listed(m0, frontier@),
            i <= frontier@.len(),
            listed(mask@, added@),
            forall|x: int, y: int| m0.contains(x, y) && m0.at(x, y) ==> #[trigger] mask@.at(x, y),
            forall|x: int, y: int|
                mask@.contains(x, y) && #[trigger] mask@.at(x, y) && !m0.at(x, y) ==> solid(g, cutoff, x, y)
                    && on_list(added@, x, y) && reached(frontier@, i as int, conn, x, y),
            forall|k: int|
                0 <= k < i ==> covered(mask@, g, *settings, (#[trigger] frontier@[k]).0 as int, frontier@[k].1 as int),
        decreases frontier@.len() - i,
    {
        let cell = frontier[i];
        let beside = get_neighbors(cell.0, cell.1, width, height, &settings.connectivity);
        let mut j: usize = 0;
        while j < beside.len()
            invariant
                g == img@,
                m0 == old(mask)@,
                conn == settings.connectivity,
                cutoff == settings.edge_transparent_cutoff,
                width == g.width,
                height == g.height,
                same_shape(m0, g),
                same_shape(mask@, g),
                listed(m0, frontier@),
                i < frontier@.len(),
                cell == frontier@[i as int],
                j <= beside@.len(),
                forall|k: int|
                    0 <= k < beside@.len() ==> (#[trigger] beside@[k]).0 < width && beside@[k].1 < height && near(
                        (cell.0 as int, cell.1 as int),
                        (beside@[k].0 as int, beside@[k].1 as int),
                        conn,
                    ),
                listed(mask@, added@),
                forall|x: int, y: int| m0.contains(x, y) && m0.at(x, y) ==> #[trigger] mask@.at(x, y),
                forall|x: int, y: int|
                    mask@.contains(x, y) && #[trigger] mask@.at(x, y) && !m0.at(x, y) ==> solid(g, cutoff, x, y)
                        && on_list(added@, x, y) && reached(frontier@, i as int + 1, conn, x, y),
                forall|k: int|
                    0 <= k < i ==> covered(
                        mask@,
                        g,
                        *settings,
                        (#[trigger] frontier@[k]).0 as int,
                        frontier@[k].1 as int,
                    ),
                forall|k: int|
                    0 <= k < j && solid(g, cutoff, (#[trigger] beside@[k]).0 as int, beside@[k].1 as int)
                        ==> mask@.at(beside@[k].0 as int, beside@[k].1 as int),
            decreases beside@.len() - j,
        {
            let next = beside[j];
            if img.get_pixel(next.0, next.1).a > cutoff && !mask.get(next.0, next.1) {
                let ghost m1 = mask@;
                let ghost a1 = added@;
                mask.set(next.0, next.1, true);
                added.push(next);
                proof {
                    let m2 = mask@;
                    let a2 = added@;
                    m1.lemma_update(next.0 as int, next.1 as int, true);
                    assert forall|k: int| 0 <= k < a2.len() implies m2.contains(
                        (#[trigger] a2[k]).0 as int,
                        a2[k].1 as int,
                    ) && m2.at(a2[k].0 as int, a2[k].1 as int) by {
                        if k < a1.len() {
                            assert(a2[k] == a1[k]);
                            assert(m1.at(a1[k].0 as int, a1[k].1 as int));
                        }
                    }
                    assert forall|x: int, y: int|
                        m2.contains(x, y) && #[trigger] m2.at(x, y) && !m0.at(x, y) implies solid(g, cutoff, x, y)
                        && on_list(a2, x, y) && reached(frontier@, i as int + 1, conn, x, y) by {
                        if x == next.0 && y == next.1 {
                            assert(a2[a1.len() as int].0 == x && a2[a1.len() as int].1 == y);
                            assert(near(
                                (frontier@[i as int].0 as int, frontier@[i as int].1 as int),
                                (x, y),
                                conn,
                            ));
                        } else {
                            assert(m1.at(x, y));
                            let k = choose|k: int| 0 <= k < a1.len() && (#[trigger] a1[k]).0 == x && a1[k].1 == y;
                            assert(a2[k] == a1[k]);
                        }
                    }
                    assert forall|k: int| 0 <= k < i implies covered(
                        m2,
                        g,
                        *settings,
                        (#[trigger] frontier@[k]).0 as int,
                        frontier@[k].1 as int,
                    ) by {
                        lemma_covered_grows(m1, m2, g, *settings, frontier@[k].0 as int, frontier@[k].1 as int);
                    }
                }
            } else {
                proof {
                    assert forall|x: int, y: int|
                        mask@.contains(x, y) && #[trigger] mask@.at(x, y) && !m0.at(x, y) implies reached(
                        frontier@,
                        i as int + 1,
                        conn,
                        x,
                        y,
                    ) by {
                    }
                }
            }
            j = j + 1;
        }
        proof {
            assert forall|nx: int, ny: int|
                solid(g, cutoff, nx, ny) && #[trigger] near((cell.0 as int, cell.1 as int), (nx, ny), conn)
                implies mask@.at(nx, ny) by {
                assert(on_list(beside@, nx, ny));
                let k = choose|k: int| 0 <= k < beside@.len() && (#[trigger] beside@[k]).0 == nx && beside@[k].1 == ny;
                assert(solid(g, cutoff, beside@[k].0 as int, beside@[k].1 as int));
            }
            assert(covered(mask@, g, *settings, frontier@[i as int].0 as int, frontier@[i as int].1 as int));
        }
        i = i + 1;
    }
    proof {
        let m = mask@;
        let t = thickened(m0, g, *settings);
        Grid::lemma_from_fn(
            m0.width,
            m0.height,
            |x: int, y: int| m0.at(x, y) || (solid(g, cutoff, x, y) && touches(m0, conn, x, y)),
        );
        assert forall|x: int, y: int| m.contains(x, y) implies m.at(x, y) == t.at(x, y) by {
            if m.at(x, y) && !m0.at(x, y) {
                assert(reached(frontier@, i as int, conn, x, y));
                let k = choose|k: int|
                    0 <= k < i && near(((#[trigger] frontier@[k]).0 as int, frontier@[k].1 as int), (x, y), conn);
                lemma_near_symmetric((x, y), (frontier@[k].0 as int, frontier@[k].1 as int), conn);
                assert(m0.contains(frontier@[k].0 as int, frontier@[k].1 as int));
                assert(touches(m0, conn, x, y));
            }
            if solid(g, cutoff, x, y) && touches(m0, conn, x, y) {
                let (nx, ny) = choose|nx: int, ny: int|
                    m0.contains(nx, ny) && m0.at(nx, ny) && #[trigger] near((x, y), (nx, ny), conn);
                lemma_near_symmetric((x, y), (nx, ny), conn);
                assert(near((nx, ny), (x, y), conn));
                if on_list(frontier@, nx, ny) {
                    let k = choose|k: int|
                        0 <= k < frontier@.len() && (#[trigger] frontier@[k]).0 == nx && frontier@[k].1 == ny;
                    assert(covered(m, g, *settings, frontier@[k].0 as int, frontier@[k].1 as int));
                } else {
                    assert(covered(m0, g, *settings, nx, ny));
                    assert(m0.at(x, y));
                }
            }
        }
        m.lemma_equal(t);
        assert forall|x: int, y: int| m.contains(x, y) && #[trigger] m.at(x, y) && !on_list(added@, x, y)
            implies covered(m, g, *settings, x, y) by {
            assert(m0.at(x, y));
            if on_list(frontier@, x, y) {
                let k = choose|k: int|
                    0 <= k < frontier@.len() && (#[trigger] frontier@[k]).0 == x && frontier@[k].1 == y;
                assert(covered(m, g, *settings, frontier@[k].0 as int, frontier@[k].1 as int));
            } else {
                assert(covered(m0, g, *settings, x, y));
                lemma_covered_grows(m0, m, g, *settings, x, y);
            }
        }
    }
    added
}

proof fn lemma_covered_grows(m0: Grid<bool>, m1: Grid<bool>, g: Grid<Pixel>, settings: OutlineSettings, x: int, y: int)
    requires
        same_shape(m0, g),
        same_shape(m1, g),
        covered(m0, g, settings, x, y),
        forall|i: int, j: int| m0.contains(i, j) && m0.at(i, j) ==> #[trigger] m1.at(i, j),
    ensures
        covered(m1, g, settings, x, y),
{
    assert forall|nx: int, ny: int|
        solid(g, settings.edge_transparent_cutoff, nx, ny) && #[trigger] near((x, y), (nx, ny), settings.connectivity)
        implies m1.at(nx, ny) by {
        assert(m0.at(nx, ny));
    }
}

fn paint(img: &mut PixelBuffer, mask: &Mask, color: Pixel)
    requires
        same_shape(mask@, old(img)@),
    ensures
        final(img)@.wf(),
        final(img)@ == Grid::from_fn(
            old(img)@.width,
            old(img)@.height,
            |x: int, y: int|
                if mask@.at(x, y) {
                    color
                } else {
                    old(img)@.at(x, y)
                },
        ),
{
    let (width, height) = img.dimensions();
    let ghost start = img@;
    let mut y: u32 = 0;
    while y < height
        invariant
            same_shape(mask@, start),
            img@.wf(),
            width == start.width,
            height == start.height,
            img@.width == width,
            img@.height == height,
            y <= height,
            forall|i: int, j: int|
                start.contains(i, j) ==> img@.at(i, j) == if j < y && mask@.at(i, j) {
                    color
                } else {
                    start.at(i, j)
                },
        decreases height - y,
    {
        let mut x: u32 = 0;
        while x < width
            invariant
                same_shape(mask@, start),
                img@.wf(),
                width == start.width,
                height == start.height,
                img@.width == width,
                img@.height == height,
                y < height,
                x <= width,
                forall|i: int, j: int|
                    start.contains(i, j) ==> img@.at(i, j) == if visited(i, j, x as int, y as int) && mask@.at(i, j) {
                        color
                    } else {
                        start.at(i, j)
                    },
            decreases width - x,
        {
            if mask.get(x, y) {
                let ghost before = img@;
                img.put_pixel(x, y, color);
                proof {
                    before.lemma_update(x as int, y as int, color);
                }
            }
            x = x + 1;
        }
        y = y + 1;
    }
    proof {
        let target = Grid::from_fn(
            start.width,
            start.height,
            |x: int, y: int|
                if mask@.at(x, y) {
                    color
                } else {
                    start.at(x, y)
                },
        );
        Grid::lemma_from_fn(
            start.width,
            start.height,
            |x: int, y: int|
                if mask@.at(x, y) {
                    color
                } else {
                    start.at(x, y)
                },
        );
        assert forall|i: int, j: int| img@.contains(i, j) implies img@.at(i, j) == target.at(i, j) by {
            assert(start.contains(i, j));
        }
        img@.lemma_equal(target);
    }
}

/// Paints the outline of the sprite: the solid pixels beside a pixel that is
/// not solid, and with a thickness above 1 the solid pixels within that many
/// steps of them. A thickness of 0 leaves the image as it is.
pub fn add_outline(img: &mut PixelBuffer, settings: &OutlineSettings)
    ensures
        final(img)@ == outlined(old(img)@, *settings),
        final(img)@.wf(),
{
    let (width, height) = img.dimensions();
    if settings.thickness == 0 {
        return ;
    }
    let ghost g = img@;
    let found = find_border(img, settings);
    let mut mask: Mask = found.0;
    let mut frontier: Vec<(u32, u32)> = found.1;
    let mut depth: u32 = 1;
    while depth < settings.thickness && frontier.len() > 0
        invariant
            g == img@,
            1 <= depth <= settings.thickness,
            mask@ == outline_mask(g, *settings, depth as nat),
            same_shape(mask@, g),
            listed(mask@, frontier@),
            closed(mask@, g, *settings, frontier@),
        decreases settings.thickness - depth,
    {
        frontier = grow(img, &mut mask, &frontier, settings);
        depth = depth + 1;
    }
    proof {
        if depth < settings.thickness {
            assert(frontier@ =~= Seq::empty());
            lemma_stable(g, *settings, depth as nat, settings.thickness as nat);
        }
    }
    let color = Pixel::new(settings.color.0, settings.color.1, settings.color.2, settings.color.3);
    paint(img, &mask, color);
}

/// The pixel is missing or fully transparent.
pub open spec fn clear_at(g: Grid<Pixel>, x: int, y: int) -> bool {
    !g.contains(x, y) || g.at(x, y).a == 0
}

/// A visible pixel beside a transparent pixel or beside the edge of the
/// image, on one of its four sides.
pub open spec fn is_edge_pixel(g: Grid<Pixel>, x: int, y: int) -> bool {
    g.contains(x, y) && g.at(x, y).a > 0 && (clear_at(g, x - 1, y) || clear_at(g, x + 1, y) || clear_at(g, x, y - 1)
        || clear_at(g, x, y + 1))
}

/// The edge pixels among the first `count` pixels of row `y`.
pub open spec fn row_edge_pixels(g: Grid<Pixel>, y: int, count: int) -> Seq<Pixel>
    decreases count,
{
    if count <= 0 {
        Seq::empty()
    } else if is_edge_pixel(g, count - 1, y) {
        row_edge_pixels(g, y, count - 1).push(g.at(count - 1, y))
    } else {
        row_edge_pixels(g, y, count - 1)
    }
}

/// The edge pixels of the first `rows` rows, row by row.
pub open spec fn edge_pixels_of(g: Grid<Pixel>, rows: int) -> Seq<Pixel>
    decreases rows,
{
    if rows <= 0 {
        Seq::empty()
    } else {
        edge_pixels_of(g, rows - 1) + row_edge_pixels(g, rows - 1, g.width as int)
    }
}

fn is_clear(img: &PixelBuffer, x: u32, y: u32) -> (clear: bool)
    requires
        img@.contains(x as int, y as int),
    ensures
        clear == clear_at(img@, x as int, y as int),
{
    img.get_pixel(x, y).a == 0
}

/// The visible pixels of the image that lie beside a transparent pixel or
/// beside the edge of the image, row by row.
pub fn edge_pixels(img: &PixelBuffer) -> (edges: Vec<Pixel>)
    ensures
        edges@ == edge_pixels_of(img@, img@.height as int),
{
    let (width, height) = img.dimensions();
    let ghost g = img@;
    let mut edges: Vec<Pixel> = Vec::new();
    let mut y: u32 = 0;
    while y < height
        invariant
            g == img@,
            g.wf(),
            width == g.width,
            height == g.height,
            y <= height,
            edges@ == edge_pixels_of(g, y as int),
        decreases height - y,
    {
        let ghost before = edges@;
        let mut x: u32 = 0;
        proof {
            assert(edges@ =~= before + row_edge_pixels(g, y as int, 0));
        }
        while x < width
            invariant
                g == img@,
                g.wf(),
                width == g.width,
                height == g.height,
                y < height,
                x <= width,
                before == edge_pixels_of(g, y as int),
                edges@ == before + row_edge_pixels(g, y as int, x as int),
            decreases width - x,
        {
            let pixel: Pixel = img.get_pixel(x, y);
            if pixel.a > 0 {
                let edge: bool = x == 0 || is_clear(img, x - 1, y) || x == width - 1 || is_clear(img, x + 1, y) || y
                    == 0 || is_clear(img, x, y - 1) || y == height - 1 || is_clear(img, x, y + 1);
                assert(edge == is_edge_pixel(g, x as int, y as int));
                if edge {
                    proof {
                        assert(edges@.push(pixel) =~= before + row_edge_pixels(g, y as int, x as int + 1));
                    }
                    edges.push(pixel);
                }
            }
            x = x + 1;
        }
        y = y + 1;
    }
    edges
}

} // verus!
