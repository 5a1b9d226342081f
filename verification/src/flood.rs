//! Morphology on masks: dilation by one pixel and the region that is
//! connected to the border through set cells.

use vstd::prelude::*;
use vstd::arithmetic::div_mod::{lemma_fundamental_div_mod, lemma_fundamental_div_mod_converse};
use vstd::set_lib::{lemma_int_range, lemma_len_subset, set_int_range};
use crate::raster::{visited, Grid, Mask};

verus! {

/// The cell lies inside the mask and is set.
pub open spec fn set_at(m: Grid<bool>, x: int, y: int) -> bool {
    m.contains(x, y) && m.at(x, y)
}

/// The cell or one of its four neighbours is set.
pub open spec fn dilated_at(m: Grid<bool>, x: int, y: int) -> bool {
    set_at(m, x, y) || set_at(m, x - 1, y) || set_at(m, x + 1, y) || set_at(m, x, y - 1) || set_at(m, x, y + 1)
}

/// The mask grown by one pixel in the four axis directions.
pub open spec fn dilate(m: Grid<bool>) -> Grid<bool> {
    Grid::from_fn(m.width, m.height, |x: int, y: int| dilated_at(m, x, y))
}

/// The mask after `times` dilations.
pub open spec fn dilate_times(m: Grid<bool>, times: nat) -> Grid<bool>
    decreases times,
{
    if times == 0 {
        m
    } else {
        dilate(dilate_times(m, (times - 1) as nat))
    }
}

/// Dilation keeps the shape of the mask.
pub proof fn lemma_dilate_times(m: Grid<bool>, times: nat)
    requires
        m.wf(),
    ensures
        dilate_times(m, times).wf(),
        dilate_times(m, times).width == m.width,
        dilate_times(m, times).height == m.height,
    decreases times,
{
    if times > 0 {
        let before = dilate_times(m, (times - 1) as nat);
        lemma_dilate_times(m, (times - 1) as nat);
        Grid::lemma_from_fn(before.width, before.height, |x: int, y: int| dilated_at(before, x, y));
    }
}

fn is_set(mask: &Mask, x: u32, y: u32) -> (set: bool)
    requires
        mask@.contains(x as int, y as int),
    ensures
        set == set_at(mask@, x as int, y as int),
{
    mask.get(x, y)
}

fn neighbourhood_set(mask: &Mask, x: u32, y: u32) -> (set: bool)
    requires
        mask@.contains(x as int, y as int),
    ensures
        set == dilated_at(mask@, x as int, y as int),
{
    let (width, height) = mask.dimensions();
    is_set(mask, x, y) || (x > 0 && is_set(mask, x - 1, y)) || (x < width - 1 && is_set(mask, x + 1, y)) || (y > 0
        && is_set(mask, x, y - 1)) || (y < height - 1 && is_set(mask, x, y + 1))
}

/// Grows the mask by one pixel in the four axis directions.
pub fn dilate_once(mask: &Mask) -> (grown: Mask)
    ensures
        grown@ == dilate(mask@),
        grown@.wf(),
        grown@.width == mask@.width,
        grown@.height == mask@.height,
{
    let (width, height) = mask.dimensions();
    let mut grown: Mask = Mask::filled(width, height, false);
    let mut y: u32 = 0;
    while y < height
        invariant
            mask@.wf(),
            width == mask@.width,
            height == mask@.height,
            grown@.wf(),
            grown@.width == width,
            grown@.height == height,
            y <= height,
            forall|i: int, j: int| grown@.contains(i, j) && j < y ==> grown@.at(i, j) == dilated_at(mask@, i, j),
        decreases height - y,
    {
        let mut x: u32 = 0;
        while x < width
            invariant
                mask@.wf(),
                width == mask@.width,
                height == mask@.height,
                grown@.wf(),
                grown@.width == width,
                grown@.height == height,
                y < height,
                x <= width,
                forall|i: int, j: int|
                    grown@.contains(i, j) && visited(i, j, x as int, y as int) ==> grown@.at(i, j) == dilated_at(
                        mask@,
                        i,
                        j,
                    ),
            decreases width - x,
        {
            let value: bool = neighbourhood_set(mask, x, y);
            let ghost before = grown@;
            grown.set(x, y, value);
            proof {
                before.lemma_update(x as int, y as int, value);
            }
            x = x + 1;
        }
        y = y + 1;
    }
    proof {
        Grid::lemma_from_fn(mask@.width, mask@.height, |x: int, y: int| dilated_at(mask@, x, y));
        grown@.lemma_equal(dilate(mask@));
    }
    grown
}

/// Grows the mask `times` times.
pub fn dilate_mask(mask: &Mask, times: u32) -> (grown: Mask)
    ensures
        grown@ == dilate_times(mask@, times as nat),
        grown@.wf(),
        grown@.width == mask@.width,
        grown@.height == mask@.height,
{
    let (width, height) = mask.dimensions();
    let mut grown: Mask = mask.duplicate();
    let mut done: u32 = 0;
    while done < times
        invariant
            done <= times,
            grown@ == dilate_times(mask@, done as nat),
            grown@.wf(),
        decreases times - done,
    {
        grown = dilate_once(&grown);
        done = done + 1;
    }
    proof {
        lemma_dilate_times(mask@, times as nat);
    }
    grown
}

/// On one of the four sides of a `width` by `height` grid.
pub open spec fn on_border(width: int, height: int, x: int, y: int) -> bool {
    x == 0 || y == 0 || x == width - 1 || y == height - 1
}

/// Neighbours along one axis.
pub open spec fn adjacent(a: (int, int), b: (int, int)) -> bool {
    ||| (a.0 == b.0 && (a.1 == b.1 + 1 || a.1 + 1 == b.1))
    ||| (a.1 == b.1 && (a.0 == b.0 + 1 || a.0 + 1 == b.0))
}

/// A walk over set cells that starts on the border and moves between
/// neighbours.
pub open spec fn is_border_path(m: Grid<bool>, path: Seq<(int, int)>) -> bool {
    &&& path.len() > 0
    &&& forall|i: int| 0 <= i < path.len() ==> set_at(m, (#[trigger] path[i]).0, path[i].1)
    &&& on_border(m.width as int, m.height as int, path[0].0, path[0].1)
    &&& forall|i: int| 0 < i < path.len() ==> adjacent(path[i - 1], #[trigger] path[i])
}

/// The cell is set and joined to the border by set cells.
pub open spec fn reaches_border(m: Grid<bool>, x: int, y: int) -> bool {
    exists|path: Seq<(int, int)>| #[trigger] is_border_path(m, path) && path.last() == (x, y)
}

/// The set cells that are joined to the border by set cells.
pub open spec fn flood_region(m: Grid<bool>) -> Grid<bool> {
    Grid::from_fn(m.width, m.height, |x: int, y: int| reaches_border(m, x, y))
}

/// Everything filled is joined to the border.
spec fn sound(m: Grid<bool>, r: Grid<bool>) -> bool {
    forall|i: int, j: int| r.contains(i, j) && #[trigger] r.at(i, j) ==> reaches_border(m, i, j)
}

/// Every set border cell that the scan has passed is filled.
spec fn seeded(m: Grid<bool>, r: Grid<bool>, x: int, y: int) -> bool {
    forall|i: int, j: int|
        m.contains(i, j) && visited(i, j, x, y) && on_border(m.width as int, m.height as int, i, j) && m.at(i, j)
            ==> #[trigger] r.at(i, j)
}

/// The set neighbours of the cell are filled.
spec fn settled(m: Grid<bool>, r: Grid<bool>, x: int, y: int) -> bool {
    &&& set_at(m, x - 1, y) ==> r.at(x - 1, y)
    &&& set_at(m, x + 1, y) ==> r.at(x + 1, y)
    &&& set_at(m, x, y - 1) ==> r.at(x, y - 1)
    &&& set_at(m, x, y + 1) ==> r.at(x, y + 1)
}

spec fn on_stack(pending: Seq<(u32, u32)>, x: int, y: int) -> bool {
    exists|k: int| 0 <= k < pending.len() && (#[trigger] pending[k]).0 == x && pending[k].1 == y
}

/// Every waiting cell is filled.
spec fn stack_filled(r: Grid<bool>, pending: Seq<(u32, u32)>) -> bool {
    forall|k: int|
        0 <= k < pending.len() ==> r.contains((#[trigger] pending[k]).0 as int, pending[k].1 as int) && r.at(
            pending[k].0 as int,
            pending[k].1 as int,
        )
}

/// Every filled cell other than `(cx, cy)` has its set neighbours filled or
/// still waits on the stack.
spec fn frontier(m: Grid<bool>, r: Grid<bool>, pending: Seq<(u32, u32)>, cx: int, cy: int) -> bool {
    forall|i: int, j: int|
        r.contains(i, j) && #[trigger] r.at(i, j) && !(i == cx && j == cy) ==> settled(m, r, i, j) || on_stack(
            pending,
            i,
            j,
        )
}

spec fn same_shape(m: Grid<bool>, r: Grid<bool>) -> bool {
    m.wf() && r.wf() && m.width == r.width && m.height == r.height
}

/// The positions in row-major order of the cells that are not filled.
spec fn open_cells(r: Grid<bool>) -> Set<int> {
    Set::new(|i: int| 0 <= i < r.width * r.height && !r.at(i % (r.width as int), i / (r.width as int)))
}

proof fn lemma_open_cells_finite(r: Grid<bool>)
    ensures
        open_cells(r).finite(),
{
    let count = (r.width * r.height) as int;
    let all = set_int_range(0, count);
    lemma_int_range(0, count);
    assert(open_cells(r).subset_of(all));
    lemma_len_subset(open_cells(r), all);
}

proof fn lemma_split_index(i: int, width: int, height: int)
    requires
        0 <= i < width * height,
        0 < width,
    ensures
        0 <= i % width < width,
        0 <= i / width < height,
        (i / width) * width + i % width == i,
{
    lemma_fundamental_div_mod(i, width);
    assert(width * (i / width) == (i / width) * width) by (nonlinear_arith);
    assert(0 <= i / width) by (nonlinear_arith)
        requires
            0 <= i,
            0 < width,
            i == width * (i / width) + i % width,
            0 <= i % width < width,
    ;
    assert(i / width < height) by (nonlinear_arith)
        requires
            i < width * height,
            0 < width,
            i == width * (i / width) + i % width,
            0 <= i % width < width,
    ;
}

proof fn lemma_open_cells_shrink(r: Grid<bool>, x: int, y: int)
    requires
        r.wf(),
        r.contains(x, y),
        !r.at(x, y),
    ensures
        open_cells(r.update(x, y, true)).len() < open_cells(r).len(),
{
    let w = r.width as int;
    let h = r.height as int;
    let after = r.update(x, y, true);
    let index = y * w + x;
    r.lemma_update(x, y, true);
    lemma_open_cells_finite(r);
    crate::raster::lemma_cell_index(x, y, w, h);
    lemma_fundamental_div_mod_converse(index, w, y, x);
    assert(w * h == r.width * r.height);
    assert(open_cells(r).contains(index));
    assert forall|i: int| open_cells(after).contains(i) implies open_cells(r).remove(index).contains(i) by {
        lemma_split_index(i, w, h);
        let ix = i % w;
        let iy = i / w;
        assert(r.contains(ix, iy));
        if ix == x && iy == y {
            assert(after.at(ix, iy));
        } else {
            assert(after.at(ix, iy) == r.at(ix, iy));
            assert(i != index);
        }
    }
    assert(open_cells(after).subset_of(open_cells(r).remove(index)));
    lemma_len_subset(open_cells(after), open_cells(r).remove(index));
}

/// A walk can be extended by a set neighbour of its last cell.
proof fn lemma_extend(m: Grid<bool>, x: int, y: int, nx: int, ny: int)
    requires
        reaches_border(m, x, y),
        adjacent((x, y), (nx, ny)),
        set_at(m, nx, ny),
    ensures
        reaches_border(m, nx, ny),
{
    let path = choose|path: Seq<(int, int)>| #[trigger] is_border_path(m, path) && path.last() == (x, y);
    let longer = path.push((nx, ny));
    assert forall|i: int| 0 <= i < longer.len() implies set_at(m, (#[trigger] longer[i]).0, longer[i].1) by {
        if i < path.len() {
            assert(longer[i] == path[i]);
        }
    }
    assert forall|i: int| 0 < i < longer.len() implies adjacent(longer[i - 1], #[trigger] longer[i]) by {
        if i < path.len() {
            assert(longer[i] == path[i]);
            assert(longer[i - 1] == path[i - 1]);
        }
    }
    assert(longer[0] == path[0]);
    assert(is_border_path(m, longer) && longer.last() == (nx, ny));
}

/// A filling that holds the set border cells and is closed under set
/// neighbours holds the end of every walk.
proof fn lemma_complete(m: Grid<bool>, r: Grid<bool>, path: Seq<(int, int)>)
    requires
        same_shape(m, r),
        seeded(m, r, 0, m.height as int),
        frontier(m, r, Seq::empty(), -1, -1),
        is_border_path(m, path),
    ensures
        r.at(path.last().0, path.last().1),
    decreases path.len(),
{
    let last = path.last();
    assert(set_at(m, path[path.len() - 1].0, path[path.len() - 1].1));
    if path.len() == 1 {
        assert(set_at(m, path[0].0, path[0].1));
        assert(visited(last.0, last.1, 0, m.height as int));
    } else {
        let shorter = path.drop_last();
        assert forall|i: int| 0 <= i < shorter.len() implies set_at(m, (#[trigger] shorter[i]).0, shorter[i].1) by {
            assert(shorter[i] == path[i]);
        }
        assert forall|i: int| 0 < i < shorter.len() implies adjacent(shorter[i - 1], #[trigger] shorter[i]) by {
            assert(shorter[i] == path[i]);
            assert(shorter[i - 1] == path[i - 1]);
        }
        assert(shorter[0] == path[0]);
        lemma_complete(m, r, shorter);
        let prev = shorter.last();
        assert(prev == path[path.len() - 2]);
        assert(set_at(m, path[path.len() - 2].0, path[path.len() - 2].1));
        assert(adjacent(path[path.len() - 2], path[path.len() - 1]));
        assert(r.contains(prev.0, prev.1) && r.at(prev.0, prev.1));
        assert(!on_stack(Seq::empty(), prev.0, prev.1));
        assert(settled(m, r, prev.0, prev.1));
    }
}

/// Fills the cell `(nx, ny)` next to the filled cell `(cx, cy)` if it is set
/// and not yet filled, and puts it on the stack.
fn visit(mask: &Mask, region: &mut Mask, pending: &mut Vec<(u32, u32)>, cx: u32, cy: u32, nx: u32, ny: u32)
    requires
        same_shape(mask@, old(region)@),
        mask@.contains(cx as int, cy as int),
        mask@.contains(nx as int, ny as int),
        adjacent((cx as int, cy as int), (nx as int, ny as int)),
        old(region)@.at(cx as int, cy as int),
        sound(mask@, old(region)@),
        seeded(mask@, old(region)@, 0, mask@.height as int),
        stack_filled(old(region)@, old(pending)@),
        frontier(mask@, old(region)@, old(pending)@, cx as int, cy as int),
    ensures
        same_shape(mask@, final(region)@),
        final(region)@.at(cx as int, cy as int),
        sound(mask@, final(region)@),
        seeded(mask@, final(region)@, 0, mask@.height as int),
        stack_filled(final(region)@, final(pending)@),
        frontier(mask@, final(region)@, final(pending)@, cx as int, cy as int),
        forall|i: int, j: int| old(region)@.contains(i, j) && old(region)@.at(i, j) ==> final(region)@.at(i, j),
        set_at(mask@, nx as int, ny as int) ==> final(region)@.at(nx as int, ny as int),
        open_cells(final(region)@).len() <= open_cells(old(region)@).len(),
        open_cells(final(region)@).len() < open_cells(old(region)@).len() || (final(region)@ == old(region)@
            && final(pending)@ == old(pending)@),
{
    if mask.get(nx, ny) && !region.get(nx, ny) {
        let ghost r0 = region@;
        let ghost stack0 = pending@;
        region.set(nx, ny, true);
        pending.push((nx, ny));
        proof {
            let m = mask@;
            let r1 = region@;
            let stack1 = pending@;
            r0.lemma_update(nx as int, ny as int, true);
            lemma_open_cells_shrink(r0, nx as int, ny as int);
            lemma_extend(m, cx as int, cy as int, nx as int, ny as int);
            assert forall|i: int, j: int| r1.contains(i, j) && #[trigger] r1.at(i, j) implies reaches_border(
                m,
                i,
                j,
            ) by {
                if !(i == nx && j == ny) {
                    assert(r0.at(i, j));
                }
            }
            assert forall|k: int| 0 <= k < stack1.len() implies r1.contains((#[trigger] stack1[k]).0 as int, stack1[k].1 as int)
                && r1.at(stack1[k].0 as int, stack1[k].1 as int) by {
                if k < stack0.len() {
                    assert(stack1[k] == stack0[k]);
                    assert(r0.at(stack0[k].0 as int, stack0[k].1 as int));
                }
            }
            assert forall|i: int, j: int|
                r1.contains(i, j) && #[trigger] r1.at(i, j) && !(i == cx && j == cy) implies settled(m, r1, i, j)
                || on_stack(stack1, i, j) by {
                if i == nx && j == ny {
                    assert(stack1[stack0.len() as int].0 == i && stack1[stack0.len() as int].1 == j);
                } else {
                    assert(r0.at(i, j));
                    if on_stack(stack0, i, j) {
                        let k = choose|k: int| 0 <= k < stack0.len() && (#[trigger] stack0[k]).0 == i && stack0[k].1 == j;
                        assert(stack1[k] == stack0[k]);
                    } else {
                        assert(settled(m, r0, i, j));
                        lemma_settled_grows(m, r0, r1, i, j);
                    }
                }
            }
            assert forall|i: int, j: int|
                m.contains(i, j) && visited(i, j, 0, m.height as int) && on_border(
                    m.width as int,
                    m.height as int,
                    i,
                    j,
                ) && m.at(i, j) implies #[trigger] r1.at(i, j) by {
                assert(r0.at(i, j));
            }
        }
    }
}

/// Filling more cells keeps a settled cell settled.
proof fn lemma_settled_grows(m: Grid<bool>, r0: Grid<bool>, r1: Grid<bool>, x: int, y: int)
    requires
        same_shape(m, r0),
        same_shape(m, r1),
        settled(m, r0, x, y),
        forall|i: int, j: int| r0.contains(i, j) && r0.at(i, j) ==> #[trigger] r1.at(i, j),
    ensures
        settled(m, r1, x, y),
{
    if set_at(m, x - 1, y) {
        assert(r0.at(x - 1, y));
        assert(r1.at(x - 1, y));
    }
    if set_at(m, x + 1, y) {
        assert(r0.at(x + 1, y));
        assert(r1.at(x + 1, y));
    }
    if set_at(m, x, y - 1) {
        assert(r0.at(x, y - 1));
        assert(r1.at(x, y - 1));
    }
    if set_at(m, x, y + 1) {
        assert(r0.at(x, y + 1));
        assert(r1.at(x, y + 1));
    }
}

/// Looks at the four neighbours of the filled cell `(x, y)`.
fn expand(mask: &Mask, region: &mut Mask, pending: &mut Vec<(u32, u32)>, x: u32, y: u32)
    requires
        same_shape(mask@, old(region)@),
        mask@.contains(x as int, y as int),
        old(region)@.at(x as int, y as int),
        sound(mask@, old(region)@),
        seeded(mask@, old(region)@, 0, mask@.height as int),
        stack_filled(old(region)@, old(pending)@),
        frontier(mask@, old(region)@, old(pending)@, x as int, y as int),
    ensures
        same_shape(mask@, final(region)@),
        sound(mask@, final(region)@),
        seeded(mask@, final(region)@, 0, mask@.height as int),
        stack_filled(final(region)@, final(pending)@),
        frontier(mask@, final(region)@, final(pending)@, -1, -1),
        open_cells(final(region)@).len() <= open_cells(old(region)@).len(),
        open_cells(final(region)@).len() < open_cells(old(region)@).len() || (final(region)@ == old(region)@
            && final(pending)@ == old(pending)@),
{
    let (width, height) = mask.dimensions();
    if x > 0 {
        visit(mask, region, pending, x, y, x - 1, y);
    }
    if x < width - 1 {
        visit(mask, region, pending, x, y, x + 1, y);
    }
    if y > 0 {
        visit(mask, region, pending, x, y, x, y - 1);
    }
    if y < height - 1 {
        visit(mask, region, pending, x, y, x, y + 1);
    }
    proof {
        assert(settled(mask@, region@, x as int, y as int));
    }
}

fn at_border(width: u32, height: u32, x: u32, y: u32) -> (border: bool)
    requires
        x < width,
        y < height,
    ensures
        border == on_border(width as int, height as int, x as int, y as int),
{
    x == 0 || y == 0 || x == width - 1 || y == height - 1
}

/// The set cells of the mask that are joined to the border by set cells,
/// found by spreading from the set border cells over a stack of cells whose
/// neighbours are still to be looked at.
pub fn flood_from_border(mask: &Mask) -> (region: Mask)
    ensures
        region@ == flood_region(mask@),
        region@.wf(),
        region@.width == mask@.width,
        region@.height == mask@.height,
{
    let (width, height) = mask.dimensions();
    let mut region: Mask = Mask::filled(width, height, false);
    let mut pending: Vec<(u32, u32)> = Vec::new();
    proof {
        Grid::lemma_from_fn(width as nat, height as nat, |x: int, y: int| false);
    }
    let mut y: u32 = 0;
    while y < height
        invariant
            width == mask@.width,
            height == mask@.height,
            same_shape(mask@, region@),
            y <= height,
            sound(mask@, region@),
            seeded(mask@, region@, 0, y as int),
            stack_filled(region@, pending@),
            frontier(mask@, region@, pending@, -1, -1),
            forall|i: int, j: int| region@.contains(i, j) && #[trigger] region@.at(i, j) ==> on_stack(pending@, i, j),
        decreases height - y,
    {
        let mut x: u32 = 0;
        while x < width
            invariant
                width == mask@.width,
                height == mask@.height,
                same_shape(mask@, region@),
                y < height,
                x <= width,
                sound(mask@, region@),
                seeded(mask@, region@, x as int, y as int),
                stack_filled(region@, pending@),
                forall|i: int, j: int|
                    region@.contains(i, j) && #[trigger] region@.at(i, j) ==> on_stack(pending@, i, j),
            decreases width - x,
        {
            if at_border(width, height, x, y) && mask.get(x, y) && !region.get(x, y) {
                let ghost r0 = region@;
                let ghost stack0 = pending@;
                region.set(x, y, true);
                pending.push((x, y));
                proof {
                    let m = mask@;
                    let r1 = region@;
                    let stack1 = pending@;
                    r0.lemma_update(x as int, y as int, true);
                    let single = seq![(x as int, y as int)];
                    assert(is_border_path(m, single) && single.last() == (x as int, y as int));
                    assert forall|i: int, j: int| r1.contains(i, j) && #[trigger] r1.at(i, j) implies reaches_border(
                        m,
                        i,
                        j,
                    ) && on_stack(stack1, i, j) by {
                        if i == x && j == y {
                            assert(stack1[stack0.len() as int].0 == i && stack1[stack0.len() as int].1 == j);
                        } else {
                            assert(r0.at(i, j));
                            let k = choose|k: int| 0 <= k < stack0.len() && (#[trigger] stack0[k]).0 == i && stack0[k].1 == j;
                            assert(stack1[k] == stack0[k]);
                        }
                    }
                    assert forall|k: int| 0 <= k < stack1.len() implies r1.contains(
                        (#[trigger] stack1[k]).0 as int,
                        stack1[k].1 as int,
                    ) && r1.at(stack1[k].0 as int, stack1[k].1 as int) by {
                        if k < stack0.len() {
                            assert(stack1[k] == stack0[k]);
                            assert(r0.at(stack0[k].0 as int, stack0[k].1 as int));
                        }
                    }
                    assert forall|i: int, j: int|
                        m.contains(i, j) && visited(i, j, x as int + 1, y as int) && on_border(
                            m.width as int,
                            m.height as int,
                            i,
                            j,
                        ) && m.at(i, j) implies #[trigger] r1.at(i, j) by {
                        if !(i == x && j == y) {
                            assert(r0.at(i, j));
                        }
                    }
                }
            }
            x = x + 1;
        }
        y = y + 1;
    }
    while pending.len() > 0
        invariant
            width == mask@.width,
            height == mask@.height,
            same_shape(mask@, region@),
            sound(mask@, region@),
            seeded(mask@, region@, 0, height as int),
            stack_filled(region@, pending@),
            frontier(mask@, region@, pending@, -1, -1),
        decreases open_cells(region@).len(), pending@.len(),
    {
        let ghost p_start = pending@;
        let ghost r_start = region@;
        let (x, y) = pending.pop().unwrap();
        proof {
            let m = mask@;
            let stack0 = pending@;
            assert(p_start[p_start.len() - 1] == (x, y));
            assert forall|k: int| 0 <= k < stack0.len() implies r_start.contains(
                (#[trigger] stack0[k]).0 as int,
                stack0[k].1 as int,
            ) && r_start.at(stack0[k].0 as int, stack0[k].1 as int) by {
                assert(stack0[k] == p_start[k]);
            }
            assert forall|i: int, j: int|
                r_start.contains(i, j) && #[trigger] r_start.at(i, j) && !(i == x && j == y) implies settled(
                m,
                r_start,
                i,
                j,
            ) || on_stack(stack0, i, j) by {
                if !settled(m, r_start, i, j) {
                    assert(on_stack(p_start, i, j));
                    let k = choose|k: int|
                        0 <= k < p_start.len() && (#[trigger] p_start[k]).0 == i && p_start[k].1 == j;
                    assert(k < stack0.len());
                    assert(stack0[k] == p_start[k]);
                }
            }
        }
        expand(mask, &mut region, &mut pending, x, y);
    }
    proof {
        let m = mask@;
        let r = region@;
        assert(pending@ =~= Seq::empty());
        let target = flood_region(m);
        Grid::lemma_from_fn(m.width, m.height, |x: int, y: int| reaches_border(m, x, y));
        assert forall|i: int, j: int| r.contains(i, j) implies r.at(i, j) == target.at(i, j) by {
            if reaches_border(m, i, j) {
                let path = choose|path: Seq<(int, int)>| #[trigger] is_border_path(m, path) && path.last() == (i, j);
                lemma_complete(m, r, path);
            }
        }
        r.lemma_equal(target);
    }
    region
}

/// Nothing is joined to the border in a mask without a set cell.
pub proof fn lemma_flood_of_nothing(m: Grid<bool>)
    requires
        m.wf(),
        forall|x: int, y: int| m.contains(x, y) ==> !m.at(x, y),
    ensures
        flood_region(m) == m,
{
    Grid::lemma_from_fn(m.width, m.height, |x: int, y: int| reaches_border(m, x, y));
    assert forall|x: int, y: int| m.contains(x, y) implies flood_region(m).at(x, y) == m.at(x, y) by {
        if reaches_border(m, x, y) {
            let path = choose|path: Seq<(int, int)>| #[trigger] is_border_path(m, path) && path.last() == (x, y);
            assert(set_at(m, path[path.len() - 1].0, path[path.len() - 1].1));
        }
    }
    flood_region(m).lemma_equal(m);
}

/// The region that is joined to the border lies inside the mask.
pub proof fn lemma_flood_within(m: Grid<bool>, x: int, y: int)
    requires
        m.wf(),
        m.contains(x, y),
        flood_region(m).at(x, y),
    ensures
        m.at(x, y),
{
    Grid::lemma_from_fn(m.width, m.height, |x: int, y: int| reaches_border(m, x, y));
    let path = choose|path: Seq<(int, int)>| #[trigger] is_border_path(m, path) && path.last() == (x, y);
    assert(set_at(m, path[path.len() - 1].0, path[path.len() - 1].1));
}

/// In a mask whose cells are all set, every cell is joined to the border.
pub proof fn lemma_flood_of_everything(m: Grid<bool>)
    requires
        m.wf(),
        forall|x: int, y: int| m.contains(x, y) ==> m.at(x, y),
    ensures
        flood_region(m) == m,
{
    Grid::lemma_from_fn(m.width, m.height, |x: int, y: int| reaches_border(m, x, y));
    assert forall|x: int, y: int| m.contains(x, y) implies flood_region(m).at(x, y) == m.at(x, y) by {
        // the walk along row `y` from the first column to column `x`
        let path = Seq::new((x + 1) as nat, |i: int| (i, y));
        assert forall|i: int| 0 <= i < path.len() implies set_at(m, (#[trigger] path[i]).0, path[i].1) by {
            assert(m.contains(i, y));
        }
        assert(path[0] == (0int, y));
        assert(is_border_path(m, path) && path.last() == (x, y));
    }
    flood_region(m).lemma_equal(m);
}

/// Dilation keeps every set cell, and keeps a mask as it is that has no set
/// cell or only set cells.
pub proof fn lemma_dilate_times_extremes(m: Grid<bool>, times: nat)
    requires
        m.wf(),
    ensures
        forall|x: int, y: int| m.contains(x, y) && m.at(x, y) ==> #[trigger] dilate_times(m, times).at(x, y),
        (forall|x: int, y: int| m.contains(x, y) ==> !m.at(x, y)) ==> dilate_times(m, times) == m,
        (forall|x: int, y: int| m.contains(x, y) ==> m.at(x, y)) ==> dilate_times(m, times) == m,
    decreases times,
{
    if times > 0 {
        let before = dilate_times(m, (times - 1) as nat);
        lemma_dilate_times(m, (times - 1) as nat);
        lemma_dilate_times_extremes(m, (times - 1) as nat);
        Grid::lemma_from_fn(before.width, before.height, |x: int, y: int| dilated_at(before, x, y));
        let after = dilate_times(m, times);
        assert forall|x: int, y: int| m.contains(x, y) && m.at(x, y) implies #[trigger] after.at(x, y) by {
            assert(before.at(x, y));
            assert(set_at(before, x, y));
        }
        if forall|x: int, y: int| m.contains(x, y) ==> !m.at(x, y) {
            assert forall|x: int, y: int| after.contains(x, y) implies after.at(x, y) == m.at(x, y) by {
                assert(!dilated_at(m, x, y));
            }
            after.lemma_equal(m);
        }
        if forall|x: int, y: int| m.contains(x, y) ==> m.at(x, y) {
            assert forall|x: int, y: int| after.contains(x, y) implies after.at(x, y) == m.at(x, y) by {
                assert(set_at(m, x, y));
            }
            after.lemma_equal(m);
        }
    }
}

} // verus!
