//! Dense two-dimensional rasters: the mathematical model (`Grid`) and the
//! executable row-major storage (`Plane`) that every stage reads and writes.

use vstd::prelude::*;

verus! {

/// One RGBA sample, eight bits per channel.
#[derive(Clone, Copy, Debug, PartialEq, Eq, Structural)]
pub struct Pixel {
    pub r: u8,
    pub g: u8,
    pub b: u8,
    pub a: u8,
}

impl Pixel {
    /// The colour channels without the alpha channel.
    pub open spec fn color(self) -> [u8; 3] {
        [self.r, self.g, self.b]
    }

    /// The same colour with another alpha value.
    pub open spec fn with_alpha(self, a: u8) -> Pixel {
        Pixel { r: self.r, g: self.g, b: self.b, a }
    }

    /// The fully transparent black sample that fresh canvases are made of.
    pub open spec fn blank() -> Pixel {
        Pixel { r: 0, g: 0, b: 0, a: 0 }
    }

    /// A pixel from its four channels.
    pub fn new(r: u8, g: u8, b: u8, a: u8) -> (p: Pixel)
        ensures
            p == (Pixel { r, g, b, a }),
    {
        Pixel { r, g, b, a }
    }

    /// Transparent black.
    pub fn transparent() -> (p: Pixel)
        ensures
            p == Pixel::blank(),
    {
        Pixel { r: 0, g: 0, b: 0, a: 0 }
    }

    /// The colour channels without the alpha channel.
    pub fn rgb(&self) -> (c: [u8; 3])
        ensures
            c == self.color(),
    {
        let c: [u8; 3] = [self.r, self.g, self.b];
        assert(c@ =~= self.color()@);
        c
    }
}

/// A `width` by `height` arrangement of cells, stored row by row.
pub struct Grid<T> {
    pub width: nat,
    pub height: nat,
    pub rows: Seq<Seq<T>>,
}

impl<T> Grid<T> {
    /// Every row is present and has exactly `width` cells.
    pub open spec fn wf(self) -> bool {
        &&& self.rows.len() == self.height
        &&& forall|y: int| 0 <= y < self.height ==> (#[trigger] self.rows[y]).len() == self.width
    }

    /// The cell `(x, y)` lies inside the grid.
    pub open spec fn contains(self, x: int, y: int) -> bool {
        0 <= x < self.width && 0 <= y < self.height
    }

    /// The cell in column `x` of row `y`.
    pub open spec fn at(self, x: int, y: int) -> T {
        self.rows[y][x]
    }

    /// The grid whose cell at `(x, y)` is `f(x, y)`.
    pub open spec fn from_fn(width: nat, height: nat, f: spec_fn(int, int) -> T) -> Grid<T> {
        Grid {
            width,
            height,
            rows: Seq::new(height, |y: int| Seq::new(width, |x: int| f(x, y))),
        }
    }

    /// The grid whose cells all hold `value`.
    pub open spec fn filled(width: nat, height: nat, value: T) -> Grid<T> {
        Grid::from_fn(width, height, |x: int, y: int| value)
    }

    /// The same grid with the cell at `(x, y)` replaced by `value`.
    pub open spec fn update(self, x: int, y: int, value: T) -> Grid<T> {
        Grid { width: self.width, height: self.height, rows: self.rows.update(y, self.rows[y].update(x, value)) }
    }

    /// Two well-formed grids of the same size that agree cell by cell are equal.
    pub proof fn lemma_equal(self, other: Grid<T>)
        requires
            self.wf(),
            other.wf(),
            self.width == other.width,
            self.height == other.height,
            forall|x: int, y: int| self.contains(x, y) ==> self.at(x, y) == other.at(x, y),
        ensures
            self == other,
    {
        assert forall|y: int| 0 <= y < self.height implies self.rows[y] == other.rows[y] by {
            assert forall|x: int| 0 <= x < self.width implies self.rows[y][x] == other.rows[y][x] by {
                assert(self.contains(x, y));
                assert(self.at(x, y) == other.at(x, y));
            }
            assert(self.rows[y] =~= other.rows[y]);
        }
        assert(self.rows =~= other.rows);
    }

    /// `from_fn` is well formed, has the given size, and holds `f(x, y)` at
    /// `(x, y)`.
    pub proof fn lemma_from_fn(width: nat, height: nat, f: spec_fn(int, int) -> T)
        ensures
            Grid::from_fn(width, height, f).wf(),
            Grid::from_fn(width, height, f).width == width,
            Grid::from_fn(width, height, f).height == height,
            forall|x: int, y: int|
                0 <= x < width && 0 <= y < height ==> #[trigger] Grid::from_fn(width, height, f).at(x, y) == f(
                    x,
                    y,
                ),
    {
    }

    /// `update` changes the one cell and keeps the shape and all other cells.
    pub proof fn lemma_update(self, x: int, y: int, value: T)
        requires
            self.wf(),
            self.contains(x, y),
        ensures
            self.update(x, y, value).wf(),
            self.update(x, y, value).width == self.width,
            self.update(x, y, value).height == self.height,
            self.update(x, y, value).at(x, y) == value,
            forall|i: int, j: int|
                self.contains(i, j) && !(i == x && j == y) ==> #[trigger] self.update(x, y, value).at(i, j)
                    == self.at(i, j),
    {
    }
}

/// Before `(x, y)` when the cells are visited row by row.
pub open spec fn visited(i: int, j: int, x: int, y: int) -> bool {
    j < y || (j == y && i < x)
}

/// Extent of row `y` in row-major storage.
pub proof fn lemma_row_extent(y: int, width: int, height: int)
    requires
        0 <= width,
        0 <= y < height,
    ensures
        0 <= y * width,
        y * width + width <= width * height,
{
    assert(y * width >= 0) by (nonlinear_arith)
        requires
            y >= 0,
            width >= 0,
    ;
    assert(y * width + width <= width * height) by (nonlinear_arith)
        requires
            0 <= y < height,
            width >= 0,
    ;
}

/// Position of cell `(x, y)` in row-major storage.
pub proof fn lemma_cell_index(x: int, y: int, width: int, height: int)
    requires
        0 <= x < width,
        0 <= y < height,
    ensures
        0 <= y * width,
        y * width + x < width * height,
        y * width + width <= width * height,
{
    lemma_row_extent(y, width, height);
}

/// A plane of `width` by `height` cells of up to four bytes can be addressed:
/// it is no larger than the largest allocation.
pub open spec fn fits_memory(width: int, height: int) -> bool {
    width * height * 4 <= isize::MAX
}

/// Row-major storage of a grid whose sides fit in 32 bits. The cells take
/// up to four bytes each.
pub struct Plane<T> {
    width: u32,
    height: u32,
    cells: Vec<T>,
}

impl<T> View for Plane<T> {
    type V = Grid<T>;

    closed spec fn view(&self) -> Grid<T> {
        Grid {
            width: self.width as nat,
            height: self.height as nat,
            rows: Seq::new(
                self.height as nat,
                |y: int| self.cells@.subrange(y * self.width, y * self.width + self.width),
            ),
        }
    }
}

/// The image that the stages hand from one to the next.
pub type PixelBuffer = Plane<Pixel>;

/// A boolean grid of the same shape as the image it was computed from.
pub type Mask = Plane<bool>;

impl<T> Plane<T> {
    #[verifier::type_invariant]
    spec fn inv(self) -> bool {
        self.cells@.len() == self.width * self.height && fits_memory(self.width as int, self.height as int)
    }

    proof fn lemma_view(self)
        requires
            self.inv(),
        ensures
            self@.wf(),
            self@.width == self.width,
            self@.height == self.height,
            fits_memory(self.width as int, self.height as int),
            forall|x: int, y: int|
                self@.contains(x, y) ==> #[trigger] self@.at(x, y) == self.cells@[y * self.width + x],
    {
        assert forall|y: int| 0 <= y < self@.height implies (#[trigger] self@.rows[y]).len() == self@.width by {
            lemma_row_extent(y, self.width as int, self.height as int);
        }
        assert forall|x: int, y: int| self@.contains(x, y) implies #[trigger] self@.at(x, y) == self.cells@[y
            * self.width + x] by {
            lemma_cell_index(x, y, self.width as int, self.height as int);
        }
    }

}

impl<T: Copy> Plane<T> {
    /// A plane with every cell set to `value`.
    pub fn filled(width: u32, height: u32, value: T) -> (plane: Self)
        requires
            fits_memory(width as int, height as int),
        ensures
            plane@ == Grid::filled(width as nat, height as nat, value),
            plane@.wf(),
    {
        let count: usize = (width as usize) * (height as usize);
        let mut cells: Vec<T> = Vec::with_capacity(count);
        let mut i: usize = 0;
        while i < count
            invariant
                i <= count,
                cells@.len() == i,
                forall|k: int| 0 <= k < i ==> cells@[k] == value,
            decreases count - i,
        {
            cells.push(value);
            i += 1;
        }
        let plane = Plane { width, height, cells };
        proof {
            plane.lemma_view();
            let target = Grid::filled(width as nat, height as nat, value);
            Grid::lemma_from_fn(width as nat, height as nat, |x: int, y: int| value);
            assert forall|x: int, y: int| plane@.contains(x, y) implies plane@.at(x, y) == target.at(x, y) by {
                lemma_cell_index(x, y, width as int, height as int);
            }
            plane@.lemma_equal(target);
        }
        plane
    }

    /// Number of columns.
    pub fn width(&self) -> (w: u32)
        ensures
            w == self@.width,
            self@.wf(),
    {
        proof {
            use_type_invariant(self);
            self.lemma_view();
        }
        self.width
    }

    /// Number of rows.
    pub fn height(&self) -> (h: u32)
        ensures
            h == self@.height,
            self@.wf(),
    {
        proof {
            use_type_invariant(self);
            self.lemma_view();
        }
        self.height
    }

    /// Width and height.
    pub fn dimensions(&self) -> (d: (u32, u32))
        ensures
            d.0 == self@.width,
            d.1 == self@.height,
            self@.wf(),
            fits_memory(self@.width as int, self@.height as int),
    {
        proof {
            use_type_invariant(self);
            self.lemma_view();
        }
        (self.width, self.height)
    }

    /// The cell at column `x` of row `y`.
    pub fn get(&self, x: u32, y: u32) -> (value: T)
        requires
            self@.contains(x as int, y as int),
        ensures
            value == self@.at(x as int, y as int),
    {
        proof {
            use_type_invariant(self);
            self.lemma_view();
            lemma_cell_index(x as int, y as int, self.width as int, self.height as int);
        }
        let index: usize = (y as usize) * (self.width as usize) + (x as usize);
        self.cells[index]
    }

    /// Overwrites the cell at column `x` of row `y`.
    pub fn set(&mut self, x: u32, y: u32, value: T)
        requires
            old(self)@.contains(x as int, y as int),
        ensures
            final(self)@ == old(self)@.update(x as int, y as int, value),
            final(self)@.wf(),
    {
        proof {
            use_type_invariant(&*self);
            self.lemma_view();
            lemma_cell_index(x as int, y as int, self.width as int, self.height as int);
        }
        let index: usize = (y as usize) * (self.width as usize) + (x as usize);
        self.cells[index] = value;
        proof {
            self.lemma_view();
            let target = old(self)@.update(x as int, y as int, value);
            old(self)@.lemma_update(x as int, y as int, value);
            assert forall|i: int, j: int| self@.contains(i, j) implies self@.at(i, j) == target.at(i, j) by {
                lemma_cell_index(i, j, self.width as int, self.height as int);
                if j != y as int {
                    assert(j * self.width + i != y * self.width + x) by (nonlinear_arith)
                        requires
                            j != y,
                            0 <= i < self.width,
                            0 <= x < self.width,
                    ;
                }
            }
            self@.lemma_equal(target);
        }
    }

    /// An independent copy with the same cells.
    pub fn duplicate(&self) -> (copy: Self)
        ensures
            copy@ == self@,
    {
        proof {
            use_type_invariant(self);
            self.lemma_view();
        }
        let count: usize = self.cells.len();
        let mut cells: Vec<T> = Vec::with_capacity(count);
        let mut i: usize = 0;
        while i < count
            invariant
                i <= count,
                count == self.cells@.len(),
                cells@.len() == i,
                forall|k: int| 0 <= k < i ==> cells@[k] == self.cells@[k],
            decreases count - i,
        {
            cells.push(self.cells[i]);
            i += 1;
        }
        let copy = Plane { width: self.width, height: self.height, cells };
        proof {
            assert(copy.cells@ =~= self.cells@);
            copy.lemma_view();
            copy@.lemma_equal(self@);
        }
        copy
    }
}

impl Plane<Pixel> {
    /// A fully transparent canvas.
    pub fn new(width: u32, height: u32) -> (canvas: Self)
        requires
            fits_memory(width as int, height as int),
        ensures
            canvas@ == Grid::filled(width as nat, height as nat, Pixel::blank()),
            canvas@.wf(),
    {
        Plane::filled(width, height, Pixel::transparent())
    }

    /// A canvas painted with one pixel value.
    pub fn from_pixel(width: u32, height: u32, pixel: Pixel) -> (canvas: Self)
        requires
            fits_memory(width as int, height as int),
        ensures
            canvas@ == Grid::filled(width as nat, height as nat, pixel),
            canvas@.wf(),
    {
        Plane::filled(width, height, pixel)
    }

    /// The pixel in column `x` of row `y`.
    pub fn get_pixel(&self, x: u32, y: u32) -> (pixel: Pixel)
        requires
            self@.contains(x as int, y as int),
        ensures
            pixel == self@.at(x as int, y as int),
    {
        self.get(x, y)
    }

    /// Overwrites the pixel in column `x` of row `y`.
    pub fn put_pixel(&mut self, x: u32, y: u32, pixel: Pixel)
        requires
            old(self)@.contains(x as int, y as int),
        ensures
            final(self)@ == old(self)@.update(x as int, y as int, pixel),
            final(self)@.wf(),
    {
        self.set(x, y, pixel)
    }
}

} // verus!
