//! Canvas normalisation: trimming to the bounding box of the visible pixels
//! and padding to a multiple of a canvas unit.

use vstd::prelude::*;
use vstd::arithmetic::div_mod::{lemma_fundamental_div_mod, lemma_mod_multiples_basic};
use crate::raster::{fits_memory, visited, Grid, Pixel, PixelBuffer};
use crate::window::{lemma_rect_len, rect};

verus! {

/// The pixel lies inside the image and is not fully transparent.
pub open spec fn opaque_at(g: Grid<Pixel>, x: int, y: int) -> bool {
    g.contains(x, y) && g.at(x, y).a > 0
}

/// Some pixel is not fully transparent.
pub open spec fn has_content(g: Grid<Pixel>) -> bool {
    exists|x: int, y: int| opaque_at(g, x, y)
}

/// Some pixel of column `x` is not fully transparent.
pub open spec fn column_used(g: Grid<Pixel>, x: int) -> bool {
    exists|y: int| opaque_at(g, x, y)
}

/// Some pixel of row `y` is not fully transparent.
pub open spec fn row_used(g: Grid<Pixel>, y: int) -> bool {
    exists|x: int| opaque_at(g, x, y)
}

/// Left, top, right and bottom of the tight box around the visible pixels,
/// all four inclusive.
pub struct Bounds {
    pub left: int,
    pub top: int,
    pub right: int,
    pub bottom: int,
}

/// The box holds every visible pixel, and each of its four sides touches one.
pub open spec fn is_bounds(g: Grid<Pixel>, b: Bounds) -> bool {
    &&& column_used(g, b.left)
    &&& column_used(g, b.right)
    &&& row_used(g, b.top)
    &&& row_used(g, b.bottom)
    &&& forall|x: int, y: int| opaque_at(g, x, y) ==> b.left <= x <= b.right && b.top <= y <= b.bottom
}

/// The tight box around the visible pixels.
pub open spec fn content_bounds(g: Grid<Pixel>) -> Bounds {
    choose|b: Bounds| is_bounds(g, b)
}

/// The part of the image that begins at `(x0, y0)` and is `width` by
/// `height` pixels large.
pub open spec fn cropped(g: Grid<Pixel>, x0: int, y0: int, width: nat, height: nat) -> Grid<Pixel> {
    Grid::from_fn(width, height, |x: int, y: int| g.at(x0 + x, y0 + y))
}

/// The image cut to the tight box around its visible pixels, or one
/// transparent pixel where nothing is visible.
pub open spec fn trimmed(g: Grid<Pixel>) -> Grid<Pixel> {
    if has_content(g) {
        let b = content_bounds(g);
        cropped(g, b.left, b.top, (b.right - b.left + 1) as nat, (b.bottom - b.top + 1) as nat)
    } else {
        Grid::filled(1, 1, Pixel::blank())
    }
}

/// An image has at most one tight box around its visible pixels, and the box
/// lies inside the image.
pub proof fn lemma_bounds_unique(g: Grid<Pixel>, b: Bounds)
    requires
        is_bounds(g, b),
    ensures
        content_bounds(g) == b,
        has_content(g),
        0 <= b.left <= b.right < g.width,
        0 <= b.top <= b.bottom < g.height,
{
    let r = content_bounds(g);
    assert(is_bounds(g, r));
    let y1 = choose|y: int| opaque_at(g, b.left, y);
    let y2 = choose|y: int| opaque_at(g, b.right, y);
    let x3 = choose|x: int| opaque_at(g, x, b.top);
    let x4 = choose|x: int| opaque_at(g, x, b.bottom);
    assert(opaque_at(g, b.left, y1) && opaque_at(g, b.right, y2) && opaque_at(g, x3, b.top) && opaque_at(
        g,
        x4,
        b.bottom,
    ));
    let y5 = choose|y: int| opaque_at(g, r.left, y);
    let y6 = choose|y: int| opaque_at(g, r.right, y);
    let x7 = choose|x: int| opaque_at(g, x, r.top);
    let x8 = choose|x: int| opaque_at(g, x, r.bottom);
    assert(opaque_at(g, r.left, y5) && opaque_at(g, r.right, y6) && opaque_at(g, x7, r.top) && opaque_at(
        g,
        x8,
        r.bottom,
    ));
}

/// Copies the part of the image that begins at `(x0, y0)` and is `width` by
/// `height` pixels large.
pub fn crop(img: &PixelBuffer, x0: u32, y0: u32, width: u32, height: u32) -> (out: PixelBuffer)
    requires
        x0 + width <= img@.width,
        y0 + height <= img@.height,
    ensures
        out@ == cropped(img@, x0 as int, y0 as int, width as nat, height as nat),
        out@.wf(),
        out@.width == width,
        out@.height == height,
{
    let (full_width, full_height) = img.dimensions();
    proof {
        assert(width * height <= full_width * full_height) by (nonlinear_arith)
            requires
                0 <= width <= full_width,
                0 <= height <= full_height,
        ;
        Grid::lemma_from_fn(width as nat, height as nat, |x: int, y: int| Pixel::blank());
    }
    let mut out: PixelBuffer = PixelBuffer::new(width, height);
    let mut y: u32 = 0;
    while y < height
        invariant
            img@.wf(),
            img@.width == full_width,
            img@.height == full_height,
            x0 + width <= img@.width,
            y0 + height <= img@.height,
            out@.wf(),
            out@.width == width,
            out@.height == height,
            y <= height,
            forall|i: int, j: int| out@.contains(i, j) && j < y ==> out@.at(i, j) == img@.at(x0 + i, y0 + j),
        decreases height - y,
    {
        let mut x: u32 = 0;
        while x < width
            invariant
                img@.wf(),
                img@.width == full_width,
                img@.height == full_height,
                x0 + width <= img@.width,
                y0 + height <= img@.height,
                out@.wf(),
                out@.width == width,
                out@.height == height,
                y < height,
                x <= width,
                forall|i: int, j: int|
                    out@.contains(i, j) && visited(i, j, x as int, y as int) ==> out@.at(i, j) == img@.at(
                        x0 + i,
                        y0 + j,
                    ),
            decreases width - x,
        {
            let pixel: Pixel = img.get_pixel(x0 + x, y0 + y);
            let ghost before = out@;
            out.put_pixel(x, y, pixel);
            proof {
                before.lemma_update(x as int, y as int, pixel);
            }
            x = x + 1;
        }
        y = y + 1;
    }
    proof {
        Grid::lemma_from_fn(width as nat, height as nat, |x: int, y: int| img@.at(x0 + x, y0 + y));
        out@.lemma_equal(cropped(img@, x0 as int, y0 as int, width as nat, height as nat));
    }
    out
}

/// Left, top, right and bottom of a box of pixels, all four inclusive.
#[derive(Debug, Clone, Copy)]
pub struct ContentBox {
    pub left: u32,
    pub top: u32,
    pub right: u32,
    pub bottom: u32,
}

impl View for ContentBox {
    type V = Bounds;

    open spec fn view(&self) -> Bounds {
        Bounds { left: self.left as int, top: self.top as int, right: self.right as int, bottom: self.bottom as int }
    }
}

/// The tight box around the pixels that are not fully transparent; nothing
/// for an image without such a pixel.
pub fn find_content_bounds(img: &PixelBuffer) -> (found: Option<ContentBox>)
    ensures
        found is None <==> !has_content(img@),
        found is Some ==> is_bounds(img@, found->0@),
{
    let (width, height) = img.dimensions();
    let mut any: bool = false;
    let mut min_x: u32 = 0;
    let mut max_x: u32 = 0;
    let mut min_y: u32 = 0;
    let mut max_y: u32 = 0;
    let ghost mut at_left: int = 0;
    let ghost mut at_right: int = 0;
    let ghost mut at_top: int = 0;
    let ghost mut at_bottom: int = 0;
    let mut y: u32 = 0;
    while y < height
        invariant
            img@.wf(),
            width == img@.width,
            height == img@.height,
            y <= height,
            any ==> opaque_at(img@, min_x as int, at_left) && opaque_at(img@, max_x as int, at_right) && opaque_at(
                img@,
                at_top,
                min_y as int,
            ) && opaque_at(img@, at_bottom, max_y as int),
            any ==> forall|i: int, j: int|
                opaque_at(img@, i, j) && j < y ==> min_x <= i <= max_x && min_y <= j <= max_y,
            !any ==> forall|i: int, j: int| j < y ==> !opaque_at(img@, i, j),
        decreases height - y,
    {
        let mut x: u32 = 0;
        while x < width
            invariant
                img@.wf(),
                width == img@.width,
                height == img@.height,
                y < height,
                x <= width,
                any ==> opaque_at(img@, min_x as int, at_left) && opaque_at(img@, max_x as int, at_right)
                    && opaque_at(img@, at_top, min_y as int) && opaque_at(img@, at_bottom, max_y as int),
                any ==> forall|i: int, j: int|
                    opaque_at(img@, i, j) && visited(i, j, x as int, y as int) ==> min_x <= i <= max_x && min_y
                        <= j <= max_y,
                !any ==> forall|i: int, j: int| visited(i, j, x as int, y as int) ==> !opaque_at(img@, i, j),
            decreases width - x,
        {
            if img.get_pixel(x, y).a > 0 {
                if !any {
                    any = true;
                    min_x = x;
                    max_x = x;
                    min_y = y;
                    max_y = y;
                    proof {
                        at_left = y as int;
                        at_right = y as int;
                        at_top = x as int;
                        at_bottom = x as int;
                    }
                } else {
                    if x < min_x {
                        min_x = x;
                        proof {
                            at_left = y as int;
                        }
                    }
                    if x > max_x {
                        max_x = x;
                        proof {
                            at_right = y as int;
                        }
                    }
                    if y < min_y {
                        min_y = y;
                        proof {
                            at_top = x as int;
                        }
                    }
                    if y > max_y {
                        max_y = y;
                        proof {
                            at_bottom = x as int;
                        }
                    }
                }
            }
            x = x + 1;
        }
        y = y + 1;
    }
    if any {
        proof {
            assert(has_content(img@));
        }
        Some(ContentBox { left: min_x, top: min_y, right: max_x, bottom: max_y })
    } else {
        None
    }
}

/// Cuts the image to the tight box around its pixels that are not fully
/// transparent. An image without such a pixel becomes one transparent pixel.
pub fn auto_trim(img: &PixelBuffer) -> (out: PixelBuffer)
    ensures
        out@ == trimmed(img@),
        out@.wf(),
        out@.width >= 1,
        out@.height >= 1,
        fits_memory(out@.width as int, out@.height as int),
        !has_content(img@) ==> out@.width == 1 && out@.height == 1,
        has_content(img@) ==> out@.width <= img@.width && out@.height <= img@.height,
{
    let (width, height) = img.dimensions();
    match find_content_bounds(img) {
        Some(found) => {
            proof {
                lemma_bounds_unique(img@, found@);
            }
            let out = crop(img, found.left, found.top, found.right - found.left + 1, found.bottom - found.top + 1);
            let (w, h) = out.dimensions();
            out
        },
        None => {
            proof {
                Grid::lemma_from_fn(1, 1, |x: int, y: int| Pixel::blank());
            }
            let out = PixelBuffer::new(1, 1);
            let (w, h) = out.dimensions();
            out
        },
    }
}

/// The least multiple of `m` that is not below `v`.
pub open spec fn round_up(v: int, m: int) -> int {
    ((v + m - 1) / m) * m
}

/// A pixel laid over a transparent canvas: the pixel itself, and the
/// transparent canvas where the pixel is fully transparent.
pub open spec fn laid_over_blank(p: Pixel) -> Pixel {
    if p.a == 0 {
        Pixel::blank()
    } else {
        p
    }
}

/// Space that padding leaves before the image along a side: half of the
/// added pixels, rounded down.
pub open spec fn pad_offset(extent: int, m: int) -> int {
    (round_up(extent, m) - extent) / 2
}

/// The image centred on a transparent canvas whose sides are the next
/// multiples of `m`, or the image itself where both sides are such multiples
/// already.
pub open spec fn padded(g: Grid<Pixel>, m: int) -> Grid<Pixel> {
    let new_width = round_up(g.width as int, m);
    let new_height = round_up(g.height as int, m);
    if new_width == g.width && new_height == g.height {
        g
    } else {
        Grid::from_fn(
            new_width as nat,
            new_height as nat,
            |x: int, y: int|
                if g.contains(x - pad_offset(g.width as int, m), y - pad_offset(g.height as int, m)) {
                    laid_over_blank(g.at(x - pad_offset(g.width as int, m), y - pad_offset(g.height as int, m)))
                } else {
                    Pixel::blank()
                },
        )
    }
}

/// `round_up(v, m)` is a multiple of `m`, not below `v` and less than `m`
/// above it.
pub proof fn lemma_round_up(v: int, m: int)
    requires
        0 <= v,
        1 <= m,
    ensures
        v <= round_up(v, m) < v + m,
        round_up(v, m) % m == 0,
        0 <= pad_offset(v, m),
        pad_offset(v, m) + v <= round_up(v, m),
        0 <= round_up(v, m) - v - 2 * pad_offset(v, m) <= 1,
{
    let t = v + m - 1;
    let q = t / m;
    lemma_fundamental_div_mod(t, m);
    lemma_mod_multiples_basic(q, m);
    assert(q * m == m * q) by (nonlinear_arith);
}

fn next_multiple(v: u32, m: u32) -> (r: u64)
    requires
        m >= 1,
    ensures
        r == round_up(v as int, m as int),
{
    proof {
        lemma_round_up(v as int, m as int);
    }
    let q: u64 = (v as u64 + m as u64 - 1) / (m as u64);
    q * (m as u64)
}

/// The padded sides are still sides of an image, and the padded canvas can
/// be held in memory.
pub open spec fn can_pad(g: Grid<Pixel>, m: int) -> bool {
    &&& m >= 1
    &&& round_up(g.width as int, m) <= u32::MAX
    &&& round_up(g.height as int, m) <= u32::MAX
    &&& fits_memory(round_up(g.width as int, m), round_up(g.height as int, m))
}

/// Whether the image can be padded to multiples of `multiple`: the multiple
/// is not zero, the padded sides fit in 32 bits, and the padded canvas can be
/// held in memory.
pub fn can_pad_to(img: &PixelBuffer, multiple: u32) -> (ok: bool)
    ensures
        ok == can_pad(img@, multiple as int),
{
    let (width, height) = img.dimensions();
    if multiple == 0 {
        return false;
    }
    let new_width: u64 = next_multiple(width, multiple);
    let new_height: u64 = next_multiple(height, multiple);
    proof {
        lemma_round_up(width as int, multiple as int);
        lemma_round_up(height as int, multiple as int);
    }
    if new_width > 0xFFFF_FFFF || new_height > 0xFFFF_FFFF {
        return false;
    }
    assert(new_width * new_height <= 0xFFFF_FFFF * 0xFFFF_FFFF) by (nonlinear_arith)
        requires
            new_width <= 0xFFFF_FFFF,
            new_height <= 0xFFFF_FFFF,
    ;
    (new_width as u128) * (new_height as u128) * 4 <= isize::MAX as u128
}

/// Centres the image on a transparent canvas whose sides are the next
/// multiples of `multiple`. Pixels that are fully transparent become
/// transparent black. An image whose sides are such multiples already is
/// copied as it is.
pub fn pad_to_multiple(img: &PixelBuffer, multiple: u32) -> (out: PixelBuffer)
    requires
        can_pad(img@, multiple as int),
    ensures
        out@ == padded(img@, multiple as int),
        out@.wf(),
        out@.width == round_up(img@.width as int, multiple as int),
        out@.height == round_up(img@.height as int, multiple as int),
        out@.width % (multiple as nat) == 0,
        out@.height % (multiple as nat) == 0,
{
    let (width, height) = img.dimensions();
    let ghost m = multiple as int;
    proof {
        lemma_round_up(width as int, m);
        lemma_round_up(height as int, m);
    }
    let new_width: u32 = next_multiple(width, multiple) as u32;
    let new_height: u32 = next_multiple(height, multiple) as u32;
    if new_width == width && new_height == height {
        return img.duplicate();
    }
    let offset_x: u32 = (new_width - width) / 2;
    let offset_y: u32 = (new_height - height) / 2;
    let mut out: PixelBuffer = PixelBuffer::new(new_width, new_height);
    proof {
        Grid::lemma_from_fn(new_width as nat, new_height as nat, |x: int, y: int| Pixel::blank());
    }
    let ghost blank = out@;
    let mut y: u32 = 0;
    while y < height
        invariant
            img@.wf(),
            width == img@.width,
            height == img@.height,
            offset_x == pad_offset(width as int, m),
            offset_y == pad_offset(height as int, m),
            offset_x + width <= new_width,
            offset_y + height <= new_height,
            out@.wf(),
            out@.width == new_width,
            out@.height == new_height,
            y <= height,
            forall|i: int, j: int|
                out@.contains(i, j) ==> out@.at(i, j) == if img@.contains(i - offset_x, j - offset_y) && j
                    - offset_y < y {
                    laid_over_blank(img@.at(i - offset_x, j - offset_y))
                } else {
                    Pixel::blank()
                },
        decreases height - y,
    {
        let mut x: u32 = 0;
        while x < width
            invariant
                img@.wf(),
                width == img@.width,
                height == img@.height,
                offset_x == pad_offset(width as int, m),
                offset_y == pad_offset(height as int, m),
                offset_x + width <= new_width,
                offset_y + height <= new_height,
                out@.wf(),
                out@.width == new_width,
                out@.height == new_height,
                y < height,
                x <= width,
                forall|i: int, j: int|
                    out@.contains(i, j) ==> out@.at(i, j) == if img@.contains(i - offset_x, j - offset_y)
                        && visited(i - offset_x, j - offset_y, x as int, y as int) {
                        laid_over_blank(img@.at(i - offset_x, j - offset_y))
                    } else {
                        Pixel::blank()
                    },
            decreases width - x,
        {
            let pixel: Pixel = img.get_pixel(x, y);
            if pixel.a != 0 {
                let ghost before = out@;
                out.put_pixel(offset_x + x, offset_y + y, pixel);
                proof {
                    before.lemma_update(offset_x + x, offset_y + y, pixel);
                }
            }
            x = x + 1;
        }
        y = y + 1;
    }
    proof {
        let target = padded(img@, m);
        let ox = pad_offset(width as int, m);
        let oy = pad_offset(height as int, m);
        Grid::lemma_from_fn(
            new_width as nat,
            new_height as nat,
            |x: int, y: int|
                if img@.contains(x - pad_offset(img@.width as int, m), y - pad_offset(img@.height as int, m)) {
                    laid_over_blank(
                        img@.at(x - pad_offset(img@.width as int, m), y - pad_offset(img@.height as int, m)),
                    )
                } else {
                    Pixel::blank()
                },
        );
        assert forall|i: int, j: int| out@.contains(i, j) implies out@.at(i, j) == target.at(i, j) by {
            if img@.contains(i - ox, j - oy) {
                assert(j - oy < height);
            }
        }
        out@.lemma_equal(target);
    }
    out
}

/// How far trimming and padding to multiples of `m` move a pixel to the
/// right.
pub open spec fn shift_x(g: Grid<Pixel>, m: int) -> int {
    pad_offset(trimmed(g).width as int, m) - content_bounds(g).left
}

/// How far trimming and padding to multiples of `m` move a pixel down.
pub open spec fn shift_y(g: Grid<Pixel>, m: int) -> int {
    pad_offset(trimmed(g).height as int, m) - content_bounds(g).top
}

/// Trimming and then padding to multiples of `m` gives a canvas whose sides
/// are multiples of `m`, on which every visible pixel of the image is found
/// again, moved by one and the same offset, with margins that differ by at
/// most one pixel between left and right and between top and bottom.
pub proof fn lemma_pad_after_trim(g: Grid<Pixel>, m: int)
    requires
        g.wf(),
        m >= 1,
    ensures
        padded(trimmed(g), m).wf(),
        padded(trimmed(g), m).width % (m as nat) == 0,
        padded(trimmed(g), m).height % (m as nat) == 0,
        padded(trimmed(g), m).width >= trimmed(g).width,
        padded(trimmed(g), m).height >= trimmed(g).height,
        0 <= padded(trimmed(g), m).width - trimmed(g).width - 2 * pad_offset(trimmed(g).width as int, m) <= 1,
        0 <= padded(trimmed(g), m).height - trimmed(g).height - 2 * pad_offset(trimmed(g).height as int, m) <= 1,
        forall|x: int, y: int| #[trigger]
            opaque_at(g, x, y) ==> padded(trimmed(g), m).contains(x + shift_x(g, m), y + shift_y(g, m)) && padded(
                trimmed(g),
                m,
            ).at(x + shift_x(g, m), y + shift_y(g, m)) == g.at(x, y),
{
    let t = trimmed(g);
    let p = padded(t, m);
    lemma_trimmed(g);
    lemma_round_up(t.width as int, m);
    lemma_round_up(t.height as int, m);
    let ox = pad_offset(t.width as int, m);
    let oy = pad_offset(t.height as int, m);
    let nw = round_up(t.width as int, m);
    let nh = round_up(t.height as int, m);
    let f = |x: int, y: int|
        if t.contains(x - pad_offset(t.width as int, m), y - pad_offset(t.height as int, m)) {
            laid_over_blank(t.at(x - pad_offset(t.width as int, m), y - pad_offset(t.height as int, m)))
        } else {
            Pixel::blank()
        };
    Grid::lemma_from_fn(nw as nat, nh as nat, f);
    if nw == t.width && nh == t.height {
        assert(p == t);
    } else {
        assert(p == Grid::from_fn(nw as nat, nh as nat, f));
    }
    assert forall|x: int, y: int| #[trigger] opaque_at(g, x, y) implies padded(trimmed(g), m).contains(
        x + shift_x(g, m),
        y + shift_y(g, m),
    ) && padded(trimmed(g), m).at(x + shift_x(g, m), y + shift_y(g, m)) == g.at(x, y) by {
        let b = content_bounds(g);
        assert(has_content(g));
        let i = x - b.left;
        let j = y - b.top;
        assert(t.contains(i, j));
        assert(t.at(i, j) == g.at(x, y));
        if nw == t.width && nh == t.height {
        } else {
            assert(p.at(i + ox, j + oy) == f(i + ox, j + oy));
        }
    }
}

/// The trimmed image is well formed, at least one pixel large, and where
/// the image has visible pixels it is the box around them, pixel for pixel.
pub proof fn lemma_trimmed(g: Grid<Pixel>)
    requires
        g.wf(),
    ensures
        trimmed(g).wf(),
        trimmed(g).width >= 1,
        trimmed(g).height >= 1,
        !has_content(g) ==> trimmed(g).width == 1 && trimmed(g).height == 1 && trimmed(g).at(0, 0) == Pixel::blank(),
        has_content(g) ==> {
            let b = content_bounds(g);
            &&& is_bounds(g, b)
            &&& 0 <= b.left <= b.right < g.width
            &&& 0 <= b.top <= b.bottom < g.height
            &&& trimmed(g).width == b.right - b.left + 1
            &&& trimmed(g).height == b.bottom - b.top + 1
            &&& forall|i: int, j: int|
                trimmed(g).contains(i, j) ==> #[trigger] trimmed(g).at(i, j) == g.at(b.left + i, b.top + j)
        },
{
    if has_content(g) {
        lemma_bounds_exist(g);
        let b = content_bounds(g);
        lemma_bounds_unique(g, b);
        Grid::lemma_from_fn(
            (b.right - b.left + 1) as nat,
            (b.bottom - b.top + 1) as nat,
            |x: int, y: int| g.at(b.left + x, b.top + y),
        );
    } else {
        Grid::lemma_from_fn(1, 1, |x: int, y: int| Pixel::blank());
    }
}

/// The least column from `from` on that holds a visible pixel.
spec fn first_column(g: Grid<Pixel>, from: int) -> int
    decreases g.width - from,
{
    if from >= g.width || column_used(g, from) {
        from
    } else {
        first_column(g, from + 1)
    }
}

spec fn last_column(g: Grid<Pixel>, from: int) -> int
    decreases from,
{
    if from <= 0 || column_used(g, from) {
        from
    } else {
        last_column(g, from - 1)
    }
}

spec fn first_row(g: Grid<Pixel>, from: int) -> int
    decreases g.height - from,
{
    if from >= g.height || row_used(g, from) {
        from
    } else {
        first_row(g, from + 1)
    }
}

spec fn last_row(g: Grid<Pixel>, from: int) -> int
    decreases from,
{
    if from <= 0 || row_used(g, from) {
        from
    } else {
        last_row(g, from - 1)
    }
}

proof fn lemma_first_column(g: Grid<Pixel>, from: int, x: int, y: int)
    requires
        0 <= from <= x,
        opaque_at(g, x, y),
    ensures
        from <= first_column(g, from) <= x,
        column_used(g, first_column(g, from)),
        forall|i: int| from <= i < first_column(g, from) ==> !column_used(g, i),
    decreases g.width - from,
{
    if column_used(g, from) {
    } else {
        assert(from != x);
        lemma_first_column(g, from + 1, x, y);
    }
}

proof fn lemma_last_column(g: Grid<Pixel>, from: int, x: int, y: int)
    requires
        x <= from,
        opaque_at(g, x, y),
    ensures
        x <= last_column(g, from) <= from,
        column_used(g, last_column(g, from)),
        forall|i: int| last_column(g, from) < i <= from ==> !column_used(g, i),
    decreases from,
{
    if column_used(g, from) {
    } else {
        assert(from != x);
        lemma_last_column(g, from - 1, x, y);
    }
}

proof fn lemma_first_row(g: Grid<Pixel>, from: int, x: int, y: int)
    requires
        0 <= from <= y,
        opaque_at(g, x, y),
    ensures
        from <= first_row(g, from) <= y,
        row_used(g, first_row(g, from)),
        forall|j: int| from <= j < first_row(g, from) ==> !row_used(g, j),
    decreases g.height - from,
{
    if row_used(g, from) {
    } else {
        assert(from != y);
        lemma_first_row(g, from + 1, x, y);
    }
}

proof fn lemma_last_row(g: Grid<Pixel>, from: int, x: int, y: int)
    requires
        y <= from,
        opaque_at(g, x, y),
    ensures
        y <= last_row(g, from) <= from,
        row_used(g, last_row(g, from)),
        forall|j: int| last_row(g, from) < j <= from ==> !row_used(g, j),
    decreases from,
{
    if row_used(g, from) {
    } else {
        assert(from != y);
        lemma_last_row(g, from - 1, x, y);
    }
}

/// An image with a visible pixel has a tight box around its visible pixels.
pub proof fn lemma_bounds_exist(g: Grid<Pixel>)
    requires
        has_content(g),
    ensures
        is_bounds(g, content_bounds(g)),
{
    let (x, y) = choose|x: int, y: int| opaque_at(g, x, y);
    lemma_first_column(g, 0, x, y);
    lemma_last_column(g, g.width - 1, x, y);
    lemma_first_row(g, 0, x, y);
    lemma_last_row(g, g.height - 1, x, y);
    let b = Bounds {
        left: first_column(g, 0),
        top: first_row(g, 0),
        right: last_column(g, g.width - 1),
        bottom: last_row(g, g.height - 1),
    };
    assert forall|i: int, j: int| opaque_at(g, i, j) implies b.left <= i <= b.right && b.top <= j <= b.bottom by {
        assert(column_used(g, i));
        assert(row_used(g, j));
    }
    assert(is_bounds(g, b));
}

/// How many pixels of the sequence are not fully transparent.
pub open spec fn visible_count(pixels: Seq<Pixel>) -> int
    decreases pixels.len(),
{
    if pixels.len() == 0 {
        0
    } else {
        visible_count(pixels.drop_last()) + if pixels.last().a > 0 {
            1int
        } else {
            0int
        }
    }
}

/// How many pixels of the image are not fully transparent.
pub open spec fn opaque_count(g: Grid<Pixel>) -> int {
    visible_count(rect(g, 0, g.width as int, 0, g.height as int))
}

proof fn lemma_visible_count_push(pixels: Seq<Pixel>, p: Pixel)
    ensures
        visible_count(pixels.push(p)) == visible_count(pixels) + if p.a > 0 {
            1int
        } else {
            0int
        },
        0 <= visible_count(pixels) <= pixels.len(),
    decreases pixels.len(),
{
    assert(pixels.push(p).drop_last() =~= pixels);
    if pixels.len() > 0 {
        lemma_visible_count_push(pixels.drop_last(), pixels.last());
        assert(pixels.drop_last().push(pixels.last()) =~= pixels);
    }
}

/// Counts the pixels that are not fully transparent.
pub fn count_opaque_pixels(img: &PixelBuffer) -> (count: usize)
    ensures
        count == opaque_count(img@),
        count <= img@.width * img@.height,
{
    let (width, height) = img.dimensions();
    let ghost g = img@;
    let mut count: usize = 0;
    let ghost mut seen: Seq<Pixel> = Seq::empty();
    let mut y: u32 = 0;
    while y < height
        invariant
            g == img@,
            g.wf(),
            width == g.width,
            height == g.height,
            fits_memory(g.width as int, g.height as int),
            y <= height,
            seen == rect(g, 0, width as int, 0, y as int),
            count == visible_count(seen),
        decreases height - y,
    {
        let mut x: u32 = 0;
        while x < width
            invariant
                g == img@,
                g.wf(),
                width == g.width,
                height == g.height,
                fits_memory(g.width as int, g.height as int),
                y < height,
                x <= width,
                seen == rect(g, 0, width as int, 0, y as int) + g.rows[y as int].subrange(0, x as int),
                count == visible_count(seen),
            decreases width - x,
        {
            let pixel: Pixel = img.get_pixel(x, y);
            proof {
                lemma_rect_len(g, 0, width as int, 0, y as int);
                lemma_visible_count_push(seen, pixel);
                assert(y * width + width <= height * width) by (nonlinear_arith)
                    requires
                        y < height,
                        width >= 0,
                ;
                assert(height * width == g.width * g.height) by (nonlinear_arith)
                    requires
                        width == g.width,
                        height == g.height,
                ;
                assert(seen.push(pixel) =~= rect(g, 0, width as int, 0, y as int) + g.rows[y as int].subrange(
                    0,
                    x as int + 1,
                ));
                seen = seen.push(pixel);
            }
            if pixel.a > 0 {
                count = count + 1;
            }
            x = x + 1;
        }
        proof {
            assert(g.rows[y as int].subrange(0, x as int) == g.rows[y as int].subrange(0, width as int));
        }
        y = y + 1;
    }
    proof {
        lemma_rect_len(g, 0, width as int, 0, height as int);
        lemma_visible_count_push(seen, Pixel::blank());
        assert(height * width == g.width * g.height) by (nonlinear_arith)
            requires
                width == g.width,
                height == g.height,
        ;
    }
    count
}

} // verus!
