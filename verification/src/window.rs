//! Rectangular windows of an image: their colours as a sequence, and the
//! statistics that the later stages take of them.

use vstd::prelude::*;
use crate::num::{max_int, min_int};
use crate::raster::{Grid, Pixel, PixelBuffer};
use crate::stats::{dispersion, lemma_dispersion_bound, lemma_total_bounds, lemma_total_push, total, total_sq};

verus! {

/// The lower end of a window of `radius` around `center`.
pub fn low_bound(center: u32, radius: u32) -> (low: u32)
    ensures
        low == max_int(center - radius, 0),
{
    if center >= radius {
        center - radius
    } else {
        0
    }
}

/// The upper end of a window of `radius` around `center` in a side of length
/// `limit`: the first position that no longer belongs to it.
pub fn high_bound(center: u32, radius: u32, limit: u32) -> (high: u32)
    ensures
        high == min_int(center + radius + 1, limit as int),
{
    let reach: u64 = center as u64 + radius as u64 + 1;
    if reach < limit as u64 {
        reach as u32
    } else {
        limit
    }
}

/// The colour of every pixel, without alpha.
pub open spec fn colors(g: Grid<Pixel>) -> Grid<[u8; 3]> {
    Grid::from_fn(g.width, g.height, |x: int, y: int| g.at(x, y).color())
}

/// `colors` keeps the shape of the image and holds the colour of each pixel.
pub proof fn lemma_colors(g: Grid<Pixel>)
    ensures
        colors(g).wf(),
        colors(g).width == g.width,
        colors(g).height == g.height,
        forall|x: int, y: int| g.contains(x, y) ==> #[trigger] colors(g).at(x, y) == g.at(x, y).color(),
{
    Grid::lemma_from_fn(g.width, g.height, |x: int, y: int| g.at(x, y).color());
}

/// The cells of columns `x0..x1` of rows `y0..y1`, row by row.
pub open spec fn rect<T>(g: Grid<T>, x0: int, x1: int, y0: int, y1: int) -> Seq<T>
    decreases y1 - y0,
{
    if y1 <= y0 {
        Seq::empty()
    } else {
        rect(g, x0, x1, y0, y1 - 1) + g.rows[y1 - 1].subrange(x0, x1)
    }
}

/// A rectangle that lies inside the grid.
pub open spec fn rect_inside<T>(g: Grid<T>, x0: int, x1: int, y0: int, y1: int) -> bool {
    0 <= x0 <= x1 <= g.width && 0 <= y0 <= y1 <= g.height
}

/// A rectangle inside the grid has as many cells as its area.
pub proof fn lemma_rect_len<T>(g: Grid<T>, x0: int, x1: int, y0: int, y1: int)
    requires
        g.wf(),
        rect_inside(g, x0, x1, y0, y1),
    ensures
        rect(g, x0, x1, y0, y1).len() == (y1 - y0) * (x1 - x0),
    decreases y1 - y0,
{
    if y1 > y0 {
        lemma_rect_len(g, x0, x1, y0, y1 - 1);
        assert((y1 - 1 - y0) * (x1 - x0) + (x1 - x0) == (y1 - y0) * (x1 - x0)) by (nonlinear_arith);
    } else {
        assert((y1 - y0) * (x1 - x0) == 0) by (nonlinear_arith)
            requires
                y1 - y0 == 0,
        ;
    }
}

/// Where the cell `(x, y)` stands in the sequence of its rectangle.
pub proof fn lemma_rect_index<T>(g: Grid<T>, x0: int, x1: int, y0: int, y1: int, x: int, y: int)
    requires
        g.wf(),
        rect_inside(g, x0, x1, y0, y1),
        x0 <= x < x1,
        y0 <= y < y1,
    ensures
        0 <= (y - y0) * (x1 - x0) + (x - x0) < rect(g, x0, x1, y0, y1).len(),
        rect(g, x0, x1, y0, y1)[(y - y0) * (x1 - x0) + (x - x0)] == g.at(x, y),
    decreases y1 - y0,
{
    lemma_rect_len(g, x0, x1, y0, y1);
    lemma_rect_len(g, x0, x1, y0, y1 - 1);
    assert(0 <= (y - y0) * (x1 - x0)) by (nonlinear_arith)
        requires
            y0 <= y,
            x0 <= x1,
    ;
    assert((y - y0) * (x1 - x0) + (x1 - x0) <= (y1 - y0) * (x1 - x0)) by (nonlinear_arith)
        requires
            y0 <= y < y1,
            x0 <= x1,
    ;
    if y == y1 - 1 {
    } else {
        lemma_rect_index(g, x0, x1, y0, y1 - 1, x, y);
        assert((y - y0) * (x1 - x0) + (x1 - x0) <= (y1 - 1 - y0) * (x1 - x0)) by (nonlinear_arith)
            requires
                y0 <= y < y1 - 1,
                x0 <= x1,
        ;
    }
}

/// Every element of the sequence is a cell of the rectangle.
pub proof fn lemma_rect_origin<T>(g: Grid<T>, x0: int, x1: int, y0: int, y1: int, i: int) -> (p: (int, int))
    requires
        g.wf(),
        rect_inside(g, x0, x1, y0, y1),
        0 <= i < rect(g, x0, x1, y0, y1).len(),
    ensures
        x0 <= p.0 < x1,
        y0 <= p.1 < y1,
        rect(g, x0, x1, y0, y1)[i] == g.at(p.0, p.1),
    decreases y1 - y0,
{
    lemma_rect_len(g, x0, x1, y0, y1);
    if y1 <= y0 {
        (0, 0)
    } else {
        lemma_rect_len(g, x0, x1, y0, y1 - 1);
        let before = rect(g, x0, x1, y0, y1 - 1);
        if i < before.len() {
            lemma_rect_origin(g, x0, x1, y0, y1 - 1, i)
        } else {
            (x0 + (i - before.len()), y1 - 1)
        }
    }
}

/// One colour channel of a sequence of colours.
pub open spec fn channel(s: Seq<[u8; 3]>, k: int) -> Seq<int> {
    Seq::new(s.len(), |i: int| s[i][k] as int)
}

/// Sum over the three channels of the channel's dispersion.
pub open spec fn dispersion3(s: Seq<[u8; 3]>) -> int {
    dispersion(channel(s, 0)) + dispersion(channel(s, 1)) + dispersion(channel(s, 2))
}

/// Largest value of channel `k`, or 0 for no colours.
pub open spec fn channel_max(s: Seq<[u8; 3]>, k: int) -> int
    decreases s.len(),
{
    if s.len() == 0 {
        0
    } else {
        let m = channel_max(s.drop_last(), k);
        if s.last()[k] > m {
            s.last()[k] as int
        } else {
            m
        }
    }
}

/// Smallest value of channel `k`, or 255 for no colours.
pub open spec fn channel_min(s: Seq<[u8; 3]>, k: int) -> int
    decreases s.len(),
{
    if s.len() == 0 {
        255
    } else {
        let m = channel_min(s.drop_last(), k);
        if s.last()[k] < m {
            s.last()[k] as int
        } else {
            m
        }
    }
}

/// Sum over the three channels of the distance between the channel's largest
/// and smallest value; 0 for no colours.
pub open spec fn value_range(s: Seq<[u8; 3]>) -> int {
    if s.len() == 0 {
        0
    } else {
        (channel_max(s, 0) - channel_min(s, 0)) + (channel_max(s, 1) - channel_min(s, 1)) + (channel_max(s, 2)
            - channel_min(s, 2))
    }
}

/// `channel_max` and `channel_min` bound every element and, for a sequence
/// that is not empty, are attained.
pub proof fn lemma_channel_extremes(s: Seq<[u8; 3]>, k: int)
    requires
        0 <= k < 3,
    ensures
        0 <= channel_max(s, k) <= 255,
        0 <= channel_min(s, k) <= 255,
        forall|i: int| 0 <= i < s.len() ==> channel_min(s, k) <= (#[trigger] s[i])[k] <= channel_max(s, k),
        s.len() > 0 ==> exists|i: int| 0 <= i < s.len() && (#[trigger] s[i])[k] == channel_max(s, k),
        s.len() > 0 ==> exists|i: int| 0 <= i < s.len() && (#[trigger] s[i])[k] == channel_min(s, k),
    decreases s.len(),
{
    if s.len() > 0 {
        let p = s.drop_last();
        lemma_channel_extremes(p, k);
        let last = s.len() - 1;
        assert forall|i: int| 0 <= i < s.len() implies channel_min(s, k) <= (#[trigger] s[i])[k] <= channel_max(
            s,
            k,
        ) by {
            if i < p.len() {
                assert(p[i] == s[i]);
            }
        }
        if s.last()[k] > channel_max(p, k) || p.len() == 0 {
            assert(s[last][k] == channel_max(s, k));
        } else {
            let i = choose|i: int| 0 <= i < p.len() && (#[trigger] p[i])[k] == channel_max(p, k);
            assert(s[i][k] == channel_max(s, k));
        }
        if s.last()[k] < channel_min(p, k) || p.len() == 0 {
            assert(s[last][k] == channel_min(s, k));
        } else {
            let i = choose|i: int| 0 <= i < p.len() && (#[trigger] p[i])[k] == channel_min(p, k);
            assert(s[i][k] == channel_min(s, k));
        }
    }
}

/// What a further colour does to the channel, to its sums and to its
/// extremes.
pub proof fn lemma_channel_push(s: Seq<[u8; 3]>, c: [u8; 3], k: int)
    requires
        0 <= k < 3,
    ensures
        channel(s.push(c), k) == channel(s, k).push(c[k] as int),
        total(channel(s.push(c), k)) == total(channel(s, k)) + c[k],
        total_sq(channel(s.push(c), k)) == total_sq(channel(s, k)) + c[k] * c[k],
        channel_max(s.push(c), k) == if c[k] > channel_max(s, k) {
            c[k] as int
        } else {
            channel_max(s, k)
        },
        channel_min(s.push(c), k) == if c[k] < channel_min(s, k) {
            c[k] as int
        } else {
            channel_min(s, k)
        },
{
    assert(channel(s.push(c), k) =~= channel(s, k).push(c[k] as int));
    lemma_total_push(channel(s, k), c[k] as int);
    assert(s.push(c).drop_last() =~= s);
}

/// Sums of a channel and of its squares stay within `255 * n` and `255^2 * n`,
/// and the dispersion within `(255 * n)^2`.
pub proof fn lemma_channel_bounds(s: Seq<[u8; 3]>, k: int)
    requires
        0 <= k < 3,
    ensures
        0 <= total(channel(s, k)) <= s.len() * 255,
        0 <= total_sq(channel(s, k)) <= s.len() * 65025,
        0 <= dispersion(channel(s, k)) <= s.len() * s.len() * 65025,
{
    lemma_total_bounds(channel(s, k), 255);
    lemma_dispersion_bound(channel(s, k), 255);
}

/// Sums of the three channels and of their squares over a window.
struct Moments {
    count: u64,
    sum: [u64; 3],
    sum_sq: [u64; 3],
}

impl Moments {
    spec fn describes(self, s: Seq<[u8; 3]>) -> bool {
        &&& self.count == s.len()
        &&& forall|k: int| 0 <= k < 3 ==> (#[trigger] self.sum[k]) == total(channel(s, k))
        &&& forall|k: int| 0 <= k < 3 ==> (#[trigger] self.sum_sq[k]) == total_sq(channel(s, k))
    }
}

fn rect_moments(img: &PixelBuffer, x0: u32, x1: u32, y0: u32, y1: u32) -> (m: Moments)
    requires
        rect_inside(img@, x0 as int, x1 as int, y0 as int, y1 as int),
        (y1 - y0) * (x1 - x0) <= 0xFFFF_FFFF,
    ensures
        m.describes(rect(colors(img@), x0 as int, x1 as int, y0 as int, y1 as int)),
{
    let (width, height) = img.dimensions();
    let ghost c = colors(img@);
    proof {
        lemma_colors(img@);
    }
    let mut count: u64 = 0;
    let mut sum: [u64; 3] = [0, 0, 0];
    let mut sum_sq: [u64; 3] = [0, 0, 0];
    let ghost mut seen: Seq<[u8; 3]> = Seq::empty();
    let mut y: u32 = y0;
    while y < y1
        invariant
            img@.wf(),
            c == colors(img@),
            c.wf(),
            rect_inside(img@, x0 as int, x1 as int, y0 as int, y1 as int),
            (y1 - y0) * (x1 - x0) <= 0xFFFF_FFFF,
            y0 <= y <= y1,
            seen == rect(c, x0 as int, x1 as int, y0 as int, y as int),
            count == seen.len(),
            forall|k: int| 0 <= k < 3 ==> (#[trigger] sum[k]) == total(channel(seen, k)),
            forall|k: int| 0 <= k < 3 ==> (#[trigger] sum_sq[k]) == total_sq(channel(seen, k)),
        decreases y1 - y,
    {
        let mut x: u32 = x0;
        while x < x1
            invariant
                img@.wf(),
                c == colors(img@),
                c.wf(),
                rect_inside(img@, x0 as int, x1 as int, y0 as int, y1 as int),
                (y1 - y0) * (x1 - x0) <= 0xFFFF_FFFF,
                y0 <= y < y1,
                x0 <= x <= x1,
                seen == rect(c, x0 as int, x1 as int, y0 as int, y as int) + c.rows[y as int].subrange(
                    x0 as int,
                    x as int,
                ),
                count == seen.len(),
                forall|k: int| 0 <= k < 3 ==> (#[trigger] sum[k]) == total(channel(seen, k)),
                forall|k: int| 0 <= k < 3 ==> (#[trigger] sum_sq[k]) == total_sq(channel(seen, k)),
            decreases x1 - x,
        {
            let color: [u8; 3] = img.get_pixel(x, y).rgb();
            proof {
                lemma_colors(img@);
                assert(c.at(x as int, y as int) == color);
                lemma_rect_len(c, x0 as int, x1 as int, y0 as int, y as int);
                assert(seen.len() == (y - y0) * (x1 - x0) + (x - x0));
                assert((y - y0) * (x1 - x0) + (x1 - x0) <= (y1 - y0) * (x1 - x0)) by (nonlinear_arith)
                    requires
                        y0 <= y < y1,
                        x0 <= x1,
                ;
                lemma_channel_bounds(seen, 0);
                lemma_channel_bounds(seen, 1);
                lemma_channel_bounds(seen, 2);
                lemma_channel_push(seen, color, 0);
                lemma_channel_push(seen, color, 1);
                lemma_channel_push(seen, color, 2);
                assert(seen.push(color) =~= rect(c, x0 as int, x1 as int, y0 as int, y as int)
                    + c.rows[y as int].subrange(x0 as int, x as int + 1));
                assert(seen.len() * 255 <= 0xFFFF_FFFF * 255) by (nonlinear_arith)
                    requires
                        seen.len() <= 0xFFFF_FFFF,
                ;
                assert(seen.len() * 65025 <= 0xFFFF_FFFF * 65025) by (nonlinear_arith)
                    requires
                        seen.len() <= 0xFFFF_FFFF,
                ;
                seen = seen.push(color);
            }
            let r: u64 = color[0] as u64;
            let g: u64 = color[1] as u64;
            let b: u64 = color[2] as u64;
            assert(r * r <= 65025 && g * g <= 65025 && b * b <= 65025) by (nonlinear_arith)
                requires
                    r <= 255,
                    g <= 255,
                    b <= 255,
            ;
            sum = [sum[0] + r, sum[1] + g, sum[2] + b];
            sum_sq = [sum_sq[0] + r * r, sum_sq[1] + g * g, sum_sq[2] + b * b];
            count = count + 1;
            x = x + 1;
        }
        proof {
            assert(c.rows[y as int].subrange(x0 as int, x as int) == c.rows[y as int].subrange(x0 as int, x1 as int));
        }
        y = y + 1;
    }
    Moments { count, sum, sum_sq }
}

/// Dispersion of the colours in columns `x0..x1` of rows `y0..y1`, summed over
/// the three channels.
pub fn rect_dispersion(img: &PixelBuffer, x0: u32, x1: u32, y0: u32, y1: u32) -> (d: u128)
    requires
        rect_inside(img@, x0 as int, x1 as int, y0 as int, y1 as int),
        (y1 - y0) * (x1 - x0) <= 0xFFFF_FFFF,
    ensures
        d == dispersion3(rect(colors(img@), x0 as int, x1 as int, y0 as int, y1 as int)),
{
    let (width, height) = img.dimensions();
    let m = rect_moments(img, x0, x1, y0, y1);
    let ghost s = rect(colors(img@), x0 as int, x1 as int, y0 as int, y1 as int);
    proof {
        lemma_colors(img@);
        lemma_rect_len(colors(img@), x0 as int, x1 as int, y0 as int, y1 as int);
    }
    let n: u128 = m.count as u128;
    let mut d: u128 = 0;
    let mut k: usize = 0;
    while k < 3
        invariant
            0 <= k <= 3,
            m.describes(s),
            n == s.len(),
            n <= 0xFFFF_FFFF,
            k == 0 ==> d == 0,
            k == 1 ==> d == dispersion(channel(s, 0)),
            k == 2 ==> d == dispersion(channel(s, 0)) + dispersion(channel(s, 1)),
            k == 3 ==> d == dispersion3(s),
            d <= k * (n * n * 65025),
        decreases 3 - k,
    {
        proof {
            lemma_channel_bounds(s, k as int);
            assert(n * n * 65025 <= 0xFFFF_FFFF * 0xFFFF_FFFF * 65025) by (nonlinear_arith)
                requires
                    n <= 0xFFFF_FFFF,
            ;
            assert(n * (n * 65025) == n * n * 65025) by (nonlinear_arith);
            assert(n * m.sum_sq[k as int] <= n * (n * 65025)) by (nonlinear_arith)
                requires
                    m.sum_sq[k as int] <= n * 65025,
            ;
            assert(m.sum[k as int] * m.sum[k as int] <= (n * 255) * (n * 255)) by (nonlinear_arith)
                requires
                    m.sum[k as int] <= n * 255,
            ;
            assert((n * 255) * (n * 255) == n * n * 65025) by (nonlinear_arith);
        }
        let t: u128 = m.sum[k] as u128;
        let q: u128 = m.sum_sq[k] as u128;
        d = d + (n * q - t * t);
        k = k + 1;
    }
    d
}

/// Distance between the largest and the smallest value of each channel over
/// columns `x0..x1` of rows `y0..y1`, summed over the three channels.
pub fn rect_value_range(img: &PixelBuffer, x0: u32, x1: u32, y0: u32, y1: u32) -> (range: u32)
    requires
        rect_inside(img@, x0 as int, x1 as int, y0 as int, y1 as int),
    ensures
        range == value_range(rect(colors(img@), x0 as int, x1 as int, y0 as int, y1 as int)),
{
    let (width, height) = img.dimensions();
    let ghost c = colors(img@);
    proof {
        lemma_colors(img@);
    }
    let mut low: [u8; 3] = [255, 255, 255];
    let mut high: [u8; 3] = [0, 0, 0];
    let ghost mut seen: Seq<[u8; 3]> = Seq::empty();
    let mut y: u32 = y0;
    while y < y1
        invariant
            img@.wf(),
            c == colors(img@),
            c.wf(),
            rect_inside(img@, x0 as int, x1 as int, y0 as int, y1 as int),
            y0 <= y <= y1,
            seen == rect(c, x0 as int, x1 as int, y0 as int, y as int),
            forall|k: int| 0 <= k < 3 ==> (#[trigger] low[k]) == channel_min(seen, k),
            forall|k: int| 0 <= k < 3 ==> (#[trigger] high[k]) == channel_max(seen, k),
        decreases y1 - y,
    {
        let mut x: u32 = x0;
        while x < x1
            invariant
                img@.wf(),
                c == colors(img@),
                c.wf(),
                rect_inside(img@, x0 as int, x1 as int, y0 as int, y1 as int),
                y0 <= y < y1,
                x0 <= x <= x1,
                seen == rect(c, x0 as int, x1 as int, y0 as int, y as int) + c.rows[y as int].subrange(
                    x0 as int,
                    x as int,
                ),
                forall|k: int| 0 <= k < 3 ==> (#[trigger] low[k]) == channel_min(seen, k),
                forall|k: int| 0 <= k < 3 ==> (#[trigger] high[k]) == channel_max(seen, k),
            decreases x1 - x,
        {
            let color: [u8; 3] = img.get_pixel(x, y).rgb();
            proof {
                lemma_colors(img@);
                assert(c.at(x as int, y as int) == color);
                lemma_channel_push(seen, color, 0);
                lemma_channel_push(seen, color, 1);
                lemma_channel_push(seen, color, 2);
                assert(seen.push(color) =~= rect(c, x0 as int, x1 as int, y0 as int, y as int)
                    + c.rows[y as int].subrange(x0 as int, x as int + 1));
                seen = seen.push(color);
            }
            low = [lesser(low[0], color[0]), lesser(low[1], color[1]), lesser(low[2], color[2])];
            high = [greater(high[0], color[0]), greater(high[1], color[1]), greater(high[2], color[2])];
            x = x + 1;
        }
        proof {
            assert(c.rows[y as int].subrange(x0 as int, x as int) == c.rows[y as int].subrange(x0 as int, x1 as int));
        }
        y = y + 1;
    }
    proof {
        lemma_channel_extremes(seen, 0);
        lemma_channel_extremes(seen, 1);
        lemma_channel_extremes(seen, 2);
    }
    if x0 == x1 || y0 == y1 {
        proof {
            lemma_rect_len(c, x0 as int, x1 as int, y0 as int, y1 as int);
            assert((y1 - y0) * (x1 - x0) == 0) by (nonlinear_arith)
                requires
                    x0 == x1 || y0 == y1,
            ;
            assert(seen =~= Seq::empty());
        }
        return 0;
    }
    proof {
        lemma_rect_len(c, x0 as int, x1 as int, y0 as int, y1 as int);
        assert((y1 - y0) * (x1 - x0) > 0) by (nonlinear_arith)
            requires
                x0 < x1,
                y0 < y1,
        ;
    }
    (high[0] - low[0]) as u32 + (high[1] - low[1]) as u32 + (high[2] - low[2]) as u32
}

fn lesser(a: u8, b: u8) -> (m: u8)
    ensures
        m == if b < a {
            b
        } else {
            a
        },
{
    if b < a {
        b
    } else {
        a
    }
}

fn greater(a: u8, b: u8) -> (m: u8)
    ensures
        m == if b > a {
            b
        } else {
            a
        },
{
    if b > a {
        b
    } else {
        a
    }
}

} // verus!
