//! Search for the grid: for each cell size the phase with the least block
//! variance, and among the cell sizes the one that the variances and the
//! period hint agree on best.

use vstd::prelude::*;
use crate::num::{abs_diff, max_int, min_int};
use vstd::arithmetic::div_mod::lemma_fundamental_div_mod;
use crate::period::PeriodHint;
use crate::raster::{visited, Grid, PixelBuffer};
use crate::ratio::{is_fraction_less, is_score_less, lemma_score_transitive, score_fits, score_less, Ratio};
use crate::variance::{block_variance, calculate_block_variance, MAX_BLOCK};
use crate::window::{colors, high_bound, lemma_colors, low_bound};

verus! {

/// Smallest cell size that is tried.
pub const MIN_SCALE: u32 = 6;

/// Largest cell size that is tried.
pub const MAX_SCALE: u32 = 20;

/// Cell size that is taken where nothing can be measured and no hint is given.
pub const DEFAULT_SCALE: u32 = 10;

/// Distance between the phases of the coarse pass: a third of the cell size,
/// and at least 1.
pub open spec fn coarse_step(scale: int) -> int {
    if scale / 3 < 1 {
        1
    } else {
        scale / 3
    }
}

/// The block variance at phase `p`.
pub open spec fn score(c: Grid<[u8; 3]>, scale: int, p: (int, int)) -> Option<Ratio> {
    block_variance(c, scale, p.0, p.1)
}

/// A phase that the coarse pass tries: both offsets below the cell size and
/// multiples of the coarse step.
pub open spec fn on_coarse_grid(scale: int, p: (int, int)) -> bool {
    &&& 0 <= p.0 < scale
    &&& 0 <= p.1 < scale
    &&& p.0 % coarse_step(scale) == 0
    &&& p.1 % coarse_step(scale) == 0
}

/// `p` is the coarse phase with the least score, and the first such phase
/// when the phases are taken row by row.
pub open spec fn is_coarse_best(c: Grid<[u8; 3]>, scale: int, p: (int, int)) -> bool {
    &&& on_coarse_grid(scale, p)
    &&& forall|q: (int, int)| on_coarse_grid(scale, q) ==> !score_less(#[trigger] score(c, scale, q), score(c, scale, p))
    &&& forall|q: (int, int)|
        on_coarse_grid(scale, q) && visited(q.0, q.1, p.0, p.1) ==> score_less(
            score(c, scale, p),
            #[trigger] score(c, scale, q),
        )
}

/// The result of the coarse pass.
pub open spec fn coarse_phase(c: Grid<[u8; 3]>, scale: int) -> (int, int) {
    choose|p: (int, int)| is_coarse_best(c, scale, p)
}

/// A phase that the fine pass tries: within one coarse step of `start` on
/// both axes, and below the cell size.
pub open spec fn in_window(scale: int, start: (int, int), q: (int, int)) -> bool {
    &&& max_int(start.0 - coarse_step(scale), 0) <= q.0 < min_int(start.0 + coarse_step(scale) + 1, scale)
    &&& max_int(start.1 - coarse_step(scale), 0) <= q.1 < min_int(start.1 + coarse_step(scale) + 1, scale)
}

/// `p` is the result of the fine pass that begins at `start`: `start`
/// itself unless a phase of the window has a smaller score, and otherwise
/// the phase of the window with the least score, the first such phase when
/// the window is taken row by row.
pub open spec fn is_refined_best(c: Grid<[u8; 3]>, scale: int, start: (int, int), p: (int, int)) -> bool {
    &&& p == start || in_window(scale, start, p)
    &&& !score_less(score(c, scale, start), score(c, scale, p))
    &&& forall|q: (int, int)|
        in_window(scale, start, q) ==> !score_less(#[trigger] score(c, scale, q), score(c, scale, p))
    &&& p != start ==> {
        &&& score_less(score(c, scale, p), score(c, scale, start))
        &&& forall|q: (int, int)|
            in_window(scale, start, q) && visited(q.0, q.1, p.0, p.1) ==> score_less(
                score(c, scale, p),
                #[trigger] score(c, scale, q),
            )
    }
}

/// The phase that the search settles on for cells of size `scale`: the
/// result of the coarse pass, refined where the coarse step is more than 1.
pub open spec fn best_phase(c: Grid<[u8; 3]>, scale: int) -> (int, int) {
    if coarse_step(scale) > 1 {
        choose|p: (int, int)| is_refined_best(c, scale, coarse_phase(c, scale), p)
    } else {
        coarse_phase(c, scale)
    }
}

/// The coarse pass has at most one result.
pub proof fn lemma_coarse_unique(c: Grid<[u8; 3]>, scale: int, p: (int, int))
    requires
        is_coarse_best(c, scale, p),
    ensures
        coarse_phase(c, scale) == p,
{
    let r = coarse_phase(c, scale);
    assert(is_coarse_best(c, scale, r));
    if r != p {
        if visited(r.0, r.1, p.0, p.1) {
            assert(score_less(score(c, scale, p), score(c, scale, r)));
            assert(!score_less(score(c, scale, p), score(c, scale, r)));
        } else {
            assert(visited(p.0, p.1, r.0, r.1));
            assert(score_less(score(c, scale, r), score(c, scale, p)));
            assert(!score_less(score(c, scale, r), score(c, scale, p)));
        }
    }
}

/// The fine pass has at most one result.
pub proof fn lemma_refined_unique(c: Grid<[u8; 3]>, scale: int, start: (int, int), p: (int, int))
    requires
        is_refined_best(c, scale, start, p),
    ensures
        (choose|r: (int, int)| is_refined_best(c, scale, start, r)) == p,
{
    let r = choose|r: (int, int)| is_refined_best(c, scale, start, r);
    assert(is_refined_best(c, scale, start, r));
    if r != p {
        if r == start {
            assert(!score_less(score(c, scale, p), score(c, scale, r)));
        } else if p == start {
            assert(!score_less(score(c, scale, r), score(c, scale, p)));
        } else if visited(r.0, r.1, p.0, p.1) {
            assert(score_less(score(c, scale, p), score(c, scale, r)));
            assert(!score_less(score(c, scale, p), score(c, scale, r)));
        } else {
            assert(visited(p.0, p.1, r.0, r.1));
            assert(score_less(score(c, scale, r), score(c, scale, p)));
            assert(!score_less(score(c, scale, r), score(c, scale, p)));
        }
    }
}

/// Two multiples of `m` that differ are at least `m` apart.
proof fn lemma_multiples_apart(a: int, b: int, m: int)
    requires
        m > 0,
        a % m == 0,
        b % m == 0,
        a < b,
    ensures
        a + m <= b,
{
    lemma_fundamental_div_mod(a, m);
    lemma_fundamental_div_mod(b, m);
    let i = a / m;
    let j = b / m;
    assert(i < j) by (nonlinear_arith)
        requires
            a == m * i,
            b == m * j,
            a < b,
            m > 0,
    ;
    assert(m * (i + 1) <= m * j) by (nonlinear_arith)
        requires
            i + 1 <= j,
            m > 0,
    ;
    assert(m * (i + 1) == m * i + m) by (nonlinear_arith);
}

/// The multiple of `m` that follows a multiple of `m`.
proof fn lemma_next_multiple(a: int, m: int)
    requires
        m > 0,
        a % m == 0,
    ensures
        (a + m) % m == 0,
{
    lemma_fundamental_div_mod(a, m);
    let i = a / m;
    vstd::arithmetic::div_mod::lemma_mod_multiples_basic(i + 1, m);
    assert((i + 1) * m == m * i + m) by (nonlinear_arith);
}

fn step_for(scale: u32) -> (step: u32)
    requires
        scale >= 1,
    ensures
        step == coarse_step(scale as int),
        1 <= step <= scale,
{
    if scale / 3 < 1 {
        1
    } else {
        scale / 3
    }
}

fn coarse_search(img: &PixelBuffer, scale: u32) -> (found: (u32, u32, Option<Ratio>))
    requires
        1 <= scale <= MAX_BLOCK,
    ensures
        is_coarse_best(colors(img@), scale as int, (found.0 as int, found.1 as int)),
        found.2 == score(colors(img@), scale as int, (found.0 as int, found.1 as int)),
        score_fits(found.2),
{
    let (width, height) = img.dimensions();
    let ghost c = colors(img@);
    let ghost s = scale as int;
    proof {
        lemma_colors(img@);
    }
    let step: u32 = step_for(scale);
    let mut best_x: u32 = 0;
    let mut best_y: u32 = 0;
    let mut best: Option<Ratio> = calculate_block_variance(img, scale, 0, 0);
    let mut py: u32 = 0;
    proof {
        assert(0int % (step as int) == 0) by (nonlinear_arith)
            requires
                step >= 1,
        ;
    }
    while py < scale
        invariant
            c == colors(img@),
            c.wf(),
            c.width <= u32::MAX,
            c.height <= u32::MAX,
            s == scale,
            1 <= scale <= MAX_BLOCK,
            step == coarse_step(s),
            1 <= step <= scale,
            py % step == 0,
            py < scale + step,
            on_coarse_grid(s, (best_x as int, best_y as int)),
            best == score(c, s, (best_x as int, best_y as int)),
            score_fits(best),
            best_y < py || (best_x == 0 && best_y == 0),
            forall|q: (int, int)|
                on_coarse_grid(s, q) && q.1 < py ==> !score_less(#[trigger] score(c, s, q), best),
            forall|q: (int, int)|
                on_coarse_grid(s, q) && visited(q.0, q.1, best_x as int, best_y as int) ==> score_less(
                    best,
                    #[trigger] score(c, s, q),
                ),
        decreases scale + step - py,
    {
        let mut px: u32 = 0;
        while px < scale
            invariant
                c == colors(img@),
                c.wf(),
                c.width <= u32::MAX,
                c.height <= u32::MAX,
                s == scale,
                1 <= scale <= MAX_BLOCK,
                step == coarse_step(s),
                1 <= step <= scale,
                py % step == 0,
                px % step == 0,
                py < scale,
                px < scale + step,
                on_coarse_grid(s, (best_x as int, best_y as int)),
                best == score(c, s, (best_x as int, best_y as int)),
                score_fits(best),
                visited(best_x as int, best_y as int, px as int, py as int) || (best_x == 0 && best_y == 0),
                forall|q: (int, int)|
                    on_coarse_grid(s, q) && visited(q.0, q.1, px as int, py as int) ==> !score_less(
                        #[trigger] score(c, s, q),
                        best,
                    ),
                forall|q: (int, int)|
                    on_coarse_grid(s, q) && visited(q.0, q.1, best_x as int, best_y as int) ==> score_less(
                        best,
                        #[trigger] score(c, s, q),
                    ),
            decreases scale + step - px,
        {
            let here: Option<Ratio> = calculate_block_variance(img, scale, px, py);
            let ghost old_best = best;
            let better: bool = is_score_less(&here, &best);
            if better {
                best = here;
                best_x = px;
                best_y = py;
            }
            proof {
                assert(here == score(c, s, (px as int, py as int)));
                assert forall|q: (int, int)|
                    on_coarse_grid(s, q) && visited(q.0, q.1, px as int + step as int, py as int)
                    implies !score_less(#[trigger] score(c, s, q), best) by {
                    if q.1 == py as int && q.0 > px as int {
                        lemma_multiples_apart(px as int, q.0, step as int);
                    }
                    let sq = score(c, s, q);
                    lemma_score_fits(c, s, q);
                    lemma_score_transitive(sq, here, old_best);
                    lemma_score_transitive(here, old_best, sq);
                    if q.1 == py as int && q.0 == px as int {
                        assert(q == (px as int, py as int));
                    } else {
                        assert(visited(q.0, q.1, px as int, py as int));
                    }
                }
                assert forall|q: (int, int)|
                    on_coarse_grid(s, q) && visited(q.0, q.1, best_x as int, best_y as int) implies score_less(
                    best,
                    #[trigger] score(c, s, q),
                ) by {
                    if better {
                        let sq = score(c, s, q);
                        lemma_score_fits(c, s, q);
                        lemma_score_transitive(here, old_best, sq);
                    }
                }
                lemma_next_multiple(px as int, step as int);
            }
            px = px + step;
        }
        proof {
            assert forall|q: (int, int)| on_coarse_grid(s, q) && q.1 < py + step implies !score_less(
                #[trigger] score(c, s, q),
                best,
            ) by {
                if q.1 > py as int {
                    lemma_multiples_apart(py as int, q.1, step as int);
                }
                assert(visited(q.0, q.1, px as int, py as int));
            }
            lemma_next_multiple(py as int, step as int);
        }
        py = py + step;
    }
    (best_x, best_y, best)
}

/// The block variance of a valid cell size is a proper fraction at every
/// phase.
proof fn lemma_score_fits(c: Grid<[u8; 3]>, scale: int, q: (int, int))
    requires
        c.wf(),
        c.width <= u32::MAX,
        c.height <= u32::MAX,
        1 <= scale <= MAX_BLOCK,
        0 <= q.0,
        0 <= q.1,
    ensures
        score_fits(score(c, scale, q)),
{
    if score(c, scale, q) is Some {
        crate::variance::lemma_block_variance_zero(c, scale, q.0, q.1);
    }
}

fn fine_search(img: &PixelBuffer, scale: u32, start_x: u32, start_y: u32, start_score: Option<Ratio>) -> (found: (
    u32,
    u32,
    Option<Ratio>,
))
    requires
        1 <= scale <= MAX_BLOCK,
        start_x < scale,
        start_y < scale,
        start_score == score(colors(img@), scale as int, (start_x as int, start_y as int)),
        score_fits(start_score),
    ensures
        is_refined_best(
            colors(img@),
            scale as int,
            (start_x as int, start_y as int),
            (found.0 as int, found.1 as int),
        ),
        found.2 == score(colors(img@), scale as int, (found.0 as int, found.1 as int)),
        score_fits(found.2),
        found.0 < scale,
        found.1 < scale,
{
    let (width, height) = img.dimensions();
    let ghost c = colors(img@);
    let ghost s = scale as int;
    let ghost start = (start_x as int, start_y as int);
    proof {
        lemma_colors(img@);
    }
    let step: u32 = step_for(scale);
    let x0: u32 = low_bound(start_x, step);
    let x1: u32 = high_bound(start_x, step, scale);
    let y0: u32 = low_bound(start_y, step);
    let y1: u32 = high_bound(start_y, step, scale);
    let mut best_x: u32 = start_x;
    let mut best_y: u32 = start_y;
    let mut best: Option<Ratio> = start_score;
    let mut py: u32 = y0;
    proof {
        lemma_score_transitive(start_score, start_score, start_score);
    }
    while py < y1
        invariant
            c == colors(img@),
            c.wf(),
            c.width <= u32::MAX,
            c.height <= u32::MAX,
            s == scale,
            1 <= scale <= MAX_BLOCK,
            step == coarse_step(s),
            start == (start_x as int, start_y as int),
            start_x < scale,
            start_y < scale,
            start_score == score(c, s, start),
            score_fits(start_score),
            x0 == max_int(start_x - step, 0),
            x1 == min_int(start_x + step + 1, s),
            y0 == max_int(start_y - step, 0),
            y1 == min_int(start_y + step + 1, s),
            y0 <= py <= y1,
            best_x < scale,
            best_y < scale,
            best == score(c, s, (best_x as int, best_y as int)),
            score_fits(best),
            (best_x as int, best_y as int) == start || in_window(s, start, (best_x as int, best_y as int)),
            !score_less(start_score, best),
            forall|q: (int, int)| in_window(s, start, q) && q.1 < py ==> !score_less(#[trigger] score(c, s, q), best),
            (best_x as int, best_y as int) != start ==> score_less(best, start_score),
            (best_x as int, best_y as int) != start ==> forall|q: (int, int)|
                in_window(s, start, q) && visited(q.0, q.1, best_x as int, best_y as int) ==> score_less(
                    best,
                    #[trigger] score(c, s, q),
                ),
        decreases y1 - py,
    {
        let mut px: u32 = x0;
        while px < x1
            invariant
                c == colors(img@),
                c.wf(),
                c.width <= u32::MAX,
                c.height <= u32::MAX,
                s == scale,
                1 <= scale <= MAX_BLOCK,
                step == coarse_step(s),
                start == (start_x as int, start_y as int),
                start_x < scale,
                start_y < scale,
                start_score == score(c, s, start),
                score_fits(start_score),
                x0 == max_int(start_x - step, 0),
                x1 == min_int(start_x + step + 1, s),
                y0 == max_int(start_y - step, 0),
                y1 == min_int(start_y + step + 1, s),
                y0 <= py < y1,
                x0 <= px <= x1,
                best_x < scale,
                best_y < scale,
                best == score(c, s, (best_x as int, best_y as int)),
                score_fits(best),
                (best_x as int, best_y as int) == start || in_window(s, start, (best_x as int, best_y as int)),
                !score_less(start_score, best),
                forall|q: (int, int)|
                    in_window(s, start, q) && visited(q.0, q.1, px as int, py as int) ==> !score_less(
                        #[trigger] score(c, s, q),
                        best,
                    ),
                (best_x as int, best_y as int) != start ==> score_less(best, start_score),
                (best_x as int, best_y as int) != start ==> forall|q: (int, int)|
                    in_window(s, start, q) && visited(q.0, q.1, best_x as int, best_y as int) ==> score_less(
                        best,
                        #[trigger] score(c, s, q),
                    ),
            decreases x1 - px,
        {
            let here: Option<Ratio> = calculate_block_variance(img, scale, px, py);
            let ghost old_best = best;
            let better: bool = is_score_less(&here, &best);
            if better {
                best = here;
                best_x = px;
                best_y = py;
            }
            proof {
                assert(here == score(c, s, (px as int, py as int)));
                lemma_score_transitive(here, old_best, start_score);
                lemma_score_transitive(start_score, here, old_best);
                assert forall|q: (int, int)|
                    in_window(s, start, q) && visited(q.0, q.1, px as int + 1, py as int) implies !score_less(
                    #[trigger] score(c, s, q),
                    best,
                ) by {
                    let sq = score(c, s, q);
                    lemma_score_fits(c, s, q);
                    lemma_score_transitive(sq, here, old_best);
                    lemma_score_transitive(here, old_best, sq);
                    if q.1 == py as int && q.0 == px as int {
                        assert(q == (px as int, py as int));
                    } else {
                        assert(visited(q.0, q.1, px as int, py as int));
                    }
                }
                if better {
                    assert forall|q: (int, int)|
                        in_window(s, start, q) && visited(q.0, q.1, best_x as int, best_y as int)
                        implies score_less(best, #[trigger] score(c, s, q)) by {
                        let sq = score(c, s, q);
                        lemma_score_fits(c, s, q);
                        lemma_score_transitive(here, old_best, sq);
                    }
                }
            }
            px = px + 1;
        }
        proof {
            assert forall|q: (int, int)| in_window(s, start, q) && q.1 < py + 1 implies !score_less(
                #[trigger] score(c, s, q),
                best,
            ) by {
                assert(visited(q.0, q.1, px as int, py as int));
            }
        }
        py = py + 1;
    }
    (best_x, best_y, best)
}

/// The phase with the least block variance for cells of size `scale`, found
/// in two passes: over a coarse grid of phases a third of the cell size
/// apart, and then over all phases within one coarse step of the coarse
/// result. Both offsets of the phase are below `scale`.
pub fn find_best_phase_for_scale(img: &PixelBuffer, scale: u32) -> (found: (u32, u32, Option<Ratio>))
    requires
        1 <= scale <= MAX_BLOCK,
    ensures
        (found.0 as int, found.1 as int) == best_phase(colors(img@), scale as int),
        found.2 == score(colors(img@), scale as int, best_phase(colors(img@), scale as int)),
        score_fits(found.2),
        found.0 < scale,
        found.1 < scale,
        is_coarse_best(colors(img@), scale as int, coarse_phase(colors(img@), scale as int)),
        coarse_step(scale as int) > 1 ==> is_refined_best(
            colors(img@),
            scale as int,
            coarse_phase(colors(img@), scale as int),
            (found.0 as int, found.1 as int),
        ),
{
    let coarse = coarse_search(img, scale);
    proof {
        lemma_coarse_unique(colors(img@), scale as int, (coarse.0 as int, coarse.1 as int));
    }
    if step_for(scale) > 1 {
        let fine = fine_search(img, scale, coarse.0, coarse.1, coarse.2);
        proof {
            lemma_refined_unique(
                colors(img@),
                scale as int,
                (coarse.0 as int, coarse.1 as int),
                (fine.0 as int, fine.1 as int),
            );
        }
        fine
    } else {
        coarse
    }
}

/// What the search found for one cell size.
#[derive(Debug, Clone, Copy)]
pub struct ScaleResult {
    pub scale: u32,
    pub phase_x: u32,
    pub phase_y: u32,
    /// The block variance at that phase, or nothing where it cannot be
    /// measured.
    pub variance: Option<Ratio>,
}

/// The candidate for cell size `scale`.
pub open spec fn candidate(c: Grid<[u8; 3]>, scale: int) -> ScaleResult {
    ScaleResult {
        scale: scale as u32,
        phase_x: best_phase(c, scale).0 as u32,
        phase_y: best_phase(c, scale).1 as u32,
        variance: score(c, scale, best_phase(c, scale)),
    }
}

/// The candidates for all cell sizes from 6 to 20, the smallest first.
pub open spec fn candidates(c: Grid<[u8; 3]>) -> Seq<ScaleResult> {
    Seq::new((MAX_SCALE - MIN_SCALE + 1) as nat, |i: int| candidate(c, MIN_SCALE + i))
}

/// Some candidate has a variance.
pub open spec fn measured(cands: Seq<ScaleResult>) -> bool {
    exists|i: int| 0 <= i < cands.len() && (#[trigger] cands[i]).variance is Some
}

/// `m` is the first candidate with the least variance.
pub open spec fn is_least(cands: Seq<ScaleResult>, m: int) -> bool {
    &&& 0 <= m < cands.len()
    &&& forall|j: int| 0 <= j < cands.len() ==> !score_less((#[trigger] cands[j]).variance, cands[m].variance)
    &&& forall|j: int| 0 <= j < m ==> score_less(cands[m].variance, (#[trigger] cands[j]).variance)
}

/// The first candidate with the least variance.
pub open spec fn least(cands: Seq<ScaleResult>) -> int {
    choose|m: int| is_least(cands, m)
}

/// Candidate `i` is acceptable: its variance is at most twice the least
/// variance.
pub open spec fn is_valid(cands: Seq<ScaleResult>, i: int) -> bool {
    &&& cands[i].variance is Some
    &&& cands[least(cands)].variance is Some
    &&& cands[i].variance->0.within(2, cands[least(cands)].variance->0)
}

/// Distance of a cell size from the hinted period, in units of
/// `1 / hint.den`.
pub open spec fn hint_distance(scale: int, hint: PeriodHint) -> int {
    abs_diff(scale * hint.den, hint.num as int)
}

/// Candidate `i` is the choice among the acceptable candidates: with a hint
/// the first one whose cell size is nearest to the hinted period, without a
/// hint the last one with the largest cell size.
pub open spec fn is_chosen(cands: Seq<ScaleResult>, hint: Option<PeriodHint>, i: int) -> bool {
    &&& 0 <= i < cands.len()
    &&& is_valid(cands, i)
    &&& match hint {
        Some(h) => {
            &&& forall|j: int|
                0 <= j < cands.len() && is_valid(cands, j) ==> hint_distance(
                    (#[trigger] cands[j]).scale as int,
                    h,
                ) >= hint_distance(cands[i].scale as int, h)
            &&& forall|j: int|
                0 <= j < i && is_valid(cands, j) ==> hint_distance((#[trigger] cands[j]).scale as int, h)
                    > hint_distance(cands[i].scale as int, h)
        },
        None => {
            &&& forall|j: int|
                0 <= j < cands.len() && is_valid(cands, j) ==> (#[trigger] cands[j]).scale <= cands[i].scale
            &&& forall|j: int|
                i < j < cands.len() && is_valid(cands, j) ==> (#[trigger] cands[j]).scale < cands[i].scale
        },
    }
}

/// The choice among the acceptable candidates.
pub open spec fn chosen(cands: Seq<ScaleResult>, hint: Option<PeriodHint>) -> int {
    choose|i: int| is_chosen(cands, hint, i)
}

/// The hinted period rounded to the nearest integer, halves upward.
pub open spec fn rounded(hint: PeriodHint) -> int {
    (2 * hint.num + hint.den) / (2 * hint.den)
}

/// The cell size where no candidate has a variance: the rounded hint, or 10
/// without a hint, brought into the range from 6 to 20.
pub open spec fn fallback_scale(hint: Option<PeriodHint>) -> int {
    let wish = match hint {
        Some(h) => rounded(h),
        None => DEFAULT_SCALE as int,
    };
    if wish < MIN_SCALE {
        MIN_SCALE as int
    } else if wish > MAX_SCALE {
        MAX_SCALE as int
    } else {
        wish
    }
}

/// Cell size and phase that the candidates and the hint lead to.
pub open spec fn selection(cands: Seq<ScaleResult>, hint: Option<PeriodHint>) -> (int, int, int) {
    if measured(cands) {
        let i = chosen(cands, hint);
        (cands[i].scale as int, cands[i].phase_x as int, cands[i].phase_y as int)
    } else {
        (fallback_scale(hint), 0, 0)
    }
}

/// Only one candidate is the first with the least variance.
pub proof fn lemma_least_unique(cands: Seq<ScaleResult>, m: int)
    requires
        is_least(cands, m),
    ensures
        least(cands) == m,
{
    let r = least(cands);
    assert(is_least(cands, r));
    if r < m {
        assert(score_less(cands[m].variance, cands[r].variance));
        assert(!score_less(cands[m].variance, cands[r].variance));
    } else if m < r {
        assert(score_less(cands[r].variance, cands[m].variance));
        assert(!score_less(cands[r].variance, cands[m].variance));
    }
}

/// Only one candidate is the choice.
pub proof fn lemma_chosen_unique(cands: Seq<ScaleResult>, hint: Option<PeriodHint>, i: int)
    requires
        is_chosen(cands, hint, i),
    ensures
        chosen(cands, hint) == i,
{
    let r = chosen(cands, hint);
    assert(is_chosen(cands, hint, r));
    if r != i {
        let a = if r < i {
            r
        } else {
            i
        };
        let b = if r < i {
            i
        } else {
            r
        };
        match hint {
            Some(h) => {
                assert(hint_distance(cands[a].scale as int, h) > hint_distance(cands[b].scale as int, h));
                assert(hint_distance(cands[b].scale as int, h) >= hint_distance(cands[a].scale as int, h));
            },
            None => {
                assert(cands[b].scale < cands[a].scale);
                assert(cands[a].scale <= cands[b].scale);
            },
        }
    }
}

/// All variances are proper scores.
pub open spec fn candidates_wf(cands: Seq<ScaleResult>) -> bool {
    forall|i: int| 0 <= i < cands.len() ==> score_fits((#[trigger] cands[i]).variance)
}

fn least_index(cands: &Vec<ScaleResult>) -> (m: usize)
    requires
        cands@.len() > 0,
        candidates_wf(cands@),
    ensures
        is_least(cands@, m as int),
{
    let mut m: usize = 0;
    let mut k: usize = 1;
    proof {
        lemma_score_transitive(cands@[0].variance, cands@[0].variance, cands@[0].variance);
    }
    while k < cands.len()
        invariant
            candidates_wf(cands@),
            0 <= m < k <= cands@.len(),
            forall|j: int| 0 <= j < k ==> !score_less((#[trigger] cands@[j]).variance, cands@[m as int].variance),
            forall|j: int| 0 <= j < m ==> score_less(cands@[m as int].variance, (#[trigger] cands@[j]).variance),
        decreases cands@.len() - k,
    {
        let ghost old_m = m as int;
        let better: bool = is_score_less(&cands[k].variance, &cands[m].variance);
        if better {
            m = k;
        }
        proof {
            let here = cands@[k as int].variance;
            let before = cands@[old_m].variance;
            assert forall|j: int| 0 <= j < k + 1 implies !score_less(
                (#[trigger] cands@[j]).variance,
                cands@[m as int].variance,
            ) by {
                lemma_score_transitive(cands@[j].variance, here, before);
                lemma_score_transitive(here, here, here);
            }
            assert forall|j: int| 0 <= j < m implies score_less(
                cands@[m as int].variance,
                (#[trigger] cands@[j]).variance,
            ) by {
                if better {
                    lemma_score_transitive(here, before, cands@[j].variance);
                }
            }
        }
        k = k + 1;
    }
    m
}

fn distance_to_hint(scale: u32, hint: &PeriodHint) -> (d: u128)
    ensures
        d == hint_distance(scale as int, *hint),
{
    assert(scale * hint.den <= u32::MAX * u64::MAX) by (nonlinear_arith)
        requires
            scale <= u32::MAX,
            hint.den <= u64::MAX,
    ;
    let reach: u128 = (scale as u128) * (hint.den as u128);
    let target: u128 = hint.num as u128;
    if reach >= target {
        reach - target
    } else {
        target - reach
    }
}

fn fallback(hint: &Option<PeriodHint>) -> (scale: u32)
    requires
        *hint is Some ==> hint->0.wf(),
    ensures
        scale == fallback_scale(*hint),
        MIN_SCALE <= scale <= MAX_SCALE,
{
    match hint {
        Some(h) => {
            let wish: u128 = (2 * (h.num as u128) + (h.den as u128)) / (2 * (h.den as u128));
            if wish < MIN_SCALE as u128 {
                MIN_SCALE
            } else if wish > MAX_SCALE as u128 {
                MAX_SCALE
            } else {
                wish as u32
            }
        },
        None => DEFAULT_SCALE,
    }
}

/// Chooses cell size and phase from the candidates of the search. Where no
/// candidate has a variance, the choice is the rounded hint, or 10 without a
/// hint, brought into the range from 6 to 20, with phase 0. Otherwise the
/// candidates with at most twice the least variance are acceptable; with a
/// hint the choice is the first acceptable candidate whose cell size is
/// nearest to the hint, without a hint the acceptable candidate with the
/// largest cell size.
pub fn select_scale(cands: &Vec<ScaleResult>, hint: Option<PeriodHint>) -> (choice: (u32, u32, u32))
    requires
        candidates_wf(cands@),
        hint is Some ==> hint->0.wf(),
    ensures
        (choice.0 as int, choice.1 as int, choice.2 as int) == selection(cands@, hint),
        measured(cands@) ==> is_chosen(cands@, hint, chosen(cands@, hint)),
        !measured(cands@) ==> MIN_SCALE <= choice.0 <= MAX_SCALE && choice.1 == 0 && choice.2 == 0,
{
    if cands.len() == 0 {
        return (fallback(&hint), 0, 0);
    }
    let m: usize = least_index(cands);
    proof {
        lemma_least_unique(cands@, m as int);
    }
    let floor: Ratio = match cands[m].variance {
        Some(v) => v,
        None => {
            proof {
                assert forall|i: int| 0 <= i < cands@.len() implies !((#[trigger] cands@[i]).variance is Some) by {
                    assert(!score_less(cands@[i].variance, cands@[m as int].variance));
                }
            }
            return (fallback(&hint), 0, 0);
        },
    };
    assert(measured(cands@)) by {
        assert(cands@[m as int].variance is Some);
    }
    let mut pick: usize = m;
    let mut found: bool = false;
    let mut i: usize = 0;
    while i < cands.len()
        invariant
            candidates_wf(cands@),
            hint is Some ==> hint->0.wf(),
            least(cands@) == m,
            0 <= m < cands@.len(),
            cands@[m as int].variance == Some(floor),
            floor.wf(),
            floor.num <= u128::MAX / 2,
            i <= cands@.len(),
            !found ==> forall|j: int| 0 <= j < i ==> !is_valid(cands@, j),
            i > m ==> found,
            found ==> 0 <= pick < i && is_valid(cands@, pick as int),
            found ==> match hint {
                Some(h) => {
                    &&& forall|j: int|
                        0 <= j < i && is_valid(cands@, j) ==> hint_distance((#[trigger] cands@[j]).scale as int, h)
                            >= hint_distance(cands@[pick as int].scale as int, h)
                    &&& forall|j: int|
                        0 <= j < pick && is_valid(cands@, j) ==> hint_distance(
                            (#[trigger] cands@[j]).scale as int,
                            h,
                        ) > hint_distance(cands@[pick as int].scale as int, h)
                },
                None => {
                    &&& forall|j: int|
                        0 <= j < i && is_valid(cands@, j) ==> (#[trigger] cands@[j]).scale
                            <= cands@[pick as int].scale
                    &&& forall|j: int|
                        pick < j < i && is_valid(cands@, j) ==> (#[trigger] cands@[j]).scale
                            < cands@[pick as int].scale
                },
            },
        decreases cands@.len() - i,
    {
        let valid: bool = match cands[i].variance {
            Some(v) => {
                proof {
                    assert(2 * floor.num * v.den == (2 * floor.num) * v.den) by (nonlinear_arith);
                    if i == m {
                        assert((2 * floor.num) * floor.den >= floor.num * floor.den) by (nonlinear_arith)
                            requires
                                floor.num >= 0,
                                floor.den >= 0,
                        ;
                    }
                }
                !is_fraction_less(2 * floor.num, floor.den, v.num, v.den)
            },
            None => false,
        };
        assert(valid == is_valid(cands@, i as int));
        if valid {
            let take: bool = if !found {
                true
            } else {
                match hint {
                    Some(h) => distance_to_hint(cands[i].scale, &h) < distance_to_hint(cands[pick].scale, &h),
                    None => cands[i].scale >= cands[pick].scale,
                }
            };
            if take {
                pick = i;
                found = true;
            }
        }
        i = i + 1;
    }
    proof {
        assert(is_chosen(cands@, hint, pick as int));
        lemma_chosen_unique(cands@, hint, pick as int);
    }
    (cands[pick].scale, cands[pick].phase_x, cands[pick].phase_y)
}

/// Cell size and phase of the grid of the image. Every cell size from 6 to
/// 20 is tried at its best phase; [`select_scale`] chooses among them. The
/// cell size lies between 6 and 20, and both offsets of the phase are below
/// it.
pub fn find_optimal_scale_v4(img: &PixelBuffer, grid_hint: Option<PeriodHint>) -> (choice: (u32, u32, u32))
    requires
        grid_hint is Some ==> grid_hint->0.wf(),
    ensures
        (choice.0 as int, choice.1 as int, choice.2 as int) == selection(candidates(colors(img@)), grid_hint),
        MIN_SCALE <= choice.0 <= MAX_SCALE,
        choice.1 < choice.0,
        choice.2 < choice.0,
{
    let ghost c = colors(img@);
    let mut all: Vec<ScaleResult> = Vec::new();
    let mut scale: u32 = MIN_SCALE;
    while scale <= MAX_SCALE
        invariant
            c == colors(img@),
            MIN_SCALE <= scale <= MAX_SCALE + 1,
            all@.len() == scale - MIN_SCALE,
            forall|i: int| 0 <= i < all@.len() ==> #[trigger] all@[i] == candidate(c, MIN_SCALE + i),
            forall|i: int|
                0 <= i < all@.len() ==> score_fits((#[trigger] all@[i]).variance) && all@[i].scale == MIN_SCALE + i
                    && all@[i].phase_x < all@[i].scale && all@[i].phase_y < all@[i].scale,
        decreases MAX_SCALE + 1 - scale,
    {
        let found = find_best_phase_for_scale(img, scale);
        all.push(ScaleResult { scale, phase_x: found.0, phase_y: found.1, variance: found.2 });
        scale = scale + 1;
    }
    proof {
        assert(all@ =~= candidates(c));
    }
    let choice = select_scale(&all, grid_hint);
    proof {
        if measured(all@) {
            let i = chosen(all@, grid_hint);
            assert(is_chosen(all@, grid_hint, i));
            assert(all@[i].scale == MIN_SCALE + i);
        }
    }
    choice
}

} // verus!
