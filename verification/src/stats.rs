//! Sums over integer sequences and the dispersion `n * sum(v^2) - sum(v)^2`,
//! which is `n^2` times the variance and vanishes exactly on constant
//! sequences.

use vstd::prelude::*;

verus! {

/// Sum of the elements.
pub open spec fn total(s: Seq<int>) -> int
    decreases s.len(),
{
    if s.len() == 0 {
        0
    } else {
        total(s.drop_last()) + s.last()
    }
}

/// Sum of the squared elements.
pub open spec fn total_sq(s: Seq<int>) -> int
    decreases s.len(),
{
    if s.len() == 0 {
        0
    } else {
        total_sq(s.drop_last()) + s.last() * s.last()
    }
}

/// Sum of the squared distances of the elements from `x`.
pub open spec fn gap_sq(s: Seq<int>, x: int) -> int
    decreases s.len(),
{
    if s.len() == 0 {
        0
    } else {
        gap_sq(s.drop_last(), x) + (s.last() - x) * (s.last() - x)
    }
}

/// `n^2` times the population variance of the elements.
pub open spec fn dispersion(s: Seq<int>) -> int {
    s.len() * total_sq(s) - total(s) * total(s)
}

/// All elements are the same value.
pub open spec fn constant(s: Seq<int>) -> bool {
    forall|i: int, j: int| 0 <= i < s.len() && 0 <= j < s.len() ==> s[i] == s[j]
}

/// Appending `v` adds `v` to the sum and `v * v` to the sum of squares.
pub proof fn lemma_total_push(s: Seq<int>, v: int)
    ensures
        total(s.push(v)) == total(s) + v,
        total_sq(s.push(v)) == total_sq(s) + v * v,
        gap_sq(s.push(v), v) == gap_sq(s, v),
{
    assert(s.push(v).drop_last() =~= s);
}

/// Elements between `0` and `hi` bound both sums.
pub proof fn lemma_total_bounds(s: Seq<int>, hi: int)
    requires
        forall|i: int| 0 <= i < s.len() ==> 0 <= #[trigger] s[i] <= hi,
    ensures
        0 <= total(s) <= s.len() * hi,
        0 <= total_sq(s) <= s.len() * (hi * hi),
    decreases s.len(),
{
    if s.len() > 0 {
        let p = s.drop_last();
        let v = s.last();
        lemma_total_bounds(p, hi);
        assert(0 <= v * v <= hi * hi) by (nonlinear_arith)
            requires
                0 <= v <= hi,
        ;
        assert(p.len() * hi + hi == s.len() * hi) by (nonlinear_arith)
            requires
                p.len() + 1 == s.len(),
        ;
        assert(p.len() * (hi * hi) + hi * hi == s.len() * (hi * hi)) by (nonlinear_arith)
            requires
                p.len() + 1 == s.len(),
        ;
    }
}

proof fn lemma_gap_sq_expand(s: Seq<int>, x: int)
    ensures
        gap_sq(s, x) == total_sq(s) - 2 * x * total(s) + s.len() * (x * x),
        gap_sq(s, x) >= 0,
    decreases s.len(),
{
    if s.len() > 0 {
        let p = s.drop_last();
        let v = s.last();
        lemma_gap_sq_expand(p, x);
        let n = p.len() as int;
        let q = total_sq(p);
        let t = total(p);
        assert((v - x) * (v - x) >= 0) by (nonlinear_arith);
        assert(q - 2 * x * t + n * (x * x) + (v - x) * (v - x) == (q + v * v) - 2 * x * (t + v) + (n + 1) * (x
            * x)) by (nonlinear_arith);
    }
}

proof fn lemma_gap_sq_zero(s: Seq<int>, x: int)
    ensures
        gap_sq(s, x) == 0 <==> (forall|i: int| 0 <= i < s.len() ==> s[i] == x),
    decreases s.len(),
{
    if s.len() > 0 {
        let p = s.drop_last();
        let v = s.last();
        lemma_gap_sq_zero(p, x);
        lemma_gap_sq_expand(p, x);
        assert((v - x) * (v - x) >= 0) by (nonlinear_arith);
        assert((v - x) * (v - x) == 0 <==> v == x) by (nonlinear_arith);
        if gap_sq(s, x) == 0 {
            assert forall|i: int| 0 <= i < s.len() implies s[i] == x by {
                if i < p.len() {
                    assert(p[i] == x);
                }
            }
        }
        if forall|i: int| 0 <= i < s.len() ==> s[i] == x {
            assert forall|i: int| 0 <= i < p.len() implies p[i] == x by {
                assert(s[i] == x);
            }
            assert(s[s.len() - 1] == x);
        }
    }
}

/// Appending `v` adds the squared distances of the earlier elements from `v`.
pub proof fn lemma_dispersion_push(s: Seq<int>, v: int)
    ensures
        dispersion(s.push(v)) == dispersion(s) + gap_sq(s, v),
{
    lemma_total_push(s, v);
    lemma_gap_sq_expand(s, v);
    let n = s.len() as int;
    let q = total_sq(s);
    let t = total(s);
    assert(s.push(v).len() == n + 1);
    assert((n + 1) * (q + v * v) - (t + v) * (t + v) == (n * q - t * t) + (q - 2 * v * t + n * (v * v)))
        by (nonlinear_arith);
}

/// The dispersion is never negative, and it is zero exactly on constant
/// sequences.
pub proof fn lemma_dispersion_sign(s: Seq<int>)
    ensures
        dispersion(s) >= 0,
        dispersion(s) == 0 <==> constant(s),
    decreases s.len(),
{
    if s.len() == 0 {
        assert(0 * total_sq(s) == 0);
    } else {
        let p = s.drop_last();
        let v = s.last();
        assert(p.push(v) =~= s);
        lemma_dispersion_sign(p);
        lemma_dispersion_push(p, v);
        lemma_gap_sq_expand(p, v);
        lemma_gap_sq_zero(p, v);
        if dispersion(s) == 0 {
            assert(constant(p));
            assert forall|i: int, j: int| 0 <= i < s.len() && 0 <= j < s.len() implies s[i] == s[j] by {
                if i < p.len() {
                    assert(p[i] == v);
                }
                if j < p.len() {
                    assert(p[j] == v);
                }
            }
        }
        if constant(s) {
            assert forall|i: int, j: int| 0 <= i < p.len() && 0 <= j < p.len() implies p[i] == p[j] by {
                assert(s[i] == s[j]);
            }
            assert forall|i: int| 0 <= i < p.len() implies p[i] == v by {
                assert(s[i] == s[s.len() - 1]);
            }
        }
    }
}

/// Elements between `0` and `hi` keep the dispersion below `(n * hi)^2`.
pub proof fn lemma_dispersion_bound(s: Seq<int>, hi: int)
    requires
        forall|i: int| 0 <= i < s.len() ==> 0 <= #[trigger] s[i] <= hi,
    ensures
        0 <= dispersion(s) <= s.len() * s.len() * (hi * hi),
{
    lemma_dispersion_sign(s);
    lemma_total_bounds(s, hi);
    let n = s.len() as int;
    let q = total_sq(s);
    let t = total(s);
    assert(n * q - t * t <= n * n * (hi * hi)) by (nonlinear_arith)
        requires
            0 <= n,
            0 <= q <= n * (hi * hi),
    ;
}

} // verus!
