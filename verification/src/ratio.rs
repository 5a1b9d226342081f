//! Exact non-negative fractions and their order, compared without
//! multiplying numerators by denominators.

use vstd::prelude::*;
use vstd::arithmetic::div_mod::lemma_fundamental_div_mod;

verus! {

/// The fraction `num / den`.
#[derive(Debug, Clone, Copy)]
pub struct Ratio {
    pub num: u128,
    pub den: u128,
}

impl Ratio {
    /// The denominator is not zero.
    pub open spec fn wf(self) -> bool {
        self.den > 0
    }

    /// `self < other` as fractions.
    pub open spec fn less(self, other: Ratio) -> bool {
        self.num * other.den < other.num * self.den
    }

    /// `self == other` as fractions.
    pub open spec fn same(self, other: Ratio) -> bool {
        self.num * other.den == other.num * self.den
    }

    /// `self <= factor * other` as fractions.
    pub open spec fn within(self, factor: int, other: Ratio) -> bool {
        self.num * other.den <= factor * other.num * self.den
    }
}

/// `a / b < c / d` for positive `b` and `d`.
pub open spec fn fraction_less(a: int, b: int, c: int, d: int) -> bool {
    a * d < c * b
}

proof fn lemma_quotients_decide(a: int, b: int, c: int, d: int)
    requires
        0 <= a,
        0 <= c,
        0 < b,
        0 < d,
    ensures
        a / b < c / d ==> fraction_less(a, b, c, d),
        a / b > c / d ==> !fraction_less(a, b, c, d),
        a / b == c / d ==> (fraction_less(a, b, c, d) <==> (a % b) * d < (c % d) * b),
        a / b == c / d && a % b > 0 && c % d > 0 ==> (fraction_less(a, b, c, d) <==> fraction_less(
            d,
            c % d,
            b,
            a % b,
        )),
        0 <= a % b < b,
        0 <= c % d < d,
{
    lemma_fundamental_div_mod(a, b);
    lemma_fundamental_div_mod(c, d);
    let qa = a / b;
    let ra = a % b;
    let qc = c / d;
    let rc = c % d;
    if qa < qc {
        assert(a * d < c * b) by (nonlinear_arith)
            requires
                a == b * qa + ra,
                c == d * qc + rc,
                0 <= ra < b,
                0 <= rc < d,
                qa + 1 <= qc,
                0 < b,
                0 < d,
        ;
    }
    if qa > qc {
        assert(a * d >= c * b) by (nonlinear_arith)
            requires
                a == b * qa + ra,
                c == d * qc + rc,
                0 <= ra < b,
                0 <= rc < d,
                qc + 1 <= qa,
                0 < b,
                0 < d,
        ;
    }
    if qa == qc {
        assert(a * d - c * b == ra * d - rc * b) by (nonlinear_arith)
            requires
                a == b * qa + ra,
                c == d * qa + rc,
        ;
        assert(d * ra == ra * d && b * rc == rc * b) by (nonlinear_arith);
    }
}

/// Whether `a / b < c / d`, decided on quotients and remainders in the
/// manner of the Euclidean algorithm, so that no product is formed.
pub fn is_fraction_less(a: u128, b: u128, c: u128, d: u128) -> (less: bool)
    requires
        b > 0,
        d > 0,
    ensures
        less == fraction_less(a as int, b as int, c as int, d as int),
    decreases b + d,
{
    proof {
        lemma_quotients_decide(a as int, b as int, c as int, d as int);
    }
    let qa: u128 = a / b;
    let qc: u128 = c / d;
    if qa != qc {
        return qa < qc;
    }
    let ra: u128 = a % b;
    let rc: u128 = c % d;
    if rc == 0 {
        assert(ra * d >= 0) by (nonlinear_arith)
            requires
                ra >= 0,
                d >= 0,
        ;
        assert(rc * b == 0) by (nonlinear_arith)
            requires
                rc == 0,
        ;
        return false;
    }
    if ra == 0 {
        assert(ra * d == 0) by (nonlinear_arith)
            requires
                ra == 0,
        ;
        assert(rc * b > 0) by (nonlinear_arith)
            requires
                rc > 0,
                b > 0,
        ;
        return true;
    }
    is_fraction_less(d, rc, b, ra)
}

impl Ratio {
    /// Whether `self < other`.
    pub fn is_less(&self, other: &Ratio) -> (less: bool)
        requires
            self.wf(),
            other.wf(),
        ensures
            less == self.less(*other),
    {
        is_fraction_less(self.num, self.den, other.num, other.den)
    }
}

/// The order of fractions is transitive, also where one side is not strict.
pub proof fn lemma_less_transitive(a: Ratio, b: Ratio, c: Ratio)
    requires
        a.wf(),
        b.wf(),
        c.wf(),
    ensures
        a.less(b) && b.less(c) ==> a.less(c),
        a.less(b) && !c.less(b) ==> a.less(c),
        !b.less(a) && b.less(c) ==> a.less(c),
        !b.less(a) && !c.less(b) ==> !c.less(a),
{
    let an = a.num as int;
    let ad = a.den as int;
    let bn = b.num as int;
    let bd = b.den as int;
    let cn = c.num as int;
    let cd = c.den as int;
    // a < b, b <= c
    if an * bd < bn * ad && bn * cd <= cn * bd {
        assert(an * cd < cn * ad) by (nonlinear_arith)
            requires
                an * bd < bn * ad,
                bn * cd <= cn * bd,
                ad > 0,
                bd > 0,
                cd > 0,
                an >= 0,
                bn >= 0,
                cn >= 0,
        {
            assert((an * bd) * cd < (bn * ad) * cd);
            assert((bn * cd) * ad <= (cn * bd) * ad);
            assert((an * cd) * bd < (cn * ad) * bd);
        }
    }
    // a <= b, b < c
    if an * bd <= bn * ad && bn * cd < cn * bd {
        assert(an * cd < cn * ad) by (nonlinear_arith)
            requires
                an * bd <= bn * ad,
                bn * cd < cn * bd,
                ad > 0,
                bd > 0,
                cd > 0,
                an >= 0,
                bn >= 0,
                cn >= 0,
        {
            assert((an * bd) * cd <= (bn * ad) * cd);
            assert((bn * cd) * ad < (cn * bd) * ad);
            assert((an * cd) * bd < (cn * ad) * bd);
        }
    }
    // a <= b, b <= c
    if an * bd <= bn * ad && bn * cd <= cn * bd {
        assert(an * cd <= cn * ad) by (nonlinear_arith)
            requires
                an * bd <= bn * ad,
                bn * cd <= cn * bd,
                ad > 0,
                bd > 0,
                cd > 0,
                an >= 0,
                bn >= 0,
                cn >= 0,
        {
            assert((an * bd) * cd <= (bn * ad) * cd);
            assert((bn * cd) * ad <= (cn * bd) * ad);
            assert((an * cd) * bd <= (cn * ad) * bd);
        }
    }
    assert(bn * ad == ad * bn && cn * bd == bd * cn && cn * ad == ad * cn) by (nonlinear_arith);
}

/// A score: a fraction, or nothing where no blocks could be measured.
/// Nothing counts as larger than every fraction.
pub open spec fn score_less(a: Option<Ratio>, b: Option<Ratio>) -> bool {
    match (a, b) {
        (Some(x), Some(y)) => x.less(y),
        (Some(_), None) => true,
        (None, _) => false,
    }
}

/// A score that is a fraction has a denominator that is not zero.
pub open spec fn score_wf(a: Option<Ratio>) -> bool {
    a is Some ==> a->0.wf()
}

/// A score that is a fraction has a denominator that is not zero and a
/// numerator that can be doubled.
pub open spec fn score_fits(a: Option<Ratio>) -> bool {
    a is Some ==> a->0.wf() && a->0.num <= u128::MAX / 2
}

/// Whether score `a` is smaller than score `b`.
pub fn is_score_less(a: &Option<Ratio>, b: &Option<Ratio>) -> (less: bool)
    requires
        score_wf(*a),
        score_wf(*b),
    ensures
        less == score_less(*a, *b),
{
    match a {
        Some(x) => match b {
            Some(y) => x.is_less(y),
            None => true,
        },
        None => false,
    }
}

/// The order of scores is transitive, also where one side is not strict.
pub proof fn lemma_score_transitive(a: Option<Ratio>, b: Option<Ratio>, c: Option<Ratio>)
    requires
        score_wf(a),
        score_wf(b),
        score_wf(c),
    ensures
        score_less(a, b) && score_less(b, c) ==> score_less(a, c),
        score_less(a, b) && !score_less(c, b) ==> score_less(a, c),
        !score_less(b, a) && score_less(b, c) ==> score_less(a, c),
        !score_less(b, a) && !score_less(c, b) ==> !score_less(c, a),
        !score_less(a, a),
{
    if a is Some && b is Some && c is Some {
        lemma_less_transitive(a->0, b->0, c->0);
    }
}

} // verus!
