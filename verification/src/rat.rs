//! Exact rational arithmetic.
//!
//! Expected returns are exact rationals, never approximations: every
//! probability in the engine is a ratio of card counts.  `Q` is the
//! specification-level rational (unbounded integers), `Rat` the executable
//! one (sign-magnitude over `u64`).  Executable operations that could
//! exceed the machine representation return `None`; whenever they return a
//! value it is exactly the rational the specification names.

use vstd::prelude::*;
use vstd::arithmetic::mul::{
    lemma_mul_is_distributive_add, lemma_mul_is_distributive_add_other_way,
    lemma_mul_strictly_positive, lemma_mul_upper_bound,
};
use vstd::arithmetic::div_mod::lemma_fundamental_div_mod;

verus! {

/// A rational at the specification level: numerator over denominator.
pub struct Q {
    pub n: int,
    pub d: int,
}

/// Denominators are kept positive: a nonpositive product is replaced by 1
/// so that every specification-built `Q` is well formed by construction.
pub open spec fn pos_den(x: int) -> int {
    if x > 0 {
        x
    } else {
        1
    }
}

pub open spec fn q_int(n: int) -> Q {
    Q { n: n, d: 1 }
}

pub open spec fn q_frac(n: int, d: int) -> Q {
    Q { n: n, d: pos_den(d) }
}

pub open spec fn q_zero() -> Q {
    q_int(0)
}

pub open spec fn q_neg(a: Q) -> Q {
    Q { n: -a.n, d: a.d }
}

pub open spec fn q_add(a: Q, b: Q) -> Q {
    Q { n: a.n * b.d + b.n * a.d, d: pos_den(a.d * b.d) }
}

pub open spec fn q_sub(a: Q, b: Q) -> Q {
    q_add(a, q_neg(b))
}

pub open spec fn q_mul(a: Q, b: Q) -> Q {
    Q { n: a.n * b.n, d: pos_den(a.d * b.d) }
}

/// Equality of rationals by cross multiplication.
pub open spec fn q_eq(a: Q, b: Q) -> bool {
    a.n * b.d == b.n * a.d
}

/// Order by cross multiplication; meaningful for positive denominators.
pub open spec fn q_le(a: Q, b: Q) -> bool {
    a.n * b.d <= b.n * a.d
}

/// Strictly less, for positive denominators.
pub open spec fn q_lt(a: Q, b: Q) -> bool {
    !q_le(b, a)
}

/// The larger of two rationals; on a tie the second is kept, as the
/// engine's best-of comparison does.
pub open spec fn q_max(a: Q, b: Q) -> Q {
    if q_le(a, b) {
        b
    } else {
        a
    }
}

/// The signed value of a sign-magnitude pair.
pub open spec fn s_val(neg: bool, mag: int) -> int {
    if neg {
        -mag
    } else {
        mag
    }
}

pub proof fn lemma_q_eq_trans(a: Q, b: Q, c: Q)
    requires
        q_eq(a, b),
        q_eq(b, c),
        b.d > 0,
    ensures
        q_eq(a, c),
{
    assert(a.n * c.d == c.n * a.d) by (nonlinear_arith)
        requires
            a.n * b.d == b.n * a.d,
            b.n * c.d == c.n * b.d,
            b.d > 0,
    ;
}

pub proof fn lemma_q_eq_sym(a: Q, b: Q)
    requires
        q_eq(a, b),
    ensures
        q_eq(b, a),
{
}

proof fn lemma_scale_le(a: int, b: int, p: int)
    requires
        p > 0,
    ensures
        (a <= b) == (a * p <= b * p),
{
    assert((a <= b) == (a * p <= b * p)) by (nonlinear_arith)
        requires
            p > 0,
    ;
}

pub proof fn lemma_q_add_cong(a: Q, b: Q, x: Q, y: Q)
    requires
        q_eq(a, x),
        q_eq(b, y),
        a.d > 0,
        b.d > 0,
        x.d > 0,
        y.d > 0,
    ensures
        q_eq(q_add(a, b), q_add(x, y)),
{
    lemma_mul_strictly_positive(a.d, b.d);
    lemma_mul_strictly_positive(x.d, y.d);
    let p = x.d * y.d;
    let q = a.d * b.d;
    lemma_mul_is_distributive_add_other_way(p, a.n * b.d, b.n * a.d);
    lemma_mul_is_distributive_add_other_way(q, x.n * y.d, y.n * x.d);
    assert((a.n * b.d) * p == (a.n * x.d) * (b.d * y.d)) by (nonlinear_arith)
        requires
            p == x.d * y.d,
    ;
    assert((a.n * x.d) * (b.d * y.d) == (x.n * a.d) * (b.d * y.d));
    assert((x.n * a.d) * (b.d * y.d) == (x.n * y.d) * q) by (nonlinear_arith)
        requires
            q == a.d * b.d,
    ;
    assert((b.n * a.d) * p == (b.n * y.d) * (a.d * x.d)) by (nonlinear_arith)
        requires
            p == x.d * y.d,
    ;
    assert((b.n * y.d) * (a.d * x.d) == (y.n * b.d) * (a.d * x.d));
    assert((y.n * b.d) * (a.d * x.d) == (y.n * x.d) * q) by (nonlinear_arith)
        requires
            q == a.d * b.d,
    ;
}

pub proof fn lemma_q_mul_cong(a: Q, b: Q, x: Q, y: Q)
    requires
        q_eq(a, x),
        q_eq(b, y),
        a.d > 0,
        b.d > 0,
        x.d > 0,
        y.d > 0,
    ensures
        q_eq(q_mul(a, b), q_mul(x, y)),
{
    lemma_mul_strictly_positive(a.d, b.d);
    lemma_mul_strictly_positive(x.d, y.d);
    assert((a.n * b.n) * (x.d * y.d) == (a.n * x.d) * (b.n * y.d)) by (nonlinear_arith);
    assert((a.n * x.d) * (b.n * y.d) == (x.n * a.d) * (y.n * b.d));
    assert((x.n * a.d) * (y.n * b.d) == (x.n * y.n) * (a.d * b.d)) by (nonlinear_arith);
}

pub proof fn lemma_q_le_cong(a: Q, b: Q, x: Q, y: Q)
    requires
        q_eq(a, x),
        q_eq(b, y),
        a.d > 0,
        b.d > 0,
        x.d > 0,
        y.d > 0,
    ensures
        q_le(a, b) == q_le(x, y),
{
    lemma_mul_strictly_positive(a.d, b.d);
    lemma_mul_strictly_positive(x.d, y.d);
    assert((a.n * b.d) * (x.d * y.d) == (a.n * x.d) * (b.d * y.d)) by (nonlinear_arith);
    assert((a.n * x.d) * (b.d * y.d) == (x.n * a.d) * (b.d * y.d));
    assert((x.n * a.d) * (b.d * y.d) == (x.n * y.d) * (a.d * b.d)) by (nonlinear_arith);
    assert((b.n * a.d) * (x.d * y.d) == (b.n * y.d) * (a.d * x.d)) by (nonlinear_arith);
    assert((b.n * y.d) * (a.d * x.d) == (y.n * b.d) * (a.d * x.d));
    assert((y.n * b.d) * (a.d * x.d) == (y.n * x.d) * (a.d * b.d)) by (nonlinear_arith);
    lemma_scale_le(a.n * b.d, b.n * a.d, x.d * y.d);
    lemma_scale_le(x.n * y.d, y.n * x.d, a.d * b.d);
}

/// Multiplication distributes over addition, up to rational equality.
pub proof fn lemma_q_mul_distributes(p: Q, x: Q, y: Q)
    requires
        p.d > 0,
        x.d > 0,
        y.d > 0,
    ensures
        q_eq(q_mul(p, q_add(x, y)), q_add(q_mul(p, x), q_mul(p, y))),
{
    lemma_mul_strictly_positive(x.d, y.d);
    lemma_mul_strictly_positive(p.d, x.d);
    lemma_mul_strictly_positive(p.d, y.d);
    lemma_mul_strictly_positive(p.d * x.d, p.d * y.d);
    lemma_mul_strictly_positive(p.d, x.d * y.d);
    let lhs = q_mul(p, q_add(x, y));
    let rhs = q_add(q_mul(p, x), q_mul(p, y));
    lemma_mul_is_distributive_add(p.n, x.n * y.d, y.n * x.d);
    lemma_mul_is_distributive_add(p.d, p.n * (x.n * y.d), p.n * (y.n * x.d));
    assert((p.n * x.n) * (p.d * y.d) == p.d * (p.n * (x.n * y.d))) by (nonlinear_arith);
    assert((p.n * y.n) * (p.d * x.d) == p.d * (p.n * (y.n * x.d))) by (nonlinear_arith);
    assert(rhs.n == p.d * lhs.n);
    assert((p.d * x.d) * (p.d * y.d) == p.d * (p.d * (x.d * y.d))) by (nonlinear_arith);
    assert(rhs.d == p.d * lhs.d);
    assert(lhs.n * rhs.d == rhs.n * lhs.d) by (nonlinear_arith)
        requires
            rhs.n == p.d * lhs.n,
            rhs.d == p.d * lhs.d,
    ;
}

/// Regrouping a sum of two sums pairwise, up to rational equality.
pub proof fn lemma_q_add_regroup(a: Q, b: Q, c: Q, d: Q)
    requires
        a.d > 0,
        b.d > 0,
        c.d > 0,
        d.d > 0,
    ensures
        q_eq(q_add(q_add(a, b), q_add(c, d)), q_add(q_add(a, c), q_add(b, d))),
{
    lemma_mul_strictly_positive(a.d, b.d);
    lemma_mul_strictly_positive(c.d, d.d);
    lemma_mul_strictly_positive(a.d, c.d);
    lemma_mul_strictly_positive(b.d, d.d);
    lemma_mul_strictly_positive(a.d * b.d, c.d * d.d);
    lemma_mul_strictly_positive(a.d * c.d, b.d * d.d);
    let lhs = q_add(q_add(a, b), q_add(c, d));
    let rhs = q_add(q_add(a, c), q_add(b, d));
    lemma_mul_is_distributive_add_other_way(c.d * d.d, a.n * b.d, b.n * a.d);
    lemma_mul_is_distributive_add_other_way(a.d * b.d, c.n * d.d, d.n * c.d);
    lemma_mul_is_distributive_add_other_way(b.d * d.d, a.n * c.d, c.n * a.d);
    lemma_mul_is_distributive_add_other_way(a.d * c.d, b.n * d.d, d.n * b.d);
    assert((a.n * b.d) * (c.d * d.d) == (a.n * c.d) * (b.d * d.d)) by (nonlinear_arith);
    assert((b.n * a.d) * (c.d * d.d) == (b.n * d.d) * (a.d * c.d)) by (nonlinear_arith);
    assert((c.n * d.d) * (a.d * b.d) == (c.n * a.d) * (b.d * d.d)) by (nonlinear_arith);
    assert((d.n * c.d) * (a.d * b.d) == (d.n * b.d) * (a.d * c.d)) by (nonlinear_arith);
    assert(lhs.n == rhs.n);
    assert((a.d * b.d) * (c.d * d.d) == (a.d * c.d) * (b.d * d.d)) by (nonlinear_arith);
    assert(lhs.d == rhs.d);
}

pub proof fn lemma_q_max_cong(a: Q, b: Q, x: Q, y: Q)
    requires
        q_eq(a, x),
        q_eq(b, y),
        a.d > 0,
        b.d > 0,
        x.d > 0,
        y.d > 0,
    ensures
        q_eq(q_max(a, b), q_max(x, y)),
{
    lemma_q_le_cong(a, b, x, y);
}

/// An executable rational: sign, magnitude of the numerator, denominator.
#[derive(Clone, Copy, Debug)]
pub struct Rat {
    pub neg: bool,
    pub num: u64,
    pub den: u64,
}

impl Rat {
    /// A representable rational has a nonzero denominator.
    pub open spec fn wf(self) -> bool {
        self.den >= 1
    }

    /// The rational this value stands for.
    pub open spec fn q(self) -> Q {
        Q { n: s_val(self.neg, self.num as int), d: self.den as int }
    }

    pub fn zero() -> (r: Rat)
        ensures
            r.wf(),
            r.q() == q_zero(),
            !r.neg,
    {
        Rat { neg: false, num: 0, den: 1 }
    }

    /// The nonnegative rational `num / den`.
    pub fn frac(num: u64, den: u64) -> (r: Rat)
        requires
            den >= 1,
        ensures
            r.wf(),
            r.q() == (Q { n: num as int, d: den as int }),
            !r.neg,
    {
        Rat { neg: false, num, den }
    }

    /// The nonpositive rational `-(num / den)`.
    pub fn neg_frac(num: u64, den: u64) -> (r: Rat)
        requires
            den >= 1,
        ensures
            r.wf(),
            r.q() == (Q { n: -(num as int), d: den as int }),
    {
        Rat { neg: true, num, den }
    }

    pub fn negate(&self) -> (r: Rat)
        requires
            self.wf(),
        ensures
            r.wf(),
            r.q() == q_neg(self.q()),
    {
        Rat { neg: !self.neg, num: self.num, den: self.den }
    }

    /// Exact comparison, total on well-formed values.
    pub fn le(&self, other: &Rat) -> (r: bool)
        requires
            self.wf(),
            other.wf(),
        ensures
            r == q_le(self.q(), other.q()),
    {
        proof {
            lemma_mul_upper_bound(self.num as int, u64::MAX as int, other.den as int, u64::MAX as int);
            lemma_mul_upper_bound(other.num as int, u64::MAX as int, self.den as int, u64::MAX as int);
        }
        let la: u128 = (self.num as u128) * (other.den as u128);
        let lb: u128 = (other.num as u128) * (self.den as u128);
        proof {
            assert(la == (self.num as int) * (other.den as int)) by (nonlinear_arith)
                requires
                    la == (self.num as u128) * (other.den as u128),
            ;
            assert(lb == (other.num as int) * (self.den as int)) by (nonlinear_arith)
                requires
                    lb == (other.num as u128) * (self.den as u128),
            ;
            assert(self.q().n * other.q().d == s_val(self.neg, la as int)) by (nonlinear_arith)
                requires
                    la == (self.num as int) * (other.den as int),
                    other.den >= 1,
            ;
            assert(other.q().n * self.q().d == s_val(other.neg, lb as int)) by (nonlinear_arith)
                requires
                    lb == (other.num as int) * (self.den as int),
                    self.den >= 1,
            ;
        }
        if self.neg && !other.neg {
            true
        } else if !self.neg && other.neg {
            la == 0 && lb == 0
        } else if !self.neg {
            la <= lb
        } else {
            lb <= la
        }
    }

    /// The larger value; ties keep the second operand.
    pub fn max_val(&self, other: &Rat) -> (r: Rat)
        requires
            self.wf(),
            other.wf(),
        ensures
            r.wf(),
            r.q() == q_max(self.q(), other.q()),
            (r.num == self.num && r.den == self.den) || (r.num == other.num && r.den == other.den),
    {
        if self.le(other) {
            *other
        } else {
            *self
        }
    }

    pub fn add(&self, other: &Rat) -> (r: Option<Rat>)
        requires
            self.wf(),
            other.wf(),
        ensures
            r matches Some(v) ==> v.wf() && q_eq(v.q(), q_add(self.q(), other.q())),
            r matches Some(v) ==> ((!self.neg && !other.neg) ==> !v.neg),
            r matches Some(v) ==> v.num <= self.num * other.den + other.num * self.den && v.den
                <= self.den * other.den,
            (self.num * other.den + other.num * self.den <= u64::MAX && self.den * other.den
                <= u64::MAX) ==> r is Some,
    {
        let ad: u128 = self.den as u128;
        let bd: u128 = other.den as u128;
        let g0: u128 = gcd128(ad, bd);
        let g: u128;
        let ao: u128;
        let bo: u128;
        if ad % g0 == 0 && bd % g0 == 0 {
            g = g0;
            ao = ad / g0;
            bo = bd / g0;
            proof {
                lemma_fundamental_div_mod(ad as int, g0 as int);
                lemma_fundamental_div_mod(bd as int, g0 as int);
            }
        } else {
            g = 1;
            ao = ad;
            bo = bd;
        }
        proof {
            assert(ad == g * ao && bd == g * bo);
            assert(ao >= 1 && bo >= 1) by (nonlinear_arith)
                requires
                    ad == g * ao,
                    bd == g * bo,
                    ad >= 1,
                    bd >= 1,
                    g >= 1,
            ;
            assert(ao <= ad && bo <= bd) by (nonlinear_arith)
                requires
                    ad == g * ao,
                    bd == g * bo,
                    g >= 1,
                    ao >= 0,
                    bo >= 0,
            ;
            lemma_mul_upper_bound(self.num as int, u64::MAX as int, bo as int, u64::MAX as int);
            lemma_mul_upper_bound(other.num as int, u64::MAX as int, ao as int, u64::MAX as int);
            lemma_mul_upper_bound(ad as int, u64::MAX as int, bo as int, u64::MAX as int);
        }
        let la: u128 = (self.num as u128) * bo;
        let lb: u128 = (other.num as u128) * ao;
        let d: u128 = ad * bo;
        proof {
            assert(d >= 1) by (nonlinear_arith)
                requires
                    d == ad * bo,
                    ad >= 1,
                    bo >= 1,
            ;
            // The working magnitudes never exceed the unreduced bounds.
            assert(la <= self.num * other.den && lb <= other.num * self.den && d <= self.den
                * other.den) by (nonlinear_arith)
                requires
                    la == (self.num as u128) * bo,
                    lb == (other.num as u128) * ao,
                    d == ad * bo,
                    ad == self.den,
                    bo <= other.den,
                    ao <= self.den,
                    self.num >= 0,
                    other.num >= 0,
                    ad >= 0,
            ;
        }
        let neg: bool;
        let n: u128;
        if self.neg == other.neg {
            if la > u128::MAX - lb {
                return None;
            }
            neg = self.neg;
            n = la + lb;
        } else if la >= lb {
            neg = self.neg;
            n = la - lb;
        } else {
            neg = other.neg;
            n = lb - la;
        }
        proof {
            // The signed numerator over d equals the sum's exact numerator
            // rescaled by the shared factor g.
            assert(s_val(self.neg, la as int) == self.q().n * (bo as int)) by (nonlinear_arith)
                requires
                    la == (self.num as u128) * bo,
                    bo >= 0,
            ;
            assert(s_val(other.neg, lb as int) == other.q().n * (ao as int)) by (nonlinear_arith)
                requires
                    lb == (other.num as u128) * ao,
                    ao >= 0,
            ;
            assert(s_val(neg, n as int) == s_val(self.neg, la as int) + s_val(other.neg, lb as int));
            let aq = self.q();
            let bq = other.q();
            assert(s_val(neg, n as int) * (aq.d * bq.d) == (aq.n * bq.d + bq.n * aq.d) * (d as int))
                by (nonlinear_arith)
                requires
                    s_val(neg, n as int) == aq.n * (bo as int) + bq.n * (ao as int),
                    aq.d == (g as int) * (ao as int),
                    bq.d == (g as int) * (bo as int),
                    d == (aq.d as int) * (bo as int),
            ;
            lemma_mul_strictly_positive(aq.d, bq.d);
        }
        let r = reduce_narrow(neg, n, d);
        proof {
            if let Some(v) = r {
                lemma_q_eq_trans(
                    v.q(),
                    Q { n: s_val(neg, n as int), d: d as int },
                    q_add(self.q(), other.q()),
                );
            }
        }
        r
    }

    pub fn sub(&self, other: &Rat) -> (r: Option<Rat>)
        requires
            self.wf(),
            other.wf(),
        ensures
            r matches Some(v) ==> v.wf() && q_eq(v.q(), q_sub(self.q(), other.q())),
            r matches Some(v) ==> v.num <= self.num * other.den + other.num * self.den && v.den
                <= self.den * other.den,
            (self.num * other.den + other.num * self.den <= u64::MAX && self.den * other.den
                <= u64::MAX) ==> r is Some,
    {
        self.add(&other.negate())
    }

    pub fn mul(&self, other: &Rat) -> (r: Option<Rat>)
        requires
            self.wf(),
            other.wf(),
        ensures
            r matches Some(v) ==> v.wf() && q_eq(v.q(), q_mul(self.q(), other.q())),
            r matches Some(v) ==> ((self.neg == other.neg) ==> !v.neg),
            r matches Some(v) ==> v.num <= self.num * other.num && v.den <= self.den * other.den,
            (self.num * other.num <= u64::MAX && self.den * other.den <= u64::MAX) ==> r is Some,
    {
        proof {
            lemma_mul_upper_bound(self.num as int, u64::MAX as int, other.num as int, u64::MAX as int);
            lemma_mul_upper_bound(self.den as int, u64::MAX as int, other.den as int, u64::MAX as int);
        }
        let n: u128 = (self.num as u128) * (other.num as u128);
        let d: u128 = (self.den as u128) * (other.den as u128);
        let neg: bool = self.neg != other.neg;
        proof {
            assert(d >= 1) by (nonlinear_arith)
                requires
                    d == (self.den as u128) * (other.den as u128),
                    self.den >= 1,
                    other.den >= 1,
            ;
            let aq = self.q();
            let bq = other.q();
            assert(s_val(neg, n as int) == aq.n * bq.n) by (nonlinear_arith)
                requires
                    n == (self.num as u128) * (other.num as u128),
                    aq.n == s_val(self.neg, self.num as int),
                    bq.n == s_val(other.neg, other.num as int),
                    neg == (self.neg != other.neg),
            ;
            assert(s_val(neg, n as int) * (aq.d * bq.d) == (aq.n * bq.n) * (d as int))
                by (nonlinear_arith)
                requires
                    s_val(neg, n as int) == aq.n * bq.n,
                    d == (self.den as u128) * (other.den as u128),
                    aq.d == self.den as int,
                    bq.d == other.den as int,
            ;
            lemma_mul_strictly_positive(aq.d, bq.d);
        }
        let r = reduce_narrow(neg, n, d);
        proof {
            if let Some(v) = r {
                lemma_q_eq_trans(
                    v.q(),
                    Q { n: s_val(neg, n as int), d: d as int },
                    q_mul(self.q(), other.q()),
                );
            }
        }
        r
    }
}

/// Greatest common divisor by Euclid's algorithm.  Only positivity is
/// promised; callers re-check divisibility before dividing by it.
fn gcd128(a: u128, b: u128) -> (g: u128)
    requires
        a >= 1,
    ensures
        g >= 1,
{
    let mut x: u128 = a;
    let mut y: u128 = b;
    while y != 0
        invariant
            x >= 1,
        decreases y,
    {
        let t: u128 = x % y;
        x = y;
        y = t;
    }
    x
}

/// Divide out the greatest common factor and fit the result into `u64`
/// fields; `None` when the reduced value still does not fit.
fn reduce_narrow(neg: bool, n: u128, d: u128) -> (r: Option<Rat>)
    requires
        d >= 1,
    ensures
        r matches Some(v) ==> v.wf() && q_eq(v.q(), Q { n: s_val(neg, n as int), d: d as int }),
        r matches Some(v) ==> (v.neg ==> neg),
        r matches Some(v) ==> v.num <= n && v.den <= d,
        (n <= u64::MAX && d <= u64::MAX) ==> r is Some,
{
    if n == 0 {
        let v = Rat { neg: false, num: 0, den: 1 };
        proof {
            assert(v.q().n * (d as int) == 0) by (nonlinear_arith)
                requires
                    v.q().n == 0,
            ;
            assert(s_val(neg, n as int) * v.q().d == 0);
        }
        return Some(v);
    }
    let g0: u128 = gcd128(n, d);
    let g: u128;
    let n2: u128;
    let d2: u128;
    if n % g0 == 0 && d % g0 == 0 {
        g = g0;
        n2 = n / g0;
        d2 = d / g0;
        proof {
            lemma_fundamental_div_mod(n as int, g0 as int);
            lemma_fundamental_div_mod(d as int, g0 as int);
        }
    } else {
        g = 1;
        n2 = n;
        d2 = d;
    }
    proof {
        assert(n == g * n2 && d == g * d2);
        assert(d2 >= 1) by (nonlinear_arith)
            requires
                d == g * d2,
                d >= 1,
                g >= 1,
                d2 >= 0,
        ;
        assert(n2 <= n && d2 <= d) by (nonlinear_arith)
            requires
                n == g * n2,
                d == g * d2,
                g >= 1,
                n2 >= 0,
                d2 >= 0,
        ;
    }
    if n2 <= u64::MAX as u128 && d2 <= u64::MAX as u128 {
        let v = Rat { neg, num: n2 as u64, den: d2 as u64 };
        proof {
            assert(s_val(neg, n2 as int) * (d as int) == s_val(neg, n as int) * (d2 as int))
                by (nonlinear_arith)
                requires
                    n == g * n2,
                    d == g * d2,
            ;
        }
        Some(v)
    } else {
        None
    }
}

} // verus!
