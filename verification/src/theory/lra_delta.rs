//! Values of the ordered field Q(δ, ε): `c + kδ + Σ eps[i]·εᵢ`, with `1 ≫ δ ≫ ε₁ ≫ ε₂ ≫ …`.
use vstd::prelude::*;
use crate::num::{Rational, q_eq, q_lt};

verus! {

/// -1, 0 or 1 as the fraction `a` is below, equal to or above `b`.
pub open spec fn q_sign_order(a: (int, int), b: (int, int)) -> int {
    if q_lt(a, b) { -1 } else if q_eq(a, b) { 0 } else { 1 }
}

/// `r` is one of `a` and `b`, the smaller in the rational part, or, where those are equal,
/// in the δ part (where both are equal too, either may be chosen by the perturbations).
pub open spec fn smaller_of(a: DeltaRational, b: DeltaRational, r: DeltaRational) -> bool {
    &&& r == a || r == b
    &&& !q_eq(a.c@, b.c@) ==> r == (if q_lt(a.c@, b.c@) { a } else { b })
    &&& q_eq(a.c@, b.c@) && !q_eq(a.k@, b.k@) ==> r == (if q_lt(a.k@, b.k@) { a } else { b })
}

/// A linear combination `c + kδ + Σ eps[i]·εᵢ` with exact rational coefficients.
#[derive(Debug)]
pub struct DeltaRational {
    pub c: Rational,
    pub k: Rational,
    /// Perturbation coefficients by strictly increasing index; none is zero.
    pub eps: Vec<(usize, Rational)>,
}

/// Whether the perturbation list is well formed.
pub open spec fn eps_wf(e: Seq<(usize, Rational)>) -> bool {
    &&& forall|i: int| 0 <= i < e.len() ==> (#[trigger] e[i]).1.wf() && e[i].1@.0 != 0
    &&& forall|i: int, j: int| 0 <= i < j < e.len() ==> (#[trigger] e[i]).0 < (#[trigger] e[j]).0
}

impl DeltaRational {
    pub open spec fn wf(&self) -> bool {
        &&& self.c.wf()
        &&& self.k.wf()
        &&& eps_wf(self.eps@)
    }

    /// The plain rational `c`.
    pub fn rational(c: Rational) -> (r: DeltaRational)
        requires
            c.wf(),
        ensures
            r.wf(),
            r.c@ == c@,
            r.k@ == (0int, 1int),
            r.eps@.len() == 0,
    {
        DeltaRational { c, k: Rational::zero(), eps: Vec::new() }
    }

    pub fn zero() -> (r: DeltaRational)
        ensures
            r.wf(),
            r.c@ == (0int, 1int),
            r.k@ == (0int, 1int),
            r.eps@.len() == 0,
    {
        DeltaRational::rational(Rational::zero())
    }

    /// `c + kδ + coef·ε_idx`.
    pub fn with_perturbation(c: Rational, k: i64, idx: usize, coef: Rational) -> (r: DeltaRational)
        requires
            c.wf(),
            coef.wf(),
        ensures
            r.wf(),
            r.c@ == c@,
            r.k@ == (k as int, 1int),
            coef@.0 == 0 ==> r.eps@.len() == 0,
            coef@.0 != 0 ==> r.eps@.len() == 1 && r.eps@[0].0 == idx && r.eps@[0].1@ == coef@,
    {
        let mut eps: Vec<(usize, Rational)> = Vec::new();
        if !coef.is_zero() {
            eps.push((idx, coef));
        }
        DeltaRational { c, k: Rational::from_i64(k), eps }
    }

    pub fn duplicate(&self) -> (r: DeltaRational)
        requires
            self.wf(),
        ensures
            r.wf(),
            r.c@ == self.c@,
            r.k@ == self.k@,
            r.eps@.len() == self.eps@.len(),
            forall|i: int| 0 <= i < self.eps@.len() ==> (#[trigger] r.eps@[i]).0 == self.eps@[i].0 && r.eps@[i].1@ == self.eps@[i].1@,
    {
        DeltaRational { c: self.c.duplicate(), k: self.k.duplicate(), eps: dup_eps(&self.eps) }
    }

    /// The sum (`sign` = 1) or difference (`sign` = -1) of two values.
    fn combine(&self, rhs: &DeltaRational, subtract: bool) -> (r: DeltaRational)
        requires
            self.wf(),
            rhs.wf(),
        ensures
            r.wf(),
            !subtract ==> q_eq(r.c@, crate::num::q_add(self.c@, rhs.c@)),
            subtract ==> q_eq(r.c@, crate::num::q_sub(self.c@, rhs.c@)),
            !subtract ==> q_eq(r.k@, crate::num::q_add(self.k@, rhs.k@)),
            subtract ==> q_eq(r.k@, crate::num::q_sub(self.k@, rhs.k@)),
    {
        let mut out: Vec<(usize, Rational)> = Vec::new();
        let mut i: usize = 0;
        let mut j: usize = 0;
        while i < self.eps.len() || j < rhs.eps.len()
            invariant
                self.wf(),
                rhs.wf(),
                i <= self.eps@.len(),
                j <= rhs.eps@.len(),
                eps_wf(out@),
                out@.len() > 0 && i < self.eps@.len() ==> out@.last().0 < self.eps@[i as int].0,
                out@.len() > 0 && j < rhs.eps@.len() ==> out@.last().0 < rhs.eps@[j as int].0,
            decreases self.eps@.len() + rhs.eps@.len() - i - j,
        {
            let take_left = j >= rhs.eps.len() || (i < self.eps.len() && self.eps[i].0 < rhs.eps[j].0);
            let take_right = i >= self.eps.len() || (j < rhs.eps.len() && rhs.eps[j].0 < self.eps[i].0);
            if take_left {
                let idx = self.eps[i].0;
                out.push((idx, self.eps[i].1.duplicate()));
                i += 1;
            } else if take_right {
                let idx = rhs.eps[j].0;
                let v = if subtract { rhs.eps[j].1.neg() } else { rhs.eps[j].1.duplicate() };
                out.push((idx, v));
                j += 1;
            } else {
                let idx = self.eps[i].0;
                let v = if subtract { self.eps[i].1.sub(&rhs.eps[j].1) } else { self.eps[i].1.add(&rhs.eps[j].1) };
                if !v.is_zero() {
                    out.push((idx, v));
                }
                i += 1;
                j += 1;
            }
        }
        let c = if subtract { self.c.sub(&rhs.c) } else { self.c.add(&rhs.c) };
        let k = if subtract { self.k.sub(&rhs.k) } else { self.k.add(&rhs.k) };
        DeltaRational { c, k, eps: out }
    }

    pub fn add(&self, rhs: &DeltaRational) -> (r: DeltaRational)
        requires
            self.wf(),
            rhs.wf(),
        ensures
            r.wf(),
            q_eq(r.c@, crate::num::q_add(self.c@, rhs.c@)),
            q_eq(r.k@, crate::num::q_add(self.k@, rhs.k@)),
    {
        self.combine(rhs, false)
    }

    pub fn sub(&self, rhs: &DeltaRational) -> (r: DeltaRational)
        requires
            self.wf(),
            rhs.wf(),
        ensures
            r.wf(),
            q_eq(r.c@, crate::num::q_sub(self.c@, rhs.c@)),
            q_eq(r.k@, crate::num::q_sub(self.k@, rhs.k@)),
    {
        self.combine(rhs, true)
    }

    /// The value scaled by `a`.
    pub fn scale(&self, a: &Rational) -> (r: DeltaRational)
        requires
            self.wf(),
            a.wf(),
        ensures
            r.wf(),
            a@.0 != 0 ==> q_eq(r.c@, crate::num::q_mul(self.c@, a@)),
            a@.0 != 0 ==> q_eq(r.k@, crate::num::q_mul(self.k@, a@)),
            a@.0 == 0 ==> r.c@.0 == 0 && r.k@.0 == 0 && r.eps@.len() == 0,
    {
        if a.is_zero() {
            return DeltaRational::zero();
        }
        let mut eps: Vec<(usize, Rational)> = Vec::new();
        let mut i: usize = 0;
        while i < self.eps.len()
            invariant
                self.wf(),
                a.wf(),
                a@.0 != 0,
                i <= self.eps@.len(),
                eps@.len() == i,
                forall|q: int| 0 <= q < i ==> (#[trigger] eps@[q]).0 == self.eps@[q].0 && eps@[q].1.wf() && eps@[q].1@.0 != 0,
            decreases self.eps@.len() - i,
        {
            let v = self.eps[i].1.mul(a);
            proof {
                assert(self.eps@[i as int].1@.0 * a@.0 != 0) by (nonlinear_arith)
                    requires self.eps@[i as int].1@.0 != 0, a@.0 != 0;
                assert(v@.0 != 0) by (nonlinear_arith)
                    requires v@.0 * (self.eps@[i as int].1@.1 * a@.1) == (self.eps@[i as int].1@.0 * a@.0) * v@.1,
                        self.eps@[i as int].1@.0 * a@.0 != 0, v@.1 > 0, self.eps@[i as int].1@.1 > 0, a@.1 > 0;
            }
            eps.push((self.eps[i].0, v));
            i += 1;
        }
        assert(eps_wf(eps@));
        DeltaRational { c: self.c.mul(a), k: self.k.mul(a), eps }
    }

    /// The lexicographic order: `c`, then `k`, then the `εᵢ` by ascending index.
    pub fn order_lex(&self, rhs: &DeltaRational) -> (r: i8)
        requires
            self.wf(),
            rhs.wf(),
        ensures
            -1 <= r <= 1,
            !q_eq(self.c@, rhs.c@) ==> r == q_sign_order(self.c@, rhs.c@),
            q_eq(self.c@, rhs.c@) && !q_eq(self.k@, rhs.k@) ==> r == q_sign_order(self.k@, rhs.k@),
    {
        let oc = self.c.compare(&rhs.c);
        if oc != 0 {
            return oc;
        }
        let ok = self.k.compare(&rhs.k);
        if ok != 0 {
            return ok;
        }
        let mut i: usize = 0;
        let mut j: usize = 0;
        while i < self.eps.len() || j < rhs.eps.len()
            invariant
                self.wf(),
                rhs.wf(),
                i <= self.eps@.len(),
                j <= rhs.eps@.len(),
                q_eq(self.c@, rhs.c@),
                q_eq(self.k@, rhs.k@),
            decreases self.eps@.len() + rhs.eps@.len() - i - j,
        {
            let idx = if j >= rhs.eps.len() || (i < self.eps.len() && self.eps[i].0 <= rhs.eps[j].0) {
                self.eps[i].0
            } else {
                rhs.eps[j].0
            };
            let zero = Rational::zero();
            let a = if i < self.eps.len() && self.eps[i].0 == idx { self.eps[i].1.duplicate() } else { Rational::zero() };
            let b = if j < rhs.eps.len() && rhs.eps[j].0 == idx { rhs.eps[j].1.duplicate() } else { zero };
            let o = a.compare(&b);
            if o != 0 {
                return o;
            }
            if i < self.eps.len() && self.eps[i].0 == idx {
                i += 1;
            }
            if j < rhs.eps.len() && rhs.eps[j].0 == idx {
                j += 1;
            }
        }
        0
    }

    /// Whether this value is below the rational `rhs`.
    pub fn lt_rational(&self, rhs: &Rational) -> (r: bool)
        requires
            self.wf(),
            rhs.wf(),
        ensures
            !q_eq(self.c@, rhs@) ==> r == q_lt(self.c@, rhs@),
            q_eq(self.c@, rhs@) && !q_eq(self.k@, (0int, 1int)) ==> r == q_lt(self.k@, (0int, 1int)),
    {
        let other = DeltaRational::rational(rhs.duplicate());
        self.order_lex(&other) == -1
    }

    /// Whether this value is at or below the rational `rhs`.
    pub fn le_rational(&self, rhs: &Rational) -> (r: bool)
        requires
            self.wf(),
            rhs.wf(),
        ensures
            !q_eq(self.c@, rhs@) ==> r == q_lt(self.c@, rhs@),
            q_eq(self.c@, rhs@) && !q_eq(self.k@, (0int, 1int)) ==> r == q_lt(self.k@, (0int, 1int)),
    {
        let other = DeltaRational::rational(rhs.duplicate());
        self.order_lex(&other) != 1
    }

    /// Whether this value is below `rhs` in the lexicographic order.
    pub fn lt_delta(&self, rhs: &DeltaRational) -> (r: bool)
        requires
            self.wf(),
            rhs.wf(),
        ensures
            !q_eq(self.c@, rhs.c@) ==> r == q_lt(self.c@, rhs.c@),
            q_eq(self.c@, rhs.c@) && !q_eq(self.k@, rhs.k@) ==> r == q_lt(self.k@, rhs.k@),
    {
        self.order_lex(rhs) == -1
    }

    /// The smaller of two values.
    pub fn min_delta(self, rhs: DeltaRational) -> (r: DeltaRational)
        requires
            self.wf(),
            rhs.wf(),
        ensures
            r.wf(),
            smaller_of(self, rhs, r),
    {
        if self.lt_delta(&rhs) { self } else { rhs }
    }

    /// Whether this value is above zero in the lexicographic order.
    pub fn is_positive(&self) -> (r: bool)
        requires
            self.wf(),
        ensures
            !q_eq(self.c@, (0int, 1int)) ==> r == q_lt((0int, 1int), self.c@),
            q_eq(self.c@, (0int, 1int)) && !q_eq(self.k@, (0int, 1int)) ==> r == q_lt((0int, 1int), self.k@),
    {
        self.order_lex(&DeltaRational::zero()) == 1
    }

    pub fn is_zero(&self) -> (r: bool)
        requires
            self.wf(),
        ensures
            r == (self.c@.0 == 0 && self.k@.0 == 0 && self.eps@.len() == 0),
    {
        self.c.is_zero() && self.k.is_zero() && self.eps.len() == 0
    }

    /// The value `c + kδ`, without the perturbation.
    pub fn real_part(&self) -> (r: DeltaRational)
        requires
            self.wf(),
        ensures
            r.wf(),
            r.c@ == self.c@,
            r.k@ == self.k@,
            r.eps@.len() == 0,
    {
        DeltaRational { c: self.c.duplicate(), k: self.k.duplicate(), eps: Vec::new() }
    }

    /// Equality of values with no perturbation part on either side.
    pub fn same_real(&self, rhs: &DeltaRational) -> (r: bool)
        requires
            self.wf(),
            rhs.wf(),
        ensures
            r == (q_eq(self.c@, rhs.c@) && q_eq(self.k@, rhs.k@) && self.eps@.len() == 0 && rhs.eps@.len() == 0),
    {
        self.c.eq_value(&rhs.c) && self.k.eq_value(&rhs.k) && self.eps.len() == 0 && rhs.eps.len() == 0
    }
}

/// A copy of a perturbation list.
fn dup_eps(e: &Vec<(usize, Rational)>) -> (r: Vec<(usize, Rational)>)
    requires
        eps_wf(e@),
    ensures
        eps_wf(r@),
        r@.len() == e@.len(),
        forall|i: int| 0 <= i < e@.len() ==> (#[trigger] r@[i]).0 == e@[i].0 && r@[i].1@ == e@[i].1@,
{
    let mut out: Vec<(usize, Rational)> = Vec::new();
    let mut i: usize = 0;
    while i < e.len()
        invariant
            eps_wf(e@),
            i <= e@.len(),
            out@.len() == i,
            forall|q: int| 0 <= q < i ==> (#[trigger] out@[q]).0 == e@[q].0 && out@[q].1@ == e@[q].1@ && out@[q].1.wf(),
        decreases e@.len() - i,
    {
        out.push((e[i].0, e[i].1.duplicate()));
        i += 1;
    }
    out
}

} // verus!
