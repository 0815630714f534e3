//! Nonlinear arithmetic: polynomials with integer coefficients over indexed variables, the
//! operations of a CAD-style projection, and a sign check on sums of even powers.
use vstd::prelude::*;
use crate::ast::{Expr, ModelValue, clone_exprs};
use crate::ast::order::{string_order, lemma_chars_order_zero};
use crate::num::Integer;
use vstd::arithmetic::power::pow;

verus! {

broadcast use vstd::std_specs::vec::group_vec_axioms;

/// -1, 0 or 1 as the exponent vector `a` comes before, equals or comes after `b`
/// (lexicographically, a proper prefix first).
fn exps_order(a: &Vec<u32>, b: &Vec<u32>) -> (r: i8)
    ensures
        -1 <= r <= 1,
        r == 0 <==> a@ == b@,
{
    let mut i: usize = 0;
    while i < a.len() && i < b.len()
        invariant
            i <= a@.len(),
            i <= b@.len(),
            a@.subrange(0, i as int) == b@.subrange(0, i as int),
        decreases a@.len() - i,
    {
        if a[i] < b[i] {
            return -1;
        }
        if a[i] > b[i] {
            return 1;
        }
        i += 1;
        assert(a@.subrange(0, i as int) =~= a@.subrange(0, i - 1).push(a@[i - 1]));
        assert(b@.subrange(0, i as int) =~= b@.subrange(0, i - 1).push(b@[i - 1]));
    }
    if a.len() < b.len() {
        -1
    } else if a.len() > b.len() {
        1
    } else {
        assert(a@ =~= a@.subrange(0, i as int));
        assert(b@ =~= b@.subrange(0, i as int));
        0
    }
}

/// A copy of an exponent vector.
fn copy_exps(v: &Vec<u32>) -> (r: Vec<u32>)
    ensures
        r@ == v@,
{
    let mut out: Vec<u32> = Vec::new();
    let mut i: usize = 0;
    while i < v.len()
        invariant
            i <= v@.len(),
            out@ == v@.subrange(0, i as int),
        decreases v@.len() - i,
    {
        out.push(v[i]);
        i += 1;
        assert(out@ =~= v@.subrange(0, i as int));
    }
    assert(out@ =~= v@);
    out
}

/// The coefficient of the monomial `e` in the term list `t` (0 when absent).
pub open spec fn coeff(t: Seq<(Vec<u32>, Integer)>, e: Seq<u32>) -> int
    decreases t.len(),
{
    if t.len() == 0 {
        0
    } else if t.last().0@ == e {
        t.last().1@
    } else {
        coeff(t.drop_last(), e)
    }
}

/// Whether the monomials of `t` are distinct.
pub open spec fn distinct_monomials(t: Seq<(Vec<u32>, Integer)>) -> bool {
    forall|i: int, j: int| 0 <= i < j < t.len() ==> (#[trigger] t[i]).0@ != (#[trigger] t[j]).0@
}

/// With distinct monomials, the coefficient of a monomial of the list is its own.
pub proof fn lemma_coeff_index(t: Seq<(Vec<u32>, Integer)>, k: int)
    requires
        distinct_monomials(t),
        0 <= k < t.len(),
    ensures
        coeff(t, t[k].0@) == t[k].1@,
    decreases t.len(),
{
    if k < t.len() - 1 {
        assert(t.last().0@ != t[k].0@) by {
            assert(t[k].0@ != t[t.len() - 1].0@);
        }
        let d = t.drop_last();
        assert(distinct_monomials(d)) by {
            assert forall|i: int, j: int| 0 <= i < j < d.len() implies (#[trigger] d[i]).0@ != (#[trigger] d[j]).0@ by {
                assert(d[i] == t[i] && d[j] == t[j]);
            }
        }
        assert(d[k] == t[k]);
        lemma_coeff_index(d, k);
    }
}

/// The coefficient of a monomial that the list lacks is zero.
pub proof fn lemma_coeff_missing(t: Seq<(Vec<u32>, Integer)>, e: Seq<u32>)
    requires
        forall|i: int| 0 <= i < t.len() ==> (#[trigger] t[i]).0@ != e,
    ensures
        coeff(t, e) == 0,
    decreases t.len(),
{
    if t.len() > 0 {
        let d = t.drop_last();
        assert forall|i: int| 0 <= i < d.len() implies (#[trigger] d[i]).0@ != e by {
            assert(d[i] == t[i]);
        }
        assert(t[t.len() - 1].0@ != e);
        lemma_coeff_missing(d, e);
    }
}

/// Two lists with distinct monomials, the same monomials and the same coefficient at each
/// monomial have the same coefficients.
pub proof fn lemma_coeff_same(t: Seq<(Vec<u32>, Integer)>, u: Seq<(Vec<u32>, Integer)>, e: Seq<u32>)
    requires
        distinct_monomials(t),
        distinct_monomials(u),
        forall|i: int| 0 <= i < t.len() && (#[trigger] t[i]).0@ == e ==>
            exists|j: int| 0 <= j < u.len() && u[j].0@ == e && u[j].1@ == t[i].1@,
        forall|j: int| 0 <= j < u.len() && (#[trigger] u[j]).0@ == e ==>
            exists|i: int| 0 <= i < t.len() && t[i].0@ == e,
    ensures
        coeff(t, e) == coeff(u, e),
{
    if exists|i: int| 0 <= i < t.len() && t[i].0@ == e {
        let i = choose|i: int| 0 <= i < t.len() && t[i].0@ == e;
        lemma_coeff_index(t, i);
        let j = choose|j: int| 0 <= j < u.len() && u[j].0@ == e && u[j].1@ == t[i].1@;
        lemma_coeff_index(u, j);
    } else {
        lemma_coeff_missing(t, e);
        assert forall|j: int| 0 <= j < u.len() implies (#[trigger] u[j]).0@ != e by {
            if u[j].0@ == e {
                let i = choose|i: int| 0 <= i < t.len() && t[i].0@ == e;
            }
        }
        lemma_coeff_missing(u, e);
    }
}

/// In a list with distinct monomials, the monomial at `i` has no coefficient before `i`.
pub proof fn lemma_coeff_missing_prefix(t: Seq<(Vec<u32>, Integer)>, i: int)
    requires
        distinct_monomials(t),
        0 <= i < t.len(),
    ensures
        coeff(t.subrange(0, i), t[i].0@) == 0,
{
    let p = t.subrange(0, i);
    assert forall|k: int| 0 <= k < p.len() implies (#[trigger] p[k]).0@ != t[i].0@ by {
        assert(p[k] == t[k]);
    }
    lemma_coeff_missing(p, t[i].0@);
}

/// The exponent of variable `var` in the monomial `e` (0 beyond its end).
pub open spec fn exponent_of(e: Seq<u32>, var: int) -> nat {
    if 0 <= var < e.len() { e[var] as nat } else { 0 }
}

/// The value of a term list as a polynomial in variable `var` alone, at `x`: each
/// coefficient times `x` to the exponent of `var` in its monomial, summed.
pub open spec fn univariate_value(t: Seq<(Vec<u32>, Integer)>, var: int, x: int) -> int
    decreases t.len(),
{
    if t.len() == 0 {
        0
    } else {
        univariate_value(t.drop_last(), var, x) + t.last().1@ * pow(x, exponent_of(t.last().0@, var))
    }
}

/// The coefficient of `m` in the derivative by variable `var` of the term list `t`: each term
/// whose monomial has `var` to a positive power `k` contributes `k` times its coefficient to
/// the monomial with that power lowered by one.
pub open spec fn derivative_coeff(t: Seq<(Vec<u32>, Integer)>, var: int, m: Seq<u32>) -> int
    decreases t.len(),
{
    if t.len() == 0 {
        0
    } else {
        let e = t.last().0@;
        let part = if 0 <= var < e.len() && e[var] > 0 && m == e.update(var, (e[var] - 1) as u32) {
            t.last().1@ * e[var]
        } else {
            0
        };
        derivative_coeff(t.drop_last(), var, m) + part
    }
}

/// The exponent of variable `k` in the monomial `e`, as stored (0 beyond its end).
pub open spec fn exp_u32(e: Seq<u32>, k: int) -> u32 {
    if 0 <= k < e.len() { e[k] } else { 0 }
}

/// The monomial of a product of two monomials: exponents added (wrapping at `u32`), over
/// the longer of the two.
pub open spec fn mono_product(a: Seq<u32>, b: Seq<u32>) -> Seq<u32> {
    Seq::new(if a.len() >= b.len() { a.len() } else { b.len() }, |k: int| exp_u32(a, k).wrapping_add(exp_u32(b, k)))
}

/// The coefficient of `m` in the product of the term `c·e` with the term list `t`.
pub open spec fn row_coeff(c: int, e: Seq<u32>, t: Seq<(Vec<u32>, Integer)>, m: Seq<u32>) -> int
    decreases t.len(),
{
    if t.len() == 0 {
        0
    } else {
        row_coeff(c, e, t.drop_last(), m) + if mono_product(e, t.last().0@) == m { c * t.last().1@ } else { 0 }
    }
}

/// The coefficient of `m` in the product of two term lists: the sum over all pairs of terms.
pub open spec fn product_coeff(a: Seq<(Vec<u32>, Integer)>, b: Seq<(Vec<u32>, Integer)>, m: Seq<u32>) -> int
    decreases a.len(),
{
    if a.len() == 0 {
        0
    } else {
        product_coeff(a.drop_last(), b, m) + row_coeff(a.last().1@, a.last().0@, b, m)
    }
}

/// A monomial times `x_var ^ power`: the exponent of `var` raised (wrapping at `u32`), the
/// monomial extended with zeros to reach `var`.
pub open spec fn lift_mono(e: Seq<u32>, var: int, power: u32) -> Seq<u32> {
    Seq::new(if e.len() > var { e.len() } else { (var + 1) as nat },
        |k: int| if k == var { exp_u32(e, k).wrapping_add(power) } else { exp_u32(e, k) })
}

/// The coefficient of `m` after each term of `t`, in order, has been lifted and set (a later
/// term whose lifted monomial is `m` replaces an earlier one).
pub open spec fn lifted_coeff(t: Seq<(Vec<u32>, Integer)>, var: int, power: u32, m: Seq<u32>) -> int
    decreases t.len(),
{
    if t.len() == 0 {
        0
    } else if lift_mono(t.last().0@, var, power) == m {
        t.last().1@
    } else {
        lifted_coeff(t.drop_last(), var, power, m)
    }
}

/// The largest exponent of `var` over the monomials of `t` (0 for none).
pub open spec fn max_exponent(t: Seq<(Vec<u32>, Integer)>, var: int) -> u32
    decreases t.len(),
{
    if t.len() == 0 {
        0
    } else {
        let a = max_exponent(t.drop_last(), var);
        let b = exp_u32(t.last().0@, var);
        if b > a { b } else { a }
    }
}

/// A monomial with the exponent of `var` set to 0 (where it has one).
pub open spec fn zero_mono(e: Seq<u32>, var: int) -> Seq<u32> {
    if 0 <= var < e.len() { e.update(var, 0) } else { e }
}

/// The coefficient of `m` in the leading coefficient of `t` in `var`: the sum of the
/// coefficients of the terms with `var` to the power `d` whose monomial, without `var`, is `m`.
pub open spec fn leading_coeff(t: Seq<(Vec<u32>, Integer)>, var: int, d: u32, m: Seq<u32>) -> int
    decreases t.len(),
{
    if t.len() == 0 {
        0
    } else {
        leading_coeff(t.drop_last(), var, d, m)
            + if exp_u32(t.last().0@, var) == d && zero_mono(t.last().0@, var) == m { t.last().1@ } else { 0 }
    }
}

/// A polynomial with integer coefficients: monomials (exponent of each variable, by index)
/// with their coefficients, in the order of the monomials, each monomial once.
#[derive(Debug)]
pub struct MultivariatePolynomial {
    pub terms: Vec<(Vec<u32>, Integer)>,
}

impl MultivariatePolynomial {
    pub open spec fn wf(&self) -> bool {
        &&& forall|i: int| 0 <= i < self.terms@.len() ==> (#[trigger] self.terms@[i]).1.wf()
        &&& forall|i: int, j: int| 0 <= i < j < self.terms@.len() ==> (#[trigger] self.terms@[i]).0@ != (#[trigger] self.terms@[j]).0@
    }

    /// The coefficient of the monomial `e`.
    pub open spec fn coeff(&self, e: Seq<u32>) -> int {
        coeff(self.terms@, e)
    }

    pub fn new() -> (r: MultivariatePolynomial)
        ensures
            r.wf(),
            r.terms@.len() == 0,
            forall|e: Seq<u32>| r.coeff(e) == 0,
    {
        MultivariatePolynomial { terms: Vec::new() }
    }

    /// The constant polynomial `c`.
    pub fn constant(c: Integer) -> (r: MultivariatePolynomial)
        requires
            c.wf(),
        ensures
            r.wf(),
            r.terms@.len() == 1,
            r.terms@[0].0@.len() == 0,
            r.terms@[0].1@ == c@,
    {
        let mut t: Vec<(Vec<u32>, Integer)> = Vec::new();
        t.push((Vec::new(), c));
        MultivariatePolynomial { terms: t }
    }

    /// The coefficient of the monomial `exps`, if it has one.
    pub fn coefficient(&self, exps: &Vec<u32>) -> (r: Option<&Integer>)
        ensures
            r matches Some(c) ==> exists|i: int| 0 <= i < self.terms@.len() && self.terms@[i].0@ == exps@ && self.terms@[i].1 == *c,
            r is None ==> forall|i: int| 0 <= i < self.terms@.len() ==> (#[trigger] self.terms@[i]).0@ != exps@,
    {
        let mut i: usize = 0;
        while i < self.terms.len()
            invariant
                i <= self.terms@.len(),
                forall|q: int| 0 <= q < i ==> (#[trigger] self.terms@[q]).0@ != exps@,
            decreases self.terms@.len() - i,
        {
            if exps_order(&self.terms[i].0, exps) == 0 {
                return Some(&self.terms[i].1);
            }
            i += 1;
        }
        None
    }

    /// A copy of this polynomial.
    pub fn duplicate(&self) -> (r: MultivariatePolynomial)
        requires
            self.wf(),
        ensures
            r.wf(),
            r.terms@.len() == self.terms@.len(),
            forall|i: int| 0 <= i < self.terms@.len() ==> (#[trigger] r.terms@[i]).0@ == self.terms@[i].0@
                && r.terms@[i].1@ == self.terms@[i].1@,
    {
        let mut out: Vec<(Vec<u32>, Integer)> = Vec::new();
        let mut i: usize = 0;
        while i < self.terms.len()
            invariant
                self.wf(),
                i <= self.terms@.len(),
                out@.len() == i,
                forall|q: int| 0 <= q < i ==> (#[trigger] out@[q]).0@ == self.terms@[q].0@
                    && out@[q].1@ == self.terms@[q].1@ && out@[q].1.wf(),
            decreases self.terms@.len() - i,
        {
            out.push((copy_exps(&self.terms[i].0), self.terms[i].1.duplicate()));
            i += 1;
        }
        MultivariatePolynomial { terms: out }
    }

    /// Adds `c` to the coefficient of `exps`, keeping monomials in order.
    fn add_term(&mut self, exps: Vec<u32>, c: &Integer)
        requires
            old(self).wf(),
            c.wf(),
        ensures
            final(self).wf(),
            forall|e: Seq<u32>| #[trigger] final(self).coeff(e) == old(self).coeff(e) + (if e == exps@ { c@ } else { 0 }),
    {
        let ghost ex = exps@;
        let mut i: usize = 0;
        while i < self.terms.len()
            invariant
                self.wf(),
                *self == *old(self),
                i <= self.terms@.len(),
                ex == exps@,
                forall|q: int| 0 <= q < i ==> (#[trigger] self.terms@[q]).0@ != exps@,
            decreases self.terms@.len() - i,
        {
            if exps_order(&self.terms[i].0, &exps) == 0 {
                assert(old(self).terms@[i as int].0@ == ex);
                let (e, v) = self.terms.remove(i);
                assert(e@ == ex);
                let sum = v.add(c);
                self.terms.insert(i, (e, sum));
                proof {
                    assert forall|a: int, b: int| 0 <= a < b < self.terms@.len() implies (#[trigger] self.terms@[a]).0@ != (#[trigger] self.terms@[b]).0@ by {
                        assert(a == i ==> self.terms@[a].0@ == old(self).terms@[i as int].0@);
                        assert(a != i ==> self.terms@[a] == old(self).terms@[a]);
                        assert(b == i ==> self.terms@[b].0@ == old(self).terms@[i as int].0@);
                        assert(b != i ==> self.terms@[b] == old(self).terms@[b]);
                    }
                    assert forall|a: int| 0 <= a < self.terms@.len() implies (#[trigger] self.terms@[a]).1.wf() by {
                        assert(a != i ==> self.terms@[a] == old(self).terms@[a]);
                    }
                    let nt = self.terms@;
                    let ot = old(self).terms@;
                    assert(nt.len() == ot.len());
                    assert(forall|a: int| 0 <= a < nt.len() && a != i ==> #[trigger] nt[a] == ot[a]);
                    assert(nt[i as int].0@ == ex && ot[i as int].0@ == ex);
                    assert forall|m: Seq<u32>| #[trigger] self.coeff(m) == old(self).coeff(m) + (if m == ex { c@ } else { 0 }) by {
                        if m == ex {
                            lemma_coeff_index(nt, i as int);
                            lemma_coeff_index(ot, i as int);
                        } else if exists|k: int| 0 <= k < ot.len() && ot[k].0@ == m {
                            let k = choose|k: int| 0 <= k < ot.len() && ot[k].0@ == m;
                            lemma_coeff_index(ot, k);
                            lemma_coeff_index(nt, k);
                        } else {
                            lemma_coeff_missing(ot, m);
                            assert forall|k: int| 0 <= k < nt.len() implies (#[trigger] nt[k]).0@ != m by {
                                if k != i {
                                    assert(nt[k] == ot[k]);
                                }
                            }
                            lemma_coeff_missing(nt, m);
                        }
                    }
                }
                return;
            }
            i += 1;
        }
        let mut pos: usize = 0;
        while pos < self.terms.len() && exps_order(&self.terms[pos].0, &exps) == -1
            invariant
                pos <= self.terms@.len(),
            decreases self.terms@.len() - pos,
        {
            pos += 1;
        }
        let ghost before = self.terms@;
        let ghost ev = exps@;
        self.terms.insert(pos, (exps, c.duplicate()));
        proof {
            assert forall|a: int, b: int| 0 <= a < b < self.terms@.len() implies (#[trigger] self.terms@[a]).0@ != (#[trigger] self.terms@[b]).0@ by {
                let oa = if a < pos { a } else { a - 1 };
                let ob = if b < pos { b } else { b - 1 };
                if a != pos {
                    assert(self.terms@[a] == before[oa]);
                }
                if b != pos {
                    assert(self.terms@[b] == before[ob]);
                }
            }
            assert forall|a: int| 0 <= a < self.terms@.len() implies (#[trigger] self.terms@[a]).1.wf() by {
                if a < pos {
                    assert(self.terms@[a] == before[a]);
                } else if a > pos {
                    assert(self.terms@[a] == before[a - 1]);
                }
            }
            let nt = self.terms@;
            assert(nt[pos as int].0@ == ex);
            assert forall|m: Seq<u32>| #[trigger] self.coeff(m) == old(self).coeff(m) + (if m == ex { c@ } else { 0 }) by {
                if m == ex {
                    lemma_coeff_index(nt, pos as int);
                    lemma_coeff_missing(before, m);
                } else if exists|k: int| 0 <= k < before.len() && before[k].0@ == m {
                    let k = choose|k: int| 0 <= k < before.len() && before[k].0@ == m;
                    lemma_coeff_index(before, k);
                    if k < pos {
                        assert(nt[k] == before[k]);
                        lemma_coeff_index(nt, k);
                    } else {
                        assert(nt[k + 1] == before[k]);
                        lemma_coeff_index(nt, k + 1);
                    }
                } else {
                    lemma_coeff_missing(before, m);
                    assert forall|k: int| 0 <= k < nt.len() implies (#[trigger] nt[k]).0@ != m by {
                        if k < pos {
                            assert(nt[k] == before[k]);
                        } else if k > pos {
                            assert(nt[k] == before[k - 1]);
                        }
                    }
                    lemma_coeff_missing(nt, m);
                }
            }
        }
    }

    /// Drops the monomials with a zero coefficient.
    fn cleanup(&mut self)
        requires
            old(self).wf(),
        ensures
            final(self).wf(),
            forall|i: int| 0 <= i < final(self).terms@.len() ==> (#[trigger] final(self).terms@[i]).1@ != 0,
            forall|e: Seq<u32>| #[trigger] final(self).coeff(e) == old(self).coeff(e),
    {
        let mut out: Vec<(Vec<u32>, Integer)> = Vec::new();
        let ghost src = self.terms@;
        let mut i: usize = 0;
        while i < self.terms.len()
            invariant
                self.wf(),
                *self == *old(self),
                i <= self.terms@.len(),
                forall|q: int| 0 <= q < out@.len() ==> (#[trigger] out@[q]).1@ != 0 && out@[q].1.wf(),
                forall|a: int, b: int| 0 <= a < b < out@.len() ==> (#[trigger] out@[a]).0@ != (#[trigger] out@[b]).0@,
                forall|q: int, k: int| 0 <= q < out@.len() && i <= k < self.terms@.len() ==> (#[trigger] out@[q]).0@ != (#[trigger] self.terms@[k]).0@,
                forall|q: int| 0 <= q < out@.len() ==> exists|k: int| 0 <= k < i && (#[trigger] out@[q]).0@ == self.terms@[k].0@
                    && out@[q].1@ == self.terms@[k].1@,
                forall|k: int| 0 <= k < i && (#[trigger] self.terms@[k]).1@ != 0 ==>
                    exists|q: int| 0 <= q < out@.len() && out@[q].0@ == self.terms@[k].0@ && out@[q].1@ == self.terms@[k].1@,
            decreases self.terms@.len() - i,
        {
            let ghost ob = out@;
            if !self.terms[i].1.is_zero() {
                out.push((copy_exps(&self.terms[i].0), self.terms[i].1.duplicate()));
                proof {
                    assert forall|q: int| 0 <= q < out@.len() implies exists|k: int| 0 <= k < i + 1 && (#[trigger] out@[q]).0@ == self.terms@[k].0@
                        && out@[q].1@ == self.terms@[k].1@ by {
                        if q < ob.len() {
                            assert(out@[q] == ob[q]);
                        } else {
                            assert(out@[q].0@ == self.terms@[i as int].0@);
                        }
                    }
                    assert forall|k: int| 0 <= k < i + 1 && (#[trigger] self.terms@[k]).1@ != 0 implies
                        exists|q: int| 0 <= q < out@.len() && out@[q].0@ == self.terms@[k].0@ && out@[q].1@ == self.terms@[k].1@ by {
                        if k < i {
                            let q = choose|q: int| 0 <= q < ob.len() && ob[q].0@ == self.terms@[k].0@ && ob[q].1@ == self.terms@[k].1@;
                            assert(out@[q] == ob[q]);
                        } else {
                            assert(out@[ob.len() as int].0@ == self.terms@[k].0@);
                        }
                    }
                }
            }
            i += 1;
        }
        proof {
            let t = self.terms@;
            let u = out@;
            assert forall|m: Seq<u32>| coeff(u, m) == coeff(t, m) by {
                if exists|k: int| 0 <= k < t.len() && t[k].0@ == m {
                    let k = choose|k: int| 0 <= k < t.len() && t[k].0@ == m;
                    lemma_coeff_index(t, k);
                    if t[k].1@ != 0 {
                        let q = choose|q: int| 0 <= q < u.len() && u[q].0@ == t[k].0@ && u[q].1@ == t[k].1@;
                        lemma_coeff_index(u, q);
                    } else {
                        assert forall|q: int| 0 <= q < u.len() implies (#[trigger] u[q]).0@ != m by {
                            if u[q].0@ == m {
                                let k2 = choose|k2: int| 0 <= k2 < i && u[q].0@ == t[k2].0@ && u[q].1@ == t[k2].1@;
                                assert(k2 == k);
                            }
                        }
                        lemma_coeff_missing(u, m);
                    }
                } else {
                    lemma_coeff_missing(t, m);
                    assert forall|q: int| 0 <= q < u.len() implies (#[trigger] u[q]).0@ != m by {
                        if u[q].0@ == m {
                            let k2 = choose|k2: int| 0 <= k2 < i && u[q].0@ == t[k2].0@ && u[q].1@ == t[k2].1@;
                        }
                    }
                    lemma_coeff_missing(u, m);
                }
            }
        }
        self.terms = out;
    }

    /// The sum of two polynomials, without zero coefficients.
    pub fn add(&self, other: &MultivariatePolynomial) -> (r: MultivariatePolynomial)
        requires
            self.wf(),
            other.wf(),
        ensures
            r.wf(),
            forall|e: Seq<u32>| #[trigger] r.coeff(e) == self.coeff(e) + other.coeff(e),
            forall|i: int| 0 <= i < r.terms@.len() ==> (#[trigger] r.terms@[i]).1@ != 0,
    {
        let mut result = self.duplicate();
        proof {
            assert forall|m: Seq<u32>| #[trigger] result.coeff(m) == self.coeff(m) by {
                let t = self.terms@;
                let u = result.terms@;
                assert forall|i: int| 0 <= i < t.len() && (#[trigger] t[i]).0@ == m implies
                    exists|j: int| 0 <= j < u.len() && u[j].0@ == m && u[j].1@ == t[i].1@ by {
                    assert(u[i].0@ == m && u[i].1@ == t[i].1@);
                }
                assert forall|j: int| 0 <= j < u.len() && (#[trigger] u[j]).0@ == m implies
                    exists|i: int| 0 <= i < t.len() && t[i].0@ == m by {
                    assert(t[j].0@ == m);
                }
                lemma_coeff_same(t, u, m);
            }
        }
        let mut i: usize = 0;
        while i < other.terms.len()
            invariant
                result.wf(),
                other.wf(),
                i <= other.terms@.len(),
                forall|m: Seq<u32>| #[trigger] result.coeff(m) == self.coeff(m) + coeff(other.terms@.subrange(0, i as int), m),
            decreases other.terms@.len() - i,
        {
            let ghost before = result;
            let ex = copy_exps(&other.terms[i].0);
            result.add_term(ex, &other.terms[i].1);
            proof {
                let ot = other.terms@;
                assert forall|m: Seq<u32>| #[trigger] result.coeff(m) == self.coeff(m) + coeff(ot.subrange(0, i + 1), m) by {
                    assert(ot.subrange(0, i + 1).drop_last() =~= ot.subrange(0, i as int));
                    assert(ot.subrange(0, i + 1).last() == ot[i as int]);
                    if m != ot[i as int].0@ {
                        assert(coeff(ot.subrange(0, i + 1), m) == coeff(ot.subrange(0, i as int), m));
                    } else {
                        lemma_coeff_missing_prefix(ot, i as int);
                    }
                }
            }
            i += 1;
        }
        result.cleanup();
        proof {
            assert(other.terms@.subrange(0, i as int) =~= other.terms@);
        }
        result
    }

    /// The product of two polynomials, without zero coefficients.
    pub fn mul(&self, other: &MultivariatePolynomial) -> (r: MultivariatePolynomial)
        requires
            self.wf(),
            other.wf(),
        ensures
            r.wf(),
            forall|m: Seq<u32>| #[trigger] r.coeff(m) == product_coeff(self.terms@, other.terms@, m),
            forall|i: int| 0 <= i < r.terms@.len() ==> (#[trigger] r.terms@[i]).1@ != 0,
    {
        let mut result = MultivariatePolynomial::new();
        let mut i: usize = 0;
        proof {
            assert(self.terms@.subrange(0, 0).len() == 0);
        }
        while i < self.terms.len()
            invariant
                result.wf(),
                self.wf(),
                other.wf(),
                i <= self.terms@.len(),
                forall|m: Seq<u32>| #[trigger] result.coeff(m) == product_coeff(self.terms@.subrange(0, i as int), other.terms@, m),
            decreases self.terms@.len() - i,
        {
            let ghost row_start = result;
            let mut j: usize = 0;
            proof {
                assert(other.terms@.subrange(0, 0).len() == 0);
            }
            while j < other.terms.len()
                invariant
                    result.wf(),
                    self.wf(),
                    other.wf(),
                    i < self.terms@.len(),
                    j <= other.terms@.len(),
                    forall|m: Seq<u32>| #[trigger] result.coeff(m) == row_start.coeff(m)
                        + row_coeff(self.terms@[i as int].1@, self.terms@[i as int].0@, other.terms@.subrange(0, j as int), m),
                decreases other.terms@.len() - j,
            {
                let e1 = &self.terms[i].0;
                let e2 = &other.terms[j].0;
                let mut new_exps = copy_exps(e1);
                while new_exps.len() < e2.len()
                    invariant
                        new_exps@.len() >= e1@.len(),
                        new_exps@.len() == e1@.len() || new_exps@.len() <= e2@.len(),
                        forall|q: int| 0 <= q < new_exps@.len() ==> #[trigger] new_exps@[q] == exp_u32(e1@, q),
                    decreases e2@.len() - new_exps@.len(),
                {
                    new_exps.push(0);
                }
                let ghost padded = new_exps@;
                let mut k: usize = 0;
                while k < e2.len()
                    invariant
                        new_exps@.len() == padded.len(),
                        padded.len() >= e2@.len(),
                        padded.len() >= e1@.len(),
                        padded.len() == e1@.len() || padded.len() == e2@.len(),
                        k <= e2@.len(),
                        forall|q: int| 0 <= q < padded.len() ==> #[trigger] padded[q] == exp_u32(e1@, q),
                        forall|q: int| 0 <= q < k ==> #[trigger] new_exps@[q] == exp_u32(e1@, q).wrapping_add(exp_u32(e2@, q)),
                        forall|q: int| k <= q < new_exps@.len() ==> #[trigger] new_exps@[q] == padded[q],
                    decreases e2@.len() - k,
                {
                    let v = new_exps[k].wrapping_add(e2[k]);
                    new_exps.set(k, v);
                    k += 1;
                }
                proof {
                    assert(new_exps@ =~= mono_product(e1@, e2@)) by {
                        assert forall|q: int| 0 <= q < new_exps@.len() implies new_exps@[q] == mono_product(e1@, e2@)[q] by {
                            if q >= e2@.len() {
                                assert(exp_u32(e2@, q) == 0);
                                assert(exp_u32(e1@, q).wrapping_add(0) == exp_u32(e1@, q));
                            }
                        }
                    }
                }
                let prod = self.terms[i].1.mul(&other.terms[j].1);
                result.add_term(new_exps, &prod);
                proof {
                    let t2 = other.terms@;
                    assert(t2.subrange(0, j + 1).drop_last() =~= t2.subrange(0, j as int));
                    assert(t2.subrange(0, j + 1).last() == t2[j as int]);
                }
                j += 1;
            }
            proof {
                let t1 = self.terms@;
                assert(other.terms@.subrange(0, j as int) =~= other.terms@);
                assert(t1.subrange(0, i + 1).drop_last() =~= t1.subrange(0, i as int));
                assert(t1.subrange(0, i + 1).last() == t1[i as int]);
            }
            i += 1;
        }
        result.cleanup();
        proof {
            assert(self.terms@.subrange(0, i as int) =~= self.terms@);
        }
        result
    }

    /// The largest exponent of variable `var_idx` (0 for the zero polynomial).
    pub fn degree(&self, var_idx: usize) -> (r: u32)
        ensures
            forall|i: int| 0 <= i < self.terms@.len() && var_idx < self.terms@[i].0@.len() ==>
                #[trigger] self.terms@[i].0@[var_idx as int] <= r,
            r == max_exponent(self.terms@, var_idx as int),
    {
        let mut best: u32 = 0;
        let mut i: usize = 0;
        while i < self.terms.len()
            invariant
                i <= self.terms@.len(),
                forall|q: int| 0 <= q < i && var_idx < self.terms@[q].0@.len() ==>
                    #[trigger] self.terms@[q].0@[var_idx as int] <= best,
                best == max_exponent(self.terms@.subrange(0, i as int), var_idx as int),
            decreases self.terms@.len() - i,
        {
            let e = &self.terms[i].0;
            let d = if var_idx < e.len() { e[var_idx] } else { 0 };
            if d > best {
                best = d;
            }
            proof {
                let t = self.terms@;
                assert(t.subrange(0, i + 1).drop_last() =~= t.subrange(0, i as int));
                assert(t.subrange(0, i + 1).last() == t[i as int]);
                assert(d == exp_u32(e@, var_idx as int));
            }
            i += 1;
        }
        proof {
            assert(self.terms@.subrange(0, i as int) =~= self.terms@);
        }
        best
    }

    /// The coefficient of the highest power of `var_idx`, as a polynomial in the other
    /// variables.
    pub fn leading_coefficient(&self, var_idx: usize) -> (r: MultivariatePolynomial)
        requires
            self.wf(),
        ensures
            r.wf(),
            forall|m: Seq<u32>| #[trigger] r.coeff(m)
                == leading_coeff(self.terms@, var_idx as int, max_exponent(self.terms@, var_idx as int), m),
    {
        let deg = self.degree(var_idx);
        let mut result = MultivariatePolynomial::new();
        let mut i: usize = 0;
        while i < self.terms.len()
            invariant
                result.wf(),
                self.wf(),
                i <= self.terms@.len(),
                forall|m: Seq<u32>| #[trigger] result.coeff(m) == leading_coeff(self.terms@.subrange(0, i as int), var_idx as int, deg, m),
            decreases self.terms@.len() - i,
        {
            let e = &self.terms[i].0;
            let d = if var_idx < e.len() { e[var_idx] } else { 0 };
            if d == deg {
                let mut new_exps = copy_exps(e);
                if var_idx < new_exps.len() {
                    new_exps.set(var_idx, 0);
                }
                proof {
                    assert(new_exps@ =~= zero_mono(e@, var_idx as int));
                }
                result.add_term(new_exps, &self.terms[i].1);
            }
            proof {
                let t = self.terms@;
                assert(t.subrange(0, i + 1).drop_last() =~= t.subrange(0, i as int));
                assert(t.subrange(0, i + 1).last() == t[i as int]);
                assert(d == exp_u32(e@, var_idx as int));
            }
            i += 1;
        }
        proof {
            assert(self.terms@.subrange(0, i as int) =~= self.terms@);
        }
        result.cleanup();
        result
    }

    /// The polynomial times `x_var_idx ^ power` (exponents wrap at `u32`).
    pub fn lift(&self, var_idx: usize, power: u32) -> (r: MultivariatePolynomial)
        requires
            self.wf(),
        ensures
            r.wf(),
            forall|m: Seq<u32>| #[trigger] r.coeff(m) == lifted_coeff(self.terms@, var_idx as int, power, m),
    {
        let mut result = MultivariatePolynomial::new();
        let mut i: usize = 0;
        while i < self.terms.len()
            invariant
                result.wf(),
                self.wf(),
                i <= self.terms@.len(),
                forall|m: Seq<u32>| #[trigger] result.coeff(m) == lifted_coeff(self.terms@.subrange(0, i as int), var_idx as int, power, m),
            decreases self.terms@.len() - i,
        {
            let e = &self.terms[i].0;
            let mut new_exps = copy_exps(e);
            while new_exps.len() <= var_idx
                invariant
                    new_exps@.len() >= e@.len(),
                    new_exps@.len() == e@.len() || new_exps@.len() <= var_idx + 1,
                    forall|q: int| 0 <= q < new_exps@.len() ==> #[trigger] new_exps@[q] == exp_u32(e@, q),
                decreases var_idx + 1 - new_exps@.len(),
            {
                new_exps.push(0);
            }
            let v = new_exps[var_idx].wrapping_add(power);
            new_exps.set(var_idx, v);
            proof {
                assert(new_exps@ =~= lift_mono(e@, var_idx as int, power));
            }
            result.set_term(new_exps, &self.terms[i].1);
            proof {
                let t = self.terms@;
                assert(t.subrange(0, i + 1).drop_last() =~= t.subrange(0, i as int));
                assert(t.subrange(0, i + 1).last() == t[i as int]);
            }
            i += 1;
        }
        proof {
            assert(self.terms@.subrange(0, i as int) =~= self.terms@);
        }
        result
    }

    /// Sets the coefficient of `exps` to `c`.
    fn set_term(&mut self, exps: Vec<u32>, c: &Integer)
        requires
            old(self).wf(),
            c.wf(),
        ensures
            final(self).wf(),
            forall|e: Seq<u32>| #[trigger] final(self).coeff(e) == (if e == exps@ { c@ } else { old(self).coeff(e) }),
    {
        let ghost ex = exps@;
        let mut i: usize = 0;
        while i < self.terms.len()
            invariant
                self.wf(),
                *self == *old(self),
                i <= self.terms@.len(),
                c.wf(),
                ex == exps@,
                forall|q: int| 0 <= q < i ==> (#[trigger] self.terms@[q]).0@ != exps@,
            decreases self.terms@.len() - i,
        {
            if exps_order(&self.terms[i].0, &exps) == 0 {
                assert(old(self).terms@[i as int].0@ == ex);
                let removed = self.terms.remove(i);
                let cd = c.duplicate();
                assert(cd.wf());
                self.terms.insert(i, (removed.0, cd));
                assert(self.terms@[i as int].1.wf());
                proof {
                    assert forall|a: int, b: int| 0 <= a < b < self.terms@.len() implies (#[trigger] self.terms@[a]).0@ != (#[trigger] self.terms@[b]).0@ by {
                        assert(a == i ==> self.terms@[a].0@ == old(self).terms@[i as int].0@);
                        assert(a != i ==> self.terms@[a] == old(self).terms@[a]);
                        assert(b == i ==> self.terms@[b].0@ == old(self).terms@[i as int].0@);
                        assert(b != i ==> self.terms@[b] == old(self).terms@[b]);
                    }
                    assert forall|a: int| 0 <= a < self.terms@.len() implies (#[trigger] self.terms@[a]).1.wf() by {
                        assert(a != i ==> self.terms@[a] == old(self).terms@[a]);
                    }
                    let nt = self.terms@;
                    let ot = old(self).terms@;
                    assert(forall|a: int| 0 <= a < nt.len() && a != i ==> #[trigger] nt[a] == ot[a]);
                    assert(nt[i as int].0@ == ex);
                    assert forall|m: Seq<u32>| #[trigger] self.coeff(m) == (if m == ex { c@ } else { old(self).coeff(m) }) by {
                        if m == ex {
                            lemma_coeff_index(nt, i as int);
                        } else if exists|k: int| 0 <= k < ot.len() && ot[k].0@ == m {
                            let k = choose|k: int| 0 <= k < ot.len() && ot[k].0@ == m;
                            lemma_coeff_index(ot, k);
                            lemma_coeff_index(nt, k);
                        } else {
                            lemma_coeff_missing(ot, m);
                            assert forall|k: int| 0 <= k < nt.len() implies (#[trigger] nt[k]).0@ != m by {
                                if k != i {
                                    assert(nt[k] == ot[k]);
                                }
                            }
                            lemma_coeff_missing(nt, m);
                        }
                    }
                }
                return;
            }
            i += 1;
        }
        proof {
            lemma_coeff_missing(self.terms@, ex);
        }
        self.add_term(exps, c);
    }

    /// The polynomial with every coefficient negated.
    fn negated(&self) -> (r: MultivariatePolynomial)
        requires
            self.wf(),
        ensures
            r.wf(),
            r.terms@.len() == self.terms@.len(),
            forall|i: int| 0 <= i < self.terms@.len() ==> (#[trigger] r.terms@[i]).0@ == self.terms@[i].0@
                && r.terms@[i].1@ == -self.terms@[i].1@,
    {
        let mut out: Vec<(Vec<u32>, Integer)> = Vec::new();
        let mut i: usize = 0;
        while i < self.terms.len()
            invariant
                self.wf(),
                i <= self.terms@.len(),
                out@.len() == i,
                forall|q: int| 0 <= q < i ==> (#[trigger] out@[q]).0@ == self.terms@[q].0@
                    && out@[q].1@ == -self.terms@[q].1@ && out@[q].1.wf(),
            decreases self.terms@.len() - i,
        {
            out.push((copy_exps(&self.terms[i].0), self.terms[i].1.neg()));
            i += 1;
        }
        MultivariatePolynomial { terms: out }
    }

    /// The pseudo-remainder of `self` by `other` in the variable `var_idx`: at most
    /// `deg(self) − deg(other) + 1` steps, each scaling by the leading coefficient of `other`
    /// and cancelling the leading power.
    pub fn pseudo_remainder(&self, other: &MultivariatePolynomial, var_idx: usize) -> (r: MultivariatePolynomial)
        requires
            self.wf(),
            other.wf(),
        ensures
            r.wf(),
    {
        let deg_p = self.degree(var_idx);
        let deg_q = other.degree(var_idx);
        if deg_p < deg_q {
            return self.duplicate();
        }
        let lc_q = other.leading_coefficient(var_idx);
        let mut r = self.duplicate();
        let k: u64 = (deg_p - deg_q) as u64 + 1;
        let mut step: u64 = 0;
        while step < k
            invariant
                r.wf(),
                other.wf(),
                lc_q.wf(),
            decreases k - step,
        {
            let deg_r = r.degree(var_idx);
            if deg_r < deg_q {
                break;
            }
            let lc_r = r.leading_coefficient(var_idx);
            let term = lc_r.lift(var_idx, deg_r - deg_q);
            let mut next_r = r.mul(&lc_q);
            let sub = term.mul(other);
            let mut t: usize = 0;
            while t < sub.terms.len()
                invariant
                    next_r.wf(),
                    sub.wf(),
                    t <= sub.terms@.len(),
                decreases sub.terms@.len() - t,
            {
                let c = sub.terms[t].1.neg();
                next_r.add_term(copy_exps(&sub.terms[t].0), &c);
                t += 1;
            }
            next_r.cleanup();
            r = next_r;
            step += 1;
        }
        r
    }

    /// The resultant of `self` and `other` in `var_idx`, by repeated pseudo-remainders: the
    /// last remainder, once its degree in `var_idx` is 0 (or after as many rounds as the
    /// smaller degree allows).
    pub fn resultant(&self, other: &MultivariatePolynomial, var_idx: usize) -> (r: MultivariatePolynomial)
        requires
            self.wf(),
            other.wf(),
        ensures
            r.wf(),
    {
        let mut f = self.duplicate();
        let mut g = other.duplicate();
        if f.degree(var_idx) < g.degree(var_idx) {
            let t = f;
            f = g;
            g = t;
        }
        if g.degree(var_idx) == 0 {
            return g;
        }
        let mut r = f.pseudo_remainder(&g, var_idx);
        let mut fuel: u64 = g.degree(var_idx) as u64 + 1;
        while r.degree(var_idx) > 0 && fuel > 0
            invariant
                f.wf(),
                g.wf(),
                r.wf(),
            decreases fuel,
        {
            f = g;
            g = r;
            r = f.pseudo_remainder(&g, var_idx);
            fuel -= 1;
        }
        r
    }

    /// The partial derivative in `var_idx`.
    pub fn partial_derivative(&self, var_idx: usize) -> (r: MultivariatePolynomial)
        requires
            self.wf(),
        ensures
            r.wf(),
            forall|m: Seq<u32>| #[trigger] r.coeff(m) == derivative_coeff(self.terms@, var_idx as int, m),
    {
        let mut result = MultivariatePolynomial::new();
        let mut i: usize = 0;
        proof {
            assert(self.terms@.subrange(0, 0).len() == 0);
        }
        while i < self.terms.len()
            invariant
                result.wf(),
                self.wf(),
                i <= self.terms@.len(),
                forall|m: Seq<u32>| #[trigger] result.coeff(m) == derivative_coeff(self.terms@.subrange(0, i as int), var_idx as int, m),
            decreases self.terms@.len() - i,
        {
            let e = &self.terms[i].0;
            let ghost before = result;
            if var_idx < e.len() && e[var_idx] > 0 {
                let exp = e[var_idx];
                let mut new_exps = copy_exps(e);
                new_exps.set(var_idx, exp - 1);
                let c = self.terms[i].1.mul(&Integer::from_u32(exp));
                let ghost ne = new_exps@;
                result.add_term(new_exps, &c);
                proof {
                    assert(ne == e@.update(var_idx as int, (exp - 1) as u32));
                }
            }
            proof {
                let t = self.terms@;
                assert(t.subrange(0, i + 1).drop_last() =~= t.subrange(0, i as int));
                assert(t.subrange(0, i + 1).last() == t[i as int]);
            }
            i += 1;
        }
        result.cleanup();
        proof {
            assert(self.terms@.subrange(0, i as int) =~= self.terms@);
        }
        result
    }

    /// The value when `x_var_idx` is `val` and every other variable is 1.
    pub fn evaluate_univariate(&self, var_idx: usize, val: &Integer) -> (r: Integer)
        requires
            self.wf(),
            val.wf(),
        ensures
            r.wf(),
            r@ == univariate_value(self.terms@, var_idx as int, val@),
    {
        let mut result = Integer::zero();
        let mut i: usize = 0;
        while i < self.terms.len()
            invariant
                self.wf(),
                val.wf(),
                result.wf(),
                i <= self.terms@.len(),
                result@ == univariate_value(self.terms@.subrange(0, i as int), var_idx as int, val@),
            decreases self.terms@.len() - i,
        {
            let e = &self.terms[i].0;
            let exp = if var_idx < e.len() { e[var_idx] } else { 0 };
            let mut term_val = self.terms[i].1.duplicate();
            let mut k: u32 = 0;
            proof {
                reveal(pow);
                assert(pow(val@, 0) == 1);
            }
            while k < exp
                invariant
                    term_val.wf(),
                    val.wf(),
                    k <= exp,
                    i < self.terms@.len(),
                    term_val@ == self.terms@[i as int].1@ * pow(val@, k as nat),
                decreases exp - k,
            {
                proof {
                    let c = self.terms@[i as int].1@;
                    let p = pow(val@, k as nat);
                    reveal(pow);
                    assert(pow(val@, (k + 1) as nat) == val@ * p);
                    assert(c * p * val@ == c * (val@ * p)) by (nonlinear_arith);
                }
                term_val = term_val.mul(val);
                k += 1;
            }
            result = result.add(&term_val);
            proof {
                let t = self.terms@;
                assert(t.subrange(0, i + 1).drop_last() =~= t.subrange(0, i as int));
                assert(t.subrange(0, i + 1).last() == t[i as int]);
                assert(exponent_of(t[i as int].0@, var_idx as int) == exp);
            }
            i += 1;
        }
        proof {
            assert(self.terms@.subrange(0, i as int) =~= self.terms@);
        }
        result
    }
}

/// The value of the monomial with exponents `e` at the point `x` (variable `i` at `x(i)`).
pub open spec fn mono_value(e: Seq<u32>, x: spec_fn(int) -> int) -> int
    decreases e.len(),
{
    if e.len() == 0 {
        1
    } else {
        mono_value(e.drop_last(), x) * pow(x(e.len() - 1), e.last() as nat)
    }
}

/// The value of the term list `t` at the point `x`.
pub open spec fn terms_value(t: Seq<(Vec<u32>, Integer)>, x: spec_fn(int) -> int) -> int
    decreases t.len(),
{
    if t.len() == 0 {
        0
    } else {
        terms_value(t.drop_last(), x) + t.last().1@ * mono_value(t.last().0@, x)
    }
}

/// Every exponent of `e` is even.
pub open spec fn even_exponents(e: Seq<u32>) -> bool {
    forall|q: int| 0 <= q < e.len() ==> #[trigger] e[q] % 2 == 0
}

/// Every exponent of `e` is zero: the constant monomial.
pub open spec fn zero_exponents(e: Seq<u32>) -> bool {
    forall|q: int| 0 <= q < e.len() ==> #[trigger] e[q] == 0
}

/// A sum of even powers with nonnegative coefficients and a positive constant term.
pub open spec fn positive_certificate(t: Seq<(Vec<u32>, Integer)>) -> bool {
    &&& forall|k: int| 0 <= k < t.len() ==> even_exponents((#[trigger] t[k]).0@) && t[k].1@ >= 0
    &&& exists|k: int| 0 <= k < t.len() && zero_exponents((#[trigger] t[k]).0@) && t[k].1@ > 0
}

proof fn lemma_even_pow_nonneg(b: int, n: nat)
    requires
        n % 2 == 0,
    ensures
        pow(b, n) >= 0,
    decreases n,
{
    reveal(pow);
    if n >= 2 {
        lemma_even_pow_nonneg(b, (n - 2) as nat);
        assert(pow(b, n) == b * pow(b, (n - 1) as nat));
        assert(pow(b, (n - 1) as nat) == b * pow(b, (n - 2) as nat));
        let q = pow(b, (n - 2) as nat);
        assert(b * (b * q) >= 0) by (nonlinear_arith) requires q >= 0;
    }
}

proof fn lemma_mono_even_nonneg(e: Seq<u32>, x: spec_fn(int) -> int)
    requires
        even_exponents(e),
    ensures
        mono_value(e, x) >= 0,
    decreases e.len(),
{
    if e.len() > 0 {
        assert(even_exponents(e.drop_last())) by {
            assert forall|q: int| 0 <= q < e.drop_last().len() implies #[trigger] e.drop_last()[q] % 2 == 0 by {
                assert(e.drop_last()[q] == e[q]);
            }
        }
        lemma_mono_even_nonneg(e.drop_last(), x);
        assert(e[e.len() - 1] % 2 == 0);
        lemma_even_pow_nonneg(x(e.len() - 1), e.last() as nat);
        let m = mono_value(e.drop_last(), x);
        let w = pow(x(e.len() - 1), e.last() as nat);
        assert(m * w >= 0) by (nonlinear_arith) requires m >= 0, w >= 0;
    }
}

proof fn lemma_mono_constant(e: Seq<u32>, x: spec_fn(int) -> int)
    requires
        zero_exponents(e),
    ensures
        mono_value(e, x) == 1,
    decreases e.len(),
{
    if e.len() > 0 {
        assert(zero_exponents(e.drop_last())) by {
            assert forall|q: int| 0 <= q < e.drop_last().len() implies #[trigger] e.drop_last()[q] == 0 by {
                assert(e.drop_last()[q] == e[q]);
            }
        }
        lemma_mono_constant(e.drop_last(), x);
        assert(e[e.len() - 1] == 0);
        vstd::arithmetic::power::lemma_pow0(x(e.len() - 1));
    }
}

/// With every term nonnegative at `x`, the value is at least that of term `k`.
proof fn lemma_terms_at_least(t: Seq<(Vec<u32>, Integer)>, x: spec_fn(int) -> int, k: int)
    requires
        0 <= k <= t.len(),
        forall|j: int| 0 <= j < t.len() ==> even_exponents((#[trigger] t[j]).0@) && t[j].1@ >= 0,
    ensures
        terms_value(t, x) >= 0,
        k < t.len() ==> terms_value(t, x) >= t[k].1@ * mono_value(t[k].0@, x),
    decreases t.len(),
{
    if t.len() > 0 {
        let u = t.drop_last();
        assert forall|j: int| 0 <= j < u.len() implies even_exponents((#[trigger] u[j]).0@) && u[j].1@ >= 0 by {
            assert(u[j] == t[j]);
        }
        let n = t.len() - 1;
        lemma_terms_at_least(u, x, if k < n { k } else { n });
        assert(t[n] == t.last());
        lemma_mono_even_nonneg(t[n].0@, x);
        let c = t[n].1@;
        let m = mono_value(t[n].0@, x);
        assert(c * m >= 0) by (nonlinear_arith) requires c >= 0, m >= 0;
        if k < n {
            assert(u[k] == t[k]);
        }
    }
}

/// A sum of even powers with nonnegative coefficients and a positive constant term is
/// positive at every point, so it is never below or at zero.
pub proof fn lemma_certificate_positive(t: Seq<(Vec<u32>, Integer)>, x: spec_fn(int) -> int)
    requires
        positive_certificate(t),
    ensures
        terms_value(t, x) > 0,
{
    let k = choose|k: int| 0 <= k < t.len() && zero_exponents((#[trigger] t[k]).0@) && t[k].1@ > 0;
    lemma_mono_constant(t[k].0@, x);
    lemma_terms_at_least(t, x, k);
}

/// A comparison of a polynomial with zero.
#[derive(Debug, Clone, Copy, PartialEq, Eq, Structural)]
pub enum SignOp {
    Lt,
    Gt,
    Le,
    Ge,
    Eq,
}

/// The nonlinear arithmetic solver.
pub struct NlaSolver {
    pub constraints: Vec<Expr>,
    /// Variable names and their indices, by ascending name.
    pub var_map: Vec<(String, usize)>,
    pub next_var_idx: usize,
}

impl NlaSolver {
    pub fn new() -> (r: NlaSolver)
        ensures
            r.constraints@.len() == 0,
            r.var_map@.len() == 0,
            r.next_var_idx == 0,
    {
        NlaSolver { constraints: Vec::new(), var_map: Vec::new(), next_var_idx: 0 }
    }

    pub fn reset(&mut self)
        ensures
            final(self).constraints@.len() == 0,
            final(self).var_map@.len() == 0,
            final(self).next_var_idx == 0,
    {
        self.constraints.clear();
        self.var_map.clear();
        self.next_var_idx = 0;
    }

    /// The index of the variable `name`, numbered in order of first use.
    fn get_var_idx(&mut self, name: &String) -> (r: usize)
        ensures
            final(self).constraints == old(self).constraints,
            exists|k: int| 0 <= k < final(self).var_map@.len() && final(self).var_map@[k].0@ == name@
                && #[trigger] final(self).var_map@[k].1 == r,
            (final(self).var_map@ == old(self).var_map@ && final(self).next_var_idx == old(self).next_var_idx)
                || (r == old(self).next_var_idx && final(self).var_map@.len() == old(self).var_map@.len() + 1),
    {
        let mut pos: usize = 0;
        while pos < self.var_map.len()
            invariant
                pos <= self.var_map@.len(),
                *self == *old(self),
            decreases self.var_map@.len() - pos,
        {
            proof {
                lemma_chars_order_zero(self.var_map@[pos as int].0@, name@);
            }
            let o = string_order(&self.var_map[pos].0, name);
            if o == 0 {
                return self.var_map[pos].1;
            }
            if o == 1 {
                break;
            }
            pos += 1;
        }
        let idx = self.next_var_idx;
        self.next_var_idx = if idx < usize::MAX { idx + 1 } else { idx };
        let entry = (name.clone(), idx);
        self.var_map.insert(pos, entry);
        assert(self.var_map@[pos as int].0@ == name@ && self.var_map@[pos as int].1 == idx);
        idx
    }

    /// The polynomial of an integer term built from numerals, variables, sums, products and
    /// differences; `None` for anything else.
    #[verifier::loop_isolation(false)]
    pub fn expr_to_poly(&mut self, expr: &Expr) -> (r: Option<MultivariatePolynomial>)
        ensures
            final(self).constraints == old(self).constraints,
            r matches Some(p) ==> p.wf(),
        decreases expr,
    {
        match expr {
            Expr::Int(i) => Some(MultivariatePolynomial::constant(Integer::from_i64(*i))),
            Expr::Var(name, _) => {
                let idx = self.get_var_idx(name);
                if idx == usize::MAX {
                    return None;
                }
                let mut exps: Vec<u32> = Vec::new();
                while exps.len() < idx + 1
                    invariant
                        exps@.len() <= idx + 1,
                    decreases idx + 1 - exps@.len(),
                {
                    exps.push(0);
                }
                exps.set(idx, 1);
                let mut t: Vec<(Vec<u32>, Integer)> = Vec::new();
                t.push((exps, Integer::from_u32(1)));
                Some(MultivariatePolynomial { terms: t })
            },
            Expr::Add(args) => {
                let mut res = MultivariatePolynomial::new();
                let mut k: usize = 0;
                while k < args.len()
                    invariant
                        res.wf(),
                        self.constraints == old(self).constraints,
                    decreases args@.len() - k,
                {
                    proof {
                        assert(decreases_to!(*expr => args@[k as int]));
                    }
                    match self.expr_to_poly(&args[k]) {
                        Some(p) => {
                            res = res.add(&p);
                        },
                        None => {
                            return None;
                        },
                    }
                    k += 1;
                }
                Some(res)
            },
            Expr::Mul(args) => {
                let mut res = MultivariatePolynomial::constant(Integer::from_u32(1));
                let mut k: usize = 0;
                while k < args.len()
                    invariant
                        res.wf(),
                        self.constraints == old(self).constraints,
                    decreases args@.len() - k,
                {
                    proof {
                        assert(decreases_to!(*expr => args@[k as int]));
                    }
                    match self.expr_to_poly(&args[k]) {
                        Some(p) => {
                            res = res.mul(&p);
                        },
                        None => {
                            return None;
                        },
                    }
                    k += 1;
                }
                Some(res)
            },
            Expr::Sub(args) => {
                if args.len() == 0 {
                    return Some(MultivariatePolynomial::new());
                }
                proof {
                    assert(decreases_to!(*expr => args@[0]));
                }
                let mut res = match self.expr_to_poly(&args[0]) {
                    Some(p) => p,
                    None => {
                        return None;
                    },
                };
                let mut k: usize = 1;
                while k < args.len()
                    invariant
                        res.wf(),
                        self.constraints == old(self).constraints,
                    decreases args@.len() - k,
                {
                    proof {
                        assert(decreases_to!(*expr => args@[k as int]));
                    }
                    match self.expr_to_poly(&args[k]) {
                        Some(p) => {
                            res = res.add(&p.negated());
                        },
                        None => {
                            return None;
                        },
                    }
                    k += 1;
                }
                Some(res)
            },
            _ => None,
        }
    }

    /// The projection of `polys` in `var_idx`: for each polynomial its leading coefficient,
    /// its derivative, and its resultant with each later one, dropping zero polynomials.
    pub fn project(&mut self, polys: &Vec<MultivariatePolynomial>, var_idx: usize) -> (r: Vec<MultivariatePolynomial>)
        requires
            forall|i: int| 0 <= i < polys@.len() ==> (#[trigger] polys@[i]).wf(),
        ensures
            forall|i: int| 0 <= i < r@.len() ==> (#[trigger] r@[i]).wf() && r@[i].terms@.len() > 0,
    {
        let mut proj: Vec<MultivariatePolynomial> = Vec::new();
        let mut i: usize = 0;
        while i < polys.len()
            invariant
                i <= polys@.len(),
                forall|q: int| 0 <= q < polys@.len() ==> (#[trigger] polys@[q]).wf(),
                forall|q: int| 0 <= q < proj@.len() ==> (#[trigger] proj@[q]).wf() && proj@[q].terms@.len() > 0,
            decreases polys@.len() - i,
        {
            let lc = polys[i].leading_coefficient(var_idx);
            push_nonzero(&mut proj, lc);
            let pd = polys[i].partial_derivative(var_idx);
            push_nonzero(&mut proj, pd);
            let mut j = i + 1;
            while j < polys.len()
                invariant
                    i < j <= polys@.len(),
                    forall|q: int| 0 <= q < polys@.len() ==> (#[trigger] polys@[q]).wf(),
                    forall|q: int| 0 <= q < proj@.len() ==> (#[trigger] proj@[q]).wf() && proj@[q].terms@.len() > 0,
                decreases polys@.len() - j,
            {
                let res = polys[i].resultant(&polys[j], var_idx);
                push_nonzero(&mut proj, res);
                j += 1;
            }
            i += 1;
        }
        proj
    }

    /// The Sturm sequence of `poly` in `var_idx`: the polynomial, its derivative, then the
    /// negated pseudo-remainders, until a constant or a zero remainder.
    pub fn sturm_sequence(&self, poly: &MultivariatePolynomial, var_idx: usize) -> (r: Vec<MultivariatePolynomial>)
        requires
            poly.wf(),
        ensures
            forall|i: int| 0 <= i < r@.len() ==> (#[trigger] r@[i]).wf(),
    {
        let mut seq: Vec<MultivariatePolynomial> = Vec::new();
        if poly.terms.len() == 0 {
            return seq;
        }
        seq.push(poly.duplicate());
        seq.push(poly.partial_derivative(var_idx));
        let mut fuel: u64 = poly.degree(var_idx) as u64 + 1;
        while fuel > 0
            invariant
                seq@.len() >= 2,
                forall|i: int| 0 <= i < seq@.len() ==> (#[trigger] seq@[i]).wf(),
            decreases fuel,
        {
            fuel -= 1;
            let n = seq.len();
            if seq[n - 1].degree(var_idx) == 0 {
                break;
            }
            let rem = seq[n - 2].pseudo_remainder(&seq[n - 1], var_idx);
            let mut r = rem.negated();
            r.cleanup();
            if r.terms.len() == 0 {
                break;
            }
            seq.push(r);
        }
        seq
    }

    /// Keeps `expr` as a constraint.
    pub fn assert_expr(&mut self, expr: &Expr)
        ensures
            final(self).constraints@.len() == old(self).constraints@.len() + 1,
            final(self).constraints@.last()@ == expr@,
    {
        self.constraints.push(expr.clone());
    }

    /// False when some comparison `p < 0` or `p ≤ 0` has for `p` a sum of even powers with
    /// nonnegative coefficients and a positive constant, which is positive everywhere.
    pub fn check(&mut self) -> (r: bool)
        ensures
            !r ==> old(self).constraints@.len() > 0,
            !r ==> exists|k: int| 0 <= k < old(self).constraints@.len()
                && ((#[trigger] old(self).constraints@[k])@ is Lt || old(self).constraints@[k]@ is Le),
    {
        if self.constraints.len() == 0 {
            return true;
        }
        let cons = clone_exprs(&self.constraints);
        let mut polys: Vec<(MultivariatePolynomial, SignOp)> = Vec::new();
        let mut k: usize = 0;
        while k < cons.len()
            invariant
                k <= cons@.len(),
                self.constraints@.len() > 0,
                self.constraints == old(self).constraints,
                forall|q: int| 0 <= q < polys@.len() ==> (#[trigger] polys@[q]).0.wf(),
                cons@.len() == old(self).constraints@.len(),
                forall|j: int| 0 <= j < cons@.len() ==> #[trigger] cons@[j]@ == old(self).constraints@[j]@,
                forall|q: int| 0 <= q < polys@.len() && ((#[trigger] polys@[q]).1 is Lt || polys@[q].1 is Le) ==>
                    exists|j: int| 0 <= j < old(self).constraints@.len()
                        && ((#[trigger] old(self).constraints@[j])@ is Lt || old(self).constraints@[j]@ is Le),
            decreases cons@.len() - k,
        {
            let (pair, op) = match &cons[k] {
                Expr::Lt(a, b) => (Some(((**a).clone(), (**b).clone())), SignOp::Lt),
                Expr::Gt(a, b) => (Some(((**a).clone(), (**b).clone())), SignOp::Gt),
                Expr::Le(a, b) => (Some(((**a).clone(), (**b).clone())), SignOp::Le),
                Expr::Ge(a, b) => (Some(((**a).clone(), (**b).clone())), SignOp::Ge),
                Expr::Eq(a, b) => (Some(((**a).clone(), (**b).clone())), SignOp::Eq),
                _ => (None, SignOp::Eq),
            };
            assert((op is Lt || op is Le) ==> (cons@[k as int]@ is Lt || cons@[k as int]@ is Le));
            if let Some((a, b)) = pair {
                let mut diff: Vec<Expr> = Vec::new();
                diff.push(a);
                diff.push(b);
                let ghost before = polys@;
                if let Some(p) = self.expr_to_poly(&Expr::Sub(diff)) {
                    polys.push((p, op));
                    proof {
                        assert forall|q: int| 0 <= q < polys@.len() && ((#[trigger] polys@[q]).1 is Lt || polys@[q].1 is Le) implies
                            exists|j: int| 0 <= j < old(self).constraints@.len()
                                && ((#[trigger] old(self).constraints@[j])@ is Lt || old(self).constraints@[j]@ is Le) by {
                            if q < before.len() {
                                assert(polys@[q] == before[q]);
                            } else {
                                assert(old(self).constraints@[k as int]@ == cons@[k as int]@);
                            }
                        }
                    }
                }
            }
            k += 1;
        }
        let conflict = has_certified_conflict(&polys);
        if conflict {
            proof {
                let q = choose|q: int| 0 <= q < polys@.len() && ((#[trigger] polys@[q]).1 is Lt || polys@[q].1 is Le)
                    && positive_certificate(polys@[q].0.terms@);
                assert(polys@[q].1 is Lt || polys@[q].1 is Le);
            }
            return false;
        }
        true
    }

    /// All the constraints.
    pub fn explain(&self) -> (r: Vec<Expr>)
        ensures
            crate::ast::exprs_view(r@) == crate::ast::exprs_view(self.constraints@),
    {
        clone_exprs(&self.constraints)
    }

    pub fn get_model_value(&self, expr: &Expr) -> (r: Option<ModelValue>)
        ensures
            r is None,
    {
        None
    }
}

/// Whether some polynomial compared with `<` or `≤` against zero is a sum of even powers
/// with nonnegative coefficients and a positive constant term: a comparison that no point
/// satisfies (see [`lemma_certificate_positive`]).
pub fn has_certified_conflict(polys: &Vec<(MultivariatePolynomial, SignOp)>) -> (r: bool)
    requires
        forall|q: int| 0 <= q < polys@.len() ==> (#[trigger] polys@[q]).0.wf(),
    ensures
        r <==> exists|q: int| 0 <= q < polys@.len() && ((#[trigger] polys@[q]).1 is Lt || polys@[q].1 is Le)
            && positive_certificate(polys@[q].0.terms@),
{
    let mut k: usize = 0;
    while k < polys.len()
        invariant
            k <= polys@.len(),
            forall|q: int| 0 <= q < polys@.len() ==> (#[trigger] polys@[q]).0.wf(),
            forall|q: int| 0 <= q < k ==> !(((#[trigger] polys@[q]).1 is Lt || polys@[q].1 is Le)
                && positive_certificate(polys@[q].0.terms@)),
        decreases polys@.len() - k,
    {
        let certified = has_positive_certificate(&polys[k].0);
        let op = polys[k].1;
        if certified && (op == SignOp::Lt || op == SignOp::Le) {
            assert(polys@[k as int].1 is Lt || polys@[k as int].1 is Le);
            return true;
        }
        k += 1;
    }
    false
}

/// Whether the terms of `p` are even powers with nonnegative coefficients, with a positive
/// constant term among them.
fn has_positive_certificate(p: &MultivariatePolynomial) -> (r: bool)
    requires
        p.wf(),
    ensures
        r == positive_certificate(p.terms@),
{
    let mut all_even = true;
    let mut all_nonneg = true;
    let mut has_const_pos = false;
    let mut t: usize = 0;
    while t < p.terms.len()
        invariant
            t <= p.terms@.len(),
            p.wf(),
            all_even && all_nonneg <==> forall|k: int| 0 <= k < t
                ==> even_exponents((#[trigger] p.terms@[k]).0@) && p.terms@[k].1@ >= 0,
            all_even ==> forall|k: int| 0 <= k < t ==> even_exponents((#[trigger] p.terms@[k]).0@),
            all_nonneg ==> forall|k: int| 0 <= k < t ==> (#[trigger] p.terms@[k]).1@ >= 0,
            !all_even ==> exists|k: int| 0 <= k < t && !even_exponents((#[trigger] p.terms@[k]).0@),
            !all_nonneg ==> exists|k: int| 0 <= k < t && (#[trigger] p.terms@[k]).1@ < 0,
            has_const_pos <==> exists|k: int| 0 <= k < t
                && zero_exponents((#[trigger] p.terms@[k]).0@) && p.terms@[k].1@ > 0,
        decreases p.terms@.len() - t,
    {
        let e = &p.terms[t].0;
        let c = &p.terms[t].1;
        assert(c.wf());
        let mut even = true;
        let mut all_zero = true;
        let mut q: usize = 0;
        while q < e.len()
            invariant
                q <= e@.len(),
                even <==> forall|j: int| 0 <= j < q ==> #[trigger] e@[j] % 2 == 0,
                all_zero <==> forall|j: int| 0 <= j < q ==> #[trigger] e@[j] == 0,
            decreases e@.len() - q,
        {
            if e[q] % 2 != 0 {
                even = false;
            }
            if e[q] != 0 {
                all_zero = false;
            }
            q += 1;
        }
        assert(even == even_exponents(e@));
        assert(all_zero == zero_exponents(e@));
        if !even {
            all_even = false;
        }
        if c.is_negative() {
            all_nonneg = false;
        }
        if all_zero && c.is_positive() {
            has_const_pos = true;
        }
        proof {
            assert(p.terms@[t as int].0@ == e@);
            assert(p.terms@[t as int].1@ == c@);
        }
        t += 1;
    }
    all_even && all_nonneg && has_const_pos
}

/// Adds `p` to `v` unless it is the zero polynomial.
fn push_nonzero(v: &mut Vec<MultivariatePolynomial>, p: MultivariatePolynomial)
    requires
        p.wf(),
        forall|q: int| 0 <= q < old(v)@.len() ==> (#[trigger] old(v)@[q]).wf() && old(v)@[q].terms@.len() > 0,
    ensures
        forall|q: int| 0 <= q < final(v)@.len() ==> (#[trigger] final(v)@[q]).wf() && final(v)@[q].terms@.len() > 0,
        final(v)@ == (if p.terms@.len() > 0 { old(v)@.push(p) } else { old(v)@ }),
{
    if p.terms.len() > 0 {
        v.push(p);
    }
}

} // verus!
