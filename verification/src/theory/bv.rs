//! Bit-vectors: terms are blasted into SAT variables, one per bit, least significant first.
use vstd::prelude::*;
use crate::ast::{Expr, SExpr, Type, SType};
use crate::ast::order::string_order;
use crate::collections::ExprMap;
use crate::sat::{CdclSolver, Literal, MAX_VARS, lit_ok, lit_var};
use crate::{input_clauses, neg_lit};

verus! {

broadcast use vstd::std_specs::vec::group_vec_axioms;

/// The nesting depth of bit-vector conjunctions and sums.
pub open spec fn bv_depth(e: SExpr) -> nat
    decreases e,
{
    match e {
        SExpr::BvAnd(a, b) | SExpr::BvAdd(a, b) => {
            let da = bv_depth(*a);
            let db = bv_depth(*b);
            1 + if da > db { da } else { db }
        },
        _ => 0,
    }
}

/// Whether every literal of `v` is a variable in `1..next`.
pub open spec fn vars_below(v: Seq<i32>, next: i32) -> bool {
    forall|k: int| 0 <= k < v.len() ==> 1 <= #[trigger] v[k] < next
}

/// The bit-blaster's memory: the variable of each bit of each named bit-vector, and the bits
/// of each term blasted so far.
pub struct BitBlaster {
    /// `((name, bit), variable)`, by ascending name then bit.
    pub bv_vars: Vec<((String, usize), i32)>,
    pub expr_to_bits: ExprMap<Vec<i32>>,
    /// More variables were needed than the SAT solver takes.
    pub overflow: bool,
}

impl BitBlaster {
    /// Whether every variable recorded is in `1..next`.
    pub open spec fn wf(&self, next: i32) -> bool {
        &&& self.expr_to_bits.wf()
        &&& forall|k: int| 0 <= k < self.bv_vars@.len() ==> 1 <= #[trigger] self.bv_vars@[k].1 < next
        &&& forall|k: int| 0 <= k < self.expr_to_bits.vals@.len() ==> vars_below(#[trigger] self.expr_to_bits.vals@[k]@, next)
    }

    pub fn new() -> (r: BitBlaster)
        ensures
            forall|n: i32| r.wf(n),
            !r.overflow,
    {
        BitBlaster { bv_vars: Vec::new(), expr_to_bits: ExprMap::new(), overflow: false }
    }

    /// A fresh variable; once the variables run out, the last one is reused and the
    /// overflow is recorded.
    fn fresh(&mut self, next_var: &mut i32) -> (r: i32)
        requires
            1 <= *old(next_var) <= MAX_VARS,
            old(self).wf(*old(next_var)),
        ensures
            1 <= *final(next_var) <= MAX_VARS,
            *final(next_var) >= *old(next_var),
            final(self).wf(*final(next_var)),
            1 <= r < *final(next_var),
            final(self).bv_vars@ == old(self).bv_vars@,
            final(self).expr_to_bits == old(self).expr_to_bits,
    {
        if *next_var < MAX_VARS as i32 {
            let v = *next_var;
            *next_var = v + 1;
            proof {
                lemma_wf_grows(self, v, (v + 1) as i32);
            }
            v
        } else {
            self.overflow = true;
            if *next_var > 1 { *next_var - 1 } else {
                *next_var = 2;
                proof {
                    lemma_wf_grows(self, 1, 2);
                }
                1
            }
        }
    }

    /// A fresh variable for the SAT solver, which is kept consistent (`ok`) as a side effect.
    fn new_var(&mut self, sat: &mut CdclSolver, next_var: &mut i32) -> (r: i32)
        requires
            1 <= *old(next_var) <= MAX_VARS,
            old(self).wf(*old(next_var)),
            old(sat).wf(),
        ensures
            1 <= *final(next_var) <= MAX_VARS,
            *final(next_var) >= *old(next_var),
            final(self).wf(*final(next_var)),
            final(sat).wf(),
            1 <= r < *final(next_var),
            final(self).bv_vars@ == old(self).bv_vars@,
            final(self).expr_to_bits == old(self).expr_to_bits,
    {
        let v = self.fresh(next_var);
        sat.ok = true;
        v
    }

    /// Adds a clause of literals over variables below `next`.
    fn clause(sat: &mut CdclSolver, lits: Vec<Literal>, next: Ghost<i32>)
        requires
            old(sat).wf(),
            next@ <= MAX_VARS,
            forall|k: int| 0 <= k < lits@.len() ==> lit_ok(#[trigger] lits@[k]) && lit_var(lits@[k]) < next@,
        ensures
            final(sat).wf(),
            input_clauses(final(sat).input@) == input_clauses(old(sat).input@).push(lits@),
    {
        let ghost before = sat.input@;
        let ghost lv = lits@;
        let _ = sat.add_clause(lits);
        assert(input_clauses(sat.input@) =~= input_clauses(before).push(lv));
    }

    /// The variable of bit `bit` of the bit-vector `name`, created on first use.
    fn var_bit(&mut self, name: &String, bit: usize, next_var: &mut i32) -> (r: i32)
        requires
            1 <= *old(next_var) <= MAX_VARS,
            old(self).wf(*old(next_var)),
        ensures
            1 <= *final(next_var) <= MAX_VARS,
            *final(next_var) >= *old(next_var),
            final(self).wf(*final(next_var)),
            1 <= r < *final(next_var),
            final(self).expr_to_bits == old(self).expr_to_bits,
    {
        let mut k: usize = 0;
        while k < self.bv_vars.len()
            invariant
                k <= self.bv_vars@.len(),
                1 <= *next_var <= MAX_VARS,
                self.wf(*next_var),
                *self == *old(self),
                *next_var == *old(next_var),
            decreases self.bv_vars@.len() - k,
        {
            let o = string_order(&self.bv_vars[k].0.0, name);
            if o == 0 && self.bv_vars[k].0.1 == bit {
                return self.bv_vars[k].1;
            }
            if o == 1 || (o == 0 && self.bv_vars[k].0.1 > bit) {
                break;
            }
            k += 1;
        }
        let v = self.fresh(next_var);
        let ghost before = self.bv_vars@;
        self.bv_vars.insert(k, ((name.clone(), bit), v));
        proof {
            assert forall|q: int| 0 <= q < self.bv_vars@.len() implies 1 <= #[trigger] self.bv_vars@[q].1 < *next_var by {
                if q < k {
                    assert(self.bv_vars@[q] == before[q]);
                } else if q > k {
                    assert(self.bv_vars@[q] == before[q - 1]);
                }
            }
        }
        v
    }

    /// `res ⇔ a ⊕ b ⊕ c`.
    fn add_xor3(sat: &mut CdclSolver, res: i32, a: i32, b: i32, c: i32, next: Ghost<i32>)
        requires
            old(sat).wf(),
            next@ <= MAX_VARS,
            1 <= res < next@, 1 <= a < next@, 1 <= b < next@, 1 <= c < next@,
        ensures
            final(sat).wf(),
            input_clauses(final(sat).input@) == input_clauses(old(sat).input@) + seq![
                seq![a, b, c, neg_lit(res)],
                seq![a, b, neg_lit(c), res],
                seq![a, neg_lit(b), c, res],
                seq![a, neg_lit(b), neg_lit(c), neg_lit(res)],
                seq![neg_lit(a), b, c, res],
                seq![neg_lit(a), b, neg_lit(c), neg_lit(res)],
                seq![neg_lit(a), neg_lit(b), c, neg_lit(res)],
                seq![neg_lit(a), neg_lit(b), neg_lit(c), res],
            ],
    {
        let ghost start = input_clauses(sat.input@);
        Self::clause(sat, lits(&[a, b, c, neg(res)]), next);
        Self::clause(sat, lits(&[a, b, neg(c), res]), next);
        Self::clause(sat, lits(&[a, neg(b), c, res]), next);
        Self::clause(sat, lits(&[a, neg(b), neg(c), neg(res)]), next);
        Self::clause(sat, lits(&[neg(a), b, c, res]), next);
        Self::clause(sat, lits(&[neg(a), b, neg(c), neg(res)]), next);
        Self::clause(sat, lits(&[neg(a), neg(b), c, neg(res)]), next);
        Self::clause(sat, lits(&[neg(a), neg(b), neg(c), res]), next);
        assert(input_clauses(sat.input@) =~= start + seq![
                seq![a, b, c, neg_lit(res)],
                seq![a, b, neg_lit(c), res],
                seq![a, neg_lit(b), c, res],
                seq![a, neg_lit(b), neg_lit(c), neg_lit(res)],
                seq![neg_lit(a), b, c, res],
                seq![neg_lit(a), b, neg_lit(c), neg_lit(res)],
                seq![neg_lit(a), neg_lit(b), c, neg_lit(res)],
                seq![neg_lit(a), neg_lit(b), neg_lit(c), res],
            ]);
    }

    /// `res ⇔ majority(a, b, c)`.
    fn add_maj3(sat: &mut CdclSolver, res: i32, a: i32, b: i32, c: i32, next: Ghost<i32>)
        requires
            old(sat).wf(),
            next@ <= MAX_VARS,
            1 <= res < next@, 1 <= a < next@, 1 <= b < next@, 1 <= c < next@,
        ensures
            final(sat).wf(),
            input_clauses(final(sat).input@) == input_clauses(old(sat).input@) + seq![
                seq![neg_lit(a), neg_lit(b), res],
                seq![neg_lit(b), neg_lit(c), res],
                seq![neg_lit(a), neg_lit(c), res],
                seq![a, b, neg_lit(res)],
                seq![b, c, neg_lit(res)],
                seq![a, c, neg_lit(res)],
            ],
    {
        let ghost start = input_clauses(sat.input@);
        Self::clause(sat, lits(&[neg(a), neg(b), res]), next);
        Self::clause(sat, lits(&[neg(b), neg(c), res]), next);
        Self::clause(sat, lits(&[neg(a), neg(c), res]), next);
        Self::clause(sat, lits(&[a, b, neg(res)]), next);
        Self::clause(sat, lits(&[b, c, neg(res)]), next);
        Self::clause(sat, lits(&[a, c, neg(res)]), next);
        assert(input_clauses(sat.input@) =~= start + seq![
                seq![neg_lit(a), neg_lit(b), res],
                seq![neg_lit(b), neg_lit(c), res],
                seq![neg_lit(a), neg_lit(c), res],
                seq![a, b, neg_lit(res)],
                seq![b, c, neg_lit(res)],
                seq![a, c, neg_lit(res)],
            ]);
    }

    /// Word-level rewriting before blasting: `x & 0` and `0 & x` are `0`; `x + 0` and
    /// `0 + x` are `x`.
    fn word_level_simplify(expr: &Expr) -> (r: Expr)
        ensures
            bv_depth(r@) <= bv_depth(expr@),
            !(expr@ is BvAnd || expr@ is BvAdd) ==> r@ == expr@,
    {
        match expr {
            Expr::BvAnd(a, b) => {
                if let Expr::BvConst(0, w) = &**a {
                    return Expr::BvConst(0, *w);
                }
                if let Expr::BvConst(0, w) = &**b {
                    return Expr::BvConst(0, *w);
                }
            },
            Expr::BvAdd(a, b) => {
                if let Expr::BvConst(0, _) = &**a {
                    return (**b).clone();
                }
                if let Expr::BvConst(0, _) = &**b {
                    return (**a).clone();
                }
            },
            _ => {},
        }
        expr.clone()
    }

    /// Records `bits` as the bits of `expr`.
    fn remember(&mut self, expr: &Expr, bits: &Vec<i32>, next: Ghost<i32>)
        requires
            old(self).wf(next@),
            vars_below(bits@, next@),
        ensures
            final(self).wf(next@),
            final(self).bv_vars == old(self).bv_vars,
            final(self).overflow == old(self).overflow,
            exists|i: int| 0 <= i < final(self).expr_to_bits.keys@.len()
                && (#[trigger] final(self).expr_to_bits.keys@[i])@ == expr@
                && final(self).expr_to_bits.vals@[i]@ == bits@,
            forall|x: SExpr| x != expr@ ==> (final(self).expr_to_bits.contains(x) <==> old(self).expr_to_bits.contains(x)),
            forall|i: int| 0 <= i < old(self).expr_to_bits.keys@.len() && (#[trigger] old(self).expr_to_bits.keys@[i])@ != expr@
                ==> exists|j: int| 0 <= j < final(self).expr_to_bits.keys@.len()
                    && #[trigger] final(self).expr_to_bits.keys@[j] == old(self).expr_to_bits.keys@[i]
                    && final(self).expr_to_bits.vals@[j] == old(self).expr_to_bits.vals@[i],
    {
        let copy = copy_bits(bits);
        match self.expr_to_bits.index_of(expr) {
            Some(i) => {
                let ghost before = self.expr_to_bits.vals@;
                self.expr_to_bits.vals.set(i, copy);
                assert forall|k: int| 0 <= k < self.expr_to_bits.vals@.len() implies vars_below(#[trigger] self.expr_to_bits.vals@[k]@, next@) by {
                    if k != i {
                        assert(self.expr_to_bits.vals@[k] == before[k]);
                    }
                }
                assert(self.expr_to_bits.keys@[i as int]@ == expr@);
                assert forall|x: SExpr| x != expr@ implies (self.expr_to_bits.contains(x) <==> old(self).expr_to_bits.contains(x)) by {
                    assert(self.expr_to_bits.keys@ == old(self).expr_to_bits.keys@);
                }
                assert forall|q: int| 0 <= q < old(self).expr_to_bits.keys@.len() && (#[trigger] old(self).expr_to_bits.keys@[q])@ != expr@
                    implies exists|j: int| 0 <= j < self.expr_to_bits.keys@.len()
                        && #[trigger] self.expr_to_bits.keys@[j] == old(self).expr_to_bits.keys@[q]
                        && self.expr_to_bits.vals@[j] == old(self).expr_to_bits.vals@[q] by {
                    assert(q != i);
                    assert(self.expr_to_bits.keys@[q] == old(self).expr_to_bits.keys@[q]);
                }
            },
            None => {
                let pos = self.expr_to_bits.insert_new(expr.clone(), copy);
                assert forall|k: int| 0 <= k < self.expr_to_bits.vals@.len() implies vars_below(#[trigger] self.expr_to_bits.vals@[k]@, next@) by {
                    if k < pos {
                        assert(self.expr_to_bits.vals@[k] == old(self).expr_to_bits.vals@[k]);
                    } else if k > pos {
                        assert(self.expr_to_bits.vals@[k] == old(self).expr_to_bits.vals@[k - 1]);
                    }
                }
                assert forall|q: int| 0 <= q < old(self).expr_to_bits.keys@.len() && (#[trigger] old(self).expr_to_bits.keys@[q])@ != expr@
                    implies exists|j: int| 0 <= j < self.expr_to_bits.keys@.len()
                        && #[trigger] self.expr_to_bits.keys@[j] == old(self).expr_to_bits.keys@[q]
                        && self.expr_to_bits.vals@[j] == old(self).expr_to_bits.vals@[q] by {
                    if q < pos {
                        assert(self.expr_to_bits.keys@[q] == old(self).expr_to_bits.keys@[q]);
                    } else {
                        assert(self.expr_to_bits.keys@[q + 1] == old(self).expr_to_bits.keys@[q]);
                    }
                }
            },
        }
    }

    /// The SAT variables of the bits of `expr`, least significant first, with clauses that
    /// tie them to its meaning: a constant's bits are fixed by unit clauses; a declared
    /// bit-vector's bits are its own variables; `&` is blasted bit by bit and `+` as a ripple
    /// adder (over the shorter operand). Any other term has no bits. Results are remembered.
    pub fn bit_blast(&mut self, sat: &mut CdclSolver, next_var: &mut i32, expr: &Expr) -> (r: Vec<i32>)
        requires
            1 <= *old(next_var) <= MAX_VARS,
            old(self).wf(*old(next_var)),
            old(sat).wf(),
        ensures
            1 <= *final(next_var) <= MAX_VARS,
            *final(next_var) >= *old(next_var),
            final(self).wf(*final(next_var)),
            final(sat).wf(),
            vars_below(r@, *final(next_var)),
        decreases bv_depth(expr@),
    {
        if let Some(bits) = self.expr_to_bits.get(expr) {
            proof {
                let k = choose|k: int| 0 <= k < self.expr_to_bits.keys@.len() && self.expr_to_bits.keys@[k]@ == expr@
                    && self.expr_to_bits.vals@[k] == *bits;
                assert(vars_below(self.expr_to_bits.vals@[k]@, *next_var));
            }
            return copy_bits(bits);
        }
        let simplified = Self::word_level_simplify(expr);
        let bits: Vec<i32> = match &simplified {
            Expr::BvConst(val, width) => {
                let mut b: Vec<i32> = Vec::new();
                let mut i: usize = 0;
                while i < *width
                    invariant
                        1 <= *next_var <= MAX_VARS,
                        self.wf(*next_var),
                        sat.wf(),
                        vars_below(b@, *next_var),
                        *next_var >= *old(next_var),
                    decreases *width - i,
                {
                    let v = self.new_var(sat, next_var);
                    let bit = if i < 64 { (*val >> (i as u64)) & 1 } else { 0 };
                    if bit == 1 {
                        Self::clause(sat, lits(&[v]), Ghost(*next_var));
                    } else {
                        Self::clause(sat, lits(&[neg(v)]), Ghost(*next_var));
                    }
                    b.push(v);
                    proof {
                        assert forall|k: int| 0 <= k < b@.len() implies 1 <= #[trigger] b@[k] < *next_var by {
                            if k < b@.len() - 1 {
                                assert(b@[k] == b@.drop_last()[k]);
                            }
                        }
                    }
                    i += 1;
                }
                b
            },
            Expr::Var(name, Type::BitVec(width)) => {
                let mut b: Vec<i32> = Vec::new();
                let mut i: usize = 0;
                while i < *width
                    invariant
                        1 <= *next_var <= MAX_VARS,
                        self.wf(*next_var),
                        sat.wf(),
                        vars_below(b@, *next_var),
                        *next_var >= *old(next_var),
                    decreases *width - i,
                {
                    let v = self.var_bit(name, i, next_var);
                    let ghost nb = b@;
                    b.push(v);
                    proof {
                        assert forall|k: int| 0 <= k < b@.len() implies 1 <= #[trigger] b@[k] < *next_var by {
                            if k < nb.len() {
                                assert(b@[k] == nb[k]);
                            }
                        }
                    }
                    i += 1;
                }
                b
            },
            Expr::BvAnd(a, b) => {
                let bits_a = self.bit_blast(sat, next_var, a);
                let bits_b = self.bit_blast(sat, next_var, b);
                let n = if bits_a.len() < bits_b.len() { bits_a.len() } else { bits_b.len() };
                let mut res: Vec<i32> = Vec::new();
                let mut i: usize = 0;
                while i < n
                    invariant
                        1 <= *next_var <= MAX_VARS,
                        self.wf(*next_var),
                        sat.wf(),
                        n <= bits_a@.len(),
                        n <= bits_b@.len(),
                        vars_below(bits_a@, *next_var),
                        vars_below(bits_b@, *next_var),
                        vars_below(res@, *next_var),
                        *next_var >= *old(next_var),
                    decreases n - i,
                {
                    let la = bits_a[i];
                    let lb = bits_b[i];
                    let lr = self.new_var(sat, next_var);
                    Self::clause(sat, lits(&[neg(la), neg(lb), lr]), Ghost(*next_var));
                    Self::clause(sat, lits(&[la, neg(lr)]), Ghost(*next_var));
                    Self::clause(sat, lits(&[lb, neg(lr)]), Ghost(*next_var));
                    let ghost nr = res@;
                    res.push(lr);
                    proof {
                        assert forall|k: int| 0 <= k < res@.len() implies 1 <= #[trigger] res@[k] < *next_var by {
                            if k < nr.len() {
                                assert(res@[k] == nr[k]);
                            }
                        }
                    }
                    i += 1;
                }
                res
            },
            Expr::BvAdd(a, b) => {
                let bits_a = self.bit_blast(sat, next_var, a);
                let bits_b = self.bit_blast(sat, next_var, b);
                let n = if bits_a.len() < bits_b.len() { bits_a.len() } else { bits_b.len() };
                let mut res: Vec<i32> = Vec::new();
                let mut carry = self.new_var(sat, next_var);
                Self::clause(sat, lits(&[neg(carry)]), Ghost(*next_var));
                let mut i: usize = 0;
                while i < n
                    invariant
                        1 <= *next_var <= MAX_VARS,
                        self.wf(*next_var),
                        sat.wf(),
                        n <= bits_a@.len(),
                        n <= bits_b@.len(),
                        vars_below(bits_a@, *next_var),
                        vars_below(bits_b@, *next_var),
                        vars_below(res@, *next_var),
                        1 <= carry < *next_var,
                        *next_var >= *old(next_var),
                    decreases n - i,
                {
                    let la = bits_a[i];
                    let lb = bits_b[i];
                    let sum = self.new_var(sat, next_var);
                    let next_carry = self.new_var(sat, next_var);
                    Self::add_xor3(sat, sum, la, lb, carry, Ghost(*next_var));
                    Self::add_maj3(sat, next_carry, la, lb, carry, Ghost(*next_var));
                    let ghost nr = res@;
                    res.push(sum);
                    proof {
                        assert forall|k: int| 0 <= k < res@.len() implies 1 <= #[trigger] res@[k] < *next_var by {
                            if k < nr.len() {
                                assert(res@[k] == nr[k]);
                            }
                        }
                    }
                    carry = next_carry;
                    i += 1;
                }
                res
            },
            _ => Vec::new(),
        };
        self.remember(expr, &bits, Ghost(*next_var));
        bits
    }
}

/// The negation of a literal.
fn neg(x: i32) -> (r: i32)
    requires
        x != i32::MIN,
    ensures
        r == -x,
{
    -x
}

/// A clause of the given literals.
fn lits(v: &[i32]) -> (r: Vec<i32>)
    ensures
        r@ == v@,
{
    let mut out: Vec<i32> = Vec::new();
    let mut i: usize = 0;
    while i < v.len()
        invariant
            i <= v@.len(),
            out@ == v@.subrange(0, i as int),
        decreases v@.len() - i,
    {
        out.push(v[i]);
        i += 1;
        assert(out@ =~= v@.subrange(0, i as int));
    }
    assert(out@ =~= v@);
    out
}

/// A copy of a list of literals.
fn copy_bits(v: &Vec<i32>) -> (r: Vec<i32>)
    ensures
        r@ == v@,
{
    let mut out: Vec<i32> = Vec::new();
    let mut i: usize = 0;
    while i < v.len()
        invariant
            i <= v@.len(),
            out@ == v@.subrange(0, i as int),
        decreases v@.len() - i,
    {
        out.push(v[i]);
        i += 1;
        assert(out@ =~= v@.subrange(0, i as int));
    }
    assert(out@ =~= v@);
    out
}

/// Recorded variables stay below a larger bound.
pub proof fn lemma_wf_grows(b: &BitBlaster, n: i32, m: i32)
    requires
        b.wf(n),
        n <= m,
    ensures
        b.wf(m),
{
    assert forall|k: int| 0 <= k < b.expr_to_bits.vals@.len() implies vars_below(#[trigger] b.expr_to_bits.vals@[k]@, m) by {
        assert(vars_below(b.expr_to_bits.vals@[k]@, n));
    }
}

} // verus!
