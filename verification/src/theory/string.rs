//! Strings: length lemmas for the string terms seen, and a check that no string term is
//! given two different lengths.
use vstd::prelude::*;
use crate::ast::{Expr, SExpr, ModelValue, clone_exprs, exprs_view, lemma_exprs_view};
use crate::collections::{ExprSet, ExprMap};

verus! {

broadcast use vstd::std_specs::vec::group_vec_axioms;

/// The length fact that a lemma states: `(str.len s) = n` gives `s` and `n`.
pub open spec fn len_fact(e: SExpr) -> Option<(SExpr, i64)> {
    match e {
        SExpr::Eq(a, b) => match (*a, *b) {
            (SExpr::StrLen(s), SExpr::Int(n)) => Some((*s, n)),
            _ => None,
        },
        _ => None,
    }
}

/// Whether two of the lemmas give one string term two different lengths.
pub open spec fn lengths_conflict(p: Seq<Expr>) -> bool {
    exists|i: int, j: int| 0 <= i < p.len() && 0 <= j < p.len()
        && (#[trigger] len_fact(p[i]@)) is Some && (#[trigger] len_fact(p[j]@)) is Some
        && len_fact(p[i]@)->Some_0.0 == len_fact(p[j]@)->Some_0.0
        && len_fact(p[i]@)->Some_0.1 != len_fact(p[j]@)->Some_0.1
}

/// Whether `x` is one of the length lemmas of `e`: `(str.len s) ≥ 0` for a `(str.len s)`
/// and, where `consts` holds, `(str.len c) = n` for a string constant `c` (some `n`), in `e`
/// or inside its string, comparison, Boolean and arithmetic operators.
pub open spec fn length_lemma(e: SExpr, x: SExpr, consts: bool) -> bool
    decreases e,
{
    match e {
        SExpr::StrLen(a) => x == SExpr::Ge(Box::new(SExpr::StrLen(a)), Box::new(SExpr::Int(0)))
            || length_lemma(*a, x, consts),
        SExpr::StrConst(c) => consts && len_fact(x) is Some && len_fact(x)->Some_0.0 == SExpr::StrConst(c),
        SExpr::StrContains(a, b) => length_lemma(*a, x, consts) || length_lemma(*b, x, consts),
        SExpr::Eq(a, b) => length_lemma(*a, x, consts) || length_lemma(*b, x, consts),
        SExpr::Lt(a, b) => length_lemma(*a, x, consts) || length_lemma(*b, x, consts),
        SExpr::Le(a, b) => length_lemma(*a, x, consts) || length_lemma(*b, x, consts),
        SExpr::Gt(a, b) => length_lemma(*a, x, consts) || length_lemma(*b, x, consts),
        SExpr::Ge(a, b) => length_lemma(*a, x, consts) || length_lemma(*b, x, consts),
        SExpr::Not(a) => length_lemma(*a, x, consts),
        SExpr::StrConcat(v) => operand_lemma(v, x, consts),
        SExpr::And(v) => operand_lemma(v, x, consts),
        SExpr::Or(v) => operand_lemma(v, x, consts),
        SExpr::Add(v) => operand_lemma(v, x, consts),
        SExpr::Sub(v) => operand_lemma(v, x, consts),
        SExpr::Mul(v) => operand_lemma(v, x, consts),
        _ => false,
    }
}

/// Whether `x` is a length lemma of one of the terms of `v`.
pub open spec fn operand_lemma(v: Seq<SExpr>, x: SExpr, consts: bool) -> bool
    decreases v,
{
    exists|k: int| 0 <= k < v.len() && length_lemma(#[trigger] v[k], x, consts)
}

/// The string solver.
pub struct StringSolver {
    /// Every lemma produced so far.
    pub instantiated: ExprSet,
    /// The lemmas found since the last [`StringSolver::generate_lemmas`].
    pub pending_lemmas: Vec<Expr>,
}

impl StringSolver {
    pub open spec fn wf(&self) -> bool {
        &&& self.instantiated.wf()
        &&& forall|k: int| 0 <= k < self.pending_lemmas@.len() ==> self.instantiated.contains(#[trigger] self.pending_lemmas@[k]@)
    }

    pub fn new() -> (r: StringSolver)
        ensures
            r.wf(),
            r.instantiated.items@.len() == 0,
            r.pending_lemmas@.len() == 0,
    {
        StringSolver { instantiated: ExprSet::new(), pending_lemmas: Vec::new() }
    }

    /// Drops the pending lemmas; the lemmas produced stay produced.
    pub fn reset(&mut self)
        requires
            old(self).wf(),
        ensures
            final(self).wf(),
            final(self).instantiated == old(self).instantiated,
            final(self).pending_lemmas@.len() == 0,
    {
        self.pending_lemmas.clear();
    }

    /// Queues `lemma` unless it was produced before.
    fn note(&mut self, lemma: Expr)
        requires
            old(self).wf(),
        ensures
            final(self).wf(),
            final(self).instantiated.contains(lemma@),
            forall|x: SExpr| old(self).instantiated.contains(x) ==> final(self).instantiated.contains(x),
            forall|x: SExpr| final(self).instantiated.contains(x) ==> old(self).instantiated.contains(x) || x == lemma@,
            old(self).instantiated.contains(lemma@) ==> final(self).pending_lemmas@ == old(self).pending_lemmas@,
            !old(self).instantiated.contains(lemma@) ==> final(self).pending_lemmas@ == old(self).pending_lemmas@.push(lemma),
    {
        let ghost lv = lemma@;
        if self.instantiated.insert(lemma.clone()) {
            self.pending_lemmas.push(lemma);
            assert forall|k: int| 0 <= k < self.pending_lemmas@.len() implies self.instantiated.contains(#[trigger] self.pending_lemmas@[k]@) by {
                if k < old(self).pending_lemmas@.len() {
                    assert(self.pending_lemmas@[k] == old(self).pending_lemmas@[k]);
                }
            }
        }
    }

    /// Queues `(str.len s) ≥ 0` for every `(str.len s)` and `(str.len c) = |c|` (its length
    /// in UTF-8 bytes) for every string constant `c` of `expr`, looking through string,
    /// comparison, Boolean and arithmetic operators.
    #[verifier::loop_isolation(false)]
    #[verifier::rlimit(60)]
    #[verifier::spinoff_prover]
    fn collect_terms(&mut self, expr: &Expr)
        requires
            old(self).wf(),
        ensures
            final(self).wf(),
            forall|x: SExpr| old(self).instantiated.contains(x) ==> final(self).instantiated.contains(x),
            forall|x: SExpr| #[trigger] final(self).instantiated.contains(x) ==>
                old(self).instantiated.contains(x) || length_lemma(expr@, x, true),
            forall|x: SExpr| length_lemma(expr@, x, false) ==> #[trigger] final(self).instantiated.contains(x),
        decreases expr,
    {
        match expr {
            Expr::StrLen(s) => {
                let inner = (**s).clone();
                let lemma = Expr::Ge(Box::new(Expr::StrLen(Box::new(inner))), Box::new(Expr::Int(0)));
                proof {
                    reveal_with_fuel(Expr::sv, 3);
                }
                assert(lemma@ == SExpr::Ge(Box::new(SExpr::StrLen(Box::new((**s)@))), Box::new(SExpr::Int(0))));
                self.note(lemma);
                let ghost mid = self.instantiated;
                self.collect_terms(s);
                assert forall|x: SExpr| #[trigger] self.instantiated.contains(x) implies
                    old(self).instantiated.contains(x) || length_lemma(expr@, x, true) by {
                    if !mid.contains(x) {
                        assert(length_lemma((**s)@, x, true));
                    }
                }
            },
            Expr::StrConst(s) => {
                let n = s.as_str().len() as i64;
                let whole = expr.clone();
                let lemma = Expr::Eq(Box::new(Expr::StrLen(Box::new(whole))), Box::new(Expr::Int(n)));
                proof {
                    reveal_with_fuel(Expr::sv, 3);
                }
                assert(lemma@ == SExpr::Eq(Box::new(SExpr::StrLen(Box::new(expr@))), Box::new(SExpr::Int(n))));
                assert(len_fact(lemma@) == Some((expr@, n)));
                self.note(lemma);
            },
            Expr::StrContains(a, b) | Expr::Eq(a, b) | Expr::Lt(a, b) | Expr::Le(a, b) | Expr::Gt(a, b) | Expr::Ge(a, b) => {
                self.collect_terms(a);
                self.collect_terms(b);
            },
            Expr::Not(inner) => self.collect_terms(inner),
            Expr::StrConcat(args) | Expr::And(args) | Expr::Or(args) | Expr::Add(args) | Expr::Sub(args) | Expr::Mul(args) => {
                let mut k: usize = 0;
                let ghost v = exprs_view(args@);
                proof {
                    lemma_exprs_view(args@);
                    assert(expr@ == SExpr::StrConcat(v) || expr@ == SExpr::And(v) || expr@ == SExpr::Or(v)
                        || expr@ == SExpr::Add(v) || expr@ == SExpr::Sub(v) || expr@ == SExpr::Mul(v));
                }
                while k < args.len()
                    invariant
                        self.wf(),
                        k <= args@.len(),
                        v == exprs_view(args@),
                        v.len() == args@.len(),
                        forall|q: int| 0 <= q < args@.len() ==> #[trigger] v[q] == args@[q]@,
                        forall|x: SExpr| old(self).instantiated.contains(x) ==> self.instantiated.contains(x),
                        forall|x: SExpr| #[trigger] self.instantiated.contains(x) ==> old(self).instantiated.contains(x)
                            || exists|q: int| 0 <= q < k && length_lemma(#[trigger] v[q], x, true),
                        forall|x: SExpr, q: int| 0 <= q < k && length_lemma(#[trigger] v[q], x, false)
                            ==> #[trigger] self.instantiated.contains(x),
                    decreases args@.len() - k,
                {
                    proof {
                        assert(decreases_to!(*expr => args@[k as int]));
                    }
                    let ghost mid = self.instantiated;
                    self.collect_terms(&args[k]);
                    proof {
                        assert forall|x: SExpr| #[trigger] self.instantiated.contains(x) implies old(self).instantiated.contains(x)
                            || exists|q: int| 0 <= q < k + 1 && length_lemma(#[trigger] v[q], x, true) by {
                            if !mid.contains(x) {
                                assert(length_lemma(v[k as int], x, true));
                            }
                        }
                        assert forall|x: SExpr, q: int| 0 <= q < k + 1 && length_lemma(#[trigger] v[q], x, false)
                            implies #[trigger] self.instantiated.contains(x) by {
                            if q < k {
                                assert(mid.contains(x));
                            }
                        }
                    }
                    k += 1;
                }
                proof {
                    assert forall|x: SExpr| #[trigger] self.instantiated.contains(x) implies old(self).instantiated.contains(x)
                        || length_lemma(expr@, x, true) by {
                        if !old(self).instantiated.contains(x) {
                            let q = choose|q: int| 0 <= q < v.len() && length_lemma(#[trigger] v[q], x, true);
                            assert(operand_lemma(v, x, true));
                        }
                    }
                    assert forall|x: SExpr| length_lemma(expr@, x, false) implies #[trigger] self.instantiated.contains(x) by {
                        assert(operand_lemma(v, x, false));
                        let q = choose|q: int| 0 <= q < v.len() && length_lemma(#[trigger] v[q], x, false);
                    }
                }
            },
            _ => {},
        }
    }

    /// Records the string terms of an asserted formula.
    pub fn assert_expr(&mut self, expr: &Expr)
        requires
            old(self).wf(),
        ensures
            final(self).wf(),
            forall|x: SExpr| old(self).instantiated.contains(x) ==> final(self).instantiated.contains(x),
            forall|x: SExpr| #[trigger] final(self).instantiated.contains(x) ==>
                old(self).instantiated.contains(x) || length_lemma(expr@, x, true),
            forall|x: SExpr| length_lemma(expr@, x, false) ==> #[trigger] final(self).instantiated.contains(x),
    {
        self.collect_terms(expr);
    }

    /// False exactly when two pending lemmas give one string term two different lengths.
    #[verifier::loop_isolation(false)]
    #[verifier::rlimit(60)]
    pub fn check(&mut self) -> (r: bool)
        requires
            old(self).wf(),
        ensures
            *final(self) == *old(self),
            r == !lengths_conflict(old(self).pending_lemmas@),
    {
        let p = &self.pending_lemmas;
        let mut lengths: ExprMap<i64> = ExprMap::new();
        let mut k: usize = 0;
        while k < p.len()
            invariant
                k <= p@.len(),
                lengths.wf(),
                forall|i: int| #![trigger lengths.keys@[i]] 0 <= i < lengths.keys@.len() ==> exists|q: int| 0 <= q < k
                    && (#[trigger] len_fact(p@[q]@)) is Some
                    && len_fact(p@[q]@)->Some_0 == (lengths.keys@[i]@, lengths.vals@[i]),
                forall|q: int| 0 <= q < k && (#[trigger] len_fact(p@[q]@)) is Some ==>
                    exists|i: int| 0 <= i < lengths.keys@.len() && lengths.keys@[i]@ == len_fact(p@[q]@)->Some_0.0
                        && lengths.vals@[i] == len_fact(p@[q]@)->Some_0.1,
            decreases p@.len() - k,
        {
            let lemma = &p[k];
            if let Expr::Eq(a, b) = lemma {
                if let (Expr::StrLen(s), Expr::Int(len)) = (&**a, &**b) {
                    assert((**a)@ == SExpr::StrLen(Box::new((**s)@)));
                    assert((**b)@ == SExpr::Int(*len));
                    assert(len_fact(p@[k as int]@) == Some(((**s)@, *len)));
                    match lengths.index_of(s) {
                        Some(i) => {
                            if lengths.vals[i] != *len {
                                proof {
                                    let q = choose|q: int| 0 <= q < k && (#[trigger] len_fact(p@[q]@)) is Some
                                        && len_fact(p@[q]@)->Some_0 == (lengths.keys@[i as int]@, lengths.vals@[i as int]);
                                    assert(lengths_conflict(p@)) by {
                                        assert(len_fact(p@[q]@) is Some && len_fact(p@[k as int]@) is Some);
                                    }
                                }
                                return false;
                            }
                        },
                        None => {
                            let ghost ok = lengths.keys@;
                            let ghost ov = lengths.vals@;
                            let pos = lengths.insert_new((**s).clone(), *len);
                            proof {
                                assert forall|i: int| #![trigger lengths.keys@[i]] 0 <= i < lengths.keys@.len() implies exists|q: int| 0 <= q < k + 1
                                    && (#[trigger] len_fact(p@[q]@)) is Some
                                    && len_fact(p@[q]@)->Some_0 == (lengths.keys@[i]@, lengths.vals@[i]) by {
                                    if i == pos {
                                        assert(len_fact(p@[k as int]@) is Some);
                                    } else {
                                        let oi = if i < pos { i } else { i - 1 };
                                        assert(lengths.keys@[i] == ok[oi] && lengths.vals@[i] == ov[oi]);
                                    }
                                }
                                assert forall|q: int| 0 <= q < k + 1 && (#[trigger] len_fact(p@[q]@)) is Some implies
                                    exists|i: int| 0 <= i < lengths.keys@.len() && lengths.keys@[i]@ == len_fact(p@[q]@)->Some_0.0
                                        && lengths.vals@[i] == len_fact(p@[q]@)->Some_0.1 by {
                                    if q == k {
                                        assert(lengths.keys@[pos as int]@ == (**s)@);
                                    } else {
                                        let oi = choose|oi: int| 0 <= oi < ok.len() && ok[oi]@ == len_fact(p@[q]@)->Some_0.0
                                            && ov[oi] == len_fact(p@[q]@)->Some_0.1;
                                        let ni = if oi < pos { oi } else { oi + 1 };
                                        assert(lengths.keys@[ni] == ok[oi] && lengths.vals@[ni] == ov[oi]);
                                    }
                                }
                            }
                        },
                    }
                }
            }
            k += 1;
        }
        proof {
            assert(!lengths_conflict(p@)) by {
                if lengths_conflict(p@) {
                    let (i, j) = choose|i: int, j: int| 0 <= i < p@.len() && 0 <= j < p@.len()
                        && (#[trigger] len_fact(p@[i]@)) is Some && (#[trigger] len_fact(p@[j]@)) is Some
                        && len_fact(p@[i]@)->Some_0.0 == len_fact(p@[j]@)->Some_0.0
                        && len_fact(p@[i]@)->Some_0.1 != len_fact(p@[j]@)->Some_0.1;
                    let a = choose|a: int| 0 <= a < lengths.keys@.len() && lengths.keys@[a]@ == len_fact(p@[i]@)->Some_0.0
                        && lengths.vals@[a] == len_fact(p@[i]@)->Some_0.1;
                    let b = choose|b: int| 0 <= b < lengths.keys@.len() && lengths.keys@[b]@ == len_fact(p@[j]@)->Some_0.0
                        && lengths.vals@[b] == len_fact(p@[j]@)->Some_0.1;
                    if a != b {
                        assert(lengths.keys@[a]@ != lengths.keys@[b]@);
                    }
                }
            }
        }
        true
    }

    pub fn explain(&self) -> (r: Vec<Expr>)
        ensures
            r@.len() == 0,
    {
        Vec::new()
    }

    pub fn get_model_value(&self, expr: &Expr) -> (r: Option<ModelValue>)
        ensures
            r is None,
    {
        None
    }

    /// Hands out the pending lemmas, leaving none pending.
    pub fn generate_lemmas(&mut self) -> (r: Vec<Expr>)
        requires
            old(self).wf(),
        ensures
            final(self).wf(),
            exprs_view(r@) == exprs_view(old(self).pending_lemmas@),
            final(self).pending_lemmas@.len() == 0,
            final(self).instantiated == old(self).instantiated,
    {
        let res = clone_exprs(&self.pending_lemmas);
        self.pending_lemmas.clear();
        res
    }
}

} // verus!
