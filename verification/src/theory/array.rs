//! Arrays: read-over-write lemmas instantiated on the `select` and `store` terms seen.
use vstd::prelude::*;
use crate::ast::{Expr, SExpr, ModelValue};
use crate::collections::ExprSet;

verus! {

broadcast use vstd::std_specs::vec::group_vec_axioms;

/// The read-over-write lemma of a `store` term: `(select (store a i v) i) = v`.
pub open spec fn store_lemma(st: SExpr) -> SExpr {
    match st {
        SExpr::Store(_, i, v) => SExpr::Eq(Box::new(SExpr::Select(Box::new(st), i)), v),
        _ => st,
    }
}

/// The read-over-other-write lemma of a read through a `store`:
/// `i = j ∨ (select (store a i v) j) = (select a j)`.
pub open spec fn read_lemma(rd: SExpr) -> SExpr {
    match rd {
        SExpr::Select(arr, j) => match *arr {
            SExpr::Store(a, i, _) => SExpr::Or(seq![
                SExpr::Eq(i, j),
                SExpr::Eq(Box::new(SExpr::Select(arr, j)), Box::new(SExpr::Select(a, j))),
            ]),
            _ => rd,
        },
        _ => rd,
    }
}

/// Whether `rd` reads through a `store`.
pub open spec fn reads_store(rd: SExpr) -> bool {
    rd matches SExpr::Select(arr, _) && (*arr) is Store
}

/// Whether `x` is the lemma of one of the `store` terms of `arrays` or of one of the reads
/// through a `store` of `reads`.
pub open spec fn array_lemma_of(arrays: Seq<Expr>, reads: Seq<Expr>, x: SExpr) -> bool {
    ||| exists|k: int| 0 <= k < arrays.len() && (#[trigger] arrays[k])@ is Store && x == store_lemma(arrays[k]@)
    ||| exists|k: int| 0 <= k < reads.len() && reads_store((#[trigger] reads[k])@) && x == read_lemma(reads[k]@)
}

/// The array solver.
pub struct ArraySolver {
    /// Every lemma instance produced so far.
    pub instantiated: ExprSet,
    /// The `store` terms seen.
    pub arrays: ExprSet,
    /// The `select` terms seen.
    pub reads: ExprSet,
}

impl ArraySolver {
    pub open spec fn wf(&self) -> bool {
        &&& self.instantiated.wf()
        &&& self.arrays.wf()
        &&& self.reads.wf()
        &&& forall|x: SExpr| #[trigger] self.arrays.contains(x) ==> x is Store
        &&& forall|x: SExpr| #[trigger] self.reads.contains(x) ==> x is Select
    }

    /// Whether every lemma of the terms seen has been produced.
    pub open spec fn saturated(&self) -> bool {
        &&& forall|k: int| 0 <= k < self.arrays.items@.len() ==>
            self.instantiated.contains(store_lemma(#[trigger] self.arrays.items@[k]@))
        &&& forall|k: int| 0 <= k < self.reads.items@.len() && reads_store(self.reads.items@[k]@) ==>
            self.instantiated.contains(read_lemma(#[trigger] self.reads.items@[k]@))
    }

    pub fn new() -> (r: ArraySolver)
        ensures
            r.wf(),
            r.saturated(),
            r.instantiated.items@.len() == 0,
            r.arrays.items@.len() == 0,
            r.reads.items@.len() == 0,
    {
        ArraySolver { instantiated: ExprSet::new(), arrays: ExprSet::new(), reads: ExprSet::new() }
    }

    /// Forgets the terms seen; the lemmas produced stay produced.
    pub fn reset(&mut self)
        requires
            old(self).wf(),
        ensures
            final(self).wf(),
            final(self).saturated(),
            final(self).instantiated == old(self).instantiated,
            final(self).arrays.items@.len() == 0,
            final(self).reads.items@.len() == 0,
    {
        self.arrays.clear();
        self.reads.clear();
    }

    /// Records every `select` and `store` term of `expr`, looking through equalities,
    /// negations, conjunctions, disjunctions and sums.
    #[verifier::loop_isolation(false)]
    fn collect_terms(&mut self, expr: &Expr)
        requires
            old(self).wf(),
        ensures
            final(self).wf(),
            final(self).instantiated == old(self).instantiated,
            forall|x: SExpr| old(self).arrays.contains(x) ==> final(self).arrays.contains(x),
            forall|x: SExpr| old(self).reads.contains(x) ==> final(self).reads.contains(x),
            expr@ is Store ==> final(self).arrays.contains(expr@),
            expr@ is Select ==> final(self).reads.contains(expr@),
        decreases expr,
    {
        match expr {
            Expr::Select(a, i) => {
                self.reads.insert(expr.clone());
                self.collect_terms(a);
                self.collect_terms(i);
            },
            Expr::Store(a, i, v) => {
                self.arrays.insert(expr.clone());
                self.collect_terms(a);
                self.collect_terms(i);
                self.collect_terms(v);
            },
            Expr::Eq(a, b) => {
                self.collect_terms(a);
                self.collect_terms(b);
            },
            Expr::Not(inner) => self.collect_terms(inner),
            Expr::And(args) | Expr::Or(args) | Expr::Add(args) => {
                let mut k: usize = 0;
                while k < args.len()
                    invariant
                        self.wf(),
                        self.instantiated == old(self).instantiated,
                        forall|x: SExpr| old(self).arrays.contains(x) ==> self.arrays.contains(x),
                        forall|x: SExpr| old(self).reads.contains(x) ==> self.reads.contains(x),
                    decreases args@.len() - k,
                {
                    proof {
                        assert(decreases_to!(*expr => args@[k as int]));
                    }
                    self.collect_terms(&args[k]);
                    k += 1;
                }
            },
            _ => {},
        }
    }

    /// Records the array terms of an asserted formula.
    pub fn assert_expr(&mut self, expr: &Expr)
        requires
            old(self).wf(),
        ensures
            final(self).wf(),
            final(self).instantiated == old(self).instantiated,
            forall|x: SExpr| old(self).arrays.contains(x) ==> final(self).arrays.contains(x),
            forall|x: SExpr| old(self).reads.contains(x) ==> final(self).reads.contains(x),
    {
        self.collect_terms(expr);
    }

    /// The array theory alone never reports a conflict; its lemmas go through
    /// [`ArraySolver::generate_lemmas`].
    pub fn check(&mut self) -> (r: bool)
        ensures
            r,
            *final(self) == *old(self),
    {
        true
    }

    pub fn explain(&self) -> (r: Vec<Expr>)
        ensures
            r@.len() == 0,
    {
        Vec::new()
    }

    pub fn get_model_value(&self, expr: &Expr) -> (r: Option<ModelValue>)
        ensures
            r is None,
    {
        None
    }

    /// Whether `inst` holds exactly what `before` held and the values of `lemmas`, none of
    /// which `before` held.
    pub open spec fn produced(inst: ExprSet, before: ExprSet, lemmas: Seq<Expr>) -> bool {
        &&& forall|q: int| 0 <= q < lemmas.len() ==> !before.contains(#[trigger] lemmas[q]@) && inst.contains(lemmas[q]@)
        &&& forall|x: SExpr| inst.contains(x) <==> (before.contains(x) || exists|q: int| 0 <= q < lemmas.len() && #[trigger] lemmas[q]@ == x)
    }

    /// Records `lemma` as produced, and adds it to `lemmas` when it is new.
    fn record(&mut self, lemma: Expr, lemmas: &mut Vec<Expr>, before: Ghost<ExprSet>)
        requires
            old(self).wf(),
            Self::produced(old(self).instantiated, before@, old(lemmas)@),
        ensures
            final(self).wf(),
            final(self).arrays == old(self).arrays,
            final(self).reads == old(self).reads,
            Self::produced(final(self).instantiated, before@, final(lemmas)@),
            final(self).instantiated.contains(lemma@),
            forall|x: SExpr| old(self).instantiated.contains(x) ==> final(self).instantiated.contains(x),
            before@.contains(lemma@) ==> final(lemmas)@ == old(lemmas)@,
            final(lemmas)@ == old(lemmas)@ || final(lemmas)@ == old(lemmas)@.push(lemma),
    {
        let ghost prev = lemmas@;
        let ghost lv = lemma@;
        if self.instantiated.insert(lemma.clone()) {
            lemmas.push(lemma);
            proof {
                assert(!before@.contains(lv));
                assert forall|x: SExpr| self.instantiated.contains(x) <==>
                    (before@.contains(x) || exists|q: int| 0 <= q < lemmas@.len() && #[trigger] lemmas@[q]@ == x) by {
                    if exists|q: int| 0 <= q < prev.len() && #[trigger] prev[q]@ == x {
                        let q = choose|q: int| 0 <= q < prev.len() && #[trigger] prev[q]@ == x;
                        assert(lemmas@[q] == prev[q]);
                    }
                    if exists|q: int| 0 <= q < lemmas@.len() && #[trigger] lemmas@[q]@ == x {
                        let q = choose|q: int| 0 <= q < lemmas@.len() && #[trigger] lemmas@[q]@ == x;
                        if q < prev.len() {
                            assert(prev[q] == lemmas@[q]);
                        }
                    }
                    if x == lv {
                        assert(lemmas@[prev.len() as int]@ == x);
                    }
                }
                assert forall|q: int| 0 <= q < lemmas@.len() implies !before@.contains(#[trigger] lemmas@[q]@)
                    && self.instantiated.contains(lemmas@[q]@) by {
                    if q < prev.len() {
                        assert(lemmas@[q] == prev[q]);
                    }
                }
            }
        } else {
            proof {
                if !before@.contains(lv) {
                    let q = choose|q: int| 0 <= q < prev.len() && #[trigger] prev[q]@ == lv;
                }
            }
        }
    }

    /// Produces the lemma of every `store` term.
    fn add_store_lemmas(&mut self, lemmas: &mut Vec<Expr>, before: Ghost<ExprSet>, was_saturated: Ghost<bool>)
        requires
            old(self).wf(),
            Self::produced(old(self).instantiated, before@, old(lemmas)@),
            forall|q: int| 0 <= q < old(lemmas)@.len() ==>
                array_lemma_of(old(self).arrays.items@, old(self).reads.items@, #[trigger] old(lemmas)@[q]@),
            was_saturated@ ==> old(lemmas)@.len() == 0,
            was_saturated@ ==> forall|q: int| 0 <= q < old(self).arrays.items@.len() ==>
                before@.contains(store_lemma(#[trigger] old(self).arrays.items@[q]@)),
        ensures
            final(self).wf(),
            final(self).arrays == old(self).arrays,
            final(self).reads == old(self).reads,
            forall|x: SExpr| old(self).instantiated.contains(x) ==> final(self).instantiated.contains(x),
            forall|q: int| 0 <= q < final(self).arrays.items@.len() ==>
                final(self).instantiated.contains(store_lemma(#[trigger] final(self).arrays.items@[q]@)),
            Self::produced(final(self).instantiated, before@, final(lemmas)@),
            was_saturated@ ==> final(lemmas)@.len() == 0,
            forall|q: int| 0 <= q < final(lemmas)@.len() ==>
                array_lemma_of(old(self).arrays.items@, old(self).reads.items@, #[trigger] final(lemmas)@[q]@),
    {
        let mut k: usize = 0;
        while k < self.arrays.items.len()
            invariant
                self.wf(),
                self.arrays == old(self).arrays,
                self.reads == old(self).reads,
                k <= self.arrays.items@.len(),
                forall|x: SExpr| old(self).instantiated.contains(x) ==> self.instantiated.contains(x),
                forall|q: int| 0 <= q < k ==> self.instantiated.contains(store_lemma(#[trigger] self.arrays.items@[q]@)),
                Self::produced(self.instantiated, before@, lemmas@),
                was_saturated@ ==> lemmas@.len() == 0,
                forall|q: int| 0 <= q < lemmas@.len() ==>
                    array_lemma_of(self.arrays.items@, self.reads.items@, #[trigger] lemmas@[q]@),
                was_saturated@ ==> forall|q: int| 0 <= q < self.arrays.items@.len() ==>
                    before@.contains(store_lemma(#[trigger] self.arrays.items@[q]@)),
            decreases self.arrays.items@.len() - k,
        {
            let arr = &self.arrays.items[k];
            assert(self.arrays.contains(self.arrays.items@[k as int]@));
            if let Expr::Store(a0, i, v) = arr {
                assert(arr@ == SExpr::Store(Box::new((**a0)@), Box::new((**i)@), Box::new((**v)@)));
                let select_store = Expr::Select(Box::new(arr.clone()), Box::new((**i).clone()));
                assert(select_store@ == SExpr::Select(Box::new(arr@), Box::new((**i)@)));
                let inst = Expr::Eq(Box::new(select_store), Box::new((**v).clone()));
                assert(inst@ == store_lemma(arr@));
                let ghost lv = inst@;
                let ghost prev = lemmas@;
                let ghost items = self.arrays.items@;
                assert(array_lemma_of(items, self.reads.items@, lv));
                self.record(inst, lemmas, before);
                assert forall|q: int| 0 <= q < lemmas@.len() implies
                    array_lemma_of(self.arrays.items@, self.reads.items@, #[trigger] lemmas@[q]@) by {
                    if q < prev.len() {
                        assert(lemmas@[q] == prev[q]);
                    }
                }
            }
            k += 1;
        }
    }

    /// Produces the lemma of every read through a `store`.
    fn add_read_lemmas(&mut self, lemmas: &mut Vec<Expr>, before: Ghost<ExprSet>, was_saturated: Ghost<bool>)
        requires
            old(self).wf(),
            Self::produced(old(self).instantiated, before@, old(lemmas)@),
            forall|q: int| 0 <= q < old(lemmas)@.len() ==>
                array_lemma_of(old(self).arrays.items@, old(self).reads.items@, #[trigger] old(lemmas)@[q]@),
            was_saturated@ ==> old(lemmas)@.len() == 0,
            was_saturated@ ==> forall|q: int| 0 <= q < old(self).reads.items@.len() && reads_store(old(self).reads.items@[q]@) ==>
                before@.contains(read_lemma(#[trigger] old(self).reads.items@[q]@)),
        ensures
            final(self).wf(),
            final(self).arrays == old(self).arrays,
            final(self).reads == old(self).reads,
            forall|x: SExpr| old(self).instantiated.contains(x) ==> final(self).instantiated.contains(x),
            forall|q: int| 0 <= q < final(self).reads.items@.len() && reads_store(final(self).reads.items@[q]@) ==>
                final(self).instantiated.contains(read_lemma(#[trigger] final(self).reads.items@[q]@)),
            Self::produced(final(self).instantiated, before@, final(lemmas)@),
            was_saturated@ ==> final(lemmas)@.len() == 0,
            forall|q: int| 0 <= q < final(lemmas)@.len() ==>
                array_lemma_of(old(self).arrays.items@, old(self).reads.items@, #[trigger] final(lemmas)@[q]@),
    {
        let mut k: usize = 0;
        while k < self.reads.items.len()
            invariant
                self.wf(),
                self.arrays == old(self).arrays,
                self.reads == old(self).reads,
                k <= self.reads.items@.len(),
                forall|x: SExpr| old(self).instantiated.contains(x) ==> self.instantiated.contains(x),
                forall|q: int| 0 <= q < k && reads_store(self.reads.items@[q]@) ==>
                    self.instantiated.contains(read_lemma(#[trigger] self.reads.items@[q]@)),
                Self::produced(self.instantiated, before@, lemmas@),
                was_saturated@ ==> lemmas@.len() == 0,
                forall|q: int| 0 <= q < lemmas@.len() ==>
                    array_lemma_of(self.arrays.items@, self.reads.items@, #[trigger] lemmas@[q]@),
                was_saturated@ ==> forall|q: int| 0 <= q < self.reads.items@.len() && reads_store(self.reads.items@[q]@) ==>
                    before@.contains(read_lemma(#[trigger] self.reads.items@[q]@)),
            decreases self.reads.items@.len() - k,
        {
            let rd = &self.reads.items[k];
            if let Expr::Select(arr_ptr, j) = rd {
                if let Expr::Store(a, i, _v) = &**arr_ptr {
                    let lemma = Self::read_instance(rd, arr_ptr, a, i, j);
                    let ghost lv = lemma@;
                    let ghost prev = lemmas@;
                    let ghost items = self.reads.items@;
                    assert(reads_store(items[k as int]@));
                    assert(array_lemma_of(self.arrays.items@, items, lv));
                    self.record(lemma, lemmas, before);
                    assert forall|q: int| 0 <= q < lemmas@.len() implies
                        array_lemma_of(self.arrays.items@, self.reads.items@, #[trigger] lemmas@[q]@) by {
                        if q < prev.len() {
                            assert(lemmas@[q] == prev[q]);
                        }
                    }
                }
            }
            k += 1;
        }
    }

    /// The lemma instances for the terms seen that were not produced before: one per
    /// `store` term, then one per read through a `store`. Afterwards every lemma of the terms
    /// seen has been produced, so a second call returns nothing.
    pub fn generate_lemmas(&mut self) -> (r: Vec<Expr>)
        requires
            old(self).wf(),
        ensures
            final(self).wf(),
            final(self).saturated(),
            final(self).arrays == old(self).arrays,
            final(self).reads == old(self).reads,
            Self::produced(final(self).instantiated, old(self).instantiated, r@),
            old(self).saturated() ==> r@.len() == 0,
            forall|q: int| 0 <= q < r@.len() ==>
                array_lemma_of(old(self).arrays.items@, old(self).reads.items@, #[trigger] r@[q]@),
    {
        let ghost before = self.instantiated;
        let ghost sat = self.saturated();
        let mut lemmas: Vec<Expr> = Vec::new();
        self.add_store_lemmas(&mut lemmas, Ghost(before), Ghost(sat));
        self.add_read_lemmas(&mut lemmas, Ghost(before), Ghost(sat));
        lemmas
    }

    /// `i = j ∨ (select arr j) = (select a j)` for the read `rd` = `(select arr j)` through
    /// `arr` = `(store a i v)`.
    fn read_instance(rd: &Expr, arr: &Box<Expr>, a: &Box<Expr>, i: &Box<Expr>, j: &Box<Expr>) -> (r: Expr)
        requires
            rd@ == SExpr::Select(Box::new((**arr)@), Box::new((**j)@)),
            (**arr)@ matches SExpr::Store(sa, si, _) && *sa == (**a)@ && *si == (**i)@,
        ensures
            r@ == read_lemma(rd@),
    {
        let i_eq_j = Expr::Eq(Box::new((**i).clone()), Box::new((**j).clone()));
        let select_a_j = Expr::Select(Box::new((**a).clone()), Box::new((**j).clone()));
        let select_store_j = Expr::Select(Box::new((**arr).clone()), Box::new((**j).clone()));
        assert(select_store_j@ == SExpr::Select(Box::new((**arr)@), Box::new((**j)@)));
        assert(select_a_j@ == SExpr::Select(Box::new((**a)@), Box::new((**j)@)));
        let s_eq_s = Expr::Eq(Box::new(select_store_j), Box::new(select_a_j));
        let mut parts: Vec<Expr> = Vec::new();
        parts.push(i_eq_j);
        parts.push(s_eq_s);
        proof {
            crate::ast::lemma_exprs_view(parts@);
            assert(crate::ast::exprs_view(parts@) =~= seq![parts@[0]@, parts@[1]@]);
            let (sa, si) = match (**arr)@ {
                SExpr::Store(x, y, _) => (x, y),
                _ => (Box::new((**a)@), Box::new((**i)@)),
            };
            assert(parts@[0]@ == SExpr::Eq(si, Box::new((**j)@)));
            assert(parts@[1]@ == SExpr::Eq(Box::new(SExpr::Select(Box::new((**arr)@), Box::new((**j)@))),
                Box::new(SExpr::Select(sa, Box::new((**j)@)))));
        }
        Expr::Or(parts)
    }
}

} // verus!
