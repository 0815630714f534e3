//! Formula rewriting: simplification and equation solving.
use vstd::prelude::*;
use crate::ast::{Bindings, Expr, SExpr, exprs_view, lemma_exprs_view};
use crate::ast::order::expr_order;
use crate::meaning::{TermValue, term_value, term_values, same_meaning, lemma_term_values, lemma_map_multiset, and_tracks, or_tracks, sum_tracks, product_tracks, lemma_and_step, lemma_or_step, lemma_sum_step, lemma_product_step, lemma_represents_self, lemma_represents_operands, lemma_represents_nothing, lemma_tracks_same_elements, lemma_tracks_permutation, lemma_tracks_absorb, lemma_tracks_finish, lemma_tracks_start, lemma_tracks_flatten, lemma_zero_transfer, lemma_zero_factor, lemma_zero_operand, lemma_difference, lemma_negation, lemma_binary, lemma_conditional, all_int, int_sum, int_product, int_of};

verus! {

broadcast use vstd::std_specs::vec::group_vec_axioms;

/// A formula transformation.
pub trait Tactic {
    fn apply(&self, expr: Expr) -> Expr;
}

/// Constant folding and boolean/arithmetic normalization.
pub struct Simplifier;

/// Elimination of variables defined by top-level equations.
pub struct SolveEqs;

impl Tactic for Simplifier {
    fn apply(&self, expr: Expr) -> Expr {
        Simplifier::simplify(expr)
    }
}

impl Tactic for SolveEqs {
    fn apply(&self, expr: Expr) -> Expr {
        solve_eqs(expr)
    }
}

/// The values of a sequence of terms are the sequence mapped by the view.
proof fn lemma_exprs_view_map(s: Seq<Expr>)
    ensures
        exprs_view(s) == s.map_values(|e: Expr| e@),
{
    lemma_exprs_view(s);
    assert(exprs_view(s) =~= s.map_values(|e: Expr| e@));
}

proof fn lemma_exprs_view_push(s: Seq<Expr>, x: Expr)
    ensures
        exprs_view(s.push(x)) == exprs_view(s).push(x@),
{
    assert(s.push(x).drop_last() =~= s);
}

proof fn lemma_exprs_view_append(a: Seq<Expr>, b: Seq<Expr>)
    ensures
        exprs_view(a + b) == exprs_view(a) + exprs_view(b),
{
    lemma_exprs_view(a);
    lemma_exprs_view(b);
    lemma_exprs_view(a + b);
    assert(exprs_view(a + b) =~= exprs_view(a) + exprs_view(b));
}

/// `v` in the order on terms (insertion sort).
pub fn sort_exprs(v: Vec<Expr>) -> (r: Vec<Expr>)
    ensures
        r@.len() == v@.len(),
        r@.to_multiset() == v@.to_multiset(),
        exprs_view(r@).to_multiset() == exprs_view(v@).to_multiset(),
{
    broadcast use vstd::seq_lib::group_to_multiset_ensures, vstd::multiset::group_multiset_axioms,
        vstd::multiset::lemma_multiset_empty_len;
    let mut out: Vec<Expr> = Vec::new();
    let mut v = v;
    let ghost n = v@.len();
    let ghost v0 = v@;
    proof {
        assert(out@.to_multiset().len() == 0);
        assert(out@.to_multiset().add(v@.to_multiset()) =~= v0.to_multiset());
    }
    while v.len() > 0
        invariant
            out@.len() + v@.len() == n,
            out@.to_multiset().add(v@.to_multiset()) == v0.to_multiset(),
        decreases v@.len(),
    {
        let ghost before = v@;
        let e = v.remove(0);
        proof {
            assert(before[0] == e);
            assert(v@ == before.remove(0));
            vstd::seq_lib::to_multiset_remove(before, 0);
            assert(v@.to_multiset() == before.to_multiset().remove(e));
        }
        let mut pos: usize = 0;
        while pos < out.len()
            invariant
                pos <= out@.len(),
            decreases out@.len() - pos,
        {
            if expr_order(&out[pos], &e) == 1 {
                break;
            }
            pos += 1;
        }
        let ghost ob = out@;
        out.insert(pos, e);
        proof {
            assert(out@ == ob.insert(pos as int, e));
            vstd::seq_lib::to_multiset_insert(ob, pos as int, e);
            assert(out@.to_multiset() == ob.to_multiset().insert(e));
            assert(before[0] == e);
            assert(before.contains(e));
            vstd::seq_lib::to_multiset_contains(before, e);
            assert(out@.to_multiset().add(v@.to_multiset()) =~= v0.to_multiset());
        }
    }
    proof {
        assert(v@.to_multiset().len() == 0);
        assert(out@.to_multiset() =~= v0.to_multiset());
        lemma_exprs_view_map(out@);
        lemma_exprs_view_map(v0);
        lemma_map_multiset(out@, v0, |e: Expr| e@);
    }
    out
}

/// `s` with each run of equal consecutive terms kept once.
pub open spec fn dedup_view(s: Seq<SExpr>) -> Seq<SExpr>
    decreases s.len(),
{
    if s.len() == 0 {
        s
    } else {
        let d = dedup_view(s.drop_last());
        if d.len() > 0 && d.last() == s.last() { d } else { d.push(s.last()) }
    }
}

/// `v` without consecutive repeated terms.
pub fn dedup_exprs(v: Vec<Expr>) -> (r: Vec<Expr>)
    ensures
        r@.len() <= v@.len(),
        v@.len() > 0 ==> r@.len() > 0,
        forall|x: SExpr| exprs_view(r@).contains(x) <==> exprs_view(v@).contains(x),
        exprs_view(r@) == dedup_view(exprs_view(v@)),
{
    let ghost vv = exprs_view(v@);
    proof {
        lemma_exprs_view(v@);
    }
    let mut out: Vec<Expr> = Vec::new();
    let mut i: usize = 0;
    proof {
        assert(exprs_view(out@) =~= vv.subrange(0, 0));
    }
    while i < v.len()
        invariant
            i <= v@.len(),
            vv == exprs_view(v@),
            vv.len() == v@.len(),
            forall|j: int| 0 <= j < v@.len() ==> #[trigger] vv[j] == v@[j]@,
            out@.len() <= i,
            i > 0 ==> out@.len() > 0,
            i > 0 ==> out@[out@.len() - 1]@ == vv[i - 1],
            forall|x: SExpr| exprs_view(out@).contains(x) <==> vv.subrange(0, i as int).contains(x),
            exprs_view(out@) == dedup_view(vv.subrange(0, i as int)),
        decreases v@.len() - i,
    {
        let keep = out.len() == 0 || !out[out.len() - 1].deep_eq(&v[i]);
        let ghost ob = out@;
        proof {
            assert(vv.subrange(0, i + 1) =~= vv.subrange(0, i as int).push(vv[i as int]));
            assert(vv.subrange(0, i + 1).drop_last() =~= vv.subrange(0, i as int));
            lemma_exprs_view(ob);
            if ob.len() > 0 {
                assert(exprs_view(ob).last() == ob[ob.len() - 1]@);
            }
        }
        if keep {
            let c = v[i].clone();
            out.push(c);
            proof {
                lemma_exprs_view_push(ob, c);
                assert(out@ == ob.push(c));
                assert forall|x: SExpr| exprs_view(out@).contains(x) <==> vv.subrange(0, i + 1).contains(x) by {
                    assert(exprs_view(out@) == exprs_view(ob).push(c@));
                    if exprs_view(out@).contains(x) {
                        let k = choose|k: int| 0 <= k < exprs_view(out@).len() && #[trigger] exprs_view(out@)[k] == x;
                        if k < exprs_view(ob).len() {
                            assert(exprs_view(ob)[k] == x);
                            assert(exprs_view(ob).contains(x));
                            assert(vv.subrange(0, i as int).contains(x));
                            let j = choose|j: int| 0 <= j < i && #[trigger] vv.subrange(0, i as int)[j] == x;
                            assert(vv.subrange(0, i + 1)[j] == x);
                        } else {
                            assert(vv.subrange(0, i + 1)[i as int] == x);
                        }
                    }
                    if vv.subrange(0, i + 1).contains(x) {
                        let j = choose|j: int| 0 <= j < i + 1 && #[trigger] vv.subrange(0, i + 1)[j] == x;
                        if j < i {
                            assert(vv.subrange(0, i as int)[j] == x);
                            assert(vv.subrange(0, i as int).contains(x));
                            assert(exprs_view(ob).contains(x));
                            let k = choose|k: int| 0 <= k < exprs_view(ob).len() && #[trigger] exprs_view(ob)[k] == x;
                            assert(exprs_view(out@)[k] == x);
                        } else {
                            assert(exprs_view(out@)[exprs_view(ob).len() as int] == x);
                        }
                    }
                }
            }
        } else {
            proof {
                lemma_exprs_view(out@);
                assert forall|x: SExpr| exprs_view(out@).contains(x) <==> vv.subrange(0, i + 1).contains(x) by {
                    if vv.subrange(0, i + 1).contains(x) {
                        let j = choose|j: int| 0 <= j < i + 1 && #[trigger] vv.subrange(0, i + 1)[j] == x;
                        if j < i {
                            assert(vv.subrange(0, i as int)[j] == x);
                            assert(vv.subrange(0, i as int).contains(x));
                        } else {
                            assert(exprs_view(out@)[out@.len() - 1] == x);
                        }
                    }
                    if exprs_view(out@).contains(x) {
                        assert(vv.subrange(0, i as int).contains(x));
                        let j = choose|j: int| 0 <= j < i && #[trigger] vv.subrange(0, i as int)[j] == x;
                        assert(vv.subrange(0, i + 1)[j] == x);
                    }
                }
            }
        }
        i += 1;
    }
    proof {
        assert(vv.subrange(0, i as int) =~= vv);
    }
    out
}

/// Whether `simplify` rewrites terms of this form (its operands or itself); it returns every
/// other term unchanged.
pub open spec fn simplified_form(e: SExpr) -> bool {
    ||| e is And
    ||| e is Or
    ||| e is Not
    ||| e is Add
    ||| e is Sub
    ||| e is Mul
    ||| e is Lt
    ||| e is Le
    ||| e is Gt
    ||| e is Ge
    ||| e is Eq
    ||| e is Implies
    ||| e is Ite
}

/// Whether every term of `v` is one that simplification returns unchanged.
pub open spec fn atoms(v: Seq<SExpr>) -> bool {
    forall|i: int| 0 <= i < v.len() ==> !simplified_form(#[trigger] v[i])
}

/// `v` without the Boolean constants `b`.
pub open spec fn without_bool(v: Seq<SExpr>, b: bool) -> Seq<SExpr>
    decreases v.len(),
{
    if v.len() == 0 {
        Seq::empty()
    } else {
        let p = without_bool(v.drop_last(), b);
        if v.last() == SExpr::Bool(b) { p } else { p.push(v.last()) }
    }
}

/// `v` without its integer constants.
pub open spec fn without_ints(v: Seq<SExpr>) -> Seq<SExpr>
    decreases v.len(),
{
    if v.len() == 0 {
        Seq::empty()
    } else {
        let p = without_ints(v.drop_last());
        if v.last() is Int { p } else { p.push(v.last()) }
    }
}

/// The sum of the integer constants of `v`.
pub open spec fn literal_total(v: Seq<SExpr>) -> int
    decreases v.len(),
{
    if v.len() == 0 {
        0
    } else {
        literal_total(v.drop_last()) + match v.last() {
            SExpr::Int(n) => n as int,
            _ => 0int,
        }
    }
}

/// Whether every running sum of the integer constants of `v` fits in `i64`.
pub open spec fn totals_fit(v: Seq<SExpr>) -> bool {
    forall|k: int| 0 <= k <= v.len() ==> i64::MIN <= #[trigger] literal_total(v.take(k)) <= i64::MAX
}

/// What a conjunction (`is_and`) or disjunction of the remaining operands `rest` folds to:
/// the unit constant for none, the operand itself for one, and otherwise the connective
/// over the same operands (or their one value, when they are all equal).
pub open spec fn folded_connective(rest: Seq<SExpr>, r: SExpr, unit: bool, is_and: bool) -> bool {
    &&& rest.len() == 0 ==> r == SExpr::Bool(unit)
    &&& rest.len() == 1 ==> r == rest[0]
    &&& rest.len() >= 2 ==> {
        ||| (forall|i: int| 0 <= i < rest.len() ==> #[trigger] rest[i] == r)
        ||| (is_and && r is And && r->And_0.to_set() == rest.to_set())
        ||| (!is_and && r is Or && r->Or_0.to_set() == rest.to_set())
    }
}

/// What a sum of the operands `rest` and the constant `c` folds to.
pub open spec fn folded_sum(rest: Seq<SExpr>, c: int, r: SExpr) -> bool {
    &&& rest.len() == 0 ==> r == SExpr::Int(c as i64)
    &&& rest.len() == 1 && c == 0 ==> r == rest[0]
    &&& rest.len() >= 1 && c != 0 ==> r is Add && r->Add_0.to_multiset() == rest.push(SExpr::Int(c as i64)).to_multiset()
    &&& rest.len() >= 2 && c == 0 ==> r is Add && r->Add_0.to_multiset() == rest.to_multiset()
}

/// The folds that simplification makes when the operands are already simple: a negated
/// constant is decided and a double negation removed; an `ite` with a constant condition
/// becomes the chosen branch; an `and` (`or`) with a `false` (`true`) operand is that
/// constant, and otherwise drops its `true` (`false`) operands (see `folded_connective`);
/// a sum folds its integer constants into one (see `folded_sum`).
pub open spec fn literal_folds(e: SExpr, r: SExpr) -> bool {
    match e {
        SExpr::Not(x) => {
            &&& !simplified_form(*x) ==> r == (match *x {
                SExpr::Bool(b) => SExpr::Bool(!b),
                _ => SExpr::Not(x),
            })
            &&& (double_negation_of(e) matches Some(y) && !simplified_form(y)) ==> r == double_negation_of(e)->Some_0
        },
        SExpr::Ite(c, t, f) => {
            &&& *c == SExpr::Bool(true) && !simplified_form(*t) ==> r == *t
            &&& *c == SExpr::Bool(false) && !simplified_form(*f) ==> r == *f
        },
        SExpr::And(v) => atoms(v) ==> if v.contains(SExpr::Bool(false)) {
            r == SExpr::Bool(false)
        } else {
            folded_connective(without_bool(v, true), r, true, true)
        },
        SExpr::Or(v) => atoms(v) ==> if v.contains(SExpr::Bool(true)) {
            r == SExpr::Bool(true)
        } else {
            folded_connective(without_bool(v, false), r, false, false)
        },
        SExpr::Add(v) => atoms(v) && totals_fit(v) ==> folded_sum(without_ints(v), literal_total(v), r),
        _ => true,
    }
}

/// The term under two negations, if `e` is one.
pub open spec fn double_negation_of(e: SExpr) -> Option<SExpr> {
    match e {
        SExpr::Not(i) => match *i {
            SExpr::Not(x) => Some(*x),
            _ => None,
        },
        _ => None,
    }
}

/// Dropping constants from a list with one more term.
proof fn lemma_fold_push(s: Seq<SExpr>, x: SExpr)
    ensures
        without_bool(s.push(x), true) == if x == SExpr::Bool(true) { without_bool(s, true) } else { without_bool(s, true).push(x) },
        without_bool(s.push(x), false) == if x == SExpr::Bool(false) { without_bool(s, false) } else { without_bool(s, false).push(x) },
        without_ints(s.push(x)) == if x is Int { without_ints(s) } else { without_ints(s).push(x) },
        literal_total(s.push(x)) == literal_total(s) + match x { SExpr::Int(n) => n as int, _ => 0int },
{
    assert(s.push(x).drop_last() == s);
}

impl Simplifier {
    /// The simplified form of `expr`: `and`/`or` flattened, with their units dropped, their
    /// absorbing constant returned, operands sorted and repeats removed; double negations
    /// and negated constants removed; integer constants in sums and products folded;
    /// comparisons and equalities of constants decided; an `ite` with a constant condition
    /// reduced; equalities with their sides in order. Other terms are returned unchanged.
    /// Wherever `expr` has a value, the result has the same one.
    pub fn simplify(expr: Expr) -> (r: Expr)
        ensures
            same_meaning(expr@, r@),
            !simplified_form(expr@) ==> r@ == expr@,
            expr@ is Lt ==> r@ is Bool || r@ is Lt,
            expr@ is Le ==> r@ is Bool || r@ is Le,
            expr@ is Gt ==> r@ is Bool || r@ is Gt,
            expr@ is Ge ==> r@ is Bool || r@ is Ge,
            expr@ is Eq ==> r@ is Bool || r@ is Eq,
            expr@ is Implies ==> r@ is Implies,
            literal_folds(expr@, r@),
    {
        simplify_ref(&expr)
    }
}

/// The view of the `i`-th operand.
proof fn lemma_operand(args: Seq<Expr>, i: int)
    requires
        0 <= i < args.len(),
    ensures
        exprs_view(args).len() == args.len(),
        exprs_view(args)[i] == args[i]@,
        exprs_view(args).subrange(0, i + 1) == exprs_view(args).subrange(0, i).push(args[i]@),
{
    lemma_exprs_view(args);
    assert(exprs_view(args).subrange(0, i + 1) =~= exprs_view(args).subrange(0, i).push(args[i]@));
}

/// The conjunction of `args`, simplified.
fn simplify_and(args: &Vec<Expr>) -> (r: Expr)
    ensures
        same_meaning(SExpr::And(exprs_view(args@)), r@),
        atoms(exprs_view(args@)) && exprs_view(args@).contains(SExpr::Bool(false)) ==> r@ == SExpr::Bool(false),
        atoms(exprs_view(args@)) && !exprs_view(args@).contains(SExpr::Bool(false))
            ==> folded_connective(without_bool(exprs_view(args@), true), r@, true, true),
    decreases args,
{
    let ghost a = exprs_view(args@);
    proof {
        lemma_exprs_view(args@);
        assert(exprs_view(Seq::<Expr>::empty()) =~= Seq::<SExpr>::empty());
        assert(a.subrange(0, 0) =~= Seq::<SExpr>::empty());
    }
    let mut new_args: Vec<Expr> = Vec::new();
    let mut i: usize = 0;
    while i < args.len()
        invariant
            i <= args@.len(),
            a == exprs_view(args@),
            and_tracks(a.subrange(0, i as int), exprs_view(new_args@)),
            atoms(a) ==> !a.subrange(0, i as int).contains(SExpr::Bool(false)),
            atoms(a) ==> exprs_view(new_args@) == without_bool(a.subrange(0, i as int), true),
        decreases args@.len() - i,
    {
        proof {
            assert(decreases_to!(args => args@[i as int]));
            lemma_operand(args@, i as int);
            lemma_fold_push(a.subrange(0, i as int), a[i as int]);
            if atoms(a) {
                assert(!simplified_form(a[i as int]));
                assert(a.subrange(0, i + 1) == a.subrange(0, i as int).push(a[i as int]));
            }
        }
        let simplified = simplify_ref(&args[i]);
        let ghost sv = simplified@;
        let ghost before = new_args@;
        match simplified {
            Expr::Bool(true) => {
                proof {
                    lemma_represents_nothing(sv, 0);
                    lemma_and_step(a.subrange(0, i as int), exprs_view(before), a[i as int], sv, seq![]);
                    assert(exprs_view(before) + seq![] =~= exprs_view(before));
                }
            },
            Expr::Bool(false) => {
                proof {
                    assert forall|base: spec_fn(SExpr) -> TermValue|
                        #[trigger] term_value(SExpr::And(a), base) != TermValue::Undefined implies
                        term_value(SExpr::Bool(false), base) == term_value(SExpr::And(a), base) by {
                        lemma_term_values(a, base);
                        assert(term_values(a, base)[i as int] == term_value(a[i as int], base));
                    }
                }
                return Expr::Bool(false);
            },
            Expr::And(inner) => {
                let mut inner = inner;
                let ghost iv = inner@;
                new_args.append(&mut inner);
                proof {
                    lemma_represents_operands(exprs_view(iv));
                    lemma_and_step(a.subrange(0, i as int), exprs_view(before), a[i as int], sv, exprs_view(iv));
                    lemma_exprs_view_append(before, iv);
                    assert(new_args@ == before + iv);
                }
            },
            other => {
                new_args.push(other);
                proof {
                    lemma_represents_self(sv);
                    lemma_and_step(a.subrange(0, i as int), exprs_view(before), a[i as int], sv, seq![sv]);
                    lemma_exprs_view_push(before, other);
                    assert(exprs_view(before) + seq![sv] =~= exprs_view(before).push(sv));
                }
            },
        }
        i += 1;
    }
    proof {
        assert(a.subrange(0, i as int) =~= a);
        lemma_tracks_finish(a, exprs_view(new_args@), 0);
    }
    if new_args.len() == 0 {
        return Expr::Bool(true);
    }
    if new_args.len() == 1 {
        proof {
            lemma_exprs_view(new_args@);
        }
        return new_args.remove(0);
    }
    let sorted = sort_exprs(new_args);
    let ghost sorted_view = exprs_view(sorted@);
    let mut deduped = dedup_exprs(sorted);
    proof {
        assert forall|x: SExpr| exprs_view(new_args@).contains(x) <==> exprs_view(deduped@).contains(x) by {
            vstd::seq_lib::to_multiset_contains(exprs_view(new_args@), x);
            vstd::seq_lib::to_multiset_contains(sorted_view, x);
        }
        lemma_tracks_same_elements(a, exprs_view(new_args@), exprs_view(deduped@));
        lemma_tracks_finish(a, exprs_view(deduped@), 0);
        lemma_exprs_view(deduped@);
    }
    proof {
        assert(exprs_view(deduped@).to_set() =~= exprs_view(new_args@).to_set());
    }
    if deduped.len() == 1 {
        proof {
            assert forall|q: int| 0 <= q < exprs_view(new_args@).len() implies #[trigger] exprs_view(new_args@)[q] == deduped@[0]@ by {
                assert(exprs_view(new_args@).contains(exprs_view(new_args@)[q]));
            }
        }
        return deduped.remove(0);
    }
    let ghost dv = exprs_view(deduped@);
    let res = Expr::And(deduped);
    proof {
        assert(res@ == SExpr::And(dv));
        lemma_exprs_view(new_args@);
        if atoms(a) {
            assert(without_bool(a, true) == exprs_view(new_args@));
            assert(res@->And_0.to_set() == without_bool(a, true).to_set());
        }
    }
    res
}

/// The disjunction of `args`, simplified.
fn simplify_or(args: &Vec<Expr>) -> (r: Expr)
    ensures
        same_meaning(SExpr::Or(exprs_view(args@)), r@),
        atoms(exprs_view(args@)) && exprs_view(args@).contains(SExpr::Bool(true)) ==> r@ == SExpr::Bool(true),
        atoms(exprs_view(args@)) && !exprs_view(args@).contains(SExpr::Bool(true))
            ==> folded_connective(without_bool(exprs_view(args@), false), r@, false, false),
    decreases args,
{
    let ghost a = exprs_view(args@);
    proof {
        lemma_exprs_view(args@);
        assert(exprs_view(Seq::<Expr>::empty()) =~= Seq::<SExpr>::empty());
        assert(a.subrange(0, 0) =~= Seq::<SExpr>::empty());
    }
    let mut new_args: Vec<Expr> = Vec::new();
    let mut i: usize = 0;
    while i < args.len()
        invariant
            i <= args@.len(),
            a == exprs_view(args@),
            or_tracks(a.subrange(0, i as int), exprs_view(new_args@)),
            atoms(a) ==> !a.subrange(0, i as int).contains(SExpr::Bool(true)),
            atoms(a) ==> exprs_view(new_args@) == without_bool(a.subrange(0, i as int), false),
        decreases args@.len() - i,
    {
        proof {
            assert(decreases_to!(args => args@[i as int]));
            lemma_operand(args@, i as int);
            lemma_fold_push(a.subrange(0, i as int), a[i as int]);
            if atoms(a) {
                assert(!simplified_form(a[i as int]));
                assert(a.subrange(0, i + 1) == a.subrange(0, i as int).push(a[i as int]));
            }
        }
        let simplified = simplify_ref(&args[i]);
        let ghost sv = simplified@;
        let ghost before = new_args@;
        match simplified {
            Expr::Bool(false) => {
                proof {
                    lemma_represents_nothing(sv, 0);
                    lemma_or_step(a.subrange(0, i as int), exprs_view(before), a[i as int], sv, seq![]);
                    assert(exprs_view(before) + seq![] =~= exprs_view(before));
                }
            },
            Expr::Bool(true) => {
                proof {
                    assert forall|base: spec_fn(SExpr) -> TermValue|
                        #[trigger] term_value(SExpr::Or(a), base) != TermValue::Undefined implies
                        term_value(SExpr::Bool(true), base) == term_value(SExpr::Or(a), base) by {
                        lemma_term_values(a, base);
                        assert(term_values(a, base)[i as int] == term_value(a[i as int], base));
                    }
                }
                return Expr::Bool(true);
            },
            Expr::Or(inner) => {
                let mut inner = inner;
                let ghost iv = inner@;
                new_args.append(&mut inner);
                proof {
                    lemma_represents_operands(exprs_view(iv));
                    lemma_or_step(a.subrange(0, i as int), exprs_view(before), a[i as int], sv, exprs_view(iv));
                    lemma_exprs_view_append(before, iv);
                    assert(new_args@ == before + iv);
                }
            },
            other => {
                new_args.push(other);
                proof {
                    lemma_represents_self(sv);
                    lemma_or_step(a.subrange(0, i as int), exprs_view(before), a[i as int], sv, seq![sv]);
                    lemma_exprs_view_push(before, other);
                    assert(exprs_view(before) + seq![sv] =~= exprs_view(before).push(sv));
                }
            },
        }
        i += 1;
    }
    proof {
        assert(a.subrange(0, i as int) =~= a);
        lemma_tracks_finish(a, exprs_view(new_args@), 0);
    }
    if new_args.len() == 0 {
        return Expr::Bool(false);
    }
    if new_args.len() == 1 {
        proof {
            lemma_exprs_view(new_args@);
        }
        return new_args.remove(0);
    }
    let sorted = sort_exprs(new_args);
    let ghost sorted_view = exprs_view(sorted@);
    let mut deduped = dedup_exprs(sorted);
    proof {
        assert forall|x: SExpr| exprs_view(new_args@).contains(x) <==> exprs_view(deduped@).contains(x) by {
            vstd::seq_lib::to_multiset_contains(exprs_view(new_args@), x);
            vstd::seq_lib::to_multiset_contains(sorted_view, x);
        }
        lemma_tracks_same_elements(a, exprs_view(new_args@), exprs_view(deduped@));
        lemma_tracks_finish(a, exprs_view(deduped@), 0);
        lemma_exprs_view(deduped@);
    }
    proof {
        assert(exprs_view(deduped@).to_set() =~= exprs_view(new_args@).to_set());
    }
    if deduped.len() == 1 {
        proof {
            assert forall|q: int| 0 <= q < exprs_view(new_args@).len() implies #[trigger] exprs_view(new_args@)[q] == deduped@[0]@ by {
                assert(exprs_view(new_args@).contains(exprs_view(new_args@)[q]));
            }
        }
        return deduped.remove(0);
    }
    let ghost dv = exprs_view(deduped@);
    let res = Expr::Or(deduped);
    proof {
        assert(res@ == SExpr::Or(dv));
        lemma_exprs_view(new_args@);
        if atoms(a) {
            assert(without_bool(a, false) == exprs_view(new_args@));
            assert(res@->Or_0.to_set() == without_bool(a, false).to_set());
        }
    }
    res
}

/// The sum of `args`, simplified.
fn simplify_sum(args: &Vec<Expr>) -> (r: Expr)
    ensures
        same_meaning(SExpr::Add(exprs_view(args@)), r@),
        atoms(exprs_view(args@)) && totals_fit(exprs_view(args@))
            ==> folded_sum(without_ints(exprs_view(args@)), literal_total(exprs_view(args@)), r@),
    decreases args,
{
    let ghost a = exprs_view(args@);
    proof {
        lemma_exprs_view(args@);
        lemma_tracks_start(a);
        assert(exprs_view(Seq::<Expr>::empty()) =~= Seq::<SExpr>::empty());
    }
    let mut new_args: Vec<Expr> = Vec::new();
    let mut const_sum: i64 = 0;
    let mut i: usize = 0;
    while i < args.len()
        invariant
            i <= args@.len(),
            a == exprs_view(args@),
            sum_tracks(a.subrange(0, i as int), exprs_view(new_args@), const_sum as int),
            atoms(a) && totals_fit(a) ==> exprs_view(new_args@) == without_ints(a.subrange(0, i as int))
                && const_sum == literal_total(a.subrange(0, i as int)),
        decreases args@.len() - i,
    {
        proof {
            assert(decreases_to!(args => args@[i as int]));
            lemma_operand(args@, i as int);
            lemma_fold_push(a.subrange(0, i as int), a[i as int]);
            assert(a.subrange(0, i + 1) == a.subrange(0, i as int).push(a[i as int]));
            if atoms(a) && totals_fit(a) {
                assert(!simplified_form(a[i as int]));
                assert(a.take(i + 1) == a.subrange(0, i + 1));
                assert(i64::MIN <= literal_total(a.take(i + 1)) <= i64::MAX);
            }
        }
        let simplified = simplify_ref(&args[i]);
        let ghost sv = simplified@;
        let ghost before = new_args@;
        let ghost done = a.subrange(0, i as int);
        let ghost c0 = const_sum as int;
        match simplified {
            Expr::Int(val) => match const_sum.checked_add(val) {
                Some(s) => {
                    const_sum = s;
                    proof {
                        lemma_represents_nothing(sv, val as int);
                        lemma_sum_step(done, exprs_view(before), c0, a[i as int], sv, seq![], val as int);
                        assert(exprs_view(before) + seq![] =~= exprs_view(before));
                    }
                },
                None => {
                    new_args.push(Expr::Int(val));
                    proof {
                        lemma_represents_self(sv);
                        lemma_sum_step(done, exprs_view(before), c0, a[i as int], sv, seq![sv], 0);
                        lemma_exprs_view_push(before, Expr::Int(val));
                        assert(exprs_view(before) + seq![sv] =~= exprs_view(before).push(sv));
                    }
                },
            },
            Expr::Add(inner) => {
                let ghost iv = exprs_view(inner@);
                proof {
                    lemma_exprs_view(inner@);
                    assert(done + iv.subrange(0, 0) =~= done);
                }
                let mut j: usize = 0;
                while j < inner.len()
                    invariant
                        j <= inner@.len(),
                        iv == exprs_view(inner@),
                        sum_tracks(done + iv.subrange(0, j as int), exprs_view(new_args@), const_sum as int),
                    decreases inner@.len() - j,
                {
                    let ghost b2 = new_args@;
                    let ghost c1 = const_sum as int;
                    let ghost d2 = done + iv.subrange(0, j as int);
                    proof {
                        lemma_operand(inner@, j as int);
                        assert(done + iv.subrange(0, j + 1) =~= d2.push(iv[j as int]));
                    }
                    match &inner[j] {
                        Expr::Int(v) => match const_sum.checked_add(*v) {
                            Some(s) => {
                                const_sum = s;
                                proof {
                                    lemma_represents_nothing(iv[j as int], *v as int);
                                    lemma_sum_step(d2, exprs_view(b2), c1, iv[j as int], iv[j as int], seq![], *v as int);
                                    assert(exprs_view(b2) + seq![] =~= exprs_view(b2));
                                }
                            },
                            None => {
                                new_args.push(Expr::Int(*v));
                                proof {
                                    lemma_represents_self(iv[j as int]);
                                    lemma_sum_step(d2, exprs_view(b2), c1, iv[j as int], iv[j as int], seq![iv[j as int]], 0);
                                    lemma_exprs_view_push(b2, Expr::Int(*v));
                                    assert(exprs_view(b2) + seq![iv[j as int]] =~= exprs_view(b2).push(iv[j as int]));
                                }
                            },
                        },
                        other => {
                            let o = other.clone();
                            new_args.push(o);
                            proof {
                                lemma_represents_self(iv[j as int]);
                                lemma_sum_step(d2, exprs_view(b2), c1, iv[j as int], iv[j as int], seq![iv[j as int]], 0);
                                lemma_exprs_view_push(b2, o);
                                assert(exprs_view(b2) + seq![iv[j as int]] =~= exprs_view(b2).push(iv[j as int]));
                            }
                        },
                    }
                    j += 1;
                }
                proof {
                    assert(iv.subrange(0, j as int) =~= iv);
                    lemma_tracks_flatten(done, iv, a[i as int], exprs_view(new_args@), const_sum as int);
                }
            },
            other => {
                new_args.push(other);
                proof {
                    lemma_represents_self(sv);
                    lemma_sum_step(done, exprs_view(before), c0, a[i as int], sv, seq![sv], 0);
                    lemma_exprs_view_push(before, other);
                    assert(exprs_view(before) + seq![sv] =~= exprs_view(before).push(sv));
                }
            },
        }
        i += 1;
    }
    proof {
        assert(a.subrange(0, i as int) =~= a);
        lemma_tracks_finish(a, exprs_view(new_args@), const_sum);
    }
    let ghost rest = exprs_view(new_args@);
    proof {
        lemma_exprs_view(new_args@);
    }
    if new_args.len() == 0 {
        return Expr::Int(const_sum);
    }
    if const_sum != 0 {
        let ghost before = new_args@;
        new_args.push(Expr::Int(const_sum));
        proof {
            lemma_tracks_absorb(a, exprs_view(before), const_sum);
            lemma_exprs_view_push(before, Expr::Int(const_sum));
        }
    }
    proof {
        lemma_tracks_finish(a, exprs_view(new_args@), 0);
        lemma_exprs_view(new_args@);
    }
    if new_args.len() == 1 {
        return new_args.remove(0);
    }
    let ghost unsorted = exprs_view(new_args@);
    let sorted = sort_exprs(new_args);
    proof {
        lemma_tracks_permutation(a, unsorted, exprs_view(sorted@), 0);
        lemma_tracks_finish(a, exprs_view(sorted@), 0);
    }
    let ghost sv = exprs_view(sorted@);
    let res = Expr::Add(sorted);
    proof {
        assert(res@ == SExpr::Add(sv));
        if const_sum != 0 {
            assert(unsorted == rest.push(SExpr::Int(const_sum)));
        } else {
            assert(unsorted == rest);
        }
    }
    res
}

/// The product of `args`, simplified.
fn simplify_product(args: &Vec<Expr>) -> (r: Expr)
    ensures
        same_meaning(SExpr::Mul(exprs_view(args@)), r@),
    decreases args,
{
    let ghost a = exprs_view(args@);
    proof {
        lemma_exprs_view(args@);
        lemma_tracks_start(a);
        assert(exprs_view(Seq::<Expr>::empty()) =~= Seq::<SExpr>::empty());
    }
    let mut new_args: Vec<Expr> = Vec::new();
    let mut const_prod: i64 = 1;
    let mut has_const = false;
    let mut i: usize = 0;
    while i < args.len()
        invariant
            i <= args@.len(),
            a == exprs_view(args@),
            !has_const ==> const_prod == 1,
            product_tracks(a.subrange(0, i as int), exprs_view(new_args@), const_prod as int),
        decreases args@.len() - i,
    {
        proof {
            assert(decreases_to!(args => args@[i as int]));
            lemma_operand(args@, i as int);
        }
        let simplified = simplify_ref(&args[i]);
        let ghost sv = simplified@;
        let ghost before = new_args@;
        let ghost done = a.subrange(0, i as int);
        let ghost c0 = const_prod as int;
        match simplified {
            Expr::Int(0) => {
                proof {
                    lemma_zero_transfer(a[i as int], sv);
                    lemma_zero_operand(a, i as int);
                }
                return Expr::Int(0);
            },
            Expr::Int(1) => {
                proof {
                    lemma_represents_nothing(sv, 1);
                    lemma_product_step(done, exprs_view(before), c0, a[i as int], sv, seq![], 1);
                    assert(exprs_view(before) + seq![] =~= exprs_view(before));
                }
            },
            Expr::Int(val) => match const_prod.checked_mul(val) {
                Some(p) => {
                    const_prod = p;
                    has_const = true;
                    proof {
                        lemma_represents_nothing(sv, val as int);
                        lemma_product_step(done, exprs_view(before), c0, a[i as int], sv, seq![], val as int);
                        assert(exprs_view(before) + seq![] =~= exprs_view(before));
                    }
                },
                None => {
                    new_args.push(Expr::Int(val));
                    proof {
                        lemma_represents_self(sv);
                        lemma_product_step(done, exprs_view(before), c0, a[i as int], sv, seq![sv], 1);
                        lemma_exprs_view_push(before, Expr::Int(val));
                        assert(exprs_view(before) + seq![sv] =~= exprs_view(before).push(sv));
                    }
                },
            },
            Expr::Mul(inner) => {
                let ghost iv = exprs_view(inner@);
                proof {
                    lemma_exprs_view(inner@);
                    assert(done + iv.subrange(0, 0) =~= done);
                }
                let mut j: usize = 0;
                while j < inner.len()
                    invariant
                        j <= inner@.len(),
                        iv == exprs_view(inner@),
                        !has_const ==> const_prod == 1,
                        product_tracks(done + iv.subrange(0, j as int), exprs_view(new_args@), const_prod as int),
                        i < a.len(),
                        a == exprs_view(args@),
                        sv == SExpr::Mul(iv),
                        same_meaning(a[i as int], sv),
                    decreases inner@.len() - j,
                {
                    let ghost b2 = new_args@;
                    let ghost c1 = const_prod as int;
                    let ghost d2 = done + iv.subrange(0, j as int);
                    proof {
                        lemma_operand(inner@, j as int);
                        assert(done + iv.subrange(0, j + 1) =~= d2.push(iv[j as int]));
                    }
                    match &inner[j] {
                        Expr::Int(v) => {
                            if *v == 0 {
                                proof {
                                    lemma_zero_factor(iv, j as int);
                                    lemma_zero_transfer(a[i as int], sv);
                                    lemma_zero_operand(a, i as int);
                                }
                                return Expr::Int(0);
                            }
                            if *v != 1 {
                                match const_prod.checked_mul(*v) {
                                    Some(p) => {
                                        const_prod = p;
                                        has_const = true;
                                        proof {
                                            lemma_represents_nothing(iv[j as int], *v as int);
                                            lemma_product_step(d2, exprs_view(b2), c1, iv[j as int], iv[j as int], seq![], *v as int);
                                            assert(exprs_view(b2) + seq![] =~= exprs_view(b2));
                                        }
                                    },
                                    None => {
                                        new_args.push(Expr::Int(*v));
                                        proof {
                                            lemma_represents_self(iv[j as int]);
                                            lemma_product_step(d2, exprs_view(b2), c1, iv[j as int], iv[j as int], seq![iv[j as int]], 1);
                                            lemma_exprs_view_push(b2, Expr::Int(*v));
                                            assert(exprs_view(b2) + seq![iv[j as int]] =~= exprs_view(b2).push(iv[j as int]));
                                        }
                                    },
                                }
                            } else {
                                proof {
                                    lemma_represents_nothing(iv[j as int], 1);
                                    lemma_product_step(d2, exprs_view(b2), c1, iv[j as int], iv[j as int], seq![], 1);
                                    assert(exprs_view(b2) + seq![] =~= exprs_view(b2));
                                }
                            }
                        },
                        other => {
                            let o = other.clone();
                            new_args.push(o);
                            proof {
                                lemma_represents_self(iv[j as int]);
                                lemma_product_step(d2, exprs_view(b2), c1, iv[j as int], iv[j as int], seq![iv[j as int]], 1);
                                lemma_exprs_view_push(b2, o);
                                assert(exprs_view(b2) + seq![iv[j as int]] =~= exprs_view(b2).push(iv[j as int]));
                            }
                        },
                    }
                    j += 1;
                }
                proof {
                    assert(iv.subrange(0, j as int) =~= iv);
                    lemma_tracks_flatten(done, iv, a[i as int], exprs_view(new_args@), const_prod as int);
                }
            },
            other => {
                new_args.push(other);
                proof {
                    lemma_represents_self(sv);
                    lemma_product_step(done, exprs_view(before), c0, a[i as int], sv, seq![sv], 1);
                    lemma_exprs_view_push(before, other);
                    assert(exprs_view(before) + seq![sv] =~= exprs_view(before).push(sv));
                }
            },
        }
        i += 1;
    }
    proof {
        assert(a.subrange(0, i as int) =~= a);
        lemma_tracks_finish(a, exprs_view(new_args@), const_prod);
    }
    if new_args.len() == 0 {
        return Expr::Int(if has_const { const_prod } else { 1 });
    }
    if const_prod != 1 {
        let ghost before = new_args@;
        new_args.push(Expr::Int(const_prod));
        proof {
            lemma_tracks_absorb(a, exprs_view(before), const_prod);
            lemma_exprs_view_push(before, Expr::Int(const_prod));
        }
    }
    proof {
        lemma_tracks_finish(a, exprs_view(new_args@), 1);
        lemma_exprs_view(new_args@);
    }
    if new_args.len() == 1 {
        return new_args.remove(0);
    }
    let ghost unsorted = exprs_view(new_args@);
    let sorted = sort_exprs(new_args);
    proof {
        lemma_tracks_permutation(a, unsorted, exprs_view(sorted@), 1);
        lemma_tracks_finish(a, exprs_view(sorted@), 1);
    }
    Expr::Mul(sorted)
}

/// The difference of `args`, simplified.
fn simplify_difference(args: &Vec<Expr>) -> (r: Expr)
    ensures
        same_meaning(SExpr::Sub(exprs_view(args@)), r@),
    decreases args,
{
    let ghost a = exprs_view(args@);
    proof {
        lemma_exprs_view(args@);
    }
    if args.len() == 0 {
        proof {
            assert(a =~= Seq::<SExpr>::empty());
            assert forall|base: spec_fn(SExpr) -> TermValue|
                #[trigger] term_value(SExpr::Sub(a), base) != TermValue::Undefined implies
                term_value(SExpr::Int(0), base) == term_value(SExpr::Sub(a), base) by {
                assert(term_values(a, base) =~= Seq::<TermValue>::empty());
            }
        }
        return Expr::Int(0);
    }
    let mut simplified_args: Vec<Expr> = Vec::new();
    let mut i: usize = 0;
    while i < args.len()
        invariant
            i <= args@.len(),
            a == exprs_view(args@),
            a.len() == args@.len(),
            forall|j: int| 0 <= j < args@.len() ==> #[trigger] a[j] == args@[j]@,
            simplified_args@.len() == i,
            forall|j: int| 0 <= j < i ==> same_meaning(a[j], #[trigger] simplified_args@[j]@),
        decreases args@.len() - i,
    {
        proof {
            assert(decreases_to!(args => args@[i as int]));
        }
        let s = simplify_ref(&args[i]);
        simplified_args.push(s);
        i += 1;
    }
    let ghost sv = exprs_view(simplified_args@);
    proof {
        lemma_exprs_view(simplified_args@);
        assert forall|j: int| 0 <= j < a.len() implies same_meaning(a[j], #[trigger] sv[j]) by {
            assert(sv[j] == simplified_args@[j]@);
        }
        lemma_difference(a, sv);
    }
    if simplified_args.len() == 2 {
        if let Expr::Int(0) = &simplified_args[1] {
            return simplified_args.remove(0);
        }
        if simplified_args[0].deep_eq(&simplified_args[1]) {
            return Expr::Int(0);
        }
        if let (Expr::Int(x), Expr::Int(y)) = (&simplified_args[0], &simplified_args[1]) {
            if let Some(d) = x.checked_sub(*y) {
                return Expr::Int(d);
            }
        }
    }
    Expr::Sub(simplified_args)
}

/// The simplified form of `expr` (see [`Simplifier::simplify`]).
#[verifier::loop_isolation(false)]
fn simplify_ref(expr: &Expr) -> (r: Expr)
    ensures
        same_meaning(expr@, r@),
        !simplified_form(expr@) ==> r@ == expr@,
        expr@ is Lt ==> r@ is Bool || r@ is Lt,
        expr@ is Le ==> r@ is Bool || r@ is Le,
        expr@ is Gt ==> r@ is Bool || r@ is Gt,
        expr@ is Ge ==> r@ is Bool || r@ is Ge,
        expr@ is Eq ==> r@ is Bool || r@ is Eq,
        expr@ is Implies ==> r@ is Implies,
        literal_folds(expr@, r@),
    decreases expr,
{
        match expr {
            Expr::And(args) => simplify_and(args),
            Expr::Or(args) => simplify_or(args),
            Expr::Not(inner) => {
                let simplified = simplify_ref(inner);
                proof {
                    lemma_negation((**inner)@, simplified@);
                }
                match simplified {
                    Expr::Bool(b) => Expr::Bool(!b),
                    Expr::Not(double_inner) => *double_inner,
                    other => Expr::Not(Box::new(other)),
                }
            },
            Expr::Add(args) => simplify_sum(args),
            Expr::Sub(args) => simplify_difference(args),
            Expr::Mul(args) => simplify_product(args),
            Expr::Lt(a, b) => {
                let sa = simplify_ref(a);
                let sb = simplify_ref(b);
                proof {
                    lemma_binary((**a)@, (**b)@, sa@, sb@);
                }
                if let (Expr::Int(va), Expr::Int(vb)) = (&sa, &sb) {
                    return Expr::Bool(*va < *vb);
                }
                Expr::Lt(Box::new(sa), Box::new(sb))
            },
            Expr::Le(a, b) => {
                let sa = simplify_ref(a);
                let sb = simplify_ref(b);
                proof {
                    lemma_binary((**a)@, (**b)@, sa@, sb@);
                }
                if let (Expr::Int(va), Expr::Int(vb)) = (&sa, &sb) {
                    return Expr::Bool(*va <= *vb);
                }
                Expr::Le(Box::new(sa), Box::new(sb))
            },
            Expr::Gt(a, b) => {
                let sa = simplify_ref(a);
                let sb = simplify_ref(b);
                proof {
                    lemma_binary((**a)@, (**b)@, sa@, sb@);
                }
                if let (Expr::Int(va), Expr::Int(vb)) = (&sa, &sb) {
                    return Expr::Bool(*va > *vb);
                }
                Expr::Gt(Box::new(sa), Box::new(sb))
            },
            Expr::Ge(a, b) => {
                let sa = simplify_ref(a);
                let sb = simplify_ref(b);
                proof {
                    lemma_binary((**a)@, (**b)@, sa@, sb@);
                }
                if let (Expr::Int(va), Expr::Int(vb)) = (&sa, &sb) {
                    return Expr::Bool(*va >= *vb);
                }
                Expr::Ge(Box::new(sa), Box::new(sb))
            },
            Expr::Eq(a, b) => {
                let sa = simplify_ref(a);
                let sb = simplify_ref(b);
                proof {
                    lemma_binary((**a)@, (**b)@, sa@, sb@);
                }
                if sa.deep_eq(&sb) {
                    return Expr::Bool(true);
                }
                if let (Expr::Bool(va), Expr::Bool(vb)) = (&sa, &sb) {
                    return Expr::Bool(*va == *vb);
                }
                if let (Expr::Int(va), Expr::Int(vb)) = (&sa, &sb) {
                    return Expr::Bool(*va == *vb);
                }
                if expr_order(&sa, &sb) == 1 {
                    Expr::Eq(Box::new(sb), Box::new(sa))
                } else {
                    Expr::Eq(Box::new(sa), Box::new(sb))
                }
            },
            Expr::Implies(a, b) => {
                let sa = simplify_ref(a);
                let sb = simplify_ref(b);
                proof {
                    lemma_binary((**a)@, (**b)@, sa@, sb@);
                }
                Expr::Implies(Box::new(sa), Box::new(sb))
            },
            Expr::Ite(c, t, e) => {
                let sc = simplify_ref(c);
                if let Expr::Bool(val) = sc {
                    if val {
                        let st = simplify_ref(t);
                        proof {
                            lemma_conditional((**c)@, (**t)@, (**e)@, sc@, st@, st@);
                        }
                        return st;
                    } else {
                        let se = simplify_ref(e);
                        proof {
                            lemma_conditional((**c)@, (**t)@, (**e)@, sc@, se@, se@);
                        }
                        return se;
                    }
                }
                let st = simplify_ref(t);
                let se = simplify_ref(e);
                proof {
                    lemma_conditional((**c)@, (**t)@, (**e)@, sc@, st@, se@);
                }
                Expr::Ite(Box::new(sc), Box::new(st), Box::new(se))
            },
            _ => expr.clone(),
        }
}

/// For a conjunction: the equations `x = t` (with `x` not in `t`) are removed and `x`
/// is replaced by `t` in the remaining conjuncts.
pub fn solve_eqs(expr: Expr) -> (r: Expr)
    ensures
        !(expr@ is And) ==> r@ == expr@,
        expr@ is And ==> r@ is And,
{
    match expr {
        Expr::And(args) => {
            let mut substs = Bindings::new();
            let mut remaining: Vec<Expr> = Vec::new();
            let mut i: usize = 0;
            while i < args.len()
                invariant
                    i <= args@.len(),
                decreases args@.len() - i,
            {
                let arg = &args[i];
                let mut handled = false;
                if let Expr::Eq(a, b) = arg {
                    if let Expr::Var(name, _) = &**a {
                        if !(**b).contains_var(name.as_str()) {
                            substs.insert(name.clone(), (**b).clone());
                            handled = true;
                        }
                    }
                    if !handled {
                        if let Expr::Var(name, _) = &**b {
                            if !(**a).contains_var(name.as_str()) {
                                substs.insert(name.clone(), (**a).clone());
                                handled = true;
                            }
                        }
                    }
                }
                if !handled {
                    remaining.push(arg.clone());
                }
                i += 1;
            }
            if substs.is_empty() {
                return Expr::And(remaining);
            }
            let mut finalized: Vec<Expr> = Vec::new();
            let mut j: usize = 0;
            while j < remaining.len()
                invariant
                    j <= remaining@.len(),
                    finalized@.len() == j,
                decreases remaining@.len() - j,
            {
                finalized.push(remaining[j].substitute(&substs));
                j += 1;
            }
            Expr::And(finalized)
        },
        other => other,
    }
}

/// A pipeline of tactics applied in order.
pub struct TacticEngine {
    pub tactics: Vec<Box<dyn Tactic>>,
}

impl TacticEngine {
    pub fn new() -> (r: TacticEngine)
        ensures
            r.tactics@.len() == 0,
    {
        TacticEngine { tactics: Vec::new() }
    }

    pub fn add_tactic(&mut self, tactic: Box<dyn Tactic>)
        ensures
            final(self).tactics@ == old(self).tactics@.push(tactic),
            final(self).tactics@.len() == old(self).tactics@.len() + 1,
    {
        let ghost before = self.tactics@;
        self.tactics.push(tactic);
        proof {
            vstd::seq::axiom_seq_push_len(before, tactic);
        }
    }

    /// `expr` transformed by each tactic in turn.
    pub fn apply(&self, expr: Expr) -> (r: Expr)
        ensures
            self.tactics@.len() == 0 ==> r == expr,
    {
        let ghost input = expr;
        let mut cur = expr;
        let mut i: usize = 0;
        while i < self.tactics.len()
            invariant
                i <= self.tactics@.len(),
                self.tactics@.len() == 0 ==> cur == input,
            decreases self.tactics@.len() - i,
        {
            cur = self.tactics[i].apply(cur);
            i += 1;
        }
        cur
    }
}

} // verus!
