//! The meaning of boolean and integer terms: the value that a term takes once every term
//! that is not built from constants, connectives, comparisons and integer arithmetic has
//! been given a value.
use vstd::prelude::*;
use vstd::seq_lib::{commutative_foldl, lemma_fold_left_permutation};
use crate::ast::SExpr;

verus! {

broadcast use vstd::seq_lib::group_to_multiset_ensures;

/// The value of a term: a truth value, an integer, or none (an ill-sorted term).
pub enum TermValue {
    Bool(bool),
    Int(int),
    Undefined,
}

/// The integer of a value (0 for any other).
pub open spec fn int_of(v: TermValue) -> int {
    match v {
        TermValue::Int(i) => i,
        _ => 0,
    }
}

/// One step of a sum: the integer of `v` added.
pub open spec fn sum_step() -> spec_fn(int, TermValue) -> int {
    |acc: int, v: TermValue| acc + int_of(v)
}

/// One step of a product: multiplied by the integer of `v`.
pub open spec fn product_step() -> spec_fn(int, TermValue) -> int {
    |acc: int, v: TermValue| acc * int_of(v)
}

/// The sum of the integers of `vs`.
pub open spec fn int_sum(vs: Seq<TermValue>) -> int {
    vs.fold_left(0int, sum_step())
}

/// The product of the integers of `vs`.
pub open spec fn int_product(vs: Seq<TermValue>) -> int {
    vs.fold_left(1int, product_step())
}

/// `- v0` for one value, `v0 - v1 - ... - vn` for more, 0 for none.
pub open spec fn int_difference(vs: Seq<TermValue>) -> int {
    if vs.len() == 0 {
        0
    } else if vs.len() == 1 {
        -int_of(vs[0])
    } else {
        int_of(vs[0]) - int_sum(vs.subrange(1, vs.len() as int))
    }
}

/// Every value is an integer.
pub open spec fn all_int(vs: Seq<TermValue>) -> bool {
    forall|i: int| 0 <= i < vs.len() ==> #[trigger] vs[i] is Int
}

/// Every value is a truth value.
pub open spec fn all_bool(vs: Seq<TermValue>) -> bool {
    forall|i: int| 0 <= i < vs.len() ==> #[trigger] vs[i] is Bool
}

/// Every value is true.
pub open spec fn all_true(vs: Seq<TermValue>) -> bool {
    forall|i: int| 0 <= i < vs.len() ==> #[trigger] vs[i] == TermValue::Bool(true)
}

/// Some value is true.
pub open spec fn some_true(vs: Seq<TermValue>) -> bool {
    exists|i: int| 0 <= i < vs.len() && #[trigger] vs[i] == TermValue::Bool(true)
}

/// An integer comparison of two values, when both are integers.
pub open spec fn compare_ints(op: int, a: TermValue, b: TermValue) -> TermValue {
    match (a, b) {
        (TermValue::Int(x), TermValue::Int(y)) => TermValue::Bool(
            if op == 0 { x < y } else if op == 1 { x <= y } else if op == 2 { x > y } else { x >= y },
        ),
        _ => TermValue::Undefined,
    }
}

/// The value of `e` where every term other than a constant, `and`, `or`, `not`, `=>`,
/// `ite`, `=`, `<`, `<=`, `>`, `>=`, `+`, `-` and `*` has the value `base` gives it.
/// Connectives take truth values, arithmetic and comparisons take integers, `=` takes two
/// values of one sort, and `ite` the value of the branch its condition selects; any other
/// combination has no value.
pub open spec fn term_value(e: SExpr, base: spec_fn(SExpr) -> TermValue) -> TermValue
    decreases e,
{
    match e {
        SExpr::Bool(b) => TermValue::Bool(b),
        SExpr::Int(i) => TermValue::Int(i as int),
        SExpr::And(args) => {
            let vs = term_values(args, base);
            if all_bool(vs) { TermValue::Bool(all_true(vs)) } else { TermValue::Undefined }
        },
        SExpr::Or(args) => {
            let vs = term_values(args, base);
            if all_bool(vs) { TermValue::Bool(some_true(vs)) } else { TermValue::Undefined }
        },
        SExpr::Not(a) => match term_value(*a, base) {
            TermValue::Bool(x) => TermValue::Bool(!x),
            _ => TermValue::Undefined,
        },
        SExpr::Implies(a, b) => match (term_value(*a, base), term_value(*b, base)) {
            (TermValue::Bool(x), TermValue::Bool(y)) => TermValue::Bool(!x || y),
            _ => TermValue::Undefined,
        },
        SExpr::Ite(c, t, f) => match term_value(*c, base) {
            TermValue::Bool(true) => term_value(*t, base),
            TermValue::Bool(false) => term_value(*f, base),
            _ => TermValue::Undefined,
        },
        SExpr::Eq(a, b) => match (term_value(*a, base), term_value(*b, base)) {
            (TermValue::Int(x), TermValue::Int(y)) => TermValue::Bool(x == y),
            (TermValue::Bool(x), TermValue::Bool(y)) => TermValue::Bool(x == y),
            _ => TermValue::Undefined,
        },
        SExpr::Lt(a, b) => compare_ints(0, term_value(*a, base), term_value(*b, base)),
        SExpr::Le(a, b) => compare_ints(1, term_value(*a, base), term_value(*b, base)),
        SExpr::Gt(a, b) => compare_ints(2, term_value(*a, base), term_value(*b, base)),
        SExpr::Ge(a, b) => compare_ints(3, term_value(*a, base), term_value(*b, base)),
        SExpr::Add(args) => {
            let vs = term_values(args, base);
            if all_int(vs) { TermValue::Int(int_sum(vs)) } else { TermValue::Undefined }
        },
        SExpr::Sub(args) => {
            let vs = term_values(args, base);
            if all_int(vs) { TermValue::Int(int_difference(vs)) } else { TermValue::Undefined }
        },
        SExpr::Mul(args) => {
            let vs = term_values(args, base);
            if all_int(vs) { TermValue::Int(int_product(vs)) } else { TermValue::Undefined }
        },
        _ => base(e),
    }
}

/// The values of a sequence of terms.
pub open spec fn term_values(s: Seq<SExpr>, base: spec_fn(SExpr) -> TermValue) -> Seq<TermValue>
    decreases s,
{
    if s.len() == 0 {
        seq![]
    } else {
        term_values(s.drop_last(), base).push(term_value(s.last(), base))
    }
}

pub proof fn lemma_values_push(s: Seq<SExpr>, x: SExpr, base: spec_fn(SExpr) -> TermValue)
    ensures
        term_values(s.push(x), base) == term_values(s, base).push(term_value(x, base)),
{
    assert(s.push(x).drop_last() =~= s);
}

pub proof fn lemma_values_append(a: Seq<SExpr>, b: Seq<SExpr>, base: spec_fn(SExpr) -> TermValue)
    ensures
        term_values(a + b, base) == term_values(a, base) + term_values(b, base),
{
    lemma_term_values(a, base);
    lemma_term_values(b, base);
    lemma_term_values(a + b, base);
    assert(term_values(a + b, base) =~= term_values(a, base) + term_values(b, base));
}

/// How each summary of a sequence of values changes when a value is added at the end.
pub proof fn lemma_summaries_push(vs: Seq<TermValue>, v: TermValue)
    ensures
        all_bool(vs.push(v)) == (all_bool(vs) && v is Bool),
        all_true(vs.push(v)) == (all_true(vs) && v == TermValue::Bool(true)),
        some_true(vs.push(v)) == (some_true(vs) || v == TermValue::Bool(true)),
        all_int(vs.push(v)) == (all_int(vs) && v is Int),
        int_sum(vs.push(v)) == int_sum(vs) + int_of(v),
        int_product(vs.push(v)) == int_product(vs) * int_of(v),
{
    let w = vs.push(v);
    assert(w.drop_last() =~= vs);
    assert(w[vs.len() as int] == v);
    assert(w.last() == v);
    assert(w.fold_left(0int, sum_step()) == (sum_step())(vs.fold_left(0int, sum_step()), v));
    assert(w.fold_left(1int, product_step()) == (product_step())(vs.fold_left(1int, product_step()), v));
    assert(forall|i: int| 0 <= i < vs.len() ==> #[trigger] w[i] == vs[i]);
    if some_true(vs) {
        let i = choose|i: int| 0 <= i < vs.len() && #[trigger] vs[i] == TermValue::Bool(true);
        assert(w[i] == TermValue::Bool(true));
    }
    if some_true(w) && v != TermValue::Bool(true) {
        let i = choose|i: int| 0 <= i < w.len() && #[trigger] w[i] == TermValue::Bool(true);
        assert(vs[i] == TermValue::Bool(true));
    }
}

/// The boolean summaries of a concatenation.
pub proof fn lemma_summaries_append(a: Seq<TermValue>, b: Seq<TermValue>)
    ensures
        all_bool(a + b) == (all_bool(a) && all_bool(b)),
        all_true(a + b) == (all_true(a) && all_true(b)),
        some_true(a + b) == (some_true(a) || some_true(b)),
{
    let w = a + b;
    assert(forall|i: int| 0 <= i < a.len() ==> #[trigger] w[i] == a[i]);
    assert(forall|i: int| 0 <= i < b.len() ==> #[trigger] w[a.len() + i] == b[i]);
    if all_bool(a) && all_bool(b) {
        assert forall|i: int| 0 <= i < w.len() implies #[trigger] w[i] is Bool by {
            if i >= a.len() {
                assert(w[a.len() + (i - a.len())] == b[i - a.len()]);
            }
        }
    }
    if all_true(a) && all_true(b) {
        assert forall|i: int| 0 <= i < w.len() implies #[trigger] w[i] == TermValue::Bool(true) by {
            if i >= a.len() {
                assert(w[a.len() + (i - a.len())] == b[i - a.len()]);
            }
        }
    }
    if some_true(a) {
        let i = choose|i: int| 0 <= i < a.len() && #[trigger] a[i] == TermValue::Bool(true);
        assert(w[i] == TermValue::Bool(true));
    }
    if some_true(b) {
        let i = choose|i: int| 0 <= i < b.len() && #[trigger] b[i] == TermValue::Bool(true);
        assert(w[a.len() + i] == TermValue::Bool(true));
    }
    if some_true(w) {
        let i = choose|i: int| 0 <= i < w.len() && #[trigger] w[i] == TermValue::Bool(true);
        if i < a.len() {
            assert(a[i] == TermValue::Bool(true));
        } else {
            assert(w[a.len() + (i - a.len())] == b[i - a.len()]);
            assert(b[i - a.len()] == TermValue::Bool(true));
        }
    }
    if all_bool(w) {
        assert forall|i: int| 0 <= i < b.len() implies #[trigger] b[i] is Bool by {
            assert(w[a.len() + i] == b[i]);
        }
        assert forall|i: int| 0 <= i < a.len() implies #[trigger] a[i] is Bool by {
            assert(w[i] == a[i]);
        }
    }
    if all_true(w) {
        assert forall|i: int| 0 <= i < b.len() implies #[trigger] b[i] == TermValue::Bool(true) by {
            assert(w[a.len() + i] == b[i]);
        }
        assert forall|i: int| 0 <= i < a.len() implies #[trigger] a[i] == TermValue::Bool(true) by {
            assert(w[i] == a[i]);
        }
    }
}

/// Two sequences with the same elements have the same boolean summaries.
pub proof fn lemma_values_same_elements(s1: Seq<SExpr>, s2: Seq<SExpr>, base: spec_fn(SExpr) -> TermValue)
    requires
        forall|x: SExpr| s1.contains(x) <==> s2.contains(x),
    ensures
        all_bool(term_values(s1, base)) == all_bool(term_values(s2, base)),
        all_true(term_values(s1, base)) == all_true(term_values(s2, base)),
        some_true(term_values(s1, base)) == some_true(term_values(s2, base)),
{
    lemma_same_elements_one_way(s1, s2, base);
    lemma_same_elements_one_way(s2, s1, base);
}

proof fn lemma_same_elements_one_way(s1: Seq<SExpr>, s2: Seq<SExpr>, base: spec_fn(SExpr) -> TermValue)
    requires
        forall|x: SExpr| s1.contains(x) <==> s2.contains(x),
    ensures
        all_bool(term_values(s1, base)) ==> all_bool(term_values(s2, base)),
        all_true(term_values(s1, base)) ==> all_true(term_values(s2, base)),
        some_true(term_values(s1, base)) ==> some_true(term_values(s2, base)),
{
    lemma_term_values(s1, base);
    lemma_term_values(s2, base);
    let v1 = term_values(s1, base);
    let v2 = term_values(s2, base);
    if all_bool(v1) {
        assert forall|i: int| 0 <= i < v2.len() implies #[trigger] v2[i] is Bool by {
            assert(s2.contains(s2[i]));
            let j = choose|j: int| 0 <= j < s1.len() && s1[j] == s2[i];
            assert(v1[j] == v2[i]);
        }
    }
    if all_true(v1) {
        assert forall|i: int| 0 <= i < v2.len() implies #[trigger] v2[i] == TermValue::Bool(true) by {
            assert(s2.contains(s2[i]));
            let j = choose|j: int| 0 <= j < s1.len() && s1[j] == s2[i];
            assert(v1[j] == v2[i]);
        }
    }
    if some_true(v1) {
        let i = choose|i: int| 0 <= i < v1.len() && #[trigger] v1[i] == TermValue::Bool(true);
        assert(s1.contains(s1[i]));
        let j = choose|j: int| 0 <= j < s2.len() && s2[j] == s1[i];
        assert(v2[j] == TermValue::Bool(true));
    }
}

pub proof fn lemma_sum_append(x: Seq<TermValue>, y: Seq<TermValue>)
    ensures
        int_sum(x + y) == int_sum(x) + int_sum(y),
        int_product(x + y) == int_product(x) * int_product(y),
        all_int(x + y) == (all_int(x) && all_int(y)),
    decreases y.len(),
{
    if y.len() == 0 {
        assert(x + y =~= x);
        assert(int_product(y) == 1);
        assert(int_product(x + y) == int_product(x) * int_product(y));
    } else {
        let y0 = y.drop_last();
        lemma_sum_append(x, y0);
        assert(x + y =~= (x + y0).push(y.last()));
        assert(y =~= y0.push(y.last()));
        lemma_summaries_push(x + y0, y.last());
        lemma_summaries_push(y0, y.last());
        let px = int_product(x);
        let py0 = int_product(y0);
        let l = int_of(y.last());
        assert(px * py0 * l == px * (py0 * l)) by (nonlinear_arith);
        assert(int_product(x + y) == int_product(x + y0) * l);
        assert(int_product(y) == py0 * l);
        assert(int_product(x + y0) == px * py0);
        assert(int_product(x + y) == px * int_product(y));
    }
}

/// A product of integers with a zero factor is zero.
pub proof fn lemma_product_zero(vs: Seq<TermValue>, k: int)
    requires
        0 <= k < vs.len(),
        vs[k] == TermValue::Int(0),
    ensures
        int_product(vs) == 0,
    decreases vs.len(),
{
    let v0 = vs.drop_last();
    assert(vs =~= v0.push(vs.last()));
    lemma_summaries_push(v0, vs.last());
    if k < vs.len() - 1 {
        assert(v0[k] == vs[k]);
        lemma_product_zero(v0, k);
        let l = int_of(vs.last());
        assert(0 * l == 0) by (nonlinear_arith);
    } else {
        assert(vs.last() == vs[k]);
        let p = int_product(v0);
        assert(p * 0 == 0) by (nonlinear_arith);
    }
}

/// `acc` and the constant `c` stand for the sum of `done`: wherever the terms of `done` are
/// all integers, so are those of `acc`, and their sum plus `c` is that of `done`.
pub open spec fn sum_tracks(done: Seq<SExpr>, acc: Seq<SExpr>, c: int) -> bool {
    forall|base: spec_fn(SExpr) -> TermValue| #[trigger] all_int(term_values(done, base)) ==>
        all_int(term_values(acc, base)) && int_sum(term_values(acc, base)) + c == int_sum(term_values(done, base))
}

/// `acc` and the factor `c` stand for the product of `done`.
pub open spec fn product_tracks(done: Seq<SExpr>, acc: Seq<SExpr>, c: int) -> bool {
    forall|base: spec_fn(SExpr) -> TermValue| #[trigger] all_int(term_values(done, base)) ==>
        all_int(term_values(acc, base)) && int_product(term_values(acc, base)) * c == int_product(term_values(done, base))
}

/// `acc` stands for the conjunction of `done`.
pub open spec fn and_tracks(done: Seq<SExpr>, acc: Seq<SExpr>) -> bool {
    forall|base: spec_fn(SExpr) -> TermValue| #[trigger] all_bool(term_values(done, base)) ==>
        all_bool(term_values(acc, base)) && all_true(term_values(acc, base)) == all_true(term_values(done, base))
}

/// `acc` stands for the disjunction of `done`.
pub open spec fn or_tracks(done: Seq<SExpr>, acc: Seq<SExpr>) -> bool {
    forall|base: spec_fn(SExpr) -> TermValue| #[trigger] all_bool(term_values(done, base)) ==>
        all_bool(term_values(acc, base)) && some_true(term_values(acc, base)) == some_true(term_values(done, base))
}

/// The terms `added` and the constant `d` stand for the integer term `s`.
pub open spec fn sum_represents(s: SExpr, added: Seq<SExpr>, d: int) -> bool {
    forall|base: spec_fn(SExpr) -> TermValue| #[trigger] term_value(s, base) is Int ==>
        all_int(term_values(added, base)) && int_sum(term_values(added, base)) + d == int_of(term_value(s, base))
}

/// The terms `added` and the factor `d` stand for the integer term `s`.
pub open spec fn product_represents(s: SExpr, added: Seq<SExpr>, d: int) -> bool {
    forall|base: spec_fn(SExpr) -> TermValue| #[trigger] term_value(s, base) is Int ==>
        all_int(term_values(added, base)) && int_product(term_values(added, base)) * d == int_of(term_value(s, base))
}

/// The terms `added` stand for the truth value of `s` as conjuncts.
pub open spec fn and_represents(s: SExpr, added: Seq<SExpr>) -> bool {
    forall|base: spec_fn(SExpr) -> TermValue| #[trigger] term_value(s, base) is Bool ==>
        all_bool(term_values(added, base)) && all_true(term_values(added, base)) == (term_value(s, base) == TermValue::Bool(true))
}

/// The terms `added` stand for the truth value of `s` as disjuncts.
pub open spec fn or_represents(s: SExpr, added: Seq<SExpr>) -> bool {
    forall|base: spec_fn(SExpr) -> TermValue| #[trigger] term_value(s, base) is Bool ==>
        all_bool(term_values(added, base)) && some_true(term_values(added, base)) == (term_value(s, base) == TermValue::Bool(true))
}

pub proof fn lemma_sum_step(done: Seq<SExpr>, acc: Seq<SExpr>, c: int, x: SExpr, s: SExpr, added: Seq<SExpr>, d: int)
    requires
        sum_tracks(done, acc, c),
        same_meaning(x, s),
        sum_represents(s, added, d),
    ensures
        sum_tracks(done.push(x), acc + added, c + d),
{
    assert forall|base: spec_fn(SExpr) -> TermValue| #[trigger] all_int(term_values(done.push(x), base)) implies
        all_int(term_values(acc + added, base)) && int_sum(term_values(acc + added, base)) + (c + d)
            == int_sum(term_values(done.push(x), base)) by {
        lemma_values_push(done, x, base);
        lemma_summaries_push(term_values(done, base), term_value(x, base));
        assert(all_int(term_values(done, base)));
        assert(term_value(s, base) == term_value(x, base));
        lemma_values_append(acc, added, base);
        lemma_sum_append(term_values(acc, base), term_values(added, base));
    }
}

pub proof fn lemma_product_step(done: Seq<SExpr>, acc: Seq<SExpr>, c: int, x: SExpr, s: SExpr, added: Seq<SExpr>, d: int)
    requires
        product_tracks(done, acc, c),
        same_meaning(x, s),
        product_represents(s, added, d),
    ensures
        product_tracks(done.push(x), acc + added, c * d),
{
    assert forall|base: spec_fn(SExpr) -> TermValue| #[trigger] all_int(term_values(done.push(x), base)) implies
        all_int(term_values(acc + added, base)) && int_product(term_values(acc + added, base)) * (c * d)
            == int_product(term_values(done.push(x), base)) by {
        lemma_values_push(done, x, base);
        lemma_summaries_push(term_values(done, base), term_value(x, base));
        assert(all_int(term_values(done, base)));
        assert(term_value(s, base) == term_value(x, base));
        lemma_values_append(acc, added, base);
        lemma_sum_append(term_values(acc, base), term_values(added, base));
        let pa = int_product(term_values(acc, base));
        let pd = int_product(term_values(added, base));
        assert(pa * pd * (c * d) == (pa * c) * (pd * d)) by (nonlinear_arith);
    }
}

pub proof fn lemma_and_step(done: Seq<SExpr>, acc: Seq<SExpr>, x: SExpr, s: SExpr, added: Seq<SExpr>)
    requires
        and_tracks(done, acc),
        same_meaning(x, s),
        and_represents(s, added),
    ensures
        and_tracks(done.push(x), acc + added),
{
    assert forall|base: spec_fn(SExpr) -> TermValue| #[trigger] all_bool(term_values(done.push(x), base)) implies
        all_bool(term_values(acc + added, base)) && all_true(term_values(acc + added, base))
            == all_true(term_values(done.push(x), base)) by {
        lemma_values_push(done, x, base);
        lemma_summaries_push(term_values(done, base), term_value(x, base));
        assert(all_bool(term_values(done, base)));
        assert(term_value(s, base) == term_value(x, base));
        lemma_values_append(acc, added, base);
        lemma_summaries_append(term_values(acc, base), term_values(added, base));
    }
}

pub proof fn lemma_or_step(done: Seq<SExpr>, acc: Seq<SExpr>, x: SExpr, s: SExpr, added: Seq<SExpr>)
    requires
        or_tracks(done, acc),
        same_meaning(x, s),
        or_represents(s, added),
    ensures
        or_tracks(done.push(x), acc + added),
{
    assert forall|base: spec_fn(SExpr) -> TermValue| #[trigger] all_bool(term_values(done.push(x), base)) implies
        all_bool(term_values(acc + added, base)) && some_true(term_values(acc + added, base))
            == some_true(term_values(done.push(x), base)) by {
        lemma_values_push(done, x, base);
        lemma_summaries_push(term_values(done, base), term_value(x, base));
        assert(all_bool(term_values(done, base)));
        assert(term_value(s, base) == term_value(x, base));
        lemma_values_append(acc, added, base);
        lemma_summaries_append(term_values(acc, base), term_values(added, base));
    }
}

/// A single term stands for itself.
pub proof fn lemma_represents_self(s: SExpr)
    ensures
        sum_represents(s, seq![s], 0),
        product_represents(s, seq![s], 1),
        and_represents(s, seq![s]),
        or_represents(s, seq![s]),
{
    assert forall|base: spec_fn(SExpr) -> TermValue| #[trigger] term_value(s, base) is Int || term_value(s, base) is Bool
        implies term_values(seq![s], base) == seq![term_value(s, base)] by {
        lemma_values_push(seq![], s, base);
        assert(seq![s] =~= Seq::<SExpr>::empty().push(s));
        assert(term_values(Seq::<SExpr>::empty(), base) =~= Seq::<TermValue>::empty());
        lemma_summaries_push(Seq::<TermValue>::empty(), term_value(s, base));
        assert(seq![term_value(s, base)] =~= Seq::<TermValue>::empty().push(term_value(s, base)));
    }
    assert forall|base: spec_fn(SExpr) -> TermValue| #[trigger] term_value(s, base) is Int implies
        all_int(term_values(seq![s], base)) && int_sum(term_values(seq![s], base)) + 0 == int_of(term_value(s, base))
            && int_product(term_values(seq![s], base)) * 1 == int_of(term_value(s, base)) by {
        assert(term_values(seq![s], base) == seq![term_value(s, base)]);
        lemma_summaries_push(Seq::<TermValue>::empty(), term_value(s, base));
        assert(seq![term_value(s, base)] =~= Seq::<TermValue>::empty().push(term_value(s, base)));
    }
    assert forall|base: spec_fn(SExpr) -> TermValue| #[trigger] term_value(s, base) is Bool implies
        all_bool(term_values(seq![s], base))
            && all_true(term_values(seq![s], base)) == (term_value(s, base) == TermValue::Bool(true))
            && some_true(term_values(seq![s], base)) == (term_value(s, base) == TermValue::Bool(true)) by {
        assert(term_values(seq![s], base) == seq![term_value(s, base)]);
        lemma_summaries_push(Seq::<TermValue>::empty(), term_value(s, base));
        assert(seq![term_value(s, base)] =~= Seq::<TermValue>::empty().push(term_value(s, base)));
    }
}

/// The operands of a sum, product, conjunction or disjunction stand for it.
pub proof fn lemma_represents_operands(args: Seq<SExpr>)
    ensures
        sum_represents(SExpr::Add(args), args, 0),
        product_represents(SExpr::Mul(args), args, 1),
        and_represents(SExpr::And(args), args),
        or_represents(SExpr::Or(args), args),
{
}

/// No term at all stands for the neutral constants.
pub proof fn lemma_represents_nothing(s: SExpr, k: int)
    ensures
        s == SExpr::Int(k as i64) && i64::MIN <= k <= i64::MAX ==> sum_represents(s, seq![], k),
        s == SExpr::Int(k as i64) && i64::MIN <= k <= i64::MAX ==> product_represents(s, seq![], k),
        s == SExpr::Bool(true) ==> and_represents(s, seq![]),
        s == SExpr::Bool(false) ==> or_represents(s, seq![]),
{
    assert forall|base: spec_fn(SExpr) -> TermValue| term_values(seq![], base) =~= Seq::<TermValue>::empty() by {}
}

/// Any sequence with the same elements stands for a conjunction or disjunction as well.
pub proof fn lemma_tracks_same_elements(a: Seq<SExpr>, n: Seq<SExpr>, m: Seq<SExpr>)
    requires
        forall|x: SExpr| n.contains(x) <==> m.contains(x),
    ensures
        and_tracks(a, n) ==> and_tracks(a, m),
        or_tracks(a, n) ==> or_tracks(a, m),
{
    assert forall|base: spec_fn(SExpr) -> TermValue| #![trigger term_values(m, base)] true implies
        all_bool(term_values(n, base)) == all_bool(term_values(m, base))
        && all_true(term_values(n, base)) == all_true(term_values(m, base))
        && some_true(term_values(n, base)) == some_true(term_values(m, base)) by {
        lemma_values_same_elements(n, m, base);
    }
    if and_tracks(a, n) {
        assert forall|base: spec_fn(SExpr) -> TermValue| #[trigger] all_bool(term_values(a, base)) implies
            all_bool(term_values(m, base)) && all_true(term_values(m, base)) == all_true(term_values(a, base)) by {
            lemma_values_same_elements(n, m, base);
        }
    }
    if or_tracks(a, n) {
        assert forall|base: spec_fn(SExpr) -> TermValue| #[trigger] all_bool(term_values(a, base)) implies
            all_bool(term_values(m, base)) && some_true(term_values(m, base)) == some_true(term_values(a, base)) by {
            lemma_values_same_elements(n, m, base);
        }
    }
}

/// Any permutation stands for a sum or product as well.
pub proof fn lemma_tracks_permutation(a: Seq<SExpr>, n: Seq<SExpr>, m: Seq<SExpr>, c: int)
    requires
        n.to_multiset() == m.to_multiset(),
    ensures
        sum_tracks(a, n, c) ==> sum_tracks(a, m, c),
        product_tracks(a, n, c) ==> product_tracks(a, m, c),
{
    if sum_tracks(a, n, c) {
        assert forall|base: spec_fn(SExpr) -> TermValue| #[trigger] all_int(term_values(a, base)) implies
            all_int(term_values(m, base)) && int_sum(term_values(m, base)) + c == int_sum(term_values(a, base)) by {
            lemma_values_permutation(n, m, base);
        }
    }
    if product_tracks(a, n, c) {
        assert forall|base: spec_fn(SExpr) -> TermValue| #[trigger] all_int(term_values(a, base)) implies
            all_int(term_values(m, base)) && int_product(term_values(m, base)) * c == int_product(term_values(a, base)) by {
            lemma_values_permutation(n, m, base);
        }
    }
}

/// A constant term joins the tracked terms.
pub proof fn lemma_tracks_absorb(a: Seq<SExpr>, n: Seq<SExpr>, c: i64)
    ensures
        sum_tracks(a, n, c as int) ==> sum_tracks(a, n.push(SExpr::Int(c)), 0),
        product_tracks(a, n, c as int) ==> product_tracks(a, n.push(SExpr::Int(c)), 1),
{
    assert forall|base: spec_fn(SExpr) -> TermValue| #![trigger term_values(n.push(SExpr::Int(c)), base)] true implies
        term_values(n.push(SExpr::Int(c)), base) == term_values(n, base).push(TermValue::Int(c as int)) by {
        lemma_values_push(n, SExpr::Int(c), base);
    }
    if sum_tracks(a, n, c as int) {
        assert forall|base: spec_fn(SExpr) -> TermValue| #[trigger] all_int(term_values(a, base)) implies
            all_int(term_values(n.push(SExpr::Int(c)), base))
                && int_sum(term_values(n.push(SExpr::Int(c)), base)) + 0 == int_sum(term_values(a, base)) by {
            lemma_values_push(n, SExpr::Int(c), base);
            lemma_summaries_push(term_values(n, base), TermValue::Int(c as int));
        }
    }
    if product_tracks(a, n, c as int) {
        assert forall|base: spec_fn(SExpr) -> TermValue| #[trigger] all_int(term_values(a, base)) implies
            all_int(term_values(n.push(SExpr::Int(c)), base))
                && int_product(term_values(n.push(SExpr::Int(c)), base)) * 1 == int_product(term_values(a, base)) by {
            lemma_values_push(n, SExpr::Int(c), base);
            lemma_summaries_push(term_values(n, base), TermValue::Int(c as int));
        }
    }
}

/// What the tracked terms give at the end.
pub proof fn lemma_tracks_finish(a: Seq<SExpr>, m: Seq<SExpr>, c: i64)
    ensures
        sum_tracks(a, m, 0) ==> same_meaning(SExpr::Add(a), SExpr::Add(m)),
        sum_tracks(a, m, 0) && m.len() == 1 ==> same_meaning(SExpr::Add(a), m[0]),
        sum_tracks(a, m, c as int) && m.len() == 0 ==> same_meaning(SExpr::Add(a), SExpr::Int(c)),
        product_tracks(a, m, 1) ==> same_meaning(SExpr::Mul(a), SExpr::Mul(m)),
        product_tracks(a, m, 1) && m.len() == 1 ==> same_meaning(SExpr::Mul(a), m[0]),
        product_tracks(a, m, c as int) && m.len() == 0 ==> same_meaning(SExpr::Mul(a), SExpr::Int(c)),
        and_tracks(a, m) ==> same_meaning(SExpr::And(a), SExpr::And(m)),
        and_tracks(a, m) && m.len() == 1 ==> same_meaning(SExpr::And(a), m[0]),
        and_tracks(a, m) && m.len() == 0 ==> same_meaning(SExpr::And(a), SExpr::Bool(true)),
        or_tracks(a, m) ==> same_meaning(SExpr::Or(a), SExpr::Or(m)),
        or_tracks(a, m) && m.len() == 1 ==> same_meaning(SExpr::Or(a), m[0]),
        or_tracks(a, m) && m.len() == 0 ==> same_meaning(SExpr::Or(a), SExpr::Bool(false)),
{
    assert forall|base: spec_fn(SExpr) -> TermValue| #![trigger term_values(m, base)] m.len() <= 1 implies
        term_values(m, base) == (if m.len() == 0 { Seq::<TermValue>::empty() } else { seq![term_value(m[0], base)] }) by {
        lemma_term_values(m, base);
        if m.len() == 0 {
            assert(term_values(m, base) =~= Seq::<TermValue>::empty());
        } else {
            assert(term_values(m, base) =~= seq![term_value(m[0], base)]);
        }
    }
    assert forall|v: TermValue| #![trigger seq![v]] true implies
        all_int(seq![v]) == (v is Int) && all_bool(seq![v]) == (v is Bool)
        && all_true(seq![v]) == (v == TermValue::Bool(true)) && some_true(seq![v]) == (v == TermValue::Bool(true))
        && int_sum(seq![v]) == int_of(v) && int_product(seq![v]) == int_of(v) by {
        lemma_summaries_push(Seq::<TermValue>::empty(), v);
        assert(seq![v] =~= Seq::<TermValue>::empty().push(v));
    }
    assert(all_int(Seq::<TermValue>::empty()) && all_bool(Seq::<TermValue>::empty())
        && all_true(Seq::<TermValue>::empty()) && !some_true(Seq::<TermValue>::empty())
        && int_sum(Seq::<TermValue>::empty()) == 0 && int_product(Seq::<TermValue>::empty()) == 1);
    if m.len() == 1 {
        assert forall|base: spec_fn(SExpr) -> TermValue| #![trigger term_value(m[0], base)] true implies
            term_values(m, base) == seq![term_value(m[0], base)] by {}
    }
    if sum_tracks(a, m, 0) {
        assert forall|base: spec_fn(SExpr) -> TermValue|
            #[trigger] term_value(SExpr::Add(a), base) != TermValue::Undefined implies
            term_value(SExpr::Add(m), base) == term_value(SExpr::Add(a), base)
            && (m.len() == 1 ==> term_value(m[0], base) == term_value(SExpr::Add(a), base)) by {
            assert(all_int(term_values(a, base)));
            if m.len() == 1 {
                assert(term_values(m, base) == seq![term_value(m[0], base)]);
            }
        }
    }
    if sum_tracks(a, m, c as int) && m.len() == 0 {
        assert forall|base: spec_fn(SExpr) -> TermValue|
            #[trigger] term_value(SExpr::Add(a), base) != TermValue::Undefined implies
            term_value(SExpr::Int(c), base) == term_value(SExpr::Add(a), base) by {
            assert(all_int(term_values(a, base)));
            assert(term_values(m, base) == Seq::<TermValue>::empty());
        }
    }
    if product_tracks(a, m, 1) {
        assert forall|base: spec_fn(SExpr) -> TermValue|
            #[trigger] term_value(SExpr::Mul(a), base) != TermValue::Undefined implies
            term_value(SExpr::Mul(m), base) == term_value(SExpr::Mul(a), base)
            && (m.len() == 1 ==> term_value(m[0], base) == term_value(SExpr::Mul(a), base)) by {
            assert(all_int(term_values(a, base)));
            if m.len() == 1 {
                assert(term_values(m, base) == seq![term_value(m[0], base)]);
            }
        }
    }
    if product_tracks(a, m, c as int) && m.len() == 0 {
        assert forall|base: spec_fn(SExpr) -> TermValue|
            #[trigger] term_value(SExpr::Mul(a), base) != TermValue::Undefined implies
            term_value(SExpr::Int(c), base) == term_value(SExpr::Mul(a), base) by {
            assert(all_int(term_values(a, base)));
            assert(term_values(m, base) == Seq::<TermValue>::empty());
        }
    }
    if and_tracks(a, m) {
        assert forall|base: spec_fn(SExpr) -> TermValue|
            #[trigger] term_value(SExpr::And(a), base) != TermValue::Undefined implies
            term_value(SExpr::And(m), base) == term_value(SExpr::And(a), base)
            && (m.len() == 1 ==> term_value(m[0], base) == term_value(SExpr::And(a), base))
            && (m.len() == 0 ==> TermValue::Bool(true) == term_value(SExpr::And(a), base)) by {
            assert(all_bool(term_values(a, base)));
            if m.len() == 1 {
                assert(term_values(m, base) == seq![term_value(m[0], base)]);
            }
            if m.len() == 0 {
                assert(term_values(m, base) == Seq::<TermValue>::empty());
            }
        }
    }
    if or_tracks(a, m) {
        assert forall|base: spec_fn(SExpr) -> TermValue|
            #[trigger] term_value(SExpr::Or(a), base) != TermValue::Undefined implies
            term_value(SExpr::Or(m), base) == term_value(SExpr::Or(a), base)
            && (m.len() == 1 ==> term_value(m[0], base) == term_value(SExpr::Or(a), base))
            && (m.len() == 0 ==> TermValue::Bool(false) == term_value(SExpr::Or(a), base)) by {
            assert(all_bool(term_values(a, base)));
            if m.len() == 1 {
                assert(term_values(m, base) == seq![term_value(m[0], base)]);
            }
            if m.len() == 0 {
                assert(term_values(m, base) == Seq::<TermValue>::empty());
            }
        }
    }
    if m.len() == 0 {
        assert forall|base: spec_fn(SExpr) -> TermValue| #![trigger term_values(m, base)] true implies
            term_values(m, base) == Seq::<TermValue>::empty() by {}
    }
}

/// Flattening a nested sum or product into the tracked terms.
pub proof fn lemma_tracks_flatten(d: Seq<SExpr>, iv: Seq<SExpr>, x: SExpr, n: Seq<SExpr>, c: int)
    ensures
        sum_tracks(d + iv, n, c) && same_meaning(x, SExpr::Add(iv)) ==> sum_tracks(d.push(x), n, c),
        product_tracks(d + iv, n, c) && same_meaning(x, SExpr::Mul(iv)) ==> product_tracks(d.push(x), n, c),
{
    if sum_tracks(d + iv, n, c) && same_meaning(x, SExpr::Add(iv)) {
        assert forall|base: spec_fn(SExpr) -> TermValue| #[trigger] all_int(term_values(d.push(x), base)) implies
            all_int(term_values(n, base)) && int_sum(term_values(n, base)) + c == int_sum(term_values(d.push(x), base)) by {
            lemma_values_push(d, x, base);
            lemma_summaries_push(term_values(d, base), term_value(x, base));
            assert(term_value(SExpr::Add(iv), base) == term_value(x, base));
            lemma_values_append(d, iv, base);
            lemma_sum_append(term_values(d, base), term_values(iv, base));
            assert(all_int(term_values(d + iv, base)));
        }
    }
    if product_tracks(d + iv, n, c) && same_meaning(x, SExpr::Mul(iv)) {
        assert forall|base: spec_fn(SExpr) -> TermValue| #[trigger] all_int(term_values(d.push(x), base)) implies
            all_int(term_values(n, base)) && int_product(term_values(n, base)) * c == int_product(term_values(d.push(x), base)) by {
            lemma_values_push(d, x, base);
            lemma_summaries_push(term_values(d, base), term_value(x, base));
            assert(term_value(SExpr::Mul(iv), base) == term_value(x, base));
            lemma_values_append(d, iv, base);
            lemma_sum_append(term_values(d, base), term_values(iv, base));
            assert(all_int(term_values(d + iv, base)));
        }
    }
}

/// Operands with the same meanings give the same values, wherever the first have values.
pub proof fn lemma_pointwise_values(a: Seq<SExpr>, s: Seq<SExpr>, base: spec_fn(SExpr) -> TermValue)
    requires
        a.len() == s.len(),
        forall|j: int| 0 <= j < a.len() ==> same_meaning(a[j], #[trigger] s[j]),
        forall|j: int| 0 <= j < a.len() ==> term_value(#[trigger] a[j], base) != TermValue::Undefined,
    ensures
        term_values(s, base) == term_values(a, base),
{
    lemma_term_values(a, base);
    lemma_term_values(s, base);
    assert forall|j: int| 0 <= j < a.len() implies term_values(s, base)[j] == term_values(a, base)[j] by {
        assert(same_meaning(a[j], s[j]));
        assert(term_value(a[j], base) != TermValue::Undefined);
    }
    assert(term_values(s, base) =~= term_values(a, base));
}

/// A difference keeps its meaning when its operands keep theirs; with two operands, a zero
/// subtrahend, equal operands or two constants simplify it.
pub proof fn lemma_difference(a: Seq<SExpr>, s: Seq<SExpr>)
    requires
        a.len() == s.len(),
        forall|j: int| 0 <= j < a.len() ==> same_meaning(a[j], #[trigger] s[j]),
    ensures
        same_meaning(SExpr::Sub(a), SExpr::Sub(s)),
        a.len() == 2 && s[1] == SExpr::Int(0) ==> same_meaning(SExpr::Sub(a), s[0]),
        a.len() == 2 && s[0] == s[1] ==> same_meaning(SExpr::Sub(a), SExpr::Int(0)),
        a.len() == 2 && s[0] is Int && s[1] is Int && i64::MIN <= s[0]->Int_0 - s[1]->Int_0 <= i64::MAX
            ==> same_meaning(SExpr::Sub(a), SExpr::Int((s[0]->Int_0 - s[1]->Int_0) as i64)),
{
    assert forall|base: spec_fn(SExpr) -> TermValue| #[trigger] term_value(SExpr::Sub(a), base) != TermValue::Undefined
        implies term_values(s, base) == term_values(a, base) && all_int(term_values(a, base)) by {
        lemma_term_values(a, base);
        assert forall|j: int| 0 <= j < a.len() implies term_value(#[trigger] a[j], base) != TermValue::Undefined by {
            assert(term_values(a, base)[j] is Int);
        }
        lemma_pointwise_values(a, s, base);
    }
    if a.len() == 2 {
        assert forall|base: spec_fn(SExpr) -> TermValue| #[trigger] term_value(SExpr::Sub(a), base) != TermValue::Undefined
            implies term_value(SExpr::Sub(a), base) == TermValue::Int(int_of(term_value(s[0], base)) - int_of(term_value(s[1], base)))
            && term_value(s[0], base) is Int && term_value(s[1], base) is Int by {
            let vs = term_values(s, base);
            lemma_term_values(s, base);
            assert(vs.subrange(1, 2) =~= Seq::<TermValue>::empty().push(vs[1]));
            lemma_summaries_push(Seq::<TermValue>::empty(), vs[1]);
        }
    }
}

/// Negation keeps its meaning when its operand keeps its own; negated constants and double
/// negations simplify.
pub proof fn lemma_negation(a: SExpr, s: SExpr)
    requires
        same_meaning(a, s),
    ensures
        same_meaning(SExpr::Not(Box::new(a)), SExpr::Not(Box::new(s))),
        s is Bool ==> same_meaning(SExpr::Not(Box::new(a)), SExpr::Bool(!s->Bool_0)),
        s is Not ==> same_meaning(SExpr::Not(Box::new(a)), *s->Not_0),
{
    assert forall|base: spec_fn(SExpr) -> TermValue| #[trigger] term_value(SExpr::Not(Box::new(a)), base) != TermValue::Undefined
        implies term_value(s, base) == term_value(a, base) && term_value(a, base) is Bool by {}
}

/// Comparisons, equalities and implications keep their meaning when their operands keep
/// theirs; comparisons of constants, equal sides and sides in either order simplify.
pub proof fn lemma_binary(a: SExpr, b: SExpr, sa: SExpr, sb: SExpr)
    requires
        same_meaning(a, sa),
        same_meaning(b, sb),
    ensures
        same_meaning(SExpr::Lt(Box::new(a), Box::new(b)), SExpr::Lt(Box::new(sa), Box::new(sb))),
        same_meaning(SExpr::Le(Box::new(a), Box::new(b)), SExpr::Le(Box::new(sa), Box::new(sb))),
        same_meaning(SExpr::Gt(Box::new(a), Box::new(b)), SExpr::Gt(Box::new(sa), Box::new(sb))),
        same_meaning(SExpr::Ge(Box::new(a), Box::new(b)), SExpr::Ge(Box::new(sa), Box::new(sb))),
        same_meaning(SExpr::Eq(Box::new(a), Box::new(b)), SExpr::Eq(Box::new(sa), Box::new(sb))),
        same_meaning(SExpr::Eq(Box::new(a), Box::new(b)), SExpr::Eq(Box::new(sb), Box::new(sa))),
        same_meaning(SExpr::Implies(Box::new(a), Box::new(b)), SExpr::Implies(Box::new(sa), Box::new(sb))),
        sa == sb ==> same_meaning(SExpr::Eq(Box::new(a), Box::new(b)), SExpr::Bool(true)),
        sa is Int && sb is Int ==> {
            &&& same_meaning(SExpr::Lt(Box::new(a), Box::new(b)), SExpr::Bool(sa->Int_0 < sb->Int_0))
            &&& same_meaning(SExpr::Le(Box::new(a), Box::new(b)), SExpr::Bool(sa->Int_0 <= sb->Int_0))
            &&& same_meaning(SExpr::Gt(Box::new(a), Box::new(b)), SExpr::Bool(sa->Int_0 > sb->Int_0))
            &&& same_meaning(SExpr::Ge(Box::new(a), Box::new(b)), SExpr::Bool(sa->Int_0 >= sb->Int_0))
            &&& same_meaning(SExpr::Eq(Box::new(a), Box::new(b)), SExpr::Bool(sa->Int_0 == sb->Int_0))
        },
        sa is Bool && sb is Bool ==> same_meaning(SExpr::Eq(Box::new(a), Box::new(b)), SExpr::Bool(sa->Bool_0 == sb->Bool_0)),
{
    assert forall|base: spec_fn(SExpr) -> TermValue|
        #[trigger] term_value(SExpr::Lt(Box::new(a), Box::new(b)), base) != TermValue::Undefined implies
        term_value(SExpr::Lt(Box::new(sa), Box::new(sb)), base) == term_value(SExpr::Lt(Box::new(a), Box::new(b)), base) by {
        assert(term_value(a, base) != TermValue::Undefined && term_value(b, base) != TermValue::Undefined);
    }
    assert forall|base: spec_fn(SExpr) -> TermValue|
        #[trigger] term_value(SExpr::Le(Box::new(a), Box::new(b)), base) != TermValue::Undefined implies
        term_value(SExpr::Le(Box::new(sa), Box::new(sb)), base) == term_value(SExpr::Le(Box::new(a), Box::new(b)), base) by {
        assert(term_value(a, base) != TermValue::Undefined && term_value(b, base) != TermValue::Undefined);
    }
    assert forall|base: spec_fn(SExpr) -> TermValue|
        #[trigger] term_value(SExpr::Gt(Box::new(a), Box::new(b)), base) != TermValue::Undefined implies
        term_value(SExpr::Gt(Box::new(sa), Box::new(sb)), base) == term_value(SExpr::Gt(Box::new(a), Box::new(b)), base) by {
        assert(term_value(a, base) != TermValue::Undefined && term_value(b, base) != TermValue::Undefined);
    }
    assert forall|base: spec_fn(SExpr) -> TermValue|
        #[trigger] term_value(SExpr::Ge(Box::new(a), Box::new(b)), base) != TermValue::Undefined implies
        term_value(SExpr::Ge(Box::new(sa), Box::new(sb)), base) == term_value(SExpr::Ge(Box::new(a), Box::new(b)), base) by {
        assert(term_value(a, base) != TermValue::Undefined && term_value(b, base) != TermValue::Undefined);
    }
    assert forall|base: spec_fn(SExpr) -> TermValue|
        #[trigger] term_value(SExpr::Eq(Box::new(a), Box::new(b)), base) != TermValue::Undefined implies
        term_value(SExpr::Eq(Box::new(sa), Box::new(sb)), base) == term_value(SExpr::Eq(Box::new(a), Box::new(b)), base) by {
        assert(term_value(a, base) != TermValue::Undefined && term_value(b, base) != TermValue::Undefined);
    }
    assert forall|base: spec_fn(SExpr) -> TermValue|
        #[trigger] term_value(SExpr::Eq(Box::new(a), Box::new(b)), base) != TermValue::Undefined implies
        term_value(SExpr::Eq(Box::new(sb), Box::new(sa)), base) == term_value(SExpr::Eq(Box::new(a), Box::new(b)), base) by {
        assert(term_value(a, base) != TermValue::Undefined && term_value(b, base) != TermValue::Undefined);
    }
    assert forall|base: spec_fn(SExpr) -> TermValue|
        #[trigger] term_value(SExpr::Implies(Box::new(a), Box::new(b)), base) != TermValue::Undefined implies
        term_value(SExpr::Implies(Box::new(sa), Box::new(sb)), base) == term_value(SExpr::Implies(Box::new(a), Box::new(b)), base) by {
        assert(term_value(a, base) != TermValue::Undefined && term_value(b, base) != TermValue::Undefined);
    }
    if sa == sb {
        assert forall|base: spec_fn(SExpr) -> TermValue|
            #[trigger] term_value(SExpr::Eq(Box::new(a), Box::new(b)), base) != TermValue::Undefined implies
            term_value(SExpr::Bool(true), base) == term_value(SExpr::Eq(Box::new(a), Box::new(b)), base) by {
            assert(term_value(a, base) != TermValue::Undefined && term_value(b, base) != TermValue::Undefined);
        }
    }
    if sa is Int && sb is Int {
        assert forall|base: spec_fn(SExpr) -> TermValue|
            #[trigger] term_value(SExpr::Lt(Box::new(a), Box::new(b)), base) != TermValue::Undefined implies
            term_value(SExpr::Bool(sa->Int_0 < sb->Int_0), base) == term_value(SExpr::Lt(Box::new(a), Box::new(b)), base) by {
            assert(term_value(a, base) != TermValue::Undefined && term_value(b, base) != TermValue::Undefined);
        }
    }
    if sa is Int && sb is Int {
        assert forall|base: spec_fn(SExpr) -> TermValue|
            #[trigger] term_value(SExpr::Le(Box::new(a), Box::new(b)), base) != TermValue::Undefined implies
            term_value(SExpr::Bool(sa->Int_0 <= sb->Int_0), base) == term_value(SExpr::Le(Box::new(a), Box::new(b)), base) by {
            assert(term_value(a, base) != TermValue::Undefined && term_value(b, base) != TermValue::Undefined);
        }
    }
    if sa is Int && sb is Int {
        assert forall|base: spec_fn(SExpr) -> TermValue|
            #[trigger] term_value(SExpr::Gt(Box::new(a), Box::new(b)), base) != TermValue::Undefined implies
            term_value(SExpr::Bool(sa->Int_0 > sb->Int_0), base) == term_value(SExpr::Gt(Box::new(a), Box::new(b)), base) by {
            assert(term_value(a, base) != TermValue::Undefined && term_value(b, base) != TermValue::Undefined);
        }
    }
    if sa is Int && sb is Int {
        assert forall|base: spec_fn(SExpr) -> TermValue|
            #[trigger] term_value(SExpr::Ge(Box::new(a), Box::new(b)), base) != TermValue::Undefined implies
            term_value(SExpr::Bool(sa->Int_0 >= sb->Int_0), base) == term_value(SExpr::Ge(Box::new(a), Box::new(b)), base) by {
            assert(term_value(a, base) != TermValue::Undefined && term_value(b, base) != TermValue::Undefined);
        }
    }
    if sa is Int && sb is Int {
        assert forall|base: spec_fn(SExpr) -> TermValue|
            #[trigger] term_value(SExpr::Eq(Box::new(a), Box::new(b)), base) != TermValue::Undefined implies
            term_value(SExpr::Bool(sa->Int_0 == sb->Int_0), base) == term_value(SExpr::Eq(Box::new(a), Box::new(b)), base) by {
            assert(term_value(a, base) != TermValue::Undefined && term_value(b, base) != TermValue::Undefined);
        }
    }
    if sa is Bool && sb is Bool {
        assert forall|base: spec_fn(SExpr) -> TermValue|
            #[trigger] term_value(SExpr::Eq(Box::new(a), Box::new(b)), base) != TermValue::Undefined implies
            term_value(SExpr::Bool(sa->Bool_0 == sb->Bool_0), base) == term_value(SExpr::Eq(Box::new(a), Box::new(b)), base) by {
            assert(term_value(a, base) != TermValue::Undefined && term_value(b, base) != TermValue::Undefined);
        }
    }
}

/// A conditional keeps its meaning when its parts keep theirs, and a constant condition
/// selects a branch.
pub proof fn lemma_conditional(c: SExpr, t: SExpr, f: SExpr, sc: SExpr, st: SExpr, sf: SExpr)
    requires
        same_meaning(c, sc),
    ensures
        same_meaning(t, st) && same_meaning(f, sf) ==>
            same_meaning(SExpr::Ite(Box::new(c), Box::new(t), Box::new(f)), SExpr::Ite(Box::new(sc), Box::new(st), Box::new(sf))),
        sc == SExpr::Bool(true) && same_meaning(t, st) ==> same_meaning(SExpr::Ite(Box::new(c), Box::new(t), Box::new(f)), st),
        sc == SExpr::Bool(false) && same_meaning(f, sf) ==> same_meaning(SExpr::Ite(Box::new(c), Box::new(t), Box::new(f)), sf),
{
    if same_meaning(t, st) || same_meaning(f, sf) {
        assert forall|base: spec_fn(SExpr) -> TermValue|
            #[trigger] term_value(SExpr::Ite(Box::new(c), Box::new(t), Box::new(f)), base) != TermValue::Undefined implies
            term_value(sc, base) == term_value(c, base)
            && (term_value(c, base) == TermValue::Bool(true) && same_meaning(t, st) ==> term_value(st, base) == term_value(t, base))
            && (term_value(c, base) == TermValue::Bool(false) && same_meaning(f, sf) ==> term_value(sf, base) == term_value(f, base)) by {
            assert(term_value(c, base) != TermValue::Undefined);
            if term_value(c, base) == TermValue::Bool(true) {
                assert(term_value(t, base) != TermValue::Undefined);
            }
            if term_value(c, base) == TermValue::Bool(false) {
                assert(term_value(f, base) != TermValue::Undefined);
            }
        }
    }
}

/// Nothing tracked yet: the empty sequences stand for each other.
pub proof fn lemma_tracks_start(a: Seq<SExpr>)
    ensures
        sum_tracks(a.subrange(0, 0), Seq::<SExpr>::empty(), 0),
        product_tracks(a.subrange(0, 0), Seq::<SExpr>::empty(), 1),
        and_tracks(a.subrange(0, 0), Seq::<SExpr>::empty()),
        or_tracks(a.subrange(0, 0), Seq::<SExpr>::empty()),
{
    assert(a.subrange(0, 0) =~= Seq::<SExpr>::empty());
    assert forall|base: spec_fn(SExpr) -> TermValue| #![trigger term_values(Seq::<SExpr>::empty(), base)] true implies
        term_values(Seq::<SExpr>::empty(), base) == Seq::<TermValue>::empty() by {}
    assert(int_sum(Seq::<TermValue>::empty()) == 0 && int_product(Seq::<TermValue>::empty()) == 1);
}

/// `x` is zero wherever it has a value.
pub open spec fn zero_valued(x: SExpr) -> bool {
    forall|base: spec_fn(SExpr) -> TermValue| #[trigger] term_value(x, base) != TermValue::Undefined ==>
        term_value(x, base) == TermValue::Int(0)
}

pub proof fn lemma_zero_transfer(x: SExpr, s: SExpr)
    requires
        same_meaning(x, s),
        zero_valued(s) || s == SExpr::Int(0),
    ensures
        zero_valued(x),
{
    assert forall|base: spec_fn(SExpr) -> TermValue| #[trigger] term_value(x, base) != TermValue::Undefined implies
        term_value(x, base) == TermValue::Int(0) by {
        assert(term_value(s, base) == term_value(x, base));
    }
}

/// A product with a zero factor is zero.
pub proof fn lemma_zero_factor(iv: Seq<SExpr>, j: int)
    requires
        0 <= j < iv.len(),
        iv[j] == SExpr::Int(0),
    ensures
        zero_valued(SExpr::Mul(iv)),
{
    assert forall|base: spec_fn(SExpr) -> TermValue| #[trigger] term_value(SExpr::Mul(iv), base) != TermValue::Undefined implies
        term_value(SExpr::Mul(iv), base) == TermValue::Int(0) by {
        lemma_term_values(iv, base);
        lemma_product_zero(term_values(iv, base), j);
    }
}

/// A product with an operand that is zero wherever it has a value is zero.
pub proof fn lemma_zero_operand(a: Seq<SExpr>, i: int)
    requires
        0 <= i < a.len(),
        zero_valued(a[i]),
    ensures
        same_meaning(SExpr::Mul(a), SExpr::Int(0)),
{
    assert forall|base: spec_fn(SExpr) -> TermValue| #[trigger] term_value(SExpr::Mul(a), base) != TermValue::Undefined implies
        term_value(SExpr::Int(0), base) == term_value(SExpr::Mul(a), base) by {
        lemma_term_values(a, base);
        assert(term_values(a, base)[i] is Int);
        assert(term_value(a[i], base) == TermValue::Int(0));
        lemma_product_zero(term_values(a, base), i);
    }
}

/// `r` has the value of `e` wherever `e` has a value, whatever values the other terms take.
pub open spec fn same_meaning(e: SExpr, r: SExpr) -> bool {
    forall|base: spec_fn(SExpr) -> TermValue|
        #[trigger] term_value(e, base) != TermValue::Undefined ==> term_value(r, base) == term_value(e, base)
}

pub proof fn lemma_term_values(s: Seq<SExpr>, base: spec_fn(SExpr) -> TermValue)
    ensures
        term_values(s, base).len() == s.len(),
        forall|i: int| 0 <= i < s.len() ==> #[trigger] term_values(s, base)[i] == term_value(s[i], base),
    decreases s.len(),
{
    if s.len() > 0 {
        lemma_term_values(s.drop_last(), base);
    }
}

/// The values of `s` are `s` mapped by the value function.
pub proof fn lemma_term_values_map(s: Seq<SExpr>, base: spec_fn(SExpr) -> TermValue)
    ensures
        term_values(s, base) == s.map_values(|e: SExpr| term_value(e, base)),
{
    lemma_term_values(s, base);
    assert(term_values(s, base) =~= s.map_values(|e: SExpr| term_value(e, base)));
}

/// Mapping keeps two sequences permutations of each other.
pub proof fn lemma_map_multiset<A, B>(s1: Seq<A>, s2: Seq<A>, f: spec_fn(A) -> B)
    requires
        s1.to_multiset() == s2.to_multiset(),
    ensures
        s1.map_values(f).to_multiset() == s2.map_values(f).to_multiset(),
    decreases s1.len(),
{
    broadcast use vstd::seq_lib::to_multiset_remove, vstd::seq_lib::to_multiset_len;
    if s1.len() == 0 {
        assert(s2.to_multiset().len() == 0);
        assert(s1.map_values(f) =~= s2.map_values(f));
    } else {
        let a = s1.last();
        assert(s1[s1.len() - 1] == a);
        assert(s1.contains(a));
        assert(s1.to_multiset().count(a) > 0);
        assert(s2.contains(a));
        let i = s2.index_of(a);
        let t1 = s1.drop_last();
        let t2 = s2.remove(i);
        assert(t1 =~= s1.remove(s1.len() - 1));
        assert(t1.to_multiset() == s1.to_multiset().remove(a));
        assert(t2.to_multiset() == s2.to_multiset().remove(a));
        lemma_map_multiset(t1, t2, f);
        assert(s1.map_values(f) =~= t1.map_values(f).push(f(a)));
        assert(t2.map_values(f) =~= s2.map_values(f).remove(i));
        assert(s2.map_values(f)[i] == f(a));
        assert(s2.map_values(f).to_multiset() == t2.map_values(f).to_multiset().insert(f(a))) by {
            let m = s2.map_values(f);
            assert(m.remove(i).to_multiset() == m.to_multiset().remove(f(a)));
            assert(m[i] == f(a));
            assert(m.contains(f(a)));
            assert(m.to_multiset().count(f(a)) > 0);
        }
        vstd::seq_lib::to_multiset_build(t1.map_values(f), f(a));
        assert(s1.map_values(f).to_multiset() =~= s2.map_values(f).to_multiset());
    }
}

/// Two permutations of each other have the same values, in some order.
pub proof fn lemma_values_permutation(s1: Seq<SExpr>, s2: Seq<SExpr>, base: spec_fn(SExpr) -> TermValue)
    requires
        s1.to_multiset() == s2.to_multiset(),
    ensures
        term_values(s1, base).to_multiset() == term_values(s2, base).to_multiset(),
        int_sum(term_values(s1, base)) == int_sum(term_values(s2, base)),
        int_product(term_values(s1, base)) == int_product(term_values(s2, base)),
        all_int(term_values(s1, base)) == all_int(term_values(s2, base)),
        all_bool(term_values(s1, base)) == all_bool(term_values(s2, base)),
        all_true(term_values(s1, base)) == all_true(term_values(s2, base)),
        some_true(term_values(s1, base)) == some_true(term_values(s2, base)),
{
    lemma_term_values_map(s1, base);
    lemma_term_values_map(s2, base);
    lemma_map_multiset(s1, s2, |e: SExpr| term_value(e, base));
    let v1 = term_values(s1, base);
    let v2 = term_values(s2, base);
    let fs = sum_step();
    let fp = product_step();
    assert(commutative_foldl(fs)) by {
        assert forall|x: TermValue, y: TermValue, v: int| #[trigger] fs(fs(v, x), y) == fs(fs(v, y), x) by {}
    }
    assert(commutative_foldl(fp)) by {
        assert forall|x: TermValue, y: TermValue, v: int| #[trigger] fp(fp(v, x), y) == fp(fp(v, y), x) by {
            assert((v * int_of(x)) * int_of(y) == (v * int_of(y)) * int_of(x)) by (nonlinear_arith);
        }
    }
    lemma_fold_left_permutation(v1, v2, fs, 0int);
    lemma_fold_left_permutation(v1, v2, fp, 1int);
    assert forall|x: TermValue| v1.contains(x) <==> v2.contains(x) by {
        assert(v1.to_multiset().count(x) == v2.to_multiset().count(x));
    }
    assert(all_int(v1) == all_int(v2)) by {
        if all_int(v1) {
            assert forall|i: int| 0 <= i < v2.len() implies #[trigger] v2[i] is Int by {
                assert(v2.contains(v2[i]));
                let j = choose|j: int| 0 <= j < v1.len() && v1[j] == v2[i];
            }
        }
        if all_int(v2) {
            assert forall|i: int| 0 <= i < v1.len() implies #[trigger] v1[i] is Int by {
                assert(v1.contains(v1[i]));
                let j = choose|j: int| 0 <= j < v2.len() && v2[j] == v1[i];
            }
        }
    }
    assert(all_bool(v1) == all_bool(v2)) by {
        if all_bool(v1) {
            assert forall|i: int| 0 <= i < v2.len() implies #[trigger] v2[i] is Bool by {
                assert(v2.contains(v2[i]));
                let j = choose|j: int| 0 <= j < v1.len() && v1[j] == v2[i];
            }
        }
        if all_bool(v2) {
            assert forall|i: int| 0 <= i < v1.len() implies #[trigger] v1[i] is Bool by {
                assert(v1.contains(v1[i]));
                let j = choose|j: int| 0 <= j < v2.len() && v2[j] == v1[i];
            }
        }
    }
    assert(all_true(v1) == all_true(v2)) by {
        if all_true(v1) {
            assert forall|i: int| 0 <= i < v2.len() implies #[trigger] v2[i] == TermValue::Bool(true) by {
                assert(v2.contains(v2[i]));
                let j = choose|j: int| 0 <= j < v1.len() && v1[j] == v2[i];
            }
        }
        if all_true(v2) {
            assert forall|i: int| 0 <= i < v1.len() implies #[trigger] v1[i] == TermValue::Bool(true) by {
                assert(v1.contains(v1[i]));
                let j = choose|j: int| 0 <= j < v2.len() && v2[j] == v1[i];
            }
        }
    }
    assert(some_true(v1) == some_true(v2)) by {
        if some_true(v1) {
            let i = choose|i: int| 0 <= i < v1.len() && #[trigger] v1[i] == TermValue::Bool(true);
            assert(v1.contains(v1[i]));
            let j = choose|j: int| 0 <= j < v2.len() && v2[j] == v1[i];
            assert(v2[j] == TermValue::Bool(true));
        }
        if some_true(v2) {
            let i = choose|i: int| 0 <= i < v2.len() && #[trigger] v2[i] == TermValue::Bool(true);
            assert(v2.contains(v2[i]));
            let j = choose|j: int| 0 <= j < v1.len() && v1[j] == v2[i];
            assert(v1[j] == TermValue::Bool(true));
        }
    }
}

} // verus!
