//! The total order on terms and sorts (variant, then fields, lexicographically).
use vstd::prelude::*;
use crate::ast::{Expr, SExpr, SType, Type, exprs_view, lemma_exprs_view, lemma_types_view, types_view, vars_view};

verus! {

broadcast use vstd::std_specs::vec::group_vec_axioms;

/// -1, 0 or 1 as `a` is below, equal to or above `b`.
pub open spec fn int_order(a: int, b: int) -> int {
    if a < b { -1 } else if a > b { 1 } else { 0 }
}

/// Lexicographic order on character sequences.
pub open spec fn chars_order(a: Seq<char>, b: Seq<char>) -> int
    decreases a.len(),
{
    if a.len() == 0 {
        if b.len() == 0 { 0 } else { -1 }
    } else if b.len() == 0 {
        1
    } else if a[0] != b[0] {
        int_order(a[0] as int, b[0] as int)
    } else {
        chars_order(a.drop_first(), b.drop_first())
    }
}

/// Two texts are in the order's middle exactly when they are equal.
pub proof fn lemma_chars_order_zero(a: Seq<char>, b: Seq<char>)
    ensures
        (chars_order(a, b) == 0) == (a == b),
    decreases a.len(),
{
    if a.len() > 0 && b.len() > 0 {
        lemma_chars_order_zero(a.drop_first(), b.drop_first());
        if a[0] == b[0] {
            if a.drop_first() == b.drop_first() {
                assert(a =~= seq![a[0]] + a.drop_first());
                assert(b =~= seq![b[0]] + b.drop_first());
            }
        }
    }
    if a.len() == 0 && b.len() == 0 {
        assert(a =~= b);
    }
}

/// The position of a sort's variant.
pub open spec fn stype_tag(t: SType) -> int {
    match t {
        SType::Unknown => 0,
        SType::Bool => 1,
        SType::Int => 2,
        SType::Real => 3,
        SType::Float(_) => 4,
        SType::BitVec(_) => 5,
        SType::String => 6,
        SType::Array(_, _) => 7,
        SType::Fn(_, _) => 8,
    }
}

/// The order on sorts.
pub open spec fn stype_order(a: SType, b: SType) -> int
    decreases a,
{
    if stype_tag(a) != stype_tag(b) {
        int_order(stype_tag(a), stype_tag(b))
    } else {
        match (a, b) {
            (SType::Float(x), SType::Float(y)) => if x.exponent_bits != y.exponent_bits {
                int_order(x.exponent_bits as int, y.exponent_bits as int)
            } else {
                int_order(x.significand_bits as int, y.significand_bits as int)
            },
            (SType::BitVec(x), SType::BitVec(y)) => int_order(x as int, y as int),
            (SType::Array(a1, a2), SType::Array(b1, b2)) => {
                let c = stype_order(*a1, *b1);
                if c != 0 { c } else { stype_order(*a2, *b2) }
            },
            (SType::Fn(a1, a2), SType::Fn(b1, b2)) => {
                let c = stypes_order(a1, b1);
                if c != 0 { c } else { stype_order(*a2, *b2) }
            },
            _ => 0,
        }
    }
}

/// Lexicographic order on sequences of sorts.
pub open spec fn stypes_order(a: Seq<SType>, b: Seq<SType>) -> int
    decreases a,
{
    if a.len() == 0 {
        if b.len() == 0 { 0 } else { -1 }
    } else if b.len() == 0 {
        1
    } else {
        let c = stype_order(a[0], b[0]);
        if c != 0 { c } else { stypes_order(a.drop_first(), b.drop_first()) }
    }
}

/// Lexicographic order on bound-variable lists.
pub open spec fn svars_order(a: Seq<(Seq<char>, SType)>, b: Seq<(Seq<char>, SType)>) -> int
    decreases a.len(),
{
    if a.len() == 0 {
        if b.len() == 0 { 0 } else { -1 }
    } else if b.len() == 0 {
        1
    } else {
        let c = chars_order(a[0].0, b[0].0);
        if c != 0 {
            c
        } else {
            let d = stype_order(a[0].1, b[0].1);
            if d != 0 { d } else { svars_order(a.drop_first(), b.drop_first()) }
        }
    }
}

/// The position of a term's variant.
pub open spec fn sexpr_tag(e: SExpr) -> int {
    match e {
        SExpr::Bool(_) => 0,
        SExpr::Int(_) => 1,
        SExpr::Real(_, _) => 2,
        SExpr::Var(_, _) => 3,
        SExpr::And(_) => 4,
        SExpr::Or(_) => 5,
        SExpr::Not(_) => 6,
        SExpr::Implies(_, _) => 7,
        SExpr::Ite(_, _, _) => 8,
        SExpr::Eq(_, _) => 9,
        SExpr::Lt(_, _) => 10,
        SExpr::Le(_, _) => 11,
        SExpr::Gt(_, _) => 12,
        SExpr::Ge(_, _) => 13,
        SExpr::Add(_) => 14,
        SExpr::Sub(_) => 15,
        SExpr::Mul(_) => 16,
        SExpr::Div(_, _) => 17,
        SExpr::App(_, _) => 18,
        SExpr::BvConst(_, _) => 19,
        SExpr::BvAdd(_, _) => 20,
        SExpr::BvSub(_, _) => 21,
        SExpr::BvMul(_, _) => 22,
        SExpr::BvAnd(_, _) => 23,
        SExpr::BvOr(_, _) => 24,
        SExpr::BvXor(_, _) => 25,
        SExpr::BvNot(_) => 26,
        SExpr::BvShl(_, _) => 27,
        SExpr::BvLshr(_, _) => 28,
        SExpr::BvAshr(_, _) => 29,
        SExpr::BvUle(_, _) => 30,
        SExpr::BvUlt(_, _) => 31,
        SExpr::BvSle(_, _) => 32,
        SExpr::BvSlt(_, _) => 33,
        SExpr::BvExtract(_, _, _) => 34,
        SExpr::BvConcat(_, _) => 35,
        SExpr::Select(_, _) => 36,
        SExpr::Store(_, _, _) => 37,
        SExpr::ForAll(_, _) => 38,
        SExpr::Exists(_, _) => 39,
        SExpr::StrConst(_) => 40,
        SExpr::StrConcat(_) => 41,
        SExpr::StrLen(_) => 42,
        SExpr::StrContains(_, _) => 43,
    }
}

/// The order on terms.
pub open spec fn sexpr_order(a: SExpr, b: SExpr) -> int
    decreases a,
{
    if sexpr_tag(a) != sexpr_tag(b) {
        int_order(sexpr_tag(a), sexpr_tag(b))
    } else {
        match (a, b) {
            (SExpr::Bool(a0), SExpr::Bool(b0)) => int_order(if a0 { 1int } else { 0int }, if b0 { 1int } else { 0int }),
            (SExpr::Int(a0), SExpr::Int(b0)) => int_order(a0 as int, b0 as int),
            (SExpr::Real(a0, a1), SExpr::Real(b0, b1)) => { let c = int_order(a0 as int, b0 as int); if c != 0 { c } else { int_order(a1 as int, b1 as int) } },
            (SExpr::Var(a0, a1), SExpr::Var(b0, b1)) => { let c = chars_order(a0, b0); if c != 0 { c } else { stype_order(a1, b1) } },
            (SExpr::And(a0), SExpr::And(b0)) => sexprs_order(a0, b0),
            (SExpr::Or(a0), SExpr::Or(b0)) => sexprs_order(a0, b0),
            (SExpr::Not(a0), SExpr::Not(b0)) => sexpr_order(*a0, *b0),
            (SExpr::Implies(a0, a1), SExpr::Implies(b0, b1)) => { let c = sexpr_order(*a0, *b0); if c != 0 { c } else { sexpr_order(*a1, *b1) } },
            (SExpr::Ite(a0, a1, a2), SExpr::Ite(b0, b1, b2)) => { let c = sexpr_order(*a0, *b0); if c != 0 { c } else { let c = sexpr_order(*a1, *b1); if c != 0 { c } else { sexpr_order(*a2, *b2) } } },
            (SExpr::Eq(a0, a1), SExpr::Eq(b0, b1)) => { let c = sexpr_order(*a0, *b0); if c != 0 { c } else { sexpr_order(*a1, *b1) } },
            (SExpr::Lt(a0, a1), SExpr::Lt(b0, b1)) => { let c = sexpr_order(*a0, *b0); if c != 0 { c } else { sexpr_order(*a1, *b1) } },
            (SExpr::Le(a0, a1), SExpr::Le(b0, b1)) => { let c = sexpr_order(*a0, *b0); if c != 0 { c } else { sexpr_order(*a1, *b1) } },
            (SExpr::Gt(a0, a1), SExpr::Gt(b0, b1)) => { let c = sexpr_order(*a0, *b0); if c != 0 { c } else { sexpr_order(*a1, *b1) } },
            (SExpr::Ge(a0, a1), SExpr::Ge(b0, b1)) => { let c = sexpr_order(*a0, *b0); if c != 0 { c } else { sexpr_order(*a1, *b1) } },
            (SExpr::Add(a0), SExpr::Add(b0)) => sexprs_order(a0, b0),
            (SExpr::Sub(a0), SExpr::Sub(b0)) => sexprs_order(a0, b0),
            (SExpr::Mul(a0), SExpr::Mul(b0)) => sexprs_order(a0, b0),
            (SExpr::Div(a0, a1), SExpr::Div(b0, b1)) => { let c = sexpr_order(*a0, *b0); if c != 0 { c } else { sexpr_order(*a1, *b1) } },
            (SExpr::App(a0, a1), SExpr::App(b0, b1)) => { let c = chars_order(a0, b0); if c != 0 { c } else { sexprs_order(a1, b1) } },
            (SExpr::BvConst(a0, a1), SExpr::BvConst(b0, b1)) => { let c = int_order(a0 as int, b0 as int); if c != 0 { c } else { int_order(a1 as int, b1 as int) } },
            (SExpr::BvAdd(a0, a1), SExpr::BvAdd(b0, b1)) => { let c = sexpr_order(*a0, *b0); if c != 0 { c } else { sexpr_order(*a1, *b1) } },
            (SExpr::BvSub(a0, a1), SExpr::BvSub(b0, b1)) => { let c = sexpr_order(*a0, *b0); if c != 0 { c } else { sexpr_order(*a1, *b1) } },
            (SExpr::BvMul(a0, a1), SExpr::BvMul(b0, b1)) => { let c = sexpr_order(*a0, *b0); if c != 0 { c } else { sexpr_order(*a1, *b1) } },
            (SExpr::BvAnd(a0, a1), SExpr::BvAnd(b0, b1)) => { let c = sexpr_order(*a0, *b0); if c != 0 { c } else { sexpr_order(*a1, *b1) } },
            (SExpr::BvOr(a0, a1), SExpr::BvOr(b0, b1)) => { let c = sexpr_order(*a0, *b0); if c != 0 { c } else { sexpr_order(*a1, *b1) } },
            (SExpr::BvXor(a0, a1), SExpr::BvXor(b0, b1)) => { let c = sexpr_order(*a0, *b0); if c != 0 { c } else { sexpr_order(*a1, *b1) } },
            (SExpr::BvNot(a0), SExpr::BvNot(b0)) => sexpr_order(*a0, *b0),
            (SExpr::BvShl(a0, a1), SExpr::BvShl(b0, b1)) => { let c = sexpr_order(*a0, *b0); if c != 0 { c } else { sexpr_order(*a1, *b1) } },
            (SExpr::BvLshr(a0, a1), SExpr::BvLshr(b0, b1)) => { let c = sexpr_order(*a0, *b0); if c != 0 { c } else { sexpr_order(*a1, *b1) } },
            (SExpr::BvAshr(a0, a1), SExpr::BvAshr(b0, b1)) => { let c = sexpr_order(*a0, *b0); if c != 0 { c } else { sexpr_order(*a1, *b1) } },
            (SExpr::BvUle(a0, a1), SExpr::BvUle(b0, b1)) => { let c = sexpr_order(*a0, *b0); if c != 0 { c } else { sexpr_order(*a1, *b1) } },
            (SExpr::BvUlt(a0, a1), SExpr::BvUlt(b0, b1)) => { let c = sexpr_order(*a0, *b0); if c != 0 { c } else { sexpr_order(*a1, *b1) } },
            (SExpr::BvSle(a0, a1), SExpr::BvSle(b0, b1)) => { let c = sexpr_order(*a0, *b0); if c != 0 { c } else { sexpr_order(*a1, *b1) } },
            (SExpr::BvSlt(a0, a1), SExpr::BvSlt(b0, b1)) => { let c = sexpr_order(*a0, *b0); if c != 0 { c } else { sexpr_order(*a1, *b1) } },
            (SExpr::BvExtract(a0, a1, a2), SExpr::BvExtract(b0, b1, b2)) => { let c = int_order(a0 as int, b0 as int); if c != 0 { c } else { let c = int_order(a1 as int, b1 as int); if c != 0 { c } else { sexpr_order(*a2, *b2) } } },
            (SExpr::BvConcat(a0, a1), SExpr::BvConcat(b0, b1)) => { let c = sexpr_order(*a0, *b0); if c != 0 { c } else { sexpr_order(*a1, *b1) } },
            (SExpr::Select(a0, a1), SExpr::Select(b0, b1)) => { let c = sexpr_order(*a0, *b0); if c != 0 { c } else { sexpr_order(*a1, *b1) } },
            (SExpr::Store(a0, a1, a2), SExpr::Store(b0, b1, b2)) => { let c = sexpr_order(*a0, *b0); if c != 0 { c } else { let c = sexpr_order(*a1, *b1); if c != 0 { c } else { sexpr_order(*a2, *b2) } } },
            (SExpr::ForAll(a0, a1), SExpr::ForAll(b0, b1)) => { let c = svars_order(a0, b0); if c != 0 { c } else { sexpr_order(*a1, *b1) } },
            (SExpr::Exists(a0, a1), SExpr::Exists(b0, b1)) => { let c = svars_order(a0, b0); if c != 0 { c } else { sexpr_order(*a1, *b1) } },
            (SExpr::StrConst(a0), SExpr::StrConst(b0)) => chars_order(a0, b0),
            (SExpr::StrConcat(a0), SExpr::StrConcat(b0)) => sexprs_order(a0, b0),
            (SExpr::StrLen(a0), SExpr::StrLen(b0)) => sexpr_order(*a0, *b0),
            (SExpr::StrContains(a0, a1), SExpr::StrContains(b0, b1)) => { let c = sexpr_order(*a0, *b0); if c != 0 { c } else { sexpr_order(*a1, *b1) } },
            _ => 0,
        }
    }
}

/// Lexicographic order on sequences of terms.
pub open spec fn sexprs_order(a: Seq<SExpr>, b: Seq<SExpr>) -> int
    decreases a,
{
    if a.len() == 0 {
        if b.len() == 0 { 0 } else { -1 }
    } else if b.len() == 0 {
        1
    } else {
        let c = sexpr_order(a[0], b[0]);
        if c != 0 { c } else { sexprs_order(a.drop_first(), b.drop_first()) }
    }
}

fn prim_order(a: u64, b: u64) -> (r: i8)
    ensures
        r == int_order(a as int, b as int),
{
    if a < b { -1 } else if a > b { 1 } else { 0 }
}

fn signed_order(a: i64, b: i64) -> (r: i8)
    ensures
        r == int_order(a as int, b as int),
{
    if a < b { -1 } else if a > b { 1 } else { 0 }
}

/// The order on strings, by characters.
pub fn string_order(a: &String, b: &String) -> (r: i8)
    ensures
        r == chars_order(a@, b@),
{
    let sa = a.as_str();
    let sb = b.as_str();
    let la = sa.unicode_len();
    let lb = sb.unicode_len();
    let mut i: usize = 0;
    assert(a@.skip(0) =~= a@);
    assert(b@.skip(0) =~= b@);
    while i < la && i < lb
        invariant
            la == a@.len(),
            lb == b@.len(),
            sa@ == a@,
            sb@ == b@,
            i <= la,
            i <= lb,
            chars_order(a@, b@) == chars_order(a@.skip(i as int), b@.skip(i as int)),
        decreases la - i,
    {
        let ca = sa.get_char(i);
        let cb = sb.get_char(i);
        proof {
            assert(a@.skip(i as int)[0] == ca);
            assert(b@.skip(i as int)[0] == cb);
            assert(a@.skip(i as int).drop_first() =~= a@.skip(i + 1));
            assert(b@.skip(i as int).drop_first() =~= b@.skip(i + 1));
        }
        if ca != cb {
            return if (ca as u32) < (cb as u32) { -1 } else { 1 };
        }
        i += 1;
    }
    if i < la {
        1
    } else if i < lb {
        -1
    } else {
        0
    }
}

/// The order on sorts.
pub fn type_order(a: &Type, b: &Type) -> (r: i8)
    ensures
        r == stype_order(a@, b@),
    decreases a,
{
    let ta: u64 = type_tag(a);
    let tb: u64 = type_tag(b);
    if ta != tb {
        return prim_order(ta, tb);
    }
    match (a, b) {
        (Type::Float(x), Type::Float(y)) => if x.exponent_bits != y.exponent_bits {
            prim_order(x.exponent_bits as u64, y.exponent_bits as u64)
        } else {
            prim_order(x.significand_bits as u64, y.significand_bits as u64)
        },
        (Type::BitVec(x), Type::BitVec(y)) => prim_order(*x as u64, *y as u64),
        (Type::Array(a1, a2), Type::Array(b1, b2)) => {
            let c = type_order(a1, b1);
            if c != 0 { c } else { type_order(a2, b2) }
        },
        (Type::Fn(a1, a2), Type::Fn(b1, b2)) => {
            let c = types_order(a1, b1);
            if c != 0 { c } else { type_order(a2, b2) }
        },
        _ => 0,
    }
}

fn type_tag(t: &Type) -> (r: u64)
    ensures
        r == stype_tag(t@),
{
    match t {
        Type::Unknown => 0,
        Type::Bool => 1,
        Type::Int => 2,
        Type::Real => 3,
        Type::Float(_) => 4,
        Type::BitVec(_) => 5,
        Type::String => 6,
        Type::Array(_, _) => 7,
        Type::Fn(_, _) => 8,
    }
}

fn types_order(a: &Vec<Type>, b: &Vec<Type>) -> (r: i8)
    ensures
        r == stypes_order(types_view(a@), types_view(b@)),
    decreases a,
{
    proof {
        lemma_types_view(a@);
        lemma_types_view(b@);
    }
    let mut i: usize = 0;
    assert(types_view(a@).skip(0) =~= types_view(a@));
    assert(types_view(b@).skip(0) =~= types_view(b@));
    while i < a.len() && i < b.len()
        invariant
            i <= a@.len(),
            i <= b@.len(),
            types_view(a@).len() == a@.len(),
            types_view(b@).len() == b@.len(),
            forall|j: int| 0 <= j < a@.len() ==> #[trigger] types_view(a@)[j] == a@[j]@,
            forall|j: int| 0 <= j < b@.len() ==> #[trigger] types_view(b@)[j] == b@[j]@,
            stypes_order(types_view(a@), types_view(b@)) == stypes_order(types_view(a@).skip(i as int), types_view(b@).skip(i as int)),
        decreases a@.len() - i,
    {
        proof {
            assert(decreases_to!(*a => a@[i as int]));
            assert(types_view(a@).skip(i as int).drop_first() =~= types_view(a@).skip(i + 1));
            assert(types_view(b@).skip(i as int).drop_first() =~= types_view(b@).skip(i + 1));
        }
        let c = type_order(&a[i], &b[i]);
        if c != 0 {
            return c;
        }
        i += 1;
    }
    if i < a.len() {
        1
    } else if i < b.len() {
        -1
    } else {
        0
    }
}

fn vars_order(a: &Vec<(String, Type)>, b: &Vec<(String, Type)>) -> (r: i8)
    ensures
        r == svars_order(vars_view(a@), vars_view(b@)),
{
    let mut i: usize = 0;
    assert(vars_view(a@).skip(0) =~= vars_view(a@));
    assert(vars_view(b@).skip(0) =~= vars_view(b@));
    while i < a.len() && i < b.len()
        invariant
            i <= a@.len(),
            i <= b@.len(),
            vars_view(a@).len() == a@.len(),
            vars_view(b@).len() == b@.len(),
            svars_order(vars_view(a@), vars_view(b@)) == svars_order(vars_view(a@).skip(i as int), vars_view(b@).skip(i as int)),
        decreases a@.len() - i,
    {
        proof {
            assert(vars_view(a@).skip(i as int).drop_first() =~= vars_view(a@).skip(i + 1));
            assert(vars_view(b@).skip(i as int).drop_first() =~= vars_view(b@).skip(i + 1));
        }
        let c = string_order(&a[i].0, &b[i].0);
        if c != 0 {
            return c;
        }
        let d = type_order(&a[i].1, &b[i].1);
        if d != 0 {
            return d;
        }
        i += 1;
    }
    if i < a.len() {
        1
    } else if i < b.len() {
        -1
    } else {
        0
    }
}

fn expr_tag(e: &Expr) -> (r: u64)
    ensures
        r == sexpr_tag(e@),
{
    match e {
        Expr::Bool(_) => 0,
        Expr::Int(_) => 1,
        Expr::Real(_, _) => 2,
        Expr::Var(_, _) => 3,
        Expr::And(_) => 4,
        Expr::Or(_) => 5,
        Expr::Not(_) => 6,
        Expr::Implies(_, _) => 7,
        Expr::Ite(_, _, _) => 8,
        Expr::Eq(_, _) => 9,
        Expr::Lt(_, _) => 10,
        Expr::Le(_, _) => 11,
        Expr::Gt(_, _) => 12,
        Expr::Ge(_, _) => 13,
        Expr::Add(_) => 14,
        Expr::Sub(_) => 15,
        Expr::Mul(_) => 16,
        Expr::Div(_, _) => 17,
        Expr::App(_, _) => 18,
        Expr::BvConst(_, _) => 19,
        Expr::BvAdd(_, _) => 20,
        Expr::BvSub(_, _) => 21,
        Expr::BvMul(_, _) => 22,
        Expr::BvAnd(_, _) => 23,
        Expr::BvOr(_, _) => 24,
        Expr::BvXor(_, _) => 25,
        Expr::BvNot(_) => 26,
        Expr::BvShl(_, _) => 27,
        Expr::BvLshr(_, _) => 28,
        Expr::BvAshr(_, _) => 29,
        Expr::BvUle(_, _) => 30,
        Expr::BvUlt(_, _) => 31,
        Expr::BvSle(_, _) => 32,
        Expr::BvSlt(_, _) => 33,
        Expr::BvExtract(_, _, _) => 34,
        Expr::BvConcat(_, _) => 35,
        Expr::Select(_, _) => 36,
        Expr::Store(_, _, _) => 37,
        Expr::ForAll(_, _) => 38,
        Expr::Exists(_, _) => 39,
        Expr::StrConst(_) => 40,
        Expr::StrConcat(_) => 41,
        Expr::StrLen(_) => 42,
        Expr::StrContains(_, _) => 43,
    }
}

/// -1, 0 or 1 as `a` is below, equal to or above `b` in the order on terms.
pub fn expr_order(a: &Expr, b: &Expr) -> (r: i8)
    ensures
        r == sexpr_order(a@, b@),
    decreases a,
{
    let ta: u64 = expr_tag(a);
    let tb: u64 = expr_tag(b);
    if ta != tb {
        return prim_order(ta, tb);
    }
    match (a, b) {
        (Expr::Bool(a0), Expr::Bool(b0)) => prim_order(if *a0 { 1 } else { 0 }, if *b0 { 1 } else { 0 }),
        (Expr::Int(a0), Expr::Int(b0)) => signed_order(*a0, *b0),
        (Expr::Real(a0, a1), Expr::Real(b0, b1)) => { let c = signed_order(*a0, *b0); if c != 0 { c } else { prim_order(*a1 as u64, *b1 as u64) } },
        (Expr::Var(a0, a1), Expr::Var(b0, b1)) => { let c = string_order(a0, b0); if c != 0 { c } else { type_order(a1, b1) } },
        (Expr::And(a0), Expr::And(b0)) => exprs_order(a0, b0),
        (Expr::Or(a0), Expr::Or(b0)) => exprs_order(a0, b0),
        (Expr::Not(a0), Expr::Not(b0)) => expr_order(&**a0, &**b0),
        (Expr::Implies(a0, a1), Expr::Implies(b0, b1)) => { let c = expr_order(&**a0, &**b0); if c != 0 { c } else { expr_order(&**a1, &**b1) } },
        (Expr::Ite(a0, a1, a2), Expr::Ite(b0, b1, b2)) => { let c = expr_order(&**a0, &**b0); if c != 0 { c } else { let c = expr_order(&**a1, &**b1); if c != 0 { c } else { expr_order(&**a2, &**b2) } } },
        (Expr::Eq(a0, a1), Expr::Eq(b0, b1)) => { let c = expr_order(&**a0, &**b0); if c != 0 { c } else { expr_order(&**a1, &**b1) } },
        (Expr::Lt(a0, a1), Expr::Lt(b0, b1)) => { let c = expr_order(&**a0, &**b0); if c != 0 { c } else { expr_order(&**a1, &**b1) } },
        (Expr::Le(a0, a1), Expr::Le(b0, b1)) => { let c = expr_order(&**a0, &**b0); if c != 0 { c } else { expr_order(&**a1, &**b1) } },
        (Expr::Gt(a0, a1), Expr::Gt(b0, b1)) => { let c = expr_order(&**a0, &**b0); if c != 0 { c } else { expr_order(&**a1, &**b1) } },
        (Expr::Ge(a0, a1), Expr::Ge(b0, b1)) => { let c = expr_order(&**a0, &**b0); if c != 0 { c } else { expr_order(&**a1, &**b1) } },
        (Expr::Add(a0), Expr::Add(b0)) => exprs_order(a0, b0),
        (Expr::Sub(a0), Expr::Sub(b0)) => exprs_order(a0, b0),
        (Expr::Mul(a0), Expr::Mul(b0)) => exprs_order(a0, b0),
        (Expr::Div(a0, a1), Expr::Div(b0, b1)) => { let c = expr_order(&**a0, &**b0); if c != 0 { c } else { expr_order(&**a1, &**b1) } },
        (Expr::App(a0, a1), Expr::App(b0, b1)) => { let c = string_order(a0, b0); if c != 0 { c } else { exprs_order(a1, b1) } },
        (Expr::BvConst(a0, a1), Expr::BvConst(b0, b1)) => { let c = prim_order(*a0, *b0); if c != 0 { c } else { prim_order(*a1 as u64, *b1 as u64) } },
        (Expr::BvAdd(a0, a1), Expr::BvAdd(b0, b1)) => { let c = expr_order(&**a0, &**b0); if c != 0 { c } else { expr_order(&**a1, &**b1) } },
        (Expr::BvSub(a0, a1), Expr::BvSub(b0, b1)) => { let c = expr_order(&**a0, &**b0); if c != 0 { c } else { expr_order(&**a1, &**b1) } },
        (Expr::BvMul(a0, a1), Expr::BvMul(b0, b1)) => { let c = expr_order(&**a0, &**b0); if c != 0 { c } else { expr_order(&**a1, &**b1) } },
        (Expr::BvAnd(a0, a1), Expr::BvAnd(b0, b1)) => { let c = expr_order(&**a0, &**b0); if c != 0 { c } else { expr_order(&**a1, &**b1) } },
        (Expr::BvOr(a0, a1), Expr::BvOr(b0, b1)) => { let c = expr_order(&**a0, &**b0); if c != 0 { c } else { expr_order(&**a1, &**b1) } },
        (Expr::BvXor(a0, a1), Expr::BvXor(b0, b1)) => { let c = expr_order(&**a0, &**b0); if c != 0 { c } else { expr_order(&**a1, &**b1) } },
        (Expr::BvNot(a0), Expr::BvNot(b0)) => expr_order(&**a0, &**b0),
        (Expr::BvShl(a0, a1), Expr::BvShl(b0, b1)) => { let c = expr_order(&**a0, &**b0); if c != 0 { c } else { expr_order(&**a1, &**b1) } },
        (Expr::BvLshr(a0, a1), Expr::BvLshr(b0, b1)) => { let c = expr_order(&**a0, &**b0); if c != 0 { c } else { expr_order(&**a1, &**b1) } },
        (Expr::BvAshr(a0, a1), Expr::BvAshr(b0, b1)) => { let c = expr_order(&**a0, &**b0); if c != 0 { c } else { expr_order(&**a1, &**b1) } },
        (Expr::BvUle(a0, a1), Expr::BvUle(b0, b1)) => { let c = expr_order(&**a0, &**b0); if c != 0 { c } else { expr_order(&**a1, &**b1) } },
        (Expr::BvUlt(a0, a1), Expr::BvUlt(b0, b1)) => { let c = expr_order(&**a0, &**b0); if c != 0 { c } else { expr_order(&**a1, &**b1) } },
        (Expr::BvSle(a0, a1), Expr::BvSle(b0, b1)) => { let c = expr_order(&**a0, &**b0); if c != 0 { c } else { expr_order(&**a1, &**b1) } },
        (Expr::BvSlt(a0, a1), Expr::BvSlt(b0, b1)) => { let c = expr_order(&**a0, &**b0); if c != 0 { c } else { expr_order(&**a1, &**b1) } },
        (Expr::BvExtract(a0, a1, a2), Expr::BvExtract(b0, b1, b2)) => { let c = prim_order(*a0 as u64, *b0 as u64); if c != 0 { c } else { let c = prim_order(*a1 as u64, *b1 as u64); if c != 0 { c } else { expr_order(&**a2, &**b2) } } },
        (Expr::BvConcat(a0, a1), Expr::BvConcat(b0, b1)) => { let c = expr_order(&**a0, &**b0); if c != 0 { c } else { expr_order(&**a1, &**b1) } },
        (Expr::Select(a0, a1), Expr::Select(b0, b1)) => { let c = expr_order(&**a0, &**b0); if c != 0 { c } else { expr_order(&**a1, &**b1) } },
        (Expr::Store(a0, a1, a2), Expr::Store(b0, b1, b2)) => { let c = expr_order(&**a0, &**b0); if c != 0 { c } else { let c = expr_order(&**a1, &**b1); if c != 0 { c } else { expr_order(&**a2, &**b2) } } },
        (Expr::ForAll(a0, a1), Expr::ForAll(b0, b1)) => { let c = vars_order(a0, b0); if c != 0 { c } else { expr_order(&**a1, &**b1) } },
        (Expr::Exists(a0, a1), Expr::Exists(b0, b1)) => { let c = vars_order(a0, b0); if c != 0 { c } else { expr_order(&**a1, &**b1) } },
        (Expr::StrConst(a0), Expr::StrConst(b0)) => string_order(a0, b0),
        (Expr::StrConcat(a0), Expr::StrConcat(b0)) => exprs_order(a0, b0),
        (Expr::StrLen(a0), Expr::StrLen(b0)) => expr_order(&**a0, &**b0),
        (Expr::StrContains(a0, a1), Expr::StrContains(b0, b1)) => { let c = expr_order(&**a0, &**b0); if c != 0 { c } else { expr_order(&**a1, &**b1) } },
        _ => 0,
    }
}

/// Lexicographic order on term lists.
pub fn exprs_order(a: &Vec<Expr>, b: &Vec<Expr>) -> (r: i8)
    ensures
        r == sexprs_order(exprs_view(a@), exprs_view(b@)),
    decreases a,
{
    proof {
        lemma_exprs_view(a@);
        lemma_exprs_view(b@);
    }
    let mut i: usize = 0;
    assert(exprs_view(a@).skip(0) =~= exprs_view(a@));
    assert(exprs_view(b@).skip(0) =~= exprs_view(b@));
    while i < a.len() && i < b.len()
        invariant
            i <= a@.len(),
            i <= b@.len(),
            exprs_view(a@).len() == a@.len(),
            exprs_view(b@).len() == b@.len(),
            forall|j: int| 0 <= j < a@.len() ==> #[trigger] exprs_view(a@)[j] == a@[j]@,
            forall|j: int| 0 <= j < b@.len() ==> #[trigger] exprs_view(b@)[j] == b@[j]@,
            sexprs_order(exprs_view(a@), exprs_view(b@)) == sexprs_order(exprs_view(a@).skip(i as int), exprs_view(b@).skip(i as int)),
        decreases a@.len() - i,
    {
        proof {
            assert(decreases_to!(*a => a@[i as int]));
            assert(exprs_view(a@).skip(i as int).drop_first() =~= exprs_view(a@).skip(i + 1));
            assert(exprs_view(b@).skip(i as int).drop_first() =~= exprs_view(b@).skip(i + 1));
        }
        let c = expr_order(&a[i], &b[i]);
        if c != 0 {
            return c;
        }
        i += 1;
    }
    if i < a.len() {
        1
    } else if i < b.len() {
        -1
    } else {
        0
    }
}

} // verus!
