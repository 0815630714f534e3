//! Terms and sorts of the solver's input language.
pub mod fp;
pub mod order;

use vstd::prelude::*;
use crate::ast::fp::{FloatSort, FloatValue};
use crate::num::{Integer, Rational};

verus! {

broadcast use vstd::std_specs::vec::group_vec_axioms;

/// A sort.
#[derive(Debug, PartialEq, Eq, PartialOrd, Ord, Hash)]
pub enum Type {
    Unknown,
    Bool,
    Int,
    Real,
    Float(FloatSort),
    BitVec(usize),
    String,
    /// Index sort and element sort.
    Array(Box<Type>, Box<Type>),
    /// Parameter sorts and result sort.
    Fn(Vec<Type>, Box<Type>),
}

/// The mathematical value of a [`Type`].
pub enum SType {
    Unknown,
    Bool,
    Int,
    Real,
    Float(FloatSort),
    BitVec(usize),
    String,
    Array(Box<SType>, Box<SType>),
    Fn(Seq<SType>, Box<SType>),
}

/// The values of a sequence of sorts.
pub open spec fn types_view(s: Seq<Type>) -> Seq<SType>
    decreases s,
{
    if s.len() == 0 {
        seq![]
    } else {
        types_view(s.drop_last()).push(s.last().sv())
    }
}

pub proof fn lemma_types_view(s: Seq<Type>)
    ensures
        types_view(s).len() == s.len(),
        forall|i: int| 0 <= i < s.len() ==> #[trigger] types_view(s)[i] == s[i]@,
    decreases s.len(),
{
    if s.len() > 0 {
        lemma_types_view(s.drop_last());
    }
}

impl View for Type {
    type V = SType;

    open spec fn view(&self) -> SType {
        self.sv()
    }
}

impl Type {
    /// The value of this sort.
    pub open spec fn sv(&self) -> SType
        decreases self,
    {
        match self {
            Type::Unknown => SType::Unknown,
            Type::Bool => SType::Bool,
            Type::Int => SType::Int,
            Type::Real => SType::Real,
            Type::Float(s) => SType::Float(*s),
            Type::BitVec(w) => SType::BitVec(*w),
            Type::String => SType::String,
            Type::Array(i, e) => SType::Array(Box::new((**i).sv()), Box::new((**e).sv())),
            Type::Fn(ps, r) => SType::Fn(types_view(ps@), Box::new((**r).sv())),
        }
    }
}

fn clone_types(v: &Vec<Type>) -> (r: Vec<Type>)
    ensures
        types_view(r@) == types_view(v@),
    decreases v,
{
    let mut out: Vec<Type> = Vec::new();
    let mut i: usize = 0;
    while i < v.len()
        invariant
            i <= v@.len(),
            out@.len() == i,
            forall|j: int| 0 <= j < i ==> #[trigger] out@[j]@ == v@[j]@,
        decreases v@.len() - i,
    {
        proof {
            assert(decreases_to!(*v => v@[i as int]));
        }
        out.push(v[i].clone());
        i += 1;
    }
    proof {
        lemma_types_view(out@);
        lemma_types_view(v@);
        assert(types_view(out@) =~= types_view(v@));
    }
    out
}

fn types_eq(a: &Vec<Type>, b: &Vec<Type>) -> (r: bool)
    ensures
        r == (types_view(a@) == types_view(b@)),
    decreases a,
{
    proof {
        lemma_types_view(a@);
        lemma_types_view(b@);
    }
    if a.len() != b.len() {
        return false;
    }
    let mut i: usize = 0;
    while i < a.len()
        invariant
            i <= a@.len(),
            a@.len() == b@.len(),
            types_view(a@).len() == a@.len(),
            types_view(b@).len() == b@.len(),
            forall|j: int| 0 <= j < i ==> types_view(a@)[j] == types_view(b@)[j],
            forall|j: int| 0 <= j < a@.len() ==> #[trigger] types_view(a@)[j] == a@[j]@,
            forall|j: int| 0 <= j < b@.len() ==> #[trigger] types_view(b@)[j] == b@[j]@,
        decreases a@.len() - i,
    {
        proof {
            assert(decreases_to!(*a => a@[i as int]));
        }
        if !a[i].deep_eq(&b[i]) {
            assert(types_view(a@)[i as int] != types_view(b@)[i as int]);
            return false;
        }
        i += 1;
    }
    assert(types_view(a@) =~= types_view(b@));
    true
}

impl Clone for Type {
    fn clone(&self) -> (r: Self)
        ensures
            r@ == self@,
        decreases self,
    {
        match self {
            Type::Unknown => Type::Unknown,
            Type::Bool => Type::Bool,
            Type::Int => Type::Int,
            Type::Real => Type::Real,
            Type::Float(s) => Type::Float(*s),
            Type::BitVec(w) => Type::BitVec(*w),
            Type::String => Type::String,
            Type::Array(i, e) => Type::Array(Box::new((**i).clone()), Box::new((**e).clone())),
            Type::Fn(ps, r) => Type::Fn(clone_types(ps), Box::new((**r).clone())),
        }
    }
}

impl Type {
    /// Structural equality of sorts.
    pub fn deep_eq(&self, other: &Type) -> (r: bool)
        ensures
            r == (self@ == other@),
        decreases self,
    {
        match (self, other) {
            (Type::Unknown, Type::Unknown) => true,
            (Type::Bool, Type::Bool) => true,
            (Type::Int, Type::Int) => true,
            (Type::Real, Type::Real) => true,
            (Type::Float(a), Type::Float(b)) => a.exponent_bits == b.exponent_bits && a.significand_bits == b.significand_bits,
            (Type::BitVec(a), Type::BitVec(b)) => *a == *b,
            (Type::String, Type::String) => true,
            (Type::Array(a1, a2), Type::Array(b1, b2)) => (**a1).deep_eq(&**b1) && (**a2).deep_eq(&**b2),
            (Type::Fn(a1, a2), Type::Fn(b1, b2)) => types_eq(a1, b1) && (**a2).deep_eq(&**b2),
            _ => false,
        }
    }
}

/// A term or formula.
#[derive(Debug, PartialEq, Eq, PartialOrd, Ord, Hash)]
pub enum Expr {
    Bool(bool),
    Int(i64),
    /// Decimal `mantissa / 10^scale`.
    Real(i64, u32),
    /// A constant symbol and its sort.
    Var(String, Type),
    And(Vec<Expr>),
    Or(Vec<Expr>),
    Not(Box<Expr>),
    Implies(Box<Expr>, Box<Expr>),
    /// Condition, then-branch, else-branch.
    Ite(Box<Expr>, Box<Expr>, Box<Expr>),
    Eq(Box<Expr>, Box<Expr>),
    Lt(Box<Expr>, Box<Expr>),
    Le(Box<Expr>, Box<Expr>),
    Gt(Box<Expr>, Box<Expr>),
    Ge(Box<Expr>, Box<Expr>),
    Add(Vec<Expr>),
    Sub(Vec<Expr>),
    Mul(Vec<Expr>),
    Div(Box<Expr>, Box<Expr>),
    /// Function application.
    App(String, Vec<Expr>),
    /// Bit-vector value and width.
    BvConst(u64, usize),
    BvAdd(Box<Expr>, Box<Expr>),
    BvSub(Box<Expr>, Box<Expr>),
    BvMul(Box<Expr>, Box<Expr>),
    BvAnd(Box<Expr>, Box<Expr>),
    BvOr(Box<Expr>, Box<Expr>),
    BvXor(Box<Expr>, Box<Expr>),
    BvNot(Box<Expr>),
    BvShl(Box<Expr>, Box<Expr>),
    BvLshr(Box<Expr>, Box<Expr>),
    BvAshr(Box<Expr>, Box<Expr>),
    BvUle(Box<Expr>, Box<Expr>),
    BvUlt(Box<Expr>, Box<Expr>),
    BvSle(Box<Expr>, Box<Expr>),
    BvSlt(Box<Expr>, Box<Expr>),
    /// High bit, low bit, operand.
    BvExtract(usize, usize, Box<Expr>),
    BvConcat(Box<Expr>, Box<Expr>),
    /// Array, index.
    Select(Box<Expr>, Box<Expr>),
    /// Array, index, value.
    Store(Box<Expr>, Box<Expr>, Box<Expr>),
    /// Bound variables and body.
    ForAll(Vec<(String, Type)>, Box<Expr>),
    Exists(Vec<(String, Type)>, Box<Expr>),
    StrConst(String),
    StrConcat(Vec<Expr>),
    StrLen(Box<Expr>),
    StrContains(Box<Expr>, Box<Expr>),
}

/// The mathematical value of an [`Expr`].
pub enum SExpr {
    Bool(bool),
    Int(i64),
    Real(i64, u32),
    Var(Seq<char>, SType),
    And(Seq<SExpr>),
    Or(Seq<SExpr>),
    Not(Box<SExpr>),
    Implies(Box<SExpr>, Box<SExpr>),
    Ite(Box<SExpr>, Box<SExpr>, Box<SExpr>),
    Eq(Box<SExpr>, Box<SExpr>),
    Lt(Box<SExpr>, Box<SExpr>),
    Le(Box<SExpr>, Box<SExpr>),
    Gt(Box<SExpr>, Box<SExpr>),
    Ge(Box<SExpr>, Box<SExpr>),
    Add(Seq<SExpr>),
    Sub(Seq<SExpr>),
    Mul(Seq<SExpr>),
    Div(Box<SExpr>, Box<SExpr>),
    App(Seq<char>, Seq<SExpr>),
    BvConst(u64, usize),
    BvAdd(Box<SExpr>, Box<SExpr>),
    BvSub(Box<SExpr>, Box<SExpr>),
    BvMul(Box<SExpr>, Box<SExpr>),
    BvAnd(Box<SExpr>, Box<SExpr>),
    BvOr(Box<SExpr>, Box<SExpr>),
    BvXor(Box<SExpr>, Box<SExpr>),
    BvNot(Box<SExpr>),
    BvShl(Box<SExpr>, Box<SExpr>),
    BvLshr(Box<SExpr>, Box<SExpr>),
    BvAshr(Box<SExpr>, Box<SExpr>),
    BvUle(Box<SExpr>, Box<SExpr>),
    BvUlt(Box<SExpr>, Box<SExpr>),
    BvSle(Box<SExpr>, Box<SExpr>),
    BvSlt(Box<SExpr>, Box<SExpr>),
    BvExtract(usize, usize, Box<SExpr>),
    BvConcat(Box<SExpr>, Box<SExpr>),
    Select(Box<SExpr>, Box<SExpr>),
    Store(Box<SExpr>, Box<SExpr>, Box<SExpr>),
    ForAll(Seq<(Seq<char>, SType)>, Box<SExpr>),
    Exists(Seq<(Seq<char>, SType)>, Box<SExpr>),
    StrConst(Seq<char>),
    StrConcat(Seq<SExpr>),
    StrLen(Box<SExpr>),
    StrContains(Box<SExpr>, Box<SExpr>),
}

/// The values of a sequence of terms.
pub open spec fn exprs_view(s: Seq<Expr>) -> Seq<SExpr>
    decreases s,
{
    if s.len() == 0 {
        seq![]
    } else {
        exprs_view(s.drop_last()).push(s.last().sv())
    }
}

pub proof fn lemma_exprs_view(s: Seq<Expr>)
    ensures
        exprs_view(s).len() == s.len(),
        forall|i: int| 0 <= i < s.len() ==> #[trigger] exprs_view(s)[i] == s[i]@,
    decreases s.len(),
{
    if s.len() > 0 {
        lemma_exprs_view(s.drop_last());
    }
}

/// The value of a bound-variable list.
pub open spec fn vars_view(s: Seq<(String, Type)>) -> Seq<(Seq<char>, SType)> {
    Seq::new(s.len(), |i: int| (s[i].0@, s[i].1@))
}

impl View for Expr {
    type V = SExpr;

    open spec fn view(&self) -> SExpr {
        self.sv()
    }
}

impl Expr {
    /// The value of this term.
    pub open spec fn sv(&self) -> SExpr
        decreases self,
    {
        match self {
            Expr::Bool(f0) => SExpr::Bool(*f0),
            Expr::Int(f0) => SExpr::Int(*f0),
            Expr::Real(f0, f1) => SExpr::Real(*f0, *f1),
            Expr::Var(f0, f1) => SExpr::Var(f0@, f1.sv()),
            Expr::And(f0) => SExpr::And(exprs_view(f0@)),
            Expr::Or(f0) => SExpr::Or(exprs_view(f0@)),
            Expr::Not(f0) => SExpr::Not(Box::new((**f0).sv())),
            Expr::Implies(f0, f1) => SExpr::Implies(Box::new((**f0).sv()), Box::new((**f1).sv())),
            Expr::Ite(f0, f1, f2) => SExpr::Ite(Box::new((**f0).sv()), Box::new((**f1).sv()), Box::new((**f2).sv())),
            Expr::Eq(f0, f1) => SExpr::Eq(Box::new((**f0).sv()), Box::new((**f1).sv())),
            Expr::Lt(f0, f1) => SExpr::Lt(Box::new((**f0).sv()), Box::new((**f1).sv())),
            Expr::Le(f0, f1) => SExpr::Le(Box::new((**f0).sv()), Box::new((**f1).sv())),
            Expr::Gt(f0, f1) => SExpr::Gt(Box::new((**f0).sv()), Box::new((**f1).sv())),
            Expr::Ge(f0, f1) => SExpr::Ge(Box::new((**f0).sv()), Box::new((**f1).sv())),
            Expr::Add(f0) => SExpr::Add(exprs_view(f0@)),
            Expr::Sub(f0) => SExpr::Sub(exprs_view(f0@)),
            Expr::Mul(f0) => SExpr::Mul(exprs_view(f0@)),
            Expr::Div(f0, f1) => SExpr::Div(Box::new((**f0).sv()), Box::new((**f1).sv())),
            Expr::App(f0, f1) => SExpr::App(f0@, exprs_view(f1@)),
            Expr::BvConst(f0, f1) => SExpr::BvConst(*f0, *f1),
            Expr::BvAdd(f0, f1) => SExpr::BvAdd(Box::new((**f0).sv()), Box::new((**f1).sv())),
            Expr::BvSub(f0, f1) => SExpr::BvSub(Box::new((**f0).sv()), Box::new((**f1).sv())),
            Expr::BvMul(f0, f1) => SExpr::BvMul(Box::new((**f0).sv()), Box::new((**f1).sv())),
            Expr::BvAnd(f0, f1) => SExpr::BvAnd(Box::new((**f0).sv()), Box::new((**f1).sv())),
            Expr::BvOr(f0, f1) => SExpr::BvOr(Box::new((**f0).sv()), Box::new((**f1).sv())),
            Expr::BvXor(f0, f1) => SExpr::BvXor(Box::new((**f0).sv()), Box::new((**f1).sv())),
            Expr::BvNot(f0) => SExpr::BvNot(Box::new((**f0).sv())),
            Expr::BvShl(f0, f1) => SExpr::BvShl(Box::new((**f0).sv()), Box::new((**f1).sv())),
            Expr::BvLshr(f0, f1) => SExpr::BvLshr(Box::new((**f0).sv()), Box::new((**f1).sv())),
            Expr::BvAshr(f0, f1) => SExpr::BvAshr(Box::new((**f0).sv()), Box::new((**f1).sv())),
            Expr::BvUle(f0, f1) => SExpr::BvUle(Box::new((**f0).sv()), Box::new((**f1).sv())),
            Expr::BvUlt(f0, f1) => SExpr::BvUlt(Box::new((**f0).sv()), Box::new((**f1).sv())),
            Expr::BvSle(f0, f1) => SExpr::BvSle(Box::new((**f0).sv()), Box::new((**f1).sv())),
            Expr::BvSlt(f0, f1) => SExpr::BvSlt(Box::new((**f0).sv()), Box::new((**f1).sv())),
            Expr::BvExtract(f0, f1, f2) => SExpr::BvExtract(*f0, *f1, Box::new((**f2).sv())),
            Expr::BvConcat(f0, f1) => SExpr::BvConcat(Box::new((**f0).sv()), Box::new((**f1).sv())),
            Expr::Select(f0, f1) => SExpr::Select(Box::new((**f0).sv()), Box::new((**f1).sv())),
            Expr::Store(f0, f1, f2) => SExpr::Store(Box::new((**f0).sv()), Box::new((**f1).sv()), Box::new((**f2).sv())),
            Expr::ForAll(f0, f1) => SExpr::ForAll(vars_view(f0@), Box::new((**f1).sv())),
            Expr::Exists(f0, f1) => SExpr::Exists(vars_view(f0@), Box::new((**f1).sv())),
            Expr::StrConst(f0) => SExpr::StrConst(f0@),
            Expr::StrConcat(f0) => SExpr::StrConcat(exprs_view(f0@)),
            Expr::StrLen(f0) => SExpr::StrLen(Box::new((**f0).sv())),
            Expr::StrContains(f0, f1) => SExpr::StrContains(Box::new((**f0).sv()), Box::new((**f1).sv())),
        }
    }
}

/// A list of terms with the same values as `v`.
pub fn clone_exprs(v: &Vec<Expr>) -> (r: Vec<Expr>)
    ensures
        r@.len() == v@.len(),
        forall|j: int| 0 <= j < v@.len() ==> #[trigger] r@[j]@ == v@[j]@,
        exprs_view(r@) == exprs_view(v@),
    decreases v,
{
    let mut out: Vec<Expr> = Vec::new();
    let mut i: usize = 0;
    while i < v.len()
        invariant
            i <= v@.len(),
            out@.len() == i,
            forall|j: int| 0 <= j < i ==> #[trigger] out@[j]@ == v@[j]@,
        decreases v@.len() - i,
    {
        proof {
            assert(decreases_to!(*v => v@[i as int]));
        }
        out.push(v[i].clone());
        i += 1;
    }
    proof {
        lemma_exprs_view(out@);
        lemma_exprs_view(v@);
        assert(exprs_view(out@) =~= exprs_view(v@));
    }
    out
}

/// A bound-variable list with the same value as `v`.
pub fn clone_vars(v: &Vec<(String, Type)>) -> (r: Vec<(String, Type)>)
    ensures
        vars_view(r@) == vars_view(v@),
{
    let mut out: Vec<(String, Type)> = Vec::new();
    let mut i: usize = 0;
    while i < v.len()
        invariant
            i <= v@.len(),
            out@.len() == i,
            forall|j: int| 0 <= j < i ==> #[trigger] out@[j].0@ == v@[j].0@ && out@[j].1@ == v@[j].1@,
        decreases v@.len() - i,
    {
        let (name, ty) = &v[i];
        out.push((name.clone(), ty.clone()));
        i += 1;
    }
    assert(vars_view(out@) =~= vars_view(v@));
    out
}

/// Whether two term lists have the same values.
pub fn exprs_eq(a: &Vec<Expr>, b: &Vec<Expr>) -> (r: bool)
    ensures
        r == (exprs_view(a@) == exprs_view(b@)),
    decreases a,
{
    proof {
        lemma_exprs_view(a@);
        lemma_exprs_view(b@);
    }
    if a.len() != b.len() {
        return false;
    }
    let mut i: usize = 0;
    while i < a.len()
        invariant
            i <= a@.len(),
            a@.len() == b@.len(),
            exprs_view(a@).len() == a@.len(),
            exprs_view(b@).len() == b@.len(),
            forall|j: int| 0 <= j < i ==> exprs_view(a@)[j] == exprs_view(b@)[j],
            forall|j: int| 0 <= j < a@.len() ==> #[trigger] exprs_view(a@)[j] == a@[j]@,
            forall|j: int| 0 <= j < b@.len() ==> #[trigger] exprs_view(b@)[j] == b@[j]@,
        decreases a@.len() - i,
    {
        proof {
            assert(decreases_to!(*a => a@[i as int]));
        }
        if !a[i].deep_eq(&b[i]) {
            assert(exprs_view(a@)[i as int] != exprs_view(b@)[i as int]);
            return false;
        }
        i += 1;
    }
    assert(exprs_view(a@) =~= exprs_view(b@));
    true
}

/// Whether two bound-variable lists have the same value.
pub fn vars_eq(a: &Vec<(String, Type)>, b: &Vec<(String, Type)>) -> (r: bool)
    ensures
        r == (vars_view(a@) == vars_view(b@)),
{
    if a.len() != b.len() {
        assert(vars_view(a@).len() != vars_view(b@).len());
        return false;
    }
    let mut i: usize = 0;
    while i < a.len()
        invariant
            i <= a@.len(),
            a@.len() == b@.len(),
            forall|j: int| 0 <= j < i ==> vars_view(a@)[j] == vars_view(b@)[j],
        decreases a@.len() - i,
    {
        let (n1, t1) = &a[i];
        let (n2, t2) = &b[i];
        if !(*n1 == *n2 && t1.deep_eq(t2)) {
            assert(vars_view(a@)[i as int] != vars_view(b@)[i as int]);
            return false;
        }
        i += 1;
    }
    assert(vars_view(a@) =~= vars_view(b@));
    true
}

impl Clone for Expr {
    fn clone(&self) -> (r: Self)
        ensures
            r@ == self@,
        decreases self,
    {
        match self {
            Expr::Bool(f0) => Expr::Bool(*f0),
            Expr::Int(f0) => Expr::Int(*f0),
            Expr::Real(f0, f1) => Expr::Real(*f0, *f1),
            Expr::Var(f0, f1) => Expr::Var(f0.clone(), f1.clone()),
            Expr::And(f0) => Expr::And(clone_exprs(f0)),
            Expr::Or(f0) => Expr::Or(clone_exprs(f0)),
            Expr::Not(f0) => Expr::Not(Box::new((**f0).clone())),
            Expr::Implies(f0, f1) => Expr::Implies(Box::new((**f0).clone()), Box::new((**f1).clone())),
            Expr::Ite(f0, f1, f2) => Expr::Ite(Box::new((**f0).clone()), Box::new((**f1).clone()), Box::new((**f2).clone())),
            Expr::Eq(f0, f1) => Expr::Eq(Box::new((**f0).clone()), Box::new((**f1).clone())),
            Expr::Lt(f0, f1) => Expr::Lt(Box::new((**f0).clone()), Box::new((**f1).clone())),
            Expr::Le(f0, f1) => Expr::Le(Box::new((**f0).clone()), Box::new((**f1).clone())),
            Expr::Gt(f0, f1) => Expr::Gt(Box::new((**f0).clone()), Box::new((**f1).clone())),
            Expr::Ge(f0, f1) => Expr::Ge(Box::new((**f0).clone()), Box::new((**f1).clone())),
            Expr::Add(f0) => Expr::Add(clone_exprs(f0)),
            Expr::Sub(f0) => Expr::Sub(clone_exprs(f0)),
            Expr::Mul(f0) => Expr::Mul(clone_exprs(f0)),
            Expr::Div(f0, f1) => Expr::Div(Box::new((**f0).clone()), Box::new((**f1).clone())),
            Expr::App(f0, f1) => Expr::App(f0.clone(), clone_exprs(f1)),
            Expr::BvConst(f0, f1) => Expr::BvConst(*f0, *f1),
            Expr::BvAdd(f0, f1) => Expr::BvAdd(Box::new((**f0).clone()), Box::new((**f1).clone())),
            Expr::BvSub(f0, f1) => Expr::BvSub(Box::new((**f0).clone()), Box::new((**f1).clone())),
            Expr::BvMul(f0, f1) => Expr::BvMul(Box::new((**f0).clone()), Box::new((**f1).clone())),
            Expr::BvAnd(f0, f1) => Expr::BvAnd(Box::new((**f0).clone()), Box::new((**f1).clone())),
            Expr::BvOr(f0, f1) => Expr::BvOr(Box::new((**f0).clone()), Box::new((**f1).clone())),
            Expr::BvXor(f0, f1) => Expr::BvXor(Box::new((**f0).clone()), Box::new((**f1).clone())),
            Expr::BvNot(f0) => Expr::BvNot(Box::new((**f0).clone())),
            Expr::BvShl(f0, f1) => Expr::BvShl(Box::new((**f0).clone()), Box::new((**f1).clone())),
            Expr::BvLshr(f0, f1) => Expr::BvLshr(Box::new((**f0).clone()), Box::new((**f1).clone())),
            Expr::BvAshr(f0, f1) => Expr::BvAshr(Box::new((**f0).clone()), Box::new((**f1).clone())),
            Expr::BvUle(f0, f1) => Expr::BvUle(Box::new((**f0).clone()), Box::new((**f1).clone())),
            Expr::BvUlt(f0, f1) => Expr::BvUlt(Box::new((**f0).clone()), Box::new((**f1).clone())),
            Expr::BvSle(f0, f1) => Expr::BvSle(Box::new((**f0).clone()), Box::new((**f1).clone())),
            Expr::BvSlt(f0, f1) => Expr::BvSlt(Box::new((**f0).clone()), Box::new((**f1).clone())),
            Expr::BvExtract(f0, f1, f2) => Expr::BvExtract(*f0, *f1, Box::new((**f2).clone())),
            Expr::BvConcat(f0, f1) => Expr::BvConcat(Box::new((**f0).clone()), Box::new((**f1).clone())),
            Expr::Select(f0, f1) => Expr::Select(Box::new((**f0).clone()), Box::new((**f1).clone())),
            Expr::Store(f0, f1, f2) => Expr::Store(Box::new((**f0).clone()), Box::new((**f1).clone()), Box::new((**f2).clone())),
            Expr::ForAll(f0, f1) => Expr::ForAll(clone_vars(f0), Box::new((**f1).clone())),
            Expr::Exists(f0, f1) => Expr::Exists(clone_vars(f0), Box::new((**f1).clone())),
            Expr::StrConst(f0) => Expr::StrConst(f0.clone()),
            Expr::StrConcat(f0) => Expr::StrConcat(clone_exprs(f0)),
            Expr::StrLen(f0) => Expr::StrLen(Box::new((**f0).clone())),
            Expr::StrContains(f0, f1) => Expr::StrContains(Box::new((**f0).clone()), Box::new((**f1).clone())),
        }
    }
}

impl Expr {
    /// Structural equality of terms.
    pub fn deep_eq(&self, other: &Expr) -> (r: bool)
        ensures
            r == (self@ == other@),
        decreases self,
    {
        match (self, other) {
            (Expr::Bool(a0), Expr::Bool(b0)) => *a0 == *b0,
            (Expr::Int(a0), Expr::Int(b0)) => *a0 == *b0,
            (Expr::Real(a0, a1), Expr::Real(b0, b1)) => *a0 == *b0 && *a1 == *b1,
            (Expr::Var(a0, a1), Expr::Var(b0, b1)) => *a0 == *b0 && a1.deep_eq(b1),
            (Expr::And(a0), Expr::And(b0)) => exprs_eq(a0, b0),
            (Expr::Or(a0), Expr::Or(b0)) => exprs_eq(a0, b0),
            (Expr::Not(a0), Expr::Not(b0)) => (**a0).deep_eq(&**b0),
            (Expr::Implies(a0, a1), Expr::Implies(b0, b1)) => (**a0).deep_eq(&**b0) && (**a1).deep_eq(&**b1),
            (Expr::Ite(a0, a1, a2), Expr::Ite(b0, b1, b2)) => (**a0).deep_eq(&**b0) && (**a1).deep_eq(&**b1) && (**a2).deep_eq(&**b2),
            (Expr::Eq(a0, a1), Expr::Eq(b0, b1)) => (**a0).deep_eq(&**b0) && (**a1).deep_eq(&**b1),
            (Expr::Lt(a0, a1), Expr::Lt(b0, b1)) => (**a0).deep_eq(&**b0) && (**a1).deep_eq(&**b1),
            (Expr::Le(a0, a1), Expr::Le(b0, b1)) => (**a0).deep_eq(&**b0) && (**a1).deep_eq(&**b1),
            (Expr::Gt(a0, a1), Expr::Gt(b0, b1)) => (**a0).deep_eq(&**b0) && (**a1).deep_eq(&**b1),
            (Expr::Ge(a0, a1), Expr::Ge(b0, b1)) => (**a0).deep_eq(&**b0) && (**a1).deep_eq(&**b1),
            (Expr::Add(a0), Expr::Add(b0)) => exprs_eq(a0, b0),
            (Expr::Sub(a0), Expr::Sub(b0)) => exprs_eq(a0, b0),
            (Expr::Mul(a0), Expr::Mul(b0)) => exprs_eq(a0, b0),
            (Expr::Div(a0, a1), Expr::Div(b0, b1)) => (**a0).deep_eq(&**b0) && (**a1).deep_eq(&**b1),
            (Expr::App(a0, a1), Expr::App(b0, b1)) => *a0 == *b0 && exprs_eq(a1, b1),
            (Expr::BvConst(a0, a1), Expr::BvConst(b0, b1)) => *a0 == *b0 && *a1 == *b1,
            (Expr::BvAdd(a0, a1), Expr::BvAdd(b0, b1)) => (**a0).deep_eq(&**b0) && (**a1).deep_eq(&**b1),
            (Expr::BvSub(a0, a1), Expr::BvSub(b0, b1)) => (**a0).deep_eq(&**b0) && (**a1).deep_eq(&**b1),
            (Expr::BvMul(a0, a1), Expr::BvMul(b0, b1)) => (**a0).deep_eq(&**b0) && (**a1).deep_eq(&**b1),
            (Expr::BvAnd(a0, a1), Expr::BvAnd(b0, b1)) => (**a0).deep_eq(&**b0) && (**a1).deep_eq(&**b1),
            (Expr::BvOr(a0, a1), Expr::BvOr(b0, b1)) => (**a0).deep_eq(&**b0) && (**a1).deep_eq(&**b1),
            (Expr::BvXor(a0, a1), Expr::BvXor(b0, b1)) => (**a0).deep_eq(&**b0) && (**a1).deep_eq(&**b1),
            (Expr::BvNot(a0), Expr::BvNot(b0)) => (**a0).deep_eq(&**b0),
            (Expr::BvShl(a0, a1), Expr::BvShl(b0, b1)) => (**a0).deep_eq(&**b0) && (**a1).deep_eq(&**b1),
            (Expr::BvLshr(a0, a1), Expr::BvLshr(b0, b1)) => (**a0).deep_eq(&**b0) && (**a1).deep_eq(&**b1),
            (Expr::BvAshr(a0, a1), Expr::BvAshr(b0, b1)) => (**a0).deep_eq(&**b0) && (**a1).deep_eq(&**b1),
            (Expr::BvUle(a0, a1), Expr::BvUle(b0, b1)) => (**a0).deep_eq(&**b0) && (**a1).deep_eq(&**b1),
            (Expr::BvUlt(a0, a1), Expr::BvUlt(b0, b1)) => (**a0).deep_eq(&**b0) && (**a1).deep_eq(&**b1),
            (Expr::BvSle(a0, a1), Expr::BvSle(b0, b1)) => (**a0).deep_eq(&**b0) && (**a1).deep_eq(&**b1),
            (Expr::BvSlt(a0, a1), Expr::BvSlt(b0, b1)) => (**a0).deep_eq(&**b0) && (**a1).deep_eq(&**b1),
            (Expr::BvExtract(a0, a1, a2), Expr::BvExtract(b0, b1, b2)) => *a0 == *b0 && *a1 == *b1 && (**a2).deep_eq(&**b2),
            (Expr::BvConcat(a0, a1), Expr::BvConcat(b0, b1)) => (**a0).deep_eq(&**b0) && (**a1).deep_eq(&**b1),
            (Expr::Select(a0, a1), Expr::Select(b0, b1)) => (**a0).deep_eq(&**b0) && (**a1).deep_eq(&**b1),
            (Expr::Store(a0, a1, a2), Expr::Store(b0, b1, b2)) => (**a0).deep_eq(&**b0) && (**a1).deep_eq(&**b1) && (**a2).deep_eq(&**b2),
            (Expr::ForAll(a0, a1), Expr::ForAll(b0, b1)) => vars_eq(a0, b0) && (**a1).deep_eq(&**b1),
            (Expr::Exists(a0, a1), Expr::Exists(b0, b1)) => vars_eq(a0, b0) && (**a1).deep_eq(&**b1),
            (Expr::StrConst(a0), Expr::StrConst(b0)) => *a0 == *b0,
            (Expr::StrConcat(a0), Expr::StrConcat(b0)) => exprs_eq(a0, b0),
            (Expr::StrLen(a0), Expr::StrLen(b0)) => (**a0).deep_eq(&**b0),
            (Expr::StrContains(a0, a1), Expr::StrContains(b0, b1)) => (**a0).deep_eq(&**b0) && (**a1).deep_eq(&**b1),
            _ => false,
        }
    }
}

/// The sort of a term (`get_type`), on values.
pub open spec fn spec_get_type(e: SExpr) -> SType
    decreases e,
{
    match e {
        SExpr::Bool(_) | SExpr::And(_) | SExpr::Or(_) | SExpr::Not(_) | SExpr::Implies(_, _)
        | SExpr::Eq(_, _) | SExpr::Lt(_, _) | SExpr::Le(_, _) | SExpr::Gt(_, _) | SExpr::Ge(_, _)
        | SExpr::StrContains(_, _) | SExpr::BvUle(_, _) | SExpr::BvUlt(_, _) | SExpr::BvSle(_, _)
        | SExpr::BvSlt(_, _) | SExpr::ForAll(_, _) | SExpr::Exists(_, _) => SType::Bool,
        SExpr::Int(_) | SExpr::Add(_) | SExpr::Sub(_) | SExpr::Mul(_) | SExpr::Div(_, _)
        | SExpr::StrLen(_) => SType::Int,
        SExpr::Real(_, _) => SType::Real,
        SExpr::Var(_, ty) => ty,
        SExpr::BvConst(_, w) => SType::BitVec(w),
        SExpr::BvAdd(a, _) | SExpr::BvSub(a, _) | SExpr::BvMul(a, _) | SExpr::BvAnd(a, _)
        | SExpr::BvOr(a, _) | SExpr::BvXor(a, _) | SExpr::BvNot(a) | SExpr::BvShl(a, _)
        | SExpr::BvLshr(a, _) | SExpr::BvAshr(a, _) => spec_get_type(*a),
        SExpr::BvExtract(h, l, _) => SType::BitVec(
            vstd::wrapping::usize_specs::wrapping_add(vstd::wrapping::usize_specs::wrapping_sub(h, l), 1),
        ),
        SExpr::BvConcat(a, b) => match (spec_get_type(*a), spec_get_type(*b)) {
            (SType::BitVec(wa), SType::BitVec(wb)) => SType::BitVec(vstd::wrapping::usize_specs::wrapping_add(wa, wb)),
            _ => SType::BitVec(0),
        },
        SExpr::Select(a, _) => match spec_get_type(*a) {
            SType::Array(_, ety) => *ety,
            _ => SType::Int,
        },
        SExpr::Store(a, _, _) => spec_get_type(*a),
        SExpr::StrConst(_) | SExpr::StrConcat(_) => SType::String,
        SExpr::App(_, _) => SType::Unknown,
        SExpr::Ite(_, t, _) => spec_get_type(*t),
    }
}

/// Whether the symbol `name` occurs in a position that `contains_var` searches.
pub open spec fn spec_contains_var(e: SExpr, name: Seq<char>) -> bool
    decreases e,
{
    match e {
        SExpr::Var(n, _) => n == name,
        SExpr::And(args) | SExpr::Or(args) | SExpr::Add(args) | SExpr::Mul(args) | SExpr::App(_, args) =>
            seq_contains_var(args, name),
        SExpr::Not(a) | SExpr::BvNot(a) | SExpr::StrLen(a) => spec_contains_var(*a, name),
        SExpr::Implies(a, b) | SExpr::Eq(a, b) | SExpr::Lt(a, b) | SExpr::Le(a, b) | SExpr::Gt(a, b)
        | SExpr::Ge(a, b) | SExpr::Div(a, b) | SExpr::BvAdd(a, b) | SExpr::BvSub(a, b)
        | SExpr::BvMul(a, b) | SExpr::BvAnd(a, b) | SExpr::BvOr(a, b) | SExpr::BvXor(a, b)
        | SExpr::BvShl(a, b) | SExpr::BvLshr(a, b) | SExpr::BvAshr(a, b) | SExpr::BvUle(a, b)
        | SExpr::BvUlt(a, b) | SExpr::BvSle(a, b) | SExpr::BvSlt(a, b) | SExpr::BvConcat(a, b)
        | SExpr::Select(a, b) | SExpr::StrContains(a, b) =>
            spec_contains_var(*a, name) || spec_contains_var(*b, name),
        SExpr::Ite(c, t, f) | SExpr::Store(c, t, f) =>
            spec_contains_var(*c, name) || spec_contains_var(*t, name) || spec_contains_var(*f, name),
        _ => false,
    }
}

/// Whether some term of `s` contains `name`.
pub open spec fn seq_contains_var(s: Seq<SExpr>, name: Seq<char>) -> bool
    decreases s,
{
    if s.len() == 0 {
        false
    } else {
        seq_contains_var(s.drop_last(), name) || spec_contains_var(s.last(), name)
    }
}

pub proof fn lemma_seq_contains_var(s: Seq<SExpr>, name: Seq<char>)
    ensures
        seq_contains_var(s, name) <==> exists|i: int| 0 <= i < s.len() && #[trigger] spec_contains_var(s[i], name),
    decreases s.len(),
{
    if s.len() > 0 {
        let t = s.drop_last();
        lemma_seq_contains_var(t, name);
        assert forall|i: int| 0 <= i < t.len() implies #[trigger] t[i] == s[i] by {}
        if seq_contains_var(s, name) {
            if seq_contains_var(t, name) {
                let i = choose|i: int| 0 <= i < t.len() && #[trigger] spec_contains_var(t[i], name);
                assert(spec_contains_var(s[i], name));
            } else {
                assert(spec_contains_var(s[s.len() - 1], name));
            }
        }
        if exists|i: int| 0 <= i < s.len() && #[trigger] spec_contains_var(s[i], name) {
            let i = choose|i: int| 0 <= i < s.len() && #[trigger] spec_contains_var(s[i], name);
            if i < s.len() - 1 {
                assert(spec_contains_var(t[i], name));
            }
        }
    }
}

/// The map denoted by a binding list: later bindings shadow earlier ones.
pub open spec fn bindings_map(s: Seq<(String, Expr)>) -> Map<Seq<char>, SExpr>
    decreases s.len(),
{
    if s.len() == 0 {
        Map::empty()
    } else {
        bindings_map(s.drop_last()).insert(s.last().0@, s.last().1@)
    }
}

/// Bindings with the same names and term values give the same map.
pub proof fn lemma_bindings_map_views(a: Seq<(String, Expr)>, b: Seq<(String, Expr)>)
    requires
        a.len() == b.len(),
        forall|i: int| 0 <= i < a.len() ==> (#[trigger] a[i]).0@ == b[i].0@ && a[i].1@ == b[i].1@,
    ensures
        bindings_map(a) == bindings_map(b),
    decreases a.len(),
{
    if a.len() > 0 {
        lemma_bindings_map_views(a.drop_last(), b.drop_last());
        assert(a.last().0@ == b.last().0@);
    }
}

/// A copy of a list of bindings.
pub fn clone_bindings(v: &Vec<(String, Expr)>) -> (r: Vec<(String, Expr)>)
    ensures
        bindings_map(r@) == bindings_map(v@),
        r@.len() == v@.len(),
{
    let mut out: Vec<(String, Expr)> = Vec::new();
    let mut i: usize = 0;
    while i < v.len()
        invariant
            i <= v@.len(),
            out@.len() == i,
            forall|q: int| 0 <= q < i ==> (#[trigger] out@[q]).0@ == v@[q].0@ && out@[q].1@ == v@[q].1@,
        decreases v@.len() - i,
    {
        out.push((v[i].0.clone(), v[i].1.clone()));
        i += 1;
    }
    proof {
        lemma_bindings_map_views(out@, v@);
    }
    out
}

/// A substitution: symbol names bound to terms.
#[derive(Debug)]
pub struct Bindings {
    pub entries: Vec<(String, Expr)>,
}

impl View for Bindings {
    type V = Map<Seq<char>, SExpr>;

    open spec fn view(&self) -> Map<Seq<char>, SExpr> {
        bindings_map(self.entries@)
    }
}

impl Bindings {
    pub fn new() -> (r: Bindings)
        ensures
            r@ == Map::<Seq<char>, SExpr>::empty(),
    {
        Bindings { entries: Vec::new() }
    }

    /// Binds `name` to `value`, replacing any earlier binding.
    pub fn insert(&mut self, name: String, value: Expr)
        ensures
            final(self)@ == old(self)@.insert(name@, value@),
    {
        self.entries.push((name, value));
        assert(self.entries@.drop_last() =~= old(self).entries@);
    }

    /// The term bound to `name`.
    pub fn get(&self, name: &String) -> (r: Option<&Expr>)
        ensures
            r is Some <==> self@.contains_key(name@),
            r matches Some(e) ==> e@ == self@[name@],
    {
        let mut i = self.entries.len();
        assert(self.entries@.subrange(0, i as int) =~= self.entries@);
        while i > 0
            invariant
                i <= self.entries@.len(),
                bindings_map(self.entries@.subrange(0, i as int)).contains_key(name@) == self@.contains_key(name@),
                bindings_map(self.entries@.subrange(0, i as int)).contains_key(name@) ==>
                    bindings_map(self.entries@.subrange(0, i as int))[name@] == self@[name@],
            decreases i,
        {
            assert(self.entries@.subrange(0, i as int).drop_last() =~= self.entries@.subrange(0, i - 1));
            if self.entries[i - 1].0 == *name {
                return Some(&self.entries[i - 1].1);
            }
            i -= 1;
        }
        assert(self.entries@.subrange(0, 0) =~= Seq::<(String, Expr)>::empty());
        None
    }

    pub fn is_empty(&self) -> (r: bool)
        ensures
            r == (self.entries@.len() == 0),
            r ==> self@ == Map::<Seq<char>, SExpr>::empty(),
    {
        self.entries.len() == 0
    }
}

/// Substitution on values: bound symbols are replaced in the positions that `substitute` visits.
pub open spec fn spec_substitute(e: SExpr, m: Map<Seq<char>, SExpr>) -> SExpr
    decreases e,
{
    match e {
        SExpr::Var(name, _) => if m.contains_key(name) { m[name] } else { e },
        SExpr::And(args) => SExpr::And(seq_substitute(args, m)),
        SExpr::Or(args) => SExpr::Or(seq_substitute(args, m)),
        SExpr::Not(a) => SExpr::Not(Box::new(spec_substitute(*a, m))),
        SExpr::Implies(a, b) => SExpr::Implies(Box::new(spec_substitute(*a, m)), Box::new(spec_substitute(*b, m))),
        SExpr::Eq(a, b) => SExpr::Eq(Box::new(spec_substitute(*a, m)), Box::new(spec_substitute(*b, m))),
        SExpr::Add(args) => SExpr::Add(seq_substitute(args, m)),
        SExpr::App(f, args) => SExpr::App(f, seq_substitute(args, m)),
        SExpr::Select(a, i) => SExpr::Select(Box::new(spec_substitute(*a, m)), Box::new(spec_substitute(*i, m))),
        SExpr::Store(a, i, v) => SExpr::Store(
            Box::new(spec_substitute(*a, m)),
            Box::new(spec_substitute(*i, m)),
            Box::new(spec_substitute(*v, m)),
        ),
        _ => e,
    }
}

/// Element-wise substitution.
pub open spec fn seq_substitute(s: Seq<SExpr>, m: Map<Seq<char>, SExpr>) -> Seq<SExpr>
    decreases s,
{
    if s.len() == 0 {
        seq![]
    } else {
        seq_substitute(s.drop_last(), m).push(spec_substitute(s.last(), m))
    }
}

pub proof fn lemma_seq_substitute(s: Seq<SExpr>, m: Map<Seq<char>, SExpr>)
    ensures
        seq_substitute(s, m).len() == s.len(),
        forall|i: int| 0 <= i < s.len() ==> #[trigger] seq_substitute(s, m)[i] == spec_substitute(s[i], m),
    decreases s.len(),
{
    if s.len() > 0 {
        lemma_seq_substitute(s.drop_last(), m);
    }
}

impl Expr {
    /// The sort of this term.
    pub fn get_type(&self) -> (r: Type)
        ensures
            r@ == spec_get_type(self@),
        decreases self,
    {
        match self {
            Expr::Bool(_) | Expr::And(_) | Expr::Or(_) | Expr::Not(_) | Expr::Implies(_, _)
            | Expr::Eq(_, _) | Expr::Lt(_, _) | Expr::Le(_, _) | Expr::Gt(_, _) | Expr::Ge(_, _)
            | Expr::StrContains(_, _) | Expr::BvUle(_, _) | Expr::BvUlt(_, _) | Expr::BvSle(_, _)
            | Expr::BvSlt(_, _) | Expr::ForAll(_, _) | Expr::Exists(_, _) => Type::Bool,
            Expr::Int(_) | Expr::Add(_) | Expr::Sub(_) | Expr::Mul(_) | Expr::Div(_, _)
            | Expr::StrLen(_) => Type::Int,
            Expr::Real(_, _) => Type::Real,
            Expr::Var(_, ty) => ty.clone(),
            Expr::BvConst(_, w) => Type::BitVec(*w),
            Expr::BvAdd(a, _) | Expr::BvSub(a, _) | Expr::BvMul(a, _) | Expr::BvAnd(a, _)
            | Expr::BvOr(a, _) | Expr::BvXor(a, _) | Expr::BvNot(a) | Expr::BvShl(a, _)
            | Expr::BvLshr(a, _) | Expr::BvAshr(a, _) => (**a).get_type(),
            Expr::BvExtract(h, l, _) => Type::BitVec(h.wrapping_sub(*l).wrapping_add(1)),
            Expr::BvConcat(a, b) => {
                let ta = (**a).get_type();
                let tb = (**b).get_type();
                match (ta, tb) {
                    (Type::BitVec(wa), Type::BitVec(wb)) => Type::BitVec(wa.wrapping_add(wb)),
                    _ => Type::BitVec(0),
                }
            },
            Expr::Select(a, _) => {
                let ta = (**a).get_type();
                match ta {
                    Type::Array(_, ety) => *ety,
                    _ => Type::Int,
                }
            },
            Expr::Store(a, _, _) => (**a).get_type(),
            Expr::StrConst(_) | Expr::StrConcat(_) => Type::String,
            Expr::App(_, _) => Type::Unknown,
            Expr::Ite(_, t, _) => (**t).get_type(),
        }
    }

    /// Whether the symbol `name` occurs in this term.
    pub fn contains_var(&self, name: &str) -> (r: bool)
        ensures
            r == spec_contains_var(self@, name@),
        decreases self,
    {
        match self {
            Expr::Var(n, _) => *n == name.to_owned(),
            Expr::And(args) | Expr::Or(args) | Expr::Add(args) | Expr::Mul(args) | Expr::App(_, args) =>
                exprs_contain_var(args, name),
            Expr::Not(a) | Expr::BvNot(a) | Expr::StrLen(a) => (**a).contains_var(name),
            Expr::Implies(a, b) | Expr::Eq(a, b) | Expr::Lt(a, b) | Expr::Le(a, b) | Expr::Gt(a, b)
            | Expr::Ge(a, b) | Expr::Div(a, b) | Expr::BvAdd(a, b) | Expr::BvSub(a, b)
            | Expr::BvMul(a, b) | Expr::BvAnd(a, b) | Expr::BvOr(a, b) | Expr::BvXor(a, b)
            | Expr::BvShl(a, b) | Expr::BvLshr(a, b) | Expr::BvAshr(a, b) | Expr::BvUle(a, b)
            | Expr::BvUlt(a, b) | Expr::BvSle(a, b) | Expr::BvSlt(a, b) | Expr::BvConcat(a, b)
            | Expr::Select(a, b) | Expr::StrContains(a, b) =>
                (**a).contains_var(name) || (**b).contains_var(name),
            Expr::Ite(c, t, f) | Expr::Store(c, t, f) =>
                (**c).contains_var(name) || (**t).contains_var(name) || (**f).contains_var(name),
            _ => false,
        }
    }

    /// This term with the symbols bound in `vars` replaced.
    pub fn substitute(&self, vars: &Bindings) -> (r: Expr)
        ensures
            r@ == spec_substitute(self@, vars@),
        decreases self,
    {
        match self {
            Expr::Var(name, _) => {
                match vars.get(name) {
                    Some(e) => e.clone(),
                    None => self.clone(),
                }
            },
            Expr::And(args) => Expr::And(substitute_all(args, vars)),
            Expr::Or(args) => Expr::Or(substitute_all(args, vars)),
            Expr::Not(a) => Expr::Not(Box::new((**a).substitute(vars))),
            Expr::Implies(a, b) => Expr::Implies(Box::new((**a).substitute(vars)), Box::new((**b).substitute(vars))),
            Expr::Eq(a, b) => Expr::Eq(Box::new((**a).substitute(vars)), Box::new((**b).substitute(vars))),
            Expr::Add(args) => Expr::Add(substitute_all(args, vars)),
            Expr::App(f, args) => Expr::App(f.clone(), substitute_all(args, vars)),
            Expr::Select(a, i) => Expr::Select(Box::new((**a).substitute(vars)), Box::new((**i).substitute(vars))),
            Expr::Store(a, i, v) => Expr::Store(
                Box::new((**a).substitute(vars)),
                Box::new((**i).substitute(vars)),
                Box::new((**v).substitute(vars)),
            ),
            _ => self.clone(),
        }
    }
}

/// Whether some term of `args` contains `name`.
fn exprs_contain_var(args: &Vec<Expr>, name: &str) -> (r: bool)
    ensures
        r == seq_contains_var(exprs_view(args@), name@),
    decreases args,
{
    proof {
        lemma_exprs_view(args@);
        lemma_seq_contains_var(exprs_view(args@), name@);
    }
    let mut i: usize = 0;
    while i < args.len()
        invariant
            i <= args@.len(),
            exprs_view(args@).len() == args@.len(),
            forall|j: int| 0 <= j < args@.len() ==> #[trigger] exprs_view(args@)[j] == args@[j]@,
            forall|j: int| 0 <= j < i ==> !spec_contains_var(#[trigger] exprs_view(args@)[j], name@),
        decreases args@.len() - i,
    {
        proof {
            assert(decreases_to!(*args => args@[i as int]));
        }
        if args[i].contains_var(name) {
            proof {
                lemma_seq_contains_var(exprs_view(args@), name@);
            }
            assert(spec_contains_var(exprs_view(args@)[i as int], name@));
            return true;
        }
        i += 1;
    }
    false
}

/// `substitute` applied to each term of `args`.
fn substitute_all(args: &Vec<Expr>, vars: &Bindings) -> (r: Vec<Expr>)
    ensures
        exprs_view(r@) == seq_substitute(exprs_view(args@), vars@),
    decreases args,
{
    let mut out: Vec<Expr> = Vec::new();
    let mut i: usize = 0;
    while i < args.len()
        invariant
            i <= args@.len(),
            out@.len() == i,
            forall|j: int| 0 <= j < i ==> #[trigger] out@[j]@ == spec_substitute(args@[j]@, vars@),
        decreases args@.len() - i,
    {
        proof {
            assert(decreases_to!(*args => args@[i as int]));
        }
        out.push(args[i].substitute(vars));
        i += 1;
    }
    proof {
        lemma_exprs_view(out@);
        lemma_exprs_view(args@);
        lemma_seq_substitute(exprs_view(args@), vars@);
        assert(exprs_view(out@) =~= seq_substitute(exprs_view(args@), vars@));
    }
    out
}

/// The `Debug` rendering of a term.
#[verifier::external_body]
pub(crate) fn debug_text(e: &Expr) -> String {
    format!("{:?}", e)
}

/// A value in a model.
#[derive(Debug, PartialEq, Eq)]
pub enum ModelValue {
    Bool(bool),
    Int(Integer),
    Real(Rational),
    /// Value and width.
    BitVec(u64, usize),
    Float(FloatValue),
}

impl ModelValue {
    /// A copy of this value.
    pub fn duplicate(&self) -> (r: ModelValue)
        ensures
            r.same(self),
    {
        match self {
            ModelValue::Bool(b) => ModelValue::Bool(*b),
            ModelValue::Int(i) => ModelValue::Int(i.duplicate()),
            ModelValue::Real(q) => ModelValue::Real(q.duplicate()),
            ModelValue::BitVec(v, w) => ModelValue::BitVec(*v, *w),
            ModelValue::Float(f) => ModelValue::Float(f.duplicate()),
        }
    }

    /// The same value, with numbers of equal representation.
    pub open spec fn same(&self, other: &ModelValue) -> bool {
        match (self, other) {
            (ModelValue::Bool(a), ModelValue::Bool(b)) => a == b,
            (ModelValue::Int(a), ModelValue::Int(b)) => a.negative == b.negative && a.digits@ == b.digits@,
            (ModelValue::Real(a), ModelValue::Real(b)) =>
                a.numer.negative == b.numer.negative && a.numer.digits@ == b.numer.digits@
                    && a.denom.negative == b.denom.negative && a.denom.digits@ == b.denom.digits@,
            (ModelValue::BitVec(a, w), ModelValue::BitVec(b, v)) => a == b && w == v,
            (ModelValue::Float(a), ModelValue::Float(b)) => a.sort == b.sort && a.class.same(&b.class),
            _ => false,
        }
    }
}

} // verus!
