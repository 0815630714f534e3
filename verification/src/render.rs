//! Running a script and rendering its output: answers, models and values in SMT-LIB text.
use vstd::prelude::*;
use num_bigint::{BigInt, BigUint, Sign};
use crate::ast::{Expr, ModelValue, Type, SType, SExpr, debug_text, exprs_view, lemma_exprs_view, vars_view};
use crate::ast::fp::{FloatValue, RoundingMode};
use crate::num::Integer;
use crate::parser::{Command, Parser, chars_of, string_from_chars};
use crate::{Rz3Solver, SolverResult};

verus! {

broadcast use vstd::std_specs::vec::group_vec_axioms;

/// The character of a decimal digit.
pub open spec fn digit_char(d: int) -> char {
    if d == 0 { '0' } else if d == 1 { '1' } else if d == 2 { '2' } else if d == 3 { '3' } else if d == 4 {
        '4'
    } else if d == 5 { '5' } else if d == 6 { '6' } else if d == 7 { '7' } else if d == 8 { '8' } else { '9' }
}

/// The decimal digits of a natural, most significant first.
pub open spec fn dec_digits(n: nat) -> Seq<char>
    decreases n,
{
    if n < 10 {
        seq![digit_char(n as int)]
    } else {
        dec_digits(n / 10).push(digit_char((n % 10) as int))
    }
}

/// The decimal text of an integer.
pub open spec fn int_text(i: int) -> Seq<char> {
    if i < 0 { seq!['-'] + dec_digits((-i) as nat) } else { dec_digits(i as nat) }
}

/// `n` zeros.
pub open spec fn zeros(n: nat) -> Seq<char> {
    Seq::new(n, |i: int| '0')
}

/// A decimal `value / 10^scale` written with `scale` digits after the point.
pub open spec fn decimal_text(value: i64, scale: u32) -> Seq<char> {
    if scale == 0 {
        int_text(value as int)
    } else {
        let digits = dec_digits(if value < 0 { (-(value as int)) as nat } else { value as nat });
        let body = if digits.len() <= scale {
            seq!['0', '.'] + zeros((scale - digits.len()) as nat) + digits
        } else {
            let split = digits.len() - scale;
            digits.subrange(0, split) + seq!['.'] + digits.subrange(split, digits.len() as int)
        };
        if value < 0 { seq!['-'] + body } else { body }
    }
}

fn digit(d: u64) -> (c: char)
    requires
        d < 10,
    ensures
        c == digit_char(d as int),
{
    if d == 0 { '0' } else if d == 1 { '1' } else if d == 2 { '2' } else if d == 3 { '3' } else if d == 4 {
        '4'
    } else if d == 5 { '5' } else if d == 6 { '6' } else if d == 7 { '7' } else if d == 8 { '8' } else { '9' }
}

/// Appends the decimal digits of `n`.
fn push_digits(out: &mut Vec<char>, n: u64)
    ensures
        final(out)@ == old(out)@ + dec_digits(n as nat),
    decreases n,
{
    if n >= 10 {
        push_digits(out, n / 10);
    }
    out.push(digit(n % 10));
    proof {
        if n >= 10 {
            assert(final(out)@ =~= old(out)@ + dec_digits(n as nat));
        } else {
            assert(final(out)@ =~= old(out)@ + dec_digits(n as nat));
        }
    }
}

/// Appends the characters of `word`.
fn push_str(out: &mut Vec<char>, word: &str)
    ensures
        final(out)@ == old(out)@ + word@,
{
    let w = chars_of(word);
    let mut k: usize = 0;
    while k < w.len()
        invariant
            k <= w@.len(),
            w@ == word@,
            out@ == old(out)@ + w@.take(k as int),
        decreases w@.len() - k,
    {
        out.push(w[k]);
        assert(out@ =~= old(out)@ + w@.take(k + 1));
        k += 1;
    }
    assert(w@.take(w@.len() as int) =~= w@);
}

/// Appends the characters of `chars`.
fn push_chars(out: &mut Vec<char>, chars: &Vec<char>)
    ensures
        final(out)@ == old(out)@ + chars@,
{
    let mut k: usize = 0;
    while k < chars.len()
        invariant
            k <= chars@.len(),
            out@ == old(out)@ + chars@.take(k as int),
        decreases chars@.len() - k,
    {
        out.push(chars[k]);
        assert(out@ =~= old(out)@ + chars@.take(k + 1));
        k += 1;
    }
    assert(chars@.take(chars@.len() as int) =~= chars@);
}

/// The decimal `value / 10^scale` with `scale` digits after the point (`value` alone when
/// `scale` is 0).
pub fn format_decimal(value: i64, scale: u32) -> (r: String)
    ensures
        r@ == decimal_text(value, scale),
{
    let mag: u64 = if value < 0 {
        if value == i64::MIN { 9223372036854775808u64 } else { (-value) as u64 }
    } else {
        value as u64
    };
    let mut digits: Vec<char> = Vec::new();
    push_digits(&mut digits, mag);
    assert(digits@ =~= dec_digits(mag as nat));
    let mut out: Vec<char> = Vec::new();
    if value < 0 {
        out.push('-');
    }
    if scale == 0 {
        push_chars(&mut out, &digits);
        proof {
            if value < 0 {
                assert(out@ =~= int_text(value as int));
            } else {
                assert(out@ =~= int_text(value as int));
            }
        }
        return string_from_chars(&out);
    }
    let ghost prefix = out@;
    let sc = scale as usize;
    if digits.len() <= sc {
        out.push('0');
        out.push('.');
        let mut z: usize = 0;
        while z < sc - digits.len()
            invariant
                z <= sc - digits@.len(),
                digits@.len() <= sc,
                out@ == prefix + seq!['0', '.'] + zeros(z as nat),
            decreases sc - digits@.len() - z,
        {
            out.push('0');
            assert(out@ =~= prefix + seq!['0', '.'] + zeros((z + 1) as nat));
            z += 1;
        }
        push_chars(&mut out, &digits);
        assert(out@ =~= prefix + (seq!['0', '.'] + zeros((sc - digits@.len()) as nat) + digits@));
    } else {
        let split = digits.len() - sc;
        let mut k: usize = 0;
        while k < digits.len()
            invariant
                k <= digits@.len(),
                split == digits@.len() - sc,
                split <= digits@.len(),
                k <= split ==> out@ == prefix + digits@.subrange(0, k as int),
                k > split ==> out@ == prefix + digits@.subrange(0, split as int) + seq!['.'] + digits@.subrange(split as int, k as int),
            decreases digits@.len() - k,
        {
            if k == split {
                out.push('.');
                assert(out@ =~= prefix + digits@.subrange(0, split as int) + seq!['.'] + digits@.subrange(split as int, k as int));
            }
            out.push(digits[k]);
            proof {
                if k + 1 <= split {
                    assert(out@ =~= prefix + digits@.subrange(0, k + 1));
                } else {
                    assert(out@ =~= prefix + digits@.subrange(0, split as int) + seq!['.'] + digits@.subrange(split as int, k + 1));
                }
            }
            k += 1;
        }
        assert(out@ =~= prefix + (digits@.subrange(0, split as int) + seq!['.'] + digits@.subrange(split as int, digits@.len() as int)));
    }
    proof {
        if value < 0 {
            assert(prefix =~= seq!['-']);
        } else {
            assert(prefix =~= Seq::<char>::empty());
        }
        assert(out@ =~= decimal_text(value, scale));
    }
    string_from_chars(&out)
}

/// `Display` on `num_bigint::BigInt`: the decimal text.
#[verifier::external_body]
fn integer_text(i: &Integer) -> (r: String)
    ensures
        r@ == int_text(i@),
{
    BigInt::from_slice(if i.negative { Sign::Minus } else { Sign::Plus }, &i.digits).to_string()
}

/// The binary digits of a natural, most significant first (`0` for zero).
pub open spec fn bin_digits(n: nat) -> Seq<char>
    decreases n,
{
    if n < 2 {
        seq![if n == 0 { '0' } else { '1' }]
    } else {
        bin_digits(n / 2).push(if n % 2 == 0 { '0' } else { '1' })
    }
}

/// `BigUint::to_str_radix(2)`: the binary digits of a natural.
#[verifier::external_body]
fn natural_binary_text(i: &Integer) -> (r: String)
    requires
        i@ >= 0,
    ensures
        r@ == bin_digits(i@ as nat),
{
    BigUint::from_slice(&i.digits).to_str_radix(2)
}

/// The binary digits of `v` padded with zeros on the left to `width`.
pub open spec fn padded_bits(v: nat, width: nat) -> Seq<char> {
    let b = bin_digits(v);
    if b.len() >= width { b } else { zeros((width - b.len()) as nat) + b }
}

fn push_bits(out: &mut Vec<char>, v: u64)
    ensures
        final(out)@ == old(out)@ + bin_digits(v as nat),
    decreases v,
{
    if v >= 2 {
        push_bits(out, v / 2);
    }
    out.push(if v % 2 == 0 { '0' } else { '1' });
    assert(final(out)@ =~= old(out)@ + bin_digits(v as nat));
}

/// Appends `bits` padded with zeros on the left to `width`.
fn push_padded(out: &mut Vec<char>, bits: &Vec<char>, width: usize)
    ensures
        final(out)@ == old(out)@ + (if bits@.len() >= width { bits@ } else { zeros((width - bits@.len()) as nat) + bits@ }),
{
    let ghost start = old(out)@;
    if bits.len() < width {
        let mut z: usize = 0;
        while z < width - bits.len()
            invariant
                bits@.len() < width,
                z <= width - bits@.len(),
                out@ == start + zeros(z as nat),
            decreases width - bits@.len() - z,
        {
            out.push('0');
            assert(out@ =~= start + zeros((z + 1) as nat));
            z += 1;
        }
    } else {
        assert(out@ =~= start + zeros(0));
    }
    push_chars(out, bits);
    proof {
        if bits@.len() < width {
            assert(out@ =~= start + (zeros((width - bits@.len()) as nat) + bits@));
        } else {
            assert(out@ =~= start + bits@);
        }
    }
}

/// `#b` and the bits of `value`, at least `width` of them.
fn bv_literal(value: u64, width: usize) -> (r: Vec<char>)
    ensures
        r@ == seq!['#', 'b'] + padded_bits(value as nat, width as nat),
{
    let mut bits: Vec<char> = Vec::new();
    push_bits(&mut bits, value);
    assert(bits@ =~= bin_digits(value as nat));
    let mut out: Vec<char> = Vec::new();
    out.push('#');
    out.push('b');
    push_padded(&mut out, &bits, width);
    assert(out@ =~= seq!['#', 'b'] + padded_bits(value as nat, width as nat));
    out
}

/// The SMT-LIB text of a sort.
pub open spec fn type_text(t: SType) -> Seq<char>
    decreases t,
{
    match t {
        SType::Unknown => "Unknown"@,
        SType::Bool => "Bool"@,
        SType::Int => "Int"@,
        SType::Real => "Real"@,
        SType::String => "String"@,
        SType::Float(s) => "(_ FloatingPoint "@ + dec_digits(s.exponent_bits as nat) + seq![' ']
            + dec_digits(s.significand_bits as nat) + seq![')'],
        SType::BitVec(w) => "(_ BitVec "@ + dec_digits(w as nat) + seq![')'],
        SType::Array(i, v) => "(Array "@ + type_text(*i) + seq![' '] + type_text(*v) + seq![')'],
        SType::Fn(args, ret) => "(-> "@ + types_text(args) + seq![' '] + type_text(*ret) + seq![')'],
    }
}

/// The texts of sorts, separated by spaces.
pub open spec fn types_text(s: Seq<SType>) -> Seq<char>
    decreases s,
{
    if s.len() == 0 {
        seq![]
    } else if s.len() == 1 {
        type_text(s[0])
    } else {
        types_text(s.drop_last()) + seq![' '] + type_text(s.last())
    }
}

/// The SMT-LIB text of a sort.
pub fn format_type(ty: &Type) -> (r: String)
    ensures
        r@ == type_text(ty@),
{
    let mut out: Vec<char> = Vec::new();
    push_type(&mut out, ty);
    assert(out@ =~= type_text(ty@));
    string_from_chars(&out)
}

#[verifier::loop_isolation(false)]
fn push_type(out: &mut Vec<char>, ty: &Type)
    ensures
        final(out)@ == old(out)@ + type_text(ty@),
    decreases ty,
{
    let ghost start = out@;
    match ty {
        Type::Unknown => push_str(out, "Unknown"),
        Type::Bool => push_str(out, "Bool"),
        Type::Int => push_str(out, "Int"),
        Type::Real => push_str(out, "Real"),
        Type::Float(sort) => {
            push_str(out, "(_ FloatingPoint ");
            push_digits(out, sort.exponent_bits as u64);
            out.push(' ');
            push_digits(out, sort.significand_bits as u64);
            out.push(')');
            assert(out@ =~= start + type_text(ty@));
        },
        Type::BitVec(width) => {
            push_str(out, "(_ BitVec ");
            push_digits(out, *width as u64);
            out.push(')');
            assert(out@ =~= start + type_text(ty@));
        },
        Type::String => push_str(out, "String"),
        Type::Array(index, value) => {
            push_str(out, "(Array ");
            push_type(out, index);
            out.push(' ');
            push_type(out, value);
            out.push(')');
            assert(out@ =~= start + type_text(ty@));
        },
        Type::Fn(args, ret) => {
            push_str(out, "(-> ");
            let ghost views = crate::ast::types_view(args@);
            proof {
                crate::ast::lemma_types_view(args@);
                assert(views.take(0) =~= Seq::<SType>::empty());
            }
            let mut k: usize = 0;
            while k < args.len()
                invariant
                    k <= args@.len(),
                    views == crate::ast::types_view(args@),
                    views.len() == args@.len(),
                    forall|j: int| 0 <= j < args@.len() ==> #[trigger] views[j] == args@[j]@,
                    out@ == start + "(-> "@ + types_text(views.take(k as int)),
                decreases args@.len() - k,
            {
                proof {
                    assert(decreases_to!(*ty => args@[k as int]));
                    assert(views.take(k + 1).drop_last() =~= views.take(k as int));
                    assert(views.take(k + 1).last() == args@[k as int]@);
                }
                let ghost before = out@;
                if k > 0 {
                    out.push(' ');
                }
                push_type(out, &args[k]);
                proof {
                    if k == 0 {
                        assert(views.take(1)[0] == args@[0]@);
                        assert(out@ =~= start + "(-> "@ + types_text(views.take(k + 1)));
                    } else {
                        assert(out@ =~= start + "(-> "@ + types_text(views.take(k + 1)));
                    }
                }
                k += 1;
            }
            out.push(' ');
            push_type(out, ret);
            out.push(')');
            proof {
                assert(views.take(args@.len() as int) =~= views);
                assert(out@ =~= start + type_text(ty@));
            }
        },
    }
}

/// `(op a b)`.
pub open spec fn pair_text(op: Seq<char>, a: Seq<char>, b: Seq<char>) -> Seq<char> {
    seq!['('] + op + seq![' '] + a + seq![' '] + b + seq![')']
}

/// `(op a b)` where both operands have a text.
pub open spec fn pair_of(op: Seq<char>, a: Option<Seq<char>>, b: Option<Seq<char>>) -> Option<Seq<char>> {
    match (a, b) {
        (Some(x), Some(y)) => Some(pair_text(op, x, y)),
        _ => None,
    }
}

/// The SMT-LIB text that `format_expr` gives a term: constants, symbols, applications,
/// connectives, arithmetic, comparisons, `ite`, the bit-vector operations `bvadd`, `bvsub`,
/// `bvmul`, `bvand`, `bvor`, `bvxor`, `bvnot` and `extract`, arrays, strings and
/// quantifiers, each over the text of its operands; none for the other terms (which are
/// shown in their plain text).
pub open spec fn smt_text(e: SExpr) -> Option<Seq<char>>
    decreases e,
{
    match e {
        SExpr::Bool(b) => Some(if b { "true"@ } else { "false"@ }),
        SExpr::Int(v) => Some(int_text(v as int)),
        SExpr::Real(v, scale) => Some(decimal_text(v, scale)),
        SExpr::Var(name, _) => Some(name),
        SExpr::BvConst(value, width) => Some(seq!['#', 'b'] + padded_bits(value as nat, width as nat)),
        SExpr::App(name, args) => match smt_texts(args) {
            Some(t) => Some(seq!['('] + name + seq![' '] + t + seq![')']),
            None => None,
        },
        SExpr::Not(a) => match smt_text(*a) {
            Some(t) => Some("(not "@ + t + seq![')']),
            None => None,
        },
        SExpr::BvNot(a) => match smt_text(*a) {
            Some(t) => Some("(bvnot "@ + t + seq![')']),
            None => None,
        },
        SExpr::StrLen(a) => match smt_text(*a) {
            Some(t) => Some("(str.len "@ + t + seq![')']),
            None => None,
        },
        SExpr::BvExtract(h, l, a) => match smt_text(*a) {
            Some(t) => Some("((_ extract "@ + dec_digits(h as nat) + seq![' '] + dec_digits(l as nat) + ") "@ + t + seq![')']),
            None => None,
        },
        SExpr::And(args) => nary_of("and"@, smt_texts(args)),
        SExpr::Or(args) => nary_of("or"@, smt_texts(args)),
        SExpr::Add(args) => nary_of("+"@, smt_texts(args)),
        SExpr::Sub(args) => nary_of("-"@, smt_texts(args)),
        SExpr::Mul(args) => nary_of("*"@, smt_texts(args)),
        SExpr::StrConcat(args) => nary_of("str.++"@, smt_texts(args)),
        SExpr::Eq(a, b) => pair_of("="@, smt_text(*a), smt_text(*b)),
        SExpr::Div(a, b) => pair_of("/"@, smt_text(*a), smt_text(*b)),
        SExpr::Lt(a, b) => pair_of("<"@, smt_text(*a), smt_text(*b)),
        SExpr::Le(a, b) => pair_of("<="@, smt_text(*a), smt_text(*b)),
        SExpr::Gt(a, b) => pair_of(">"@, smt_text(*a), smt_text(*b)),
        SExpr::Ge(a, b) => pair_of(">="@, smt_text(*a), smt_text(*b)),
        SExpr::BvAdd(a, b) => pair_of("bvadd"@, smt_text(*a), smt_text(*b)),
        SExpr::BvSub(a, b) => pair_of("bvsub"@, smt_text(*a), smt_text(*b)),
        SExpr::BvMul(a, b) => pair_of("bvmul"@, smt_text(*a), smt_text(*b)),
        SExpr::BvAnd(a, b) => pair_of("bvand"@, smt_text(*a), smt_text(*b)),
        SExpr::BvOr(a, b) => pair_of("bvor"@, smt_text(*a), smt_text(*b)),
        SExpr::BvXor(a, b) => pair_of("bvxor"@, smt_text(*a), smt_text(*b)),
        SExpr::Select(a, b) => pair_of("select"@, smt_text(*a), smt_text(*b)),
        SExpr::StrContains(a, b) => pair_of("str.contains"@, smt_text(*a), smt_text(*b)),
        SExpr::Ite(c, t, f) => match (smt_text(*c), smt_text(*t), smt_text(*f)) {
            (Some(x), Some(y), Some(z)) => Some("(ite "@ + x + seq![' '] + y + seq![' '] + z + seq![')']),
            _ => None,
        },
        SExpr::Store(c, t, f) => match (smt_text(*c), smt_text(*t), smt_text(*f)) {
            (Some(x), Some(y), Some(z)) => Some("(store "@ + x + seq![' '] + y + seq![' '] + z + seq![')']),
            _ => None,
        },
        SExpr::StrConst(v) => Some(seq!['"'] + v + seq!['"']),
        SExpr::ForAll(vars, body) => match smt_text(*body) {
            Some(t) => Some(seq!['('] + "forall"@ + " ("@ + vars_text(vars) + ") "@ + t + seq![')']),
            None => None,
        },
        SExpr::Exists(vars, body) => match smt_text(*body) {
            Some(t) => Some(seq!['('] + "exists"@ + " ("@ + vars_text(vars) + ") "@ + t + seq![')']),
            None => None,
        },
        _ => None,
    }
}

/// `(op a1 a2 …)` where every operand has a text.
pub open spec fn nary_of(op: Seq<char>, t: Option<Seq<char>>) -> Option<Seq<char>> {
    match t {
        Some(t) => Some(seq!['('] + op + seq![' '] + t + seq![')']),
        None => None,
    }
}

/// The texts of terms separated by spaces, where every one has a text.
pub open spec fn smt_texts(s: Seq<SExpr>) -> Option<Seq<char>>
    decreases s,
{
    if s.len() == 0 {
        Some(seq![])
    } else {
        match (smt_texts(s.drop_last()), smt_text(s.last())) {
            (Some(a), Some(b)) => Some(if s.len() == 1 { b } else { a + seq![' '] + b }),
            _ => None,
        }
    }
}

/// Bound variables as `(name sort)` pairs separated by spaces.
pub open spec fn vars_text(vs: Seq<(Seq<char>, SType)>) -> Seq<char>
    decreases vs.len(),
{
    if vs.len() == 0 {
        seq![]
    } else {
        let last = seq!['('] + vs.last().0 + seq![' '] + type_text(vs.last().1) + seq![')'];
        if vs.len() == 1 { last } else { vars_text(vs.drop_last()) + seq![' '] + last }
    }
}

/// The SMT-LIB text of a term, as `get-value` echoes it.
pub fn format_expr(expr: &Expr) -> (r: String)
    ensures
        expr@ matches crate::ast::SExpr::Var(n, _) ==> r@ == n,
        smt_text(expr@) matches Some(t) ==> r@ == t,
    decreases expr, 2nat,
{
    let mut out: Vec<char> = Vec::new();
    push_expr(&mut out, expr);
    string_from_chars(&out)
}

fn push_bool(out: &mut Vec<char>, b: bool)
    ensures
        final(out)@ == old(out)@ + (if b { "true"@ } else { "false"@ }),
{
    if b { push_str(out, "true") } else { push_str(out, "false") }
}

/// Appends the decimal text of `v`.
pub(crate) fn push_i64(out: &mut Vec<char>, v: i64)
    ensures
        final(out)@ == old(out)@ + int_text(v as int),
{
    if v < 0 {
        out.push('-');
        let m: u64 = if v == i64::MIN { 9223372036854775808u64 } else { (-v) as u64 };
        push_digits(out, m);
        assert(final(out)@ =~= old(out)@ + int_text(v as int));
    } else {
        push_digits(out, v as u64);
    }
}

fn push_string(out: &mut Vec<char>, s: &String)
    ensures
        final(out)@ == old(out)@ + s@,
{
    push_str(out, s.as_str());
}

fn push_nary(out: &mut Vec<char>, op: &str, args: &Vec<Expr>)
    ensures
        smt_texts(exprs_view(args@)) matches Some(t) ==> final(out)@ == old(out)@ + seq!['('] + op@ + seq![' '] + t + seq![')'],
    decreases args, 0nat,
{
    let ghost a = exprs_view(args@);
    proof {
        lemma_exprs_view(args@);
    }
    out.push('(');
    push_str(out, op);
    out.push(' ');
    let ghost start = out@;
    proof {
        assert(a.subrange(0, 0) =~= Seq::<SExpr>::empty());
        assert(start + Seq::<char>::empty() =~= start);
    }
    let mut k: usize = 0;
    while k < args.len()
        invariant
            k <= args@.len(),
            a == exprs_view(args@),
            a.len() == args@.len(),
            forall|j: int| 0 <= j < args@.len() ==> #[trigger] a[j] == args@[j]@,
            start == old(out)@ + seq!['('] + op@ + seq![' '],
            smt_texts(a) is Some ==> smt_texts(a.subrange(0, k as int)) is Some
                && out@ == start + smt_texts(a.subrange(0, k as int))->0,
        decreases args@.len() - k,
    {
        proof {
            assert(decreases_to!(*args => args@[k as int]));
            lemma_smt_texts_prefix(a, k + 1);
            assert(a.subrange(0, k + 1).drop_last() =~= a.subrange(0, k as int));
            assert(a.subrange(0, k + 1).last() == a[k as int]);
        }
        let ghost o1 = out@;
        if k > 0 {
            out.push(' ');
        }
        push_expr(out, &args[k]);
        proof {
            if smt_texts(a) is Some {
                assert(out@ =~= start + smt_texts(a.subrange(0, k + 1))->0);
            }
        }
        k += 1;
    }
    out.push(')');
    proof {
        assert(a.subrange(0, k as int) =~= a);
        if smt_texts(a) is Some {
            assert(final(out)@ =~= old(out)@ + seq!['('] + op@ + seq![' '] + smt_texts(a)->0 + seq![')']);
        }
    }
}

/// Every prefix of terms that all have texts has a text.
proof fn lemma_smt_texts_prefix(s: Seq<SExpr>, k: int)
    requires
        0 <= k <= s.len(),
    ensures
        smt_texts(s) is Some ==> smt_texts(s.subrange(0, k)) is Some,
    decreases s.len(),
{
    if k == s.len() {
        assert(s.subrange(0, k) =~= s);
    } else {
        lemma_smt_texts_prefix(s.drop_last(), k);
        assert(s.drop_last().subrange(0, k) =~= s.subrange(0, k));
    }
}

fn push_pair(out: &mut Vec<char>, op: &str, a: &String, b: &String)
    ensures
        final(out)@ == old(out)@ + pair_text(op@, a@, b@),
{
    out.push('(');
    push_str(out, op);
    out.push(' ');
    push_string(out, a);
    out.push(' ');
    push_string(out, b);
    out.push(')');
    assert(final(out)@ =~= old(out)@ + pair_text(op@, a@, b@));
}

#[verifier::rlimit(60)]
#[verifier::spinoff_prover]
fn push_expr(out: &mut Vec<char>, expr: &Expr)
    ensures
        expr@ matches crate::ast::SExpr::Var(n, _) ==> final(out)@ == old(out)@ + n,
        smt_text(expr@) matches Some(t) ==> final(out)@ == old(out)@ + t,
    decreases expr, 1nat,
{
    let ghost start = out@;
    match expr {
        Expr::Bool(b) => push_bool(out, *b),
        Expr::Int(v) => push_i64(out, *v),
        Expr::Real(v, scale) => {
            let t = format_decimal(*v, *scale);
            push_string(out, &t);
        },
        Expr::Var(name, _) => push_string(out, name),
        Expr::BvConst(value, width) => {
            let lit = bv_literal(*value, *width);
            push_chars(out, &lit);
        },
        Expr::App(name, args) => push_app(out, name, args),
        Expr::Eq(a, b) => push_pair(out, "=", &format_expr(a), &format_expr(b)),
        Expr::Not(inner) => push_unary(out, "(not ", inner),
        Expr::And(args) => push_nary(out, "and", args),
        Expr::Or(args) => push_nary(out, "or", args),
        Expr::Add(args) => push_nary(out, "+", args),
        Expr::Sub(args) => push_nary(out, "-", args),
        Expr::Mul(args) => push_nary(out, "*", args),
        Expr::Div(a, b) => push_pair(out, "/", &format_expr(a), &format_expr(b)),
        Expr::Lt(a, b) => push_pair(out, "<", &format_expr(a), &format_expr(b)),
        Expr::Le(a, b) => push_pair(out, "<=", &format_expr(a), &format_expr(b)),
        Expr::Gt(a, b) => push_pair(out, ">", &format_expr(a), &format_expr(b)),
        Expr::Ge(a, b) => push_pair(out, ">=", &format_expr(a), &format_expr(b)),
        Expr::Ite(_, _, _) => push_compound(out, expr),
        Expr::BvAdd(a, b) => push_pair(out, "bvadd", &format_expr(a), &format_expr(b)),
        Expr::BvSub(a, b) => push_pair(out, "bvsub", &format_expr(a), &format_expr(b)),
        Expr::BvMul(a, b) => push_pair(out, "bvmul", &format_expr(a), &format_expr(b)),
        Expr::BvAnd(a, b) => push_pair(out, "bvand", &format_expr(a), &format_expr(b)),
        Expr::BvOr(a, b) => push_pair(out, "bvor", &format_expr(a), &format_expr(b)),
        Expr::BvXor(a, b) => push_pair(out, "bvxor", &format_expr(a), &format_expr(b)),
        Expr::BvNot(inner) => push_unary(out, "(bvnot ", inner),
        Expr::BvExtract(high, low, inner) => push_extract(out, *high, *low, inner),
        Expr::Select(a, i) => push_pair(out, "select", &format_expr(a), &format_expr(i)),
        Expr::Store(_, _, _) => push_compound(out, expr),
        Expr::StrConst(value) => {
            out.push('"');
            push_string(out, value);
            out.push('"');
            assert(out@ =~= start + (seq!['"'] + value@ + seq!['"']));
        },
        Expr::StrConcat(args) => push_nary(out, "str.++", args),
        Expr::StrLen(inner) => push_unary(out, "(str.len ", inner),
        Expr::StrContains(a, b) => push_pair(out, "str.contains", &format_expr(a), &format_expr(b)),
        Expr::ForAll(vars, body) => push_quantifier(out, "forall", vars, body),
        Expr::Exists(vars, body) => push_quantifier(out, "exists", vars, body),
        _ => {
            let t = display_text(expr);
            push_string(out, &t);
        },
    }
}

fn push_app(out: &mut Vec<char>, name: &String, args: &Vec<Expr>)
    ensures
        smt_texts(exprs_view(args@)) matches Some(t) ==> final(out)@ == old(out)@ + seq!['('] + name@ + seq![' '] + t + seq![')'],
    decreases args, 0nat,
{
    let ghost a = exprs_view(args@);
    proof {
        lemma_exprs_view(args@);
    }
    out.push('(');
    push_string(out, name);
    out.push(' ');
    let ghost start = out@;
    proof {
        assert(a.subrange(0, 0) =~= Seq::<SExpr>::empty());
        assert(start + Seq::<char>::empty() =~= start);
    }
    let mut k: usize = 0;
    while k < args.len()
        invariant
            k <= args@.len(),
            a == exprs_view(args@),
            a.len() == args@.len(),
            forall|j: int| 0 <= j < args@.len() ==> #[trigger] a[j] == args@[j]@,
            start == old(out)@ + seq!['('] + name@ + seq![' '],
            smt_texts(a) is Some ==> smt_texts(a.subrange(0, k as int)) is Some
                && out@ == start + smt_texts(a.subrange(0, k as int))->0,
        decreases args@.len() - k,
    {
        proof {
            assert(decreases_to!(*args => args@[k as int]));
            lemma_smt_texts_prefix(a, k + 1);
            assert(a.subrange(0, k + 1).drop_last() =~= a.subrange(0, k as int));
            assert(a.subrange(0, k + 1).last() == a[k as int]);
        }
        if k > 0 {
            out.push(' ');
        }
        push_expr(out, &args[k]);
        proof {
            if smt_texts(a) is Some {
                assert(out@ =~= start + smt_texts(a.subrange(0, k + 1))->0);
            }
        }
        k += 1;
    }
    out.push(')');
    proof {
        assert(a.subrange(0, k as int) =~= a);
        if smt_texts(a) is Some {
            assert(final(out)@ =~= old(out)@ + seq!['('] + name@ + seq![' '] + smt_texts(a)->0 + seq![')']);
        }
    }
}

/// `prefix`, the text of `inner`, `)`.
fn push_unary(out: &mut Vec<char>, prefix: &str, inner: &Expr)
    ensures
        smt_text(inner@) matches Some(t) ==> final(out)@ == old(out)@ + prefix@ + t + seq![')'],
    decreases inner, 2nat,
{
    push_str(out, prefix);
    push_expr(out, inner);
    out.push(')');
    proof {
        if smt_text(inner@) is Some {
            assert(final(out)@ =~= old(out)@ + prefix@ + smt_text(inner@)->0 + seq![')']);
        }
    }
}

/// `((_ extract high low) ` and the text of `inner`, then `)`.
fn push_extract(out: &mut Vec<char>, high: usize, low: usize, inner: &Expr)
    ensures
        smt_text(inner@) matches Some(t) ==> final(out)@ == old(out)@ + "((_ extract "@ + dec_digits(high as nat)
            + seq![' '] + dec_digits(low as nat) + ") "@ + t + seq![')'],
    decreases inner, 2nat,
{
    push_str(out, "((_ extract ");
    push_digits(out, high as u64);
    out.push(' ');
    push_digits(out, low as u64);
    push_str(out, ") ");
    push_expr(out, inner);
    out.push(')');
    proof {
        if smt_text(inner@) is Some {
            assert(final(out)@ =~= old(out)@ + "((_ extract "@ + dec_digits(high as nat) + seq![' '] + dec_digits(low as nat)
                + ") "@ + smt_text(inner@)->0 + seq![')']);
        }
    }
}

/// The text of a conditional or an array store.
#[verifier::rlimit(60)]
#[verifier::spinoff_prover]
fn push_compound(out: &mut Vec<char>, expr: &Expr)
    ensures
        (expr@ is Ite || expr@ is Store) && smt_text(expr@) is Some ==> final(out)@ == old(out)@ + smt_text(expr@)->0,
    decreases expr, 0nat,
{
    let ghost start = out@;
    match expr {
        Expr::Ite(c, t, e) => {
            push_str(out, "(ite ");
            push_expr(out, c);
            out.push(' ');
            push_expr(out, t);
            out.push(' ');
            push_expr(out, e);
            out.push(')');
            proof {
                if smt_text(expr@) is Some {
                    assert(out@ =~= start + smt_text(expr@)->0);
                }
            }
        },
        Expr::Store(a, i, v) => {
            push_str(out, "(store ");
            push_expr(out, a);
            out.push(' ');
            push_expr(out, i);
            out.push(' ');
            push_expr(out, v);
            out.push(')');
            proof {
                if smt_text(expr@) is Some {
                    assert(out@ =~= start + smt_text(expr@)->0);
                }
            }
        },
        _ => {},
    }
}

fn push_quantifier(out: &mut Vec<char>, op: &str, vars: &Vec<(String, Type)>, body: &Expr)
    ensures
        smt_text(body@) matches Some(t) ==> final(out)@ == old(out)@ + seq!['('] + op@ + " ("@
            + vars_text(vars_view(vars@)) + ") "@ + t + seq![')'],
    decreases body, 2nat,
{
    let ghost vv = vars_view(vars@);
    out.push('(');
    push_str(out, op);
    push_str(out, " (");
    let ghost head = out@;
    proof {
        assert(vv.subrange(0, 0) =~= Seq::<(Seq<char>, SType)>::empty());
        assert(head + Seq::<char>::empty() =~= head);
    }
    let mut k: usize = 0;
    while k < vars.len()
        invariant
            k <= vars@.len(),
            vv == vars_view(vars@),
            out@ == head + vars_text(vv.subrange(0, k as int)),
        decreases vars@.len() - k,
    {
        let ghost o1 = out@;
        if k > 0 {
            out.push(' ');
        }
        out.push('(');
        push_string(out, &vars[k].0);
        out.push(' ');
        push_type(out, &vars[k].1);
        out.push(')');
        proof {
            let sub = vv.subrange(0, k + 1);
            assert(sub.drop_last() =~= vv.subrange(0, k as int));
            assert(sub.last() == (vars@[k as int].0@, vars@[k as int].1@));
            assert(out@ =~= head + vars_text(sub));
        }
        k += 1;
    }
    push_str(out, ") ");
    push_expr(out, body);
    out.push(')');
    proof {
        assert(vv.subrange(0, k as int) =~= vv);
        if smt_text(body@) is Some {
            assert(out@ =~= old(out)@ + seq!['('] + op@ + " ("@ + vars_text(vv) + ") "@ + smt_text(body@)->0 + seq![')']);
        }
    }
}

/// The plain text of a term built from constants, variables and the operators with a fixed
/// number of operands (`None` where a list of terms or another term occurs, whose text is
/// a `Debug` rendering).
#[verifier::opaque]
pub open spec fn display_spec(e: SExpr) -> Option<Seq<char>>
    decreases e,
{
    match e {
        SExpr::Bool(b) => Some(if b { "true"@ } else { "false"@ }),
        SExpr::Int(i) => Some(int_text(i as int)),
        SExpr::Real(i, s) => Some(int_text(i as int) + seq!['.'] + dec_digits(s as nat)),
        SExpr::Var(s, _) => Some(s),
        SExpr::Not(a) => match display_spec(*a) {
            Some(t) => Some("(not "@ + t + seq![')']),
            None => None,
        },
        SExpr::Implies(a, b) => display_pair("=>"@, display_spec(*a), display_spec(*b)),
        SExpr::Ite(c, t, f) => match (display_spec(*c), display_spec(*t), display_spec(*f)) {
            (Some(x), Some(y), Some(z)) => Some("(ite "@ + x + seq![' '] + y + seq![' '] + z + seq![')']),
            _ => None,
        },
        SExpr::Eq(a, b) => display_pair("="@, display_spec(*a), display_spec(*b)),
        SExpr::Lt(a, b) => display_pair("<"@, display_spec(*a), display_spec(*b)),
        SExpr::Le(a, b) => display_pair("<="@, display_spec(*a), display_spec(*b)),
        SExpr::Gt(a, b) => display_pair(">"@, display_spec(*a), display_spec(*b)),
        SExpr::Ge(a, b) => display_pair(">="@, display_spec(*a), display_spec(*b)),
        SExpr::Div(a, b) => display_pair("/"@, display_spec(*a), display_spec(*b)),
        SExpr::BvConst(v, w) => Some("(_ bv"@ + dec_digits(v as nat) + seq![' '] + dec_digits(w as nat) + seq![')']),
        SExpr::BvAdd(a, b) => display_pair("bvadd"@, display_spec(*a), display_spec(*b)),
        SExpr::BvAnd(a, b) => display_pair("bvand"@, display_spec(*a), display_spec(*b)),
        SExpr::BvExtract(h, l, a) => match display_spec(*a) {
            Some(t) => Some("((_ extract "@ + dec_digits(h as nat) + seq![' '] + dec_digits(l as nat) + ") "@ + t + seq![')']),
            None => None,
        },
        SExpr::Select(a, i) => display_pair("select"@, display_spec(*a), display_spec(*i)),
        SExpr::Store(a, i, v) => match (display_spec(*a), display_spec(*i), display_spec(*v)) {
            (Some(x), Some(y), Some(z)) => Some("(store "@ + x + seq![' '] + y + seq![' '] + z + seq![')']),
            _ => None,
        },
        SExpr::StrConst(c) => Some(seq!['"'] + c + seq!['"']),
        SExpr::StrLen(a) => match display_spec(*a) {
            Some(t) => Some("(str.len "@ + t + seq![')']),
            None => None,
        },
        SExpr::StrContains(a, b) => display_pair("str.contains"@, display_spec(*a), display_spec(*b)),
        _ => None,
    }
}

/// `(op a b)` where both operand texts are known.
pub open spec fn display_pair(op: Seq<char>, a: Option<Seq<char>>, b: Option<Seq<char>>) -> Option<Seq<char>> {
    match (a, b) {
        (Some(x), Some(y)) => Some(pair_text(op, x, y)),
        _ => None,
    }
}

/// The plain text of a term: operators in SMT-LIB form over the plain text of their
/// operands, argument lists in their `Debug` rendering, and the `Debug` rendering of any
/// other term.
fn display_text(expr: &Expr) -> (r: String)
    ensures
        display_spec(expr@) matches Some(t) ==> r@ == t,
    decreases expr,
{
    proof {
        reveal_with_fuel(display_spec, 1);
    }
    let mut out: Vec<char> = Vec::new();
    match expr {
        Expr::Bool(b) => push_bool(&mut out, *b),
        Expr::Int(i) => push_i64(&mut out, *i),
        Expr::Real(i, s) => {
            push_i64(&mut out, *i);
            out.push('.');
            push_digits(&mut out, *s as u64);
        },
        Expr::Var(s, _) => push_string(&mut out, s),
        Expr::Not(e) => {
            push_str(&mut out, "(not ");
            push_string(&mut out, &display_text(e));
            out.push(')');
        },
        Expr::Implies(a, b) => push_pair(&mut out, "=>", &display_text(a), &display_text(b)),
        Expr::Ite(c, t, e) => {
            push_str(&mut out, "(ite ");
            push_string(&mut out, &display_text(c));
            out.push(' ');
            push_string(&mut out, &display_text(t));
            out.push(' ');
            push_string(&mut out, &display_text(e));
            out.push(')');
        },
        Expr::Eq(a, b) => push_pair(&mut out, "=", &display_text(a), &display_text(b)),
        Expr::Lt(a, b) => push_pair(&mut out, "<", &display_text(a), &display_text(b)),
        Expr::Le(a, b) => push_pair(&mut out, "<=", &display_text(a), &display_text(b)),
        Expr::Gt(a, b) => push_pair(&mut out, ">", &display_text(a), &display_text(b)),
        Expr::Ge(a, b) => push_pair(&mut out, ">=", &display_text(a), &display_text(b)),
        Expr::Div(a, b) => push_pair(&mut out, "/", &display_text(a), &display_text(b)),
        Expr::BvConst(v, w) => {
            push_str(&mut out, "(_ bv");
            push_digits(&mut out, *v);
            out.push(' ');
            push_digits(&mut out, *w as u64);
            out.push(')');
        },
        Expr::BvAdd(a, b) => push_pair(&mut out, "bvadd", &display_text(a), &display_text(b)),
        Expr::BvAnd(a, b) => push_pair(&mut out, "bvand", &display_text(a), &display_text(b)),
        Expr::BvExtract(h, l, e) => {
            push_str(&mut out, "((_ extract ");
            push_digits(&mut out, *h as u64);
            out.push(' ');
            push_digits(&mut out, *l as u64);
            push_str(&mut out, ") ");
            push_string(&mut out, &display_text(e));
            out.push(')');
        },
        Expr::Select(a, i) => push_pair(&mut out, "select", &display_text(a), &display_text(i)),
        Expr::Store(a, i, v) => {
            push_str(&mut out, "(store ");
            push_string(&mut out, &display_text(a));
            out.push(' ');
            push_string(&mut out, &display_text(i));
            out.push(' ');
            push_string(&mut out, &display_text(v));
            out.push(')');
        },
        Expr::StrConst(s) => {
            out.push('"');
            push_string(&mut out, s);
            out.push('"');
        },
        Expr::StrLen(s) => {
            push_str(&mut out, "(str.len ");
            push_string(&mut out, &display_text(s));
            out.push(')');
        },
        Expr::StrContains(a, b) => push_pair(&mut out, "str.contains", &display_text(a), &display_text(b)),
        Expr::And(_) | Expr::Or(_) | Expr::Add(_) | Expr::Sub(_) | Expr::Mul(_) | Expr::App(_, _)
        | Expr::ForAll(_, _) | Expr::Exists(_, _) | Expr::StrConcat(_) => {
            let (op, rest) = match expr {
                Expr::And(v) => ("and", list_debug_text(v)),
                Expr::Or(v) => ("or", list_debug_text(v)),
                Expr::Add(v) => ("+", list_debug_text(v)),
                Expr::Sub(v) => ("-", list_debug_text(v)),
                Expr::Mul(v) => ("*", list_debug_text(v)),
                Expr::StrConcat(v) => ("str.++", list_debug_text(v)),
                Expr::App(s, v) => (s.as_str(), list_debug_text(v)),
                Expr::ForAll(vars, body) => ("forall", quantifier_debug_text(vars, &display_text(body))),
                Expr::Exists(vars, body) => ("exists", quantifier_debug_text(vars, &display_text(body))),
                _ => ("", String::new()),
            };
            out.push('(');
            push_str(&mut out, op);
            out.push(' ');
            push_string(&mut out, &rest);
            out.push(')');
        },
        _ => push_string(&mut out, &debug_text(expr)),
    }
    string_from_chars(&out)
}



/// The `Debug` rendering of a list of terms.
#[verifier::external_body]
fn list_debug_text(v: &Vec<Expr>) -> String {
    format!("{:?}", v)
}

/// The `Debug` rendering of a bound-variable list, as `format!("{:?}")` gives it.
pub uninterp spec fn vars_debug(vars: Seq<(Seq<char>, SType)>) -> Seq<char>;

/// The `Debug` rendering of a bound-variable list (std's `format!` over the derived `Debug`
/// of the pairs), named by `vars_debug`.
#[verifier::external_body]
fn vars_debug_text(vars: &Vec<(String, Type)>) -> (r: String)
    ensures
        r@ == vars_debug(vars_view(vars@)),
{
    format!("{:?}", vars)
}

/// The `Debug` rendering of a bound-variable list, a space and `body`.
fn quantifier_debug_text(vars: &Vec<(String, Type)>, body: &String) -> (r: String)
    ensures
        r@ == vars_debug(vars_view(vars@)) + seq![' '] + body@,
{
    let mut out = chars_of(vars_debug_text(vars).as_str());
    let ghost v = out@;
    out.push(' ');
    push_string(&mut out, body);
    assert(out@ == v + seq![' '] + body@);
    string_from_chars(&out)
}

/// The sort of a model value, in SMT-LIB text.
pub fn format_model_sort(value: &ModelValue) -> (r: String)
    ensures
        value is Bool ==> r@ == "Bool"@,
        value is Int ==> r@ == "Int"@,
        value is Real ==> r@ == "Real"@,
{
    let mut out: Vec<char> = Vec::new();
    match value {
        ModelValue::Bool(_) => push_str(&mut out, "Bool"),
        ModelValue::Int(_) => push_str(&mut out, "Int"),
        ModelValue::Real(_) => push_str(&mut out, "Real"),
        ModelValue::BitVec(_, width) => {
            push_str(&mut out, "(_ BitVec ");
            push_digits(&mut out, *width as u64);
            out.push(')');
        },
        ModelValue::Float(v) => {
            push_str(&mut out, "(_ FloatingPoint ");
            push_digits(&mut out, v.sort.exponent_bits as u64);
            out.push(' ');
            push_digits(&mut out, v.sort.significand_bits as u64);
            out.push(')');
        },
    }
    string_from_chars(&out)
}

/// A model value in SMT-LIB text: `true`/`false`, a decimal integer, an integer or
/// `(/ n d)` for a rational, `#b` bits for a bit-vector, `(fp …)` for a float (whose
/// numbers, when not well formed, give no bits: `#b`).
pub fn format_model_value(value: &ModelValue) -> (r: String)
    ensures
        *value matches ModelValue::Bool(b) ==> r@ == (if b { "true"@ } else { "false"@ }),
        *value matches ModelValue::Int(i) ==> r@ == int_text(i@),
        *value matches ModelValue::BitVec(v, w) ==> r@ == seq!['#', 'b'] + padded_bits(v as nat, w as nat),
{
    match value {
        ModelValue::Bool(b) => {
            if *b { "true".to_owned() } else { "false".to_owned() }
        },
        ModelValue::Int(i) => integer_text(i),
        ModelValue::Real(q) => format_rational(q),
        ModelValue::BitVec(v, w) => string_from_chars(&bv_literal(*v, *w)),
        ModelValue::Float(f) => if float_ok(f) { format_float(f) } else { "#b".to_owned() },
    }
}

/// A rational in SMT-LIB text: the numerator when the denominator is 1, else `(/ n d)`.
pub fn format_rational(value: &crate::num::Rational) -> (r: String)
    ensures
        value@.1 == 1 ==> r@ == int_text(value@.0),
        value@.1 != 1 ==> r@ == "(/ "@ + int_text(value@.0) + seq![' '] + int_text(value@.1) + seq![')'],
{
    let one = Integer::from_u32(1);
    if value.denom.eq_value(&one) {
        integer_text(&value.numer)
    } else {
        let mut out: Vec<char> = Vec::new();
        push_str(&mut out, "(/ ");
        push_string(&mut out, &integer_text(&value.numer));
        out.push(' ');
        push_string(&mut out, &integer_text(&value.denom));
        out.push(')');
        string_from_chars(&out)
    }
}

/// A float as `(fp #b<sign> #b<exponent> #b<significand>)` from its bits (rounded to
/// nearest, ties to even), or `#b<bits>` when the bits are wider than the format.
fn format_float(value: &FloatValue) -> (r: String)
    requires
        crate::theory::fp::value_ok(*value),
{
    let fraction_bits: usize = if value.sort.significand_bits > 0 { (value.sort.significand_bits - 1) as usize } else { 0 };
    let exponent_bits = value.sort.exponent_bits as usize;
    let total_bits = 1 + exponent_bits + fraction_bits;
    let raw = value.to_bits(RoundingMode::NearestTiesToEven);
    let bits = format_biguint_bits(&raw, total_bits);
    let chars = chars_of(bits.as_str());
    let mut out: Vec<char> = Vec::new();
    if chars.len() != total_bits {
        push_str(&mut out, "#b");
        push_chars(&mut out, &chars);
        return string_from_chars(&out);
    }
    push_str(&mut out, "(fp #b");
    out.push(chars[0]);
    push_str(&mut out, " #b");
    let mut k: usize = 1;
    while k < 1 + exponent_bits
        invariant
            chars@.len() == total_bits,
            total_bits == 1 + exponent_bits + fraction_bits,
        decreases 1 + exponent_bits - k,
    {
        out.push(chars[k]);
        k += 1;
    }
    push_str(&mut out, " #b");
    let mut j: usize = 1 + exponent_bits;
    while j < total_bits
        invariant
            chars@.len() == total_bits,
        decreases total_bits - j,
    {
        out.push(chars[j]);
        j += 1;
    }
    out.push(')');
    string_from_chars(&out)
}

/// The binary digits of a natural padded with zeros on the left to `width`.
pub fn format_biguint_bits(value: &Integer, width: usize) -> (r: String)
    requires
        value@ >= 0,
    ensures
        r@ == padded_bits(value@ as nat, width as nat),
{
    let raw = natural_binary_text(value);
    let chars = chars_of(raw.as_str());
    let mut out: Vec<char> = Vec::new();
    push_padded(&mut out, &chars, width);
    assert(out@ =~= padded_bits(value@ as nat, width as nat));
    string_from_chars(&out)
}

/// Whether `a` comes before `b` in the order of their characters' code points: at the first
/// place where they differ, or as a proper prefix.
pub open spec fn text_before(a: Seq<char>, b: Seq<char>) -> bool
    decreases a.len(),
{
    if a.len() == 0 {
        b.len() > 0
    } else if b.len() == 0 {
        false
    } else if a[0] != b[0] {
        a[0] < b[0]
    } else {
        text_before(a.drop_first(), b.drop_first())
    }
}

/// No text comes before itself.
pub proof fn lemma_text_irreflexive(a: Seq<char>)
    ensures
        !text_before(a, a),
    decreases a.len(),
{
    if a.len() > 0 {
        lemma_text_irreflexive(a.drop_first());
    }
}

/// Of two texts, at most one comes before the other, and of two different texts one does.
pub proof fn lemma_text_total(a: Seq<char>, b: Seq<char>)
    ensures
        text_before(a, b) ==> !text_before(b, a),
        a != b ==> text_before(a, b) || text_before(b, a),
    decreases a.len(),
{
    if a.len() > 0 && b.len() > 0 {
        lemma_text_total(a.drop_first(), b.drop_first());
        if a[0] == b[0] && a != b {
            if a.drop_first() == b.drop_first() {
                assert(a =~= seq![a[0]] + a.drop_first());
                assert(b =~= seq![b[0]] + b.drop_first());
            }
        }
    }
    if a.len() == 0 && b.len() == 0 {
        assert(a =~= b);
    }
}

/// The order on texts is transitive.
pub proof fn lemma_text_transitive(a: Seq<char>, b: Seq<char>, c: Seq<char>)
    requires
        text_before(a, b),
        text_before(b, c),
    ensures
        text_before(a, c),
    decreases a.len(),
{
    if a.len() > 0 && a[0] == b[0] && b[0] == c[0] {
        lemma_text_transitive(a.drop_first(), b.drop_first(), c.drop_first());
    }
}

/// Whether `a` comes before `b` in the order of their characters' code points.
fn text_lt(a: &String, b: &String) -> (r: bool)
    ensures
        r == text_before(a@, b@),
{
    let x = chars_of(a.as_str());
    let y = chars_of(b.as_str());
    let mut k: usize = 0;
    proof {
        assert(x@.skip(0) =~= x@);
        assert(y@.skip(0) =~= y@);
    }
    while k < x.len() && k < y.len()
        invariant
            k <= x@.len(),
            k <= y@.len(),
            x@ == a@,
            y@ == b@,
            text_before(a@, b@) == text_before(x@.skip(k as int), y@.skip(k as int)),
        decreases x@.len() - k,
    {
        let cx = x[k];
        let cy = y[k];
        if cx != cy {
            return cx < cy;
        }
        proof {
            assert(x@.skip(k as int).drop_first() =~= x@.skip(k + 1));
            assert(y@.skip(k as int).drop_first() =~= y@.skip(k + 1));
        }
        k += 1;
    }
    proof {
        assert(x@.skip(k as int).len() == 0 || y@.skip(k as int).len() == 0);
    }
    x.len() < y.len()
}

/// The model's entries ordered by name.
pub fn sorted_model(model: Vec<(String, ModelValue)>) -> (r: Vec<(String, ModelValue)>)
    ensures
        r@.len() == model@.len(),
        r@.to_multiset() == model@.to_multiset(),
        forall|i: int, j: int| 0 <= i < j < r@.len() ==> !text_before(r@[j].0@, r@[i].0@),
{
    broadcast use vstd::seq_lib::group_to_multiset_ensures, vstd::multiset::group_multiset_axioms,
        vstd::multiset::lemma_multiset_empty_len;
    let mut out: Vec<(String, ModelValue)> = Vec::new();
    let mut rest = model;
    let ghost m0 = rest@;
    proof {
        assert(out@.to_multiset().len() == 0);
        assert(out@.to_multiset().add(rest@.to_multiset()) =~= m0.to_multiset());
    }
    while rest.len() > 0
        invariant
            out@.len() + rest@.len() == m0.len(),
            out@.to_multiset().add(rest@.to_multiset()) == m0.to_multiset(),
            forall|i: int, j: int| 0 <= i < j < out@.len() ==> !text_before(out@[j].0@, out@[i].0@),
        decreases rest@.len(),
    {
        let ghost before_rest = rest@;
        let entry = rest.remove(0);
        proof {
            assert(before_rest[0] == entry);
            vstd::seq_lib::to_multiset_remove(before_rest, 0);
            assert(before_rest.contains(entry));
            vstd::seq_lib::to_multiset_contains(before_rest, entry);
        }
        let mut pos: usize = out.len();
        while pos > 0 && text_lt(&entry.0, &out[pos - 1].0)
            invariant
                pos <= out@.len(),
                forall|q: int| pos <= q < out@.len() ==> text_before(entry.0@, #[trigger] out@[q].0@),
            decreases pos,
        {
            pos -= 1;
        }
        let ghost ob = out@;
        out.insert(pos, entry);
        proof {
            vstd::seq_lib::to_multiset_insert(ob, pos as int, entry);
            assert(out@.to_multiset().add(rest@.to_multiset()) =~= m0.to_multiset());
            assert forall|i: int, j: int| 0 <= i < j < out@.len() implies !text_before(out@[j].0@, out@[i].0@) by {
                if j < pos {
                    assert(out@[i] == ob[i] && out@[j] == ob[j]);
                } else if j == pos {
                    assert(out@[i] == ob[i]);
                    assert(!text_before(entry.0@, ob[pos - 1].0@));
                    if i < pos - 1 {
                        assert(!text_before(ob[pos - 1].0@, ob[i].0@));
                        lemma_text_total(ob[i].0@, ob[pos - 1].0@);
                        if text_before(entry.0@, ob[i].0@) {
                            if text_before(ob[i].0@, ob[pos - 1].0@) {
                                lemma_text_transitive(entry.0@, ob[i].0@, ob[pos - 1].0@);
                            }
                        }
                    }
                } else if i < pos {
                    assert(out@[i] == ob[i] && out@[j] == ob[j - 1]);
                } else if i == pos {
                    assert(out@[j] == ob[j - 1]);
                    assert(text_before(entry.0@, ob[j - 1].0@));
                    lemma_text_total(entry.0@, ob[j - 1].0@);
                } else {
                    assert(out@[i] == ob[i - 1] && out@[j] == ob[j - 1]);
                }
            }
        }
    }
    proof {
        assert(rest@.to_multiset().len() == 0);
        assert(out@.to_multiset() =~= m0.to_multiset());
    }
    out
}

/// The output line of an answer.
fn result_line(result: SolverResult) -> (r: String)
    ensures
        result is Sat ==> r@ == "sat"@,
        result is Unsat ==> r@ == "unsat"@,
        result is Unknown ==> r@ == "unknown"@,
{
    match result {
        SolverResult::Sat => "sat".to_owned(),
        SolverResult::Unsat => "unsat".to_owned(),
        SolverResult::Unknown => "unknown".to_owned(),
    }
}

/// The lines of a `get-model` answer: `(`, a `define-fun` per symbol in name order, `)`.
pub fn model_lines(solver: &Rz3Solver) -> (r: Vec<String>)
    requires
        solver.wf(),
    ensures
        r@.len() >= 2,
        r@[0]@ == "("@,
        r@[r@.len() - 1]@ == ")"@,
        forall|k: int| 0 < k < r@.len() - 1 ==> (#[trigger] r@[k])@.take(14) == "  (define-fun "@
            && r@[k]@.last() == ')',
{
    let model = sorted_model(solver.get_model());
    let mut lines: Vec<String> = Vec::new();
    lines.push("(".to_owned());
    let mut k: usize = 0;
    while k < model.len()
        invariant
            lines@.len() >= 1,
            lines@[0]@ == "("@,
            forall|q: int| 0 < q < lines@.len() ==> (#[trigger] lines@[q])@.take(14) == "  (define-fun "@
                && lines@[q]@.last() == ')',
        decreases model@.len() - k,
    {
        let mut out: Vec<char> = Vec::new();
        push_str(&mut out, "  (define-fun ");
        push_string(&mut out, &model[k].0);
        push_str(&mut out, " () ");
        push_string(&mut out, &format_model_sort(&model[k].1));
        out.push(' ');
        push_string(&mut out, &format_model_value(&model[k].1));
        out.push(')');
        proof {
            reveal_strlit("  (define-fun ");
            assert(out@.take(14) =~= "  (define-fun "@);
        }
        lines.push(string_from_chars(&out));
        k += 1;
    }
    lines.push(")".to_owned());
    lines
}

fn integer_wf(i: &Integer) -> (r: bool)
    ensures
        r == i.wf(),
{
    if i.digits.len() == 0 { !i.negative } else { i.digits[i.digits.len() - 1] != 0 }
}

/// Whether a float has an accepted format and well-formed numbers.
fn float_ok(v: &FloatValue) -> (r: bool)
    ensures
        r == crate::theory::fp::value_ok(*v),
{
    let s = v.sort;
    if s.exponent_bits < 2 || s.exponent_bits >= 63 || s.significand_bits < 2 || s.significand_bits >= 1024 {
        return false;
    }
    let zero = Integer::zero();
    match &v.class {
        crate::ast::fp::FloatClass::QuietNaN { payload } => integer_wf(payload) && !payload.lt(&zero),
        crate::ast::fp::FloatClass::Finite { value, .. } =>
            integer_wf(&value.numer) && integer_wf(&value.denom) && zero.lt(&value.denom) && zero.lt(&value.numer),
        _ => true,
    }
}

/// Runs `check-sat` where no answer has been given yet (its answer line is added); whether
/// the last answer is `sat`.
fn ensure_sat(solver: &mut Rz3Solver, last_result: &mut Option<SolverResult>, printed_check_sat: &mut bool, lines: &mut Vec<String>) -> (r: bool)
    requires
        old(solver).wf(),
    ensures
        final(solver).wf(),
        (*final(last_result)) is Some,
        r == (*final(last_result) == Some(SolverResult::Sat)),
        final(lines)@.len() >= old(lines)@.len(),
        *final(printed_check_sat) ==> *old(printed_check_sat) || final(lines)@.len() > old(lines)@.len(),
{
    if last_result.is_none() {
        let result = solver.check();
        lines.push(result_line(result));
        *last_result = Some(result);
        *printed_check_sat = true;
    }
    match *last_result {
        Some(SolverResult::Sat) => true,
        _ => false,
    }
}

/// The line of a `get-value` answer: `(term value)` for each term that has a value.
fn values_line(solver: &Rz3Solver, exprs: &Vec<Expr>) -> (r: String)
    requires
        solver.wf(),
{
    let mut out: Vec<char> = Vec::new();
    out.push('(');
    let mut first = true;
    let mut k: usize = 0;
    while k < exprs.len()
        invariant
            solver.wf(),
        decreases exprs@.len() - k,
    {
        match solver.get_value(&exprs[k]) {
            Some(value) => {
                if !first {
                    out.push(' ');
                }
                first = false;
                out.push('(');
                push_string(&mut out, &format_expr(&exprs[k]));
                out.push(' ');
                push_string(&mut out, &format_model_value(&value));
                out.push(')');
            },
            None => {},
        }
        k += 1;
    }
    out.push(')');
    string_from_chars(&out)
}

/// The output of a script, line by line: the answer of each `check-sat`, the model of each
/// `get-model` and the values of each `get-value` (both preceded by a check where none was
/// made yet, and given only after `sat`), and a final answer when the script asked for none.
pub fn run_script(input: &str) -> (r: Vec<String>)
    ensures
        r@.len() >= 1,
{
    let mut parser = Parser::new(input);
    let mut solver = Rz3Solver::new();
    let mut lines: Vec<String> = Vec::new();
    let mut printed_check_sat = false;
    let mut last_result: Option<SolverResult> = None;
    loop
        invariant
            parser.wf(),
            solver.wf(),
            printed_check_sat ==> lines@.len() >= 1,
        decreases parser.measure(),
    {
        let command = match parser.parse_command() {
            Some(c) => c,
            None => {
                break;
            },
        };
        match command {
            Command::SetLogic(_) | Command::SetOption(_, _) | Command::SetInfo(_, _) => {},
            Command::DeclareFun(name, params, return_type) => {
                solver.declare_fun_signature(name, params, return_type);
            },
            Command::DefineFun(name, params, return_type, _) => {
                let mut param_types: Vec<Type> = Vec::new();
                let mut k: usize = 0;
                while k < params.len()
                    decreases params@.len() - k,
                {
                    param_types.push(params[k].1.clone());
                    k += 1;
                }
                solver.declare_fun_signature(name, param_types, return_type);
            },
            Command::Assert(expr) => solver.assert_expr(&expr),
            Command::Push(n) => {
                let mut k: usize = 0;
                while k < n
                    invariant
                        solver.wf(),
                    decreases n - k,
                {
                    solver.push();
                    k += 1;
                }
            },
            Command::Pop(n) => {
                let mut k: usize = 0;
                while k < n
                    invariant
                        solver.wf(),
                    decreases n - k,
                {
                    solver.pop();
                    k += 1;
                }
            },
            Command::CheckSat => {
                let result = solver.check();
                lines.push(result_line(result));
                last_result = Some(result);
                printed_check_sat = true;
            },
            Command::GetModel => {
                if ensure_sat(&mut solver, &mut last_result, &mut printed_check_sat, &mut lines) {
                    let mut m = model_lines(&solver);
                    lines.append(&mut m);
                }
            },
            Command::GetValue(exprs) => {
                if ensure_sat(&mut solver, &mut last_result, &mut printed_check_sat, &mut lines) {
                    lines.push(values_line(&solver, &exprs));
                }
            },
            Command::Exit => {
                break;
            },
        }
    }
    if !printed_check_sat {
        let result = solver.check();
        lines.push(result_line(result));
    }
    lines
}

} // verus!
