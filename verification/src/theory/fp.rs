//! Floating point: exact IEEE-754 evaluation of ground terms (decoding and encoding of bit
//! patterns, the four rounding modes, `+ − × ÷ √`), and a solver that checks ground
//! floating-point assertions.
use vstd::prelude::*;
use vstd::arithmetic::power::pow;
use crate::ast::{Expr, SExpr, ModelValue, clone_exprs, exprs_view, lemma_exprs_view};
use crate::ast::fp::{FloatClass, FloatSort, FloatValue, RoundingMode};
use crate::num::{Integer, Rational, abs, bit_or, trunc_div, q_eq, q_mul};

verus! {

broadcast use vstd::std_specs::vec::group_vec_axioms;

/// Whether a format has the widths that [`FloatSort::new`] accepts.
pub open spec fn sort_ok(s: FloatSort) -> bool {
    2 <= s.exponent_bits < 63 && 2 <= s.significand_bits < 1024
}

/// `2^n`.
pub open spec fn p2(n: nat) -> nat
    decreases n,
{
    if n == 0 { 1 } else { 2 * p2((n - 1) as nat) }
}

impl FloatSort {
    /// The format with these widths, when `2 ≤ exponent_bits < 63` and
    /// `2 ≤ significand_bits < 1024`.
    pub fn new(exponent_bits: u16, significand_bits: u16) -> (r: Option<FloatSort>)
        ensures
            r is Some <==> 2 <= exponent_bits < 63 && 2 <= significand_bits < 1024,
            r matches Some(s) ==> s.exponent_bits == exponent_bits && s.significand_bits == significand_bits,
    {
        if exponent_bits < 2 || significand_bits < 2 || exponent_bits >= 63 || significand_bits >= 1024 {
            None
        } else {
            Some(FloatSort { exponent_bits, significand_bits })
        }
    }

    /// The all-ones biased exponent, `2^exponent_bits − 1`.
    pub fn exponent_max(self) -> (r: u64)
        requires
            sort_ok(self),
        ensures
            r == p2(self.exponent_bits as nat) - 1,
    {
        let mut p: u64 = 1;
        let mut i: u16 = 0;
        while i < self.exponent_bits
            invariant
                i <= self.exponent_bits,
                self.exponent_bits < 63,
                p == p2(i as nat),
            decreases self.exponent_bits - i,
        {
            proof {
                lemma_p2_mono(i as nat + 1, 62);
                lemma_p2_62();
            }
            p = p * 2;
            i += 1;
        }
        proof {
            lemma_p2_mono(0, i as nat);
        }
        p - 1
    }

    /// The exponent bias, `2^(exponent_bits − 1) − 1`.
    pub fn exponent_bias(self) -> (r: i64)
        requires
            sort_ok(self),
        ensures
            r == p2((self.exponent_bits - 1) as nat) - 1,
    {
        let mut p: i64 = 1;
        let mut i: u16 = 0;
        while i + 1 < self.exponent_bits
            invariant
                i + 1 <= self.exponent_bits,
                self.exponent_bits < 63,
                p == p2(i as nat),
            decreases self.exponent_bits - i,
        {
            proof {
                lemma_p2_mono(i as nat + 1, 62);
                lemma_p2_62();
            }
            p = p * 2;
            i += 1;
        }
        proof {
            lemma_p2_mono(0, i as nat);
        }
        p - 1
    }

    /// The width of the stored fraction, `significand_bits − 1`.
    pub fn fraction_bits(self) -> (r: u16)
        requires
            sort_ok(self),
        ensures
            r == self.significand_bits - 1,
    {
        self.significand_bits - 1
    }
}

proof fn lemma_p2_mono(a: nat, b: nat)
    requires
        a <= b,
    ensures
        1 <= p2(a) <= p2(b),
    decreases b,
{
    if b > a {
        lemma_p2_mono(a, (b - 1) as nat);
    } else if a > 0 {
        lemma_p2_mono(0, (a - 1) as nat);
    }
}

/// `2^n` as `pow` and as `p2` agree.
proof fn lemma_pow_p2(n: nat)
    ensures
        pow(2, n) == p2(n),
    decreases n,
{
    reveal(pow);
    if n > 0 {
        lemma_pow_p2((n - 1) as nat);
    }
}

/// `bit_or` of two naturals is a natural.
proof fn lemma_bit_or_nonneg(a: int, b: int)
    ensures
        bit_or(a, b) >= 0,
    decreases a + b,
{
    if a > 0 || b > 0 {
        if a >= 0 && b >= 0 {
            lemma_bit_or_nonneg(a / 2, b / 2);
        }
    }
}

/// Or-ing zero into a natural leaves it unchanged.
proof fn lemma_bit_or_zero(a: int)
    requires
        a >= 0,
    ensures
        bit_or(a, 0) == a,
    decreases a,
{
    if a > 0 {
        lemma_bit_or_zero(a / 2);
    }
}

/// Or-ing `2^k` into a natural sets bit `k`.
proof fn lemma_bit_or_sets_bit(x: int, k: nat)
    requires
        x >= 0,
    ensures
        (bit_or(x, p2(k) as int) / (p2(k) as int)) % 2 == 1,
    decreases k,
{
    if k == 0 {
        lemma_bit_or_zero(x / 2);
        assert(p2(0) == 1);
        assert(bit_or(x, 1) == 1 + 2 * bit_or(x / 2, 0));
        assert(bit_or(x, 1) / 1 == bit_or(x, 1));
        assert((1 + 2 * (x / 2)) % 2 == 1);
    } else {
        let pk = p2((k - 1) as nat) as int;
        lemma_p2_mono(0, (k - 1) as nat);
        lemma_bit_or_sets_bit(x / 2, (k - 1) as nat);
        lemma_bit_or_nonneg(x / 2, pk);
        let bb = bit_or(x / 2, pk);
        let low: int = if x % 2 == 1 { 1 } else { 0 };
        assert(p2(k) == 2 * pk);
        assert((2 * pk) % 2 == 0);
        assert(bit_or(x, 2 * pk) == low + 2 * bb);
        assert((low + 2 * bb) / 2 == bb);
        vstd::arithmetic::div_mod::lemma_div_denominator(low + 2 * bb, 2, pk);
        assert((low + 2 * bb) / (2 * pk) == bb / pk);
        assert(bit_or(x, p2(k) as int) / (p2(k) as int) == bb / pk);
    }
}

/// The sign bit of a bit pattern in `sort`.
pub open spec fn sign_bit_set(sort: FloatSort, bits: int) -> bool {
    (bits / pow2_int_view((sort.exponent_bits + sort.significand_bits - 1) as u64)) % 2 != 0
}

/// A pattern composed with the sign set has its sign bit set.
proof fn lemma_composed_negative(sort: FloatSort, exponent: int, fraction: int)
    requires
        sort_ok(sort),
        exponent >= 0,
        fraction >= 0,
    ensures
        sign_bit_set(sort, composed_bits(sort, true, exponent, fraction)),
{
    let fb = (sort.significand_bits - 1) as u64;
    let k = (sort.exponent_bits + fb) as u64;
    assert(pow2_int_view(fb) > 0) by {
        vstd::arithmetic::power::lemma_pow_positive(2, fb as nat);
    }
    assert(exponent * pow2_int_view(fb) >= 0) by (nonlinear_arith)
        requires exponent >= 0, pow2_int_view(fb) > 0;
    lemma_bit_or_nonneg(exponent * pow2_int_view(fb), fraction);
    lemma_pow_p2(k as nat);
    assert(pow2_int_view(k) == p2(k as nat));
    lemma_bit_or_sets_bit(bit_or(exponent * pow2_int_view(fb), fraction), k as nat);
    assert((sort.exponent_bits + sort.significand_bits - 1) as u64 == k);
}

proof fn lemma_p2_62()
    ensures
        p2(62) == 0x4000_0000_0000_0000,
{
    reveal_with_fuel(p2, 63);
}

/// The value of [`pow2_int`]: `2^k`, with `k` beyond `u32` taken as `u32::MAX`.
pub open spec fn pow2_int_view(k: u64) -> int {
    pow(2, if k > 4294967295 { 4294967295nat } else { k as nat })
}

/// `2^k` as an integer (`k` beyond `u32` is taken as `u32::MAX`).
fn pow2_int(k: u64) -> (r: Integer)
    ensures
        r.wf(),
        r@ > 0,
        r@ == pow2_int_view(k),
{
    let e: u32 = if k > 4294967295 { 4294967295 } else { k as u32 };
    let r = Integer::power(2, e);
    proof {
        vstd::arithmetic::power::lemma_pow_positive(2, e as nat);
    }
    r
}

/// `2^e` as a fraction (an exponent magnitude beyond `u32` is taken as `u32::MAX`, as
/// `pow2_int` takes it).
pub open spec fn two_pow(e: int) -> (int, int) {
    if e >= 0 { (pow2_int_view(e as u64), 1) } else { (1, pow2_int_view((-e) as u64)) }
}

/// The class that the fields of a bit pattern in `sort` stand for: the all-ones exponent
/// gives an infinity (zero fraction) or a NaN with the fraction as payload; the zero
/// exponent with a zero fraction a signed zero; otherwise a finite number with significand
/// `fraction / 2^fb` (plus 1 for a nonzero exponent) scaled by `2^(exponent - bias)` (by
/// `2^(1 - bias)` for the zero exponent).
pub open spec fn decoded_class(sort: FloatSort, sign: bool, exponent: int, fraction: int, c: FloatClass) -> bool {
    let fb = (sort.significand_bits - 1) as u64;
    let bias = p2((sort.exponent_bits - 1) as nat) - 1;
    if exponent == p2(sort.exponent_bits as nat) - 1 {
        if fraction == 0 {
            c == (if sign { FloatClass::NegativeInfinity } else { FloatClass::PositiveInfinity })
        } else {
            c matches FloatClass::QuietNaN { payload } && payload@ == fraction
        }
    } else if exponent == 0 && fraction == 0 {
        c == (if sign { FloatClass::NegativeZero } else { FloatClass::PositiveZero })
    } else {
        c matches FloatClass::Finite { negative, value } && negative == sign && q_eq(value@, q_mul(
            (if exponent == 0 { fraction } else { pow2_int_view(fb) + fraction }, pow2_int_view(fb)),
            two_pow(if exponent == 0 { 1 - bias } else { exponent - bias })))
    }
}

/// `2^exp` as a rational.
fn pow2_ratio(exp: i64) -> (r: Rational)
    ensures
        r.wf(),
        r@.0 > 0,
        exp > i64::MIN ==> q_eq(r@, two_pow(exp as int)),
{
    if exp >= 0 {
        Rational::from_integer(pow2_int(exp as u64))
    } else {
        let den = pow2_int(if exp == i64::MIN { 9223372036854775808u64 } else { (-exp) as u64 });
        let one = Integer::from_u32(1);
        let r = Rational::new(&one, &den);
        proof {
            assert(r@.0 * den@ == 1 * r@.1);
            assert(r@.0 > 0) by (nonlinear_arith)
                requires r@.0 * den@ == 1 * r@.1, den@ > 0, r@.1 > 0;
        }
        r
    }
}

/// `floor(x / 2^k)` for a natural `x`.
fn shr(x: &Integer, k: u64) -> (r: Integer)
    requires
        x.wf(),
        x@ >= 0,
    ensures
        r.wf(),
        r@ >= 0,
        r@ == x@ / pow2_int_view(k),
{
    let d = pow2_int(k);
    let q = x.quot(&d);
    proof {
        assert(trunc_div(x@, d@) == x@ / d@);
        assert(q@ >= 0) by (nonlinear_arith)
            requires q@ == trunc_div(x@, d@), x@ >= 0, d@ > 0;
    }
    q
}

/// `x mod 2^k` for a natural `x` (its `k` low bits).
fn low_bits(x: &Integer, k: u64) -> (r: Integer)
    requires
        x.wf(),
        x@ >= 0,
    ensures
        r.wf(),
        r@ >= 0,
        r@ == x@ % pow2_int_view(k),
{
    let d = pow2_int(k);
    let m = x.rem(&d);
    proof {
        let q = trunc_div(x@, d@);
        assert(q == x@ / d@);
        vstd::arithmetic::div_mod::lemma_fundamental_div_mod(x@, d@);
        assert(m@ >= 0) by (nonlinear_arith)
            requires m@ == x@ - d@ * q, q == x@ / d@, x@ >= 0, d@ > 0;
    }
    m
}

/// The bits of a sign, a biased exponent and a fraction in the format `sort`: the exponent
/// shifted above the fraction bits, or-ed with the fraction, and the sign bit above both.
pub open spec fn composed_bits(sort: FloatSort, negative: bool, exponent: int, fraction: int) -> int {
    let fb = (sort.significand_bits - 1) as u64;
    let body = bit_or(exponent * pow2_int_view(fb), fraction);
    if negative {
        bit_or(body, pow2_int_view((sort.exponent_bits + fb) as u64))
    } else {
        body
    }
}

/// The bits of a sign, a biased exponent and a fraction in the format `sort`.
fn compose_bits(sort: FloatSort, negative: bool, exponent: u64, fraction: &Integer) -> (r: Integer)
    requires
        sort_ok(sort),
        fraction.wf(),
        fraction@ >= 0,
    ensures
        r.wf(),
        r@ >= 0,
        r@ == composed_bits(sort, negative, exponent as int, fraction@),
{
    let fb = sort.fraction_bits() as u64;
    let p = pow2_int(fb);
    let e = Integer::from_u64(exponent).mul(&p);
    proof {
        assert(e@ >= 0) by (nonlinear_arith)
            requires e@ == (exponent as int) * p@, p@ > 0;
    }
    let mut bits = e.bitor(fraction);
    if negative {
        let s = pow2_int(sort.exponent_bits as u64 + fb);
        bits = bits.bitor(&s);
    }
    bits
}


/// The default NaN: the quiet bit alone in the payload.
fn default_nan(sort: FloatSort) -> (r: FloatClass)
    requires
        sort_ok(sort),
    ensures
        class_wf(r),
        r matches FloatClass::QuietNaN { payload } && payload@ == pow2_int_view((sort.significand_bits - 2) as u64),
{
    let fb = sort.fraction_bits() as u64;
    FloatClass::QuietNaN { payload: pow2_int(fb - 1) }
}

/// Whether the numbers inside a class are well formed (a payload nonnegative, a finite
/// magnitude positive: zeros have classes of their own).
pub open spec fn class_wf(c: FloatClass) -> bool {
    match c {
        FloatClass::QuietNaN { payload } => payload.wf() && payload@ >= 0,
        FloatClass::Finite { value, .. } => value.wf() && value@.0 > 0,
        _ => true,
    }
}

/// Whether a value has an accepted format and well-formed numbers.
pub open spec fn value_ok(v: FloatValue) -> bool {
    sort_ok(v.sort) && class_wf(v.class)
}

fn is_zero(c: &FloatClass) -> (r: bool)
    ensures
        r == (c is PositiveZero || c is NegativeZero),
{
    match c {
        FloatClass::PositiveZero | FloatClass::NegativeZero => true,
        _ => false,
    }
}

fn is_infinite(c: &FloatClass) -> (r: bool)
    ensures
        r == (c is PositiveInfinity || c is NegativeInfinity),
{
    match c {
        FloatClass::PositiveInfinity | FloatClass::NegativeInfinity => true,
        _ => false,
    }
}

/// The sign of a class (a NaN counts as positive).
pub open spec fn class_negative(c: FloatClass) -> bool {
    match c {
        FloatClass::NegativeInfinity | FloatClass::NegativeZero => true,
        FloatClass::Finite { negative, .. } => negative,
        _ => false,
    }
}

/// `r` is the negation of `c`: the sign flipped, a NaN's payload and a magnitude kept.
pub open spec fn is_negation(c: FloatClass, r: FloatClass) -> bool {
    match c {
        FloatClass::QuietNaN { payload } => r is QuietNaN && r->payload@ == payload@,
        FloatClass::PositiveInfinity => r is NegativeInfinity,
        FloatClass::NegativeInfinity => r is PositiveInfinity,
        FloatClass::PositiveZero => r is NegativeZero,
        FloatClass::NegativeZero => r is PositiveZero,
        FloatClass::Finite { negative, value } => r is Finite && r->negative == !negative && r->value@ == value@,
    }
}

/// `r` is the magnitude of `c`: the sign cleared, a NaN's payload and a magnitude kept.
pub open spec fn is_magnitude(c: FloatClass, r: FloatClass) -> bool {
    match c {
        FloatClass::QuietNaN { payload } => r is QuietNaN && r->payload@ == payload@,
        FloatClass::PositiveInfinity | FloatClass::NegativeInfinity => r is PositiveInfinity,
        FloatClass::PositiveZero | FloatClass::NegativeZero => r is PositiveZero,
        FloatClass::Finite { value, .. } => r is Finite && !r->negative && r->value@ == value@,
    }
}

/// The infinity of the given sign.
pub open spec fn infinity_of(negative: bool, r: FloatClass) -> bool {
    if negative { r is NegativeInfinity } else { r is PositiveInfinity }
}

/// The zero of the given sign.
pub open spec fn zero_of(negative: bool, r: FloatClass) -> bool {
    if negative { r is NegativeZero } else { r is PositiveZero }
}

/// Whether a class is an infinity.
pub open spec fn is_inf(c: FloatClass) -> bool {
    c is PositiveInfinity || c is NegativeInfinity
}

/// Whether a class is a zero.
pub open spec fn is_zero_class(c: FloatClass) -> bool {
    c is PositiveZero || c is NegativeZero
}

/// The sign bit of a class (a NaN counts as positive).
fn sign_negative(c: &FloatClass) -> (r: bool)
    ensures
        r == class_negative(*c),
{
    match c {
        FloatClass::NegativeInfinity | FloatClass::NegativeZero => true,
        FloatClass::Finite { negative, .. } => *negative,
        _ => false,
    }
}

/// The class of the sign, biased exponent and fraction fields of a value in `sort`: all-ones
/// exponent is an infinity (zero fraction) or a NaN with the fraction as payload; zero
/// exponent and fraction is a zero; otherwise the exact (sub)normal magnitude.
fn decode_fields(sort: FloatSort, sign: bool, exponent: u64, fraction: &Integer) -> (r: Option<FloatClass>)
    requires
        sort_ok(sort),
        fraction.wf(),
        fraction@ >= 0,
    ensures
        r matches Some(c) ==> class_wf(c),
        exponent <= i64::MAX ==> r is Some,
        r matches Some(c) ==> decoded_class(sort, sign, exponent as int, fraction@, c),
{
    if exponent == sort.exponent_max() {
        return Some(if fraction.is_zero() {
            if sign { FloatClass::NegativeInfinity } else { FloatClass::PositiveInfinity }
        } else {
            FloatClass::QuietNaN { payload: fraction.duplicate() }
        });
    }
    if exponent == 0 && fraction.is_zero() {
        return Some(if sign { FloatClass::NegativeZero } else { FloatClass::PositiveZero });
    }
    let fb = sort.fraction_bits() as u64;
    let frac_den = pow2_int(fb);
    let numer = if exponent == 0 { fraction.duplicate() } else { pow2_int(fb).add(fraction) };
    let significand = Rational::new(&numer, &frac_den);
    let bias = sort.exponent_bias();
    let e: i64 = if exponent == 0 { 1 - bias } else {
        if exponent > 9223372036854775807u64 { return None; }
        exponent as i64 - bias
    };
    proof {
        assert(numer@ > 0);
        assert(significand@.0 > 0) by (nonlinear_arith)
            requires significand@.0 * frac_den@ == numer@ * significand@.1, frac_den@ > 0, significand@.1 > 0, numer@ > 0;
    }
    let pr = pow2_ratio(e);
    let value = significand.mul(&pr);
    proof {
        assert(value@.0 > 0) by (nonlinear_arith)
            requires value@.0 * (significand@.1 * pr@.1) == (significand@.0 * pr@.0) * value@.1,
                significand@.0 > 0, pr@.0 > 0, significand@.1 > 0, pr@.1 > 0, value@.1 > 0;
        lemma_sort_bounds(sort);
        let tp = two_pow(e as int);
        assert(tp.1 > 0) by {
            if e < 0 {
                vstd::arithmetic::power::lemma_pow_positive(2, if (-e) as u64 > 4294967295 { 4294967295nat } else { ((-e) as u64) as nat });
            }
        }
        lemma_q_eq_mul(value@, significand@, pr@, (numer@, frac_den@), tp);
    }
    Some(FloatClass::Finite { negative: sign, value })
}

/// Products of equal fractions are equal.
proof fn lemma_q_eq_mul(v: (int, int), a: (int, int), b: (int, int), a2: (int, int), b2: (int, int))
    requires
        q_eq(v, q_mul(a, b)),
        q_eq(a, a2),
        q_eq(b, b2),
        v.1 > 0, a.1 > 0, b.1 > 0, a2.1 > 0, b2.1 > 0,
    ensures
        q_eq(v, q_mul(a2, b2)),
{
    let (v0, v1, a0, a1, b0, b1, c0, c1, d0, d1) = (v.0, v.1, a.0, a.1, b.0, b.1, a2.0, a2.1, b2.0, b2.1);
    let m = a1 * b1;
    let x = v0 * (c1 * d1);
    let y = (c0 * d0) * v1;
    assert(v0 * m == (a0 * b0) * v1);
    assert((v0 * m) * (c1 * d1) == ((a0 * b0) * v1) * (c1 * d1));
    assert(((a0 * b0) * v1) * (c1 * d1) == ((a0 * c1) * (b0 * d1)) * v1) by (nonlinear_arith);
    assert(a0 * c1 == c0 * a1);
    assert(b0 * d1 == d0 * b1);
    assert(((a0 * c1) * (b0 * d1)) * v1 == ((c0 * a1) * (d0 * b1)) * v1);
    assert(((c0 * a1) * (d0 * b1)) * v1 == y * m) by (nonlinear_arith)
        requires y == (c0 * d0) * v1, m == a1 * b1;
    assert((v0 * m) * (c1 * d1) == x * m) by (nonlinear_arith)
        requires x == v0 * (c1 * d1);
    assert(m > 0) by (nonlinear_arith) requires m == a1 * b1, a1 > 0, b1 > 0;
    assert(x == y) by (nonlinear_arith) requires x * m == y * m, m > 0;
}

/// Bit `index` of a natural.
fn bit_at(bits: &Integer, index: u64) -> (r: bool)
    requires
        bits.wf(),
        bits@ >= 0,
    ensures
        r == ((bits@ / pow2_int_view(index)) % 2 != 0),
{
    let s = shr(bits, index);
    let b = low_bits(&s, 1);
    proof {
        vstd::arithmetic::power::lemma_pow1(2);
        assert(pow2_int_view(1) == 2);
    }
    !b.is_zero()
}

impl FloatValue {
    /// The value of a bit pattern in `sort`.
    pub fn from_bits(sort: FloatSort, bits: &Integer) -> (r: Option<FloatValue>)
        requires
            sort_ok(sort),
            bits.wf(),
            bits@ >= 0,
        ensures
            r matches Some(v) ==> value_ok(v) && v.sort == sort,
            r is Some,
            r matches Some(v) ==> decoded_class(sort,
                (bits@ / pow2_int_view((sort.exponent_bits + sort.significand_bits - 1) as u64)) % 2 != 0,
                (bits@ / pow2_int_view((sort.significand_bits - 1) as u64)) % pow2_int_view(sort.exponent_bits as u64),
                bits@ % pow2_int_view((sort.significand_bits - 1) as u64),
                v.class),
    {
        let fb = sort.fraction_bits() as u64;
        proof {
            lemma_sort_bounds(sort);
            lemma_pow_p2(sort.exponent_bits as nat);
        }
        let sign_bit = bit_at(bits, sort.exponent_bits as u64 + fb);
        let exp_field = low_bits(&shr(bits, fb), sort.exponent_bits as u64);
        let exponent = match exp_field.to_u64() {
            Some(e) => e,
            None => {
                return None;
            },
        };
        let fraction = low_bits(bits, fb);
        match decode_fields(sort, sign_bit, exponent, &fraction) {
            Some(class) => Some(FloatValue { sort, class }),
            None => None,
        }
    }

    /// The bit pattern of this value (a finite magnitude is rounded with `mode`).
    pub fn to_bits(&self, mode: RoundingMode) -> (r: Integer)
        requires
            value_ok(*self),
        ensures
            r.wf(),
            r@ >= 0,
            self.class matches FloatClass::QuietNaN { payload } ==> r@ == composed_bits(self.sort, false, p2(self.sort.exponent_bits as nat) - 1, payload@),
            self.class is PositiveInfinity ==> r@ == composed_bits(self.sort, false, p2(self.sort.exponent_bits as nat) - 1, 0),
            self.class is NegativeInfinity ==> r@ == composed_bits(self.sort, true, p2(self.sort.exponent_bits as nat) - 1, 0),
            self.class is PositiveZero ==> r@ == composed_bits(self.sort, false, 0, 0),
            self.class is NegativeZero ==> r@ == composed_bits(self.sort, true, 0, 0),
    {
        encode_value(self.sort, &self.class, mode)
    }

    /// The exact value of a zero or finite number.
    fn exact_rational(&self) -> (r: Option<Rational>)
        requires
            value_ok(*self),
        ensures
            r matches Some(q) ==> q.wf() && (self.class is Finite ==> q@.0 != 0),
            r is Some <==> (self.class is PositiveZero || self.class is NegativeZero || self.class is Finite),
            r is Some && is_zero_class(self.class) ==> r->Some_0@.0 == 0,
            r is Some && self.class is Finite ==> (r->Some_0@.0 < 0 <==> self.class->negative),
    {
        match &self.class {
            FloatClass::PositiveZero | FloatClass::NegativeZero => Some(Rational::zero()),
            FloatClass::Finite { negative, value } => if *negative { Some(value.neg()) } else { Some(value.duplicate()) },
            _ => None,
        }
    }

    /// The sum, rounded with `mode`; `None` when the formats differ.
    pub fn add(&self, other: &FloatValue, mode: RoundingMode) -> (r: Option<FloatValue>)
        requires
            value_ok(*self),
            value_ok(*other),
        ensures
            r is Some <==> self.sort == other.sort,
            r matches Some(v) ==> value_ok(v) && v.sort == self.sort,
            r is Some && (self.class is QuietNaN || other.class is QuietNaN) ==> r->Some_0.class is QuietNaN,
            r is Some && self.class is QuietNaN ==> r->Some_0.class->payload@ == self.class->payload@,
            r is Some && !(self.class is QuietNaN) && !(other.class is QuietNaN) ==> {
                let (a, b) = (self.class, other.class);
                &&& (is_inf(a) && is_inf(b) && a != b) ==> r->Some_0.class is QuietNaN
                &&& ((a is PositiveInfinity && !(b is NegativeInfinity)) || (b is PositiveInfinity && !(a is NegativeInfinity)))
                    ==> r->Some_0.class is PositiveInfinity
                &&& ((a is NegativeInfinity && !(b is PositiveInfinity)) || (b is NegativeInfinity && !(a is PositiveInfinity)))
                    ==> r->Some_0.class is NegativeInfinity
                &&& (is_zero_class(a) && is_zero_class(b)) ==> r->Some_0.class == (
                    if (a is NegativeZero && b is NegativeZero)
                        || (!(a is PositiveZero && b is PositiveZero) && mode == RoundingMode::TowardNegative) {
                        FloatClass::NegativeZero
                    } else {
                        FloatClass::PositiveZero
                    })
            },
    {
        if self.sort != other.sort {
            return None;
        }
        let class = match (&self.class, &other.class) {
            (FloatClass::QuietNaN { payload }, _) => FloatClass::QuietNaN { payload: payload.duplicate() },
            (_, FloatClass::QuietNaN { payload }) => FloatClass::QuietNaN { payload: payload.duplicate() },
            (FloatClass::PositiveInfinity, FloatClass::NegativeInfinity) => default_nan(self.sort),
            (FloatClass::NegativeInfinity, FloatClass::PositiveInfinity) => default_nan(self.sort),
            (FloatClass::PositiveInfinity, _) | (_, FloatClass::PositiveInfinity) => FloatClass::PositiveInfinity,
            (FloatClass::NegativeInfinity, _) | (_, FloatClass::NegativeInfinity) => FloatClass::NegativeInfinity,
            _ => {
                let a = match self.exact_rational() { Some(q) => q, None => { return None; } };
                let b = match other.exact_rational() { Some(q) => q, None => { return None; } };
                let sum = a.add(&b);
                proof {
                    if a@.0 == 0 && b@.0 == 0 {
                        let d = a@.1 * b@.1;
                        assert(d > 0) by (nonlinear_arith) requires a@.1 > 0, b@.1 > 0, d == a@.1 * b@.1;
                        assert(sum@.0 * d == 0) by (nonlinear_arith)
                            requires sum@.0 * d == (a@.0 * b@.1 + b@.0 * a@.1) * sum@.1, a@.0 == 0, b@.0 == 0;
                        assert(sum@.0 == 0) by (nonlinear_arith) requires sum@.0 * d == 0, d > 0;
                    }
                }
                if sum.is_zero() {
                    let both_negative = matches!(self.class, FloatClass::NegativeZero)
                        && matches!(other.class, FloatClass::NegativeZero);
                    let both_positive = matches!(self.class, FloatClass::PositiveZero)
                        && matches!(other.class, FloatClass::PositiveZero);
                    if both_negative || (!both_positive && mode == RoundingMode::TowardNegative) {
                        FloatClass::NegativeZero
                    } else {
                        FloatClass::PositiveZero
                    }
                } else {
                    class_from_rounded_bits(self.sort, &sum, mode)
                }
            },
        };
        Some(FloatValue { sort: self.sort, class })
    }

    /// The difference, rounded with `mode`.
    pub fn sub(&self, other: &FloatValue, mode: RoundingMode) -> (r: Option<FloatValue>)
        requires
            value_ok(*self),
            value_ok(*other),
        ensures
            r is Some <==> self.sort == other.sort,
            r matches Some(v) ==> value_ok(v) && v.sort == self.sort,
    {
        self.add(&other.neg(), mode)
    }

    /// The product, rounded with `mode`.
    pub fn mul(&self, other: &FloatValue, mode: RoundingMode) -> (r: Option<FloatValue>)
        requires
            value_ok(*self),
            value_ok(*other),
        ensures
            r is Some <==> self.sort == other.sort,
            r matches Some(v) ==> value_ok(v) && v.sort == self.sort,
            r is Some && (self.class is QuietNaN || other.class is QuietNaN) ==> r->Some_0.class is QuietNaN,
            r is Some && !(self.class is QuietNaN) && !(other.class is QuietNaN) ==> {
                let (a, b) = (self.class, other.class);
                &&& ((is_zero_class(a) && is_inf(b)) || (is_inf(a) && is_zero_class(b))) ==> r->Some_0.class is QuietNaN
                &&& (is_inf(a) || is_inf(b)) && !is_zero_class(a) && !is_zero_class(b)
                    ==> infinity_of(class_negative(a) != class_negative(b), r->Some_0.class)
                &&& (a is Finite && b is Finite && a->negative != b->negative)
                    ==> class_negative(r->Some_0.class) || r->Some_0.class is QuietNaN
            },
    {
        if self.sort != other.sort {
            return None;
        }
        let a = &self.class;
        let b = &other.class;
        let class = match (a, b) {
            (FloatClass::QuietNaN { payload }, _) => FloatClass::QuietNaN { payload: payload.duplicate() },
            (_, FloatClass::QuietNaN { payload }) => FloatClass::QuietNaN { payload: payload.duplicate() },
            _ => {
                if (is_zero(a) && is_infinite(b)) || (is_infinite(a) && is_zero(b)) {
                    default_nan(self.sort)
                } else if is_infinite(a) || is_infinite(b) {
                    if sign_negative(a) != sign_negative(b) { FloatClass::NegativeInfinity } else { FloatClass::PositiveInfinity }
                } else {
                    let x = match self.exact_rational() { Some(q) => q, None => { return None; } };
                    let y = match other.exact_rational() { Some(q) => q, None => { return None; } };
                    let product = x.mul(&y);
                    proof {
                        if (x@.0 < 0) != (y@.0 < 0) && x@.0 != 0 && y@.0 != 0 {
                            assert(x@.0 * y@.0 < 0) by (nonlinear_arith)
                                requires (x@.0 < 0) != (y@.0 < 0), x@.0 != 0, y@.0 != 0;
                            assert(x@.1 * y@.1 > 0) by (nonlinear_arith)
                                requires x@.1 > 0, y@.1 > 0;
                            assert(product@.0 < 0) by (nonlinear_arith)
                                requires product@.0 * (x@.1 * y@.1) == (x@.0 * y@.0) * product@.1,
                                    x@.0 * y@.0 < 0, x@.1 * y@.1 > 0, product@.1 > 0;
                        }
                    }
                    class_from_rounded_bits(self.sort, &product, mode)
                }
            },
        };
        Some(FloatValue { sort: self.sort, class })
    }

    /// The quotient, rounded with `mode`.
    pub fn div(&self, other: &FloatValue, mode: RoundingMode) -> (r: Option<FloatValue>)
        requires
            value_ok(*self),
            value_ok(*other),
        ensures
            r is Some <==> self.sort == other.sort,
            r matches Some(v) ==> value_ok(v) && v.sort == self.sort,
            r is Some && (self.class is QuietNaN || other.class is QuietNaN) ==> r->Some_0.class is QuietNaN,
            r is Some && !(self.class is QuietNaN) && !(other.class is QuietNaN) ==> {
                let (a, b) = (self.class, other.class);
                let neg = class_negative(a) != class_negative(b);
                &&& (is_zero_class(a) && is_zero_class(b)) || (is_inf(a) && is_inf(b)) ==> r->Some_0.class is QuietNaN
                &&& is_inf(a) && !is_inf(b) ==> infinity_of(neg, r->Some_0.class)
                &&& is_inf(b) && !is_inf(a) ==> zero_of(neg, r->Some_0.class)
                &&& is_zero_class(b) && !is_zero_class(a) && !is_inf(a) ==> infinity_of(neg, r->Some_0.class)
            },
    {
        if self.sort != other.sort {
            return None;
        }
        let a = &self.class;
        let b = &other.class;
        let class = match (a, b) {
            (FloatClass::QuietNaN { payload }, _) => FloatClass::QuietNaN { payload: payload.duplicate() },
            (_, FloatClass::QuietNaN { payload }) => FloatClass::QuietNaN { payload: payload.duplicate() },
            _ => {
                let neg = sign_negative(a) != sign_negative(b);
                if is_zero(a) && is_zero(b) {
                    default_nan(self.sort)
                } else if is_infinite(a) && is_infinite(b) {
                    default_nan(self.sort)
                } else if is_infinite(a) {
                    if neg { FloatClass::NegativeInfinity } else { FloatClass::PositiveInfinity }
                } else if is_infinite(b) {
                    if neg { FloatClass::NegativeZero } else { FloatClass::PositiveZero }
                } else if is_zero(b) {
                    if neg { FloatClass::NegativeInfinity } else { FloatClass::PositiveInfinity }
                } else {
                    let x = match self.exact_rational() { Some(q) => q, None => { return None; } };
                    let y = match other.exact_rational() { Some(q) => q, None => { return None; } };
                    class_from_rounded_bits(self.sort, &x.div(&y), mode)
                }
            },
        };
        Some(FloatValue { sort: self.sort, class })
    }

    /// The square root, rounded with `mode`.
    pub fn sqrt(&self, mode: RoundingMode) -> (r: Option<FloatValue>)
        requires
            value_ok(*self),
        ensures
            r matches Some(v) ==> value_ok(v) && v.sort == self.sort,
            !(self.class is Finite && !self.class->negative) ==> r is Some,
            r is Some && (self.class is QuietNaN || self.class is NegativeInfinity
                || (self.class is Finite && self.class->negative)) ==> r->Some_0.class is QuietNaN,
            r is Some && self.class is PositiveInfinity ==> r->Some_0.class is PositiveInfinity,
            r is Some && self.class is PositiveZero ==> r->Some_0.class is PositiveZero,
            r is Some && self.class is NegativeZero ==> r->Some_0.class is NegativeZero,
    {
        let class = match &self.class {
            FloatClass::QuietNaN { payload } => FloatClass::QuietNaN { payload: payload.duplicate() },
            FloatClass::NegativeInfinity => default_nan(self.sort),
            FloatClass::PositiveInfinity => FloatClass::PositiveInfinity,
            FloatClass::NegativeZero => FloatClass::NegativeZero,
            FloatClass::PositiveZero => FloatClass::PositiveZero,
            FloatClass::Finite { negative, value } => {
                if *negative {
                    default_nan(self.sort)
                } else {
                    let rounded = match sqrt_round_to_float_bits(self.sort, value, mode) {
                        Some(b) => b,
                        None => {
                            return None;
                        },
                    };
                    match FloatValue::from_bits(self.sort, &rounded) {
                        Some(v) => v.class,
                        None => {
                            return None;
                        },
                    }
                }
            },
        };
        Some(FloatValue { sort: self.sort, class })
    }

    /// The value with the sign flipped (a NaN unchanged).
    pub fn neg(&self) -> (r: FloatValue)
        requires
            value_ok(*self),
        ensures
            value_ok(r),
            r.sort == self.sort,
            is_negation(self.class, r.class),
    {
        let class = match &self.class {
            FloatClass::QuietNaN { payload } => FloatClass::QuietNaN { payload: payload.duplicate() },
            FloatClass::PositiveInfinity => FloatClass::NegativeInfinity,
            FloatClass::NegativeInfinity => FloatClass::PositiveInfinity,
            FloatClass::PositiveZero => FloatClass::NegativeZero,
            FloatClass::NegativeZero => FloatClass::PositiveZero,
            FloatClass::Finite { negative, value } => FloatClass::Finite { negative: !*negative, value: value.duplicate() },
        };
        FloatValue { sort: self.sort, class }
    }

    /// The magnitude (a NaN unchanged).
    pub fn abs(&self) -> (r: FloatValue)
        requires
            value_ok(*self),
        ensures
            value_ok(r),
            r.sort == self.sort,
            is_magnitude(self.class, r.class),
    {
        let class = match &self.class {
            FloatClass::QuietNaN { payload } => FloatClass::QuietNaN { payload: payload.duplicate() },
            FloatClass::PositiveInfinity | FloatClass::NegativeInfinity => FloatClass::PositiveInfinity,
            FloatClass::PositiveZero | FloatClass::NegativeZero => FloatClass::PositiveZero,
            FloatClass::Finite { value, .. } => FloatClass::Finite { negative: false, value: value.duplicate() },
        };
        FloatValue { sort: self.sort, class }
    }
}

/// The bits of a class in `sort` (a finite magnitude rounded with `mode`).
fn encode_value(sort: FloatSort, class: &FloatClass, mode: RoundingMode) -> (r: Integer)
    requires
        sort_ok(sort),
        class_wf(*class),
    ensures
        r.wf(),
        r@ >= 0,
        class matches FloatClass::QuietNaN { payload } ==> r@ == composed_bits(sort, false, p2(sort.exponent_bits as nat) - 1, payload@),
        class is PositiveInfinity ==> r@ == composed_bits(sort, false, p2(sort.exponent_bits as nat) - 1, 0),
        class is NegativeInfinity ==> r@ == composed_bits(sort, true, p2(sort.exponent_bits as nat) - 1, 0),
        class is PositiveZero ==> r@ == composed_bits(sort, false, 0, 0),
        class is NegativeZero ==> r@ == composed_bits(sort, true, 0, 0),
{
    let zero = Integer::zero();
    match class {
        FloatClass::QuietNaN { payload } => compose_bits(sort, false, sort.exponent_max(), payload),
        FloatClass::PositiveInfinity => compose_bits(sort, false, sort.exponent_max(), &zero),
        FloatClass::NegativeInfinity => compose_bits(sort, true, sort.exponent_max(), &zero),
        FloatClass::PositiveZero => compose_bits(sort, false, 0, &zero),
        FloatClass::NegativeZero => compose_bits(sort, true, 0, &zero),
        FloatClass::Finite { negative, value } => round_finite_to_bits(sort, *negative, value, mode),
    }
}

/// The class of `value` rounded to `sort` (the default NaN if the bits do not decode).
fn class_from_rounded_bits(sort: FloatSort, value: &Rational, mode: RoundingMode) -> (r: FloatClass)
    requires
        sort_ok(sort),
        value.wf(),
    ensures
        class_wf(r),
        value@.0 < 0 ==> class_negative(r) || r is QuietNaN,
{
    let bits = round_signed_rational_to_bits(sort, value, mode);
    match FloatValue::from_bits(sort, &bits) {
        Some(v) => v.class,
        None => default_nan(sort),
    }
}

/// The bits of a signed rational rounded to `sort` (zero is positive zero).
fn round_signed_rational_to_bits(sort: FloatSort, value: &Rational, mode: RoundingMode) -> (r: Integer)
    requires
        sort_ok(sort),
        value.wf(),
    ensures
        r.wf(),
        r@ >= 0,
        value@.0 < 0 ==> sign_bit_set(sort, r@),
{
    if value.is_zero() {
        return compose_bits(sort, value.is_negative(), 0, &Integer::zero());
    }
    let negative = value.is_negative();
    let mag = if negative { value.neg() } else { value.duplicate() };
    round_finite_to_bits(sort, negative, &mag, mode)
}

/// The exponent of the largest power of two at or below a positive rational.
///
/// The bit lengths of the numerator and the denominator place the logarithm within one
/// of their difference, so each loop takes at most a step or two.
fn floor_log2_rational(value: &Rational) -> (r: i64)
    requires
        value.wf(),
    ensures
        -0x2000_0000_0000_0000 <= r <= 0x2000_0000_0000_0000,
{
    let nb = clamp_bits(value.numer.bits());
    let db = clamp_bits(value.denom.bits());
    let mut e: i64 = nb - db;
    let mut steps: u32 = 0;
    while steps < 64 && value.lt(&pow2_ratio(e))
        invariant
            value.wf(),
            steps <= 64,
            -0x1000_0000_0000_0000 - steps <= e <= 0x1000_0000_0000_0000,
        decreases 64 - steps,
    {
        e -= 1;
        steps += 1;
    }
    let mut up: u32 = 0;
    while up < 64 && !value.lt(&pow2_ratio(e + 1))
        invariant
            value.wf(),
            up <= 64,
            -0x1000_0000_0000_0000 - 64 <= e <= 0x1000_0000_0000_0000 + up,
        decreases 64 - up,
    {
        e += 1;
        up += 1;
    }
    e
}

/// A bit length as an `i64` (lengths beyond `2^60` bits are taken as `2^60`).
fn clamp_bits(b: u64) -> (r: i64)
    ensures
        0 <= r <= 0x1000_0000_0000_0000,
        b <= 0x1000_0000_0000_0000 ==> r == b,
{
    if b > 0x1000_0000_0000_0000 { 0x1000_0000_0000_0000 } else { b as i64 }
}

/// `floor(e / 2)`.
fn half_floor(e: i64) -> (r: i64)
    requires
        -0x4000_0000_0000_0000 <= e <= 0x4000_0000_0000_0000,
    ensures
        r == e / 2,
{
    if e >= 0 { e / 2 } else { -((-e + 1) / 2) }
}

/// The integer nearest to `value` in the direction of `mode`; `negative` says whether the
/// number being rounded is negative, for the directed modes.
pub open spec fn round_int_spec(n: int, d: int, negative: bool, mode: RoundingMode) -> int {
    let q = trunc_div(n, d);
    let rem = n - d * q;
    if rem == 0 {
        q
    } else {
        match mode {
            RoundingMode::TowardZero => q,
            RoundingMode::TowardPositive => if negative { q } else { q + 1 },
            RoundingMode::TowardNegative => if negative { q + 1 } else { q },
            RoundingMode::NearestTiesToEven => if 2 * rem < d {
                q
            } else if 2 * rem > d {
                q + 1
            } else if q % 2 == 0 {
                q
            } else {
                q + 1
            },
        }
    }
}

proof fn lemma_round_int_nonneg(n: int, d: int, negative: bool, mode: RoundingMode)
    requires
        n >= 0,
        d > 0,
    ensures
        round_int_spec(n, d, negative, mode) >= 0,
{
    assert(trunc_div(n, d) == n / d);
    assert(n / d >= 0) by (nonlinear_arith)
        requires n >= 0, d > 0;
}

/// `value` rounded to an integer with `mode`.
fn round_integer(value: &Rational, negative: bool, mode: RoundingMode) -> (r: Integer)
    requires
        value.wf(),
    ensures
        r.wf(),
        r@ == round_int_spec(value@.0, value@.1, negative, mode),
{
    let n = &value.numer;
    let d = &value.denom;
    let q = n.quot(d);
    let rem = n.rem(d);
    if rem.is_zero() {
        return q;
    }
    let one = Integer::from_u32(1);
    match mode {
        RoundingMode::TowardZero => q,
        RoundingMode::TowardPositive => if negative { q } else { q.add(&one) },
        RoundingMode::TowardNegative => if negative { q.add(&one) } else { q },
        RoundingMode::NearestTiesToEven => {
            let twice = rem.add(&rem);
            let c = twice.compare(d);
            if c == -1 {
                q
            } else if c == 1 {
                q.add(&one)
            } else {
                let two = Integer::from_u32(2);
                let parity = q.rem(&two);
                proof {
                    let t = trunc_div(q@, 2);
                    assert(parity@ == q@ - 2 * t);
                    if q@ >= 0 {
                        assert(t == q@ / 2);
                    } else {
                        assert(t == -((-q@) / 2));
                    }
                    assert((parity@ == 0) == (q@ % 2 == 0)) by (nonlinear_arith)
                        requires
                            parity@ == q@ - 2 * t,
                            q@ >= 0 ==> t == q@ / 2,
                            q@ < 0 ==> t == -((-q@) / 2);
                }
                if parity.is_zero() { q } else { q.add(&one) }
            }
        },
    }
}

/// The bits of the largest finite magnitude of `sort`, with the given sign.
fn max_finite_bits(sort: FloatSort, negative: bool) -> (r: Integer)
    requires
        sort_ok(sort),
    ensures
        r.wf(),
        r@ >= 0,
        r@ == composed_bits(sort, negative, p2(sort.exponent_bits as nat) - 2,
            pow2_int_view((sort.significand_bits - 1) as u64) - 1),
{
    let fb = sort.fraction_bits() as u64;
    let fraction = pow2_int(fb).sub(&Integer::from_u32(1));
    compose_bits(sort, negative, sort.exponent_max() - 1, &fraction)
}

/// Whether `mode` rounds a result too large for its format, of the given sign, down to the
/// largest finite magnitude (rather than to an infinity).
pub open spec fn rounds_to_max(mode: RoundingMode, negative: bool) -> bool {
    match mode {
        RoundingMode::TowardZero => true,
        RoundingMode::TowardNegative => !negative,
        RoundingMode::TowardPositive => negative,
        RoundingMode::NearestTiesToEven => false,
    }
}

/// The bits of a result too large for `sort`: an infinity, or the largest finite magnitude
/// where `mode` rounds toward zero from that side.
fn overflow_bits(sort: FloatSort, negative: bool, mode: RoundingMode) -> (r: Integer)
    requires
        sort_ok(sort),
    ensures
        r.wf(),
        r@ >= 0,
        r@ == composed_bits(sort, negative,
            if rounds_to_max(mode, negative) { p2(sort.exponent_bits as nat) - 2 } else { p2(sort.exponent_bits as nat) - 1 },
            if rounds_to_max(mode, negative) { pow2_int_view((sort.significand_bits - 1) as u64) - 1 } else { 0 }),
{
    let to_max = match mode {
        RoundingMode::TowardZero => true,
        RoundingMode::TowardNegative => !negative,
        RoundingMode::TowardPositive => negative,
        RoundingMode::NearestTiesToEven => false,
    };
    if to_max {
        max_finite_bits(sort, negative)
    } else {
        compose_bits(sort, negative, sort.exponent_max(), &Integer::zero())
    }
}

/// Bounds on the exponent constants of an accepted format.
proof fn lemma_sort_bounds(sort: FloatSort)
    requires
        sort_ok(sort),
    ensures
        1 <= p2(sort.exponent_bits as nat) <= 0x4000_0000_0000_0000,
        1 <= p2((sort.exponent_bits - 1) as nat) <= 0x2000_0000_0000_0000,
{
    lemma_p2_mono(sort.exponent_bits as nat, 62);
    lemma_p2_mono((sort.exponent_bits - 1) as nat, 61);
    lemma_p2_62();
    assert(p2(62) == 2 * p2(61));
}

/// `x / 2^k` for a nonnegative `x`, nonnegative.
fn scale_down(x: &Rational, k: i64) -> (r: Rational)
    requires
        x.wf(),
        x@.0 >= 0,
    ensures
        r.wf(),
        r@.0 >= 0,
{
    let p = pow2_ratio(k);
    let r = x.div(&p);
    proof {
        assert(r@.0 >= 0) by (nonlinear_arith)
            requires r@.0 * (x@.1 * p@.0) == (x@.0 * p@.1) * r@.1, x@.0 >= 0, x@.1 > 0, p@.0 > 0, p@.1 > 0, r@.1 > 0;
    }
    r
}

/// The bits of `±magnitude` rounded to `sort` with `mode`: normal numbers keep
/// `significand_bits` bits, smaller ones are rounded at the subnormal spacing, and results
/// beyond the largest normal exponent overflow.
fn round_finite_to_bits(sort: FloatSort, negative: bool, magnitude: &Rational, mode: RoundingMode) -> (r: Integer)
    requires
        sort_ok(sort),
        magnitude.wf(),
        magnitude@.0 >= 0,
    ensures
        r.wf(),
        r@ >= 0,
        negative ==> sign_bit_set(sort, r@),
{
    proof {
        lemma_sort_bounds(sort);
        vstd::arithmetic::power::lemma_pow_positive(2, (sort.significand_bits - 1) as nat);
        if negative {
            lemma_composed_negative(sort, 0, 0);
            lemma_composed_negative(sort, p2(sort.exponent_bits as nat) - 1, 0);
            lemma_composed_negative(sort, p2(sort.exponent_bits as nat) - 2,
                pow2_int_view((sort.significand_bits - 1) as u64) - 1);
            lemma_composed_negative(sort, 1, 0);
        }
    }
    if magnitude.is_zero() {
        return compose_bits(sort, negative, 0, &Integer::zero());
    }
    let bias = sort.exponent_bias();
    let fb = sort.fraction_bits();
    let min_normal_exp: i64 = 1 - bias;
    let max_normal_exp: i64 = sort.exponent_max() as i64 - 1 - bias;
    let mut exponent = floor_log2_rational(magnitude);
    if exponent > max_normal_exp {
        return overflow_bits(sort, negative, mode);
    }
    if exponent >= min_normal_exp {
        let scaled = scale_down(magnitude, exponent - fb as i64);
        let mut significand = round_integer(&scaled, negative, mode);
        proof {
            lemma_round_int_nonneg(scaled@.0, scaled@.1, negative, mode);
        }
        let limit = pow2_int(sort.significand_bits as u64);
        if !significand.lt(&limit) {
            significand = shr(&significand, 1);
            exponent += 1;
            if exponent > max_normal_exp {
                return overflow_bits(sort, negative, mode);
            }
        }
        let biased = (exponent + bias) as u64;
        let hidden = pow2_int(fb as u64);
        let diff = significand.sub(&hidden);
        let fraction = if diff.is_negative() { Integer::zero() } else { diff };
        proof {
            if negative {
                lemma_composed_negative(sort, biased as int, fraction@);
            }
        }
        compose_bits(sort, negative, biased, &fraction)
    } else {
        let scaled = scale_down(magnitude, min_normal_exp - fb as i64);
        let significand = round_integer(&scaled, negative, mode);
        proof {
            lemma_round_int_nonneg(scaled@.0, scaled@.1, negative, mode);
        }
        if significand.is_zero() {
            return compose_bits(sort, negative, 0, &Integer::zero());
        }
        let normal_threshold = pow2_int(fb as u64);
        if !significand.lt(&normal_threshold) {
            compose_bits(sort, negative, 1, &Integer::zero())
        } else {
            proof {
                if negative {
                    lemma_composed_negative(sort, 0, significand@);
                }
            }
            compose_bits(sort, negative, 0, &significand)
        }
    }
}

/// `x · 2^k` for a nonnegative `x`, nonnegative.
fn scale_up(x: &Rational, k: i64) -> (r: Rational)
    requires
        x.wf(),
        x@.0 >= 0,
    ensures
        r.wf(),
        r@.0 >= 0,
{
    let p = pow2_ratio(k);
    let r = x.mul(&p);
    proof {
        assert(r@.0 >= 0) by (nonlinear_arith)
            requires r@.0 * (x@.1 * p@.1) == (x@.0 * p@.0) * r@.1, x@.0 >= 0, x@.1 > 0, p@.0 > 0, p@.1 > 0, r@.1 > 0;
    }
    r
}

/// An integer at or above the square root of a natural: 0 for 0, else a power of two with
/// half its bit length (rounded up).
fn sqrt_upper_bound(value: &Integer) -> (r: Integer)
    requires
        value.wf(),
    ensures
        r.wf(),
        r@ >= 0,
        value@ == 0 ==> r@ == 0,
        value@ != 0 ==> exists|b: u64| #![trigger pow(2, b as nat)]
            b >= 1 && pow(2, (b - 1) as nat) <= abs(value@) < pow(2, b as nat)
                && r@ == pow2_int_view(((b as int + 1) / 2) as u64),
{
    if value.is_zero() {
        Integer::zero()
    } else {
        let b = value.bits();
        let half: u64 = if b == u64::MAX { b / 2 + 1 } else { (b + 1) / 2 };
        pow2_int(half)
    }
}

/// `floor(x / 2)` for a natural `x`.
fn halve(x: &Integer) -> (r: Integer)
    requires
        x.wf(),
        x@ >= 0,
    ensures
        r.wf(),
        r@ == x@ / 2,
{
    let two = Integer::from_u32(2);
    x.quot(&two)
}

/// The square root of a nonnegative rational, rounded to an integer with `mode`: a binary
/// search finds the floor, then the directed modes and the nearest (ties to even) pick it or
/// the next integer.
fn round_sqrt_integer(value: &Rational, negative: bool, mode: RoundingMode) -> (r: Option<Integer>)
    requires
        value.wf(),
        value@.0 >= 0,
    ensures
        r matches Some(x) ==> x.wf() && x@ >= 0,
{
    let n = &value.numer;
    let d = &value.denom;
    let one = Integer::from_u32(1);
    let mut lo = Integer::zero();
    let mut hi = sqrt_upper_bound(n).add(&one);
    while lo.lt(&hi)
        invariant
            lo.wf(),
            hi.wf(),
            0 <= lo@ <= hi@,
            one@ == 1,
            n.wf(),
            d.wf(),
        decreases hi@ - lo@,
    {
        let mid = halve(&lo.add(&hi).add(&one));
        if !n.lt(&mid.mul(&mid).mul(d)) {
            lo = mid;
        } else {
            hi = mid.sub(&one);
        }
    }
    let floor = lo;
    let floor_sq = floor.mul(&floor).mul(d);
    if floor_sq.eq_value(n) {
        return Some(floor);
    }
    match mode {
        RoundingMode::TowardZero => if !negative { Some(floor) } else { Some(floor) },
        RoundingMode::TowardNegative => if !negative { Some(floor) } else { Some(floor.add(&one)) },
        RoundingMode::TowardPositive => if !negative { Some(floor.add(&one)) } else { Some(floor) },
        RoundingMode::NearestTiesToEven => {
            let ceil = floor.add(&one);
            let lower_dist = n.sub(&floor_sq);
            let upper_dist = ceil.mul(&ceil).mul(d).sub(n);
            let c = lower_dist.compare(&upper_dist);
            if c == -1 {
                Some(floor)
            } else if c == 1 {
                Some(ceil)
            } else if low_bits(&floor, 1).is_zero() {
                Some(floor)
            } else {
                Some(ceil)
            }
        },
    }
}

/// The bits of the square root of a nonnegative rational rounded to `sort` with `mode`;
/// `None` for a negative rational.
fn sqrt_round_to_float_bits(sort: FloatSort, value: &Rational, mode: RoundingMode) -> (r: Option<Integer>)
    requires
        sort_ok(sort),
        value.wf(),
    ensures
        r is Some <==> value@.0 >= 0,
        r matches Some(b) ==> b.wf() && b@ >= 0,
{
    if value.is_negative() {
        return None;
    }
    let negative = false;
    if value.is_zero() {
        return Some(compose_bits(sort, false, 0, &Integer::zero()));
    }
    proof {
        lemma_sort_bounds(sort);
    }
    let bias = sort.exponent_bias();
    let fb = sort.fraction_bits() as i64;
    let min_normal_exp: i64 = 1 - bias;
    let max_normal_exp: i64 = sort.exponent_max() as i64 - 1 - bias;
    let mut exponent = half_floor(floor_log2_rational(value));
    if exponent > max_normal_exp {
        return Some(overflow_bits(sort, false, mode));
    }
    if exponent < min_normal_exp {
        let shift = 2 * (fb - min_normal_exp);
        let scaled = scale_up(value, shift);
        let significand = match round_sqrt_integer(&scaled, negative, mode) {
            Some(s) => s,
            None => {
                return Some(Integer::zero());
            },
        };
        if significand.is_zero() {
            return Some(compose_bits(sort, false, 0, &Integer::zero()));
        }
        let normal_threshold = pow2_int(fb as u64);
        if !significand.lt(&normal_threshold) {
            return Some(compose_bits(sort, false, 1, &Integer::zero()));
        }
        return Some(compose_bits(sort, false, 0, &significand));
    }
    let shift = 2 * (fb - exponent);
    let scaled = scale_up(value, shift);
    let mut significand = match round_sqrt_integer(&scaled, negative, mode) {
        Some(s) => s,
        None => {
            return Some(Integer::zero());
        },
    };
    let limit = pow2_int(sort.significand_bits as u64);
    if !significand.lt(&limit) {
        significand = shr(&significand, 1);
        exponent += 1;
        if exponent > max_normal_exp {
            return Some(overflow_bits(sort, false, mode));
        }
    }
    let hidden = pow2_int(fb as u64);
    let diff = significand.sub(&hidden);
    let fraction = if diff.is_negative() { Integer::zero() } else { diff };
    Some(compose_bits(sort, false, (exponent + bias) as u64, &fraction))
}

/// Whether `name` names a floating-point operator: `fp` or `fp.` followed by anything.
pub open spec fn fp_name(n: Seq<char>) -> bool {
    n =~= seq!['f', 'p'] || (n.len() >= 3 && n[0] == 'f' && n[1] == 'p' && n[2] == '.')
}

/// Whether a floating-point operator occurs in a position that `contains_fp` searches.
pub open spec fn spec_contains_fp(e: SExpr) -> bool
    decreases e,
{
    match e {
        SExpr::App(name, args) => fp_name(name) || seq_contains_fp(args),
        SExpr::And(args) | SExpr::Or(args) | SExpr::Add(args) | SExpr::Sub(args) | SExpr::Mul(args) =>
            seq_contains_fp(args),
        SExpr::Not(a) | SExpr::BvNot(a) | SExpr::StrLen(a) => spec_contains_fp(*a),
        SExpr::Implies(a, b) | SExpr::Eq(a, b) | SExpr::Lt(a, b) | SExpr::Le(a, b) | SExpr::Gt(a, b)
        | SExpr::Ge(a, b) | SExpr::Div(a, b) | SExpr::BvAdd(a, b) | SExpr::BvSub(a, b)
        | SExpr::BvMul(a, b) | SExpr::BvAnd(a, b) | SExpr::BvOr(a, b) | SExpr::BvXor(a, b)
        | SExpr::BvShl(a, b) | SExpr::BvLshr(a, b) | SExpr::BvAshr(a, b) | SExpr::BvUle(a, b)
        | SExpr::BvUlt(a, b) | SExpr::BvSle(a, b) | SExpr::BvSlt(a, b) | SExpr::BvConcat(a, b)
        | SExpr::Select(a, b) | SExpr::StrContains(a, b) => spec_contains_fp(*a) || spec_contains_fp(*b),
        SExpr::Ite(c, t, f) | SExpr::Store(c, t, f) =>
            spec_contains_fp(*c) || spec_contains_fp(*t) || spec_contains_fp(*f),
        _ => false,
    }
}

/// Whether some term of `s` contains a floating-point operator.
pub open spec fn seq_contains_fp(s: Seq<SExpr>) -> bool
    decreases s,
{
    if s.len() == 0 {
        false
    } else {
        seq_contains_fp(s.drop_last()) || spec_contains_fp(s.last())
    }
}

proof fn lemma_seq_contains_fp(s: Seq<SExpr>)
    ensures
        seq_contains_fp(s) <==> exists|i: int| 0 <= i < s.len() && #[trigger] spec_contains_fp(s[i]),
    decreases s.len(),
{
    if s.len() > 0 {
        let t = s.drop_last();
        lemma_seq_contains_fp(t);
        assert forall|i: int| 0 <= i < t.len() implies #[trigger] t[i] == s[i] by {}
        if seq_contains_fp(s) {
            if seq_contains_fp(t) {
                let i = choose|i: int| 0 <= i < t.len() && #[trigger] spec_contains_fp(t[i]);
                assert(spec_contains_fp(s[i]));
            } else {
                assert(spec_contains_fp(s[s.len() - 1]));
            }
        }
        if exists|i: int| 0 <= i < s.len() && #[trigger] spec_contains_fp(s[i]) {
            let i = choose|i: int| 0 <= i < s.len() && #[trigger] spec_contains_fp(s[i]);
            if i < s.len() - 1 {
                assert(spec_contains_fp(t[i]));
            }
        }
    }
}

fn is_fp_name(name: &String) -> (r: bool)
    ensures
        r == fp_name(name@),
{
    let s = name.as_str();
    let n = s.unicode_len();
    if n == 2 {
        let r = s.get_char(0) == 'f' && s.get_char(1) == 'p';
        proof {
            if r {
                assert(name@ =~= seq!['f', 'p']);
            }
        }
        r
    } else if n >= 3 {
        s.get_char(0) == 'f' && s.get_char(1) == 'p' && s.get_char(2) == '.'
    } else {
        false
    }
}

/// Whether a floating-point operator occurs in `expr`.
pub fn contains_fp(expr: &Expr) -> (r: bool)
    ensures
        r == spec_contains_fp(expr@),
    decreases expr,
{
    match expr {
        Expr::App(name, args) => is_fp_name(name) || exprs_contain_fp(args),
        Expr::And(args) | Expr::Or(args) | Expr::Add(args) | Expr::Sub(args) | Expr::Mul(args) =>
            exprs_contain_fp(args),
        Expr::Not(a) | Expr::BvNot(a) | Expr::StrLen(a) => contains_fp(a),
        Expr::Implies(a, b) | Expr::Eq(a, b) | Expr::Lt(a, b) | Expr::Le(a, b) | Expr::Gt(a, b)
        | Expr::Ge(a, b) | Expr::Div(a, b) | Expr::BvAdd(a, b) | Expr::BvSub(a, b)
        | Expr::BvMul(a, b) | Expr::BvAnd(a, b) | Expr::BvOr(a, b) | Expr::BvXor(a, b)
        | Expr::BvShl(a, b) | Expr::BvLshr(a, b) | Expr::BvAshr(a, b) | Expr::BvUle(a, b)
        | Expr::BvUlt(a, b) | Expr::BvSle(a, b) | Expr::BvSlt(a, b) | Expr::BvConcat(a, b)
        | Expr::Select(a, b) | Expr::StrContains(a, b) => contains_fp(a) || contains_fp(b),
        Expr::Ite(c, t, f) | Expr::Store(c, t, f) => contains_fp(c) || contains_fp(t) || contains_fp(f),
        _ => false,
    }
}

fn exprs_contain_fp(args: &Vec<Expr>) -> (r: bool)
    ensures
        r == seq_contains_fp(exprs_view(args@)),
    decreases args,
{
    proof {
        lemma_exprs_view(args@);
        lemma_seq_contains_fp(exprs_view(args@));
    }
    let mut i: usize = 0;
    while i < args.len()
        invariant
            i <= args@.len(),
            exprs_view(args@).len() == args@.len(),
            forall|j: int| 0 <= j < args@.len() ==> #[trigger] exprs_view(args@)[j] == args@[j]@,
            forall|j: int| 0 <= j < i ==> !spec_contains_fp(#[trigger] exprs_view(args@)[j]),
        decreases args@.len() - i,
    {
        proof {
            assert(decreases_to!(*args => args@[i as int]));
        }
        if contains_fp(&args[i]) {
            proof {
                lemma_seq_contains_fp(exprs_view(args@));
            }
            assert(spec_contains_fp(exprs_view(args@)[i as int]));
            return true;
        }
        i += 1;
    }
    false
}

/// The rounding mode that a symbol names (`RNE`, `RTZ`, `RTP`, `RTN` or the long names).
pub open spec fn mode_of_name(n: Seq<char>) -> Option<RoundingMode> {
    if n == "RNE"@ || n == "roundNearestTiesToEven"@ {
        Some(RoundingMode::NearestTiesToEven)
    } else if n == "RTZ"@ || n == "roundTowardZero"@ {
        Some(RoundingMode::TowardZero)
    } else if n == "RTP"@ || n == "roundTowardPositive"@ {
        Some(RoundingMode::TowardPositive)
    } else if n == "RTN"@ || n == "roundTowardNegative"@ {
        Some(RoundingMode::TowardNegative)
    } else {
        None
    }
}

/// IEEE equality: NaN equals nothing, the two zeros are equal, otherwise the same class and
/// value in the same format.
pub open spec fn spec_fp_eq(a: FloatValue, b: FloatValue) -> bool {
    a.sort == b.sort && match (a.class, b.class) {
        (FloatClass::QuietNaN { .. }, _) => false,
        (_, FloatClass::QuietNaN { .. }) => false,
        (FloatClass::PositiveZero, FloatClass::PositiveZero) => true,
        (FloatClass::PositiveZero, FloatClass::NegativeZero) => true,
        (FloatClass::NegativeZero, FloatClass::PositiveZero) => true,
        (FloatClass::NegativeZero, FloatClass::NegativeZero) => true,
        (FloatClass::PositiveInfinity, FloatClass::PositiveInfinity) => true,
        (FloatClass::NegativeInfinity, FloatClass::NegativeInfinity) => true,
        (FloatClass::Finite { negative: an, value: av }, FloatClass::Finite { negative: bn, value: bv }) =>
            an == bn && q_eq(av@, bv@),
        _ => false,
    }
}

fn named(name: &String, lit: &str) -> (r: bool)
    ensures
        r == (name@ == lit@),
{
    *name == lit.to_owned()
}

/// The floating-point solver: it evaluates ground floating-point assertions.
pub struct FpSolver {
    pub assertions: Vec<Expr>,
    /// The assertion found false by the last check.
    pub conflict: Vec<Expr>,
}

impl FpSolver {
    pub fn new() -> (r: FpSolver)
        ensures
            r.assertions@.len() == 0,
            r.conflict@.len() == 0,
    {
        FpSolver { assertions: Vec::new(), conflict: Vec::new() }
    }

    pub fn reset(&mut self)
        ensures
            final(self).assertions@.len() == 0,
            final(self).conflict@.len() == 0,
    {
        self.assertions.clear();
        self.conflict.clear();
    }

    /// The truth value of a ground Boolean term over floating-point values, where every
    /// part of it evaluates.
    #[verifier::loop_isolation(false)]
    fn eval_bool(&self, expr: &Expr) -> (r: Option<bool>)
        ensures
            expr@ matches SExpr::Bool(b) ==> r == Some(b),
        decreases expr,
    {
        match expr {
            Expr::Bool(b) => Some(*b),
            Expr::Not(inner) => match self.eval_bool(inner) {
                Some(b) => Some(!b),
                None => None,
            },
            Expr::And(args) => {
                let mut out = true;
                let mut i: usize = 0;
                while i < args.len()
                    decreases args@.len() - i,
                {
                    proof {
                        assert(decreases_to!(*expr => args@[i as int]));
                    }
                    match self.eval_bool(&args[i]) {
                        Some(b) => {
                            out = out && b;
                        },
                        None => {
                            return None;
                        },
                    }
                    i += 1;
                }
                Some(out)
            },
            Expr::Or(args) => {
                let mut out = false;
                let mut i: usize = 0;
                while i < args.len()
                    decreases args@.len() - i,
                {
                    proof {
                        assert(decreases_to!(*expr => args@[i as int]));
                    }
                    match self.eval_bool(&args[i]) {
                        Some(b) => {
                            out = out || b;
                        },
                        None => {
                            return None;
                        },
                    }
                    i += 1;
                }
                Some(out)
            },
            Expr::Implies(a, b) => match (self.eval_bool(a), self.eval_bool(b)) {
                (Some(x), Some(y)) => Some(!x || y),
                _ => None,
            },
            Expr::Eq(a, b) => match (self.eval_fp(a), self.eval_fp(b)) {
                (Some(x), Some(y)) => Some(self.fp_eq(&x, &y)),
                _ => None,
            },
            Expr::App(name, args) => {
                if args.len() == 0 {
                    return None;
                }
                proof {
                    assert(decreases_to!(*expr => args@[0]));
                }
                if named(name, "fp.isNaN") {
                    match self.eval_fp(&args[0]) {
                        Some(v) => Some(match &v.class { FloatClass::QuietNaN { .. } => true, _ => false }),
                        None => None,
                    }
                } else if named(name, "fp.isInfinite") {
                    match self.eval_fp(&args[0]) {
                        Some(v) => Some(is_infinite(&v.class)),
                        None => None,
                    }
                } else if named(name, "fp.isZero") {
                    match self.eval_fp(&args[0]) {
                        Some(v) => match &v.class {
                            FloatClass::PositiveZero | FloatClass::NegativeZero => Some(true),
                            FloatClass::Finite { value, .. } => Some(value.is_zero()),
                            _ => Some(false),
                        },
                        None => None,
                    }
                } else if named(name, "fp.isPositive") {
                    match self.eval_fp(&args[0]) {
                        Some(v) => match &v.class {
                            FloatClass::PositiveInfinity | FloatClass::PositiveZero => Some(true),
                            FloatClass::Finite { negative, .. } => Some(!*negative),
                            _ => Some(false),
                        },
                        None => None,
                    }
                } else if named(name, "fp.isNegative") {
                    match self.eval_fp(&args[0]) {
                        Some(v) => match &v.class {
                            FloatClass::NegativeInfinity | FloatClass::NegativeZero => Some(true),
                            FloatClass::Finite { negative, .. } => Some(*negative),
                            _ => Some(false),
                        },
                        None => None,
                    }
                } else {
                    None
                }
            },
            _ => None,
        }
    }

    /// The value of a ground floating-point term: an `fp` literal, or `fp.add`, `fp.sub`,
    /// `fp.mul`, `fp.div`, `fp.sqrt` (rounded with the mode that the first argument names,
    /// nearest-even by default), `fp.neg` or `fp.abs` of such terms.
    #[verifier::loop_isolation(false)]
    fn eval_fp(&self, expr: &Expr) -> (r: Option<FloatValue>)
        ensures
            r matches Some(v) ==> value_ok(v),
        decreases expr, 1nat,
    {
        match expr {
            Expr::App(name, args) => {
                proof {
                    assert(decreases_to!(*expr => *args));
                }
                let mode = match self.rounding_mode(args) {
                    Some(m) => m,
                    None => RoundingMode::NearestTiesToEven,
                };
                if named(name, "fp") {
                    self.eval_fp_constructor(args)
                } else if named(name, "fp.add") || named(name, "fp.sub") || named(name, "fp.mul") || named(name, "fp.div") {
                    let (a, b) = match self.last_two_fp(args) {
                        Some(p) => p,
                        None => {
                            return None;
                        },
                    };
                    if named(name, "fp.add") {
                        a.add(&b, mode)
                    } else if named(name, "fp.sub") {
                        a.sub(&b, mode)
                    } else if named(name, "fp.mul") {
                        a.mul(&b, mode)
                    } else {
                        a.div(&b, mode)
                    }
                } else if named(name, "fp.sqrt") {
                    let mut i = args.len();
                    while i > 0
                        invariant
                            i <= args@.len(),
                        decreases i,
                    {
                        i -= 1;
                        proof {
                            assert(decreases_to!(*expr => args@[i as int]));
                        }
                        match self.eval_fp(&args[i]) {
                            Some(v) => {
                                return v.sqrt(mode);
                            },
                            None => {},
                        }
                    }
                    None
                } else if named(name, "fp.neg") || named(name, "fp.abs") {
                    if args.len() == 0 {
                        return None;
                    }
                    proof {
                        assert(decreases_to!(*expr => args@[0]));
                    }
                    match self.eval_fp(&args[0]) {
                        Some(v) => if named(name, "fp.neg") { Some(v.neg()) } else { Some(v.abs()) },
                        None => None,
                    }
                } else {
                    None
                }
            },
            _ => None,
        }
    }

    /// The value of `(fp sign exponent significand)` from three bit-vector literals: the sign
    /// one bit wide, the format given by the widths of the other two.
    fn eval_fp_constructor(&self, args: &Vec<Expr>) -> (r: Option<FloatValue>)
        ensures
            r matches Some(v) ==> value_ok(v),
    {
        if args.len() != 3 {
            return None;
        }
        match (&args[0], &args[1], &args[2]) {
            (Expr::BvConst(sign, sw), Expr::BvConst(exp, ebits), Expr::BvConst(sig, sig_bits)) => {
                if *sw != 1 || *ebits > 65535 || *sig_bits >= 65535 {
                    return None;
                }
                let sort = match FloatSort::new(*ebits as u16, (*sig_bits + 1) as u16) {
                    Some(s) => s,
                    None => {
                        return None;
                    },
                };
                let s_part = Integer::from_u64(*sign).mul(&pow2_int((*ebits + *sig_bits) as u64));
                let e_part = Integer::from_u64(*exp).mul(&pow2_int(*sig_bits as u64));
                proof {
                    let p = pow2_int_view((*ebits + *sig_bits) as u64);
                    assert(s_part@ >= 0) by (nonlinear_arith)
                        requires s_part@ == (*sign as int) * p, p > 0;
                    let q = pow2_int_view(*sig_bits as u64);
                    assert(e_part@ >= 0) by (nonlinear_arith)
                        requires e_part@ == (*exp as int) * q, q > 0;
                }
                let bits = s_part.bitor(&e_part).bitor(&Integer::from_u64(*sig));
                FloatValue::from_bits(sort, &bits)
            },
            _ => None,
        }
    }

    /// The values of the last two arguments that evaluate, in order.
    fn last_two_fp(&self, args: &Vec<Expr>) -> (r: Option<(FloatValue, FloatValue)>)
        ensures
            r matches Some(p) ==> value_ok(p.0) && value_ok(p.1),
        decreases args, 0nat,
    {
        let mut second: Option<FloatValue> = None;
        let mut i = args.len();
        while i > 0
            invariant
                i <= args@.len(),
                second matches Some(v) ==> value_ok(v),
            decreases i,
        {
            i -= 1;
            proof {
                assert(decreases_to!(*args => args@[i as int]));
            }
            match self.eval_fp(&args[i]) {
                Some(v) => match second {
                    Some(b) => {
                        return Some((v, b));
                    },
                    None => {
                        second = Some(v);
                    },
                },
                None => {},
            }
        }
        None
    }

    /// The rounding mode that the first argument names, if it is a symbol or an
    /// application naming one.
    fn rounding_mode(&self, args: &Vec<Expr>) -> (r: Option<RoundingMode>)
        ensures
            args@.len() > 0 && (args@[0] matches Expr::Var(n, _)) ==> r == mode_of_name(args@[0]->Var_0@),
            args@.len() > 0 && (args@[0] matches Expr::App(n, _)) ==> r == mode_of_name(args@[0]->App_0@),
            args@.len() == 0 ==> r is None,
    {
        if args.len() == 0 {
            return None;
        }
        match &args[0] {
            Expr::Var(name, _) | Expr::App(name, _) => {
                if named(name, "RNE") || named(name, "roundNearestTiesToEven") {
                    Some(RoundingMode::NearestTiesToEven)
                } else if named(name, "RTZ") || named(name, "roundTowardZero") {
                    Some(RoundingMode::TowardZero)
                } else if named(name, "RTP") || named(name, "roundTowardPositive") {
                    Some(RoundingMode::TowardPositive)
                } else if named(name, "RTN") || named(name, "roundTowardNegative") {
                    Some(RoundingMode::TowardNegative)
                } else {
                    None
                }
            },
            _ => None,
        }
    }

    /// IEEE equality of two values.
    fn fp_eq(&self, a: &FloatValue, b: &FloatValue) -> (r: bool)
        requires
            value_ok(*a),
            value_ok(*b),
        ensures
            r == spec_fp_eq(*a, *b),
    {
        if a.sort != b.sort {
            return false;
        }
        match (&a.class, &b.class) {
            (FloatClass::QuietNaN { .. }, _) => false,
            (_, FloatClass::QuietNaN { .. }) => false,
            (FloatClass::PositiveZero, FloatClass::PositiveZero) => true,
            (FloatClass::PositiveZero, FloatClass::NegativeZero) => true,
            (FloatClass::NegativeZero, FloatClass::PositiveZero) => true,
            (FloatClass::NegativeZero, FloatClass::NegativeZero) => true,
            (FloatClass::PositiveInfinity, FloatClass::PositiveInfinity) => true,
            (FloatClass::NegativeInfinity, FloatClass::NegativeInfinity) => true,
            (FloatClass::Finite { negative: an, value: av }, FloatClass::Finite { negative: bn, value: bv }) =>
                *an == *bn && av.eq_value(bv),
            _ => false,
        }
    }

    /// Keeps `expr` if a floating-point operator occurs in it.
    pub fn assert_expr(&mut self, expr: &Expr)
        ensures
            final(self).conflict@ == old(self).conflict@,
            spec_contains_fp(expr@) ==> final(self).assertions@.len() == old(self).assertions@.len() + 1
                && final(self).assertions@.subrange(0, old(self).assertions@.len() as int) == old(self).assertions@
                && final(self).assertions@.last()@ == expr@,
            !spec_contains_fp(expr@) ==> final(self).assertions@ == old(self).assertions@,
    {
        if contains_fp(expr) {
            self.assertions.push(expr.clone());
            assert(self.assertions@.subrange(0, old(self).assertions@.len() as int) =~= old(self).assertions@);
        }
    }

    /// False when some kept assertion evaluates to false; that assertion is then the
    /// conflict.
    pub fn check(&mut self) -> (r: bool)
        ensures
            final(self).assertions@ == old(self).assertions@,
            r ==> final(self).conflict@.len() == 0,
            !r ==> final(self).conflict@.len() == 1 && exists|i: int| 0 <= i < old(self).assertions@.len()
                && #[trigger] old(self).assertions@[i]@ == final(self).conflict@[0]@,
            old(self).assertions@.len() == 0 ==> r,
    {
        self.conflict.clear();
        let mut i: usize = 0;
        while i < self.assertions.len()
            invariant
                self.assertions@ == old(self).assertions@,
                self.conflict@.len() == 0,
            decreases self.assertions@.len() - i,
        {
            match self.eval_bool(&self.assertions[i]) {
                Some(false) => {
                    let c = self.assertions[i].clone();
                    self.conflict.push(c);
                    assert(old(self).assertions@[i as int]@ == self.conflict@[0]@);
                    return false;
                },
                _ => {},
            }
            i += 1;
        }
        true
    }

    /// The assertion found false by the last check.
    pub fn explain(&self) -> (r: Vec<Expr>)
        ensures
            exprs_view(r@) == exprs_view(self.conflict@),
    {
        clone_exprs(&self.conflict)
    }

    /// The floating-point value of a ground term, where it evaluates.
    pub fn get_model_value(&self, expr: &Expr) -> (r: Option<ModelValue>)
        ensures
            r matches Some(m) ==> m is Float,
    {
        match self.eval_fp(expr) {
            Some(v) => Some(ModelValue::Float(v)),
            None => None,
        }
    }
}

} // verus!
