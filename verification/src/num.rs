//! Exact arbitrary-precision integers and rationals.
//!
//! A value is held as a sign and base-2^32 digits (least significant first); the
//! arithmetic on it is carried out by `num-bigint` and `num-rational`.
use vstd::prelude::*;
use vstd::arithmetic::power::pow;
use num_bigint::{BigInt, Sign};

verus! {

/// The natural number denoted by base-2^32 digits, least significant first.
pub open spec fn digits_value(d: Seq<u32>) -> nat
    decreases d.len(),
{
    if d.len() == 0 {
        0
    } else {
        d[0] as nat + 0x1_0000_0000nat * digits_value(d.drop_first())
    }
}

/// An arbitrary-precision signed integer: sign and magnitude digits.
#[derive(Debug, PartialEq, Eq, PartialOrd, Ord, Hash)]
pub struct Integer {
    pub negative: bool,
    pub digits: Vec<u32>,
}

impl View for Integer {
    type V = int;

    open spec fn view(&self) -> int {
        if self.negative {
            -(digits_value(self.digits@) as int)
        } else {
            digits_value(self.digits@) as int
        }
    }
}

impl Integer {
    /// Canonical form: no most-significant zero digit, and zero is not negative.
    pub open spec fn wf(&self) -> bool {
        &&& self.digits@.len() > 0 ==> self.digits@.last() != 0
        &&& self.digits@.len() == 0 ==> !self.negative
    }

    pub fn zero() -> (r: Integer)
        ensures
            r.wf(),
            r@ == 0,
    {
        Integer { negative: false, digits: Vec::new() }
    }

    pub fn from_u32(x: u32) -> (r: Integer)
        ensures
            r.wf(),
            r@ == x,
    {
        if x == 0 {
            Integer::zero()
        } else {
            let d = vec![x];
            proof { lemma_digits_value_small(d@); }
            Integer { negative: false, digits: d }
        }
    }

    pub fn from_u64(x: u64) -> (r: Integer)
        ensures
            r.wf(),
            r@ == x,
    {
        let lo: u32 = (x % 0x1_0000_0000) as u32;
        let hi: u32 = (x / 0x1_0000_0000) as u32;
        if hi == 0 {
            Integer::from_u32(lo)
        } else {
            let d = vec![lo, hi];
            proof { lemma_digits_value_small(d@); }
            Integer { negative: false, digits: d }
        }
    }

    pub fn from_i64(x: i64) -> (r: Integer)
        ensures
            r.wf(),
            r@ == x,
    {
        if x >= 0 {
            Integer::from_u64(x as u64)
        } else {
            let m: u64 = if x == i64::MIN { 0x8000_0000_0000_0000u64 } else { (-x) as u64 };
            let mut r = Integer::from_u64(m);
            r.negative = true;
            r
        }
    }

    /// A copy with the same sign and digits.
    pub fn duplicate(&self) -> (r: Integer)
        ensures
            r.negative == self.negative,
            r.digits@ == self.digits@,
            r@ == self@,
    {
        let d = self.digits.clone();
        assert(d@ =~= self.digits@);
        Integer { negative: self.negative, digits: d }
    }

    pub fn is_zero(&self) -> (r: bool)
        requires
            self.wf(),
        ensures
            r == (self@ == 0),
    {
        proof {
            lemma_digits_value_pos(self.digits@);
        }
        self.digits.len() == 0
    }

    pub fn is_negative(&self) -> (r: bool)
        requires
            self.wf(),
        ensures
            r == (self@ < 0),
    {
        proof {
            lemma_digits_value_pos(self.digits@);
        }
        self.negative
    }

    pub fn is_positive(&self) -> (r: bool)
        requires
            self.wf(),
        ensures
            r == (self@ > 0),
    {
        proof {
            lemma_digits_value_pos(self.digits@);
        }
        !self.negative && self.digits.len() > 0
    }

    /// The negation.
    pub fn neg(&self) -> (r: Integer)
        requires
            self.wf(),
        ensures
            r.wf(),
            r@ == -self@,
    {
        let mut r = self.duplicate();
        if r.digits.len() > 0 {
            r.negative = !self.negative;
        }
        r
    }

    /// The value as an `i64`, where it fits.
    pub fn to_i64(&self) -> (r: Option<i64>)
        requires
            self.wf(),
        ensures
            r matches Some(v) ==> v == self@,
            r is None ==> !(i64::MIN <= self@ <= i64::MAX),
    {
        proof {
            lemma_digits_value_pos(self.digits@);
        }
        if self.digits.len() == 0 {
            return Some(0);
        }
        if self.digits.len() > 2 {
            proof {
                lemma_digits_value_lower(self.digits@);
            }
            return None;
        }
        let lo = self.digits[0] as u64;
        let hi: u64 = if self.digits.len() == 2 { self.digits[1] as u64 } else { 0 };
        proof {
            let d = self.digits@;
            lemma_digits_value_small(d);
            assert(digits_value(d) == lo + 0x1_0000_0000 * hi);
        }
        if hi >= 0x8000_0000 {
            if self.negative && hi == 0x8000_0000 && lo == 0 {
                return Some(i64::MIN);
            }
            return None;
        }
        let m: i64 = (hi * 0x1_0000_0000 + lo) as i64;
        if self.negative { Some(-m) } else { Some(m) }
    }
}

pub proof fn lemma_digits_value_small(d: Seq<u32>)
    ensures
        d.len() == 0 ==> digits_value(d) == 0,
        d.len() == 1 ==> digits_value(d) == d[0] as nat,
        d.len() == 2 ==> digits_value(d) == d[0] as nat + 0x1_0000_0000nat * d[1] as nat,
{
    if d.len() == 1 {
        assert(d.drop_first() =~= Seq::<u32>::empty());
        assert(digits_value(Seq::<u32>::empty()) == 0);
    } else if d.len() == 2 {
        let t = d.drop_first();
        assert(t.drop_first() =~= Seq::<u32>::empty());
        assert(digits_value(Seq::<u32>::empty()) == 0);
        assert(digits_value(t) == t[0] as nat);
    }
}

pub proof fn lemma_digits_value_pos(d: Seq<u32>)
    requires
        d.len() > 0 ==> d.last() != 0,
    ensures
        (digits_value(d) == 0) == (d.len() == 0),
    decreases d.len(),
{
    if d.len() > 1 {
        assert(d.drop_first().last() == d.last());
        lemma_digits_value_pos(d.drop_first());
    } else if d.len() == 1 {
        assert(d.drop_first() =~= Seq::<u32>::empty());
    }
}

proof fn lemma_digits_value_lower(d: Seq<u32>)
    requires
        d.len() > 2,
        d.last() != 0,
    ensures
        digits_value(d) >= 0x1_0000_0000_0000_0000nat,
{
    let t = d.drop_first();
    let u = t.drop_first();
    assert(u.last() == d.last());
    lemma_digits_value_pos(u);
    assert(digits_value(u) >= 1);
    assert(digits_value(t) >= 0x1_0000_0000nat * digits_value(u));
    assert(digits_value(d) >= 0x1_0000_0000nat * digits_value(t));
    assert(digits_value(t) >= 0x1_0000_0000nat) by (nonlinear_arith)
        requires digits_value(t) >= 0x1_0000_0000nat * digits_value(u), digits_value(u) >= 1;
    assert(digits_value(d) >= 0x1_0000_0000_0000_0000nat) by (nonlinear_arith)
        requires digits_value(d) >= 0x1_0000_0000nat * digits_value(t), digits_value(t) >= 0x1_0000_0000nat;
}

/// `num_bigint::BigInt` addition.
#[verifier::external_body]
fn int_add(a: &Integer, b: &Integer) -> (r: Integer)
    ensures
        r.wf(),
        r@ == a@ + b@,
{
    let x = BigInt::from_slice(if a.negative { Sign::Minus } else { Sign::Plus }, &a.digits);
    let y = BigInt::from_slice(if b.negative { Sign::Minus } else { Sign::Plus }, &b.digits);
    let (s, digits) = (x + y).to_u32_digits();
    Integer { negative: s == Sign::Minus, digits }
}

/// `num_bigint::BigInt` subtraction.
#[verifier::external_body]
fn int_sub(a: &Integer, b: &Integer) -> (r: Integer)
    ensures
        r.wf(),
        r@ == a@ - b@,
{
    let x = BigInt::from_slice(if a.negative { Sign::Minus } else { Sign::Plus }, &a.digits);
    let y = BigInt::from_slice(if b.negative { Sign::Minus } else { Sign::Plus }, &b.digits);
    let (s, digits) = (x - y).to_u32_digits();
    Integer { negative: s == Sign::Minus, digits }
}

/// `num_bigint::BigInt` multiplication.
#[verifier::external_body]
fn int_mul(a: &Integer, b: &Integer) -> (r: Integer)
    ensures
        r.wf(),
        r@ == a@ * b@,
{
    let x = BigInt::from_slice(if a.negative { Sign::Minus } else { Sign::Plus }, &a.digits);
    let y = BigInt::from_slice(if b.negative { Sign::Minus } else { Sign::Plus }, &b.digits);
    let (s, digits) = (x * y).to_u32_digits();
    Integer { negative: s == Sign::Minus, digits }
}

/// `Ord::cmp` on `num_bigint::BigInt`: -1, 0 or 1 as `a` is below, equal to or above `b`.
#[verifier::external_body]
fn int_compare(a: &Integer, b: &Integer) -> (r: i8)
    ensures
        r == -1 <==> a@ < b@,
        r == 0 <==> a@ == b@,
        r == 1 <==> a@ > b@,
{
    let x = BigInt::from_slice(if a.negative { Sign::Minus } else { Sign::Plus }, &a.digits);
    let y = BigInt::from_slice(if b.negative { Sign::Minus } else { Sign::Plus }, &b.digits);
    match x.cmp(&y) {
        std::cmp::Ordering::Less => -1,
        std::cmp::Ordering::Equal => 0,
        std::cmp::Ordering::Greater => 1,
    }
}

/// `num_bigint::BigInt::pow`: `base` raised to `exp`.
#[verifier::external_body]
fn int_pow(base: u32, exp: u32) -> (r: Integer)
    ensures
        r.wf(),
        r@ == pow(base as int, exp as nat),
{
    let (s, digits) = num_bigint::BigInt::from(base).pow(exp).to_u32_digits();
    Integer { negative: s == num_bigint::Sign::Minus, digits }
}

/// `Div` on `num_bigint::BigInt`: the quotient, truncated toward zero.
#[verifier::external_body]
fn int_quot(a: &Integer, b: &Integer) -> (r: Integer)
    requires
        b@ != 0,
    ensures
        r.wf(),
        r@ == trunc_div(a@, b@),
{
    let x = BigInt::from_slice(if a.negative { Sign::Minus } else { Sign::Plus }, &a.digits);
    let y = BigInt::from_slice(if b.negative { Sign::Minus } else { Sign::Plus }, &b.digits);
    let (s, digits) = (&x / &y).to_u32_digits();
    Integer { negative: s == Sign::Minus, digits }
}

/// `Rem` on `num_bigint::BigInt`: the remainder of the truncated division, which has the
/// sign of the dividend.
#[verifier::external_body]
fn int_rem(a: &Integer, b: &Integer) -> (r: Integer)
    requires
        b@ != 0,
    ensures
        r.wf(),
        r@ == a@ - b@ * trunc_div(a@, b@),
{
    let x = BigInt::from_slice(if a.negative { Sign::Minus } else { Sign::Plus }, &a.digits);
    let y = BigInt::from_slice(if b.negative { Sign::Minus } else { Sign::Plus }, &b.digits);
    let (s, digits) = (&x % &y).to_u32_digits();
    Integer { negative: s == Sign::Minus, digits }
}

/// `num_bigint::BigInt::bits`: the number of bits of the magnitude.
#[verifier::external_body]
fn int_bits(a: &Integer) -> (r: u64)
    ensures
        a@ == 0 ==> r == 0,
        a@ != 0 ==> r >= 1 && pow(2, (r - 1) as nat) <= abs(a@) < pow(2, r as nat),
{
    BigInt::from_slice(if a.negative { Sign::Minus } else { Sign::Plus }, &a.digits).bits()
}

/// The bitwise or of two naturals: bit by bit from the lowest, a bit is set where it is set
/// in either.
pub open spec fn bit_or(a: int, b: int) -> int
    decreases a + b,
{
    if a <= 0 && b <= 0 {
        0
    } else if a < 0 || b < 0 {
        0
    } else {
        (if a % 2 == 1 || b % 2 == 1 { 1int } else { 0int }) + 2 * bit_or(a / 2, b / 2)
    }
}

/// `BitOr` on `num_bigint::BigUint`: the bitwise or of two naturals.
#[verifier::external_body]
fn nat_bitor(a: &Integer, b: &Integer) -> (r: Integer)
    requires
        a@ >= 0,
        b@ >= 0,
    ensures
        r.wf(),
        r@ == bit_or(a@, b@),
        r@ >= 0,
{
    let x = num_bigint::BigUint::from_slice(&a.digits);
    let y = num_bigint::BigUint::from_slice(&b.digits);
    Integer { negative: false, digits: (x | y).to_u32_digits() }
}

/// The magnitude of `x`.
pub open spec fn abs(x: int) -> int {
    if x < 0 { -x } else { x }
}

/// The quotient of `a` by `b`, truncated toward zero.
pub open spec fn trunc_div(a: int, b: int) -> int {
    let q = abs(a) / abs(b);
    if (a < 0) != (b < 0) { -q } else { q }
}

impl Integer {
    pub fn add(&self, other: &Integer) -> (r: Integer)
        ensures
            r.wf(),
            r@ == self@ + other@,
    {
        int_add(self, other)
    }

    pub fn sub(&self, other: &Integer) -> (r: Integer)
        ensures
            r.wf(),
            r@ == self@ - other@,
    {
        int_sub(self, other)
    }

    pub fn mul(&self, other: &Integer) -> (r: Integer)
        ensures
            r.wf(),
            r@ == self@ * other@,
    {
        int_mul(self, other)
    }

    /// -1, 0 or 1 as `self` is below, equal to or above `other`.
    pub fn compare(&self, other: &Integer) -> (r: i8)
        ensures
            r == -1 <==> self@ < other@,
            r == 0 <==> self@ == other@,
            r == 1 <==> self@ > other@,
    {
        int_compare(self, other)
    }

    pub fn lt(&self, other: &Integer) -> (r: bool)
        ensures
            r == (self@ < other@),
    {
        int_compare(self, other) == -1
    }

    pub fn eq_value(&self, other: &Integer) -> (r: bool)
        ensures
            r == (self@ == other@),
    {
        int_compare(self, other) == 0
    }

    /// The quotient, truncated toward zero.
    pub fn quot(&self, other: &Integer) -> (r: Integer)
        requires
            other@ != 0,
        ensures
            r.wf(),
            r@ == trunc_div(self@, other@),
    {
        int_quot(self, other)
    }

    /// The remainder of the truncated division (with the sign of `self`).
    pub fn rem(&self, other: &Integer) -> (r: Integer)
        requires
            other@ != 0,
        ensures
            r.wf(),
            r@ == self@ - other@ * trunc_div(self@, other@),
    {
        int_rem(self, other)
    }

    /// The bitwise or of two naturals.
    pub fn bitor(&self, other: &Integer) -> (r: Integer)
        requires
            self@ >= 0,
            other@ >= 0,
        ensures
            r.wf(),
            r@ == bit_or(self@, other@),
            r@ >= 0,
    {
        nat_bitor(self, other)
    }

    /// The number of bits of the magnitude.
    pub fn bits(&self) -> (r: u64)
        ensures
            self@ == 0 ==> r == 0,
            self@ != 0 ==> r >= 1 && pow(2, (r - 1) as nat) <= abs(self@) < pow(2, r as nat),
    {
        int_bits(self)
    }

    /// The value as a `u64`, where it fits.
    pub fn to_u64(&self) -> (r: Option<u64>)
        requires
            self.wf(),
        ensures
            r matches Some(v) ==> v == self@,
            r is Some <==> 0 <= self@ <= u64::MAX,
    {
        proof {
            lemma_digits_value_pos(self.digits@);
        }
        if self.negative {
            return None;
        }
        if self.digits.len() == 0 {
            return Some(0);
        }
        if self.digits.len() > 2 {
            proof {
                lemma_digits_value_lower(self.digits@);
            }
            return None;
        }
        let lo = self.digits[0] as u64;
        let hi: u64 = if self.digits.len() == 2 { self.digits[1] as u64 } else { 0 };
        proof {
            lemma_digits_value_small(self.digits@);
        }
        Some(hi * 0x1_0000_0000 + lo)
    }

    /// `base` raised to `exp`.
    pub fn power(base: u32, exp: u32) -> (r: Integer)
        ensures
            r.wf(),
            r@ == pow(base as int, exp as nat),
    {
        int_pow(base, exp)
    }
}

/// An exact rational number `numer / denom`.
#[derive(Debug, PartialEq, Eq, Hash)]
pub struct Rational {
    pub numer: Integer,
    pub denom: Integer,
}

/// Whether the fractions `a` and `b` denote the same rational.
pub open spec fn q_eq(a: (int, int), b: (int, int)) -> bool {
    a.0 * b.1 == b.0 * a.1
}

/// Whether the fraction `a` is below `b` (denominators positive).
pub open spec fn q_lt(a: (int, int), b: (int, int)) -> bool {
    a.0 * b.1 < b.0 * a.1
}

/// The sum of two fractions.
pub open spec fn q_add(a: (int, int), b: (int, int)) -> (int, int) {
    (a.0 * b.1 + b.0 * a.1, a.1 * b.1)
}

/// The difference of two fractions.
pub open spec fn q_sub(a: (int, int), b: (int, int)) -> (int, int) {
    (a.0 * b.1 - b.0 * a.1, a.1 * b.1)
}

/// The product of two fractions.
pub open spec fn q_mul(a: (int, int), b: (int, int)) -> (int, int) {
    (a.0 * b.0, a.1 * b.1)
}

impl View for Rational {
    type V = (int, int);

    open spec fn view(&self) -> (int, int) {
        (self.numer@, self.denom@)
    }
}

/// `Ratio::new`: the rational `n / d`, reduced.
#[verifier::external_body]
fn rat_new(n: &Integer, d: &Integer) -> (r: Rational)
    requires
        d@ != 0,
    ensures
        r.wf(),
        q_eq(r@, (n@, d@)),
{
    let x = BigInt::from_slice(if n.negative { Sign::Minus } else { Sign::Plus }, &n.digits);
    let y = BigInt::from_slice(if d.negative { Sign::Minus } else { Sign::Plus }, &d.digits);
    let q = num_rational::BigRational::new(x, y);
    let (s1, d1) = q.numer().to_u32_digits();
    let (s2, d2) = q.denom().to_u32_digits();
    Rational { numer: Integer { negative: s1 == Sign::Minus, digits: d1 }, denom: Integer { negative: s2 == Sign::Minus, digits: d2 } }
}

/// `Ratio::to_integer`: the value rounded toward zero.
#[verifier::external_body]
fn rat_to_integer(a: &Rational) -> (r: Integer)
    requires
        a.wf(),
    ensures
        r.wf(),
        a.numer@ >= 0 ==> r@ == a.numer@ / a.denom@,
        a.numer@ < 0 ==> r@ == -((-a.numer@) / a.denom@),
{
    let x = BigInt::from_slice(if a.numer.negative { Sign::Minus } else { Sign::Plus }, &a.numer.digits);
    let y = BigInt::from_slice(if a.denom.negative { Sign::Minus } else { Sign::Plus }, &a.denom.digits);
    let (s, digits) = num_rational::BigRational::new_raw(x, y).to_integer().to_u32_digits();
    Integer { negative: s == Sign::Minus, digits }
}

impl Rational {
    /// Well formed: canonical parts and a positive denominator.
    pub open spec fn wf(&self) -> bool {
        &&& self.numer.wf()
        &&& self.denom.wf()
        &&& self.denom@ > 0
    }

    pub fn from_integer(n: Integer) -> (r: Rational)
        requires
            n.wf(),
        ensures
            r.wf(),
            r@ == (n@, 1int),
    {
        let one = Integer::from_u32(1);
        Rational { numer: n, denom: one }
    }

    pub fn from_i64(x: i64) -> (r: Rational)
        ensures
            r.wf(),
            r@ == (x as int, 1int),
    {
        Rational::from_integer(Integer::from_i64(x))
    }

    pub fn zero() -> (r: Rational)
        ensures
            r.wf(),
            r@ == (0int, 1int),
    {
        Rational::from_i64(0)
    }

    /// The reduced rational `n / d`.
    pub fn new(n: &Integer, d: &Integer) -> (r: Rational)
        requires
            d@ != 0,
        ensures
            r.wf(),
            q_eq(r@, (n@, d@)),
    {
        rat_new(n, d)
    }

    /// The rational `n / d` for machine integers, reduced.
    pub fn from_fraction(n: i64, d: i64) -> (r: Rational)
        requires
            d != 0,
        ensures
            r.wf(),
            q_eq(r@, (n as int, d as int)),
    {
        rat_new(&Integer::from_i64(n), &Integer::from_i64(d))
    }

    /// The decimal `mantissa / 10^scale`.
    pub fn decimal(mantissa: i64, scale: u32) -> (r: Rational)
        ensures
            r.wf(),
            q_eq(r@, (mantissa as int, pow(10, scale as nat))),
    {
        let d = Integer::power(10, scale);
        proof {
            vstd::arithmetic::power::lemma_pow_positive(10, scale as nat);
        }
        rat_new(&Integer::from_i64(mantissa), &d)
    }

    pub fn duplicate(&self) -> (r: Rational)
        ensures
            r@ == self@,
            r.numer.digits@ == self.numer.digits@,
            r.numer.negative == self.numer.negative,
            r.denom.digits@ == self.denom.digits@,
            r.denom.negative == self.denom.negative,
    {
        Rational { numer: self.numer.duplicate(), denom: self.denom.duplicate() }
    }

    pub fn add(&self, other: &Rational) -> (r: Rational)
        requires
            self.wf(),
            other.wf(),
        ensures
            r.wf(),
            q_eq(r@, q_add(self@, other@)),
    {
        let n = int_add(&int_mul(&self.numer, &other.denom), &int_mul(&other.numer, &self.denom));
        let d = int_mul(&self.denom, &other.denom);
        proof {
            vstd::arithmetic::mul::lemma_mul_strictly_positive(self.denom@, other.denom@);
        }
        rat_new(&n, &d)
    }

    pub fn sub(&self, other: &Rational) -> (r: Rational)
        requires
            self.wf(),
            other.wf(),
        ensures
            r.wf(),
            q_eq(r@, q_sub(self@, other@)),
    {
        let n = int_sub(&int_mul(&self.numer, &other.denom), &int_mul(&other.numer, &self.denom));
        let d = int_mul(&self.denom, &other.denom);
        proof {
            vstd::arithmetic::mul::lemma_mul_strictly_positive(self.denom@, other.denom@);
        }
        rat_new(&n, &d)
    }

    pub fn mul(&self, other: &Rational) -> (r: Rational)
        requires
            self.wf(),
            other.wf(),
        ensures
            r.wf(),
            q_eq(r@, q_mul(self@, other@)),
    {
        let n = int_mul(&self.numer, &other.numer);
        let d = int_mul(&self.denom, &other.denom);
        proof {
            vstd::arithmetic::mul::lemma_mul_strictly_positive(self.denom@, other.denom@);
        }
        rat_new(&n, &d)
    }

    pub fn div(&self, other: &Rational) -> (r: Rational)
        requires
            self.wf(),
            other.wf(),
            other.numer@ != 0,
        ensures
            r.wf(),
            q_eq(r@, (self.numer@ * other.denom@, self.denom@ * other.numer@)),
    {
        let n = int_mul(&self.numer, &other.denom);
        let d = int_mul(&self.denom, &other.numer);
        proof {
            assert(self.denom@ * other.numer@ != 0) by (nonlinear_arith)
                requires self.denom@ > 0, other.numer@ != 0;
        }
        rat_new(&n, &d)
    }

    pub fn neg(&self) -> (r: Rational)
        requires
            self.wf(),
        ensures
            r.wf(),
            r@ == (-self@.0, self@.1),
    {
        Rational { numer: self.numer.neg(), denom: self.denom.duplicate() }
    }

    /// -1, 0 or 1 as `self` is below, equal to or above `other`.
    pub fn compare(&self, other: &Rational) -> (r: i8)
        requires
            self.wf(),
            other.wf(),
        ensures
            r == -1 <==> q_lt(self@, other@),
            r == 0 <==> q_eq(self@, other@),
            r == 1 <==> q_lt(other@, self@),
    {
        int_compare(&int_mul(&self.numer, &other.denom), &int_mul(&other.numer, &self.denom))
    }

    pub fn lt(&self, other: &Rational) -> (r: bool)
        requires
            self.wf(),
            other.wf(),
        ensures
            r == q_lt(self@, other@),
    {
        self.compare(other) == -1
    }

    pub fn eq_value(&self, other: &Rational) -> (r: bool)
        requires
            self.wf(),
            other.wf(),
        ensures
            r == q_eq(self@, other@),
    {
        self.compare(other) == 0
    }

    pub fn is_zero(&self) -> (r: bool)
        requires
            self.wf(),
        ensures
            r == (self@.0 == 0),
    {
        self.numer.is_zero()
    }

    pub fn is_negative(&self) -> (r: bool)
        requires
            self.wf(),
        ensures
            r == (self@.0 < 0),
    {
        self.numer.is_negative()
    }

    pub fn is_positive(&self) -> (r: bool)
        requires
            self.wf(),
        ensures
            r == (self@.0 > 0),
    {
        self.numer.is_positive()
    }

    /// The value rounded toward zero.
    pub fn to_integer(&self) -> (r: Integer)
        requires
            self.wf(),
        ensures
            r.wf(),
            self@.0 >= 0 ==> r@ == self@.0 / self@.1,
            self@.0 < 0 ==> r@ == -((-self@.0) / self@.1),
    {
        rat_to_integer(self)
    }
}

} // verus!
