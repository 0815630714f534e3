//! IEEE-754 floating-point sorts and exact values.
use vstd::prelude::*;
use crate::num::{Integer, Rational};

verus! {

/// IEEE-754 rounding modes.
#[derive(Debug, Clone, Copy, PartialEq, Eq, PartialOrd, Ord, Hash, Structural)]
pub enum RoundingMode {
    NearestTiesToEven,
    TowardZero,
    TowardPositive,
    TowardNegative,
}

/// A floating-point format: exponent width and significand width (hidden bit included).
#[derive(Debug, Clone, Copy, PartialEq, Eq, PartialOrd, Ord, Hash, Structural)]
pub struct FloatSort {
    pub exponent_bits: u16,
    pub significand_bits: u16,
}

/// The class of an IEEE-754 value, with finite magnitudes held exactly.
#[derive(Debug, PartialEq, Eq)]
pub enum FloatClass {
    QuietNaN { payload: Integer },
    PositiveInfinity,
    NegativeInfinity,
    PositiveZero,
    NegativeZero,
    /// Sign and (nonnegative) magnitude.
    Finite { negative: bool, value: Rational },
}

/// A floating-point value: its format and its class.
#[derive(Debug, PartialEq, Eq)]
pub struct FloatValue {
    pub sort: FloatSort,
    pub class: FloatClass,
}

impl FloatClass {
    pub fn duplicate(&self) -> (r: FloatClass)
        ensures
            r.same(self),
    {
        match self {
            FloatClass::QuietNaN { payload } => FloatClass::QuietNaN { payload: payload.duplicate() },
            FloatClass::PositiveInfinity => FloatClass::PositiveInfinity,
            FloatClass::NegativeInfinity => FloatClass::NegativeInfinity,
            FloatClass::PositiveZero => FloatClass::PositiveZero,
            FloatClass::NegativeZero => FloatClass::NegativeZero,
            FloatClass::Finite { negative, value } => FloatClass::Finite { negative: *negative, value: value.duplicate() },
        }
    }

    /// The same class, with payloads and magnitudes of equal representation.
    pub open spec fn same(&self, other: &FloatClass) -> bool {
        match (self, other) {
            (FloatClass::QuietNaN { payload: a }, FloatClass::QuietNaN { payload: b }) =>
                a.negative == b.negative && a.digits@ == b.digits@,
            (FloatClass::PositiveInfinity, FloatClass::PositiveInfinity) => true,
            (FloatClass::NegativeInfinity, FloatClass::NegativeInfinity) => true,
            (FloatClass::PositiveZero, FloatClass::PositiveZero) => true,
            (FloatClass::NegativeZero, FloatClass::NegativeZero) => true,
            (FloatClass::Finite { negative: n1, value: v1 }, FloatClass::Finite { negative: n2, value: v2 }) =>
                n1 == n2 && v1.numer.negative == v2.numer.negative && v1.numer.digits@ == v2.numer.digits@
                    && v1.denom.negative == v2.denom.negative && v1.denom.digits@ == v2.denom.digits@,
            _ => false,
        }
    }
}

impl FloatValue {
    pub fn duplicate(&self) -> (r: FloatValue)
        ensures
            r.sort == self.sort,
            r.class.same(&self.class),
    {
        FloatValue { sort: self.sort, class: self.class.duplicate() }
    }
}

} // verus!
