use rz3::ast::fp::{FloatClass, FloatSort, FloatValue, RoundingMode};
use rz3::num::{Integer, Rational};

fn binary32() -> FloatSort {
    FloatSort::new(8, 24).unwrap()
}

fn bits32(hex: u32) -> Integer {
    Integer::from_u64(hex as u64)
}

fn pow2_inverse(k: u32) -> Rational {
    Rational::new(&Integer::from_u32(1), &Integer::power(2, k))
}

#[test]
fn decodes_binary32_one_and_subnormal_exactly() {
    let one = FloatValue::from_bits(binary32(), &bits32(0x3f80_0000)).unwrap();
    assert_eq!(
        one.class,
        FloatClass::Finite {
            negative: false,
            value: Rational::from_i64(1)
        }
    );

    let min_sub = FloatValue::from_bits(binary32(), &bits32(0x0000_0001)).unwrap();
    assert_eq!(
        min_sub.class,
        FloatClass::Finite {
            negative: false,
            value: pow2_inverse(149)
        }
    );
}

#[test]
fn encodes_nearest_even_halfway_cases_binary32() {
    let half_ulp = pow2_inverse(24);
    let tie = FloatValue {
        sort: binary32(),
        class: FloatClass::Finite {
            negative: false,
            value: Rational::from_i64(1).add(&half_ulp),
        },
    };
    assert_eq!(tie.to_bits(RoundingMode::NearestTiesToEven), bits32(0x3f80_0000));

    let above = FloatValue {
        sort: binary32(),
        class: FloatClass::Finite {
            negative: false,
            value: Rational::from_i64(1).add(&pow2_inverse(23)).add(&half_ulp),
        },
    };
    assert_eq!(above.to_bits(RoundingMode::NearestTiesToEven), bits32(0x3f80_0002));
}

#[test]
fn computes_ieee_edge_classes_for_core_ops() {
    let pos_inf = FloatValue::from_bits(binary32(), &bits32(0x7f80_0000)).unwrap();
    let neg_inf = FloatValue::from_bits(binary32(), &bits32(0xff80_0000)).unwrap();
    let nan = pos_inf.add(&neg_inf, RoundingMode::NearestTiesToEven).unwrap();
    assert!(matches!(nan.class, FloatClass::QuietNaN { .. }));

    let zero = FloatValue::from_bits(binary32(), &bits32(0x0000_0000)).unwrap();
    let product = zero.mul(&pos_inf, RoundingMode::NearestTiesToEven).unwrap();
    assert!(matches!(product.class, FloatClass::QuietNaN { .. }));

    let four = FloatValue {
        sort: binary32(),
        class: FloatClass::Finite {
            negative: false,
            value: Rational::from_i64(4),
        },
    };
    let sqrt = four.sqrt(RoundingMode::NearestTiesToEven).unwrap();
    assert_eq!(sqrt.to_bits(RoundingMode::NearestTiesToEven), bits32(0x4000_0000));
}

#[test]
fn format_widths_are_checked() {
    assert!(FloatSort::new(1, 24).is_none());
    assert!(FloatSort::new(8, 1).is_none());
    assert!(FloatSort::new(63, 24).is_none());
    assert!(FloatSort::new(8, 1024).is_none());
    let s = FloatSort::new(11, 53).unwrap();
    assert_eq!(s.exponent_max(), 2047);
    assert_eq!(s.exponent_bias(), 1023);
    assert_eq!(s.fraction_bits(), 52);
}

#[test]
fn rounding_modes_differ_below_half_an_ulp() {
    let third_ulp = Rational::new(&Integer::from_u32(1), &Integer::power(2, 25));
    let x = FloatValue {
        sort: binary32(),
        class: FloatClass::Finite { negative: false, value: Rational::from_i64(1).add(&third_ulp) },
    };
    assert_eq!(x.to_bits(RoundingMode::NearestTiesToEven), bits32(0x3f80_0000));
    assert_eq!(x.to_bits(RoundingMode::TowardZero), bits32(0x3f80_0000));
    assert_eq!(x.to_bits(RoundingMode::TowardPositive), bits32(0x3f80_0001));
    assert_eq!(x.to_bits(RoundingMode::TowardNegative), bits32(0x3f80_0000));
}
