use cross_margin_engine::decimal::{Decimal, MAX_MANTISSA, MAX_SCALE};

#[test]
fn from_parts_accepts_the_whole_range() {
    assert!(Decimal::from_parts(MAX_MANTISSA, 0).is_some());
    assert!(Decimal::from_parts(-MAX_MANTISSA, MAX_SCALE).is_some());
    assert!(Decimal::from_parts(0, 28).is_some());
}

#[test]
fn from_parts_rejects_what_cannot_be_held() {
    assert!(Decimal::from_parts(MAX_MANTISSA + 1, 0).is_none());
    assert!(Decimal::from_parts(-MAX_MANTISSA - 1, 0).is_none());
    assert!(Decimal::from_parts(1, 29).is_none());
    assert!(Decimal::from_parts(i128::MAX, 0).is_none());
    assert!(Decimal::from_parts(i128::MIN, 0).is_none());
}

#[test]
fn parts_come_back() {
    let d = Decimal::from_parts(-12345, 3).unwrap();
    assert_eq!(d.mantissa(), -12345);
    assert_eq!(d.scale(), 3);
    let n = Decimal::new(i64::MIN, 28);
    assert_eq!(n.mantissa(), i64::MIN as i128);
    assert_eq!(n.scale(), 28);
}

#[test]
fn zero_and_one() {
    assert_eq!(parts(Decimal::zero()), (0, 0));
    assert_eq!(parts(Decimal::one()), (1, 0));
    assert!(Decimal::zero().is_zero());
    assert!(Decimal::new(0, 5).is_zero());
    assert!(!Decimal::one().is_zero());
}

#[test]
fn sign_neg_abs() {
    assert_eq!(Decimal::new(-5, 1).sign(), -1);
    assert_eq!(Decimal::new(0, 7).sign(), 0);
    assert_eq!(Decimal::new(5, 1).sign(), 1);
    assert_eq!(parts(Decimal::new(-5, 1).neg()), (5, 1));
    assert_eq!(parts(Decimal::new(5, 1).neg()), (-5, 1));
    assert_eq!(parts(Decimal::new(0, 3).neg()), (0, 3));
    assert_eq!(parts(Decimal::new(-5, 1).abs()), (5, 1));
    assert_eq!(parts(Decimal::new(5, 1).abs()), (5, 1));
    let most = Decimal::from_parts(-MAX_MANTISSA, 0).unwrap();
    assert_eq!(most.abs(), Decimal::from_parts(MAX_MANTISSA, 0).unwrap());
    assert_eq!(most.neg().neg(), most);
}

fn parts(d: Decimal) -> (i128, u32) {
    (d.mantissa(), d.scale())
}

#[test]
fn normalize_strips_trailing_zeros() {
    assert_eq!(parts(Decimal::new(1200000, 2).normalize()), (12000, 0));
    assert_eq!(parts(Decimal::new(3100, 3).normalize()), (31, 1));
    assert_eq!(parts(Decimal::new(-3100, 3).normalize()), (-31, 1));
    assert_eq!(parts(Decimal::new(-50, 1).normalize()), (-5, 0));
    assert_eq!(parts(Decimal::new(0, 9).normalize()), (0, 0));
    assert_eq!(parts(Decimal::new(100, 0).normalize()), (100, 0));
    assert_eq!(parts(Decimal::new(105, 2).normalize()), (105, 2));
}

#[test]
fn equality_is_by_number() {
    assert_eq!(Decimal::new(800, 1), Decimal::new(80, 0));
    assert_eq!(Decimal::new(80, 0), Decimal::new(80000, 3));
    assert_eq!(Decimal::new(-125, 2), Decimal::new(-1250, 3));
    assert_eq!(Decimal::new(0, 0), Decimal::new(0, 28));
    assert_ne!(Decimal::new(800, 1), Decimal::new(800, 0));
    assert_ne!(Decimal::new(80, 0), Decimal::new(-80, 0));
    assert_ne!(Decimal::new(1, 28), Decimal::new(0, 0));
    assert_ne!(Decimal::new(801, 1), Decimal::new(80, 0));
    let most = Decimal::from_parts(MAX_MANTISSA, 28).unwrap();
    assert_eq!(most, most);
    assert_ne!(most, Decimal::from_parts(MAX_MANTISSA - 1, 28).unwrap());
}

#[test]
fn equality_agrees_with_rust_decimal() {
    let cases: Vec<(i128, u32)> = vec![
        (0, 0),
        (0, 5),
        (1, 0),
        (10, 1),
        (100, 2),
        (-100, 2),
        (-1, 0),
        (15, 1),
        (150, 2),
        (1500, 2),
        (MAX_MANTISSA, 0),
        (MAX_MANTISSA, 28),
        (7922816251426433759354395033, 0),
        (79228162514264337593543950330, 1),
    ];
    for a in &cases {
        for b in &cases {
            let ours = Decimal::from_parts(a.0, a.1).unwrap() == Decimal::from_parts(b.0, b.1).unwrap();
            let theirs = rust_decimal::Decimal::from_i128_with_scale(a.0, a.1)
                == rust_decimal::Decimal::from_i128_with_scale(b.0, b.1);
            assert_eq!(ours, theirs);
        }
    }
}

#[test]
fn normalize_agrees_with_rust_decimal() {
    let cases: Vec<(i128, u32)> = vec![
        (0, 0),
        (0, 28),
        (10, 1),
        (-10, 1),
        (1234500, 4),
        (-1234500, 7),
        (7, 28),
        (MAX_MANTISSA, 28),
        (-MAX_MANTISSA, 13),
        (1000000000000000000000000000, 27),
    ];
    for (mantissa, scale) in cases {
        let ours = Decimal::from_parts(mantissa, scale).unwrap().normalize();
        let theirs = rust_decimal::Decimal::from_i128_with_scale(mantissa, scale).normalize();
        assert_eq!(ours.mantissa(), theirs.mantissa());
        assert_eq!(ours.scale(), theirs.scale());
    }
}

#[test]
fn a_sum_is_tested_on_mantissas_and_scales() {
    let d = Decimal::new;
    assert!(d(10, 0).sums_to(&d(5, 0), &d(15, 0)));
    assert!(d(10, 0).sums_to(&d(5, 0), &d(150, 1)));
    assert!(d(1000, 0).sums_to(&d(-4000, 1), &d(6000, 1)));
    assert!(d(0, 0).sums_to(&d(125, 2), &d(125, 2)));
    assert!(d(125, 2).sums_to(&d(-125, 2), &d(0, 2)));
    assert!(d(1, 28).sums_to(&d(1, 0), &Decimal::from_parts(10000000000000000000000000001, 28).unwrap()));
    assert!(!d(10, 0).sums_to(&d(5, 0), &d(16, 0)));
    assert!(!d(10, 0).sums_to(&d(5, 1), &d(15, 0)));
    assert!(!d(10, 0).sums_to(&d(5, 0), &d(15, 1)));
    let most = Decimal::from_parts(MAX_MANTISSA, 0).unwrap();
    assert!(most.sums_to(&d(0, 0), &most));
    assert!(!most.sums_to(&d(0, 28), &most));
}

#[test]
fn a_product_is_tested_on_mantissas_and_scales() {
    let d = Decimal::new;
    assert!(d(10, 0).multiplies_to(&d(42000, 0), &d(420000, 0)));
    assert!(d(25, 1).multiplies_to(&d(-4, 1), &d(-100, 2)));
    assert!(d(0, 3).multiplies_to(&d(7, 0), &d(0, 0)));
    assert!(d(7, 0).multiplies_to(&d(0, 3), &d(0, 5)));
    assert!(!d(0, 3).multiplies_to(&d(7, 0), &d(1, 0)));
    assert!(!d(25, 1).multiplies_to(&d(4, 1), &d(1, 0)));
    assert!(!d(25, 1).multiplies_to(&d(4, 1), &d(101, 2)));
    assert!(d(i64::MAX / 2, 0).multiplies_to(&d(1, 0), &d(i64::MAX / 2, 0)));
    assert!(!d(i64::MAX, 0).multiplies_to(&d(1, 0), &d(i64::MAX, 0)));
}

#[test]
fn a_quotient_is_tested_on_mantissas_and_scales() {
    let d = Decimal::new;
    assert!(d(4, 0).divides_to(&d(10, 0), &d(4, 1)));
    assert!(d(4, 0).divides_to(&d(10, 0), &d(40, 2)));
    assert!(d(-9, 1).divides_to(&d(3, 0), &d(-3, 1)));
    assert!(d(900, 3).divides_to(&d(3, 0), &d(3, 1)));
    assert!(d(0, 0).divides_to(&d(3, 0), &d(0, 0)));
    assert!(!d(1, 0).divides_to(&d(3, 0), &d(3333333333333333, 16)));
    assert!(!d(4, 0).divides_to(&d(0, 0), &d(0, 0)));
    assert!(!d(4, 0).divides_to(&d(10, 0), &d(5, 1)));
}

#[test]
fn the_tests_of_exactness_agree_with_rust_decimal() {
    let values: Vec<(i64, u32)> =
        vec![(0, 0), (1, 0), (-3, 0), (10, 1), (25, 2), (-125, 3), (42000, 0), (7, 5), (1000, 0)];
    for a in &values {
        for b in &values {
            let x = Decimal::new(a.0, a.1);
            let y = Decimal::new(b.0, b.1);
            let ox = rust_decimal::Decimal::new(a.0, a.1);
            let oy = rust_decimal::Decimal::new(b.0, b.1);
            let back = |d: rust_decimal::Decimal| Decimal::from_parts(d.mantissa(), d.scale()).unwrap();
            assert!(x.sums_to(&y, &back(ox.checked_add(oy).unwrap())));
            assert!(x.sums_to(&y.neg(), &back(ox.checked_sub(oy).unwrap())));
            assert!(x.multiplies_to(&y, &back(ox.checked_mul(oy).unwrap())));
            if let Some(q) = ox.checked_div(oy) {
                let exact = q.checked_mul(oy) == Some(ox) && q.scale() < 20;
                if exact {
                    assert!(x.divides_to(&y, &back(q)));
                }
            }
        }
    }
}
