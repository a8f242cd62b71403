use cross_margin_engine::decimal::{Decimal, MAX_MANTISSA};
use cross_margin_engine::margin::position_unrealized_pnl;
use rust_decimal::Decimal as Outside;

struct Source(u64);

impl Source {
    fn next(&mut self) -> u64 {
        self.0 = self.0.wrapping_mul(6364136223846793005).wrapping_add(1442695040888963407);
        self.0 >> 11
    }

    fn decimal(&mut self) -> (i128, u32) {
        let width = self.next() % 97;
        let raw = ((self.next() as u128) << 64 | (self.next() as u128) << 11 | self.next() as u128)
            & (MAX_MANTISSA as u128);
        let magnitude = if width == 0 { 0 } else { raw >> (96 - width) };
        let scale = match self.next() % 4 {
            0 => 0,
            1 => (self.next() % 5) as u32,
            _ => (self.next() % 29) as u32,
        };
        let mantissa = if self.next() % 2 == 0 { magnitude as i128 } else { -(magnitude as i128) };
        (mantissa, scale)
    }
}

fn outside(parts: (i128, u32)) -> Outside {
    Outside::from_i128_with_scale(parts.0, parts.1)
}

fn ours(parts: (i128, u32)) -> Decimal {
    Decimal::from_parts(parts.0, parts.1).unwrap()
}

fn parts(d: Option<Outside>) -> Option<(i128, u32)> {
    d.map(|d| (d.mantissa(), d.scale()))
}

fn negated(d: Option<(i128, u32)>) -> Option<(i128, u32)> {
    d.map(|(m, s)| (-m, s))
}

fn pairs() -> Vec<((i128, u32), (i128, u32))> {
    let mut source = Source(20240229);
    let mut out = Vec::new();
    for _ in 0..20000 {
        out.push((source.decimal(), source.decimal()));
    }
    let edges: Vec<(i128, u32)> = vec![
        (0, 0),
        (0, 28),
        (1, 0),
        (-1, 0),
        (1, 28),
        (-1, 28),
        (5, 1),
        (MAX_MANTISSA, 0),
        (-MAX_MANTISSA, 0),
        (MAX_MANTISSA, 28),
        (-MAX_MANTISSA, 28),
        (MAX_MANTISSA - 1, 1),
        (u32::MAX as i128, 0),
        (u32::MAX as i128 + 1, 9),
        (u64::MAX as i128, 19),
        (u64::MAX as i128 + 1, 20),
        (10000000000000000000000000000, 28),
        (7922816251426433759354395034, 0),
    ];
    for a in &edges {
        for b in &edges {
            out.push((*a, *b));
        }
    }
    out
}

#[test]
fn adding_zero_returns_the_other_operand() {
    for (a, b) in pairs() {
        let zero = (0, b.1);
        let kept = if a.0 == 0 { zero } else { a };
        assert_eq!(parts(outside(a).checked_add(outside(zero))), Some(kept));
        assert_eq!(parts(outside(zero).checked_add(outside(a))), Some(a));
        assert_eq!(parts(outside(a).checked_sub(outside(zero))), Some(kept));
        assert_eq!(parts(outside(zero).checked_sub(outside(a))), Some((-a.0, a.1)));
    }
}

#[test]
fn a_number_and_its_negation_cancel_at_their_scale() {
    for (a, _) in pairs() {
        assert_eq!(parts(outside(a).checked_add(outside((-a.0, a.1)))), Some((0, a.1)));
        assert_eq!(parts(outside(a).checked_sub(outside(a))), Some((0, a.1)));
    }
}

#[test]
fn negating_both_operands_negates_the_sum() {
    for (a, b) in pairs() {
        let sum = parts(outside(a).checked_add(outside(b)));
        let mirrored = parts(outside((-a.0, a.1)).checked_add(outside((-b.0, b.1))));
        assert_eq!(mirrored, negated(sum));
    }
}

#[test]
fn a_difference_is_the_sum_with_the_negation() {
    for (a, b) in pairs() {
        let difference = parts(outside(a).checked_sub(outside(b)));
        let sum = parts(outside(a).checked_add(outside((-b.0, b.1))));
        assert_eq!(difference, sum);
    }
}

#[test]
fn a_zero_factor_gives_zero_with_scale_zero() {
    for (a, b) in pairs() {
        let zero = (0, b.1);
        assert_eq!(parts(outside(a).checked_mul(outside(zero))), Some((0, 0)));
        assert_eq!(parts(outside(zero).checked_mul(outside(a))), Some((0, 0)));
    }
}

#[test]
fn a_product_does_not_depend_on_the_order_of_its_factors() {
    for (a, b) in pairs() {
        assert_eq!(
            parts(outside(a).checked_mul(outside(b))),
            parts(outside(b).checked_mul(outside(a)))
        );
    }
}

#[test]
fn negating_a_factor_negates_the_product() {
    for (a, b) in pairs() {
        let product = parts(outside(a).checked_mul(outside(b)));
        assert_eq!(parts(outside((-a.0, a.1)).checked_mul(outside(b))), negated(product));
        assert_eq!(parts(outside(a).checked_mul(outside((-b.0, b.1)))), negated(product));
        let magnitudes = parts(outside((a.0.abs(), a.1)).checked_mul(outside((b.0.abs(), b.1))));
        let expected = if (a.0 < 0) != (b.0 < 0) { negated(magnitudes) } else { magnitudes };
        assert_eq!(product, expected);
    }
}

#[test]
fn results_stay_within_the_representation() {
    for (a, b) in pairs() {
        let results = vec![
            outside(a).checked_add(outside(b)),
            outside(a).checked_sub(outside(b)),
            outside(a).checked_mul(outside(b)),
            outside(a).checked_div(outside(b)),
        ];
        for r in results.into_iter().flatten() {
            assert!(Decimal::from_parts(r.mantissa(), r.scale()).is_some());
        }
    }
}

#[test]
fn the_order_is_the_order_of_the_numbers() {
    for (a, b) in pairs() {
        let x = a.0 * 10i128.pow(28 - a.1);
        let y = b.0 * 10i128.pow(28 - b.1);
        let narrow = a.0.abs() < (1 << 30) && b.0.abs() < (1 << 30);
        if narrow {
            assert_eq!(outside(a) <= outside(b), x <= y);
        }
    }
}

#[test]
fn the_library_computes_what_rust_decimal_computes() {
    for (a, b) in pairs().into_iter().take(5000) {
        let product = position_unrealized_pnl(ours(b), Decimal::zero(), ours(a));
        let expected =
            outside(a).checked_mul(outside(b)).and_then(|v| v.checked_sub(Outside::ZERO));
        assert_eq!(product.map(|d| (d.mantissa(), d.scale())), parts(expected));
        let difference = position_unrealized_pnl(Decimal::one(), ours(b), ours(a));
        let expected = outside(a).checked_mul(Outside::ONE).and_then(|v| v.checked_sub(outside(b)));
        assert_eq!(difference.map(|d| (d.mantissa(), d.scale())), parts(expected));
    }
}
