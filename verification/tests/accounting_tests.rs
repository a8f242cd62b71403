use cross_margin_engine::decimal::{Decimal, Overflow, MAX_MANTISSA};
use cross_margin_engine::ordered_map::OrderedMap;
use cross_margin_engine::risk::{
    apply_trade_to, fill_kind, keeps_cost_basis_sign, trade_keeps_cost_basis_signs, FillKind,
};
use cross_margin_engine::types::Position;

fn n(value: i64) -> Decimal {
    Decimal::new(value, 0)
}

fn held(market: &str, quantity: i64, cost_basis: i64) -> OrderedMap<Position> {
    let mut positions = OrderedMap::new();
    positions.insert(
        market.to_string(),
        Position { market_id: market.to_string(), quantity: n(quantity), cost_basis: n(cost_basis) },
    );
    positions
}

fn quantity_and_cost(positions: &OrderedMap<Position>, market: &str) -> (Decimal, Decimal) {
    let p = positions.get(market).unwrap();
    (p.quantity.normalize(), p.cost_basis.normalize())
}

#[test]
fn fresh_open_records_the_position() {
    let mut collateral = n(1000);
    let mut positions: OrderedMap<Position> = OrderedMap::new();
    apply_trade_to(&mut collateral, &mut positions, "BTC-PERP", n(10), n(100)).unwrap();
    assert_eq!(collateral, n(1000));
    assert_eq!(positions.len(), 1);
    let p = positions.get("BTC-PERP").unwrap();
    assert_eq!(p.market_id, "BTC-PERP");
    assert_eq!(p.quantity, n(10));
    assert_eq!(p.cost_basis, n(1000));
}

#[test]
fn fresh_short_has_a_negative_cost_basis() {
    let mut collateral = n(1000);
    let mut positions: OrderedMap<Position> = OrderedMap::new();
    apply_trade_to(&mut collateral, &mut positions, "BTC-PERP", n(-10), n(100)).unwrap();
    assert_eq!(collateral, n(1000));
    assert_eq!(quantity_and_cost(&positions, "BTC-PERP"), (n(-10), n(-1000)));
}

#[test]
fn increase_adds_to_the_cost_basis() {
    let mut collateral = n(1000);
    let mut positions = held("BTC-PERP", 10, 1000);
    apply_trade_to(&mut collateral, &mut positions, "BTC-PERP", n(5), n(120)).unwrap();
    assert_eq!(collateral, n(1000));
    assert_eq!(quantity_and_cost(&positions, "BTC-PERP"), (n(15), n(1600)));
}

#[test]
fn partial_close_realizes_a_fraction() {
    let mut collateral = n(1000);
    let mut positions = held("BTC-PERP", 10, 1000);
    apply_trade_to(&mut collateral, &mut positions, "BTC-PERP", n(-4), n(120)).unwrap();
    assert_eq!(collateral.normalize(), n(1080));
    assert_eq!(quantity_and_cost(&positions, "BTC-PERP"), (n(6), n(600)));
}

#[test]
fn partial_close_of_a_short() {
    let mut collateral = n(1000);
    let mut positions = held("BTC-PERP", -10, -1000);
    apply_trade_to(&mut collateral, &mut positions, "BTC-PERP", n(4), n(80)).unwrap();
    assert_eq!(collateral.normalize(), n(1080));
    assert_eq!(quantity_and_cost(&positions, "BTC-PERP"), (n(-6), n(-600)));
}

#[test]
fn full_close_realizes_and_deletes() {
    let mut collateral = n(1000);
    let mut positions = held("BTC-PERP", 10, 1000);
    apply_trade_to(&mut collateral, &mut positions, "BTC-PERP", n(-10), n(90)).unwrap();
    assert_eq!(collateral.normalize(), n(900));
    assert!(positions.is_empty());
}

#[test]
fn full_close_may_leave_negative_collateral() {
    let mut collateral = n(100);
    let mut positions = held("BTC-PERP", 10, 500000);
    apply_trade_to(&mut collateral, &mut positions, "BTC-PERP", n(-10), n(41000)).unwrap();
    assert_eq!(collateral.normalize(), n(-89900));
    assert!(positions.is_empty());
}

#[test]
fn flip_closes_and_reopens() {
    let mut collateral = n(100000);
    let mut positions = held("X", 10, 1000);
    apply_trade_to(&mut collateral, &mut positions, "X", n(-15), n(120)).unwrap();
    assert_eq!(collateral.normalize(), n(100200));
    assert_eq!(quantity_and_cost(&positions, "X"), (n(-5), n(-600)));
}

#[test]
fn flip_of_a_short() {
    let mut collateral = n(100000);
    let mut positions = held("X", -10, -1000);
    apply_trade_to(&mut collateral, &mut positions, "X", n(15), n(120)).unwrap();
    assert_eq!(collateral.normalize(), n(99800));
    assert_eq!(quantity_and_cost(&positions, "X"), (n(5), n(600)));
}

#[test]
fn other_positions_are_left_alone() {
    let mut collateral = n(1000);
    let mut positions = held("BTC-PERP", 10, 1000);
    apply_trade_to(&mut collateral, &mut positions, "ETH-PERP", n(2), n(30)).unwrap();
    assert_eq!(positions.len(), 2);
    assert_eq!(quantity_and_cost(&positions, "BTC-PERP"), (n(10), n(1000)));
    assert_eq!(quantity_and_cost(&positions, "ETH-PERP"), (n(2), n(60)));
    assert_eq!(positions.key_at(0), "BTC-PERP");
    assert_eq!(positions.key_at(1), "ETH-PERP");
}

#[test]
fn a_fill_of_zero_without_a_position_changes_nothing() {
    let mut collateral = n(1000);
    let mut positions: OrderedMap<Position> = OrderedMap::new();
    apply_trade_to(&mut collateral, &mut positions, "BTC-PERP", n(0), n(100)).unwrap();
    assert_eq!(collateral, n(1000));
    assert!(positions.is_empty());
}

#[test]
fn opening_and_closing_at_one_price_is_a_round_trip() {
    let cases: Vec<(Decimal, Decimal, Decimal)> = vec![
        (n(1000), n(10), n(100)),
        (n(1000), n(-10), n(100)),
        (Decimal::new(123456, 2), Decimal::new(-37, 1), Decimal::new(4100055, 2)),
        (n(-50), Decimal::new(1, 8), Decimal::new(999999999, 3)),
        (n(0), n(3), n(7)),
    ];
    for (start, quantity, price) in cases {
        let mut collateral = start;
        let mut positions: OrderedMap<Position> = OrderedMap::new();
        apply_trade_to(&mut collateral, &mut positions, "M", quantity, price).unwrap();
        apply_trade_to(&mut collateral, &mut positions, "M", quantity.neg(), price).unwrap();
        assert_eq!(collateral.normalize(), start.normalize());
        if !start.is_zero() {
            assert_eq!(collateral.mantissa(), start.mantissa());
            assert_eq!(collateral.scale(), start.scale());
        }
        assert!(positions.is_empty());
    }
}

#[test]
fn the_short_side_mirrors_the_long_side() {
    let fills: Vec<(i64, i64)> = vec![(10, 100), (5, 120), (-4, 130), (-20, 90), (3, 95), (6, 80)];
    let mut long_collateral = n(0);
    let mut short_collateral = n(0);
    let mut long_side: OrderedMap<Position> = OrderedMap::new();
    let mut short_side: OrderedMap<Position> = OrderedMap::new();
    for (quantity, price) in fills {
        apply_trade_to(&mut long_collateral, &mut long_side, "M", n(quantity), n(price)).unwrap();
        apply_trade_to(&mut short_collateral, &mut short_side, "M", n(-quantity), n(price))
            .unwrap();
        assert_eq!(short_collateral.normalize(), long_collateral.neg().normalize());
        match (long_side.get("M"), short_side.get("M")) {
            (Some(l), Some(s)) => {
                assert_eq!(s.quantity, l.quantity.neg());
                assert_eq!(s.cost_basis, l.cost_basis.neg());
            }
            (None, None) => {}
            _ => panic!("one side holds a position and the other does not"),
        }
    }
    assert!(!long_collateral.is_zero());
}

#[test]
fn cost_basis_has_the_sign_of_the_quantity() {
    let fills: Vec<(i64, i64)> =
        vec![(10, 100), (5, 120), (-4, 130), (-20, 90), (-3, 95), (6, 80), (10, 70), (-2, 60)];
    let mut collateral = n(0);
    let mut positions: OrderedMap<Position> = OrderedMap::new();
    for (quantity, price) in fills {
        apply_trade_to(&mut collateral, &mut positions, "M", n(quantity), n(price)).unwrap();
        let p = positions.get("M").unwrap();
        assert!(!p.quantity.is_zero());
        assert_eq!(p.cost_basis.sign(), p.quantity.sign());
    }
}

#[test]
fn overflow_leaves_everything_as_it_was() {
    let most = Decimal::from_parts(MAX_MANTISSA, 0).unwrap();
    let mut collateral = n(1000);
    let mut positions = held("BTC-PERP", 10, 1000);
    let r = apply_trade_to(&mut collateral, &mut positions, "ETH-PERP", most, n(10));
    assert_eq!(r, Err(Overflow));
    assert_eq!(collateral, n(1000));
    assert_eq!(positions, held("BTC-PERP", 10, 1000));
    let r = apply_trade_to(&mut collateral, &mut positions, "BTC-PERP", most, n(1));
    assert_eq!(r, Err(Overflow));
    assert_eq!(collateral, n(1000));
    assert_eq!(positions, held("BTC-PERP", 10, 1000));
}

#[test]
fn the_kind_of_a_fill() {
    let kind = |current: i64, fill: i64| fill_kind(&n(current), &n(fill), &n(current + fill));
    assert_eq!(kind(10, -10), FillKind::FullClose);
    assert_eq!(kind(-10, 10), FillKind::FullClose);
    assert_eq!(kind(0, 0), FillKind::FullClose);
    assert_eq!(kind(0, 5), FillKind::FreshOpen);
    assert_eq!(kind(0, -5), FillKind::FreshOpen);
    assert_eq!(kind(10, 5), FillKind::Increase);
    assert_eq!(kind(-10, -5), FillKind::Increase);
    assert_eq!(kind(10, -4), FillKind::PartialClose);
    assert_eq!(kind(-10, 4), FillKind::PartialClose);
    assert_eq!(kind(10, 0), FillKind::PartialClose);
    assert_eq!(kind(10, -15), FillKind::Flip);
    assert_eq!(kind(-10, 15), FillKind::Flip);
    assert_eq!(
        fill_kind(&Decimal::new(100, 1), &Decimal::new(-1000, 2), &Decimal::new(0, 2)),
        FillKind::FullClose
    );
}

#[test]
fn the_sign_of_the_cost_basis_is_known_where_nothing_is_rounded() {
    assert!(keeps_cost_basis_sign(n(0), n(0), n(10), n(100)));
    assert!(keeps_cost_basis_sign(n(10), n(1000), n(5), n(120)));
    assert!(keeps_cost_basis_sign(n(10), n(1000), n(-4), n(120)));
    assert!(keeps_cost_basis_sign(n(-10), n(-1000), n(4), n(80)));
    assert!(keeps_cost_basis_sign(n(10), n(1000), n(-15), n(120)));
    assert!(keeps_cost_basis_sign(n(10), n(1000), n(-10), n(90)));
    assert!(keeps_cost_basis_sign(Decimal::new(20, 1), Decimal::new(2000, 1), Decimal::new(-5, 1), n(7)));
    assert!(!keeps_cost_basis_sign(Decimal::new(15, 1), Decimal::new(1500, 1), Decimal::new(-5, 1), n(7)));
}

#[test]
fn the_sign_of_the_cost_basis_is_not_known_otherwise() {
    assert!(!keeps_cost_basis_sign(n(0), n(0), n(10), n(0)));
    assert!(!keeps_cost_basis_sign(n(0), n(0), n(10), n(-5)));
    assert!(!keeps_cost_basis_sign(n(10), n(-1000), n(5), n(120)));
    assert!(!keeps_cost_basis_sign(n(10), n(0), n(5), n(120)));
    assert!(!keeps_cost_basis_sign(n(3), n(100), n(-1), n(120)));
    let tiny = Decimal::new(1, 28);
    assert!(!keeps_cost_basis_sign(n(0), n(0), tiny, tiny));
    let mut collateral = n(0);
    let mut positions: OrderedMap<Position> = OrderedMap::new();
    apply_trade_to(&mut collateral, &mut positions, "M", tiny, tiny).unwrap();
    let p = positions.get("M").unwrap();
    assert_eq!(p.quantity.sign(), 1);
    assert_eq!(p.cost_basis.sign(), 0);
}

#[test]
fn a_trade_is_tested_for_the_signs_it_leaves() {
    let mut positions = held("BTC-PERP", 10, 1000);
    positions.insert(
        "ETH-PERP".to_string(),
        Position { market_id: "ETH-PERP".to_string(), quantity: n(-3), cost_basis: n(-90) },
    );
    assert!(trade_keeps_cost_basis_signs(&positions, "BTC-PERP", n(5), n(120)));
    assert!(trade_keeps_cost_basis_signs(&positions, "BTC-PERP", n(-4), n(120)));
    assert!(trade_keeps_cost_basis_signs(&positions, "ETH-PERP", n(5), n(40)));
    assert!(trade_keeps_cost_basis_signs(&positions, "SOL-PERP", n(-2), n(40)));
    assert!(!trade_keeps_cost_basis_signs(&positions, "BTC-PERP", n(5), n(0)));
    assert!(!trade_keeps_cost_basis_signs(&positions, "ETH-PERP", n(1), n(40)));
    for (market, quantity, price) in
        [("BTC-PERP", 5, 120), ("BTC-PERP", -4, 120), ("ETH-PERP", 5, 40), ("SOL-PERP", -2, 40)]
    {
        let mut collateral = n(0);
        let mut after = positions.clone();
        apply_trade_to(&mut collateral, &mut after, market, n(quantity), n(price)).unwrap();
        for i in 0..after.len() {
            let p = after.value_at(i);
            assert!(!p.quantity.is_zero());
            assert_eq!(p.cost_basis.sign(), p.quantity.sign());
        }
    }
    let crooked = held("BTC-PERP", 10, -1000);
    assert!(!trade_keeps_cost_basis_signs(&crooked, "ETH-PERP", n(1), n(1)));
    let empty = held("BTC-PERP", 0, 0);
    assert!(!trade_keeps_cost_basis_signs(&empty, "ETH-PERP", n(1), n(1)));
}
