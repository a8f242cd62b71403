use cross_margin_engine::decimal::{Decimal, Overflow, MAX_MANTISSA};
use cross_margin_engine::events::{Event, EventType};
use cross_margin_engine::liquidation::{check_and_liquidate, outranks};
use cross_margin_engine::margin::is_liquidatable;
use cross_margin_engine::state::State;
use cross_margin_engine::types::{Account, Market, Position};

fn n(value: i64) -> Decimal {
    Decimal::new(value, 0)
}

fn add_market(state: &mut State, id: &str, mark: i64, imf: i64, mmf: i64) {
    let mut m = Market::new(id.to_string(), Decimal::new(imf, 2), Decimal::new(mmf, 2));
    m.mark_price = n(mark);
    state.markets.insert(id.to_string(), m);
}

fn state_with(collateral: i64, positions: Vec<(&str, i64, i64)>) -> State {
    let mut state = State::new();
    add_market(&mut state, "AAA-PERP", 3000, 10, 5);
    add_market(&mut state, "BTC-PERP", 50000, 5, 3);
    add_market(&mut state, "ETH-PERP", 3000, 10, 5);
    let mut a = Account::new("trader".to_string());
    a.collateral = n(collateral);
    for (m, q, c) in positions {
        a.positions.insert(
            m.to_string(),
            Position { market_id: m.to_string(), quantity: n(q), cost_basis: n(c) },
        );
    }
    state.accounts.insert("trader".to_string(), a);
    state
}

fn fill(sequence: u64, market: &str, quantity: i64, price: i64) -> Event {
    Event {
        sequence,
        event_type: EventType::LiquidationFill {
            account_id: "trader".to_string(),
            market_id: market.to_string(),
            quantity: n(quantity),
            price: n(price),
        },
    }
}

#[test]
fn an_unknown_account_is_passed_over() {
    let mut state = state_with(1000, vec![]);
    let before = state.clone();
    let mut next = 7;
    assert_eq!(check_and_liquidate(&mut state, "nobody", &mut next), Ok(vec![]));
    assert_eq!(state, before);
    assert_eq!(next, 7);
}

#[test]
fn a_healthy_account_is_left_alone() {
    let mut state = state_with(20000, vec![("BTC-PERP", 5, 250000)]);
    state.accounts.insert("trader".to_string(), {
        let mut a = state.accounts.get("trader").unwrap().clone();
        a.bankruptcy_deficit = n(77);
        a
    });
    let before = state.clone();
    let mut next = 7;
    assert_eq!(check_and_liquidate(&mut state, "trader", &mut next), Ok(vec![]));
    assert_eq!(state, before);
    assert_eq!(next, 7);
}

#[test]
fn an_account_without_positions_records_its_shortfall() {
    let mut state = state_with(-250, vec![]);
    let mut next = 3;
    assert_eq!(check_and_liquidate(&mut state, "trader", &mut next), Ok(vec![]));
    let a = state.accounts.get("trader").unwrap();
    assert_eq!(a.bankruptcy_deficit, n(250));
    assert_eq!(a.collateral, n(-250));
    assert_eq!(next, 3);
    let mut solvent = state_with(250, vec![]);
    solvent.accounts.insert("trader".to_string(), {
        let mut a = solvent.accounts.get("trader").unwrap().clone();
        a.bankruptcy_deficit = n(9);
        a
    });
    assert_eq!(check_and_liquidate(&mut solvent, "trader", &mut next), Ok(vec![]));
    assert!(solvent.accounts.get("trader").unwrap().bankruptcy_deficit.is_zero());
}

#[test]
fn the_largest_notional_goes_first() {
    let mut state = state_with(1000, vec![("BTC-PERP", 1, 50000), ("ETH-PERP", 10, 30000)]);
    let mut next = 10;
    let events = check_and_liquidate(&mut state, "trader", &mut next).unwrap();
    assert_eq!(events, vec![fill(10, "BTC-PERP", -1, 50000), fill(11, "ETH-PERP", -10, 3000)]);
    assert_eq!(next, 12);
    let a = state.accounts.get("trader").unwrap();
    assert!(a.positions.is_empty());
    assert_eq!(a.collateral.normalize(), n(1000));
    assert!(a.bankruptcy_deficit.is_zero());
}

#[test]
fn closing_stops_when_the_account_is_healthy() {
    let mut state = state_with(2000, vec![("BTC-PERP", 1, 50000), ("ETH-PERP", -10, -30000)]);
    assert_eq!(is_liquidatable(state.accounts.get("trader").unwrap(), &state), Some(true));
    let mut next = 1;
    let events = check_and_liquidate(&mut state, "trader", &mut next).unwrap();
    assert_eq!(events, vec![fill(1, "BTC-PERP", -1, 50000)]);
    assert_eq!(next, 2);
    let a = state.accounts.get("trader").unwrap();
    assert_eq!(a.positions.len(), 1);
    assert_eq!(a.positions.get("ETH-PERP").unwrap().quantity, n(-10));
    assert!(a.bankruptcy_deficit.is_zero());
    assert_eq!(is_liquidatable(a, &state), Some(false));
}

#[test]
fn equal_notionals_go_by_market_identifier() {
    let mut state = state_with(
        100,
        vec![("ETH-PERP", 10, 30000), ("BTC-PERP", 0, 0), ("AAA-PERP", -10, -30000)],
    );
    let mut next = 1;
    let events = check_and_liquidate(&mut state, "trader", &mut next).unwrap();
    assert_eq!(events[0], fill(1, "AAA-PERP", 10, 3000));
    assert_eq!(events[1], fill(2, "ETH-PERP", -10, 3000));
}

#[test]
fn a_loss_beyond_the_collateral_is_the_deficit() {
    let mut state = state_with(100, vec![("BTC-PERP", 1, 60000)]);
    let mut next = 1;
    let events = check_and_liquidate(&mut state, "trader", &mut next).unwrap();
    assert_eq!(events, vec![fill(1, "BTC-PERP", -1, 50000)]);
    let a = state.accounts.get("trader").unwrap();
    assert_eq!(a.collateral.normalize(), n(-9900));
    assert_eq!(a.bankruptcy_deficit.normalize(), n(9900));
    assert!(a.positions.is_empty());
}

#[test]
fn a_short_is_closed_by_buying() {
    let mut state = state_with(100, vec![("BTC-PERP", -2, -80000)]);
    let mut next = 1;
    let events = check_and_liquidate(&mut state, "trader", &mut next).unwrap();
    assert_eq!(events, vec![fill(1, "BTC-PERP", 2, 50000)]);
    let a = state.accounts.get("trader").unwrap();
    assert_eq!(a.collateral.normalize(), n(-19900));
    assert_eq!(a.bankruptcy_deficit.normalize(), n(19900));
}

#[test]
fn a_position_in_an_unknown_market_is_skipped() {
    let mut state = state_with(-40, vec![("DOGE-PERP", 5, 100)]);
    assert_eq!(is_liquidatable(state.accounts.get("trader").unwrap(), &state), Some(true));
    let mut next = 1;
    assert_eq!(check_and_liquidate(&mut state, "trader", &mut next), Ok(vec![]));
    let a = state.accounts.get("trader").unwrap();
    assert_eq!(a.positions.len(), 1);
    assert_eq!(a.collateral, n(-40));
    assert_eq!(a.bankruptcy_deficit, n(40));
    let mut mixed = state_with(0, vec![("DOGE-PERP", 5, 100), ("ETH-PERP", 1, 3000)]);
    let events = check_and_liquidate(&mut mixed, "trader", &mut next).unwrap();
    assert_eq!(events, vec![fill(1, "ETH-PERP", -1, 3000)]);
    let a = mixed.accounts.get("trader").unwrap();
    assert_eq!(a.positions.len(), 1);
    assert!(a.positions.get("DOGE-PERP").is_some());
    assert!(a.bankruptcy_deficit.is_zero());
}

#[test]
fn liquidation_leaves_other_accounts_alone() {
    let mut state = state_with(100, vec![("BTC-PERP", 1, 60000)]);
    let mut other = Account::new("zed".to_string());
    other.collateral = n(-5);
    other.positions.insert(
        "BTC-PERP".to_string(),
        Position { market_id: "BTC-PERP".to_string(), quantity: n(1), cost_basis: n(60000) },
    );
    state.accounts.insert("zed".to_string(), other.clone());
    let markets = state.markets.clone();
    let mut next = 1;
    check_and_liquidate(&mut state, "trader", &mut next).unwrap();
    assert_eq!(*state.accounts.get("zed").unwrap(), other);
    assert_eq!(state.markets, markets);
}

#[test]
fn overflow_in_a_liquidation_changes_nothing() {
    let most = Decimal::from_parts(MAX_MANTISSA, 0).unwrap();
    let mut state = state_with(100, vec![("ETH-PERP", 1, 3000)]);
    state.accounts.insert("trader".to_string(), {
        let mut a = state.accounts.get("trader").unwrap().clone();
        a.positions.insert(
            "BTC-PERP".to_string(),
            Position { market_id: "BTC-PERP".to_string(), quantity: most, cost_basis: n(0) },
        );
        a
    });
    let before = state.clone();
    let mut next = 5;
    assert_eq!(check_and_liquidate(&mut state, "trader", &mut next), Err(Overflow));
    assert_eq!(state, before);
    assert_eq!(next, 5);
}

#[test]
fn sequence_numbers_that_run_out_change_nothing() {
    let mut state = state_with(1000, vec![("BTC-PERP", 1, 50000), ("ETH-PERP", 10, 30000)]);
    let before = state.clone();
    let mut next = u64::MAX - 1;
    assert_eq!(check_and_liquidate(&mut state, "trader", &mut next), Err(Overflow));
    assert_eq!(state, before);
    assert_eq!(next, u64::MAX - 1);
    let mut next = u64::MAX - 2;
    let events = check_and_liquidate(&mut state, "trader", &mut next).unwrap();
    assert_eq!(events.len(), 2);
    assert_eq!(events[1].sequence, u64::MAX - 1);
    assert_eq!(next, u64::MAX);
}

#[test]
fn a_larger_notional_outranks() {
    assert!(outranks(&n(50001), "ZZZ", &n(50000), "AAA"));
    assert!(!outranks(&n(49999), "AAA", &n(50000), "ZZZ"));
    assert!(outranks(&Decimal::new(500001, 1), "ZZZ", &n(50000), "AAA"));
    assert!(outranks(&n(1), "B", &n(0), "A"));
}

#[test]
fn equal_notionals_rank_by_identifier() {
    assert!(outranks(&n(50000), "AAA", &n(50000), "BBB"));
    assert!(!outranks(&n(50000), "BBB", &n(50000), "AAA"));
    assert!(!outranks(&n(50000), "AAA", &n(50000), "AAA"));
    assert!(outranks(&Decimal::new(5000000, 2), "AAA", &n(50000), "BBB"));
    assert!(!outranks(&Decimal::new(5000000, 2), "BBB", &n(50000), "AAA"));
}
