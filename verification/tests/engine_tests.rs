use cross_margin_engine::decimal::{Decimal, Overflow, MAX_MANTISSA};
use cross_margin_engine::engine::{Engine, Rejection};
use cross_margin_engine::events::{Event, EventType};
use cross_margin_engine::margin::{equity, is_liquidatable};
use cross_margin_engine::snapshot::capture;
use cross_margin_engine::state::State;
use cross_margin_engine::types::{Account, Market, Position};

fn n(value: i64) -> Decimal {
    Decimal::new(value, 0)
}

fn markets() -> Vec<Market> {
    vec![
        Market::new("BTC-PERP".to_string(), Decimal::new(5, 2), Decimal::new(3, 2)),
        Market::new("ETH-PERP".to_string(), Decimal::new(10, 2), Decimal::new(5, 2)),
    ]
}

fn engine() -> Engine {
    let mut e = Engine::new();
    for m in markets() {
        e.add_market(m);
    }
    e
}

fn deposit(account: &str, amount: i64) -> EventType {
    EventType::Deposit { account_id: account.to_string(), amount: n(amount) }
}

fn withdraw(account: &str, amount: i64) -> EventType {
    EventType::Withdraw { account_id: account.to_string(), amount: n(amount) }
}

fn mark(market: &str, price: i64) -> EventType {
    EventType::MarkPriceUpdate { market_id: market.to_string(), price: n(price) }
}

fn trade(account: &str, market: &str, quantity: i64, price: i64) -> EventType {
    EventType::TradeFill {
        account_id: account.to_string(),
        market_id: market.to_string(),
        quantity: n(quantity),
        price: n(price),
    }
}

fn run(e: &mut Engine, events: Vec<EventType>) {
    for event in events {
        e.process(event).unwrap();
    }
}

fn assert_gapless(e: &Engine) {
    assert_eq!(e.snapshots.len(), e.event_log.len());
    for (i, event) in e.event_log.iter().enumerate() {
        assert_eq!(event.sequence, i as u64 + 1);
        assert_eq!(e.snapshots[i].after_sequence, event.sequence);
    }
    assert_eq!(e.next_sequence(), e.event_log.len() as u64 + 1);
}

fn assert_no_scanned_account_is_liquidatable(e: &Engine) {
    for i in 0..e.state.accounts.len() {
        let a = e.state.accounts.value_at(i);
        assert_eq!(is_liquidatable(a, &e.state), Some(false));
    }
}

#[test]
fn a_fresh_engine_is_empty() {
    let e = Engine::new();
    assert!(e.state.accounts.is_empty());
    assert!(e.state.markets.is_empty());
    assert!(e.event_log.is_empty());
    assert!(e.snapshots.is_empty());
    assert_eq!(e.next_sequence(), 1);
    assert_eq!(e.state(), &State::new());
    assert!(e.event_log().is_empty());
    assert!(e.snapshots().is_empty());
}

#[test]
fn add_market_registers_and_replaces() {
    let mut e = Engine::new();
    e.add_market(Market::new("ETH-PERP".to_string(), Decimal::new(10, 2), Decimal::new(5, 2)));
    e.add_market(Market::new("BTC-PERP".to_string(), Decimal::new(5, 2), Decimal::new(3, 2)));
    assert_eq!(e.state.markets.len(), 2);
    assert_eq!(e.state.markets.key_at(0), "BTC-PERP");
    let btc = e.state.markets.get("BTC-PERP").unwrap();
    assert!(btc.mark_price.is_zero());
    assert!(btc.cumulative_funding_index.is_zero());
    assert_eq!(btc.initial_margin_fraction, Decimal::new(5, 2));
    assert_eq!(btc.maintenance_margin_fraction, Decimal::new(3, 2));
    e.add_market(Market::new("BTC-PERP".to_string(), Decimal::new(20, 2), Decimal::new(10, 2)));
    assert_eq!(e.state.markets.len(), 2);
    assert_eq!(e.state.markets.get("BTC-PERP").unwrap().initial_margin_fraction, Decimal::new(20, 2));
    assert!(e.event_log.is_empty());
    assert_eq!(e.next_sequence(), 1);
}

#[test]
fn deposits_add_up() {
    let mut e = engine();
    run(
        &mut e,
        vec![deposit("a", 100), deposit("b", 7), deposit("a", 250), deposit("a", 0), deposit("b", 3)],
    );
    e.process(EventType::Deposit { account_id: "a".to_string(), amount: Decimal::new(125, 2) })
        .unwrap();
    let a = e.state.accounts.get("a").unwrap();
    assert_eq!(a.collateral, Decimal::new(35125, 2));
    assert_eq!(equity(a, &e.state).unwrap(), Decimal::new(35125, 2));
    assert_eq!(a.account_id, "a");
    assert!(a.positions.is_empty());
    let b = e.state.accounts.get("b").unwrap();
    assert_eq!(b.collateral, n(10));
    assert_eq!(equity(b, &e.state).unwrap(), n(10));
    assert_eq!(e.snapshots.last().unwrap().accounts.get("a").unwrap().equity, Decimal::new(35125, 2));
    assert_gapless(&e);
}

#[test]
fn a_negative_deposit_is_not_validated() {
    let mut e = engine();
    run(&mut e, vec![deposit("a", -5)]);
    assert_eq!(e.state.accounts.get("a").unwrap().collateral, n(-5));
    assert_eq!(e.event_log.len(), 1);
}

#[test]
fn sequence_numbers_have_no_gaps() {
    let mut e = engine();
    run(
        &mut e,
        vec![
            deposit("alice", 100000),
            mark("BTC-PERP", 50000),
            trade("alice", "BTC-PERP", 10, 50000),
            trade("alice", "BTC-PERP", 100, 50000),
            withdraw("alice", 1000000),
            withdraw("nobody", 1),
            trade("nobody", "BTC-PERP", 1, 1),
            mark("BTC-PERP", 41000),
            deposit("alice", 5),
        ],
    );
    assert_eq!(e.event_log.len(), 14);
    assert_gapless(&e);
}

#[test]
fn a_withdrawal_is_applied_or_recorded_as_rejected() {
    let mut e = engine();
    run(&mut e, vec![deposit("a", 1000), withdraw("a", 400)]);
    assert_eq!(e.state.accounts.get("a").unwrap().collateral, n(600));
    assert_eq!(e.event_log.len(), 2);
    run(&mut e, vec![withdraw("a", 601)]);
    assert_eq!(e.state.accounts.get("a").unwrap().collateral, n(600));
    assert_eq!(e.event_log.len(), 4);
    assert_eq!(e.event_log[2], Event { sequence: 3, event_type: withdraw("a", 601) });
    assert_eq!(
        e.event_log[3],
        Event {
            sequence: 4,
            event_type: EventType::WithdrawalRejected {
                account_id: "a".to_string(),
                amount: n(601),
                reason: "Withdrawal exceeds collateral balance".to_string(),
            },
        }
    );
    assert_eq!(e.snapshots[2].accounts, e.snapshots[3].accounts);
    assert_eq!(e.snapshots[3].after_sequence, 4);
    run(&mut e, vec![withdraw("ghost", 1)]);
    assert_eq!(
        e.event_log[5].event_type,
        EventType::WithdrawalRejected {
            account_id: "ghost".to_string(),
            amount: n(1),
            reason: "Account does not exist".to_string(),
        }
    );
    assert!(e.state.accounts.get("ghost").is_none());
}

#[test]
fn a_mark_price_for_an_unknown_market_is_a_no_op() {
    let mut e = engine();
    run(&mut e, vec![deposit("a", 10)]);
    let before = e.state.clone();
    run(&mut e, vec![mark("DOGE-PERP", 5)]);
    assert_eq!(e.state, before);
    assert_eq!(e.event_log.len(), 2);
    run(&mut e, vec![mark("BTC-PERP", 5)]);
    assert_eq!(e.state.markets.get("BTC-PERP").unwrap().mark_price, n(5));
    assert_eq!(e.state.accounts, before.accounts);
}

#[test]
fn funding_charges_longs_and_pays_shorts() {
    let mut e = engine();
    run(
        &mut e,
        vec![
            deposit("long", 10000),
            deposit("short", 10000),
            deposit("flat", 10000),
            mark("ETH-PERP", 3000),
            trade("long", "ETH-PERP", 20, 3000),
            trade("short", "ETH-PERP", -10, 3000),
        ],
    );
    e.process(EventType::FundingUpdate {
        market_id: "ETH-PERP".to_string(),
        new_cumulative_index: Decimal::new(150, 2),
    })
    .unwrap();
    assert_eq!(e.state.accounts.get("long").unwrap().collateral.normalize(), n(9970));
    assert_eq!(e.state.accounts.get("short").unwrap().collateral.normalize(), n(10015));
    assert_eq!(e.state.accounts.get("flat").unwrap().collateral, n(10000));
    assert!(e.state.accounts.get("flat").unwrap().last_funding.is_empty());
    e.process(EventType::FundingUpdate {
        market_id: "ETH-PERP".to_string(),
        new_cumulative_index: Decimal::new(100, 2),
    })
    .unwrap();
    assert_eq!(e.state.accounts.get("long").unwrap().collateral.normalize(), n(9980));
    assert_eq!(e.state.accounts.get("short").unwrap().collateral.normalize(), n(10010));
    assert_eq!(
        *e.state.accounts.get("long").unwrap().last_funding.get("ETH-PERP").unwrap(),
        Decimal::new(100, 2)
    );
    run(&mut e, vec![trade("flat", "ETH-PERP", 1, 3000)]);
    e.process(EventType::FundingUpdate {
        market_id: "ETH-PERP".to_string(),
        new_cumulative_index: Decimal::new(300, 2),
    })
    .unwrap();
    assert_eq!(e.state.accounts.get("flat").unwrap().collateral.normalize(), n(9998));
    assert_gapless(&e);
}

#[test]
fn funding_for_an_unknown_market_settles_from_zero() {
    let mut state = State::new();
    let mut a = Account::new("a".to_string());
    a.collateral = n(100);
    a.positions.insert(
        "DOGE-PERP".to_string(),
        Position { market_id: "DOGE-PERP".to_string(), quantity: n(4), cost_basis: n(0) },
    );
    state.accounts.insert("a".to_string(), a);
    let mut e = Engine::new();
    e.state = state;
    e.process(EventType::FundingUpdate {
        market_id: "DOGE-PERP".to_string(),
        new_cumulative_index: n(2),
    })
    .unwrap();
    let a = e.state.accounts.get("a").unwrap();
    assert_eq!(a.collateral.normalize(), n(92));
    assert_eq!(*a.last_funding.get("DOGE-PERP").unwrap(), n(2));
    assert!(e.state.markets.is_empty());
}

#[test]
fn rejection_records_change_nothing() {
    let mut e = engine();
    run(&mut e, vec![deposit("a", 10)]);
    let before = e.state.clone();
    e.process(EventType::TradeRejected {
        account_id: "a".to_string(),
        market_id: "BTC-PERP".to_string(),
        quantity: n(1),
        price: n(1),
        reason: "why".to_string(),
    })
    .unwrap();
    e.process(EventType::WithdrawalRejected {
        account_id: "a".to_string(),
        amount: n(1),
        reason: "why".to_string(),
    })
    .unwrap();
    assert_eq!(e.state, before);
    assert_eq!(e.event_log.len(), 3);
    assert_gapless(&e);
}

#[test]
fn a_liquidation_fill_is_applied_without_a_check() {
    let mut e = engine();
    e.process(EventType::LiquidationFill {
        account_id: "new".to_string(),
        market_id: "BTC-PERP".to_string(),
        quantity: n(3),
        price: n(100),
    })
    .unwrap();
    let a = e.state.accounts.get("new").unwrap();
    assert!(a.collateral.is_zero());
    assert_eq!(a.positions.get("BTC-PERP").unwrap().cost_basis, n(300));
    assert_eq!(e.event_log.len(), 1);
}

#[test]
fn every_holder_of_a_market_is_scanned_in_order() {
    let mut e = engine();
    run(
        &mut e,
        vec![
            deposit("zoe", 30000),
            deposit("amy", 30000),
            deposit("bob", 1000000),
            deposit("eve", 30000),
            mark("BTC-PERP", 50000),
            mark("ETH-PERP", 3000),
            trade("zoe", "BTC-PERP", 10, 50000),
            trade("amy", "BTC-PERP", -10, 50000),
            trade("bob", "BTC-PERP", 10, 50000),
            trade("eve", "ETH-PERP", 10, 3000),
        ],
    );
    assert_eq!(e.event_log.len(), 10);
    assert_eq!(
        e.state.accounts_with_position_in("BTC-PERP"),
        vec!["amy".to_string(), "bob".to_string(), "zoe".to_string()]
    );
    run(&mut e, vec![mark("BTC-PERP", 48000)]);
    assert_eq!(e.event_log.len(), 12);
    assert_eq!(
        e.event_log[11].event_type,
        EventType::LiquidationFill {
            account_id: "zoe".to_string(),
            market_id: "BTC-PERP".to_string(),
            quantity: n(-10),
            price: n(48000),
        }
    );
    assert_eq!(e.state.accounts.get("zoe").unwrap().collateral.normalize(), n(10000));
    assert!(e.state.accounts.get("zoe").unwrap().positions.is_empty());
    assert_eq!(e.state.accounts.get("amy").unwrap().positions.len(), 1);
    assert_eq!(e.state.accounts.get("bob").unwrap().positions.len(), 1);
    assert_eq!(e.state.accounts_with_position_in("BTC-PERP"), vec!["amy".to_string(), "bob".to_string()]);
    assert_eq!(e.state.accounts_with_position_in("DOGE-PERP"), Vec::<String>::new());
    assert_no_scanned_account_is_liquidatable(&e);
    assert_gapless(&e);
    let (state, snapshots) = Engine::replay(&e.event_log, markets()).unwrap();
    assert_eq!(state, e.state);
    assert_eq!(snapshots, e.snapshots);
}

#[test]
fn a_scan_that_closes_two_positions() {
    let mut e = engine();
    run(
        &mut e,
        vec![
            deposit("a", 20000),
            mark("BTC-PERP", 50000),
            mark("ETH-PERP", 3000),
            trade("a", "BTC-PERP", 5, 50000),
            trade("a", "ETH-PERP", 20, 3000),
            mark("BTC-PERP", 46500),
        ],
    );
    assert_eq!(e.event_log.len(), 8);
    assert_eq!(
        e.event_log[6].event_type,
        EventType::LiquidationFill {
            account_id: "a".to_string(),
            market_id: "BTC-PERP".to_string(),
            quantity: n(-5),
            price: n(46500),
        }
    );
    assert_eq!(
        e.event_log[7].event_type,
        EventType::LiquidationFill {
            account_id: "a".to_string(),
            market_id: "ETH-PERP".to_string(),
            quantity: n(-20),
            price: n(3000),
        }
    );
    let a = e.state.accounts.get("a").unwrap();
    assert!(a.positions.is_empty());
    assert_eq!(a.collateral.normalize(), n(2500));
    assert!(a.bankruptcy_deficit.is_zero());
    assert_gapless(&e);
    assert_no_scanned_account_is_liquidatable(&e);
    assert_eq!(e.snapshots[6].accounts, e.snapshots[7].accounts);
    assert!(e.snapshots[6].accounts.get("a").unwrap().positions.is_empty());
    let (state, snapshots) = Engine::replay(&e.event_log, markets()).unwrap();
    assert_eq!(state, e.state);
    assert_eq!(snapshots.len(), e.snapshots.len());
    assert_eq!(snapshots[7], e.snapshots[7]);
    assert_eq!(snapshots[5], e.snapshots[5]);
    assert_eq!(snapshots[6].accounts.get("a").unwrap().positions.len(), 1);
}

#[test]
fn a_recorded_deficit_is_not_replayed() {
    let mut e = engine();
    run(
        &mut e,
        vec![
            deposit("a", 30000),
            mark("BTC-PERP", 50000),
            trade("a", "BTC-PERP", 10, 50000),
            mark("BTC-PERP", 40000),
        ],
    );
    let a = e.state.accounts.get("a").unwrap();
    assert_eq!(a.collateral.normalize(), n(-70000));
    assert_eq!(a.bankruptcy_deficit.normalize(), n(70000));
    assert!(a.positions.is_empty());
    let (state, snapshots) = Engine::replay(&e.event_log, markets()).unwrap();
    assert_eq!(snapshots, e.snapshots);
    let replayed = state.accounts.get("a").unwrap();
    assert_eq!(replayed.collateral, a.collateral);
    assert_eq!(replayed.positions, a.positions);
    assert!(replayed.bankruptcy_deficit.is_zero());
    assert_eq!(state.markets, e.state.markets);
}

#[test]
fn replay_tolerates_any_sequences_and_rejections() {
    let log = vec![
        Event { sequence: 40, event_type: deposit("a", 100) },
        Event { sequence: 7, event_type: withdraw("a", 500) },
        Event { sequence: 7, event_type: trade("a", "BTC-PERP", 1, 1) },
        Event { sequence: 0, event_type: withdraw("a", 30) },
    ];
    let (state, snapshots) = Engine::replay(&log, markets()).unwrap();
    assert_eq!(state.accounts.get("a").unwrap().collateral, n(70));
    assert_eq!(snapshots.len(), 4);
    assert_eq!(snapshots[0].after_sequence, 40);
    assert_eq!(snapshots[1].after_sequence, 7);
    assert_eq!(snapshots[3].after_sequence, 0);
    assert_eq!(snapshots[0].accounts, snapshots[1].accounts);
    assert_eq!(snapshots[3], capture(&state, 0).unwrap());
    let (empty, none) = Engine::replay(&[], vec![]).unwrap();
    assert_eq!(empty, State::new());
    assert!(none.is_empty());
}

#[test]
fn overflow_leaves_the_engine_as_it_was() {
    let most = Decimal::from_parts(MAX_MANTISSA, 0).unwrap();
    let mut e = engine();
    run(&mut e, vec![deposit("a", 100), mark("BTC-PERP", 50000)]);
    let state = e.state.clone();
    let log = e.event_log.clone();
    let snapshots = e.snapshots.clone();
    let r = e.process(EventType::Deposit { account_id: "b".to_string(), amount: most });
    assert_eq!(r, Ok(()));
    let r = e.process(EventType::Deposit { account_id: "b".to_string(), amount: most });
    assert_eq!(r, Err(Overflow));
    let r = e.process(EventType::TradeFill {
        account_id: "a".to_string(),
        market_id: "BTC-PERP".to_string(),
        quantity: most,
        price: n(2),
    });
    assert_eq!(r, Err(Overflow));
    assert_eq!(e.event_log.len(), log.len() + 1);
    assert_eq!(e.snapshots.len(), snapshots.len() + 1);
    assert_eq!(e.state.accounts.get("a"), state.accounts.get("a"));
    assert_eq!(e.next_sequence(), 4);
    assert_gapless(&e);
    let replayed = Engine::replay(
        &[Event { sequence: 1, event_type: deposit("b", 1) }, Event {
            sequence: 2,
            event_type: EventType::Deposit { account_id: "b".to_string(), amount: most },
        }],
        markets(),
    );
    assert_eq!(replayed, Err(Overflow));
}

#[test]
fn snapshots_show_the_state_after_their_event() {
    let mut e = engine();
    run(
        &mut e,
        vec![
            deposit("alice", 100000),
            mark("BTC-PERP", 50000),
            trade("alice", "BTC-PERP", 10, 50000),
            mark("BTC-PERP", 42000),
        ],
    );
    assert_eq!(*e.snapshots.last().unwrap(), capture(&e.state, 4).unwrap());
    let s = e.snapshots[3].accounts.get("alice").unwrap();
    assert_eq!(s.collateral, n(100000));
    assert_eq!(s.unrealized_pnl.normalize(), n(-80000));
    assert_eq!(s.equity.normalize(), n(20000));
    assert_eq!(s.initial_margin_required.normalize(), n(21000));
    assert_eq!(s.maintenance_margin_required.normalize(), n(12600));
    assert!(!s.liquidatable);
    let p = s.positions.get("BTC-PERP").unwrap();
    assert_eq!(p.quantity, n(10));
    assert_eq!(p.cost_basis, n(500000));
    assert_eq!(p.mark_price, n(42000));
    assert_eq!(p.unrealized_pnl.normalize(), n(-80000));
    assert_eq!(p.notional.normalize(), n(420000));
    assert!(e.snapshots[0].accounts.get("alice").unwrap().positions.is_empty());
    assert_eq!(e.snapshots[2].accounts.get("alice").unwrap().positions.get("BTC-PERP").unwrap().mark_price, n(50000));
}

#[test]
fn a_snapshot_values_an_unknown_market_at_zero() {
    let mut state = State::new();
    let mut a = Account::new("a".to_string());
    a.collateral = n(100);
    a.positions.insert(
        "DOGE-PERP".to_string(),
        Position { market_id: "DOGE-PERP".to_string(), quantity: n(4), cost_basis: n(30) },
    );
    state.accounts.insert("a".to_string(), a);
    let s = capture(&state, 9).unwrap();
    assert_eq!(s.after_sequence, 9);
    let p = s.accounts.get("a").unwrap().positions.get("DOGE-PERP").unwrap();
    assert_eq!(p.quantity, n(4));
    assert_eq!(p.cost_basis, n(30));
    assert!(p.mark_price.is_zero());
    assert!(p.notional.is_zero());
    assert!(p.unrealized_pnl.is_zero());
    let a = s.accounts.get("a").unwrap();
    assert!(a.unrealized_pnl.is_zero());
    assert_eq!(a.equity.normalize(), n(100));
    assert!(a.initial_margin_required.is_zero());
    assert!(!a.liquidatable);
}

#[test]
fn get_or_create_account_creates_once() {
    let mut state = State::new();
    state.get_or_create_account("b");
    state.get_or_create_account("a");
    assert_eq!(state.accounts.len(), 2);
    assert_eq!(*state.accounts.get("a").unwrap(), Account::new("a".to_string()));
    let mut changed = Account::new("a".to_string());
    changed.collateral = n(5);
    state.accounts.insert("a".to_string(), changed.clone());
    state.get_or_create_account("a");
    assert_eq!(*state.accounts.get("a").unwrap(), changed);
    assert_eq!(state.accounts.len(), 2);
    state.well_formed();
}

#[test]
fn replay_reports_the_events_rejected_again() {
    let mut e = engine();
    run(
        &mut e,
        vec![
            deposit("bob", 10000),
            mark("ETH-PERP", 3000),
            trade("bob", "ETH-PERP", 20, 3000),
            trade("bob", "ETH-PERP", 20, 3000),
            withdraw("bob", 20000),
            withdraw("ghost", 1),
            deposit("bob", 1),
        ],
    );
    assert_eq!(e.event_log.len(), 10);
    let (state, snapshots, rejections) =
        Engine::replay_with_rejections(&e.event_log, markets()).unwrap();
    assert_eq!(state, e.state);
    assert_eq!(snapshots, e.snapshots);
    assert_eq!(
        rejections,
        vec![
            Rejection {
                sequence: 4,
                reason: "Insufficient margin: equity 10000 < IM required 12000".to_string(),
            },
            Rejection { sequence: 6, reason: "Withdrawal exceeds collateral balance".to_string() },
            Rejection { sequence: 8, reason: "Account does not exist".to_string() },
        ]
    );
    let (plain_state, plain_snapshots) = Engine::replay(&e.event_log, markets()).unwrap();
    assert_eq!(plain_state, state);
    assert_eq!(plain_snapshots, snapshots);
    let (_, _, none) = Engine::replay_with_rejections(&e.event_log[..3], markets()).unwrap();
    assert!(none.is_empty());
}

#[test]
fn no_account_is_liquidatable_after_a_call() {
    let mut e = engine();
    run(
        &mut e,
        vec![
            deposit("amy", 30000),
            deposit("bob", 4000),
            deposit("cat", 50000),
            deposit("dan", 700),
            mark("BTC-PERP", 50000),
            mark("ETH-PERP", 3000),
        ],
    );
    assert_no_scanned_account_is_liquidatable(&e);
    let calls = vec![
        trade("amy", "BTC-PERP", 10, 50000),
        trade("bob", "ETH-PERP", 10, 3000),
        trade("cat", "BTC-PERP", -5, 50000),
        trade("cat", "ETH-PERP", 40, 3000),
        trade("dan", "ETH-PERP", -2, 3000),
        mark("BTC-PERP", 48500),
        mark("ETH-PERP", 2800),
        EventType::FundingUpdate { market_id: "ETH-PERP".to_string(), new_cumulative_index: n(30) },
        mark("BTC-PERP", 56000),
        trade("bob", "BTC-PERP", 1, 56000),
        mark("ETH-PERP", 3300),
        EventType::FundingUpdate { market_id: "BTC-PERP".to_string(), new_cumulative_index: n(-900) },
        mark("DOGE-PERP", 1),
        trade("amy", "ETH-PERP", -400, 3300),
    ];
    let mut fills = 0;
    for call in calls {
        let before = e.event_log.len();
        e.process(call).unwrap();
        fills += e.event_log[before..]
            .iter()
            .filter(|x| matches!(x.event_type, EventType::LiquidationFill { .. }))
            .count();
        assert_no_scanned_account_is_liquidatable(&e);
        assert_gapless(&e);
    }
    assert_eq!(fills, 2);
    let (state, _) = Engine::replay(&e.event_log, markets()).unwrap();
    for i in 0..state.accounts.len() {
        let live = e.state.accounts.value_at(i);
        let replayed = state.accounts.value_at(i);
        assert_eq!(live.collateral, replayed.collateral);
        assert_eq!(live.positions, replayed.positions);
        assert_eq!(live.last_funding, replayed.last_funding);
    }
}
