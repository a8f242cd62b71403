use cross_margin_engine::decimal::Decimal;
use cross_margin_engine::engine::Engine;
use cross_margin_engine::events::{Event, EventType};
use cross_margin_engine::types::Market;

fn d(num: i64, scale: u32) -> Decimal {
    Decimal::new(num, scale)
}

fn whole(num: i64) -> Decimal {
    Decimal::new(num, 0)
}

fn engine_with_markets() -> Engine {
    let mut engine = Engine::new();
    engine.add_market(Market::new("BTC-PERP".to_string(), d(5, 2), d(3, 2)));
    engine.add_market(Market::new("ETH-PERP".to_string(), d(10, 2), d(5, 2)));
    engine
}

fn markets() -> Vec<Market> {
    vec![
        Market::new("BTC-PERP".to_string(), d(5, 2), d(3, 2)),
        Market::new("ETH-PERP".to_string(), d(10, 2), d(5, 2)),
    ]
}

fn deposit(engine: &mut Engine, account: &str, amount: i64) {
    engine
        .process(EventType::Deposit { account_id: account.to_string(), amount: whole(amount) })
        .unwrap();
}

fn mark(engine: &mut Engine, market: &str, price: i64) {
    engine
        .process(EventType::MarkPriceUpdate { market_id: market.to_string(), price: whole(price) })
        .unwrap();
}

fn trade(engine: &mut Engine, account: &str, market: &str, quantity: i64, price: i64) {
    engine
        .process(EventType::TradeFill {
            account_id: account.to_string(),
            market_id: market.to_string(),
            quantity: whole(quantity),
            price: whole(price),
        })
        .unwrap();
}

fn collateral(engine: &Engine, account: &str) -> Decimal {
    engine.state.accounts.get(account).unwrap().collateral.normalize()
}

fn last_reason(log: &[Event]) -> String {
    for event in log.iter().rev() {
        if let EventType::TradeRejected { reason, .. } = &event.event_type {
            return reason.clone();
        }
    }
    String::new()
}

#[test]
fn liquidation_chain() {
    let mut engine = engine_with_markets();
    deposit(&mut engine, "alice", 100000);
    mark(&mut engine, "BTC-PERP", 50000);
    trade(&mut engine, "alice", "BTC-PERP", 10, 50000);
    mark(&mut engine, "BTC-PERP", 42000);
    {
        let snapshot = engine.snapshots.last().unwrap();
        let alice = snapshot.accounts.get("alice").unwrap();
        assert_eq!(alice.equity.normalize(), whole(20000));
        assert_eq!(alice.maintenance_margin_required.normalize(), whole(12600));
        assert!(!alice.liquidatable);
        assert_eq!(engine.event_log.len(), 4);
    }
    mark(&mut engine, "BTC-PERP", 41000);
    assert_eq!(engine.event_log.len(), 6);
    assert_eq!(
        engine.event_log[5],
        Event {
            sequence: 6,
            event_type: EventType::LiquidationFill {
                account_id: "alice".to_string(),
                market_id: "BTC-PERP".to_string(),
                quantity: whole(-10),
                price: whole(41000),
            },
        }
    );
    let alice = engine.state.accounts.get("alice").unwrap();
    assert_eq!(alice.collateral.normalize(), whole(10000));
    assert!(alice.positions.is_empty());
    assert!(alice.bankruptcy_deficit.is_zero());
    let before = &engine.snapshots[4];
    let pictured = before.accounts.get("alice").unwrap();
    assert_eq!(pictured.equity.normalize(), whole(10000));
    assert_eq!(pictured.maintenance_margin_required.normalize(), whole(12300));
    assert!(pictured.liquidatable);
}

#[test]
fn rejected_trade() {
    let mut engine = engine_with_markets();
    deposit(&mut engine, "bob", 10000);
    mark(&mut engine, "ETH-PERP", 3000);
    trade(&mut engine, "bob", "ETH-PERP", 20, 3000);
    assert_eq!(engine.event_log.len(), 3);
    let bob = engine.state.accounts.get("bob").unwrap();
    assert_eq!(bob.positions.get("ETH-PERP").unwrap().quantity, whole(20));
    trade(&mut engine, "bob", "ETH-PERP", 20, 3000);
    assert_eq!(engine.event_log.len(), 5);
    assert_eq!(
        engine.event_log[3].event_type,
        EventType::TradeFill {
            account_id: "bob".to_string(),
            market_id: "ETH-PERP".to_string(),
            quantity: whole(20),
            price: whole(3000),
        }
    );
    assert_eq!(
        engine.event_log[4],
        Event {
            sequence: 5,
            event_type: EventType::TradeRejected {
                account_id: "bob".to_string(),
                market_id: "ETH-PERP".to_string(),
                quantity: whole(20),
                price: whole(3000),
                reason: "Insufficient margin: equity 10000 < IM required 12000".to_string(),
            },
        }
    );
    let bob = engine.state.accounts.get("bob").unwrap();
    assert_eq!(bob.positions.get("ETH-PERP").unwrap().quantity, whole(20));
    assert_eq!(engine.snapshots.len(), 5);
    assert_eq!(engine.snapshots[3].accounts, engine.snapshots[4].accounts);
}

#[test]
fn cross_margin_rejection() {
    let mut engine = engine_with_markets();
    deposit(&mut engine, "charlie", 20000);
    mark(&mut engine, "BTC-PERP", 50000);
    mark(&mut engine, "ETH-PERP", 3000);
    trade(&mut engine, "charlie", "BTC-PERP", 5, 50000);
    assert_eq!(engine.event_log.len(), 4);
    trade(&mut engine, "charlie", "ETH-PERP", 30, 3000);
    assert_eq!(engine.event_log.len(), 6);
    assert_eq!(
        last_reason(&engine.event_log),
        "Insufficient margin: equity 20000 < IM required 21500"
    );
    assert!(engine.state.accounts.get("charlie").unwrap().positions.get("ETH-PERP").is_none());
    trade(&mut engine, "charlie", "ETH-PERP", 15, 3000);
    assert_eq!(engine.event_log.len(), 7);
    let charlie = engine.state.accounts.get("charlie").unwrap();
    assert_eq!(charlie.positions.get("ETH-PERP").unwrap().quantity, whole(15));
    let snapshot = engine.snapshots.last().unwrap().accounts.get("charlie").unwrap();
    assert_eq!(snapshot.initial_margin_required.normalize(), whole(17000));
}

#[test]
fn funding_payment() {
    let mut engine = engine_with_markets();
    deposit(&mut engine, "bob", 10000);
    mark(&mut engine, "ETH-PERP", 3000);
    trade(&mut engine, "bob", "ETH-PERP", 20, 3000);
    engine
        .process(EventType::FundingUpdate {
            market_id: "ETH-PERP".to_string(),
            new_cumulative_index: d(150, 2),
        })
        .unwrap();
    let bob = engine.state.accounts.get("bob").unwrap();
    assert_eq!(bob.collateral.normalize(), whole(9970));
    assert_eq!(bob.last_funding.get("ETH-PERP").unwrap().normalize(), d(15, 1));
    assert_eq!(
        engine.state.markets.get("ETH-PERP").unwrap().cumulative_funding_index,
        d(150, 2)
    );
}

#[test]
fn flip() {
    let mut engine = Engine::new();
    engine.add_market(Market::new("X-PERP".to_string(), d(5, 2), d(3, 2)));
    deposit(&mut engine, "d", 100000);
    mark(&mut engine, "X-PERP", 100);
    trade(&mut engine, "d", "X-PERP", 10, 100);
    trade(&mut engine, "d", "X-PERP", -15, 120);
    let account = engine.state.accounts.get("d").unwrap();
    assert_eq!(account.collateral.normalize(), whole(100200));
    let position = account.positions.get("X-PERP").unwrap();
    assert_eq!(position.quantity.normalize(), whole(-5));
    assert_eq!(position.cost_basis.normalize(), whole(-600));
    assert_eq!(collateral(&engine, "d"), whole(100200));
}

#[test]
fn replay_matches_live_engine() {
    let mut engine = engine_with_markets();
    deposit(&mut engine, "alice", 100000);
    mark(&mut engine, "BTC-PERP", 50000);
    trade(&mut engine, "alice", "BTC-PERP", 10, 50000);
    deposit(&mut engine, "bob", 10000);
    mark(&mut engine, "ETH-PERP", 3000);
    trade(&mut engine, "bob", "ETH-PERP", 20, 3000);
    trade(&mut engine, "bob", "ETH-PERP", 20, 3000);
    mark(&mut engine, "BTC-PERP", 41000);
    let (state, snapshots) = Engine::replay(&engine.event_log, markets()).unwrap();
    assert_eq!(state, engine.state);
    assert_eq!(snapshots, engine.snapshots);
}
