use cross_margin_engine::decimal::Decimal;
use cross_margin_engine::engine::Engine;
use cross_margin_engine::events::{Event, EventType};
use cross_margin_engine::types::Market;
use serde_json::Value;
use std::str::FromStr;

fn text(d: &Decimal) -> Value {
    Value::String(rust_decimal::Decimal::from_i128_with_scale(d.mantissa(), d.scale()).to_string())
}

fn decimal(v: &Value) -> Decimal {
    let d = rust_decimal::Decimal::from_str(v.as_str().unwrap()).unwrap();
    Decimal::from_parts(d.mantissa(), d.scale()).unwrap()
}

fn string(v: &Value) -> String {
    v.as_str().unwrap().to_string()
}

fn to_line(event: &Event) -> String {
    let mut body = serde_json::Map::new();
    let mut put = |name: &str, value: Value| {
        body.insert(name.to_string(), value);
    };
    match &event.event_type {
        EventType::Deposit { account_id, amount } => {
            put("type", Value::String("Deposit".to_string()));
            put("account_id", Value::String(account_id.clone()));
            put("amount", text(amount));
        }
        EventType::Withdraw { account_id, amount } => {
            put("type", Value::String("Withdraw".to_string()));
            put("account_id", Value::String(account_id.clone()));
            put("amount", text(amount));
        }
        EventType::TradeFill { account_id, market_id, quantity, price } => {
            put("type", Value::String("TradeFill".to_string()));
            put("account_id", Value::String(account_id.clone()));
            put("market_id", Value::String(market_id.clone()));
            put("quantity", text(quantity));
            put("price", text(price));
        }
        EventType::MarkPriceUpdate { market_id, price } => {
            put("type", Value::String("MarkPriceUpdate".to_string()));
            put("market_id", Value::String(market_id.clone()));
            put("price", text(price));
        }
        EventType::FundingUpdate { market_id, new_cumulative_index } => {
            put("type", Value::String("FundingUpdate".to_string()));
            put("market_id", Value::String(market_id.clone()));
            put("new_cumulative_index", text(new_cumulative_index));
        }
        EventType::LiquidationFill { account_id, market_id, quantity, price } => {
            put("type", Value::String("LiquidationFill".to_string()));
            put("account_id", Value::String(account_id.clone()));
            put("market_id", Value::String(market_id.clone()));
            put("quantity", text(quantity));
            put("price", text(price));
        }
        EventType::TradeRejected { account_id, market_id, quantity, price, reason } => {
            put("type", Value::String("TradeRejected".to_string()));
            put("account_id", Value::String(account_id.clone()));
            put("market_id", Value::String(market_id.clone()));
            put("quantity", text(quantity));
            put("price", text(price));
            put("reason", Value::String(reason.clone()));
        }
        EventType::WithdrawalRejected { account_id, amount, reason } => {
            put("type", Value::String("WithdrawalRejected".to_string()));
            put("account_id", Value::String(account_id.clone()));
            put("amount", text(amount));
            put("reason", Value::String(reason.clone()));
        }
    }
    let mut line = serde_json::Map::new();
    line.insert("sequence".to_string(), Value::from(event.sequence));
    line.insert("event_type".to_string(), Value::Object(body));
    serde_json::to_string(&Value::Object(line)).unwrap()
}

fn from_line(line: &str) -> Event {
    let v: Value = serde_json::from_str(line).unwrap();
    let body = &v["event_type"];
    let event_type = match body["type"].as_str().unwrap() {
        "Deposit" => EventType::Deposit {
            account_id: string(&body["account_id"]),
            amount: decimal(&body["amount"]),
        },
        "Withdraw" => EventType::Withdraw {
            account_id: string(&body["account_id"]),
            amount: decimal(&body["amount"]),
        },
        "TradeFill" => EventType::TradeFill {
            account_id: string(&body["account_id"]),
            market_id: string(&body["market_id"]),
            quantity: decimal(&body["quantity"]),
            price: decimal(&body["price"]),
        },
        "MarkPriceUpdate" => EventType::MarkPriceUpdate {
            market_id: string(&body["market_id"]),
            price: decimal(&body["price"]),
        },
        "FundingUpdate" => EventType::FundingUpdate {
            market_id: string(&body["market_id"]),
            new_cumulative_index: decimal(&body["new_cumulative_index"]),
        },
        "LiquidationFill" => EventType::LiquidationFill {
            account_id: string(&body["account_id"]),
            market_id: string(&body["market_id"]),
            quantity: decimal(&body["quantity"]),
            price: decimal(&body["price"]),
        },
        "TradeRejected" => EventType::TradeRejected {
            account_id: string(&body["account_id"]),
            market_id: string(&body["market_id"]),
            quantity: decimal(&body["quantity"]),
            price: decimal(&body["price"]),
            reason: string(&body["reason"]),
        },
        "WithdrawalRejected" => EventType::WithdrawalRejected {
            account_id: string(&body["account_id"]),
            amount: decimal(&body["amount"]),
            reason: string(&body["reason"]),
        },
        other => panic!("unknown variant {other}"),
    };
    Event { sequence: v["sequence"].as_u64().unwrap(), event_type }
}

fn markets() -> Vec<Market> {
    vec![
        Market::new("BTC-PERP".to_string(), Decimal::new(5, 2), Decimal::new(3, 2)),
        Market::new("ETH-PERP".to_string(), Decimal::new(10, 2), Decimal::new(5, 2)),
    ]
}

#[test]
fn a_log_survives_the_wire_and_replays() {
    let mut engine = Engine::new();
    for m in markets() {
        engine.add_market(m);
    }
    let n = |v: i64| Decimal::new(v, 0);
    let events = vec![
        EventType::Deposit { account_id: "alice".to_string(), amount: n(100000) },
        EventType::MarkPriceUpdate { market_id: "BTC-PERP".to_string(), price: n(50000) },
        EventType::TradeFill {
            account_id: "alice".to_string(),
            market_id: "BTC-PERP".to_string(),
            quantity: n(10),
            price: n(50000),
        },
        EventType::Deposit { account_id: "bob".to_string(), amount: Decimal::new(1000050, 2) },
        EventType::MarkPriceUpdate { market_id: "ETH-PERP".to_string(), price: n(3000) },
        EventType::TradeFill {
            account_id: "bob".to_string(),
            market_id: "ETH-PERP".to_string(),
            quantity: n(20),
            price: n(3000),
        },
        EventType::TradeFill {
            account_id: "bob".to_string(),
            market_id: "ETH-PERP".to_string(),
            quantity: n(20),
            price: n(3000),
        },
        EventType::Withdraw { account_id: "bob".to_string(), amount: n(99999) },
        EventType::FundingUpdate {
            market_id: "ETH-PERP".to_string(),
            new_cumulative_index: Decimal::new(150, 2),
        },
        EventType::MarkPriceUpdate { market_id: "BTC-PERP".to_string(), price: n(41000) },
    ];
    for event in events {
        engine.process(event).unwrap();
    }
    assert_eq!(engine.event_log.len(), 13);
    let lines: Vec<String> = engine.event_log.iter().map(to_line).collect();
    let wire = lines.join("\n");
    assert!(wire.contains("\"type\":\"TradeRejected\""));
    assert!(wire.contains("\"type\":\"WithdrawalRejected\""));
    assert!(wire.contains("\"type\":\"LiquidationFill\""));
    assert!(wire.contains("\"amount\":\"10000.50\""));
    assert!(wire.contains("\"new_cumulative_index\":\"1.50\""));
    assert!(wire.contains("\"quantity\":\"-10\""));
    let parsed: Vec<Event> = wire.lines().map(from_line).collect();
    assert_eq!(parsed, engine.event_log);
    let (state, snapshots) = Engine::replay(&parsed, markets()).unwrap();
    assert_eq!(state, engine.state);
    assert_eq!(snapshots, engine.snapshots);
}
