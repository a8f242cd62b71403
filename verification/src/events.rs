//! The events of the log. The log is the sole source of truth: replaying it
//! from the same market configuration rebuilds the state.

use crate::decimal::{Dec, Decimal};
use crate::ordered_map::{Duplicate, Key};
use crate::types::{AccountId, MarketId};
use vstd::prelude::*;

verus! {

/// An event with its place in the log.
#[derive(Debug, Clone, PartialEq, Eq)]
pub struct Event {
    pub sequence: u64,
    pub event_type: EventType,
}

/// What happened: the eight kinds of event.
#[derive(Debug, Clone, PartialEq, Eq)]
pub enum EventType {
    Deposit { account_id: AccountId, amount: Decimal },
    Withdraw { account_id: AccountId, amount: Decimal },
    TradeFill { account_id: AccountId, market_id: MarketId, quantity: Decimal, price: Decimal },
    MarkPriceUpdate { market_id: MarketId, price: Decimal },
    FundingUpdate { market_id: MarketId, new_cumulative_index: Decimal },
    LiquidationFill { account_id: AccountId, market_id: MarketId, quantity: Decimal, price: Decimal },
    TradeRejected {
        account_id: AccountId,
        market_id: MarketId,
        quantity: Decimal,
        price: Decimal,
        reason: String,
    },
    WithdrawalRejected { account_id: AccountId, amount: Decimal, reason: String },
}

/// A kind of event as contracts see it.
pub enum EventTypeView {
    Deposit { account_id: Key, amount: Dec },
    Withdraw { account_id: Key, amount: Dec },
    TradeFill { account_id: Key, market_id: Key, quantity: Dec, price: Dec },
    MarkPriceUpdate { market_id: Key, price: Dec },
    FundingUpdate { market_id: Key, new_cumulative_index: Dec },
    LiquidationFill { account_id: Key, market_id: Key, quantity: Dec, price: Dec },
    TradeRejected { account_id: Key, market_id: Key, quantity: Dec, price: Dec, reason: Seq<char> },
    WithdrawalRejected { account_id: Key, amount: Dec, reason: Seq<char> },
}

/// An event as contracts see it.
pub struct EventView {
    pub sequence: u64,
    pub event_type: EventTypeView,
}

impl View for EventType {
    type V = EventTypeView;

    open spec fn view(&self) -> EventTypeView {
        match self {
            EventType::Deposit { account_id, amount } => EventTypeView::Deposit {
                account_id: account_id@,
                amount: amount@,
            },
            EventType::Withdraw { account_id, amount } => EventTypeView::Withdraw {
                account_id: account_id@,
                amount: amount@,
            },
            EventType::TradeFill { account_id, market_id, quantity, price } => {
                EventTypeView::TradeFill {
                    account_id: account_id@,
                    market_id: market_id@,
                    quantity: quantity@,
                    price: price@,
                }
            },
            EventType::MarkPriceUpdate { market_id, price } => EventTypeView::MarkPriceUpdate {
                market_id: market_id@,
                price: price@,
            },
            EventType::FundingUpdate { market_id, new_cumulative_index } => {
                EventTypeView::FundingUpdate {
                    market_id: market_id@,
                    new_cumulative_index: new_cumulative_index@,
                }
            },
            EventType::LiquidationFill { account_id, market_id, quantity, price } => {
                EventTypeView::LiquidationFill {
                    account_id: account_id@,
                    market_id: market_id@,
                    quantity: quantity@,
                    price: price@,
                }
            },
            EventType::TradeRejected { account_id, market_id, quantity, price, reason } => {
                EventTypeView::TradeRejected {
                    account_id: account_id@,
                    market_id: market_id@,
                    quantity: quantity@,
                    price: price@,
                    reason: reason@,
                }
            },
            EventType::WithdrawalRejected { account_id, amount, reason } => {
                EventTypeView::WithdrawalRejected {
                    account_id: account_id@,
                    amount: amount@,
                    reason: reason@,
                }
            },
        }
    }
}

impl View for Event {
    type V = EventView;

    open spec fn view(&self) -> EventView {
        EventView { sequence: self.sequence, event_type: self.event_type@ }
    }
}

impl Duplicate for EventType {
    fn duplicate(&self) -> (r: Self) {
        match self {
            EventType::Deposit { account_id, amount } => EventType::Deposit {
                account_id: account_id.clone(),
                amount: *amount,
            },
            EventType::Withdraw { account_id, amount } => EventType::Withdraw {
                account_id: account_id.clone(),
                amount: *amount,
            },
            EventType::TradeFill { account_id, market_id, quantity, price } => {
                EventType::TradeFill {
                    account_id: account_id.clone(),
                    market_id: market_id.clone(),
                    quantity: *quantity,
                    price: *price,
                }
            },
            EventType::MarkPriceUpdate { market_id, price } => EventType::MarkPriceUpdate {
                market_id: market_id.clone(),
                price: *price,
            },
            EventType::FundingUpdate { market_id, new_cumulative_index } => {
                EventType::FundingUpdate {
                    market_id: market_id.clone(),
                    new_cumulative_index: *new_cumulative_index,
                }
            },
            EventType::LiquidationFill { account_id, market_id, quantity, price } => {
                EventType::LiquidationFill {
                    account_id: account_id.clone(),
                    market_id: market_id.clone(),
                    quantity: *quantity,
                    price: *price,
                }
            },
            EventType::TradeRejected { account_id, market_id, quantity, price, reason } => {
                EventType::TradeRejected {
                    account_id: account_id.clone(),
                    market_id: market_id.clone(),
                    quantity: *quantity,
                    price: *price,
                    reason: reason.clone(),
                }
            },
            EventType::WithdrawalRejected { account_id, amount, reason } => {
                EventType::WithdrawalRejected {
                    account_id: account_id.clone(),
                    amount: *amount,
                    reason: reason.clone(),
                }
            },
        }
    }
}

impl Duplicate for Event {
    fn duplicate(&self) -> (r: Self) {
        Event { sequence: self.sequence, event_type: self.event_type.duplicate() }
    }
}

/// The events of a log as contracts see them.
pub open spec fn events_view(log: Seq<Event>) -> Seq<EventView> {
    log.map_values(|e: Event| e@)
}

} // verus!
