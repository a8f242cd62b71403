//! The entities of the exchange: positions, accounts and markets.

use crate::decimal::{Dec, Decimal};
use crate::ordered_map::{keys_sorted, Duplicate, Key, OrderedMap};
use vstd::prelude::*;

verus! {

/// The identifier of an account.
pub type AccountId = String;

/// The identifier of a market, a short symbol such as `BTC-PERP`.
pub type MarketId = String;

/// An open exposure in one market. A positive quantity is long, a negative
/// one short; the cost basis carries the sign of the fills that built it.
#[derive(Debug, Clone, PartialEq, Eq)]
pub struct Position {
    pub market_id: MarketId,
    pub quantity: Decimal,
    pub cost_basis: Decimal,
}

/// A position as contracts see it.
pub struct PositionView {
    pub market_id: Key,
    pub quantity: Dec,
    pub cost_basis: Dec,
}

impl View for Position {
    type V = PositionView;

    open spec fn view(&self) -> PositionView {
        PositionView {
            market_id: self.market_id@,
            quantity: self.quantity@,
            cost_basis: self.cost_basis@,
        }
    }
}

impl Duplicate for Position {
    fn duplicate(&self) -> (r: Self) {
        Position {
            market_id: self.market_id.clone(),
            quantity: self.quantity,
            cost_basis: self.cost_basis,
        }
    }
}

/// One account: its collateral, its positions by market, the funding index
/// at which it last settled in each market, and the shortfall recorded when
/// its last position was closed.
#[derive(Debug, Clone, PartialEq, Eq)]
pub struct Account {
    pub account_id: AccountId,
    pub collateral: Decimal,
    pub positions: OrderedMap<Position>,
    pub last_funding: OrderedMap<Decimal>,
    pub bankruptcy_deficit: Decimal,
}

/// An account as contracts see it.
pub struct AccountView {
    pub account_id: Key,
    pub collateral: Dec,
    pub positions: Seq<(Key, PositionView)>,
    pub last_funding: Seq<(Key, Dec)>,
    pub bankruptcy_deficit: Dec,
}

impl AccountView {
    /// The positions and the funding marks ascend by market.
    pub open spec fn wf(self) -> bool {
        keys_sorted(self.positions) && keys_sorted(self.last_funding)
    }

    /// An account that has seen no event.
    pub open spec fn fresh(account_id: Key) -> AccountView {
        AccountView {
            account_id,
            collateral: Dec::zero(),
            positions: Seq::empty(),
            last_funding: Seq::empty(),
            bankruptcy_deficit: Dec::zero(),
        }
    }
}

impl View for Account {
    type V = AccountView;

    open spec fn view(&self) -> AccountView {
        AccountView {
            account_id: self.account_id@,
            collateral: self.collateral@,
            positions: self.positions@,
            last_funding: self.last_funding@,
            bankruptcy_deficit: self.bankruptcy_deficit@,
        }
    }
}

impl Duplicate for Account {
    fn duplicate(&self) -> (r: Self) {
        Account {
            account_id: self.account_id.clone(),
            collateral: self.collateral,
            positions: self.positions.duplicate(),
            last_funding: self.last_funding.duplicate(),
            bankruptcy_deficit: self.bankruptcy_deficit,
        }
    }
}

impl Account {
    /// An account that has seen no event: no collateral, no position.
    pub fn new(account_id: AccountId) -> (r: Self)
        ensures
            r@ == AccountView::fresh(account_id@),
    {
        Account {
            account_id,
            collateral: Decimal::zero(),
            positions: OrderedMap::new(),
            last_funding: OrderedMap::new(),
            bankruptcy_deficit: Decimal::zero(),
        }
    }
}

/// The configuration and the current prices of one market.
#[derive(Debug, Clone, PartialEq, Eq)]
pub struct Market {
    pub market_id: MarketId,
    pub mark_price: Decimal,
    pub initial_margin_fraction: Decimal,
    pub maintenance_margin_fraction: Decimal,
    pub cumulative_funding_index: Decimal,
}

/// A market as contracts see it.
pub struct MarketView {
    pub market_id: Key,
    pub mark_price: Dec,
    pub initial_margin_fraction: Dec,
    pub maintenance_margin_fraction: Dec,
    pub cumulative_funding_index: Dec,
}

impl View for Market {
    type V = MarketView;

    open spec fn view(&self) -> MarketView {
        MarketView {
            market_id: self.market_id@,
            mark_price: self.mark_price@,
            initial_margin_fraction: self.initial_margin_fraction@,
            maintenance_margin_fraction: self.maintenance_margin_fraction@,
            cumulative_funding_index: self.cumulative_funding_index@,
        }
    }
}

impl Duplicate for Market {
    fn duplicate(&self) -> (r: Self) {
        Market {
            market_id: self.market_id.clone(),
            mark_price: self.mark_price,
            initial_margin_fraction: self.initial_margin_fraction,
            maintenance_margin_fraction: self.maintenance_margin_fraction,
            cumulative_funding_index: self.cumulative_funding_index,
        }
    }
}

impl Market {
    /// A market with the given margin fractions, a mark price of zero and a
    /// funding index of zero.
    pub fn new(
        market_id: MarketId,
        initial_margin_fraction: Decimal,
        maintenance_margin_fraction: Decimal,
    ) -> (r: Self)
        ensures
            r@ == (MarketView {
                market_id: market_id@,
                mark_price: Dec::zero(),
                initial_margin_fraction: initial_margin_fraction@,
                maintenance_margin_fraction: maintenance_margin_fraction@,
                cumulative_funding_index: Dec::zero(),
            }),
    {
        Market {
            market_id,
            mark_price: Decimal::zero(),
            initial_margin_fraction,
            maintenance_margin_fraction,
            cumulative_funding_index: Decimal::zero(),
        }
    }
}

} // verus!
