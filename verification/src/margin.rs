//! Portfolio quantities derived from an account and the market prices:
//! unrealized P&L, equity, margin requirements and the liquidation test.
//!
//! Every total is taken over the positions in ascending market order,
//! starting from zero.

use crate::decimal::{
    checked_add, checked_mul, checked_sub, dec_add, dec_mul, dec_sub, less_or_equal, option_dec,
    Dec, Decimal,
};
use crate::ordered_map::{lookup, Key, OrderedMap};
use crate::state::State;
use crate::types::{Account, Market, MarketView, Position, PositionView};
use vstd::prelude::*;

verus! {

/// `mark_price * quantity - cost_basis`.
pub open spec fn pnl_model(quantity: Dec, cost_basis: Dec, mark_price: Dec) -> Option<Dec> {
    match dec_mul(mark_price, quantity) {
        Some(value) => dec_sub(value, cost_basis),
        None => None,
    }
}

/// `|mark_price * quantity|`.
pub open spec fn notional_model(quantity: Dec, mark_price: Dec) -> Option<Dec> {
    match dec_mul(mark_price, quantity) {
        Some(value) => Some(value.abs()),
        None => None,
    }
}

/// The sum of the terms from zero, left to right; `None` where a term is
/// missing or a partial sum overflows.
pub open spec fn sum_model(terms: Seq<Option<Dec>>) -> Option<Dec>
    decreases terms.len(),
{
    if terms.len() == 0 {
        Some(Dec::zero())
    } else {
        match (sum_model(terms.drop_last()), terms.last()) {
            (Some(acc), Some(x)) => dec_add(acc, x),
            _ => None,
        }
    }
}

/// A sum that failed on a prefix fails on the whole.
pub proof fn lemma_sum_fails_on(terms: Seq<Option<Dec>>, n: int)
    requires
        0 <= n <= terms.len(),
        sum_model(terms.take(n)) is None,
    ensures
        sum_model(terms) is None,
    decreases terms.len() - n,
{
    if n < terms.len() {
        assert(terms.take(n + 1).drop_last() =~= terms.take(n));
        lemma_sum_fails_on(terms, n + 1);
    } else {
        assert(terms.take(n) =~= terms);
    }
}

/// The unrealized P&L of one position at its market's mark price; zero
/// where the market is unknown.
pub open spec fn position_pnl(pos: PositionView, markets: Seq<(Key, MarketView)>) -> Option<Dec> {
    match lookup(markets, pos.market_id) {
        Some(m) => pnl_model(pos.quantity, pos.cost_basis, m.mark_price),
        None => Some(Dec::zero()),
    }
}

/// The margin that one position asks for: its notional times the initial or
/// the maintenance fraction of its market; zero where the market is unknown.
pub open spec fn position_margin(
    pos: PositionView,
    markets: Seq<(Key, MarketView)>,
    maintenance: bool,
) -> Option<Dec> {
    match lookup(markets, pos.market_id) {
        Some(m) => match notional_model(pos.quantity, m.mark_price) {
            Some(n) => dec_mul(
                n,
                if maintenance {
                    m.maintenance_margin_fraction
                } else {
                    m.initial_margin_fraction
                },
            ),
            None => None,
        },
        None => Some(Dec::zero()),
    }
}

/// Total unrealized P&L of a portfolio.
pub open spec fn total_pnl(
    positions: Seq<(Key, PositionView)>,
    markets: Seq<(Key, MarketView)>,
) -> Option<Dec> {
    sum_model(positions.map_values(|e: (Key, PositionView)| position_pnl(e.1, markets)))
}

/// Total initial or maintenance margin of a portfolio.
pub open spec fn total_margin(
    positions: Seq<(Key, PositionView)>,
    markets: Seq<(Key, MarketView)>,
    maintenance: bool,
) -> Option<Dec> {
    sum_model(
        positions.map_values(|e: (Key, PositionView)| position_margin(e.1, markets, maintenance)),
    )
}

/// Collateral plus total unrealized P&L.
pub open spec fn equity_model(
    collateral: Dec,
    positions: Seq<(Key, PositionView)>,
    markets: Seq<(Key, MarketView)>,
) -> Option<Dec> {
    match total_pnl(positions, markets) {
        Some(u) => dec_add(collateral, u),
        None => None,
    }
}

/// A portfolio is liquidatable iff it holds a position and its equity is at
/// most its maintenance margin. Without positions nothing is computed.
pub open spec fn liquidatable_model(
    collateral: Dec,
    positions: Seq<(Key, PositionView)>,
    markets: Seq<(Key, MarketView)>,
) -> Option<bool> {
    if positions.len() == 0 {
        Some(false)
    } else {
        match (equity_model(collateral, positions, markets), total_margin(positions, markets, true)) {
            (Some(eq), Some(mm)) => Some(eq.units() <= mm.units()),
            _ => None,
        }
    }
}

/// Unrealized P&L of a single position; `None` on overflow.
pub fn position_unrealized_pnl(quantity: Decimal, cost_basis: Decimal, mark_price: Decimal) -> (r:
    Option<Decimal>)
    ensures
        option_dec(r) == pnl_model(quantity@, cost_basis@, mark_price@),
{
    match checked_mul(&mark_price, &quantity) {
        Some(value) => checked_sub(&value, &cost_basis),
        None => None,
    }
}

/// Notional value of a single position; `None` on overflow.
pub fn position_notional(quantity: Decimal, mark_price: Decimal) -> (r: Option<Decimal>)
    ensures
        option_dec(r) == notional_model(quantity@, mark_price@),
{
    match checked_mul(&mark_price, &quantity) {
        Some(value) => Some(value.abs()),
        None => None,
    }
}

fn pnl_of(pos: &Position, markets: &OrderedMap<Market>) -> (r: Option<Decimal>)
    ensures
        option_dec(r) == position_pnl(pos@, markets@),
{
    match markets.get(pos.market_id.as_str()) {
        Some(m) => position_unrealized_pnl(pos.quantity, pos.cost_basis, m.mark_price),
        None => Some(Decimal::zero()),
    }
}

fn margin_of(pos: &Position, markets: &OrderedMap<Market>, maintenance: bool) -> (r: Option<
    Decimal,
>)
    ensures
        option_dec(r) == position_margin(pos@, markets@, maintenance),
{
    match markets.get(pos.market_id.as_str()) {
        Some(m) => match position_notional(pos.quantity, m.mark_price) {
            Some(n) => {
                let fraction = if maintenance {
                    m.maintenance_margin_fraction
                } else {
                    m.initial_margin_fraction
                };
                checked_mul(&n, &fraction)
            },
            None => None,
        },
        None => Some(Decimal::zero()),
    }
}

/// Total unrealized P&L of a portfolio.
pub(crate) fn portfolio_pnl(positions: &OrderedMap<Position>, markets: &OrderedMap<Market>) -> (r: Option<
    Decimal,
>)
    ensures
        option_dec(r) == total_pnl(positions@, markets@),
{
    let ghost terms = positions@.map_values(|e: (Key, PositionView)| position_pnl(e.1, markets@));
    let n = positions.len();
    let mut sum = Decimal::zero();
    let mut i: usize = 0;
    proof {
        assert(terms.take(0) =~= Seq::<Option<Dec>>::empty());
    }
    while i < n
        invariant
            n == positions@.len(),
            i <= n,
            terms == positions@.map_values(|e: (Key, PositionView)| position_pnl(e.1, markets@)),
            sum_model(terms.take(i as int)) == Some(sum@),
        decreases n - i,
    {
        proof {
            assert(terms.take(i as int + 1).drop_last() =~= terms.take(i as int));
        }
        let term = pnl_of(positions.value_at(i), markets);
        let next = match term {
            Some(x) => checked_add(&sum, &x),
            None => None,
        };
        match next {
            Some(s) => {
                sum = s;
            },
            None => {
                proof {
                    lemma_sum_fails_on(terms, i as int + 1);
                }
                return None;
            },
        }
        i = i + 1;
    }
    proof {
        assert(terms.take(n as int) =~= terms);
    }
    Some(sum)
}

/// Total initial or maintenance margin of a portfolio.
pub(crate) fn portfolio_margin(
    positions: &OrderedMap<Position>,
    markets: &OrderedMap<Market>,
    maintenance: bool,
) -> (r: Option<Decimal>)
    ensures
        option_dec(r) == total_margin(positions@, markets@, maintenance),
{
    let ghost terms = positions@.map_values(
        |e: (Key, PositionView)| position_margin(e.1, markets@, maintenance),
    );
    let n = positions.len();
    let mut sum = Decimal::zero();
    let mut i: usize = 0;
    proof {
        assert(terms.take(0) =~= Seq::<Option<Dec>>::empty());
    }
    while i < n
        invariant
            n == positions@.len(),
            i <= n,
            terms == positions@.map_values(
                |e: (Key, PositionView)| position_margin(e.1, markets@, maintenance),
            ),
            sum_model(terms.take(i as int)) == Some(sum@),
        decreases n - i,
    {
        proof {
            assert(terms.take(i as int + 1).drop_last() =~= terms.take(i as int));
        }
        let term = margin_of(positions.value_at(i), markets, maintenance);
        let next = match term {
            Some(x) => checked_add(&sum, &x),
            None => None,
        };
        match next {
            Some(s) => {
                sum = s;
            },
            None => {
                proof {
                    lemma_sum_fails_on(terms, i as int + 1);
                }
                return None;
            },
        }
        i = i + 1;
    }
    proof {
        assert(terms.take(n as int) =~= terms);
    }
    Some(sum)
}

/// Equity of a portfolio: collateral plus total unrealized P&L.
pub(crate) fn portfolio_equity(
    collateral: Decimal,
    positions: &OrderedMap<Position>,
    markets: &OrderedMap<Market>,
) -> (r: Option<Decimal>)
    ensures
        option_dec(r) == equity_model(collateral@, positions@, markets@),
{
    match portfolio_pnl(positions, markets) {
        Some(u) => checked_add(&collateral, &u),
        None => None,
    }
}

/// Whether a portfolio is liquidatable.
pub(crate) fn portfolio_liquidatable(
    collateral: Decimal,
    positions: &OrderedMap<Position>,
    markets: &OrderedMap<Market>,
) -> (r: Option<bool>)
    ensures
        r == liquidatable_model(collateral@, positions@, markets@),
{
    if positions.is_empty() {
        return Some(false);
    }
    let eq = portfolio_equity(collateral, positions, markets);
    let mm = portfolio_margin(positions, markets, true);
    match (eq, mm) {
        (Some(e), Some(m)) => Some(less_or_equal(&e, &m)),
        _ => None,
    }
}

/// Total unrealized P&L across all positions of an account. A position whose
/// market is unknown contributes zero.
pub fn total_unrealized_pnl(account: &Account, state: &State) -> (r: Option<Decimal>)
    ensures
        option_dec(r) == total_pnl(account@.positions, state@.markets),
{
    portfolio_pnl(&account.positions, &state.markets)
}

/// Portfolio equity: collateral plus total unrealized P&L.
pub fn equity(account: &Account, state: &State) -> (r: Option<Decimal>)
    ensures
        option_dec(r) == equity_model(account@.collateral, account@.positions, state@.markets),
{
    portfolio_equity(account.collateral, &account.positions, &state.markets)
}

/// Initial margin required across all positions. A position whose market is
/// unknown asks for none.
pub fn initial_margin_required(account: &Account, state: &State) -> (r: Option<Decimal>)
    ensures
        option_dec(r) == total_margin(account@.positions, state@.markets, false),
{
    portfolio_margin(&account.positions, &state.markets, false)
}

/// Maintenance margin required across all positions. A position whose market
/// is unknown asks for none.
pub fn maintenance_margin_required(account: &Account, state: &State) -> (r: Option<Decimal>)
    ensures
        option_dec(r) == total_margin(account@.positions, state@.markets, true),
{
    portfolio_margin(&account.positions, &state.markets, true)
}

/// Whether the account is liquidatable: it holds at least one position and
/// its equity is at most its maintenance margin.
pub fn is_liquidatable(account: &Account, state: &State) -> (r: Option<bool>)
    ensures
        r == liquidatable_model(account@.collateral, account@.positions, state@.markets),
{
    portfolio_liquidatable(account.collateral, &account.positions, &state.markets)
}

} // verus!
