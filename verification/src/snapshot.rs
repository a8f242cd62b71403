//! The view of the state that is captured after each event: for every
//! account its margin quantities, and for every position its valuation at the
//! current mark price.

use crate::decimal::{Dec, Decimal};
use crate::margin::{
    equity_model, liquidatable_model, notional_model, pnl_model, portfolio_equity,
    portfolio_liquidatable, portfolio_margin, portfolio_pnl, position_notional,
    position_unrealized_pnl, total_margin, total_pnl,
};
use crate::ordered_map::{
    keys_sorted, lemma_try_map_fails, lemma_try_map_keys, lookup, try_map_values, Duplicate, Key,
    OrderedMap,
};
use crate::state::{State, StateView};
use crate::text::text_lt;
use crate::types::{Account, AccountView, Market, MarketView, Position, PositionView};
use vstd::prelude::*;

verus! {

/// One position at the mark price of its market.
#[derive(Debug, Clone, PartialEq, Eq)]
pub struct PositionSnapshot {
    pub quantity: Decimal,
    pub cost_basis: Decimal,
    pub mark_price: Decimal,
    pub unrealized_pnl: Decimal,
    pub notional: Decimal,
}

/// A position snapshot as contracts see it.
pub struct PositionSnapshotView {
    pub quantity: Dec,
    pub cost_basis: Dec,
    pub mark_price: Dec,
    pub unrealized_pnl: Dec,
    pub notional: Dec,
}

impl View for PositionSnapshot {
    type V = PositionSnapshotView;

    open spec fn view(&self) -> PositionSnapshotView {
        PositionSnapshotView {
            quantity: self.quantity@,
            cost_basis: self.cost_basis@,
            mark_price: self.mark_price@,
            unrealized_pnl: self.unrealized_pnl@,
            notional: self.notional@,
        }
    }
}

impl Duplicate for PositionSnapshot {
    fn duplicate(&self) -> (r: Self) {
        PositionSnapshot {
            quantity: self.quantity,
            cost_basis: self.cost_basis,
            mark_price: self.mark_price,
            unrealized_pnl: self.unrealized_pnl,
            notional: self.notional,
        }
    }
}

/// One account with its margin quantities and its positions.
#[derive(Debug, Clone, PartialEq, Eq)]
pub struct AccountSnapshot {
    pub collateral: Decimal,
    pub equity: Decimal,
    pub unrealized_pnl: Decimal,
    pub initial_margin_required: Decimal,
    pub maintenance_margin_required: Decimal,
    pub liquidatable: bool,
    pub positions: OrderedMap<PositionSnapshot>,
}

/// An account snapshot as contracts see it.
pub struct AccountSnapshotView {
    pub collateral: Dec,
    pub equity: Dec,
    pub unrealized_pnl: Dec,
    pub initial_margin_required: Dec,
    pub maintenance_margin_required: Dec,
    pub liquidatable: bool,
    pub positions: Seq<(Key, PositionSnapshotView)>,
}

impl View for AccountSnapshot {
    type V = AccountSnapshotView;

    open spec fn view(&self) -> AccountSnapshotView {
        AccountSnapshotView {
            collateral: self.collateral@,
            equity: self.equity@,
            unrealized_pnl: self.unrealized_pnl@,
            initial_margin_required: self.initial_margin_required@,
            maintenance_margin_required: self.maintenance_margin_required@,
            liquidatable: self.liquidatable,
            positions: self.positions@,
        }
    }
}

impl Duplicate for AccountSnapshot {
    fn duplicate(&self) -> (r: Self) {
        AccountSnapshot {
            collateral: self.collateral,
            equity: self.equity,
            unrealized_pnl: self.unrealized_pnl,
            initial_margin_required: self.initial_margin_required,
            maintenance_margin_required: self.maintenance_margin_required,
            liquidatable: self.liquidatable,
            positions: self.positions.duplicate(),
        }
    }
}

/// The state as it stood after the event with the sequence `after_sequence`.
#[derive(Debug, Clone, PartialEq, Eq)]
pub struct Snapshot {
    pub after_sequence: u64,
    pub accounts: OrderedMap<AccountSnapshot>,
}

/// A snapshot as contracts see it.
pub struct SnapshotView {
    pub after_sequence: u64,
    pub accounts: Seq<(Key, AccountSnapshotView)>,
}

impl View for Snapshot {
    type V = SnapshotView;

    open spec fn view(&self) -> SnapshotView {
        SnapshotView { after_sequence: self.after_sequence, accounts: self.accounts@ }
    }
}

impl Duplicate for Snapshot {
    fn duplicate(&self) -> (r: Self) {
        Snapshot { after_sequence: self.after_sequence, accounts: self.accounts.duplicate() }
    }
}

/// The snapshots of a list as contracts see them.
pub open spec fn snapshots_view(list: Seq<Snapshot>) -> Seq<SnapshotView> {
    list.map_values(|s: Snapshot| s@)
}

/// The view of an optional snapshot.
pub open spec fn option_snapshot(r: Option<Snapshot>) -> Option<SnapshotView> {
    match r {
        Some(s) => Some(s@),
        None => None,
    }
}

/// One position valued at the mark price of the market that it is keyed by.
/// Where that market is unknown, the mark price, the unrealized P&L and the
/// notional are zero.
pub open spec fn position_snapshot_model(
    entry: (Key, PositionView),
    markets: Seq<(Key, MarketView)>,
) -> Option<PositionSnapshotView> {
    match lookup(markets, entry.0) {
        Some(m) => match (
            pnl_model(entry.1.quantity, entry.1.cost_basis, m.mark_price),
            notional_model(entry.1.quantity, m.mark_price),
        ) {
            (Some(unrealized_pnl), Some(notional)) => Some(
                PositionSnapshotView {
                    quantity: entry.1.quantity,
                    cost_basis: entry.1.cost_basis,
                    mark_price: m.mark_price,
                    unrealized_pnl,
                    notional,
                },
            ),
            _ => None,
        },
        None => Some(
            PositionSnapshotView {
                quantity: entry.1.quantity,
                cost_basis: entry.1.cost_basis,
                mark_price: Dec::zero(),
                unrealized_pnl: Dec::zero(),
                notional: Dec::zero(),
            },
        ),
    }
}

/// One account with its margin quantities and its positions in ascending
/// market order.
pub open spec fn account_snapshot_model(
    account: AccountView,
    markets: Seq<(Key, MarketView)>,
) -> Option<AccountSnapshotView> {
    match (
        equity_model(account.collateral, account.positions, markets),
        total_pnl(account.positions, markets),
        total_margin(account.positions, markets, false),
        total_margin(account.positions, markets, true),
        try_map_values(
            account.positions,
            |e: (Key, PositionView)| position_snapshot_model(e, markets),
        ),
        liquidatable_model(account.collateral, account.positions, markets),
    ) {
        (
            Some(equity),
            Some(unrealized_pnl),
            Some(initial_margin_required),
            Some(maintenance_margin_required),
            Some(positions),
            Some(liquidatable),
        ) => Some(
            AccountSnapshotView {
                collateral: account.collateral,
                equity,
                unrealized_pnl,
                initial_margin_required,
                maintenance_margin_required,
                liquidatable,
                positions,
            },
        ),
        _ => None,
    }
}

/// The snapshot of a state: every account in ascending order of its
/// identifier; `None` where a quantity overflows.
pub open spec fn capture_model(state: StateView, after_sequence: u64) -> Option<SnapshotView> {
    match try_map_values(
        state.accounts,
        |e: (Key, AccountView)| account_snapshot_model(e.1, state.markets),
    ) {
        Some(accounts) => Some(SnapshotView { after_sequence, accounts }),
        None => None,
    }
}

fn capture_position(key: &String, pos: &Position, markets: &OrderedMap<Market>) -> (r: Option<
    PositionSnapshot,
>)
    ensures
        match r {
            Some(s) => position_snapshot_model((key@, pos@), markets@) == Some(s@),
            None => position_snapshot_model((key@, pos@), markets@) is None,
        },
{
    let mark = match markets.get(key.as_str()) {
        Some(m) => m.mark_price,
        None => {
            return Some(
                PositionSnapshot {
                    quantity: pos.quantity,
                    cost_basis: pos.cost_basis,
                    mark_price: Decimal::zero(),
                    unrealized_pnl: Decimal::zero(),
                    notional: Decimal::zero(),
                },
            );
        },
    };
    let unrealized_pnl = position_unrealized_pnl(pos.quantity, pos.cost_basis, mark);
    let notional = position_notional(pos.quantity, mark);
    match (unrealized_pnl, notional) {
        (Some(unrealized_pnl), Some(notional)) => Some(
            PositionSnapshot {
                quantity: pos.quantity,
                cost_basis: pos.cost_basis,
                mark_price: mark,
                unrealized_pnl,
                notional,
            },
        ),
        _ => None,
    }
}

fn capture_positions(positions: &OrderedMap<Position>, markets: &OrderedMap<Market>) -> (r: Option<
    OrderedMap<PositionSnapshot>,
>)
    ensures
        match r {
            Some(s) => try_map_values(
                positions@,
                |e: (Key, PositionView)| position_snapshot_model(e, markets@),
            ) == Some(s@),
            None => try_map_values(
                positions@,
                |e: (Key, PositionView)| position_snapshot_model(e, markets@),
            ) is None,
        },
{
    let ghost f = |e: (Key, PositionView)| position_snapshot_model(e, markets@);
    let n = positions.len();
    let mut out: OrderedMap<PositionSnapshot> = OrderedMap::new();
    let mut i: usize = 0;
    proof {
        assert(positions@.take(0) =~= Seq::<(Key, PositionView)>::empty());
    }
    while i < n
        invariant
            n == positions@.len(),
            i <= n,
            keys_sorted(positions@),
            f == |e: (Key, PositionView)| position_snapshot_model(e, markets@),
            try_map_values(positions@.take(i as int), f) == Some(out@),
        decreases n - i,
    {
        proof {
            assert(positions@.take(i as int + 1).drop_last() =~= positions@.take(i as int));
            lemma_try_map_keys(positions@.take(i as int), f);
        }
        match capture_position(positions.key_at(i), positions.value_at(i), markets) {
            Some(s) => {
                proof {
                    assert forall|j: int| 0 <= j < out@.len() implies text_lt(
                        #[trigger] out@[j].0,
                        positions@[i as int].0,
                    ) by {
                        assert(out@[j].0 == positions@.take(i as int)[j].0);
                        assert(text_lt(positions@[j].0, positions@[i as int].0));
                    }
                }
                out.push_back(positions.key_at(i).clone(), s);
            },
            None => {
                proof {
                    lemma_try_map_fails(positions@, f, i as int + 1);
                }
                return None;
            },
        }
        i = i + 1;
    }
    proof {
        assert(positions@.take(n as int) =~= positions@);
    }
    Some(out)
}

fn capture_account(account: &Account, markets: &OrderedMap<Market>) -> (r: Option<AccountSnapshot>)
    ensures
        match r {
            Some(s) => account_snapshot_model(account@, markets@) == Some(s@),
            None => account_snapshot_model(account@, markets@) is None,
        },
{
    let equity = portfolio_equity(account.collateral, &account.positions, markets);
    let unrealized_pnl = portfolio_pnl(&account.positions, markets);
    let initial = portfolio_margin(&account.positions, markets, false);
    let maintenance = portfolio_margin(&account.positions, markets, true);
    let positions = capture_positions(&account.positions, markets);
    let liquidatable = portfolio_liquidatable(account.collateral, &account.positions, markets);
    match (equity, unrealized_pnl, initial, maintenance, positions, liquidatable) {
        (
            Some(equity),
            Some(unrealized_pnl),
            Some(initial_margin_required),
            Some(maintenance_margin_required),
            Some(positions),
            Some(liquidatable),
        ) => Some(
            AccountSnapshot {
                collateral: account.collateral,
                equity,
                unrealized_pnl,
                initial_margin_required,
                maintenance_margin_required,
                liquidatable,
                positions,
            },
        ),
        _ => None,
    }
}

/// Captures the state after the event with the given sequence; `None` on
/// overflow.
pub fn capture(state: &State, after_sequence: u64) -> (r: Option<Snapshot>)
    ensures
        option_snapshot(r) == capture_model(state@, after_sequence),
{
    let ghost f = |e: (Key, AccountView)| account_snapshot_model(e.1, state@.markets);
    let n = state.accounts.len();
    let mut out: OrderedMap<AccountSnapshot> = OrderedMap::new();
    let mut i: usize = 0;
    proof {
        assert(state@.accounts.take(0) =~= Seq::<(Key, AccountView)>::empty());
    }
    while i < n
        invariant
            n == state@.accounts.len(),
            i <= n,
            keys_sorted(state@.accounts),
            f == |e: (Key, AccountView)| account_snapshot_model(e.1, state@.markets),
            try_map_values(state@.accounts.take(i as int), f) == Some(out@),
        decreases n - i,
    {
        proof {
            assert(state@.accounts.take(i as int + 1).drop_last() =~= state@.accounts.take(
                i as int,
            ));
            lemma_try_map_keys(state@.accounts.take(i as int), f);
        }
        match capture_account(state.accounts.value_at(i), &state.markets) {
            Some(s) => {
                proof {
                    assert forall|j: int| 0 <= j < out@.len() implies text_lt(
                        #[trigger] out@[j].0,
                        state@.accounts[i as int].0,
                    ) by {
                        assert(out@[j].0 == state@.accounts.take(i as int)[j].0);
                        assert(text_lt(
                            state@.accounts[j].0,
                            state@.accounts[i as int].0,
                        ));
                    }
                }
                out.push_back(state.accounts.key_at(i).clone(), s);
            },
            None => {
                proof {
                    lemma_try_map_fails(state@.accounts, f, i as int + 1);
                }
                return None;
            },
        }
        i = i + 1;
    }
    proof {
        assert(state@.accounts.take(n as int) =~= state@.accounts);
    }
    Some(Snapshot { after_sequence, accounts: out })
}

} // verus!
