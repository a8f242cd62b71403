//! Solvency across calls: where no account is liquidatable before a trade
//! fill, a mark price or a funding index is processed, none is after it.
//!
//! This holds of states in which every position is keyed by its own market
//! and every such market is registered, as the engine makes them.

use crate::decimal::{dec_add, dec_sub, Dec};
use crate::engine::{
    account_or_fresh, accounts_to_scan, apply_event_model, process_model, scan_step,
    scans_model, settle_account, traded, Step,
};
use crate::events::{EventTypeView, EventView};
use crate::invariants::{
    lemma_account_replaced, lemma_apply_event_wf, lemma_at_rest_is_solvent,
    lemma_scan_ends_at_rest, lemma_trade_keeps_order, markets_known,
};
use crate::liquidation::{
    choice_model, lemma_choice_is_held, liquidation_model, scan_account_model,
};
use crate::margin::{liquidatable_model, position_margin, position_pnl};
use crate::ordered_map::{
    has_key, keys_sorted, lemma_erase_members, lemma_lookup_at, lemma_lookup_upsert_other,
    lemma_lookup_upsert_same, lemma_rank, lemma_try_map_keys, lemma_upsert_keeps_keys,
    lemma_upsert_members, lemma_upsert_sorted, lookup, rank, upsert, Key,
};
use crate::replay::lemma_rejection_is_inert;
use crate::risk::{fill_effect, trade_model};
use crate::snapshot::capture_model;
use crate::state::{holders, lemma_holders_complete, StateView};
use crate::types::{AccountView, MarketView, PositionView};
use vstd::prelude::*;

verus! {

/// Every position is keyed by its own market.
pub open spec fn keyed_by_market(positions: Seq<(Key, PositionView)>) -> bool {
    forall|i: int| 0 <= i < positions.len() ==> (#[trigger] positions[i]).1.market_id == positions[i].0
}

/// The positions of the account are keyed by their markets, and these are
/// registered.
pub open spec fn account_sound(account: AccountView, markets: Seq<(Key, MarketView)>) -> bool {
    keyed_by_market(account.positions) && markets_known(account.positions, markets)
}

/// The state is well formed and every account is sound.
pub open spec fn sound(state: StateView) -> bool {
    &&& state.wf()
    &&& forall|i: int|
        0 <= i < state.accounts.len() ==> account_sound(
            (#[trigger] state.accounts[i]).1,
            state.markets,
        )
}

/// The account is not liquidatable.
pub open spec fn solvent(account: AccountView, markets: Seq<(Key, MarketView)>) -> bool {
    liquidatable_model(account.collateral, account.positions, markets) == Some(false)
}

/// No account of the state is liquidatable.
pub open spec fn all_solvent(state: StateView) -> bool {
    forall|i: int|
        0 <= i < state.accounts.len() ==> solvent((#[trigger] state.accounts[i]).1, state.markets)
}

/// Two lists of markets value a market alike: it is in both or in neither,
/// with the same mark price and the same margin fractions.
pub open spec fn valued_alike(
    a: Seq<(Key, MarketView)>,
    b: Seq<(Key, MarketView)>,
    market_id: Key,
) -> bool {
    match (lookup(a, market_id), lookup(b, market_id)) {
        (Some(x), Some(y)) => x.mark_price == y.mark_price && x.initial_margin_fraction
            == y.initial_margin_fraction && x.maintenance_margin_fraction
            == y.maintenance_margin_fraction,
        (None, None) => true,
        _ => false,
    }
}

/// Whether a portfolio is liquidatable depends on the markets only through
/// the prices and fractions of the markets of its positions.
pub proof fn lemma_valued_alike(
    collateral: Dec,
    positions: Seq<(Key, PositionView)>,
    a: Seq<(Key, MarketView)>,
    b: Seq<(Key, MarketView)>,
)
    requires
        forall|i: int|
            0 <= i < positions.len() ==> valued_alike(a, b, (#[trigger] positions[i]).1.market_id),
    ensures
        liquidatable_model(collateral, positions, a) == liquidatable_model(collateral, positions, b),
{
    let pa = positions.map_values(|e: (Key, PositionView)| position_pnl(e.1, a));
    let pb = positions.map_values(|e: (Key, PositionView)| position_pnl(e.1, b));
    let ma = positions.map_values(|e: (Key, PositionView)| position_margin(e.1, a, true));
    let mb = positions.map_values(|e: (Key, PositionView)| position_margin(e.1, b, true));
    assert forall|i: int| 0 <= i < positions.len() implies pa[i] == pb[i] && ma[i] == mb[i] by {
        assert(valued_alike(a, b, positions[i].1.market_id));
    }
    assert(pa =~= pb);
    assert(ma =~= mb);
}

/// In a sorted portfolio that has no position under a key, no entry has
/// that key.
pub proof fn lemma_no_entry(positions: Seq<(Key, PositionView)>, k: Key)
    requires
        keys_sorted(positions),
        !has_key(positions, k),
    ensures
        forall|i: int| 0 <= i < positions.len() ==> (#[trigger] positions[i]).0 != k,
{
    assert forall|i: int| 0 <= i < positions.len() implies (#[trigger] positions[i]).0 != k by {
        if positions[i].0 == k {
            lemma_lookup_at(positions, k, i);
        }
    }
}

/// A trade in a registered market keeps a sound portfolio sound.
pub proof fn lemma_trade_keeps_sound(
    collateral: Dec,
    positions: Seq<(Key, PositionView)>,
    markets: Seq<(Key, MarketView)>,
    market_id: Key,
    q_f: Dec,
    p_f: Dec,
)
    requires
        keys_sorted(positions),
        keyed_by_market(positions),
        markets_known(positions, markets),
        has_key(markets, market_id),
    ensures
        trade_model(collateral, positions, market_id, q_f, p_f) matches Some((c, p)) ==> {
            &&& keyed_by_market(p)
            &&& markets_known(p, markets)
        },
{
    match trade_model(collateral, positions, market_id, q_f, p_f) {
        Some((c, p)) => {
            let current = lookup(positions, market_id);
            lemma_rank(positions, market_id);
            let e = (match current {
                Some(pos) => fill_effect(pos.quantity, pos.cost_basis, q_f, p_f),
                None => fill_effect(Dec::zero(), Dec::zero(), q_f, p_f),
            })->0;
            match e.holding {
                Some((quantity, cost_basis)) => {
                    let held = PositionView {
                        market_id: if e.kept && current is Some {
                            current->0.market_id
                        } else {
                            market_id
                        },
                        quantity,
                        cost_basis,
                    };
                    if current is Some {
                        assert(positions[rank(positions, market_id) as int].1.market_id
                            == market_id);
                    }
                    lemma_upsert_members(positions, market_id, held);
                    assert forall|i: int| 0 <= i < p.len() implies (#[trigger] p[i]).1.market_id
                        == p[i].0 && has_key(markets, p[i].0) by {
                        if p[i] != (market_id, held) {
                            let j = choose|j: int| 0 <= j < positions.len() && positions[j] == p[i];
                            assert(positions[j].1.market_id == positions[j].0);
                        }
                    }
                },
                None => {
                    lemma_erase_members(positions, market_id);
                    assert forall|i: int| 0 <= i < p.len() implies (#[trigger] p[i]).1.market_id
                        == p[i].0 && has_key(markets, p[i].0) by {
                        let j = choose|j: int| 0 <= j < positions.len() && positions[j] == p[i];
                        assert(positions[j].1.market_id == positions[j].0);
                    }
                },
            }
        },
        None => {},
    }
}

/// A liquidation keeps a sound portfolio sound.
pub proof fn lemma_liquidation_keeps_sound(
    collateral: Dec,
    positions: Seq<(Key, PositionView)>,
    markets: Seq<(Key, MarketView)>,
    closed_any: bool,
)
    requires
        keys_sorted(positions),
        keyed_by_market(positions),
        markets_known(positions, markets),
    ensures
        liquidation_model(collateral, positions, markets, closed_any) matches Some(c) ==> {
            &&& keyed_by_market(c.positions)
            &&& markets_known(c.positions, markets)
        },
    decreases positions.len(),
{
    if positions.len() > 0 && liquidatable_model(collateral, positions, markets) == Some(true) {
        match choice_model(positions, markets) {
            Some(Some(pick)) => {
                lemma_choice_is_held(positions, markets);
                let i = choose|i: int|
                    0 <= i < positions.len() && (#[trigger] positions[i]).0 == pick.market_id
                        && positions[i].1.quantity == pick.quantity;
                assert(has_key(markets, positions[i].0));
                lemma_trade_keeps_sound(
                    collateral,
                    positions,
                    markets,
                    pick.market_id,
                    pick.quantity.neg(),
                    pick.mark_price,
                );
                lemma_trade_keeps_order(
                    collateral,
                    positions,
                    pick.market_id,
                    pick.quantity.neg(),
                    pick.mark_price,
                );
                match trade_model(
                    collateral,
                    positions,
                    pick.market_id,
                    pick.quantity.neg(),
                    pick.mark_price,
                ) {
                    Some((c, p)) => {
                        if p.len() < positions.len() {
                            lemma_liquidation_keeps_sound(c, p, markets, true);
                        }
                    },
                    None => {},
                }
            },
            _ => {},
        }
    }
}

/// Every account is solvent, or is the account `account_id`, or is among
/// `pending`.
pub open spec fn solvent_but(state: StateView, scanning: Seq<Key>, pending: Seq<Key>) -> bool {
    forall|i: int|
        0 <= i < state.accounts.len() ==> solvent((#[trigger] state.accounts[i]).1, state.markets)
            || scanning.contains(state.accounts[i].0) || pending.contains(state.accounts[i].0)
}

/// The scan of an account makes it solvent and leaves the others as they
/// were.
pub proof fn lemma_scan_keeps_solvency(
    state: StateView,
    account_id: Key,
    next_sequence: u64,
    pending: Seq<Key>,
)
    requires
        sound(state),
        solvent_but(state, seq![account_id], pending),
    ensures
        scan_account_model(state, account_id, next_sequence) matches Some(out) ==> {
            &&& sound(out.state)
            &&& solvent_but(out.state, Seq::empty(), pending)
        },
{
    lemma_scan_ends_at_rest(state, account_id, next_sequence);
    match scan_account_model(state, account_id, next_sequence) {
        Some(out) => {
            match lookup(state.accounts, account_id) {
                Some(account) => {
                    lemma_rank(state.accounts, account_id);
                    let at = rank(state.accounts, account_id) as int;
                    assert(state.accounts[at].1 == account);
                    assert(account_sound(account, state.markets));
                    lemma_liquidation_keeps_sound(
                        account.collateral,
                        account.positions,
                        state.markets,
                        false,
                    );
                    let closing = liquidation_model(
                        account.collateral,
                        account.positions,
                        state.markets,
                        false,
                    )->0;
                    let updated = AccountView {
                        collateral: closing.collateral,
                        positions: closing.positions,
                        bankruptcy_deficit: match closing.deficit {
                            Some(d) => d,
                            None => account.bankruptcy_deficit,
                        },
                        ..account
                    };
                    let t = out.state.accounts;
                    lemma_lookup_upsert_same(state.accounts, account_id, updated);
                    lemma_upsert_members(state.accounts, account_id, updated);
                    lemma_at_rest_is_solvent(updated.collateral, updated.positions, state.markets);
                    assert forall|i: int| 0 <= i < t.len() implies account_sound(
                        (#[trigger] t[i]).1,
                        out.state.markets,
                    ) && (solvent(t[i].1, out.state.markets) || pending.contains(t[i].0)) by {
                        if t[i].0 == account_id {
                            lemma_lookup_at(t, account_id, i);
                        } else {
                            let j = choose|j: int|
                                0 <= j < state.accounts.len() && state.accounts[j] == t[i];
                            assert(account_sound(state.accounts[j].1, state.markets));
                            assert(seq![account_id].contains(state.accounts[j].0) ==> state.accounts[j].0
                                == account_id);
                        }
                    }
                },
                None => {
                    assert forall|i: int| 0 <= i < state.accounts.len() implies solvent(
                        (#[trigger] state.accounts[i]).1,
                        state.markets,
                    ) || pending.contains(state.accounts[i].0) by {
                        if state.accounts[i].0 == account_id {
                            lemma_lookup_at(state.accounts, account_id, i);
                        }
                        assert(seq![account_id].contains(state.accounts[i].0) ==> state.accounts[i].0
                            == account_id);
                    }
                },
            }
        },
        None => {},
    }
}

/// Scans make the accounts of their list solvent and leave the others as
/// they were.
pub proof fn lemma_scans_keep_solvency(start: Step, ids: Seq<Key>, pending: Seq<Key>)
    requires
        sound(start.state),
        solvent_but(start.state, ids, pending),
    ensures
        scans_model(start, ids) matches Some(step) ==> {
            &&& sound(step.state)
            &&& solvent_but(step.state, Seq::empty(), pending)
        },
    decreases ids.len(),
{
    reveal(scan_step);
    if ids.len() == 0 {
        assert forall|i: int| 0 <= i < start.state.accounts.len() implies solvent(
            (#[trigger] start.state.accounts[i]).1,
            start.state.markets,
        ) || pending.contains(start.state.accounts[i].0) by {
            assert(!ids.contains(start.state.accounts[i].0));
        }
    } else {
        let last = ids.last();
        let more = pending.push(last);
        assert forall|i: int| 0 <= i < start.state.accounts.len() implies solvent(
            (#[trigger] start.state.accounts[i]).1,
            start.state.markets,
        ) || ids.drop_last().contains(start.state.accounts[i].0) || more.contains(
            start.state.accounts[i].0,
        ) by {
            let k = start.state.accounts[i].0;
            if ids.contains(k) {
                let n = choose|n: int| 0 <= n < ids.len() && ids[n] == k;
                if n < ids.len() - 1 {
                    assert(ids.drop_last()[n] == k);
                } else {
                    assert(more[pending.len() as int] == k);
                }
            } else if pending.contains(k) {
                let n = choose|n: int| 0 <= n < pending.len() && pending[n] == k;
                assert(more[n] == k);
            }
        }
        lemma_scans_keep_solvency(start, ids.drop_last(), more);
        match scans_model(start, ids.drop_last()) {
            Some(before) => {
                assert forall|i: int| 0 <= i < before.state.accounts.len() implies solvent(
                    (#[trigger] before.state.accounts[i]).1,
                    before.state.markets,
                ) || seq![last].contains(before.state.accounts[i].0) || pending.contains(
                    before.state.accounts[i].0,
                ) by {
                    let k = before.state.accounts[i].0;
                    if more.contains(k) {
                        let n = choose|n: int| 0 <= n < more.len() && more[n] == k;
                        if n < pending.len() {
                            assert(pending[n] == k);
                        } else {
                            assert(seq![last][0] == k);
                        }
                    }
                }
                lemma_scan_keeps_solvency(before.state, last, before.next_sequence, pending);
            },
            None => {},
        }
    }
}

/// The events after which accounts are scanned.
pub open spec fn calls_for_scans(event: EventTypeView) -> bool {
    event is TradeFill || event is MarkPriceUpdate || event is FundingUpdate
}

proof fn lemma_markets_repriced(
    state: StateView,
    market_id: Key,
    changed: MarketView,
    accounts: Seq<(Key, AccountView)>,
    i: int,
)
    requires
        sound(state),
        0 <= i < state.accounts.len(),
    ensures
        markets_known(state.accounts[i].1.positions, upsert(state.markets, market_id, changed)),
{
    let positions = state.accounts[i].1.positions;
    assert(account_sound(state.accounts[i].1, state.markets));
    assert forall|n: int| 0 <= n < positions.len() implies has_key(
        upsert(state.markets, market_id, changed),
        (#[trigger] positions[n]).0,
    ) by {
        lemma_upsert_keeps_keys(state.markets, market_id, changed, positions[n].0);
    }
}

/// After a trade fill every account is solvent or is the account of the
/// fill.
proof fn lemma_trade_fill_leaves_scan_list(state: StateView, event: EventTypeView)
    requires
        sound(state),
        all_solvent(state),
        event is TradeFill,
    ensures
        apply_event_model(state, event) matches Some((after, None)) ==> {
            &&& sound(after)
            &&& solvent_but(after, accounts_to_scan(after, event), Seq::empty())
        },
{
    reveal(apply_event_model);
    let account_id = event->TradeFill_account_id;
    let market_id = event->TradeFill_market_id;
    let quantity = event->TradeFill_quantity;
    let price = event->TradeFill_price;
    lemma_apply_event_wf(state, event);
    match apply_event_model(state, event) {
        Some((after, None)) => {
            let account = lookup(state.accounts, account_id)->0;
            lemma_rank(state.accounts, account_id);
            let at = rank(state.accounts, account_id) as int;
            assert(account_sound(state.accounts[at].1, state.markets));
            lemma_trade_keeps_sound(
                account.collateral,
                account.positions,
                state.markets,
                market_id,
                quantity,
                price,
            );
            let traded_to = trade_model(
                account.collateral,
                account.positions,
                market_id,
                quantity,
                price,
            )->0;
            let updated = AccountView {
                collateral: traded_to.0,
                positions: traded_to.1,
                ..account
            };
            lemma_upsert_members(state.accounts, account_id, updated);
            let t = after.accounts;
            assert forall|i: int| 0 <= i < t.len() implies account_sound(
                (#[trigger] t[i]).1,
                after.markets,
            ) && (solvent(t[i].1, after.markets) || seq![account_id].contains(t[i].0)) by {
                if t[i] == (account_id, updated) {
                    assert(seq![account_id][0] == account_id);
                } else {
                    let j = choose|j: int|
                        0 <= j < state.accounts.len() && state.accounts[j] == t[i];
                    assert(account_sound(state.accounts[j].1, state.markets));
                }
            }
        },
        _ => {},
    }
}

/// After a mark price every account is solvent or holds a position in the
/// market.
proof fn lemma_mark_price_leaves_scan_list(state: StateView, event: EventTypeView)
    requires
        sound(state),
        all_solvent(state),
        event is MarkPriceUpdate,
    ensures
        apply_event_model(state, event) matches Some((after, None)) ==> {
            &&& sound(after)
            &&& solvent_but(after, accounts_to_scan(after, event), Seq::empty())
        },
{
    reveal(apply_event_model);
    let market_id = event->MarkPriceUpdate_market_id;
    let price = event->MarkPriceUpdate_price;
    lemma_apply_event_wf(state, event);
    match apply_event_model(state, event) {
        Some((after, None)) => {
            match lookup(state.markets, market_id) {
                Some(m) => {
                    let changed = MarketView { mark_price: price, ..m };
                    assert forall|i: int| 0 <= i < after.accounts.len() implies account_sound(
                        (#[trigger] after.accounts[i]).1,
                        after.markets,
                    ) && (solvent(after.accounts[i].1, after.markets) || holders(
                        after.accounts,
                        market_id,
                    ).contains(after.accounts[i].0)) by {
                        let a = state.accounts[i].1;
                        assert(account_sound(a, state.markets));
                        lemma_markets_repriced(state, market_id, changed, state.accounts, i);
                        if has_key(a.positions, market_id) {
                            lemma_holders_complete(state.accounts, market_id, i);
                        } else {
                            lemma_no_entry(a.positions, market_id);
                            assert forall|n: int| 0 <= n < a.positions.len() implies valued_alike(
                                state.markets,
                                after.markets,
                                (#[trigger] a.positions[n]).1.market_id,
                            ) by {
                                lemma_lookup_upsert_other(
                                    state.markets,
                                    market_id,
                                    changed,
                                    a.positions[n].1.market_id,
                                );
                            }
                            lemma_valued_alike(
                                a.collateral,
                                a.positions,
                                state.markets,
                                after.markets,
                            );
                        }
                    }
                },
                None => {},
            }
        },
        _ => {},
    }
}

/// After a funding index every account is solvent or holds a position in
/// the market.
proof fn lemma_funding_leaves_scan_list(state: StateView, event: EventTypeView)
    requires
        sound(state),
        all_solvent(state),
        event is FundingUpdate,
    ensures
        apply_event_model(state, event) matches Some((after, None)) ==> {
            &&& sound(after)
            &&& solvent_but(after, accounts_to_scan(after, event), Seq::empty())
        },
{
    reveal(apply_event_model);
    let market_id = event->FundingUpdate_market_id;
    let new_cumulative_index = event->FundingUpdate_new_cumulative_index;
    lemma_apply_event_wf(state, event);
    match apply_event_model(state, event) {
        Some((after, None)) => {
            let old_index = match lookup(state.markets, market_id) {
                Some(m) => m.cumulative_funding_index,
                None => Dec::zero(),
            };
            let f = |e: (Key, AccountView)|
                settle_account(e.1, market_id, old_index, new_cumulative_index);
            lemma_try_map_keys(state.accounts, f);
            assert forall|id: Key| valued_alike(state.markets, after.markets, id) by {
                match lookup(state.markets, market_id) {
                    Some(m) => {
                        let changed = MarketView {
                            cumulative_funding_index: new_cumulative_index,
                            ..m
                        };
                        if id == market_id {
                            lemma_lookup_upsert_same(state.markets, market_id, changed);
                        } else {
                            lemma_lookup_upsert_other(state.markets, market_id, changed, id);
                        }
                    },
                    None => {},
                }
            }
            assert forall|i: int| 0 <= i < after.accounts.len() implies account_sound(
                (#[trigger] after.accounts[i]).1,
                after.markets,
            ) && (solvent(after.accounts[i].1, after.markets) || holders(
                after.accounts,
                market_id,
            ).contains(after.accounts[i].0)) by {
                let a = state.accounts[i].1;
                let b = after.accounts[i].1;
                assert(f(state.accounts[i]) == Some(b));
                assert(account_sound(a, state.markets));
                assert(b.positions == a.positions);
                match lookup(state.markets, market_id) {
                    Some(m) => {
                        lemma_markets_repriced(
                            state,
                            market_id,
                            MarketView {
                                cumulative_funding_index: new_cumulative_index,
                                ..m
                            },
                            state.accounts,
                            i,
                        );
                    },
                    None => {},
                }
                if has_key(a.positions, market_id) {
                    lemma_holders_complete(after.accounts, market_id, i);
                } else {
                    assert(b == a);
                    assert forall|n: int| 0 <= n < a.positions.len() implies valued_alike(
                        state.markets,
                        after.markets,
                        (#[trigger] a.positions[n]).1.market_id,
                    ) by {}
                    lemma_valued_alike(
                        a.collateral,
                        a.positions,
                        state.markets,
                        after.markets,
                    );
                }
            }
        },
        _ => {},
    }
}

/// After a trade fill, a mark price or a funding index, every account is
/// solvent or is about to be scanned.
pub proof fn lemma_event_leaves_scan_list(state: StateView, event: EventTypeView)
    requires
        sound(state),
        all_solvent(state),
        calls_for_scans(event),
    ensures
        apply_event_model(state, event) matches Some((after, None)) ==> {
            &&& sound(after)
            &&& solvent_but(after, accounts_to_scan(after, event), Seq::empty())
        },
{
    match event {
        EventTypeView::TradeFill { account_id, market_id, quantity, price } => {
            lemma_trade_fill_leaves_scan_list(state, event);
        },
        EventTypeView::MarkPriceUpdate { market_id, price } => {
            lemma_mark_price_leaves_scan_list(state, event);
        },
        EventTypeView::FundingUpdate { market_id, new_cumulative_index } => {
            lemma_funding_leaves_scan_list(state, event);
        },
        _ => {},
    }
}

/// Where no account is liquidatable before a trade fill, a mark price or a
/// funding index is processed, none is when the call returns: an account
/// that the event brought to its maintenance margin was liquidated in the
/// call. The state is sound before the call, and stays so.
pub proof fn lemma_process_leaves_all_solvent(
    state: StateView,
    next_sequence: u64,
    event: EventTypeView,
)
    requires
        sound(state),
        all_solvent(state),
        calls_for_scans(event),
    ensures
        process_model(state, next_sequence, event) matches Some(step) ==> {
            &&& sound(step.state)
            &&& all_solvent(step.state)
        },
{
    lemma_event_leaves_scan_list(state, event);
    lemma_rejection_is_inert(state, event);
    match process_model(state, next_sequence, event) {
        Some(step) => {
            match apply_event_model(state, event) {
                Some((after, None)) => {
                    let s1 = capture_model(after, next_sequence)->0;
                    let start = Step {
                        state: after,
                        events: seq![EventView { sequence: next_sequence, event_type: event }],
                        snapshots: seq![s1],
                        next_sequence: (next_sequence + 1) as u64,
                    };
                    lemma_scans_keep_solvency(
                        start,
                        accounts_to_scan(after, event),
                        Seq::empty(),
                    );
                    assert forall|i: int| 0 <= i < step.state.accounts.len() implies solvent(
                        (#[trigger] step.state.accounts[i]).1,
                        step.state.markets,
                    ) by {
                        assert(!Seq::<Key>::empty().contains(step.state.accounts[i].0));
                    }
                },
                _ => {},
            }
        },
        None => {},
    }
}

/// The event is no forced close in a market that is not registered.
pub open spec fn in_known_market(state: StateView, event: EventTypeView) -> bool {
    event matches EventTypeView::LiquidationFill { market_id, .. } ==> has_key(
        state.markets,
        market_id,
    )
}

proof fn lemma_replaced_keeps_sound(state: StateView, account_id: Key, account: AccountView)
    requires
        sound(state),
        account.wf(),
        account_sound(account, state.markets),
    ensures
        sound(StateView { accounts: upsert(state.accounts, account_id, account), ..state }),
{
    lemma_account_replaced(state, account_id, account);
    lemma_upsert_members(state.accounts, account_id, account);
    let t = upsert(state.accounts, account_id, account);
    assert forall|i: int| 0 <= i < t.len() implies account_sound((#[trigger] t[i]).1, state.markets) by {
        if t[i] != (account_id, account) {
            let j = choose|j: int| 0 <= j < state.accounts.len() && state.accounts[j] == t[i];
            assert(account_sound(state.accounts[j].1, state.markets));
        }
    }
}

proof fn lemma_account_is_sound(state: StateView, account_id: Key)
    requires
        sound(state),
    ensures
        account_sound(account_or_fresh(state.accounts, account_id), state.markets),
        account_or_fresh(state.accounts, account_id).wf(),
{
    lemma_rank(state.accounts, account_id);
    if has_key(state.accounts, account_id) {
        let at = rank(state.accounts, account_id) as int;
        assert(account_sound(state.accounts[at].1, state.markets));
        assert(state.accounts[at].1.wf());
    }
}

/// Every event keeps a sound state sound, but a forced close in a market
/// that is not registered.
pub proof fn lemma_event_keeps_sound(state: StateView, event: EventTypeView)
    requires
        sound(state),
        in_known_market(state, event),
    ensures
        apply_event_model(state, event) matches Some((after, _)) ==> sound(after),
{
    reveal(apply_event_model);
    lemma_apply_event_wf(state, event);
    match apply_event_model(state, event) {
        Some((after, outcome)) => {
            match event {
                EventTypeView::Deposit { account_id, amount } => {
                    lemma_account_is_sound(state, account_id);
                    let account = account_or_fresh(state.accounts, account_id);
                    let collateral = dec_add(account.collateral, amount)->0;
                    lemma_replaced_keeps_sound(
                        state,
                        account_id,
                        AccountView { collateral, ..account },
                    );
                },
                EventTypeView::Withdraw { account_id, amount } => {
                    if outcome is None {
                        lemma_account_is_sound(state, account_id);
                        let account = account_or_fresh(state.accounts, account_id);
                        let collateral = dec_sub(account.collateral, amount)->0;
                        lemma_replaced_keeps_sound(
                            state,
                            account_id,
                            AccountView { collateral, ..account },
                        );
                    }
                },
                EventTypeView::TradeFill { account_id, market_id, quantity, price } => {
                    if outcome is None {
                        lemma_traded_keeps_sound(state, account_id, market_id, quantity, price);
                    }
                },
                EventTypeView::MarkPriceUpdate { market_id, price } => {
                    match lookup(state.markets, market_id) {
                        Some(m) => {
                            assert forall|i: int| 0 <= i < after.accounts.len() implies account_sound(
                                (#[trigger] after.accounts[i]).1,
                                after.markets,
                            ) by {
                                assert(account_sound(state.accounts[i].1, state.markets));
                                lemma_markets_repriced(
                                    state,
                                    market_id,
                                    MarketView { mark_price: price, ..m },
                                    state.accounts,
                                    i,
                                );
                            }
                        },
                        None => {},
                    }
                },
                EventTypeView::FundingUpdate { market_id, new_cumulative_index } => {
                    let old_index = match lookup(state.markets, market_id) {
                        Some(m) => m.cumulative_funding_index,
                        None => Dec::zero(),
                    };
                    let f = |e: (Key, AccountView)|
                        settle_account(e.1, market_id, old_index, new_cumulative_index);
                    lemma_try_map_keys(state.accounts, f);
                    assert forall|i: int| 0 <= i < after.accounts.len() implies account_sound(
                        (#[trigger] after.accounts[i]).1,
                        after.markets,
                    ) by {
                        assert(f(state.accounts[i]) == Some(after.accounts[i].1));
                        assert(account_sound(state.accounts[i].1, state.markets));
                        assert(after.accounts[i].1.positions == state.accounts[i].1.positions);
                        match lookup(state.markets, market_id) {
                            Some(m) => {
                                lemma_markets_repriced(
                                    state,
                                    market_id,
                                    MarketView {
                                        cumulative_funding_index: new_cumulative_index,
                                        ..m
                                    },
                                    state.accounts,
                                    i,
                                );
                            },
                            None => {},
                        }
                    }
                },
                EventTypeView::LiquidationFill { account_id, market_id, quantity, price } => {
                    lemma_traded_keeps_sound(state, account_id, market_id, quantity, price);
                },
                _ => {},
            }
        },
        None => {},
    }
}

proof fn lemma_traded_keeps_sound(
    state: StateView,
    account_id: Key,
    market_id: Key,
    quantity: Dec,
    price: Dec,
)
    requires
        sound(state),
        has_key(state.markets, market_id),
    ensures
        traded(state, account_id, market_id, quantity, price) matches Some(after) ==> sound(after),
{
    lemma_account_is_sound(state, account_id);
    let account = account_or_fresh(state.accounts, account_id);
    lemma_trade_keeps_sound(
        account.collateral,
        account.positions,
        state.markets,
        market_id,
        quantity,
        price,
    );
    lemma_trade_keeps_order(
        account.collateral,
        account.positions,
        market_id,
        quantity,
        price,
    );
    match trade_model(account.collateral, account.positions, market_id, quantity, price) {
        Some((collateral, positions)) => {
            lemma_replaced_keeps_sound(
                state,
                account_id,
                AccountView { collateral, positions, ..account },
            );
        },
        None => {},
    }
}

/// Every call of the engine keeps a sound state sound, but one with a
/// forced close in a market that is not registered.
pub proof fn lemma_process_keeps_sound(state: StateView, next_sequence: u64, event: EventTypeView)
    requires
        sound(state),
        in_known_market(state, event),
    ensures
        process_model(state, next_sequence, event) matches Some(step) ==> sound(step.state),
{
    lemma_event_keeps_sound(state, event);
    match process_model(state, next_sequence, event) {
        Some(step) => {
            match apply_event_model(state, event) {
                Some((after, None)) => {
                    let s1 = capture_model(after, next_sequence)->0;
                    let start = Step {
                        state: after,
                        events: seq![EventView { sequence: next_sequence, event_type: event }],
                        snapshots: seq![s1],
                        next_sequence: (next_sequence + 1) as u64,
                    };
                    let everyone = after.accounts.map_values(|e: (Key, AccountView)| e.0);
                    assert forall|i: int| 0 <= i < after.accounts.len() implies everyone.contains(
                        (#[trigger] after.accounts[i]).0,
                    ) by {
                        assert(everyone[i] == after.accounts[i].0);
                    }
                    lemma_scans_keep_solvency(start, accounts_to_scan(after, event), everyone);
                },
                _ => {},
            }
        },
        None => {},
    }
}

/// Registering a market, or replacing one, keeps a sound state sound.
pub proof fn lemma_market_added_keeps_sound(state: StateView, market: MarketView)
    requires
        sound(state),
    ensures
        sound(StateView { markets: upsert(state.markets, market.market_id, market), ..state }),
{
    lemma_upsert_sorted(state.markets, market.market_id, market);
    assert forall|i: int| 0 <= i < state.accounts.len() implies account_sound(
        (#[trigger] state.accounts[i]).1,
        upsert(state.markets, market.market_id, market),
    ) by {
        assert(account_sound(state.accounts[i].1, state.markets));
        lemma_markets_repriced(state, market.market_id, market, state.accounts, i);
    }
}

} // verus!
