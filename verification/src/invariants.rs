//! What holds of the engine across calls: states stay well formed, sequence
//! numbers have no gaps, accounts that were scanned are left in need of no
//! further close, and deposits add up.

use crate::decimal::{dec_add, dec_sub, lemma_add_zero, Dec};
use crate::engine::{
    account_or_fresh, accounts_to_scan, apply_event_model, process_model, scan_step,
    scans_model, settle_account, snapshots_for, traded, EngineView, Step,
};
use crate::events::{EventTypeView, EventView};
use crate::liquidation::{choice_model, liquidation_model, scan_account_model, Pick};
use crate::margin::{equity_model, liquidatable_model, position_pnl};
use crate::ordered_map::{
    has_key, keys_sorted, lemma_erase_sorted, lemma_lookup_absent, lemma_lookup_upsert_other,
    lemma_lookup_upsert_same, lemma_try_map_keys, lemma_upsert_members, lemma_upsert_sorted,
    lookup, try_map_values, upsert, Key,
};
use crate::replay::states_after;
use crate::risk::{fill_effect, trade_model};
use crate::snapshot::{capture_model, SnapshotView};
use crate::state::StateView;
use crate::text::text_lt;
use crate::types::{AccountView, MarketView, PositionView};
use vstd::prelude::*;

verus! {

/// A trade keeps the positions in ascending order.
pub proof fn lemma_trade_keeps_order(
    collateral: Dec,
    positions: Seq<(Key, PositionView)>,
    market_id: Key,
    q_f: Dec,
    p_f: Dec,
)
    requires
        keys_sorted(positions),
    ensures
        trade_model(collateral, positions, market_id, q_f, p_f) matches Some((c, p))
            ==> keys_sorted(p),
{
    lemma_erase_sorted(positions, market_id);
    match trade_model(collateral, positions, market_id, q_f, p_f) {
        Some((c, p)) => {
            let current = lookup(positions, market_id);
            let effect = match current {
                Some(pos) => fill_effect(pos.quantity, pos.cost_basis, q_f, p_f),
                None => fill_effect(Dec::zero(), Dec::zero(), q_f, p_f),
            }->0;
            match effect.holding {
                Some((quantity, cost_basis)) => {
                    let held = PositionView {
                        market_id: if effect.kept && current is Some {
                            current->0.market_id
                        } else {
                            market_id
                        },
                        quantity,
                        cost_basis,
                    };
                    lemma_upsert_sorted(positions, market_id, held);
                },
                None => {},
            }
        },
        None => {},
    }
}

/// Replacing one account by a well-formed one keeps the state well formed.
pub proof fn lemma_account_replaced(state: StateView, account_id: Key, account: AccountView)
    requires
        state.wf(),
        account.wf(),
    ensures
        (StateView { accounts: upsert(state.accounts, account_id, account), ..state }).wf(),
{
    lemma_upsert_sorted(state.accounts, account_id, account);
    lemma_upsert_members(state.accounts, account_id, account);
}

/// A trade of an account keeps the state well formed.
pub proof fn lemma_traded_wf(state: StateView, account_id: Key, market_id: Key, q: Dec, p: Dec)
    requires
        state.wf(),
    ensures
        traded(state, account_id, market_id, q, p) matches Some(s) ==> s.wf(),
{
    let account = account_or_fresh(state.accounts, account_id);
    lemma_trade_keeps_order(account.collateral, account.positions, market_id, q, p);
    match trade_model(account.collateral, account.positions, market_id, q, p) {
        Some((collateral, positions)) => {
            lemma_account_replaced(
                state,
                account_id,
                AccountView { collateral, positions, ..account },
            );
        },
        None => {},
    }
}

/// Every event keeps the state well formed.
pub proof fn lemma_apply_event_wf(state: StateView, event: EventTypeView)
    requires
        state.wf(),
    ensures
        apply_event_model(state, event) matches Some((s, _)) ==> s.wf(),
{
    reveal(apply_event_model);
    match event {
        EventTypeView::Deposit { account_id, amount } => {
            let account = account_or_fresh(state.accounts, account_id);
            match dec_add(account.collateral, amount) {
                Some(collateral) => {
                    lemma_account_replaced(
                        state,
                        account_id,
                        AccountView { collateral, ..account },
                    );
                },
                None => {},
            }
        },
        EventTypeView::Withdraw { account_id, amount } => {
            let account = account_or_fresh(state.accounts, account_id);
            match dec_sub(account.collateral, amount) {
                Some(collateral) => {
                    lemma_account_replaced(
                        state,
                        account_id,
                        AccountView { collateral, ..account },
                    );
                },
                None => {},
            }
        },
        EventTypeView::TradeFill { account_id, market_id, quantity, price } => {
            lemma_traded_wf(state, account_id, market_id, quantity, price);
        },
        EventTypeView::MarkPriceUpdate { market_id, price } => {
            match lookup(state.markets, market_id) {
                Some(m) => {
                    lemma_upsert_sorted(
                        state.markets,
                        market_id,
                        MarketView { mark_price: price, ..m },
                    );
                },
                None => {},
            }
        },
        EventTypeView::FundingUpdate { market_id, new_cumulative_index } => {
            let old_index = match lookup(state.markets, market_id) {
                Some(m) => m.cumulative_funding_index,
                None => Dec::zero(),
            };
            match lookup(state.markets, market_id) {
                Some(m) => {
                    lemma_upsert_sorted(
                        state.markets,
                        market_id,
                        MarketView { cumulative_funding_index: new_cumulative_index, ..m },
                    );
                },
                None => {},
            }
            let f = |e: (Key, AccountView)|
                settle_account(e.1, market_id, old_index, new_cumulative_index);
            match try_map_values(state.accounts, f) {
                Some(accounts) => {
                    lemma_try_map_keys(state.accounts, f);
                    assert forall|i: int, j: int| 0 <= i < j < accounts.len() implies text_lt(
                        accounts[i].0,
                        accounts[j].0,
                    ) by {
                        assert(text_lt(state.accounts[i].0, state.accounts[j].0));
                    }
                    assert forall|i: int| 0 <= i < accounts.len() implies (
                    #[trigger] accounts[i]).1.wf() by {
                        let a = state.accounts[i].1;
                        assert(a.wf());
                        assert(f(state.accounts[i]) == Some(accounts[i].1));
                        lemma_upsert_sorted(a.last_funding, market_id, new_cumulative_index);
                    }
                },
                None => {},
            }
        },
        EventTypeView::LiquidationFill { account_id, market_id, quantity, price } => {
            lemma_traded_wf(state, account_id, market_id, quantity, price);
        },
        EventTypeView::TradeRejected { .. } => {},
        EventTypeView::WithdrawalRejected { .. } => {},
    }
}

/// A portfolio that needs no further close: it is not liquidatable, or it is
/// and none of its positions is in a known market.
pub open spec fn at_rest(
    collateral: Dec,
    positions: Seq<(Key, PositionView)>,
    markets: Seq<(Key, MarketView)>,
) -> bool {
    liquidatable_model(collateral, positions, markets) == Some(false) || (liquidatable_model(
        collateral,
        positions,
        markets,
    ) == Some(true) && choice_model(positions, markets) == Some(None::<Pick>))
}

/// Every position of the portfolio is in a known market.
pub open spec fn markets_known(
    positions: Seq<(Key, PositionView)>,
    markets: Seq<(Key, MarketView)>,
) -> bool {
    forall|i: int| 0 <= i < positions.len() ==> has_key(markets, (#[trigger] positions[i]).0)
}

/// Among positions in known markets one is chosen, unless a notional
/// overflows.
pub proof fn lemma_known_markets_are_chosen(
    positions: Seq<(Key, PositionView)>,
    markets: Seq<(Key, MarketView)>,
)
    requires
        positions.len() > 0,
        markets_known(positions, markets),
    ensures
        choice_model(positions, markets) != Some(None::<Pick>),
    decreases positions.len(),
{
    assert(has_key(markets, positions[positions.len() - 1].0));
    if positions.len() > 1 {
        assert forall|i: int| 0 <= i < positions.drop_last().len() implies has_key(
            markets,
            (#[trigger] positions.drop_last()[i]).0,
        ) by {
            assert(positions.drop_last()[i] == positions[i]);
        }
        lemma_known_markets_are_chosen(positions.drop_last(), markets);
    }
}

/// A portfolio that needs no further close and has all of its positions in
/// known markets is not liquidatable.
pub proof fn lemma_at_rest_is_solvent(
    collateral: Dec,
    positions: Seq<(Key, PositionView)>,
    markets: Seq<(Key, MarketView)>,
)
    requires
        at_rest(collateral, positions, markets),
        markets_known(positions, markets),
    ensures
        liquidatable_model(collateral, positions, markets) == Some(false),
{
    if positions.len() > 0 {
        lemma_known_markets_are_chosen(positions, markets);
    }
}

/// The account of `account_id`, if there is one, needs no further close.
pub open spec fn account_at_rest(state: StateView, account_id: Key) -> bool {
    match lookup(state.accounts, account_id) {
        None => true,
        Some(a) => at_rest(a.collateral, a.positions, state.markets),
    }
}

/// A liquidation ends with a portfolio that needs no further close, its
/// positions still in ascending order.
pub proof fn lemma_liquidation_ends_at_rest(
    collateral: Dec,
    positions: Seq<(Key, PositionView)>,
    markets: Seq<(Key, MarketView)>,
    closed_any: bool,
)
    requires
        keys_sorted(positions),
    ensures
        liquidation_model(collateral, positions, markets, closed_any) matches Some(c) ==> {
            &&& keys_sorted(c.positions)
            &&& at_rest(c.collateral, c.positions, markets)
        },
    decreases positions.len(),
{
    if positions.len() > 0 && liquidatable_model(collateral, positions, markets) == Some(true) {
        match choice_model(positions, markets) {
            Some(Some(pick)) => {
                lemma_trade_keeps_order(
                    collateral,
                    positions,
                    pick.market_id,
                    pick.quantity.neg(),
                    pick.mark_price,
                );
                match trade_model(
                    collateral,
                    positions,
                    pick.market_id,
                    pick.quantity.neg(),
                    pick.mark_price,
                ) {
                    Some((c, p)) => {
                        if p.len() < positions.len() {
                            lemma_liquidation_ends_at_rest(c, p, markets, true);
                        }
                    },
                    None => {},
                }
            },
            _ => {},
        }
    }
}

/// The scan of an account leaves it in need of no further close. It changes
/// no other account and no market, and the state stays well formed.
pub proof fn lemma_scan_ends_at_rest(state: StateView, account_id: Key, next_sequence: u64)
    requires
        state.wf(),
    ensures
        scan_account_model(state, account_id, next_sequence) matches Some(out) ==> {
            &&& out.state.wf()
            &&& out.state.markets == state.markets
            &&& account_at_rest(out.state, account_id)
            &&& forall|other: Key|
                other != account_id ==> lookup(out.state.accounts, other) == lookup(
                    state.accounts,
                    other,
                )
        },
{
    match scan_account_model(state, account_id, next_sequence) {
        Some(out) => {
            match lookup(state.accounts, account_id) {
                Some(account) => {
                    lemma_liquidation_ends_at_rest(
                        account.collateral,
                        account.positions,
                        state.markets,
                        false,
                    );
                    let closing = liquidation_model(
                        account.collateral,
                        account.positions,
                        state.markets,
                        false,
                    )->0;
                    let updated = AccountView {
                        collateral: closing.collateral,
                        positions: closing.positions,
                        bankruptcy_deficit: match closing.deficit {
                            Some(d) => d,
                            None => account.bankruptcy_deficit,
                        },
                        ..account
                    };
                    lemma_account_replaced(state, account_id, updated);
                    lemma_lookup_upsert_same(state.accounts, account_id, updated);
                    assert forall|other: Key| other != account_id implies lookup(
                        out.state.accounts,
                        other,
                    ) == lookup(state.accounts, other) by {
                        lemma_lookup_upsert_other(state.accounts, account_id, updated, other);
                    }
                },
                None => {},
            }
        },
        None => {},
    }
}

/// After the scans of a list of accounts, each of them needs no further
/// close.
pub proof fn lemma_scans_end_at_rest(start: Step, ids: Seq<Key>)
    requires
        start.state.wf(),
    ensures
        scans_model(start, ids) matches Some(step) ==> {
            &&& step.state.wf()
            &&& step.state.markets == start.state.markets
            &&& forall|i: int| 0 <= i < ids.len() ==> account_at_rest(step.state, #[trigger] ids[i])
        },
    decreases ids.len(),
{
    reveal(scan_step);
    if ids.len() > 0 {
        lemma_scans_end_at_rest(start, ids.drop_last());
        match scans_model(start, ids.drop_last()) {
            Some(before) => {
                lemma_scan_ends_at_rest(before.state, ids.last(), before.next_sequence);
                match scans_model(start, ids) {
                    Some(step) => {
                        assert forall|i: int| 0 <= i < ids.len() implies account_at_rest(
                            step.state,
                            #[trigger] ids[i],
                        ) by {
                            if i < ids.len() - 1 {
                                assert(ids[i] == ids.drop_last()[i]);
                            }
                        }
                    },
                    None => {},
                }
            },
            None => {},
        }
    }
}

/// Every account that an event gives cause to scan needs no further close
/// in the state `end`.
pub open spec fn scanned_at_rest(state: StateView, event: EventTypeView, end: StateView) -> bool {
    apply_event_model(state, event) matches Some((after, None)) ==> forall|i: int|
        0 <= i < accounts_to_scan(after, event).len() ==> account_at_rest(
            end,
            #[trigger] accounts_to_scan(after, event)[i],
        )
}

/// After a call of the engine, every account that the call had to scan
/// needs no further close: it holds no position, or its equity is above its
/// maintenance margin, or none of its positions is in a known market. The
/// state stays well formed.
pub proof fn lemma_process_leaves_scanned_at_rest(
    state: StateView,
    next_sequence: u64,
    event: EventTypeView,
)
    requires
        state.wf(),
    ensures
        process_model(state, next_sequence, event) matches Some(step) ==> {
            &&& step.state.wf()
            &&& scanned_at_rest(state, event, step.state)
        },
{
    lemma_apply_event_wf(state, event);
    match process_model(state, next_sequence, event) {
        Some(step) => {
            match apply_event_model(state, event) {
                Some((after, None)) => {
                    let s1 = capture_model(after, next_sequence)->0;
                    lemma_scans_end_at_rest(
                        Step {
                            state: after,
                            events: seq![EventView { sequence: next_sequence, event_type: event }],
                            snapshots: seq![s1],
                            next_sequence: (next_sequence + 1) as u64,
                        },
                        accounts_to_scan(after, event),
                    );
                },
                _ => {},
            }
        },
        None => {},
    }
}

/// The events are numbered `first`, `first + 1`, and so on.
pub open spec fn numbered_from(events: Seq<EventView>, first: int) -> bool {
    forall|i: int| 0 <= i < events.len() ==> (#[trigger] events[i]).sequence == first + i
}

/// There is one snapshot for each event, tagged with the event's sequence.
pub open spec fn tagged(events: Seq<EventView>, snapshots: Seq<SnapshotView>) -> bool {
    &&& snapshots.len() == events.len()
    &&& forall|i: int|
        0 <= i < events.len() ==> (#[trigger] snapshots[i]).after_sequence == events[i].sequence
}

/// The snapshots taken for a list of events are tagged with their sequences.
pub proof fn lemma_snapshots_tagged(state: StateView, events: Seq<EventView>)
    ensures
        snapshots_for(state, events) matches Some(snapshots) ==> tagged(events, snapshots),
    decreases events.len(),
{
    if events.len() > 0 {
        lemma_snapshots_tagged(state, events.drop_last());
        match snapshots_for(state, events) {
            Some(snapshots) => {
                let done = snapshots_for(state, events.drop_last())->0;
                assert forall|i: int| 0 <= i < events.len() implies (
                #[trigger] snapshots[i]).after_sequence == events[i].sequence by {
                    if i < events.len() - 1 {
                        assert(snapshots[i] == done[i]);
                        assert(events[i] == events.drop_last()[i]);
                    }
                }
            },
            None => {},
        }
    }
}

/// What a call has added so far is in step: the events are numbered from
/// `first` without a gap, the counter stands behind the last of them, and
/// every event has its snapshot.
pub open spec fn in_step(step: Step, first: int) -> bool {
    &&& numbered_from(step.events, first)
    &&& step.next_sequence == first + step.events.len()
    &&& tagged(step.events, step.snapshots)
}

/// Scans keep a call in step.
pub proof fn lemma_scans_in_step(start: Step, ids: Seq<Key>, first: int)
    requires
        in_step(start, first),
    ensures
        scans_model(start, ids) matches Some(step) ==> in_step(step, first),
    decreases ids.len(),
{
    reveal(scan_step);
    if ids.len() > 0 {
        lemma_scans_in_step(start, ids.drop_last(), first);
        match scans_model(start, ids.drop_last()) {
            Some(before) => {
                match scan_account_model(before.state, ids.last(), before.next_sequence) {
                    Some(out) => {
                        lemma_snapshots_tagged(out.state, out.events);
                    },
                    None => {},
                }
            },
            None => {},
        }
    }
}

/// The events that a call of the engine adds are numbered from the engine's
/// counter without a gap, the counter moves behind the last of them, and the
/// call adds one snapshot for each event, tagged with its sequence.
pub proof fn lemma_process_in_step(state: StateView, next_sequence: u64, event: EventTypeView)
    ensures
        process_model(state, next_sequence, event) matches Some(step) ==> in_step(
            step,
            next_sequence as int,
        ),
{
    match process_model(state, next_sequence, event) {
        Some(step) => {
            match apply_event_model(state, event) {
                Some((after, None)) => {
                    let s1 = capture_model(after, next_sequence)->0;
                    lemma_scans_in_step(
                        Step {
                            state: after,
                            events: seq![EventView { sequence: next_sequence, event_type: event }],
                            snapshots: seq![s1],
                            next_sequence: (next_sequence + 1) as u64,
                        },
                        accounts_to_scan(after, event),
                        next_sequence as int,
                    );
                },
                _ => {},
            }
        },
        None => {},
    }
}

/// The log has no gap: its events are numbered 1, 2, 3 and so on, the
/// counter stands behind the last of them, and every event has its snapshot.
pub open spec fn gapless(engine: EngineView) -> bool {
    &&& numbered_from(engine.event_log, 1)
    &&& engine.next_sequence == engine.event_log.len() + 1
    &&& tagged(engine.event_log, engine.snapshots)
}

/// The log of a fresh engine has no gap: its first event will be number 1.
pub proof fn lemma_fresh_engine_is_gapless(engine: EngineView)
    requires
        engine.event_log.len() == 0,
        engine.snapshots.len() == 0,
        engine.next_sequence == 1,
    ensures
        gapless(engine),
{
}

/// No call of the engine makes a gap in the log: sequence numbers grow by 1.
pub proof fn lemma_process_keeps_gapless(engine: EngineView, event: EventTypeView)
    requires
        gapless(engine),
    ensures
        process_model(engine.state, engine.next_sequence, event) matches Some(step) ==> gapless(
            engine.after(step),
        ),
{
    lemma_process_in_step(engine.state, engine.next_sequence, event);
}

/// The `Deposit` events of a list of deposits, each an account and an
/// amount.
pub open spec fn deposit_kinds(deposits: Seq<(Key, Dec)>) -> Seq<EventTypeView> {
    deposits.map_values(
        |d: (Key, Dec)| EventTypeView::Deposit { account_id: d.0, amount: d.1 },
    )
}

/// The total of what a list of deposits pays to one account: the sum of its
/// amounts from zero, in the order of the list.
pub open spec fn deposited(deposits: Seq<(Key, Dec)>, account_id: Key) -> Option<Dec>
    decreases deposits.len(),
{
    if deposits.len() == 0 {
        Some(Dec::zero())
    } else {
        match deposited(deposits.drop_last(), account_id) {
            None => None,
            Some(total) => if deposits.last().0 == account_id {
                dec_add(total, deposits.last().1)
            } else {
                Some(total)
            },
        }
    }
}

/// A deposit adds its amount to the collateral of its account, which is made
/// where it does not exist.
pub proof fn lemma_deposit_applied(state: StateView, account_id: Key, amount: Dec)
    ensures
        apply_event_model(state, EventTypeView::Deposit { account_id, amount }) == match dec_add(
            account_or_fresh(state.accounts, account_id).collateral,
            amount,
        ) {
            Some(collateral) => Some(
                (
                    StateView {
                        accounts: upsert(
                            state.accounts,
                            account_id,
                            AccountView {
                                collateral,
                                ..account_or_fresh(state.accounts, account_id)
                            },
                        ),
                        ..state
                    },
                    None::<Seq<char>>,
                ),
            ),
            None => None,
        },
{
    reveal(apply_event_model);
}

/// After deposits and nothing else, on a state that had no account, the
/// collateral of every account is the total of its deposits, and so is its
/// equity: it is the same number, and the same representation unless the
/// total is a zero.
pub proof fn lemma_deposits_total(state: StateView, deposits: Seq<(Key, Dec)>, account_id: Key)
    requires
        state.wf(),
        state.accounts.len() == 0,
    ensures
        states_after(state, deposit_kinds(deposits)) matches Some(after) ==> {
            let account = account_or_fresh(after.accounts, account_id);
            &&& after.wf()
            &&& after.markets == state.markets
            &&& deposited(deposits, account_id) == Some(account.collateral)
            &&& account.positions.len() == 0
            &&& equity_model(account.collateral, account.positions, after.markets) matches Some(e)
            &&& e.units() == account.collateral.units()
            &&& !account.collateral.is_zero() ==> e == account.collateral
        },
    decreases deposits.len(),
{
    let list = deposit_kinds(deposits);
    match states_after(state, list) {
        None => {},
        Some(after) => {
            if deposits.len() == 0 {
                lemma_lookup_absent(state.accounts, account_id);
            } else {
                let (target, amount) = deposits.last();
                assert(list.drop_last() =~= deposit_kinds(deposits.drop_last()));
                assert(list.last() == EventTypeView::Deposit { account_id: target, amount });
                let before = states_after(state, list.drop_last())->0;
                lemma_deposits_total(state, deposits.drop_last(), account_id);
                lemma_deposits_total(state, deposits.drop_last(), target);
                lemma_deposit_applied(before, target, amount);
                let prior = account_or_fresh(before.accounts, target);
                let collateral = dec_add(prior.collateral, amount)->0;
                let updated = AccountView { collateral, ..prior };
                lemma_account_replaced(before, target, updated);
                lemma_lookup_upsert_same(before.accounts, target, updated);
                if account_id != target {
                    lemma_lookup_upsert_other(before.accounts, target, updated, account_id);
                }
            }
            let account = account_or_fresh(after.accounts, account_id);
            assert(account.positions.map_values(
                |e: (Key, PositionView)| position_pnl(e.1, after.markets),
            ) =~= Seq::<Option<Dec>>::empty());
            lemma_add_zero(account.collateral, Dec::zero());
        },
    }
}

} // verus!
