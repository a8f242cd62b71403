//! Replay determinism: the log of a live engine replays to the state that
//! the engine reached and to the snapshots that it took.
//!
//! Two things stand between a live engine and the replay of its log. A scan
//! records a bankruptcy deficit, and no event of the log does: the two
//! states are compared with the deficits left aside, and are the same where
//! none is recorded. A scan that closes several positions takes all of its
//! snapshots after the last close: the lists of snapshots are compared for
//! calls whose scans close one position at most, and the latest snapshot
//! for every call.

use crate::decimal::{dec_add, dec_sub, Dec};
use crate::engine::{
    account_or_fresh, accounts_to_scan, apply_event_model, process_model, rejection_of,
    replay_from, replay_step, scan_step, scans_model, settle_account, snapshots_for, traded,
    EngineView, Step,
};
use crate::events::{EventTypeView, EventView};
use crate::invariants::{
    lemma_account_replaced, lemma_apply_event_wf, lemma_scan_ends_at_rest,
    lemma_trade_keeps_order,
};
use crate::liquidation::{choice_model, liquidation_model, scan_account_model, FillView};
use crate::ordered_map::{
    has_key, lemma_lookup_upsert_same, lemma_rank, lemma_try_map_keys, lemma_upsert_members,
    lemma_upsert_same, lemma_upsert_upsert, lookup, rank, try_map_values, upsert, Key,
};
use crate::risk::{check_trade_model, check_withdrawal_model, trade_model};
use crate::snapshot::{account_snapshot_model, capture_model, SnapshotView};
use crate::state::{holders, StateView};
use crate::types::{AccountView, MarketView, PositionView};
use vstd::prelude::*;

verus! {

/// The state after a list of events, each applied in turn; a rejected event
/// leaves the state as it was.
pub open spec fn states_after(state: StateView, events: Seq<EventTypeView>) -> Option<StateView>
    decreases events.len(),
{
    if events.len() == 0 {
        Some(state)
    } else {
        match states_after(state, events.drop_last()) {
            None => None,
            Some(s) => match apply_event_model(s, events.last()) {
                None => None,
                Some((after, _)) => Some(after),
            },
        }
    }
}

/// Applying two lists of events one after the other is applying their
/// concatenation.
pub proof fn lemma_states_after_concat(
    state: StateView,
    first: Seq<EventTypeView>,
    second: Seq<EventTypeView>,
)
    ensures
        states_after(state, first + second) == match states_after(state, first) {
            Some(s) => states_after(s, second),
            None => None,
        },
    decreases second.len(),
{
    if second.len() == 0 {
        assert(first + second =~= first);
    } else {
        assert((first + second).drop_last() =~= first + second.drop_last());
        assert((first + second).last() == second.last());
        lemma_states_after_concat(state, first, second.drop_last());
    }
}

/// The kinds of a list of events, without their sequences.
pub open spec fn kinds(events: Seq<EventView>) -> Seq<EventTypeView> {
    events.map_values(|e: EventView| e.event_type)
}

/// The state in which a replay ends is the state after the events of the
/// log.
pub proof fn lemma_replay_state(state: StateView, log: Seq<EventView>)
    ensures
        replay_from(state, log) matches Some((s, _)) ==> states_after(state, kinds(log)) == Some(s),
    decreases log.len(),
{
    reveal(replay_step);
    if log.len() > 0 {
        lemma_replay_state(state, log.drop_last());
        assert(kinds(log).drop_last() =~= kinds(log.drop_last()));
    }
}

/// The kinds of the events that record a list of forced closes.
pub open spec fn fill_kinds(account_id: Key, fills: Seq<FillView>) -> Seq<EventTypeView> {
    fills.map_values(
        |f: FillView|
            EventTypeView::LiquidationFill {
                account_id,
                market_id: f.market_id,
                quantity: f.quantity,
                price: f.price,
            },
    )
}

/// The state with the collateral and the positions of one account replaced.
pub open spec fn with_portfolio(
    state: StateView,
    account_id: Key,
    account: AccountView,
    collateral: Dec,
    positions: Seq<(Key, PositionView)>,
) -> StateView {
    StateView {
        accounts: upsert(
            state.accounts,
            account_id,
            AccountView { collateral, positions, ..account },
        ),
        ..state
    }
}

/// A liquidation that closes something starts with the close of the chosen
/// position and goes on from the portfolio that this close leaves. One that
/// closes nothing leaves the portfolio as it was.
pub proof fn lemma_liquidation_unfolds(
    collateral: Dec,
    positions: Seq<(Key, PositionView)>,
    markets: Seq<(Key, MarketView)>,
    closed_any: bool,
)
    ensures
        liquidation_model(collateral, positions, markets, closed_any) matches Some(closing) ==> {
            if closing.fills.len() == 0 {
                closing.collateral == collateral && closing.positions == positions
            } else {
                &&& choice_model(positions, markets) matches Some(Some(pick))
                &&& trade_model(
                    collateral,
                    positions,
                    pick.market_id,
                    pick.quantity.neg(),
                    pick.mark_price,
                ) matches Some((c, p))
                &&& p.len() < positions.len()
                &&& liquidation_model(c, p, markets, true) matches Some(rest)
                &&& closing.collateral == rest.collateral
                &&& closing.positions == rest.positions
                &&& closing.deficit == rest.deficit
                &&& closing.fills == seq![
                    FillView {
                        market_id: pick.market_id,
                        quantity: pick.quantity.neg(),
                        price: pick.mark_price,
                    },
                ] + rest.fills
            }
        },
{
}

/// A `LiquidationFill` for an account that exists is a trade on its
/// portfolio.
pub proof fn lemma_fill_applied(
    state: StateView,
    account_id: Key,
    account: AccountView,
    market_id: Key,
    quantity: Dec,
    price: Dec,
)
    requires
        lookup(state.accounts, account_id) == Some(account),
    ensures
        states_after(
            state,
            seq![EventTypeView::LiquidationFill { account_id, market_id, quantity, price }],
        ) == match trade_model(account.collateral, account.positions, market_id, quantity, price) {
            Some((c, p)) => Some(with_portfolio(state, account_id, account, c, p)),
            None => None,
        },
{
    reveal(apply_event_model);
    let head = seq![EventTypeView::LiquidationFill { account_id, market_id, quantity, price }];
    assert(head.drop_last() =~= Seq::<EventTypeView>::empty());
    assert(states_after(state, head.drop_last()) == Some(state));
}

/// The closes of a liquidation, applied one by one as `LiquidationFill`
/// events, leave the account with the collateral and the positions in which
/// the liquidation ended.
pub proof fn lemma_fills_replay(
    state: StateView,
    account_id: Key,
    account: AccountView,
    closed_any: bool,
)
    requires
        state.wf(),
        lookup(state.accounts, account_id) == Some(account),
    ensures
        liquidation_model(account.collateral, account.positions, state.markets, closed_any)
            matches Some(closing) ==> states_after(state, fill_kinds(account_id, closing.fills))
            == Some(
            with_portfolio(state, account_id, account, closing.collateral, closing.positions),
        ),
    decreases account.positions.len(),
{
    let markets = state.markets;
    let outcome = liquidation_model(account.collateral, account.positions, markets, closed_any);
    lemma_liquidation_unfolds(account.collateral, account.positions, markets, closed_any);
    if outcome is Some {
        let closing = outcome->0;
        if closing.fills.len() == 0 {
            assert(fill_kinds(account_id, closing.fills) =~= Seq::<EventTypeView>::empty());
            lemma_upsert_same(state.accounts, account_id, account);
        } else {
            let pick = choice_model(account.positions, markets)->0->0;
            let q = pick.quantity.neg();
            let traded_to = trade_model(
                account.collateral,
                account.positions,
                pick.market_id,
                q,
                pick.mark_price,
            )->0;
            let c = traded_to.0;
            let p = traded_to.1;
            let rest = liquidation_model(c, p, markets, true)->0;
            let after = AccountView { collateral: c, positions: p, ..account };
            let middle = with_portfolio(state, account_id, account, c, p);
            let head = seq![
                EventTypeView::LiquidationFill {
                    account_id,
                    market_id: pick.market_id,
                    quantity: q,
                    price: pick.mark_price,
                },
            ];
            let tail = fill_kinds(account_id, rest.fills);
            assert(middle.wf() && lookup(middle.accounts, account_id) == Some(after)) by {
                lemma_trade_keeps_order(
                    account.collateral,
                    account.positions,
                    pick.market_id,
                    q,
                    pick.mark_price,
                );
                lemma_account_replaced(state, account_id, after);
                lemma_lookup_upsert_same(state.accounts, account_id, after);
            }
            lemma_fills_replay(middle, account_id, after, true);
            assert(states_after(middle, tail) == Some(
                with_portfolio(middle, account_id, after, rest.collateral, rest.positions),
            ));
            assert(with_portfolio(middle, account_id, after, rest.collateral, rest.positions)
                == with_portfolio(
                state,
                account_id,
                account,
                closing.collateral,
                closing.positions,
            )) by {
                lemma_upsert_upsert(
                    state.accounts,
                    account_id,
                    after,
                    AccountView { collateral: rest.collateral, positions: rest.positions, ..after },
                );
            }
            assert(states_after(state, head) == Some(middle)) by {
                lemma_fill_applied(state, account_id, account, pick.market_id, q, pick.mark_price);
            }
            assert(fill_kinds(account_id, closing.fills) =~= head + tail);
            lemma_states_after_concat(state, head, tail);
        }
    }
}


/// A rejected event leaves the state as it was, and so does the record of
/// its rejection.
pub proof fn lemma_rejection_is_inert(state: StateView, event: EventTypeView)
    ensures
        apply_event_model(state, event) matches Some((after, Some(reason))) ==> {
            &&& after == state
            &&& rejection_of(event, reason) matches Some(r) ==> apply_event_model(state, r) == Some(
                (state, None::<Seq<char>>),
            )
        },
{
    reveal(apply_event_model);
}

/// The state after one event.
pub proof fn lemma_states_after_one(state: StateView, event: EventTypeView)
    ensures
        states_after(state, seq![event]) == match apply_event_model(state, event) {
            Some((after, _)) => Some(after),
            None => None,
        },
{
    let one = seq![event];
    assert(one.drop_last() =~= Seq::<EventTypeView>::empty());
    assert(one.last() == event);
    assert(states_after(state, one.drop_last()) == Some(state));
}


/// Replaying two logs one after the other is replaying their concatenation.
pub proof fn lemma_replay_concat(state: StateView, first: Seq<EventView>, second: Seq<EventView>)
    ensures
        replay_from(state, first + second) == match replay_from(state, first) {
            Some((middle, early)) => match replay_from(middle, second) {
                Some((end, late)) => Some((end, early + late)),
                None => None,
            },
            None => None,
        },
    decreases second.len(),
{
    if second.len() == 0 {
        assert(first + second =~= first);
        match replay_from(state, first) {
            Some((middle, early)) => {
                assert(early + Seq::<SnapshotView>::empty() =~= early);
            },
            None => {},
        }
    } else {
        assert((first + second).drop_last() =~= first + second.drop_last());
        assert((first + second).last() == second.last());
        lemma_replay_concat(state, first, second.drop_last());
        match replay_from(state, first) {
            Some((middle, early)) => {
                match replay_from(middle, second.drop_last()) {
                    Some((s, late)) => {
                        match replay_step(s, second.last()) {
                            Some((after, snapshot)) => {
                                assert((early + late).push(snapshot) =~= early + late.push(
                                    snapshot,
                                ));
                            },
                            None => {},
                        }
                    },
                    None => {},
                }
            },
            None => {},
        }
    }
}

/// The replay of one event.
pub proof fn lemma_replay_one(state: StateView, event: EventView)
    ensures
        replay_from(state, seq![event]) == match apply_event_model(state, event.event_type) {
            Some((after, _)) => match capture_model(after, event.sequence) {
                Some(snapshot) => Some((after, seq![snapshot])),
                None => None,
            },
            None => None,
        },
{
    reveal(replay_step);
    let one = seq![event];
    assert(one.drop_last() =~= Seq::<EventView>::empty());
    assert(one.last() == event);
    assert(replay_from(state, one.drop_last()) == Some((state, Seq::<SnapshotView>::empty())));
    match replay_step(state, event) {
        Some((after, snapshot)) => {
            assert(Seq::<SnapshotView>::empty().push(snapshot) =~= seq![snapshot]);
        },
        None => {},
    }
}


/// A log without events replays to the state from which the replay starts,
/// as the log of a fresh engine does to the markets that it was given.
pub proof fn lemma_empty_log_replays(origin: StateView)
    ensures
        replay_from(origin, Seq::empty()) == Some((origin, Seq::<SnapshotView>::empty())),
        states_after(origin, Seq::empty()) == Some(origin),
{
}


/// An account with its bankruptcy deficit left aside.
pub open spec fn books(account: AccountView) -> AccountView {
    AccountView { bankruptcy_deficit: Dec::zero(), ..account }
}

/// The same accounts under the same identifiers, their bankruptcy deficits
/// left aside.
pub open spec fn same_accounts(a: Seq<(Key, AccountView)>, b: Seq<(Key, AccountView)>) -> bool {
    &&& a.len() == b.len()
    &&& forall|i: int|
        #![trigger a[i]]
        #![trigger b[i]]
        0 <= i < a.len() ==> a[i].0 == b[i].0 && books(a[i].1) == books(b[i].1)
}

/// Two states that differ in recorded bankruptcy deficits at most.
pub open spec fn same_books(a: StateView, b: StateView) -> bool {
    a.markets == b.markets && same_accounts(a.accounts, b.accounts)
}

/// No account of the state has a bankruptcy deficit on record.
pub open spec fn no_deficit(state: StateView) -> bool {
    forall|i: int|
        0 <= i < state.accounts.len() ==> (#[trigger] state.accounts[i]).1.bankruptcy_deficit
            == Dec::zero()
}

/// Two states with the same books and no deficit on record are one state.
pub proof fn lemma_same_books_same_state(a: StateView, b: StateView)
    requires
        same_books(a, b),
        no_deficit(a),
        no_deficit(b),
    ensures
        a == b,
{
    assert forall|i: int| 0 <= i < a.accounts.len() implies a.accounts[i] == b.accounts[i] by {
        assert(books(a.accounts[i].1) == books(b.accounts[i].1));
        assert(a.accounts[i].1.bankruptcy_deficit == Dec::zero());
        assert(b.accounts[i].1.bankruptcy_deficit == Dec::zero());
    }
    assert(a.accounts =~= b.accounts);
}

/// A state has the books that it has.
pub proof fn lemma_same_books_reflexive(a: StateView)
    ensures
        same_books(a, a),
{
}

proof fn lemma_same_rank(a: Seq<(Key, AccountView)>, b: Seq<(Key, AccountView)>, k: Key)
    requires
        same_accounts(a, b),
    ensures
        rank(a, k) == rank(b, k),
    decreases a.len(),
{
    if a.len() > 0 {
        assert(a[0].0 == b[0].0);
        assert forall|i: int| 0 <= i < a.skip(1).len() implies a.skip(1)[i].0 == b.skip(1)[i].0
            && books(a.skip(1)[i].1) == books(b.skip(1)[i].1) by {
            assert(a.skip(1)[i] == a[i + 1]);
            assert(b.skip(1)[i] == b[i + 1]);
        }
        lemma_same_rank(a.skip(1), b.skip(1), k);
    }
}

/// Accounts with the same books are found under the same identifiers.
pub proof fn lemma_same_lookup(a: Seq<(Key, AccountView)>, b: Seq<(Key, AccountView)>, k: Key)
    requires
        same_accounts(a, b),
    ensures
        has_key(a, k) == has_key(b, k),
        match (lookup(a, k), lookup(b, k)) {
            (Some(x), Some(y)) => books(x) == books(y),
            (None, None) => true,
            _ => false,
        },
        books(account_or_fresh(a, k)) == books(account_or_fresh(b, k)),
{
    lemma_same_rank(a, b, k);
    lemma_rank(a, k);
    if rank(a, k) < a.len() {
        assert(a[rank(a, k) as int].0 == b[rank(a, k) as int].0);
    }
}

/// Replacing an account on both sides by accounts with the same books keeps
/// the books the same.
pub proof fn lemma_same_upsert(
    a: Seq<(Key, AccountView)>,
    b: Seq<(Key, AccountView)>,
    k: Key,
    x: AccountView,
    y: AccountView,
)
    requires
        same_accounts(a, b),
        books(x) == books(y),
    ensures
        same_accounts(upsert(a, k, x), upsert(b, k, y)),
{
    lemma_same_rank(a, b, k);
    lemma_same_lookup(a, b, k);
    lemma_rank(a, k);
    let r = rank(a, k) as int;
    let s = upsert(a, k, x);
    let t = upsert(b, k, y);
    assert forall|i: int| 0 <= i < s.len() implies s[i].0 == t[i].0 && books(s[i].1) == books(
        t[i].1,
    ) by {
        if has_key(a, k) {
            if i != r {
                assert(s[i] == a[i] && t[i] == b[i]);
            }
        } else {
            if i < r {
                assert(s[i] == a[i] && t[i] == b[i]);
            } else if i > r {
                assert(s[i] == a[i - 1] && t[i] == b[i - 1]);
            }
        }
    }
}

/// Accounts with the same books hold positions in the same markets.
pub proof fn lemma_same_holders(a: Seq<(Key, AccountView)>, b: Seq<(Key, AccountView)>, m: Key)
    requires
        same_accounts(a, b),
    ensures
        holders(a, m) == holders(b, m),
    decreases a.len(),
{
    if a.len() > 0 {
        let n = a.len() - 1;
        assert(a.last().0 == b.last().0 && books(a.last().1) == books(b.last().1)) by {
            assert(a[n].0 == b[n].0);
        }
        assert forall|i: int| 0 <= i < n implies a.drop_last()[i].0 == b.drop_last()[i].0
            && books(a.drop_last()[i].1) == books(b.drop_last()[i].1) by {
            assert(a.drop_last()[i] == a[i]);
            assert(b.drop_last()[i] == b[i]);
        }
        lemma_same_holders(a.drop_last(), b.drop_last(), m);
    }
}

/// A mapping that makes the same of the entries on both sides makes the same
/// of the two sequences.
pub proof fn lemma_same_try_map<B>(
    a: Seq<(Key, AccountView)>,
    b: Seq<(Key, AccountView)>,
    f: spec_fn((Key, AccountView)) -> Option<B>,
)
    requires
        same_accounts(a, b),
        forall|i: int| 0 <= i < a.len() ==> f(#[trigger] a[i]) == f(b[i]),
    ensures
        try_map_values(a, f) == try_map_values(b, f),
    decreases a.len(),
{
    if a.len() > 0 {
        let n = a.len() - 1;
        assert(a.last().0 == b.last().0 && f(a.last()) == f(b.last())) by {
            assert(a[n].0 == b[n].0);
            assert(f(a[n]) == f(b[n]));
        }
        assert forall|i: int| 0 <= i < n implies a.drop_last()[i].0 == b.drop_last()[i].0
            && books(a.drop_last()[i].1) == books(b.drop_last()[i].1) && f(
            #[trigger] a.drop_last()[i],
        ) == f(b.drop_last()[i]) by {
            assert(a.drop_last()[i] == a[i]);
            assert(b.drop_last()[i] == b[i]);
            assert(f(a[i]) == f(b[i]));
        }
        lemma_same_try_map(a.drop_last(), b.drop_last(), f);
    }
}

/// A snapshot shows no bankruptcy deficit: states with the same books have
/// the same snapshot.
pub proof fn lemma_same_capture(a: StateView, b: StateView, after_sequence: u64)
    requires
        same_books(a, b),
    ensures
        capture_model(a, after_sequence) == capture_model(b, after_sequence),
{
    let f = |e: (Key, AccountView)| account_snapshot_model(e.1, a.markets);
    assert forall|i: int| 0 <= i < a.accounts.len() implies f(#[trigger] a.accounts[i]) == f(
        b.accounts[i],
    ) by {
        assert(books(a.accounts[i].1) == books(b.accounts[i].1));
    }
    lemma_same_try_map(a.accounts, b.accounts, f);
    assert(f == |e: (Key, AccountView)| account_snapshot_model(e.1, b.markets));
}

/// A funding settlement keeps the books of two sides the same.
proof fn lemma_same_settlement(
    a: Seq<(Key, AccountView)>,
    b: Seq<(Key, AccountView)>,
    f: spec_fn((Key, AccountView)) -> Option<AccountView>,
)
    requires
        same_accounts(a, b),
        forall|i: int|
            0 <= i < a.len() ==> match (f(#[trigger] a[i]), f(b[i])) {
                (Some(x), Some(y)) => books(x) == books(y),
                (None, None) => true,
                _ => false,
            },
    ensures
        match (try_map_values(a, f), try_map_values(b, f)) {
            (Some(x), Some(y)) => same_accounts(x, y),
            (None, None) => true,
            _ => false,
        },
    decreases a.len(),
{
    if a.len() > 0 {
        let n = a.len() - 1;
        assert(a.last().0 == b.last().0) by {
            assert(a[n].0 == b[n].0);
        }
        assert(match (f(a[n]), f(b[n])) {
            (Some(x), Some(y)) => books(x) == books(y),
            (None, None) => true,
            _ => false,
        });
        assert forall|i: int| 0 <= i < n implies a.drop_last()[i].0 == b.drop_last()[i].0
            && books(a.drop_last()[i].1) == books(b.drop_last()[i].1) && match (
            f(#[trigger] a.drop_last()[i]),
            f(b.drop_last()[i]),
        ) {
            (Some(x), Some(y)) => books(x) == books(y),
            (None, None) => true,
            _ => false,
        } by {
            assert(a.drop_last()[i] == a[i]);
            assert(b.drop_last()[i] == b[i]);
            assert(match (f(a[i]), f(b[i])) {
                (Some(x), Some(y)) => books(x) == books(y),
                (None, None) => true,
                _ => false,
            });
        }
        lemma_same_settlement(a.drop_last(), b.drop_last(), f);
        match (try_map_values(a, f), try_map_values(b, f)) {
            (Some(x), Some(y)) => {
                let p = try_map_values(a.drop_last(), f)->0;
                let q = try_map_values(b.drop_last(), f)->0;
                lemma_try_map_keys(a.drop_last(), f);
                lemma_try_map_keys(b.drop_last(), f);
                assert forall|i: int| 0 <= i < x.len() implies x[i].0 == y[i].0 && books(x[i].1)
                    == books(y[i].1) by {
                    if i < n {
                        assert(x[i] == p[i] && y[i] == q[i]);
                    }
                }
            },
            _ => {},
        }
    }
}

/// No event reads a bankruptcy deficit: on states with the same books an
/// event fails on both, or it has the same outcome on both and leaves them
/// with the same books.
pub proof fn lemma_same_apply(a: StateView, b: StateView, event: EventTypeView)
    requires
        same_books(a, b),
    ensures
        match (apply_event_model(a, event), apply_event_model(b, event)) {
            (Some((a2, o1)), Some((b2, o2))) => same_books(a2, b2) && o1 == o2,
            (None, None) => true,
            _ => false,
        },
{
    reveal(apply_event_model);
    match event {
        EventTypeView::Deposit { account_id, amount } => {
            lemma_same_lookup(a.accounts, b.accounts, account_id);
            let x = account_or_fresh(a.accounts, account_id);
            let y = account_or_fresh(b.accounts, account_id);
            assert(books(x).collateral == books(y).collateral);
            match dec_add(x.collateral, amount) {
                Some(collateral) => {
                    lemma_same_upsert(
                        a.accounts,
                        b.accounts,
                        account_id,
                        AccountView { collateral, ..x },
                        AccountView { collateral, ..y },
                    );
                },
                None => {},
            }
        },
        EventTypeView::Withdraw { account_id, amount } => {
            lemma_same_lookup(a.accounts, b.accounts, account_id);
            let x = account_or_fresh(a.accounts, account_id);
            let y = account_or_fresh(b.accounts, account_id);
            assert(books(x).collateral == books(y).collateral);
            assert(books(x).positions == books(y).positions);
            assert(check_withdrawal_model(a, account_id, amount) == check_withdrawal_model(
                b,
                account_id,
                amount,
            ));
            match dec_sub(x.collateral, amount) {
                Some(collateral) => {
                    lemma_same_upsert(
                        a.accounts,
                        b.accounts,
                        account_id,
                        AccountView { collateral, ..x },
                        AccountView { collateral, ..y },
                    );
                },
                None => {},
            }
        },
        EventTypeView::TradeFill { account_id, market_id, quantity, price } => {
            lemma_same_lookup(a.accounts, b.accounts, account_id);
            let x = account_or_fresh(a.accounts, account_id);
            let y = account_or_fresh(b.accounts, account_id);
            assert(books(x).collateral == books(y).collateral);
            assert(books(x).positions == books(y).positions);
            assert(check_trade_model(a, account_id, market_id, quantity, price)
                == check_trade_model(b, account_id, market_id, quantity, price));
            lemma_same_traded(a, b, account_id, market_id, quantity, price);
        },
        EventTypeView::MarkPriceUpdate { market_id, price } => {},
        EventTypeView::FundingUpdate { market_id, new_cumulative_index } => {
            let old_index = match lookup(a.markets, market_id) {
                Some(m) => m.cumulative_funding_index,
                None => Dec::zero(),
            };
            let f = |e: (Key, AccountView)|
                settle_account(e.1, market_id, old_index, new_cumulative_index);
            assert forall|i: int| 0 <= i < a.accounts.len() implies match (
                f(#[trigger] a.accounts[i]),
                f(b.accounts[i]),
            ) {
                (Some(x), Some(y)) => books(x) == books(y),
                (None, None) => true,
                _ => false,
            } by {
                let x = a.accounts[i].1;
                let y = b.accounts[i].1;
                assert(books(x) == books(y));
                assert(books(x).collateral == books(y).collateral);
                assert(books(x).positions == books(y).positions);
                assert(books(x).last_funding == books(y).last_funding);
                assert(books(x).account_id == books(y).account_id);
            }
            lemma_same_settlement(a.accounts, b.accounts, f);
        },
        EventTypeView::LiquidationFill { account_id, market_id, quantity, price } => {
            lemma_same_traded(a, b, account_id, market_id, quantity, price);
        },
        EventTypeView::TradeRejected { .. } => {},
        EventTypeView::WithdrawalRejected { .. } => {},
    }
}

proof fn lemma_same_traded(
    a: StateView,
    b: StateView,
    account_id: Key,
    market_id: Key,
    q: Dec,
    p: Dec,
)
    requires
        same_books(a, b),
    ensures
        match (traded(a, account_id, market_id, q, p), traded(b, account_id, market_id, q, p)) {
            (Some(a2), Some(b2)) => same_books(a2, b2),
            (None, None) => true,
            _ => false,
        },
{
    lemma_same_lookup(a.accounts, b.accounts, account_id);
    let x = account_or_fresh(a.accounts, account_id);
    let y = account_or_fresh(b.accounts, account_id);
    assert(books(x).collateral == books(y).collateral);
    assert(books(x).positions == books(y).positions);
    match trade_model(x.collateral, x.positions, market_id, q, p) {
        Some((collateral, positions)) => {
            lemma_same_upsert(
                a.accounts,
                b.accounts,
                account_id,
                AccountView { collateral, positions, ..x },
                AccountView { collateral, positions, ..y },
            );
        },
        None => {},
    }
}

/// The state after a list of events is well formed.
pub proof fn lemma_states_after_wf(state: StateView, events: Seq<EventTypeView>)
    requires
        state.wf(),
    ensures
        states_after(state, events) matches Some(s) ==> s.wf(),
    decreases events.len(),
{
    if events.len() > 0 {
        lemma_states_after_wf(state, events.drop_last());
        match states_after(state, events.drop_last()) {
            Some(s) => {
                lemma_apply_event_wf(s, events.last());
            },
            None => {},
        }
    }
}

/// The events of a scan, applied to a state with the books of the state in
/// which the scan started, give a state with the books of the state in which
/// it ended.
pub proof fn lemma_scan_replays(
    live: StateView,
    replayed: StateView,
    account_id: Key,
    next_sequence: u64,
)
    requires
        live.wf(),
        replayed.wf(),
        same_books(live, replayed),
    ensures
        scan_account_model(live, account_id, next_sequence) matches Some(out) ==> {
            &&& states_after(replayed, kinds(out.events)) matches Some(end)
            &&& same_books(out.state, end)
            &&& end.wf()
        },
{
    lemma_same_lookup(live.accounts, replayed.accounts, account_id);
    match scan_account_model(live, account_id, next_sequence) {
        Some(out) => {
            match lookup(live.accounts, account_id) {
                Some(x) => {
                    let y = lookup(replayed.accounts, account_id)->0;
                    assert(books(x).collateral == books(y).collateral);
                    assert(books(x).positions == books(y).positions);
                    let closing = liquidation_model(
                        x.collateral,
                        x.positions,
                        live.markets,
                        false,
                    )->0;
                    lemma_fills_replay(replayed, account_id, y, false);
                    assert(kinds(out.events) =~= fill_kinds(account_id, closing.fills));
                    let end = with_portfolio(
                        replayed,
                        account_id,
                        y,
                        closing.collateral,
                        closing.positions,
                    );
                    let kept = AccountView {
                        collateral: closing.collateral,
                        positions: closing.positions,
                        ..y
                    };
                    let written = AccountView {
                        collateral: closing.collateral,
                        positions: closing.positions,
                        bankruptcy_deficit: match closing.deficit {
                            Some(d) => d,
                            None => x.bankruptcy_deficit,
                        },
                        ..x
                    };
                    assert(books(written) == books(kept)) by {
                        assert(books(x).account_id == books(y).account_id);
                        assert(books(x).last_funding == books(y).last_funding);
                    }
                    lemma_same_upsert(live.accounts, replayed.accounts, account_id, written, kept);
                    lemma_scan_ends_at_rest(live, account_id, next_sequence);
                    lemma_account_replaced(replayed, account_id, kept);
                },
                None => {
                    assert(kinds(out.events) =~= Seq::<EventTypeView>::empty());
                },
            }
        },
        None => {},
    }
}

/// The events of scans replay to a state with the books of the state in
/// which the scans ended.
pub proof fn lemma_scans_replay(origin: StateView, replayed: StateView, start: Step, ids: Seq<Key>)
    requires
        start.state.wf(),
        replayed.wf(),
        same_books(start.state, replayed),
        states_after(origin, kinds(start.events)) == Some(replayed),
    ensures
        scans_model(start, ids) matches Some(step) ==> {
            &&& step.state.wf()
            &&& states_after(origin, kinds(step.events)) matches Some(end)
            &&& same_books(step.state, end)
            &&& end.wf()
        },
    decreases ids.len(),
{
    reveal(scan_step);
    if ids.len() > 0 {
        lemma_scans_replay(origin, replayed, start, ids.drop_last());
        match scans_model(start, ids.drop_last()) {
            Some(before) => {
                let middle = states_after(origin, kinds(before.events))->0;
                lemma_scan_replays(before.state, middle, ids.last(), before.next_sequence);
                lemma_scan_ends_at_rest(before.state, ids.last(), before.next_sequence);
                match scan_account_model(before.state, ids.last(), before.next_sequence) {
                    Some(out) => {
                        assert(kinds(before.events + out.events) =~= kinds(before.events) + kinds(
                            out.events,
                        ));
                        lemma_states_after_concat(origin, kinds(before.events), kinds(out.events));
                    },
                    None => {},
                }
            },
            None => {},
        }
    }
}

/// The events that a call of the engine adds, applied to a state with the
/// books of the state in which the call started, give a state with the books
/// of the state in which it ended.
pub proof fn lemma_call_replays(
    live: StateView,
    replayed: StateView,
    next_sequence: u64,
    event: EventTypeView,
)
    requires
        live.wf(),
        replayed.wf(),
        same_books(live, replayed),
    ensures
        process_model(live, next_sequence, event) matches Some(step) ==> {
            &&& step.state.wf()
            &&& states_after(replayed, kinds(step.events)) matches Some(end)
            &&& same_books(step.state, end)
            &&& end.wf()
        },
{
    lemma_apply_event_wf(live, event);
    lemma_apply_event_wf(replayed, event);
    lemma_same_apply(live, replayed, event);
    lemma_rejection_is_inert(live, event);
    lemma_rejection_is_inert(replayed, event);
    lemma_states_after_one(replayed, event);
    match process_model(live, next_sequence, event) {
        Some(step) => {
            let first = EventView { sequence: next_sequence, event_type: event };
            match apply_event_model(live, event) {
                Some((after, Some(reason))) => {
                    let r = rejection_of(event, reason)->0;
                    assert(kinds(step.events) =~= seq![event] + seq![r]);
                    lemma_states_after_concat(replayed, seq![event], seq![r]);
                    lemma_states_after_one(replayed, r);
                },
                Some((after, None)) => {
                    let s1 = capture_model(after, next_sequence)->0;
                    let start = Step {
                        state: after,
                        events: seq![first],
                        snapshots: seq![s1],
                        next_sequence: (next_sequence + 1) as u64,
                    };
                    assert(kinds(start.events) =~= seq![event]);
                    let (middle, _) = apply_event_model(replayed, event)->0;
                    lemma_scans_replay(replayed, middle, start, accounts_to_scan(after, event));
                },
                None => {},
            }
        },
        None => {},
    }
}

/// Replay determinism, for the state. If the log of an engine replays to a
/// state with the books of the engine's state, it still does after a call of
/// the engine: the replayed state differs from the live one in recorded
/// bankruptcy deficits at most.
pub proof fn lemma_process_replays_state(
    origin: StateView,
    replayed: StateView,
    engine: EngineView,
    event: EventTypeView,
)
    requires
        engine.state.wf(),
        replayed.wf(),
        states_after(origin, kinds(engine.event_log)) == Some(replayed),
        same_books(engine.state, replayed),
    ensures
        process_model(engine.state, engine.next_sequence, event) matches Some(step) ==> {
            &&& step.state.wf()
            &&& states_after(origin, kinds(engine.after(step).event_log)) matches Some(end)
            &&& same_books(engine.after(step).state, end)
            &&& end.wf()
        },
{
    lemma_call_replays(engine.state, replayed, engine.next_sequence, event);
    match process_model(engine.state, engine.next_sequence, event) {
        Some(step) => {
            assert(kinds(engine.event_log + step.events) =~= kinds(engine.event_log) + kinds(
                step.events,
            ));
            lemma_states_after_concat(origin, kinds(engine.event_log), kinds(step.events));
        },
        None => {},
    }
}

/// No event records a bankruptcy deficit.
pub proof fn lemma_events_record_no_deficit(state: StateView, events: Seq<EventTypeView>)
    requires
        no_deficit(state),
    ensures
        states_after(state, events) matches Some(end) ==> no_deficit(end),
    decreases events.len(),
{
    if events.len() > 0 {
        lemma_events_record_no_deficit(state, events.drop_last());
        match states_after(state, events.drop_last()) {
            Some(s) => {
                lemma_same_books_reflexive(s);
                lemma_event_records_no_deficit(s, events.last());
            },
            None => {},
        }
    }
}

proof fn lemma_replaced_without_deficit(state: StateView, account_id: Key, account: AccountView)
    requires
        no_deficit(state),
        account.bankruptcy_deficit == Dec::zero(),
    ensures
        no_deficit(StateView { accounts: upsert(state.accounts, account_id, account), ..state }),
{
    lemma_upsert_members(state.accounts, account_id, account);
    let t = upsert(state.accounts, account_id, account);
    assert forall|i: int| 0 <= i < t.len() implies (#[trigger] t[i]).1.bankruptcy_deficit
        == Dec::zero() by {
        if t[i] != (account_id, account) {
            let j = choose|j: int| 0 <= j < state.accounts.len() && state.accounts[j] == t[i];
            assert(state.accounts[j].1.bankruptcy_deficit == Dec::zero());
        }
    }
}

proof fn lemma_without_deficit(state: StateView, account_id: Key)
    requires
        no_deficit(state),
    ensures
        account_or_fresh(state.accounts, account_id).bankruptcy_deficit == Dec::zero(),
{
    lemma_rank(state.accounts, account_id);
    if has_key(state.accounts, account_id) {
        assert(state.accounts[rank(state.accounts, account_id) as int].1.bankruptcy_deficit
            == Dec::zero());
    }
}

proof fn lemma_event_records_no_deficit(state: StateView, event: EventTypeView)
    requires
        no_deficit(state),
    ensures
        apply_event_model(state, event) matches Some((end, _)) ==> no_deficit(end),
{
    reveal(apply_event_model);
    match event {
        EventTypeView::Deposit { account_id, amount } => {
            lemma_without_deficit(state, account_id);
            let x = account_or_fresh(state.accounts, account_id);
            match dec_add(x.collateral, amount) {
                Some(collateral) => {
                    lemma_replaced_without_deficit(
                        state,
                        account_id,
                        AccountView { collateral, ..x },
                    );
                },
                None => {},
            }
        },
        EventTypeView::Withdraw { account_id, amount } => {
            lemma_without_deficit(state, account_id);
            let x = account_or_fresh(state.accounts, account_id);
            match dec_sub(x.collateral, amount) {
                Some(collateral) => {
                    lemma_replaced_without_deficit(
                        state,
                        account_id,
                        AccountView { collateral, ..x },
                    );
                },
                None => {},
            }
        },
        EventTypeView::TradeFill { account_id, market_id, quantity, price } => {
            lemma_traded_without_deficit(state, account_id, market_id, quantity, price);
        },
        EventTypeView::MarkPriceUpdate { market_id, price } => {},
        EventTypeView::FundingUpdate { market_id, new_cumulative_index } => {
            let old_index = match lookup(state.markets, market_id) {
                Some(m) => m.cumulative_funding_index,
                None => Dec::zero(),
            };
            let f = |e: (Key, AccountView)|
                settle_account(e.1, market_id, old_index, new_cumulative_index);
            match try_map_values(state.accounts, f) {
                Some(accounts) => {
                    lemma_try_map_keys(state.accounts, f);
                    assert forall|i: int| 0 <= i < accounts.len() implies (
                    #[trigger] accounts[i]).1.bankruptcy_deficit == Dec::zero() by {
                        assert(f(state.accounts[i]) == Some(accounts[i].1));
                        assert(state.accounts[i].1.bankruptcy_deficit == Dec::zero());
                    }
                },
                None => {},
            }
        },
        EventTypeView::LiquidationFill { account_id, market_id, quantity, price } => {
            lemma_traded_without_deficit(state, account_id, market_id, quantity, price);
        },
        EventTypeView::TradeRejected { .. } => {},
        EventTypeView::WithdrawalRejected { .. } => {},
    }
}

proof fn lemma_traded_without_deficit(
    state: StateView,
    account_id: Key,
    market_id: Key,
    q: Dec,
    p: Dec,
)
    requires
        no_deficit(state),
    ensures
        traded(state, account_id, market_id, q, p) matches Some(end) ==> no_deficit(end),
{
    lemma_without_deficit(state, account_id);
    let x = account_or_fresh(state.accounts, account_id);
    match trade_model(x.collateral, x.positions, market_id, q, p) {
        Some((collateral, positions)) => {
            lemma_replaced_without_deficit(
                state,
                account_id,
                AccountView { collateral, positions, ..x },
            );
        },
        None => {},
    }
}

/// Replay determinism, for the state, where no deficit is on record: if the
/// replay started from a state without deficits and the live state has none,
/// the replayed state is the live state.
pub proof fn lemma_replay_reaches_live_state(
    origin: StateView,
    replayed: StateView,
    live: StateView,
    log: Seq<EventView>,
)
    requires
        no_deficit(origin),
        states_after(origin, kinds(log)) == Some(replayed),
        same_books(live, replayed),
        no_deficit(live),
    ensures
        replayed == live,
{
    lemma_events_record_no_deficit(origin, kinds(log));
    lemma_same_books_same_state(live, replayed);
}

/// The scan of the account closes one position at most.
pub open spec fn scan_closes_at_most_one(state: StateView, account_id: Key) -> bool {
    match lookup(state.accounts, account_id) {
        None => true,
        Some(a) => match liquidation_model(a.collateral, a.positions, state.markets, false) {
            Some(c) => c.fills.len() <= 1,
            None => true,
        },
    }
}

/// Every scan of the list closes one position at most.
pub open spec fn scans_close_one_at_a_time(start: Step, ids: Seq<Key>) -> bool
    decreases ids.len(),
{
    ids.len() == 0 || (scans_close_one_at_a_time(start, ids.drop_last()) && match scans_model(
        start,
        ids.drop_last(),
    ) {
        Some(before) => scan_closes_at_most_one(before.state, ids.last()),
        None => true,
    })
}

/// No scan of the call closes more than one position.
pub open spec fn closes_one_at_a_time(
    state: StateView,
    next_sequence: u64,
    event: EventTypeView,
) -> bool {
    match apply_event_model(state, event) {
        Some((after, None)) => match capture_model(after, next_sequence) {
            Some(s1) => scans_close_one_at_a_time(
                Step {
                    state: after,
                    events: seq![EventView { sequence: next_sequence, event_type: event }],
                    snapshots: seq![s1],
                    next_sequence: (next_sequence + 1) as u64,
                },
                accounts_to_scan(after, event),
            ),
            None => true,
        },
        _ => true,
    }
}

/// The events of a scan that closes one position at most replay to a state
/// with the books of the state in which the scan ended, and to the snapshots
/// that were taken of it.
pub proof fn lemma_scan_replays_fully(
    live: StateView,
    replayed: StateView,
    account_id: Key,
    next_sequence: u64,
)
    requires
        live.wf(),
        replayed.wf(),
        same_books(live, replayed),
        scan_closes_at_most_one(live, account_id),
    ensures
        scan_account_model(live, account_id, next_sequence) matches Some(out) ==> (snapshots_for(
            out.state,
            out.events,
        ) matches Some(shots) ==> {
            &&& replay_from(replayed, out.events) matches Some((end, taken))
            &&& taken == shots
            &&& same_books(out.state, end)
            &&& end.wf()
        }),
{
    lemma_scan_replays(live, replayed, account_id, next_sequence);
    match scan_account_model(live, account_id, next_sequence) {
        Some(out) => {
            assert(out.events.len() <= 1);
            let end = states_after(replayed, kinds(out.events))->0;
            if out.events.len() == 0 {
                assert(out.events =~= Seq::<EventView>::empty());
                assert(kinds(out.events) =~= Seq::<EventTypeView>::empty());
                assert(replay_from(replayed, out.events) == Some(
                    (replayed, Seq::<SnapshotView>::empty()),
                ));
                assert(snapshots_for(out.state, out.events) == Some(
                    Seq::<SnapshotView>::empty(),
                ));
            } else {
                let e = out.events[0];
                assert(out.events =~= seq![e]);
                assert(kinds(out.events) =~= seq![e.event_type]);
                lemma_states_after_one(replayed, e.event_type);
                lemma_replay_one(replayed, e);
                lemma_same_capture(out.state, end, e.sequence);
                assert(out.events.drop_last() =~= Seq::<EventView>::empty());
                assert(out.events.last() == e);
                assert(snapshots_for(out.state, out.events.drop_last()) == Some(
                    Seq::<SnapshotView>::empty(),
                ));
                match capture_model(out.state, e.sequence) {
                    Some(snapshot) => {
                        assert(Seq::<SnapshotView>::empty().push(snapshot) =~= seq![snapshot]);
                        assert(snapshots_for(out.state, out.events) == Some(seq![snapshot]));
                    },
                    None => {
                        assert(snapshots_for(out.state, out.events) is None);
                    },
                }
            }
        },
        None => {},
    }
}

/// The events of such scans replay to a state with the books of the state
/// in which the scans ended, and to the snapshots that they took.
pub proof fn lemma_scans_replay_fully(
    origin: StateView,
    replayed: StateView,
    start: Step,
    ids: Seq<Key>,
)
    requires
        start.state.wf(),
        replayed.wf(),
        same_books(start.state, replayed),
        replay_from(origin, start.events) == Some((replayed, start.snapshots)),
        scans_close_one_at_a_time(start, ids),
    ensures
        scans_model(start, ids) matches Some(step) ==> {
            &&& step.state.wf()
            &&& replay_from(origin, step.events) matches Some((end, taken))
            &&& taken == step.snapshots
            &&& same_books(step.state, end)
            &&& end.wf()
        },
    decreases ids.len(),
{
    reveal(scan_step);
    if ids.len() > 0 {
        lemma_scans_replay_fully(origin, replayed, start, ids.drop_last());
        match scans_model(start, ids.drop_last()) {
            Some(before) => {
                let (middle, _) = replay_from(origin, before.events)->0;
                lemma_scan_replays_fully(before.state, middle, ids.last(), before.next_sequence);
                lemma_scan_ends_at_rest(before.state, ids.last(), before.next_sequence);
                match scan_account_model(before.state, ids.last(), before.next_sequence) {
                    Some(out) => {
                        lemma_replay_concat(origin, before.events, out.events);
                    },
                    None => {},
                }
            },
            None => {},
        }
    }
}

/// The events that a call of the engine adds replay, from a state with the
/// books of the state in which the call started, to a state with the books
/// of the state in which it ended and to the snapshots that the call added,
/// if none of its scans closed more than one position.
pub proof fn lemma_call_replays_fully(
    live: StateView,
    replayed: StateView,
    next_sequence: u64,
    event: EventTypeView,
)
    requires
        live.wf(),
        replayed.wf(),
        same_books(live, replayed),
        closes_one_at_a_time(live, next_sequence, event),
    ensures
        process_model(live, next_sequence, event) matches Some(step) ==> {
            &&& step.state.wf()
            &&& replay_from(replayed, step.events) matches Some((end, taken))
            &&& taken == step.snapshots
            &&& same_books(step.state, end)
            &&& end.wf()
        },
{
    lemma_apply_event_wf(live, event);
    lemma_apply_event_wf(replayed, event);
    lemma_same_apply(live, replayed, event);
    lemma_rejection_is_inert(live, event);
    lemma_rejection_is_inert(replayed, event);
    let first = EventView { sequence: next_sequence, event_type: event };
    lemma_replay_one(replayed, first);
    match process_model(live, next_sequence, event) {
        Some(step) => {
            match apply_event_model(live, event) {
                Some((after, Some(reason))) => {
                    let second = EventView {
                        sequence: (next_sequence + 1) as u64,
                        event_type: rejection_of(event, reason)->0,
                    };
                    let s1 = capture_model(after, next_sequence)->0;
                    let s2 = capture_model(after, (next_sequence + 1) as u64)->0;
                    lemma_same_capture(live, replayed, next_sequence);
                    lemma_same_capture(live, replayed, (next_sequence + 1) as u64);
                    assert(step.events =~= seq![first] + seq![second]);
                    assert(step.snapshots =~= seq![s1] + seq![s2]);
                    lemma_replay_concat(replayed, seq![first], seq![second]);
                    lemma_replay_one(replayed, second);
                },
                Some((after, None)) => {
                    let s1 = capture_model(after, next_sequence)->0;
                    let (middle, _) = apply_event_model(replayed, event)->0;
                    lemma_same_capture(after, middle, next_sequence);
                    let start = Step {
                        state: after,
                        events: seq![first],
                        snapshots: seq![s1],
                        next_sequence: (next_sequence + 1) as u64,
                    };
                    lemma_scans_replay_fully(
                        replayed,
                        middle,
                        start,
                        accounts_to_scan(after, event),
                    );
                },
                None => {},
            }
        },
        None => {},
    }
}

/// Replay determinism. If the log of an engine replays to a state with the
/// books of the engine's state, then after a call of the engine the longer
/// log replays to a state with the books of the new state, and the replay
/// takes, after the snapshots that it took before, the snapshots that the
/// call added: where the log replayed to the snapshots of the engine, it
/// still does. Left out are the calls in which a scan closes more than one
/// position, whose snapshots all show the state after the last close.
pub proof fn lemma_process_replays(
    origin: StateView,
    replayed: StateView,
    early: Seq<SnapshotView>,
    engine: EngineView,
    event: EventTypeView,
)
    requires
        engine.state.wf(),
        replayed.wf(),
        replay_from(origin, engine.event_log) == Some((replayed, early)),
        same_books(engine.state, replayed),
        closes_one_at_a_time(engine.state, engine.next_sequence, event),
    ensures
        process_model(engine.state, engine.next_sequence, event) matches Some(step) ==> {
            &&& step.state.wf()
            &&& replay_from(origin, engine.after(step).event_log) matches Some((end, taken))
            &&& taken == early + step.snapshots
            &&& early == engine.snapshots ==> taken == engine.after(step).snapshots
            &&& same_books(engine.after(step).state, end)
            &&& end.wf()
        },
{
    lemma_call_replays_fully(engine.state, replayed, engine.next_sequence, event);
    match process_model(engine.state, engine.next_sequence, event) {
        Some(step) => {
            lemma_replay_concat(origin, engine.event_log, step.events);
        },
        None => {},
    }
}

/// The snapshot is the picture of the state, under the sequence that it
/// carries.
pub open spec fn pictures(snapshot: SnapshotView, state: StateView) -> bool {
    capture_model(state, snapshot.after_sequence) == Some(snapshot)
}

/// A scan that closes nothing changes recorded deficits at most.
pub proof fn lemma_quiet_scan_keeps_books(state: StateView, account_id: Key, next_sequence: u64)
    ensures
        scan_account_model(state, account_id, next_sequence) matches Some(out) ==> (
        out.events.len() == 0 ==> same_books(state, out.state)),
{
    match scan_account_model(state, account_id, next_sequence) {
        Some(out) => {
            match lookup(state.accounts, account_id) {
                Some(x) => {
                    if out.events.len() == 0 {
                        lemma_liquidation_unfolds(x.collateral, x.positions, state.markets, false);
                        let closing = liquidation_model(
                            x.collateral,
                            x.positions,
                            state.markets,
                            false,
                        )->0;
                        let written = AccountView {
                            collateral: closing.collateral,
                            positions: closing.positions,
                            bankruptcy_deficit: match closing.deficit {
                                Some(d) => d,
                                None => x.bankruptcy_deficit,
                            },
                            ..x
                        };
                        lemma_upsert_same(state.accounts, account_id, x);
                        lemma_same_upsert(state.accounts, state.accounts, account_id, x, written);
                    }
                },
                None => {},
            }
        },
        None => {},
    }
}

/// The last of the snapshots taken for a list of events is the picture of
/// the state under the sequence of the last event.
pub proof fn lemma_last_snapshot(state: StateView, events: Seq<EventView>)
    requires
        events.len() > 0,
    ensures
        snapshots_for(state, events) matches Some(shots) ==> shots.len() > 0 && pictures(
            shots.last(),
            state,
        ),
{
    match capture_model(state, events.last().sequence) {
        Some(s) => {
            assert(s.after_sequence == events.last().sequence);
        },
        None => {},
    }
}

/// Scans leave the latest snapshot a picture of the state.
pub proof fn lemma_scans_keep_latest_picture(start: Step, ids: Seq<Key>)
    requires
        start.snapshots.len() > 0,
        pictures(start.snapshots.last(), start.state),
    ensures
        scans_model(start, ids) matches Some(step) ==> step.snapshots.len() > 0 && pictures(
            step.snapshots.last(),
            step.state,
        ),
    decreases ids.len(),
{
    reveal(scan_step);
    if ids.len() > 0 {
        lemma_scans_keep_latest_picture(start, ids.drop_last());
        match scans_model(start, ids.drop_last()) {
            Some(before) => {
                lemma_quiet_scan_keeps_books(before.state, ids.last(), before.next_sequence);
                match scan_account_model(before.state, ids.last(), before.next_sequence) {
                    Some(out) => {
                        match snapshots_for(out.state, out.events) {
                            Some(shots) => {
                                if out.events.len() == 0 {
                                    assert(before.snapshots + shots =~= before.snapshots);
                                    lemma_same_capture(
                                        before.state,
                                        out.state,
                                        before.snapshots.last().after_sequence,
                                    );
                                } else {
                                    lemma_last_snapshot(out.state, out.events);
                                    assert((before.snapshots + shots).last() == shots.last());
                                }
                            },
                            None => {},
                        }
                    },
                    None => {},
                }
            },
            None => {},
        }
    }
}

/// After a call of the engine, the latest snapshot is a picture of the
/// state.
pub proof fn lemma_call_keeps_latest_picture(
    state: StateView,
    next_sequence: u64,
    event: EventTypeView,
)
    ensures
        process_model(state, next_sequence, event) matches Some(step) ==> step.snapshots.len() > 0
            && pictures(step.snapshots.last(), step.state),
{
    match process_model(state, next_sequence, event) {
        Some(step) => {
            match apply_event_model(state, event) {
                Some((after, None)) => {
                    let s1 = capture_model(after, next_sequence)->0;
                    lemma_scans_keep_latest_picture(
                        Step {
                            state: after,
                            events: seq![EventView { sequence: next_sequence, event_type: event }],
                            snapshots: seq![s1],
                            next_sequence: (next_sequence + 1) as u64,
                        },
                        accounts_to_scan(after, event),
                    );
                },
                _ => {},
            }
        },
        None => {},
    }
}

/// Replay determinism, for the latest snapshot. If the log of an engine
/// replays to a state with the books of the engine's state, then after any
/// call of the engine the latest snapshot is the picture of the state to
/// which the longer log replays.
pub proof fn lemma_latest_snapshot_is_replayed(
    origin: StateView,
    replayed: StateView,
    engine: EngineView,
    event: EventTypeView,
)
    requires
        engine.state.wf(),
        replayed.wf(),
        states_after(origin, kinds(engine.event_log)) == Some(replayed),
        same_books(engine.state, replayed),
    ensures
        process_model(engine.state, engine.next_sequence, event) matches Some(step) ==> {
            &&& states_after(origin, kinds(engine.after(step).event_log)) matches Some(end)
            &&& engine.after(step).snapshots.len() > 0
            &&& pictures(engine.after(step).snapshots.last(), end)
        },
{
    lemma_process_replays_state(origin, replayed, engine, event);
    lemma_call_keeps_latest_picture(engine.state, engine.next_sequence, event);
    match process_model(engine.state, engine.next_sequence, event) {
        Some(step) => {
            let end = states_after(origin, kinds(engine.after(step).event_log))->0;
            assert((engine.snapshots + step.snapshots).last() == step.snapshots.last());
            lemma_same_capture(step.state, end, step.snapshots.last().after_sequence);
        },
        None => {},
    }
}

} // verus!
