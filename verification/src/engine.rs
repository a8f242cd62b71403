//! The engine: it numbers the events, applies them to the state, records a
//! snapshot after each, and scans for liquidations those accounts that an
//! event may have made insolvent.

use crate::decimal::{
    checked_add, checked_mul, checked_sub, dec_add, dec_mul, dec_sub, Dec, Decimal, Overflow,
};
use crate::events::{events_view, Event, EventType, EventTypeView, EventView};
use crate::invariants::{
    gapless, lemma_process_keeps_gapless, lemma_process_leaves_scanned_at_rest, scanned_at_rest,
};
use crate::liquidation::{check_and_liquidate, scan_account_model};
use crate::ordered_map::lemma_upsert_sorted;
use crate::ordered_map::{
    keys_sorted, lemma_try_map_fails, lemma_try_map_keys, lookup, try_map_values, upsert,
    Duplicate, Key, OrderedMap,
};
use crate::risk::{
    apply_trade_to, check_trade, check_trade_model, check_withdrawal, check_withdrawal_model,
    trade_model, TradeCheck, Verdict,
};
use crate::snapshot::{capture, capture_model, snapshots_view, Snapshot, SnapshotView};
use crate::solvency::{
    all_solvent, calls_for_scans, in_known_market, lemma_market_added_keeps_sound,
    lemma_process_keeps_sound, lemma_process_leaves_all_solvent, sound,
};
use crate::state::{holders, State, StateView};
use crate::text::text_lt;
use crate::types::{Account, AccountView, Market, MarketView};
use vstd::prelude::*;

verus! {

/// The account of `account_id`, a fresh one where there is none.
pub open spec fn account_or_fresh(accounts: Seq<(Key, AccountView)>, account_id: Key) -> AccountView {
    match lookup(accounts, account_id) {
        Some(a) => a,
        None => AccountView::fresh(account_id),
    }
}

/// The settlement of one account at a new funding index of `market_id`: an
/// account with a position there is charged `(last - new_index) * quantity`,
/// `last` being the index at which it last settled, or `old_index` where it
/// never did, and settles at `new_index`. Other accounts stay as they are.
pub open spec fn settle_account(
    account: AccountView,
    market_id: Key,
    old_index: Dec,
    new_index: Dec,
) -> Option<AccountView> {
    match lookup(account.positions, market_id) {
        None => Some(account),
        Some(pos) => {
            let last = match lookup(account.last_funding, market_id) {
                Some(d) => d,
                None => old_index,
            };
            match dec_sub(last, new_index) {
                None => None,
                Some(diff) => match dec_mul(diff, pos.quantity) {
                    None => None,
                    Some(delta) => match dec_add(account.collateral, delta) {
                        None => None,
                        Some(collateral) => Some(
                            AccountView {
                                collateral,
                                last_funding: upsert(account.last_funding, market_id, new_index),
                                ..account
                            },
                        ),
                    },
                },
            }
        },
    }
}

/// The state after a trade of an account, which is made where it does not
/// exist.
pub open spec fn traded(state: StateView, account_id: Key, market_id: Key, q: Dec, p: Dec) -> Option<
    StateView,
> {
    let account = account_or_fresh(state.accounts, account_id);
    match trade_model(account.collateral, account.positions, market_id, q, p) {
        None => None,
        Some((collateral, positions)) => Some(
            StateView {
                accounts: upsert(
                    state.accounts,
                    account_id,
                    AccountView { collateral, positions, ..account },
                ),
                ..state
            },
        ),
    }
}

/// The state after an event and, where the event was rejected, the reason.
/// `None` where a decimal overflows. Only a `Withdraw` and a `TradeFill` can
/// be rejected, and a rejected event leaves the state as it was.
#[verifier::opaque]
pub open spec fn apply_event_model(state: StateView, event: EventTypeView) -> Option<
    (StateView, Option<Seq<char>>),
> {
    match event {
        EventTypeView::Deposit { account_id, amount } => {
            let account = account_or_fresh(state.accounts, account_id);
            match dec_add(account.collateral, amount) {
                None => None,
                Some(collateral) => Some(
                    (
                        StateView {
                            accounts: upsert(
                                state.accounts,
                                account_id,
                                AccountView { collateral, ..account },
                            ),
                            ..state
                        },
                        None,
                    ),
                ),
            }
        },
        EventTypeView::Withdraw { account_id, amount } => match check_withdrawal_model(
            state,
            account_id,
            amount,
        ) {
            None => None,
            Some(Verdict::Rejected(reason)) => Some((state, Some(reason))),
            Some(Verdict::Accepted) => {
                let account = account_or_fresh(state.accounts, account_id);
                match dec_sub(account.collateral, amount) {
                    None => None,
                    Some(collateral) => Some(
                        (
                            StateView {
                                accounts: upsert(
                                    state.accounts,
                                    account_id,
                                    AccountView { collateral, ..account },
                                ),
                                ..state
                            },
                            None,
                        ),
                    ),
                }
            },
        },
        EventTypeView::TradeFill { account_id, market_id, quantity, price } => match check_trade_model(
            state,
            account_id,
            market_id,
            quantity,
            price,
        ) {
            None => None,
            Some(Verdict::Rejected(reason)) => Some((state, Some(reason))),
            Some(Verdict::Accepted) => match traded(state, account_id, market_id, quantity, price) {
                None => None,
                Some(s) => Some((s, None)),
            },
        },
        EventTypeView::MarkPriceUpdate { market_id, price } => match lookup(
            state.markets,
            market_id,
        ) {
            None => Some((state, None)),
            Some(m) => Some(
                (
                    StateView {
                        markets: upsert(
                            state.markets,
                            market_id,
                            MarketView { mark_price: price, ..m },
                        ),
                        ..state
                    },
                    None,
                ),
            ),
        },
        EventTypeView::FundingUpdate { market_id, new_cumulative_index } => {
            let old_index = match lookup(state.markets, market_id) {
                Some(m) => m.cumulative_funding_index,
                None => Dec::zero(),
            };
            let markets = match lookup(state.markets, market_id) {
                Some(m) => upsert(
                    state.markets,
                    market_id,
                    MarketView { cumulative_funding_index: new_cumulative_index, ..m },
                ),
                None => state.markets,
            };
            match try_map_values(
                state.accounts,
                |e: (Key, AccountView)|
                    settle_account(e.1, market_id, old_index, new_cumulative_index),
            ) {
                None => None,
                Some(accounts) => Some((StateView { accounts, markets }, None)),
            }
        },
        EventTypeView::LiquidationFill { account_id, market_id, quantity, price } => match traded(
            state,
            account_id,
            market_id,
            quantity,
            price,
        ) {
            None => None,
            Some(s) => Some((s, None)),
        },
        EventTypeView::TradeRejected { .. } => Some((state, None)),
        EventTypeView::WithdrawalRejected { .. } => Some((state, None)),
    }
}

/// The record of a rejection: the attempted parameters and the reason.
pub open spec fn rejection_of(event: EventTypeView, reason: Seq<char>) -> Option<EventTypeView> {
    match event {
        EventTypeView::TradeFill { account_id, market_id, quantity, price } => Some(
            EventTypeView::TradeRejected { account_id, market_id, quantity, price, reason },
        ),
        EventTypeView::Withdraw { account_id, amount } => Some(
            EventTypeView::WithdrawalRejected { account_id, amount, reason },
        ),
        _ => None,
    }
}

/// The accounts to scan after an event, in ascending order: the account of a
/// `TradeFill`; the accounts with a position in the market of a
/// `MarkPriceUpdate` or a `FundingUpdate`; none for any other event.
pub open spec fn accounts_to_scan(state: StateView, event: EventTypeView) -> Seq<Key> {
    match event {
        EventTypeView::TradeFill { account_id, .. } => seq![account_id],
        EventTypeView::MarkPriceUpdate { market_id, .. } => holders(state.accounts, market_id),
        EventTypeView::FundingUpdate { market_id, .. } => holders(state.accounts, market_id),
        _ => Seq::empty(),
    }
}

/// What one call of the engine adds: the state it leaves, the events and the
/// snapshots that it appends, and the next free sequence number.
pub struct Step {
    pub state: StateView,
    pub events: Seq<EventView>,
    pub snapshots: Seq<SnapshotView>,
    pub next_sequence: u64,
}

/// One snapshot of `state` for each of the events, tagged with its sequence.
pub open spec fn snapshots_for(state: StateView, events: Seq<EventView>) -> Option<
    Seq<SnapshotView>,
>
    decreases events.len(),
{
    if events.len() == 0 {
        Some(Seq::empty())
    } else {
        match (
            snapshots_for(state, events.drop_last()),
            capture_model(state, events.last().sequence),
        ) {
            (Some(done), Some(s)) => Some(done.push(s)),
            _ => None,
        }
    }
}

/// The scan of one account after what a call has done so far: the scan's
/// events are appended, and for each of them a snapshot of the state as the
/// scan left it.
#[verifier::opaque]
pub open spec fn scan_step(step: Step, account_id: Key) -> Option<Step> {
    match scan_account_model(step.state, account_id, step.next_sequence) {
        None => None,
        Some(out) => match snapshots_for(out.state, out.events) {
            None => None,
            Some(snapshots) => Some(
                Step {
                    state: out.state,
                    events: step.events + out.events,
                    snapshots: step.snapshots + snapshots,
                    next_sequence: out.next_sequence,
                },
            ),
        },
    }
}

/// The scans of the accounts `ids`, one after the other.
pub open spec fn scans_model(start: Step, ids: Seq<Key>) -> Option<Step>
    decreases ids.len(),
{
    if ids.len() == 0 {
        Some(start)
    } else {
        match scans_model(start, ids.drop_last()) {
            None => None,
            Some(step) => scan_step(step, ids.last()),
        }
    }
}

/// Scans that failed on a prefix of the accounts fail on all of them.
pub proof fn lemma_scans_fail(start: Step, ids: Seq<Key>, n: int)
    requires
        0 <= n <= ids.len(),
        scans_model(start, ids.take(n)) is None,
    ensures
        scans_model(start, ids) is None,
    decreases ids.len() - n,
{
    if n < ids.len() {
        assert(ids.take(n + 1).drop_last() =~= ids.take(n));
        lemma_scans_fail(start, ids, n + 1);
    } else {
        assert(ids.take(n) =~= ids);
    }
}

/// Snapshots that failed for a prefix of the events fail for all of them.
pub proof fn lemma_snapshots_fail(state: StateView, events: Seq<EventView>, n: int)
    requires
        0 <= n <= events.len(),
        snapshots_for(state, events.take(n)) is None,
    ensures
        snapshots_for(state, events) is None,
    decreases events.len() - n,
{
    if n < events.len() {
        assert(events.take(n + 1).drop_last() =~= events.take(n));
        lemma_snapshots_fail(state, events, n + 1);
    } else {
        assert(events.take(n) =~= events);
    }
}

/// One call of the engine on an event, from a state and the next free
/// sequence number. The event takes that number and is applied. A rejected
/// event is followed by the record of its rejection, with a snapshot of the
/// unchanged state after each of the two, and no scan. Any other event is
/// followed by its snapshot and the scans of [`accounts_to_scan`]. `None`
/// where a decimal overflows or the sequence numbers run out.
pub open spec fn process_model(state: StateView, next_sequence: u64, event: EventTypeView) -> Option<
    Step,
> {
    if next_sequence == u64::MAX {
        None
    } else {
        let first = EventView { sequence: next_sequence, event_type: event };
        match apply_event_model(state, event) {
            None => None,
            Some((after, Some(reason))) => match (
                capture_model(after, next_sequence),
                rejection_of(event, reason),
            ) {
                (Some(s1), Some(rejection)) => if next_sequence + 1 == u64::MAX {
                    None
                } else {
                    match capture_model(after, (next_sequence + 1) as u64) {
                        None => None,
                        Some(s2) => Some(
                            Step {
                                state: after,
                                events: seq![
                                    first,
                                    EventView {
                                        sequence: (next_sequence + 1) as u64,
                                        event_type: rejection,
                                    },
                                ],
                                snapshots: seq![s1, s2],
                                next_sequence: (next_sequence + 2) as u64,
                            },
                        ),
                    }
                },
                _ => None,
            },
            Some((after, None)) => match capture_model(after, next_sequence) {
                None => None,
                Some(s1) => scans_model(
                    Step {
                        state: after,
                        events: seq![first],
                        snapshots: seq![s1],
                        next_sequence: (next_sequence + 1) as u64,
                    },
                    accounts_to_scan(after, event),
                ),
            },
        }
    }
}

/// The state that holds the given markets and nothing else; of two markets
/// with one identifier the later stands.
pub open spec fn initial_state(markets: Seq<MarketView>) -> StateView
    decreases markets.len(),
{
    if markets.len() == 0 {
        StateView { accounts: Seq::empty(), markets: Seq::empty() }
    } else {
        let before = initial_state(markets.drop_last());
        StateView {
            markets: upsert(before.markets, markets.last().market_id, markets.last()),
            ..before
        }
    }
}

/// One event of a replay: it is applied, and the state that it leaves is
/// captured under the event's own sequence. An event that is rejected again
/// leaves the state as it was.
#[verifier::opaque]
pub open spec fn replay_step(state: StateView, event: EventView) -> Option<
    (StateView, SnapshotView),
> {
    match apply_event_model(state, event.event_type) {
        None => None,
        Some((after, _)) => match capture_model(after, event.sequence) {
            None => None,
            Some(snapshot) => Some((after, snapshot)),
        },
    }
}

/// The replay of a log from a state: every event in order, with the
/// snapshot taken after each.
pub open spec fn replay_from(state: StateView, log: Seq<EventView>) -> Option<
    (StateView, Seq<SnapshotView>),
>
    decreases log.len(),
{
    if log.len() == 0 {
        Some((state, Seq::empty()))
    } else {
        match replay_from(state, log.drop_last()) {
            None => None,
            Some((s, snapshots)) => match replay_step(s, log.last()) {
                None => None,
                Some((after, snapshot)) => Some((after, snapshots.push(snapshot))),
            },
        }
    }
}

/// A replay that failed on a prefix of the log fails on the whole.
pub proof fn lemma_replay_fails(state: StateView, log: Seq<EventView>, n: int)
    requires
        0 <= n <= log.len(),
        replay_from(state, log.take(n)) is None,
    ensures
        replay_from(state, log) is None,
    decreases log.len() - n,
{
    if n < log.len() {
        assert(log.take(n + 1).drop_last() =~= log.take(n));
        lemma_replay_fails(state, log, n + 1);
    } else {
        assert(log.take(n) =~= log);
    }
}

/// An event that a replay found rejected again: its sequence and the
/// reason.
#[derive(Debug, Clone, PartialEq, Eq)]
pub struct Rejection {
    pub sequence: u64,
    pub reason: String,
}

/// A rejection as contracts see it.
pub struct RejectionView {
    pub sequence: u64,
    pub reason: Seq<char>,
}

impl View for Rejection {
    type V = RejectionView;

    open spec fn view(&self) -> RejectionView {
        RejectionView { sequence: self.sequence, reason: self.reason@ }
    }
}

/// The rejections of a list as contracts see them.
pub open spec fn rejections_view(list: Seq<Rejection>) -> Seq<RejectionView> {
    list.map_values(|r: Rejection| r@)
}

/// The reason for which an event is rejected in a state, if it is.
pub open spec fn rejection_reason(state: StateView, event: EventTypeView) -> Option<Seq<char>> {
    match apply_event_model(state, event) {
        Some((_, outcome)) => outcome,
        None => None,
    }
}

/// The events of a log that its replay rejects, in order, each with its
/// sequence and the reason. An attempted trade or withdrawal that the live
/// engine rejected is in the log and is rejected again.
pub open spec fn rejections_from(state: StateView, log: Seq<EventView>) -> Seq<RejectionView>
    decreases log.len(),
{
    if log.len() == 0 {
        Seq::empty()
    } else {
        let before = rejections_from(state, log.drop_last());
        match replay_from(state, log.drop_last()) {
            Some((s, _)) => match rejection_reason(s, log.last().event_type) {
                Some(reason) => before.push(
                    RejectionView { sequence: log.last().sequence, reason },
                ),
                None => before,
            },
            None => before,
        }
    }
}

/// The markets of a list as contracts see them.
pub open spec fn markets_view(list: Seq<Market>) -> Seq<MarketView> {
    list.map_values(|m: Market| m@)
}

enum ApplyResult {
    Done,
    Rejected(String),
}

impl View for ApplyResult {
    type V = Option<Seq<char>>;

    closed spec fn view(&self) -> Option<Seq<char>> {
        match self {
            ApplyResult::Done => None,
            ApplyResult::Rejected(reason) => Some(reason@),
        }
    }
}

fn settle(account: &Account, market_id: &str, old_index: Decimal, new_index: Decimal) -> (r: Option<
    Account,
>)
    ensures
        match r {
            Some(a) => settle_account(account@, market_id@, old_index@, new_index@) == Some(a@),
            None => settle_account(account@, market_id@, old_index@, new_index@) is None,
        },
{
    let pos = match account.positions.get(market_id) {
        Some(p) => p,
        None => {
            return Some(account.duplicate());
        },
    };
    let last = match account.last_funding.get(market_id) {
        Some(d) => *d,
        None => old_index,
    };
    let diff = match checked_sub(&last, &new_index) {
        Some(d) => d,
        None => {
            return None;
        },
    };
    let delta = match checked_mul(&diff, &pos.quantity) {
        Some(d) => d,
        None => {
            return None;
        },
    };
    let collateral = match checked_add(&account.collateral, &delta) {
        Some(c) => c,
        None => {
            return None;
        },
    };
    let mut last_funding = account.last_funding.duplicate();
    last_funding.insert(market_id.to_owned(), new_index);
    Some(
        Account {
            account_id: account.account_id.clone(),
            collateral,
            positions: account.positions.duplicate(),
            last_funding,
            bankruptcy_deficit: account.bankruptcy_deficit,
        },
    )
}

fn settle_all(
    accounts: &OrderedMap<Account>,
    market_id: &str,
    old_index: Decimal,
    new_index: Decimal,
) -> (r: Option<OrderedMap<Account>>)
    ensures
        match r {
            Some(a) => try_map_values(
                accounts@,
                |e: (Key, AccountView)| settle_account(e.1, market_id@, old_index@, new_index@),
            ) == Some(a@),
            None => try_map_values(
                accounts@,
                |e: (Key, AccountView)| settle_account(e.1, market_id@, old_index@, new_index@),
            ) is None,
        },
{
    let ghost f = |e: (Key, AccountView)| settle_account(e.1, market_id@, old_index@, new_index@);
    let n = accounts.len();
    let mut out: OrderedMap<Account> = OrderedMap::new();
    let mut i: usize = 0;
    proof {
        assert(accounts@.take(0) =~= Seq::<(Key, AccountView)>::empty());
    }
    while i < n
        invariant
            n == accounts@.len(),
            i <= n,
            keys_sorted(accounts@),
            f == |e: (Key, AccountView)| settle_account(e.1, market_id@, old_index@, new_index@),
            try_map_values(accounts@.take(i as int), f) == Some(out@),
        decreases n - i,
    {
        proof {
            assert(accounts@.take(i as int + 1).drop_last() =~= accounts@.take(i as int));
            lemma_try_map_keys(accounts@.take(i as int), f);
        }
        match settle(accounts.value_at(i), market_id, old_index, new_index) {
            Some(a) => {
                proof {
                    assert forall|j: int| 0 <= j < out@.len() implies text_lt(
                        #[trigger] out@[j].0,
                        accounts@[i as int].0,
                    ) by {
                        assert(out@[j].0 == accounts@.take(i as int)[j].0);
                        assert(text_lt(accounts@[j].0, accounts@[i as int].0));
                    }
                }
                out.push_back(accounts.key_at(i).clone(), a);
            },
            None => {
                proof {
                    lemma_try_map_fails(accounts@, f, i as int + 1);
                }
                return None;
            },
        }
        i = i + 1;
    }
    proof {
        assert(accounts@.take(n as int) =~= accounts@);
    }
    Some(out)
}

/// The account of `account_id` or a fresh one, as a value of its own.
fn account_copy(state: &State, account_id: &str) -> (r: Account)
    ensures
        r@ == account_or_fresh(state@.accounts, account_id@),
{
    match state.accounts.get(account_id) {
        Some(a) => a.duplicate(),
        None => Account::new(account_id.to_owned()),
    }
}

fn apply_trade(state: &mut State, account_id: &str, market_id: &str, q: Decimal, p: Decimal) -> (r:
    Result<(), Overflow>)
    ensures
        match traded(old(state)@, account_id@, market_id@, q@, p@) {
            Some(s) => r is Ok && final(state)@ == s,
            None => r is Err && final(state)@ == old(state)@,
        },
{
    let account = account_copy(state, account_id);
    let mut collateral = account.collateral;
    let mut positions = account.positions;
    match apply_trade_to(&mut collateral, &mut positions, market_id, q, p) {
        Ok(()) => {},
        Err(e) => {
            return Err(e);
        },
    }
    let updated = Account {
        account_id: account.account_id,
        collateral,
        positions,
        last_funding: account.last_funding,
        bankruptcy_deficit: account.bankruptcy_deficit,
    };
    state.accounts.insert(account_id.to_owned(), updated);
    Ok(())
}

fn set_collateral(state: &mut State, account_id: &str, collateral: Decimal)
    ensures
        final(state)@ == (StateView {
            accounts: upsert(
                old(state)@.accounts,
                account_id@,
                AccountView {
                    collateral: collateral@,
                    ..account_or_fresh(old(state)@.accounts, account_id@)
                },
            ),
            ..old(state)@
        }),
{
    let account = account_copy(state, account_id);
    let updated = Account {
        account_id: account.account_id,
        collateral,
        positions: account.positions,
        last_funding: account.last_funding,
        bankruptcy_deficit: account.bankruptcy_deficit,
    };
    state.accounts.insert(account_id.to_owned(), updated);
}

/// Applies one event to the state: no scan, no event of its own. On
/// overflow the state is left as it was.
fn apply_event(state: &mut State, event: &EventType) -> (r: Result<ApplyResult, Overflow>)
    ensures
        match apply_event_model(old(state)@, event@) {
            Some((s, outcome)) => r matches Ok(a) && a@ == outcome && final(state)@ == s,
            None => r is Err && final(state)@ == old(state)@,
        },
{
    proof {
        reveal(apply_event_model);
    }
    match event {
        EventType::Deposit { account_id, amount } => {
            let account = account_copy(state, account_id.as_str());
            match checked_add(&account.collateral, amount) {
                Some(c) => {
                    set_collateral(state, account_id.as_str(), c);
                    Ok(ApplyResult::Done)
                },
                None => Err(Overflow),
            }
        },
        EventType::Withdraw { account_id, amount } => {
            match check_withdrawal(state, account_id.as_str(), *amount) {
                None => Err(Overflow),
                Some(TradeCheck::Rejected(reason)) => Ok(ApplyResult::Rejected(reason)),
                Some(TradeCheck::Accepted) => {
                    let account = account_copy(state, account_id.as_str());
                    match checked_sub(&account.collateral, amount) {
                        Some(c) => {
                            set_collateral(state, account_id.as_str(), c);
                            Ok(ApplyResult::Done)
                        },
                        None => Err(Overflow),
                    }
                },
            }
        },
        EventType::TradeFill { account_id, market_id, quantity, price } => {
            match check_trade(state, account_id.as_str(), market_id.as_str(), *quantity, *price) {
                None => Err(Overflow),
                Some(TradeCheck::Rejected(reason)) => Ok(ApplyResult::Rejected(reason)),
                Some(TradeCheck::Accepted) => {
                    match apply_trade(
                        state,
                        account_id.as_str(),
                        market_id.as_str(),
                        *quantity,
                        *price,
                    ) {
                        Ok(()) => Ok(ApplyResult::Done),
                        Err(e) => Err(e),
                    }
                },
            }
        },
        EventType::MarkPriceUpdate { market_id, price } => {
            let updated = match state.markets.get(market_id.as_str()) {
                Some(m) => Some(
                    Market {
                        market_id: m.market_id.clone(),
                        mark_price: *price,
                        initial_margin_fraction: m.initial_margin_fraction,
                        maintenance_margin_fraction: m.maintenance_margin_fraction,
                        cumulative_funding_index: m.cumulative_funding_index,
                    },
                ),
                None => None,
            };
            match updated {
                Some(m) => {
                    state.markets.insert(market_id.clone(), m);
                },
                None => {},
            }
            Ok(ApplyResult::Done)
        },
        EventType::FundingUpdate { market_id, new_cumulative_index } => {
            let (old_index, updated) = match state.markets.get(market_id.as_str()) {
                Some(m) => (
                    m.cumulative_funding_index,
                    Some(
                        Market {
                            market_id: m.market_id.clone(),
                            mark_price: m.mark_price,
                            initial_margin_fraction: m.initial_margin_fraction,
                            maintenance_margin_fraction: m.maintenance_margin_fraction,
                            cumulative_funding_index: *new_cumulative_index,
                        },
                    ),
                ),
                None => (Decimal::zero(), None),
            };
            match settle_all(&state.accounts, market_id.as_str(), old_index, *new_cumulative_index) {
                None => Err(Overflow),
                Some(accounts) => {
                    state.accounts = accounts;
                    match updated {
                        Some(m) => {
                            state.markets.insert(market_id.clone(), m);
                        },
                        None => {},
                    }
                    Ok(ApplyResult::Done)
                },
            }
        },
        EventType::LiquidationFill { account_id, market_id, quantity, price } => {
            match apply_trade(state, account_id.as_str(), market_id.as_str(), *quantity, *price) {
                Ok(()) => Ok(ApplyResult::Done),
                Err(e) => Err(e),
            }
        },
        EventType::TradeRejected { .. } => Ok(ApplyResult::Done),
        EventType::WithdrawalRejected { .. } => Ok(ApplyResult::Done),
    }
}

/// The engine as contracts see it.
pub struct EngineView {
    pub state: StateView,
    pub event_log: Seq<EventView>,
    pub snapshots: Seq<SnapshotView>,
    pub next_sequence: u64,
}

impl EngineView {
    /// The engine after a step: the step's state and counter, its events and
    /// snapshots appended.
    pub open spec fn after(self, step: Step) -> EngineView {
        EngineView {
            state: step.state,
            event_log: self.event_log + step.events,
            snapshots: self.snapshots + step.snapshots,
            next_sequence: step.next_sequence,
        }
    }
}

/// The engine: the state, the log of every event in the order of its
/// sequence, one snapshot for each event of the log, and the next free
/// sequence number.
pub struct Engine {
    pub state: State,
    pub event_log: Vec<Event>,
    pub snapshots: Vec<Snapshot>,
    pub next_sequence: u64,
}

impl View for Engine {
    type V = EngineView;

    open spec fn view(&self) -> EngineView {
        EngineView {
            state: self.state@,
            event_log: events_view(self.event_log@),
            snapshots: snapshots_view(self.snapshots@),
            next_sequence: self.next_sequence,
        }
    }
}

fn capture_each(state: &State, events: &Vec<Event>) -> (r: Option<Vec<Snapshot>>)
    ensures
        match r {
            Some(list) => snapshots_for(state@, events_view(events@)) == Some(
                snapshots_view(list@),
            ),
            None => snapshots_for(state@, events_view(events@)) is None,
        },
{
    let ghost all = events_view(events@);
    let n = events.len();
    let mut list: Vec<Snapshot> = Vec::new();
    let mut i: usize = 0;
    proof {
        assert(all.take(0) =~= Seq::<EventView>::empty());
        assert(snapshots_view(list@) =~= Seq::<SnapshotView>::empty());
    }
    while i < n
        invariant
            n == events.len(),
            all == events_view(events@),
            i <= n,
            snapshots_for(state@, all.take(i as int)) == Some(snapshots_view(list@)),
        decreases n - i,
    {
        proof {
            assert(all.take(i as int + 1).drop_last() =~= all.take(i as int));
        }
        match capture(state, events[i].sequence) {
            Some(s) => {
                proof {
                    assert(snapshots_view(list@.push(s)) =~= snapshots_view(list@).push(s@));
                }
                list.push(s);
            },
            None => {
                proof {
                    lemma_snapshots_fail(state@, all, i as int + 1);
                }
                return None;
            },
        }
        i = i + 1;
    }
    proof {
        assert(all.take(n as int) =~= all);
    }
    Some(list)
}

fn scan_list(state: &State, event: &EventType) -> (r: Vec<String>)
    ensures
        r.deep_view() == accounts_to_scan(state@, event@),
{
    match event {
        EventType::TradeFill { account_id, .. } => {
            let mut ids: Vec<String> = Vec::new();
            ids.push(account_id.clone());
            proof {
                assert(ids.deep_view() =~= seq![account_id@]);
            }
            ids
        },
        EventType::MarkPriceUpdate { market_id, .. } => state.accounts_with_position_in(
            market_id.as_str(),
        ),
        EventType::FundingUpdate { market_id, .. } => state.accounts_with_position_in(
            market_id.as_str(),
        ),
        _ => {
            let ids: Vec<String> = Vec::new();
            proof {
                assert(ids.deep_view() =~= Seq::<Key>::empty());
            }
            ids
        },
    }
}

fn rejection(event: &EventType, reason: String) -> (r: Option<EventType>)
    ensures
        match r {
            Some(e) => rejection_of(event@, reason@) == Some(e@),
            None => rejection_of(event@, reason@) is None,
        },
{
    match event {
        EventType::TradeFill { account_id, market_id, quantity, price } => Some(
            EventType::TradeRejected {
                account_id: account_id.clone(),
                market_id: market_id.clone(),
                quantity: *quantity,
                price: *price,
                reason,
            },
        ),
        EventType::Withdraw { account_id, amount } => Some(
            EventType::WithdrawalRejected {
                account_id: account_id.clone(),
                amount: *amount,
                reason,
            },
        ),
        _ => None,
    }
}

/// What a call of the engine has worked out and not yet written down.
struct Pending {
    state: State,
    events: Vec<Event>,
    snapshots: Vec<Snapshot>,
    next_sequence: u64,
}

impl View for Pending {
    type V = Step;

    closed spec fn view(&self) -> Step {
        Step {
            state: self.state@,
            events: events_view(self.events@),
            snapshots: snapshots_view(self.snapshots@),
            next_sequence: self.next_sequence,
        }
    }
}

fn scan_one(work: Pending, account_id: &str) -> (r: Option<Pending>)
    ensures
        match r {
            Some(p) => scan_step(work@, account_id@) == Some(p@),
            None => scan_step(work@, account_id@) is None,
        },
{
    proof {
        reveal(scan_step);
    }
    let mut state = work.state;
    let mut next = work.next_sequence;
    let mut events = work.events;
    let mut snapshots = work.snapshots;
    let mut fills = match check_and_liquidate(&mut state, account_id, &mut next) {
        Ok(fills) => fills,
        Err(_) => {
            return None;
        },
    };
    let mut shots = match capture_each(&state, &fills) {
        Some(shots) => shots,
        None => {
            return None;
        },
    };
    proof {
        assert(events_view(events@ + fills@) =~= events_view(events@) + events_view(fills@));
        assert(snapshots_view(snapshots@ + shots@) =~= snapshots_view(snapshots@) + snapshots_view(
            shots@,
        ));
    }
    events.append(&mut fills);
    snapshots.append(&mut shots);
    Some(Pending { state, events, snapshots, next_sequence: next })
}

fn run_scans(start: Pending, ids: &Vec<String>) -> (r: Option<Pending>)
    ensures
        match r {
            Some(p) => scans_model(start@, ids.deep_view()) == Some(p@),
            None => scans_model(start@, ids.deep_view()) is None,
        },
{
    let ghost begin = start@;
    let ghost all = ids.deep_view();
    let mut work = start;
    let n = ids.len();
    let mut i: usize = 0;
    proof {
        assert(all.take(0) =~= Seq::<Key>::empty());
    }
    while i < n
        invariant
            n == ids.len(),
            all == ids.deep_view(),
            begin == start@,
            i <= n,
            scans_model(begin, all.take(i as int)) == Some(work@),
        decreases n - i,
    {
        proof {
            let t = all.take(i as int + 1);
            assert(t.drop_last() =~= all.take(i as int));
            assert(t.last() == ids[i as int]@);
            assert(scans_model(begin, t) == scan_step(work@, ids[i as int]@));
        }
        match scan_one(work, ids[i].as_str()) {
            Some(p) => {
                work = p;
            },
            None => {
                proof {
                    lemma_scans_fail(begin, all, i as int + 1);
                }
                return None;
            },
        }
        i = i + 1;
    }
    proof {
        assert(all.take(n as int) =~= all);
    }
    Some(work)
}

fn replay_one(state: &mut State, event: &Event) -> (r: Option<(Snapshot, Option<String>)>)
    ensures
        match replay_step(old(state)@, event@) {
            Some((s, snapshot)) => {
                &&& r matches Some((taken, reason))
                &&& taken@ == snapshot
                &&& final(state)@ == s
                &&& match reason {
                    Some(text) => rejection_reason(old(state)@, event@.event_type) == Some(text@),
                    None => rejection_reason(old(state)@, event@.event_type) is None,
                }
            },
            None => r is None,
        },
{
    proof {
        reveal(replay_step);
    }
    let reason = match apply_event(state, &event.event_type) {
        Ok(ApplyResult::Done) => None,
        Ok(ApplyResult::Rejected(reason)) => Some(reason),
        Err(_) => {
            return None;
        },
    };
    match capture(state, event.sequence) {
        Some(taken) => Some((taken, reason)),
        None => None,
    }
}

fn run_event(state: &State, first: u64, event_type: EventType) -> (r: Option<Pending>)
    ensures
        match r {
            Some(p) => process_model(state@, first, event_type@) == Some(p@),
            None => process_model(state@, first, event_type@) is None,
        },
{
    if first == u64::MAX {
        return None;
    }
    let ghost event = event_type@;
    let mut work = state.duplicate();
    let outcome = match apply_event(&mut work, &event_type) {
        Ok(a) => a,
        Err(_) => {
            return None;
        },
    };
    let s1 = match capture(&work, first) {
        Some(s) => s,
        None => {
            return None;
        },
    };
    let mut events: Vec<Event> = Vec::new();
    let mut snapshots: Vec<Snapshot> = Vec::new();
    match outcome {
        ApplyResult::Rejected(reason) => {
            let rejected = match rejection(&event_type, reason) {
                Some(e) => e,
                None => {
                    return None;
                },
            };
            if first + 1 == u64::MAX {
                return None;
            }
            let s2 = match capture(&work, first + 1) {
                Some(s) => s,
                None => {
                    return None;
                },
            };
            let ghost pair = seq![
                EventView { sequence: first, event_type: event },
                EventView { sequence: (first + 1) as u64, event_type: rejected@ },
            ];
            let ghost shots = seq![s1@, s2@];
            events.push(Event { sequence: first, event_type });
            events.push(Event { sequence: first + 1, event_type: rejected });
            snapshots.push(s1);
            snapshots.push(s2);
            proof {
                assert(events_view(events@) =~= pair);
                assert(snapshots_view(snapshots@) =~= shots);
            }
            Some(Pending { state: work, events, snapshots, next_sequence: first + 2 })
        },
        ApplyResult::Done => {
            let ids = scan_list(&work, &event_type);
            let ghost shot = s1@;
            events.push(Event { sequence: first, event_type });
            snapshots.push(s1);
            proof {
                assert(events_view(events@) =~= seq![
                    EventView { sequence: first, event_type: event },
                ]);
                assert(snapshots_view(snapshots@) =~= seq![shot]);
            }
            run_scans(Pending { state: work, events, snapshots, next_sequence: first + 1 }, &ids)
        },
    }
}

impl Engine {
    /// The next free sequence number.
    pub fn next_sequence(&self) -> (r: u64)
        ensures
            r == self@.next_sequence,
    {
        self.next_sequence
    }

    /// The state.
    pub fn state(&self) -> (r: &State)
        ensures
            r@ == self@.state,
    {
        &self.state
    }

    /// The log of every event so far.
    pub fn event_log(&self) -> (r: &Vec<Event>)
        ensures
            events_view(r@) == self@.event_log,
    {
        &self.event_log
    }

    /// The snapshots, one for each event of the log.
    pub fn snapshots(&self) -> (r: &Vec<Snapshot>)
        ensures
            snapshots_view(r@) == self@.snapshots,
    {
        &self.snapshots
    }

    /// A fresh engine: no account, no market, an empty log, and 1 as the
    /// first sequence number.
    pub fn new() -> (r: Self)
        ensures
            r@ == (EngineView {
                state: initial_state(Seq::empty()),
                event_log: Seq::empty(),
                snapshots: Seq::empty(),
                next_sequence: 1,
            }),
            r@.state.wf(),
            gapless(r@),
            sound(r@.state),
            all_solvent(r@.state),
    {
        let r = Engine {
            state: State::new(),
            event_log: Vec::new(),
            snapshots: Vec::new(),
            next_sequence: 1,
        };
        proof {
            assert(r@.event_log =~= Seq::<EventView>::empty());
            assert(r@.snapshots =~= Seq::<SnapshotView>::empty());
        }
        r
    }

    /// Registers a market, in place of an earlier one with the same
    /// identifier. This is configuration, not an event.
    pub fn add_market(&mut self, market: Market)
        ensures
            final(self)@ == (EngineView {
                state: StateView {
                    markets: upsert(old(self)@.state.markets, market@.market_id, market@),
                    ..old(self)@.state
                },
                ..old(self)@
            }),
            old(self)@.state.wf() ==> final(self)@.state.wf(),
            gapless(old(self)@) ==> gapless(final(self)@),
            sound(old(self)@.state) ==> sound(final(self)@.state),
    {
        proof {
            if self@.state.wf() {
                lemma_upsert_sorted(self@.state.markets, market@.market_id, market@);
            }
            if sound(self@.state) {
                lemma_market_added_keeps_sound(self@.state, market@);
            }
        }
        self.state.markets.insert(market.market_id.clone(), market);
    }

    /// Processes an event in live mode: it takes the next sequence number,
    /// is applied and snapshotted, and the accounts that it may have made
    /// insolvent are scanned for liquidation. On overflow the engine is left
    /// as it was. The state stays well formed and the log without a gap, and
    /// every account that was scanned needs no further close. Where the
    /// state is sound and no account is liquidatable before a trade fill, a
    /// mark price or a funding index, none is after it.
    pub fn process(&mut self, event_type: EventType) -> (r: Result<(), Overflow>)
        ensures
            match process_model(old(self)@.state, old(self)@.next_sequence, event_type@) {
                Some(step) => r is Ok && final(self)@ == old(self)@.after(step),
                None => r is Err && final(self)@ == old(self)@,
            },
            old(self)@.state.wf() ==> final(self)@.state.wf(),
            old(self)@.state.wf() && r is Ok ==> scanned_at_rest(
                old(self)@.state,
                event_type@,
                final(self)@.state,
            ),
            gapless(old(self)@) ==> gapless(final(self)@),
            sound(old(self)@.state) && in_known_market(old(self)@.state, event_type@) ==> sound(
                final(self)@.state,
            ),
            sound(old(self)@.state) && all_solvent(old(self)@.state) && calls_for_scans(
                event_type@,
            ) ==> all_solvent(final(self)@.state),
    {
        proof {
            if sound(self@.state) && in_known_market(self@.state, event_type@) {
                lemma_process_keeps_sound(self@.state, self@.next_sequence, event_type@);
            }
            if sound(self@.state) && all_solvent(self@.state) && calls_for_scans(event_type@) {
                lemma_process_leaves_all_solvent(self@.state, self@.next_sequence, event_type@);
            }
            if self@.state.wf() {
                lemma_process_leaves_scanned_at_rest(
                    self@.state,
                    self@.next_sequence,
                    event_type@,
                );
            }
            if gapless(self@) {
                lemma_process_keeps_gapless(self@, event_type@);
            }
        }
        let pending = match run_event(&self.state, self.next_sequence, event_type) {
            Some(p) => p,
            None => {
                return Err(Overflow);
            },
        };
        let mut events = pending.events;
        let mut snapshots = pending.snapshots;
        proof {
            assert(events_view(self.event_log@ + events@) =~= events_view(self.event_log@)
                + events_view(events@));
            assert(snapshots_view(self.snapshots@ + snapshots@) =~= snapshots_view(
                self.snapshots@,
            ) + snapshots_view(snapshots@));
        }
        self.state = pending.state;
        self.event_log.append(&mut events);
        self.snapshots.append(&mut snapshots);
        self.next_sequence = pending.next_sequence;
        Ok(())
    }

    /// Replays a log from scratch on the given markets and returns the final
    /// state and the snapshot taken after each event.
    pub fn replay(event_log: &[Event], markets: Vec<Market>) -> (r: Result<
        (State, Vec<Snapshot>),
        Overflow,
    >)
        ensures
            match replay_from(initial_state(markets_view(markets@)), events_view(event_log@)) {
                Some((s, list)) => r matches Ok((state, snapshots)) && state@ == s
                    && snapshots_view(snapshots@) == list,
                None => r is Err,
            },
    {
        match Engine::replay_with_rejections(event_log, markets) {
            Ok((state, snapshots, _)) => Ok((state, snapshots)),
            Err(e) => Err(e),
        }
    }

    /// Replays a log as [`Engine::replay`] does, and reports the events that
    /// were rejected again, which leave the state as it was.
    pub fn replay_with_rejections(event_log: &[Event], markets: Vec<Market>) -> (r: Result<
        (State, Vec<Snapshot>, Vec<Rejection>),
        Overflow,
    >)
        ensures
            match replay_from(initial_state(markets_view(markets@)), events_view(event_log@)) {
                Some((s, list)) => {
                    &&& r matches Ok((state, snapshots, rejections))
                    &&& state@ == s
                    &&& snapshots_view(snapshots@) == list
                    &&& rejections_view(rejections@) == rejections_from(
                        initial_state(markets_view(markets@)),
                        events_view(event_log@),
                    )
                },
                None => r is Err,
            },
    {
        let ghost configured = markets_view(markets@);
        let ghost log = events_view(event_log@);
        let mut state = State::new();
        let m = markets.len();
        let mut k: usize = 0;
        proof {
            assert(configured.take(0) =~= Seq::<MarketView>::empty());
        }
        while k < m
            invariant
                m == markets.len(),
                configured == markets_view(markets@),
                k <= m,
                state@ == initial_state(configured.take(k as int)),
            decreases m - k,
        {
            proof {
                assert(configured.take(k as int + 1).drop_last() =~= configured.take(k as int));
            }
            let market = markets[k].duplicate();
            state.markets.insert(market.market_id.clone(), market);
            k = k + 1;
        }
        proof {
            assert(configured.take(m as int) =~= configured);
        }
        let ghost start = state@;
        let n = event_log.len();
        let mut snapshots: Vec<Snapshot> = Vec::new();
        let mut rejections: Vec<Rejection> = Vec::new();
        let mut i: usize = 0;
        proof {
            assert(log.take(0) =~= Seq::<EventView>::empty());
            assert(snapshots_view(snapshots@) =~= Seq::<SnapshotView>::empty());
            assert(rejections_view(rejections@) =~= Seq::<RejectionView>::empty());
        }
        while i < n
            invariant
                n == event_log.len(),
                log == events_view(event_log@),
                start == initial_state(markets_view(markets@)),
                i <= n,
                replay_from(start, log.take(i as int)) == Some(
                    (state@, snapshots_view(snapshots@)),
                ),
                rejections_view(rejections@) == rejections_from(start, log.take(i as int)),
            decreases n - i,
        {
            proof {
                let t = log.take(i as int + 1);
                assert(t.drop_last() =~= log.take(i as int));
                assert(t.last() == event_log[i as int]@);
            }
            match replay_one(&mut state, &event_log[i]) {
                Some((s, reason)) => {
                    proof {
                        assert(snapshots_view(snapshots@.push(s)) =~= snapshots_view(
                            snapshots@,
                        ).push(s@));
                    }
                    snapshots.push(s);
                    match reason {
                        Some(text) => {
                            let rejection = Rejection {
                                sequence: event_log[i].sequence,
                                reason: text,
                            };
                            proof {
                                assert(rejections_view(rejections@.push(rejection))
                                    =~= rejections_view(rejections@).push(rejection@));
                            }
                            rejections.push(rejection);
                        },
                        None => {},
                    }
                },
                None => {
                    proof {
                        lemma_replay_fails(start, log, i as int + 1);
                    }
                    return Err(Overflow);
                },
            }
            i = i + 1;
        }
        proof {
            assert(log.take(n as int) =~= log);
        }
        Ok((state, snapshots, rejections))
    }
}

} // verus!
