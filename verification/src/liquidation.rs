//! Forced closing of a liquidatable account: its positions are closed whole,
//! largest notional first, at the mark price, until the account is no longer
//! liquidatable.

use crate::decimal::{less_or_equal, Dec, Decimal, Overflow};
use crate::events::{events_view, Event, EventType, EventTypeView, EventView};
use crate::invariants::{account_at_rest, lemma_scan_ends_at_rest};
use crate::margin::{liquidatable_model, notional_model, portfolio_liquidatable, position_notional};
use crate::ordered_map::{
    has_key, keys_sorted, lemma_rank_sorted, lookup, upsert, Duplicate, Key, OrderedMap,
};
use crate::risk::{apply_trade_to, trade_model};
use crate::state::{State, StateView};
use crate::text::{text_less, text_lt};
use crate::types::{Account, AccountView, Market, MarketView, Position, PositionView};
use vstd::prelude::*;

verus! {

/// The position chosen for closing: its market, its quantity, its notional
/// and the mark price of its market.
pub struct Pick {
    pub market_id: Key,
    pub quantity: Dec,
    pub notional: Dec,
    pub mark_price: Dec,
}

/// Whether a position goes before the choice made so far: its notional is
/// larger, or it is the same and its market identifier comes first.
pub open spec fn outranks_model(notional: Dec, market_id: Key, best: Dec, best_id: Key) -> bool {
    notional.units() > best.units() || (notional.units() == best.units() && text_lt(
        market_id,
        best_id,
    ))
}

/// The choice after one more position. A position whose market is unknown is
/// passed over; one that outranks the choice replaces it.
pub open spec fn choice_step(
    best: Option<Pick>,
    entry: (Key, PositionView),
    markets: Seq<(Key, MarketView)>,
) -> Option<Option<Pick>> {
    match lookup(markets, entry.0) {
        None => Some(best),
        Some(m) => match notional_model(entry.1.quantity, m.mark_price) {
            None => None,
            Some(notional) => {
                let pick = Pick {
                    market_id: entry.0,
                    quantity: entry.1.quantity,
                    notional,
                    mark_price: m.mark_price,
                };
                match best {
                    None => Some(Some(pick)),
                    Some(b) => if outranks_model(notional, entry.0, b.notional, b.market_id) {
                        Some(Some(pick))
                    } else {
                        Some(best)
                    },
                }
            },
        },
    }
}

/// The position with the largest notional among those whose market is known,
/// the first in ascending market order among equals; `Some(None)` where no
/// market is known, `None` where a notional overflows.
pub open spec fn choice_model(
    positions: Seq<(Key, PositionView)>,
    markets: Seq<(Key, MarketView)>,
) -> Option<Option<Pick>>
    decreases positions.len(),
{
    if positions.len() == 0 {
        Some(None)
    } else {
        match choice_model(positions.drop_last(), markets) {
            None => None,
            Some(best) => choice_step(best, positions.last(), markets),
        }
    }
}

/// A choice that failed on a prefix fails on the whole.
pub proof fn lemma_choice_fails(
    positions: Seq<(Key, PositionView)>,
    markets: Seq<(Key, MarketView)>,
    n: int,
)
    requires
        0 <= n <= positions.len(),
        choice_model(positions.take(n), markets) is None,
    ensures
        choice_model(positions, markets) is None,
    decreases positions.len() - n,
{
    if n < positions.len() {
        assert(positions.take(n + 1).drop_last() =~= positions.take(n));
        lemma_choice_fails(positions, markets, n + 1);
    } else {
        assert(positions.take(n) =~= positions);
    }
}

/// A chosen position is one of the portfolio's.
pub proof fn lemma_choice_is_held(
    positions: Seq<(Key, PositionView)>,
    markets: Seq<(Key, MarketView)>,
)
    requires
        choice_model(positions, markets) matches Some(Some(_)),
    ensures
        exists|i: int|
            0 <= i < positions.len() && (#[trigger] positions[i]).0 == choice_model(
                positions,
                markets,
            )->0->0.market_id && positions[i].1.quantity == choice_model(
                positions,
                markets,
            )->0->0.quantity,
    decreases positions.len(),
{
    let pick = choice_model(positions, markets)->0->0;
    let last = positions.len() - 1;
    let before = choice_model(positions.drop_last(), markets)->0;
    if before == Some(pick) {
        lemma_choice_is_held(positions.drop_last(), markets);
        let i = choose|i: int|
            0 <= i < positions.drop_last().len() && (#[trigger] positions.drop_last()[i]).0
                == pick.market_id && positions.drop_last()[i].1.quantity == pick.quantity;
        assert(positions[i] == positions.drop_last()[i]);
    } else {
        assert(positions[last].0 == pick.market_id);
    }
}

/// One forced close.
pub struct FillView {
    pub market_id: Key,
    pub quantity: Dec,
    pub price: Dec,
}

/// How a liquidation ended: the closes made, in order; the collateral and the
/// positions that are left; and the bankruptcy deficit to record, if one is
/// to be recorded.
pub struct Closing {
    pub fills: Seq<FillView>,
    pub collateral: Dec,
    pub positions: Seq<(Key, PositionView)>,
    pub deficit: Option<Dec>,
}

/// `max(0, -collateral)`.
pub open spec fn shortfall(collateral: Dec) -> Dec {
    if collateral.mantissa < 0 {
        collateral.neg()
    } else {
        Dec::zero()
    }
}

/// A liquidation with `done` put before its closes.
pub open spec fn after_fills(done: Seq<FillView>, rest: Option<Closing>) -> Option<Closing> {
    match rest {
        Some(c) => Some(Closing { fills: done + c.fills, ..c }),
        None => None,
    }
}

/// The liquidation of a portfolio. As long as it holds a position and is
/// liquidatable, the chosen position is closed whole at its mark price. A
/// portfolio left without positions, or without a position in a known
/// market, records `max(0, -collateral)` as its deficit; one that is
/// healthy again after a close records zero; one that was healthy from the
/// start records nothing. `None` where a number overflows.
///
/// Positions ascend by market, so a close removes a position; the model
/// stops with `None` where it would not.
pub open spec fn liquidation_model(
    collateral: Dec,
    positions: Seq<(Key, PositionView)>,
    markets: Seq<(Key, MarketView)>,
    closed_any: bool,
) -> Option<Closing>
    decreases positions.len(),
{
    if positions.len() == 0 {
        Some(
            Closing { fills: Seq::empty(), collateral, positions, deficit: Some(shortfall(collateral)) },
        )
    } else {
        match liquidatable_model(collateral, positions, markets) {
            None => None,
            Some(false) => Some(
                Closing {
                    fills: Seq::empty(),
                    collateral,
                    positions,
                    deficit: if closed_any {
                        Some(Dec::zero())
                    } else {
                        None
                    },
                },
            ),
            Some(true) => match choice_model(positions, markets) {
                None => None,
                Some(None) => Some(
                    Closing {
                        fills: Seq::empty(),
                        collateral,
                        positions,
                        deficit: Some(shortfall(collateral)),
                    },
                ),
                Some(Some(pick)) => match trade_model(
                    collateral,
                    positions,
                    pick.market_id,
                    pick.quantity.neg(),
                    pick.mark_price,
                ) {
                    None => None,
                    Some((c, p)) => if p.len() < positions.len() {
                        after_fills(
                            seq![
                                FillView {
                                    market_id: pick.market_id,
                                    quantity: pick.quantity.neg(),
                                    price: pick.mark_price,
                                },
                            ],
                            liquidation_model(c, p, markets, true),
                        )
                    } else {
                        None
                    },
                },
            },
        }
    }
}

/// The outcome of scanning one account.
pub struct Scanned {
    pub state: StateView,
    pub events: Seq<EventView>,
    pub next_sequence: u64,
}

/// The events of a liquidation: one `LiquidationFill` per close, numbered
/// from `next_sequence` on.
pub open spec fn fill_events(account_id: Key, fills: Seq<FillView>, next_sequence: u64) -> Seq<
    EventView,
> {
    Seq::new(
        fills.len(),
        |i: int|
            EventView {
                sequence: (next_sequence + i) as u64,
                event_type: EventTypeView::LiquidationFill {
                    account_id,
                    market_id: fills[i].market_id,
                    quantity: fills[i].quantity,
                    price: fills[i].price,
                },
            },
    )
}

/// The scan of one account: nothing where it does not exist; otherwise its
/// liquidation, written back to the state. `None` where a decimal overflows
/// or the sequence numbers run out.
pub open spec fn scan_account_model(state: StateView, account_id: Key, next_sequence: u64) -> Option<
    Scanned,
> {
    match lookup(state.accounts, account_id) {
        None => Some(Scanned { state, events: Seq::empty(), next_sequence }),
        Some(account) => match liquidation_model(
            account.collateral,
            account.positions,
            state.markets,
            false,
        ) {
            None => None,
            Some(closing) => if next_sequence + closing.fills.len() > u64::MAX {
                None
            } else {
                Some(
                    Scanned {
                        state: StateView {
                            accounts: upsert(
                                state.accounts,
                                account_id,
                                AccountView {
                                    collateral: closing.collateral,
                                    positions: closing.positions,
                                    bankruptcy_deficit: match closing.deficit {
                                        Some(d) => d,
                                        None => account.bankruptcy_deficit,
                                    },
                                    ..account
                                },
                            ),
                            markets: state.markets,
                        },
                        events: fill_events(account_id, closing.fills, next_sequence),
                        next_sequence: (next_sequence + closing.fills.len()) as u64,
                    },
                )
            },
        },
    }
}

struct Chosen {
    market_id: String,
    quantity: Decimal,
    notional: Decimal,
    mark_price: Decimal,
}

impl View for Chosen {
    type V = Pick;

    closed spec fn view(&self) -> Pick {
        Pick {
            market_id: self.market_id@,
            quantity: self.quantity@,
            notional: self.notional@,
            mark_price: self.mark_price@,
        }
    }
}

spec fn option_pick(c: Option<Chosen>) -> Option<Pick> {
    match c {
        Some(c) => Some(c@),
        None => None,
    }
}

spec fn option_option_pick(c: Option<Option<Chosen>>) -> Option<Option<Pick>> {
    match c {
        Some(c) => Some(option_pick(c)),
        None => None,
    }
}

/// Whether a position of the given notional and market goes before one of
/// the notional `best` in the market `best_id` when a liquidation chooses.
pub fn outranks(notional: &Decimal, market_id: &str, best: &Decimal, best_id: &str) -> (r: bool)
    ensures
        r == outranks_model(notional@, market_id@, best@, best_id@),
{
    let not_above = less_or_equal(notional, best);
    let not_below = less_or_equal(best, notional);
    !not_above || (not_below && text_less(market_id, best_id))
}

fn choose_next(best: Option<Chosen>, key: &String, pos: &Position, markets: &OrderedMap<Market>) -> (r:
    Option<Option<Chosen>>)
    ensures
        option_option_pick(r) == choice_step(option_pick(best), (key@, pos@), markets@),
{
    let m = match markets.get(key.as_str()) {
        Some(m) => m,
        None => {
            return Some(best);
        },
    };
    let notional = match position_notional(pos.quantity, m.mark_price) {
        Some(n) => n,
        None => {
            return None;
        },
    };
    let replace = match &best {
        None => true,
        Some(b) => outranks(&notional, key.as_str(), &b.notional, b.market_id.as_str()),
    };
    if replace {
        Some(
            Some(
                Chosen {
                    market_id: key.clone(),
                    quantity: pos.quantity,
                    notional,
                    mark_price: m.mark_price,
                },
            ),
        )
    } else {
        Some(best)
    }
}

fn select_position(positions: &OrderedMap<Position>, markets: &OrderedMap<Market>) -> (r: Option<
    Option<Chosen>,
>)
    ensures
        option_option_pick(r) == choice_model(positions@, markets@),
{
    let n = positions.len();
    let mut best: Option<Chosen> = None;
    let mut i: usize = 0;
    proof {
        assert(positions@.take(0) =~= Seq::<(Key, PositionView)>::empty());
    }
    while i < n
        invariant
            n == positions@.len(),
            i <= n,
            choice_model(positions@.take(i as int), markets@) == Some(option_pick(best)),
        decreases n - i,
    {
        proof {
            assert(positions@.take(i as int + 1).drop_last() =~= positions@.take(i as int));
        }
        match choose_next(best, positions.key_at(i), positions.value_at(i), markets) {
            Some(b) => {
                best = b;
            },
            None => {
                proof {
                    lemma_choice_fails(positions@, markets@, i as int + 1);
                }
                return None;
            },
        }
        i = i + 1;
    }
    proof {
        assert(positions@.take(n as int) =~= positions@);
    }
    Some(best)
}

struct Fill {
    market_id: String,
    quantity: Decimal,
    price: Decimal,
}

impl View for Fill {
    type V = FillView;

    closed spec fn view(&self) -> FillView {
        FillView { market_id: self.market_id@, quantity: self.quantity@, price: self.price@ }
    }
}

struct Closed {
    fills: Vec<Fill>,
    collateral: Decimal,
    positions: OrderedMap<Position>,
    deficit: Option<Decimal>,
}

impl View for Closed {
    type V = Closing;

    closed spec fn view(&self) -> Closing {
        Closing {
            fills: self.fills@.map_values(|f: Fill| f@),
            collateral: self.collateral@,
            positions: self.positions@,
            deficit: match self.deficit {
                Some(d) => Some(d@),
                None => None,
            },
        }
    }
}

spec fn option_closing(r: Option<Closed>) -> Option<Closing> {
    match r {
        Some(c) => Some(c@),
        None => None,
    }
}

fn deficit_of(collateral: &Decimal) -> (r: Decimal)
    ensures
        r@ == shortfall(collateral@),
{
    if collateral.sign() < 0 {
        collateral.neg()
    } else {
        Decimal::zero()
    }
}

/// Closing a held position whole removes it.
proof fn lemma_close_removes(
    collateral: Dec,
    positions: Seq<(Key, PositionView)>,
    markets: Seq<(Key, MarketView)>,
)
    requires
        keys_sorted(positions),
        choice_model(positions, markets) matches Some(Some(_)),
    ensures
        ({
            let pick = choice_model(positions, markets)->0->0;
            trade_model(
                collateral,
                positions,
                pick.market_id,
                pick.quantity.neg(),
                pick.mark_price,
            ) matches Some((c, p)) ==> p.len() < positions.len()
        }),
{
    let pick = choice_model(positions, markets)->0->0;
    lemma_choice_is_held(positions, markets);
    let i = choose|i: int|
        0 <= i < positions.len() && (#[trigger] positions[i]).0 == pick.market_id
            && positions[i].1.quantity == pick.quantity;
    lemma_rank_sorted(positions, pick.market_id);
    assert(has_key(positions, pick.market_id));
    assert(lookup(positions, pick.market_id) == Some(positions[i].1));
}

fn liquidate_portfolio(
    collateral: Decimal,
    positions: &OrderedMap<Position>,
    markets: &OrderedMap<Market>,
) -> (r: Option<Closed>)
    ensures
        option_closing(r) == liquidation_model(collateral@, positions@, markets@, false),
{
    let mut cash = collateral;
    let mut held = positions.duplicate();
    let mut fills: Vec<Fill> = Vec::new();
    let mut closed_any = false;
    proof {
        assert(fills@.map_values(|f: Fill| f@) =~= Seq::<FillView>::empty());
        let start = liquidation_model(collateral@, positions@, markets@, false);
        if start is Some {
            assert(Seq::<FillView>::empty() + start->0.fills =~= start->0.fills);
        }
    }
    loop
        invariant
            liquidation_model(collateral@, positions@, markets@, false) == after_fills(
                fills@.map_values(|f: Fill| f@),
                liquidation_model(cash@, held@, markets@, closed_any),
            ),
        decreases held@.len(),
    {
        let ghost done = fills@.map_values(|f: Fill| f@);
        let ghost here = liquidation_model(cash@, held@, markets@, closed_any);
        if held.len() == 0 {
            let deficit = Some(deficit_of(&cash));
            proof {
                assert(done + here->0.fills =~= done);
            }
            return Some(Closed { fills, collateral: cash, positions: held, deficit });
        }
        match portfolio_liquidatable(cash, &held, markets) {
            None => {
                return None;
            },
            Some(false) => {
                let deficit = if closed_any {
                    Some(Decimal::zero())
                } else {
                    None
                };
                proof {
                    assert(done + here->0.fills =~= done);
                }
                return Some(Closed { fills, collateral: cash, positions: held, deficit });
            },
            Some(true) => {},
        }
        let pick = match select_position(&held, markets) {
            None => {
                return None;
            },
            Some(None) => {
                let deficit = Some(deficit_of(&cash));
                proof {
                    assert(done + here->0.fills =~= done);
                }
                return Some(Closed { fills, collateral: cash, positions: held, deficit });
            },
            Some(Some(pick)) => pick,
        };
        proof {
            lemma_close_removes(cash@, held@, markets@);
        }
        let close_qty = pick.quantity.neg();
        match apply_trade_to(
            &mut cash,
            &mut held,
            pick.market_id.as_str(),
            close_qty,
            pick.mark_price,
        ) {
            Ok(()) => {},
            Err(_) => {
                return None;
            },
        }
        let fill = Fill { market_id: pick.market_id, quantity: close_qty, price: pick.mark_price };
        proof {
            let next = liquidation_model(cash@, held@, markets@, true);
            assert(here == after_fills(seq![fill@], next));
            assert(fills@.push(fill).map_values(|f: Fill| f@) =~= done.push(fill@));
            if next is Some {
                assert(done + (seq![fill@] + next->0.fills) =~= done.push(fill@) + next->0.fills);
            }
        }
        fills.push(fill);
        closed_any = true;
    }
}

/// Scans an account. If it is liquidatable, its positions are closed largest
/// notional first, and the `LiquidationFill` events are returned, numbered
/// from `next_sequence` on. On overflow nothing is changed. After the scan
/// the account needs no further close.
pub fn check_and_liquidate(state: &mut State, account_id: &str, next_sequence: &mut u64) -> (r:
    Result<Vec<Event>, Overflow>)
    ensures
        match scan_account_model(old(state)@, account_id@, *old(next_sequence)) {
            Some(out) => {
                &&& r matches Ok(events) && events_view(events@) == out.events
                &&& final(state)@ == out.state
                &&& *final(next_sequence) == out.next_sequence
            },
            None => {
                &&& r is Err
                &&& final(state)@ == old(state)@
                &&& *final(next_sequence) == *old(next_sequence)
            },
        },
        old(state)@.wf() && r is Ok ==> final(state)@.wf() && account_at_rest(
            final(state)@,
            account_id@,
        ),
{
    proof {
        if state@.wf() {
            lemma_scan_ends_at_rest(state@, account_id@, *next_sequence);
        }
    }
    let account = match state.accounts.get(account_id) {
        Some(a) => a,
        None => {
            let none: Vec<Event> = Vec::new();
            proof {
                assert(events_view(none@) =~= Seq::<EventView>::empty());
            }
            return Ok(none);
        },
    };
    let closed = match liquidate_portfolio(account.collateral, &account.positions, &state.markets) {
        Some(c) => c,
        None => {
            return Err(Overflow);
        },
    };
    let count = closed.fills.len();
    let first = *next_sequence;
    if count as u64 > u64::MAX - first {
        return Err(Overflow);
    }
    let ghost fills = closed@.fills;
    let mut events: Vec<Event> = Vec::new();
    let mut i: usize = 0;
    while i < count
        invariant
            count == closed.fills.len(),
            fills == closed.fills@.map_values(|f: Fill| f@),
            first + count <= u64::MAX,
            i <= count,
            events.len() == i,
            forall|j: int|
                0 <= j < i ==> (#[trigger] events[j])@ == fill_events(account_id@, fills, first)[j],
        decreases count - i,
    {
        let f = &closed.fills[i];
        events.push(
            Event {
                sequence: first + i as u64,
                event_type: EventType::LiquidationFill {
                    account_id: account_id.to_owned(),
                    market_id: f.market_id.clone(),
                    quantity: f.quantity,
                    price: f.price,
                },
            },
        );
        i = i + 1;
    }
    proof {
        assert(events_view(events@) =~= fill_events(account_id@, fills, first));
    }
    let updated = Account {
        account_id: account.account_id.clone(),
        collateral: closed.collateral,
        positions: closed.positions,
        last_funding: account.last_funding.duplicate(),
        bankruptcy_deficit: match closed.deficit {
            Some(d) => d,
            None => account.bankruptcy_deficit,
        },
    };
    state.accounts.insert(account_id.to_owned(), updated);
    *next_sequence = first + count as u64;
    Ok(events)
}

} // verus!
