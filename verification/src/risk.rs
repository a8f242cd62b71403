//! Trade accounting and the checks made before a trade or a withdrawal is
//! applied.

use crate::decimal::{
    checked_add, checked_div, checked_mul, checked_sub, dec_add, dec_div, dec_mul, dec_sub,
    decimal_text, exact_product, exact_quotient, exact_sum, lemma_add_negated, lemma_add_zero,
    lemma_mul_commutes, lemma_mul_negated, lemma_pow10_positive, lemma_sub_negated,
    lemma_sub_self, lemma_units_sign, less_or_equal, plain_product, plain_quotient, plain_sum,
    pow10, to_text, Dec, Decimal, Overflow, MAX_SCALE,
};
use crate::margin::{
    equity_model, notional_model, pnl_model, portfolio_equity, portfolio_margin,
    position_notional, position_unrealized_pnl, total_margin,
};
use crate::ordered_map::{
    erase, has_key, keys_sorted, lemma_erase_upsert, lemma_lookup_upsert_same, lemma_rank,
    lemma_upsert_members, lookup, rank, upsert, Key, OrderedMap,
};
use crate::state::{State, StateView};
use crate::types::{Account, Market, MarketView, Position, PositionView};
use vstd::prelude::*;
use vstd::string::StringExecFns;

verus! {

/// Result of a pre-trade or pre-withdrawal risk check.
#[derive(Debug, Clone, PartialEq, Eq)]
pub enum TradeCheck {
    Accepted,
    Rejected(String),
}

/// The result of a check as contracts see it.
pub enum Verdict {
    Accepted,
    Rejected(Seq<char>),
}

impl View for TradeCheck {
    type V = Verdict;

    open spec fn view(&self) -> Verdict {
        match self {
            TradeCheck::Accepted => Verdict::Accepted,
            TradeCheck::Rejected(reason) => Verdict::Rejected(reason@),
        }
    }
}

/// The views of an optional check result.
pub open spec fn option_verdict(r: Option<TradeCheck>) -> Option<Verdict> {
    match r {
        Some(c) => Some(c@),
        None => None,
    }
}

/// What a fill does to the position it meets: the P&L it realizes, if any,
/// and the quantity and cost basis that remain, if any. `kept` says that the
/// position is the earlier one, changed in place.
pub struct FillEffect {
    pub realized: Option<Dec>,
    pub holding: Option<(Dec, Dec)>,
    pub kept: bool,
}

/// The closing of the fraction `|q_f| / |q_c|`, at most 1, of a position.
pub open spec fn partial_close(q_c: Dec, c_c: Dec, q_n: Dec, q_f: Dec, p_f: Dec) -> Option<
    FillEffect,
> {
    match dec_div(q_f.abs(), q_c.abs()) {
        None => None,
        Some(raw) => {
            let fraction = if raw.units() > Dec::one().units() {
                Dec::one()
            } else {
                raw
            };
            match (dec_mul(q_c, fraction), dec_mul(c_c, fraction)) {
                (Some(closed_qty), Some(closed_cost)) => match dec_mul(closed_qty, p_f) {
                    Some(proceeds) => match (
                        dec_sub(proceeds, closed_cost),
                        dec_sub(c_c, closed_cost),
                    ) {
                        (Some(realized), Some(cost)) => Some(
                            FillEffect {
                                realized: Some(realized),
                                holding: Some((q_n, cost)),
                                kept: true,
                            },
                        ),
                        _ => None,
                    },
                    None => None,
                },
                _ => None,
            }
        },
    }
}

/// What a fill is to the position that it meets.
#[derive(Debug, Clone, Copy, PartialEq, Eq)]
pub enum FillKind {
    /// The new quantity is zero.
    FullClose,
    /// There was no position.
    FreshOpen,
    /// The fill goes the way of the position.
    Increase,
    /// The fill goes against the position and leaves some of it.
    PartialClose,
    /// The fill goes against the position and beyond it.
    Flip,
}

/// The kind of a fill `q_f` on a position of quantity `q_c`, zero where
/// there is none, given the new quantity `q_n = q_c + q_f`. In this order: a
/// full close where `q_n` is zero, a fresh open where `q_c` is zero, an
/// increase where `q_c` and `q_f` have the same sign, a partial close where
/// `q_n` has the sign of `q_c`, and a flip otherwise.
pub open spec fn fill_kind_model(q_c: Dec, q_f: Dec, q_n: Dec) -> FillKind {
    if q_n.is_zero() {
        FillKind::FullClose
    } else if q_c.is_zero() {
        FillKind::FreshOpen
    } else if q_c.sign() == q_f.sign() {
        FillKind::Increase
    } else if q_n.sign() == q_c.sign() {
        FillKind::PartialClose
    } else {
        FillKind::Flip
    }
}

/// The effect of a fill `(q_f, p_f)` on a position of quantity `q_c` and cost
/// basis `c_c`, both zero where there is none, by the kind of the fill. A
/// full close realizes `p_f * q_c - c_c`; a fresh open costs `q_f * p_f`; an
/// increase adds `q_f * p_f` to the cost basis; a flip realizes as a full
/// close does and opens the rest at `q_n * p_f`.
pub open spec fn fill_effect(q_c: Dec, c_c: Dec, q_f: Dec, p_f: Dec) -> Option<FillEffect> {
    match dec_add(q_c, q_f) {
        None => None,
        Some(q_n) => match fill_kind_model(q_c, q_f, q_n) {
            FillKind::FullClose => match pnl_model(q_c, c_c, p_f) {
                Some(realized) => Some(
                    FillEffect { realized: Some(realized), holding: None, kept: false },
                ),
                None => None,
            },
            FillKind::FreshOpen => match dec_mul(q_f, p_f) {
                Some(cost) => Some(
                    FillEffect { realized: None, holding: Some((q_f, cost)), kept: false },
                ),
                None => None,
            },
            FillKind::Increase => match dec_mul(q_f, p_f) {
                Some(added) => match dec_add(c_c, added) {
                    Some(cost) => Some(
                        FillEffect { realized: None, holding: Some((q_n, cost)), kept: true },
                    ),
                    None => None,
                },
                None => None,
            },
            FillKind::PartialClose => partial_close(q_c, c_c, q_n, q_f, p_f),
            FillKind::Flip => match (pnl_model(q_c, c_c, p_f), dec_mul(q_n, p_f)) {
                (Some(realized), Some(cost)) => Some(
                    FillEffect { realized: Some(realized), holding: Some((q_n, cost)), kept: false },
                ),
                _ => None,
            },
        },
    }
}

/// Collateral and positions after a fill in `market_id`; `None` where a
/// number overflows on the way.
pub open spec fn trade_model(
    collateral: Dec,
    positions: Seq<(Key, PositionView)>,
    market_id: Key,
    q_f: Dec,
    p_f: Dec,
) -> Option<(Dec, Seq<(Key, PositionView)>)> {
    let current = lookup(positions, market_id);
    let effect = match current {
        Some(p) => fill_effect(p.quantity, p.cost_basis, q_f, p_f),
        None => fill_effect(Dec::zero(), Dec::zero(), q_f, p_f),
    };
    match effect {
        None => None,
        Some(e) => {
            let paid = match e.realized {
                Some(r) => dec_add(collateral, r),
                None => Some(collateral),
            };
            match paid {
                None => None,
                Some(c) => Some(
                    (
                        c,
                        match e.holding {
                            None => erase(positions, market_id),
                            Some((quantity, cost_basis)) => upsert(
                                positions,
                                market_id,
                                PositionView {
                                    market_id: if e.kept && current is Some {
                                        current->0.market_id
                                    } else {
                                        market_id
                                    },
                                    quantity,
                                    cost_basis,
                                },
                            ),
                        },
                    ),
                ),
            }
        },
    }
}

struct Effect {
    realized: Option<Decimal>,
    holding: Option<(Decimal, Decimal)>,
    kept: bool,
}

impl View for Effect {
    type V = FillEffect;

    closed spec fn view(&self) -> FillEffect {
        FillEffect {
            realized: match self.realized {
                Some(r) => Some(r@),
                None => None,
            },
            holding: match self.holding {
                Some((q, c)) => Some((q@, c@)),
                None => None,
            },
            kept: self.kept,
        }
    }
}

spec fn option_effect(r: Option<Effect>) -> Option<FillEffect> {
    match r {
        Some(e) => Some(e@),
        None => None,
    }
}

fn close_part(q_c: Decimal, c_c: Decimal, q_n: Decimal, q_f: Decimal, p_f: Decimal) -> (r: Option<
    Effect,
>)
    ensures
        option_effect(r) == partial_close(q_c@, c_c@, q_n@, q_f@, p_f@),
{
    let raw = match checked_div(&q_f.abs(), &q_c.abs()) {
        Some(raw) => raw,
        None => {
            return None;
        },
    };
    let one = Decimal::one();
    let fraction = if !less_or_equal(&raw, &one) {
        one
    } else {
        raw
    };
    let closed_qty = checked_mul(&q_c, &fraction);
    let closed_cost = checked_mul(&c_c, &fraction);
    match (closed_qty, closed_cost) {
        (Some(closed_qty), Some(closed_cost)) => {
            let proceeds = match checked_mul(&closed_qty, &p_f) {
                Some(proceeds) => proceeds,
                None => {
                    return None;
                },
            };
            let realized = checked_sub(&proceeds, &closed_cost);
            let cost = checked_sub(&c_c, &closed_cost);
            match (realized, cost) {
                (Some(realized), Some(cost)) => Some(
                    Effect { realized: Some(realized), holding: Some((q_n, cost)), kept: true },
                ),
                _ => None,
            }
        },
        _ => None,
    }
}

/// The kind of a fill on a position of quantity `current`, zero where there
/// is none, given the new quantity `new`.
pub fn fill_kind(current: &Decimal, fill: &Decimal, new: &Decimal) -> (k: FillKind)
    ensures
        k == fill_kind_model(current@, fill@, new@),
{
    if new.is_zero() {
        FillKind::FullClose
    } else if current.is_zero() {
        FillKind::FreshOpen
    } else if current.sign() == fill.sign() {
        FillKind::Increase
    } else if new.sign() == current.sign() {
        FillKind::PartialClose
    } else {
        FillKind::Flip
    }
}

fn compute_fill(q_c: Decimal, c_c: Decimal, q_f: Decimal, p_f: Decimal) -> (r: Option<Effect>)
    ensures
        option_effect(r) == fill_effect(q_c@, c_c@, q_f@, p_f@),
{
    let q_n = match checked_add(&q_c, &q_f) {
        Some(q_n) => q_n,
        None => {
            return None;
        },
    };
    match fill_kind(&q_c, &q_f, &q_n) {
        FillKind::FullClose => match position_unrealized_pnl(q_c, c_c, p_f) {
            Some(realized) => Some(Effect { realized: Some(realized), holding: None, kept: false }),
            None => None,
        },
        FillKind::FreshOpen => match checked_mul(&q_f, &p_f) {
            Some(cost) => Some(Effect { realized: None, holding: Some((q_f, cost)), kept: false }),
            None => None,
        },
        FillKind::Increase => match checked_mul(&q_f, &p_f) {
            Some(added) => match checked_add(&c_c, &added) {
                Some(cost) => Some(
                    Effect { realized: None, holding: Some((q_n, cost)), kept: true },
                ),
                None => None,
            },
            None => None,
        },
        FillKind::PartialClose => close_part(q_c, c_c, q_n, q_f, p_f),
        FillKind::Flip => {
            let realized = position_unrealized_pnl(q_c, c_c, p_f);
            let cost = checked_mul(&q_n, &p_f);
            match (realized, cost) {
                (Some(realized), Some(cost)) => Some(
                    Effect { realized: Some(realized), holding: Some((q_n, cost)), kept: false },
                ),
                _ => None,
            }
        },
    }
}

/// Applies a fill to a collateral balance and a set of positions: no risk
/// check, no event. On overflow nothing is changed.
pub fn apply_trade_to(
    collateral: &mut Decimal,
    positions: &mut OrderedMap<Position>,
    market_id: &str,
    fill_quantity: Decimal,
    fill_price: Decimal,
) -> (r: Result<(), Overflow>)
    ensures
        match trade_model(
            old(collateral)@,
            old(positions)@,
            market_id@,
            fill_quantity@,
            fill_price@,
        ) {
            Some((c, p)) => r is Ok && final(collateral)@ == c && final(positions)@ == p,
            None => {
                &&& r is Err
                &&& final(collateral)@ == old(collateral)@
                &&& final(positions)@ == old(positions)@
            },
        },
{
    let (effect, kept_id) = match positions.get(market_id) {
        Some(p) => (
            compute_fill(p.quantity, p.cost_basis, fill_quantity, fill_price),
            p.market_id.clone(),
        ),
        None => (
            compute_fill(Decimal::zero(), Decimal::zero(), fill_quantity, fill_price),
            market_id.to_owned(),
        ),
    };
    let effect = match effect {
        Some(e) => e,
        None => {
            return Err(Overflow);
        },
    };
    let paid = match effect.realized {
        Some(r) => match checked_add(collateral, &r) {
            Some(c) => c,
            None => {
                return Err(Overflow);
            },
        },
        None => *collateral,
    };
    match effect.holding {
        None => {
            positions.remove(market_id);
        },
        Some((quantity, cost_basis)) => {
            let id = if effect.kept {
                kept_id
            } else {
                market_id.to_owned()
            };
            positions.insert(market_id.to_owned(), Position { market_id: id, quantity, cost_basis });
        },
    }
    *collateral = paid;
    Ok(())
}

/// The effect on the short side that mirrors an effect on the long side, and
/// the other way round: the realized P&L, the quantity and the cost basis
/// change sign.
pub open spec fn mirrored(effect: Option<FillEffect>) -> Option<FillEffect> {
    match effect {
        None => None,
        Some(e) => Some(
            FillEffect {
                realized: match e.realized {
                    Some(r) => Some(r.neg()),
                    None => None,
                },
                holding: match e.holding {
                    Some((q, c)) => Some((q.neg(), c.neg())),
                    None => None,
                },
                kept: e.kept,
            },
        ),
    }
}

/// Sign symmetry: a fill on the mirrored position, with the quantities
/// negated and the price unchanged, has the mirrored effect. The collateral
/// moves by the same amount the other way, and what is left of the position
/// is the mirror of what the fill leaves on the other side.
pub proof fn lemma_fill_mirrors(q_c: Dec, c_c: Dec, q_f: Dec, p_f: Dec)
    ensures
        fill_effect(q_c.neg(), c_c.neg(), q_f.neg(), p_f) == mirrored(
            fill_effect(q_c, c_c, q_f, p_f),
        ),
{
    lemma_add_negated(q_c, q_f);
    assert(q_f.neg().abs() == q_f.abs());
    assert(q_c.neg().abs() == q_c.abs());
    match dec_add(q_c, q_f) {
        None => {},
        Some(q_n) => {
            lemma_mul_negated(p_f, q_c);
            match dec_mul(p_f, q_c) {
                Some(v) => {
                    lemma_sub_negated(v, c_c);
                },
                None => {},
            }
            lemma_mul_negated(q_f, p_f);
            match dec_mul(q_f, p_f) {
                Some(added) => {
                    lemma_add_negated(c_c, added);
                },
                None => {},
            }
            lemma_mul_negated(q_n, p_f);
            match dec_div(q_f.abs(), q_c.abs()) {
                None => {},
                Some(raw) => {
                    let fraction = if raw.units() > Dec::one().units() {
                        Dec::one()
                    } else {
                        raw
                    };
                    lemma_mul_negated(q_c, fraction);
                    lemma_mul_negated(c_c, fraction);
                    match (dec_mul(q_c, fraction), dec_mul(c_c, fraction)) {
                        (Some(closed_qty), Some(closed_cost)) => {
                            lemma_mul_negated(closed_qty, p_f);
                            lemma_sub_negated(c_c, closed_cost);
                            match dec_mul(closed_qty, p_f) {
                                Some(proceeds) => {
                                    lemma_sub_negated(proceeds, closed_cost);
                                },
                                None => {},
                            }
                        },
                        _ => {},
                    }
                },
            }
        },
    }
}

/// No-op round trip: opening a position and closing it whole at the same
/// price leaves the positions as they were and the collateral at the same
/// number; a collateral that is not zero comes back in the same
/// representation.
pub proof fn lemma_open_then_close(
    collateral: Dec,
    positions: Seq<(Key, PositionView)>,
    market_id: Key,
    q: Dec,
    p: Dec,
)
    requires
        keys_sorted(positions),
        !has_key(positions, market_id),
        !q.is_zero(),
        trade_model(collateral, positions, market_id, q, p) is Some,
    ensures
        ({
            let (c1, p1) = trade_model(collateral, positions, market_id, q, p)->0;
            match trade_model(c1, p1, market_id, q.neg(), p) {
                Some((c2, p2)) => {
                    &&& p2 == positions
                    &&& c2.units() == collateral.units()
                    &&& !collateral.is_zero() ==> c2 == collateral
                },
                None => false,
            }
        }),
{
    let cost = dec_mul(q, p)->0;
    let held = PositionView { market_id, quantity: q, cost_basis: cost };
    lemma_lookup_upsert_same(positions, market_id, held);
    lemma_erase_upsert(positions, market_id, held);
    lemma_mul_commutes(q, p);
    lemma_sub_self(cost);
    lemma_add_zero(collateral, Dec { mantissa: 0, scale: cost.scale });
}

/// A fill never leaves a position of quantity zero.
pub proof fn lemma_fill_leaves_no_empty_position(q_c: Dec, c_c: Dec, q_f: Dec, p_f: Dec)
    ensures
        fill_effect(q_c, c_c, q_f, p_f) matches Some(e) ==> (e.holding matches Some((q, _))
            ==> !q.is_zero()),
{
}

/// The sums, products and quotients that decide what a fill leaves of a
/// position are the exact numbers: nothing was rounded on the way to the new
/// quantity and the new cost basis.
pub open spec fn holding_is_exact(q_c: Dec, c_c: Dec, q_f: Dec, p_f: Dec) -> bool {
    match dec_add(q_c, q_f) {
        None => true,
        Some(q_n) => exact_sum(q_c, q_f, q_n) && match fill_kind_model(q_c, q_f, q_n) {
            FillKind::FullClose => true,
            FillKind::FreshOpen => dec_mul(q_f, p_f) matches Some(cost) ==> exact_product(
                q_f,
                p_f,
                cost,
            ),
            FillKind::Increase => dec_mul(q_f, p_f) matches Some(added) ==> exact_product(
                q_f,
                p_f,
                added,
            ) && (dec_add(c_c, added) matches Some(cost) ==> exact_sum(c_c, added, cost)),
            FillKind::PartialClose => dec_div(q_f.abs(), q_c.abs()) matches Some(raw)
                ==> exact_quotient(q_f.abs(), q_c.abs(), raw) && (dec_mul(c_c, raw) matches Some(
                closed_cost,
            ) ==> exact_product(c_c, raw, closed_cost) && (dec_sub(c_c, closed_cost) matches Some(
                cost,
            ) ==> exact_sum(c_c, closed_cost.neg(), cost))),
            FillKind::Flip => dec_mul(q_n, p_f) matches Some(cost) ==> exact_product(
                q_n,
                p_f,
                cost,
            ),
        },
    }
}

/// Cost basis sign, where nothing is rounded: a fill at a positive price, on
/// a position whose cost basis has the sign of its quantity, leaves a
/// position whose cost basis has the sign of its quantity.
pub proof fn lemma_cost_basis_keeps_sign(q_c: Dec, c_c: Dec, q_f: Dec, p_f: Dec)
    requires
        p_f.mantissa > 0,
        q_c.is_zero() || c_c.sign() == q_c.sign(),
        holding_is_exact(q_c, c_c, q_f, p_f),
    ensures
        fill_effect(q_c, c_c, q_f, p_f) matches Some(e) ==> (e.holding matches Some((q, c))
            ==> c.sign() == q.sign()),
{
    let t = pow10(MAX_SCALE as nat) as int;
    lemma_pow10_positive(MAX_SCALE as nat);
    lemma_units_sign(q_c);
    lemma_units_sign(c_c);
    lemma_units_sign(q_f);
    lemma_units_sign(p_f);
    let p = p_f.units();
    match fill_effect(q_c, c_c, q_f, p_f) {
        Some(e) => {
            let q_n = dec_add(q_c, q_f)->0;
            lemma_units_sign(q_n);
            match e.holding {
                Some((q, c)) => {
                    lemma_units_sign(q);
                    lemma_units_sign(c);
                    if q_c.is_zero() {
                        let x = q_f.units();
                        let y = c.units();
                        assert((y > 0 <==> x > 0) && (y < 0 <==> x < 0)) by (nonlinear_arith)
                            requires
                                y * t == x * p,
                                t > 0,
                                p > 0,
                        ;
                    } else if q_c.sign() == q_f.sign() {
                        let added = dec_mul(q_f, p_f)->0;
                        lemma_units_sign(added);
                        let x = q_f.units();
                        let y = added.units();
                        assert((y > 0 <==> x > 0) && (y < 0 <==> x < 0)) by (nonlinear_arith)
                            requires
                                y * t == x * p,
                                t > 0,
                                p > 0,
                        ;
                    } else if q_n.sign() == q_c.sign() {
                        let raw = dec_div(q_f.abs(), q_c.abs())->0;
                        let closed_cost = dec_mul(c_c, raw)->0;
                        lemma_units_sign(q_f.abs());
                        lemma_units_sign(q_c.abs());
                        lemma_units_sign(raw);
                        lemma_units_sign(closed_cost);
                        assert(Dec::one().units() == t);
                        let f = raw.units();
                        let a = q_f.abs().units();
                        let b = q_c.abs().units();
                        assert(0 <= a < b);
                        assert(0 <= f < t) by (nonlinear_arith)
                            requires
                                f * b == a * t,
                                0 <= a < b,
                                t > 0,
                        ;
                        let k = c_c.units();
                        let z = closed_cost.units();
                        assert((k > 0 ==> z < k) && (k < 0 ==> z > k)) by (nonlinear_arith)
                            requires
                                z * t == k * f,
                                0 <= f < t,
                                t > 0,
                        ;
                    } else {
                        let x = q_n.units();
                        let y = c.units();
                        assert((y > 0 <==> x > 0) && (y < 0 <==> x < 0)) by (nonlinear_arith)
                            requires
                                y * t == x * p,
                                t > 0,
                                p > 0,
                        ;
                    }
                },
                None => {},
            }
        },
        None => {},
    }
}

/// Every position has a quantity that is not zero and a cost basis with the
/// sign of its quantity.
pub open spec fn signs_agree(positions: Seq<(Key, PositionView)>) -> bool {
    forall|i: int|
        0 <= i < positions.len() ==> !(#[trigger] positions[i]).1.quantity.is_zero()
            && positions[i].1.cost_basis.sign() == positions[i].1.quantity.sign()
}

/// The quantity and the cost basis that a fill in `market_id` meets: those
/// of the position there, zero where there is none.
pub open spec fn met(positions: Seq<(Key, PositionView)>, market_id: Key) -> (Dec, Dec) {
    match lookup(positions, market_id) {
        Some(p) => (p.quantity, p.cost_basis),
        None => (Dec::zero(), Dec::zero()),
    }
}

/// Cost basis sign, for a whole portfolio: where every position has a cost
/// basis with the sign of its quantity, a trade at a positive price on whose
/// way nothing is rounded leaves a portfolio of the same kind.
pub proof fn lemma_trade_keeps_cost_basis_signs(
    collateral: Dec,
    positions: Seq<(Key, PositionView)>,
    market_id: Key,
    q_f: Dec,
    p_f: Dec,
)
    requires
        signs_agree(positions),
        p_f.mantissa > 0,
        holding_is_exact(met(positions, market_id).0, met(positions, market_id).1, q_f, p_f),
    ensures
        trade_model(collateral, positions, market_id, q_f, p_f) matches Some((c, p))
            ==> signs_agree(p),
{
    let (q_c, c_c) = met(positions, market_id);
    lemma_rank(positions, market_id);
    if has_key(positions, market_id) {
        assert(positions[rank(positions, market_id) as int].1.quantity == q_c);
    }
    lemma_cost_basis_keeps_sign(q_c, c_c, q_f, p_f);
    lemma_fill_leaves_no_empty_position(q_c, c_c, q_f, p_f);
    match trade_model(collateral, positions, market_id, q_f, p_f) {
        Some((c, p)) => {
            let e = fill_effect(q_c, c_c, q_f, p_f)->0;
            match e.holding {
                Some((quantity, cost_basis)) => {
                    let current = lookup(positions, market_id);
                    let held = PositionView {
                        market_id: if e.kept && current is Some {
                            current->0.market_id
                        } else {
                            market_id
                        },
                        quantity,
                        cost_basis,
                    };
                    lemma_upsert_members(positions, market_id, held);
                    assert forall|i: int| 0 <= i < p.len() implies !(#[trigger] p[i]).1.quantity.is_zero()
                        && p[i].1.cost_basis.sign() == p[i].1.quantity.sign() by {
                        if p[i] != (market_id, held) {
                            let j = choose|j: int| 0 <= j < positions.len() && positions[j] == p[i];
                            assert(!positions[j].1.quantity.is_zero());
                        }
                    }
                },
                None => {
                    let r = rank(positions, market_id) as int;
                    assert forall|i: int| 0 <= i < p.len() implies !(#[trigger] p[i]).1.quantity.is_zero()
                        && p[i].1.cost_basis.sign() == p[i].1.quantity.sign() by {
                        if has_key(positions, market_id) {
                            let j = if i < r {
                                i
                            } else {
                                i + 1
                            };
                            assert(p[i] == positions[j]);
                        } else {
                            assert(p[i] == positions[i]);
                        }
                    }
                },
            }
        },
        None => {},
    }
}

/// The test that nothing was rounded on the way to what a fill leaves of a
/// position: [`holding_is_exact`] with each sum, product and quotient put to
/// the test on mantissas and scales.
pub open spec fn holding_is_plainly_exact(q_c: Dec, c_c: Dec, q_f: Dec, p_f: Dec) -> bool {
    match dec_add(q_c, q_f) {
        None => true,
        Some(q_n) => plain_sum(q_c, q_f, q_n) && match fill_kind_model(q_c, q_f, q_n) {
            FillKind::FullClose => true,
            FillKind::FreshOpen => dec_mul(q_f, p_f) matches Some(cost) ==> plain_product(
                q_f,
                p_f,
                cost,
            ),
            FillKind::Increase => dec_mul(q_f, p_f) matches Some(added) ==> plain_product(
                q_f,
                p_f,
                added,
            ) && (dec_add(c_c, added) matches Some(cost) ==> plain_sum(c_c, added, cost)),
            FillKind::PartialClose => dec_div(q_f.abs(), q_c.abs()) matches Some(raw)
                ==> plain_quotient(q_f.abs(), q_c.abs(), raw) && (dec_mul(c_c, raw) matches Some(
                closed_cost,
            ) ==> plain_product(c_c, raw, closed_cost) && (dec_sub(c_c, closed_cost) matches Some(
                cost,
            ) ==> plain_sum(c_c, closed_cost.neg(), cost))),
            FillKind::Flip => dec_mul(q_n, p_f) matches Some(cost) ==> plain_product(
                q_n,
                p_f,
                cost,
            ),
        },
    }
}

fn holding_tested(q_c: Decimal, c_c: Decimal, q_f: Decimal, p_f: Decimal) -> (ok: bool)
    ensures
        ok == holding_is_plainly_exact(q_c@, c_c@, q_f@, p_f@),
        ok ==> holding_is_exact(q_c@, c_c@, q_f@, p_f@),
{
    let q_n = match checked_add(&q_c, &q_f) {
        Some(q_n) => q_n,
        None => {
            return true;
        },
    };
    if !q_c.sums_to(&q_f, &q_n) {
        return false;
    }
    match fill_kind(&q_c, &q_f, &q_n) {
        FillKind::FullClose => true,
        FillKind::FreshOpen => match checked_mul(&q_f, &p_f) {
            Some(cost) => q_f.multiplies_to(&p_f, &cost),
            None => true,
        },
        FillKind::Increase => match checked_mul(&q_f, &p_f) {
            Some(added) => {
                if !q_f.multiplies_to(&p_f, &added) {
                    return false;
                }
                match checked_add(&c_c, &added) {
                    Some(cost) => c_c.sums_to(&added, &cost),
                    None => true,
                }
            },
            None => true,
        },
        FillKind::PartialClose => match checked_div(&q_f.abs(), &q_c.abs()) {
            Some(raw) => {
                if !q_f.abs().divides_to(&q_c.abs(), &raw) {
                    return false;
                }
                match checked_mul(&c_c, &raw) {
                    Some(closed_cost) => {
                        if !c_c.multiplies_to(&raw, &closed_cost) {
                            return false;
                        }
                        match checked_sub(&c_c, &closed_cost) {
                            Some(cost) => c_c.sums_to(&closed_cost.neg(), &cost),
                            None => true,
                        }
                    },
                    None => true,
                }
            },
            None => true,
        },
        FillKind::Flip => match checked_mul(&q_n, &p_f) {
            Some(cost) => q_n.multiplies_to(&p_f, &cost),
            None => true,
        },
    }
}

/// Tests whether a fill is known to keep the sign of the cost basis: the
/// price is positive, the position met has a cost basis with the sign of
/// its quantity, and every sum, product and quotient on the way to the new
/// position passes the test of exactness. Where the test passes, what the
/// fill leaves has a cost basis with the sign of its quantity.
pub fn keeps_cost_basis_sign(
    current_quantity: Decimal,
    current_cost: Decimal,
    fill_quantity: Decimal,
    fill_price: Decimal,
) -> (known: bool)
    ensures
        known == (fill_price@.mantissa > 0 && (current_quantity@.is_zero() || current_cost@.sign()
            == current_quantity@.sign()) && holding_is_plainly_exact(
            current_quantity@,
            current_cost@,
            fill_quantity@,
            fill_price@,
        )),
        known ==> (fill_effect(current_quantity@, current_cost@, fill_quantity@, fill_price@)
            matches Some(e) ==> (e.holding matches Some((q, c)) ==> c.sign() == q.sign())),
{
    if fill_price.sign() <= 0 {
        return false;
    }
    if !current_quantity.is_zero() && current_cost.sign() != current_quantity.sign() {
        return false;
    }
    let known = holding_tested(current_quantity, current_cost, fill_quantity, fill_price);
    proof {
        if known {
            lemma_cost_basis_keeps_sign(
                current_quantity@,
                current_cost@,
                fill_quantity@,
                fill_price@,
            );
        }
    }
    known
}

/// A trade, where it succeeds, leaves every position with a cost basis
/// that has the sign of its quantity.
pub open spec fn trade_leaves_signs(
    collateral: Dec,
    positions: Seq<(Key, PositionView)>,
    market_id: Key,
    q_f: Dec,
    p_f: Dec,
) -> bool {
    trade_model(collateral, positions, market_id, q_f, p_f) matches Some((c, p)) ==> signs_agree(p)
}

fn signs_checked(positions: &OrderedMap<Position>) -> (ok: bool)
    ensures
        ok == signs_agree(positions@),
{
    let n = positions.len();
    let mut i: usize = 0;
    while i < n
        invariant
            n == positions@.len(),
            i <= n,
            forall|j: int|
                0 <= j < i ==> !(#[trigger] positions@[j]).1.quantity.is_zero()
                    && positions@[j].1.cost_basis.sign() == positions@[j].1.quantity.sign(),
        decreases n - i,
    {
        let p = positions.value_at(i);
        if p.quantity.is_zero() || p.cost_basis.sign() != p.quantity.sign() {
            proof {
                assert(positions@[i as int].1 == p@);
            }
            return false;
        }
        i = i + 1;
    }
    true
}

/// Tests whether a trade is known to keep the sign of every cost basis of a
/// portfolio: every position has a cost basis with the sign of its
/// quantity, the price is positive, and nothing is rounded on the way to
/// the new position. Where the test passes, the portfolio that the trade
/// leaves, whatever the collateral, is of the same kind.
pub fn trade_keeps_cost_basis_signs(
    positions: &OrderedMap<Position>,
    market_id: &str,
    fill_quantity: Decimal,
    fill_price: Decimal,
) -> (known: bool)
    ensures
        known == (signs_agree(positions@) && fill_price@.mantissa > 0 && holding_is_plainly_exact(
            met(positions@, market_id@).0,
            met(positions@, market_id@).1,
            fill_quantity@,
            fill_price@,
        )),
        known ==> forall|collateral: Dec|
            #[trigger] trade_leaves_signs(
                collateral,
                positions@,
                market_id@,
                fill_quantity@,
                fill_price@,
            ),
{
    if !signs_checked(positions) || fill_price.sign() <= 0 {
        return false;
    }
    let (q_c, c_c) = match positions.get(market_id) {
        Some(p) => (p.quantity, p.cost_basis),
        None => (Decimal::zero(), Decimal::zero()),
    };
    let known = holding_tested(q_c, c_c, fill_quantity, fill_price);
    proof {
        if known {
            assert forall|collateral: Dec|
                #[trigger] trade_leaves_signs(
                    collateral,
                    positions@,
                    market_id@,
                    fill_quantity@,
                    fill_price@,
                ) by {
                lemma_trade_keeps_cost_basis_signs(
                    collateral,
                    positions@,
                    market_id@,
                    fill_quantity@,
                    fill_price@,
                );
            }
        }
    }
    known
}

/// Whether a fill lowers the size of a position without flipping it: the
/// position is not empty, and the new quantity is zero or has the same sign
/// and a smaller magnitude.
pub open spec fn risk_reducing_model(q_c: Dec, q_f: Dec) -> Option<bool> {
    if q_c.is_zero() {
        Some(false)
    } else {
        match dec_add(q_c, q_f) {
            None => None,
            Some(q_n) => Some(
                q_n.is_zero() || (q_n.sign() == q_c.sign() && q_n.abs().units()
                    < q_c.abs().units()),
            ),
        }
    }
}

/// Where the walk over a simulated portfolio stands: the totals so far, the
/// first position whose market is unknown, or an overflow.
pub enum Scan {
    Totals { unrealized: Dec, margin: Dec },
    UnknownMarket(Key),
    Overflow,
}

/// The totals after one more position, keyed by `key`: its unrealized P&L is
/// added first, then its notional times the initial margin fraction.
pub open spec fn scan_step(
    unrealized: Dec,
    margin: Dec,
    key: Key,
    pos: PositionView,
    markets: Seq<(Key, MarketView)>,
) -> Scan {
    match lookup(markets, key) {
        None => Scan::UnknownMarket(key),
        Some(m) => match pnl_model(pos.quantity, pos.cost_basis, m.mark_price) {
            None => Scan::Overflow,
            Some(pnl) => match dec_add(unrealized, pnl) {
                None => Scan::Overflow,
                Some(u) => match notional_model(pos.quantity, m.mark_price) {
                    None => Scan::Overflow,
                    Some(n) => match dec_mul(n, m.initial_margin_fraction) {
                        None => Scan::Overflow,
                        Some(t) => match dec_add(margin, t) {
                            None => Scan::Overflow,
                            Some(im) => Scan::Totals { unrealized: u, margin: im },
                        },
                    },
                },
            },
        },
    }
}

/// Unrealized P&L and initial margin of a whole portfolio, the markets found
/// by the keys of the positions, in ascending order; the walk stops at the
/// first unknown market or overflow.
pub open spec fn scan_model(
    positions: Seq<(Key, PositionView)>,
    markets: Seq<(Key, MarketView)>,
) -> Scan
    decreases positions.len(),
{
    if positions.len() == 0 {
        Scan::Totals { unrealized: Dec::zero(), margin: Dec::zero() }
    } else {
        match scan_model(positions.drop_last(), markets) {
            Scan::Totals { unrealized, margin } => scan_step(
                unrealized,
                margin,
                positions.last().0,
                positions.last().1,
                markets,
            ),
            stopped => stopped,
        }
    }
}

/// A walk that stopped on a prefix stopped there for the whole portfolio.
pub proof fn lemma_scan_stops(
    positions: Seq<(Key, PositionView)>,
    markets: Seq<(Key, MarketView)>,
    n: int,
)
    requires
        0 <= n <= positions.len(),
        !(scan_model(positions.take(n), markets) is Totals),
    ensures
        scan_model(positions, markets) == scan_model(positions.take(n), markets),
    decreases positions.len() - n,
{
    if n < positions.len() {
        assert(positions.take(n + 1).drop_last() =~= positions.take(n));
        lemma_scan_stops(positions, markets, n + 1);
    } else {
        assert(positions.take(n) =~= positions);
    }
}

/// The reason given for a trade that would leave too little margin. Both
/// quantities are written in their normal form.
pub open spec fn insufficient_margin_text(equity: Dec, required: Dec) -> Seq<char> {
    "Insufficient margin: equity "@ + decimal_text(equity.normal_form()) + " < IM required "@
        + decimal_text(required.normal_form())
}

/// The reason given for a withdrawal that would leave too little margin.
/// Both quantities are written in their normal form.
pub open spec fn withdrawal_margin_text(equity_after: Dec, required: Dec) -> Seq<char> {
    "Withdrawal would violate IM: equity after "@ + decimal_text(equity_after.normal_form())
        + " < IM "@ + decimal_text(required.normal_form())
}

/// The verdict on a portfolio as it would stand after a trade: accepted iff
/// its equity is at least its initial margin.
pub open spec fn margin_verdict(
    collateral: Dec,
    positions: Seq<(Key, PositionView)>,
    markets: Seq<(Key, MarketView)>,
) -> Option<Verdict> {
    match scan_model(positions, markets) {
        Scan::Overflow => None,
        Scan::UnknownMarket(key) => Some(
            Verdict::Rejected("Unknown market in portfolio: "@ + key),
        ),
        Scan::Totals { unrealized, margin } => match dec_add(collateral, unrealized) {
            None => None,
            Some(equity) => if equity.units() >= margin.units() {
                Some(Verdict::Accepted)
            } else {
                Some(Verdict::Rejected(insufficient_margin_text(equity, margin)))
            },
        },
    }
}

/// The pre-trade check. In this order: the account must exist; the market
/// must exist; a risk-reducing fill is accepted as it is; any other fill is
/// accepted iff the portfolio that it would leave has equity of at least its
/// initial margin, over all of its positions.
pub open spec fn check_trade_model(
    state: StateView,
    account_id: Key,
    market_id: Key,
    q_f: Dec,
    p_f: Dec,
) -> Option<Verdict> {
    match lookup(state.accounts, account_id) {
        None => Some(Verdict::Rejected("Account does not exist"@)),
        Some(account) => if !has_key(state.markets, market_id) {
            Some(Verdict::Rejected("Unknown market_id: "@ + market_id))
        } else {
            let q_c = match lookup(account.positions, market_id) {
                Some(p) => p.quantity,
                None => Dec::zero(),
            };
            match risk_reducing_model(q_c, q_f) {
                None => None,
                Some(true) => Some(Verdict::Accepted),
                Some(false) => match trade_model(
                    account.collateral,
                    account.positions,
                    market_id,
                    q_f,
                    p_f,
                ) {
                    None => None,
                    Some((collateral, positions)) => margin_verdict(
                        collateral,
                        positions,
                        state.markets,
                    ),
                },
            }
        },
    }
}

/// The pre-withdrawal check. In this order: the account must exist; the
/// amount must not exceed the collateral; equity less the amount must be at
/// least the initial margin.
pub open spec fn check_withdrawal_model(state: StateView, account_id: Key, amount: Dec) -> Option<
    Verdict,
> {
    match lookup(state.accounts, account_id) {
        None => Some(Verdict::Rejected("Account does not exist"@)),
        Some(account) => if amount.units() > account.collateral.units() {
            Some(Verdict::Rejected("Withdrawal exceeds collateral balance"@))
        } else {
            match (
                equity_model(account.collateral, account.positions, state.markets),
                total_margin(account.positions, state.markets, false),
            ) {
                (Some(equity), Some(required)) => match dec_sub(equity, amount) {
                    None => None,
                    Some(after) => if after.units() >= required.units() {
                        Some(Verdict::Accepted)
                    } else {
                        Some(Verdict::Rejected(withdrawal_margin_text(after, required)))
                    },
                },
                _ => None,
            }
        },
    }
}

fn is_risk_reducing(current_qty: Decimal, fill_qty: Decimal) -> (r: Option<bool>)
    ensures
        r == risk_reducing_model(current_qty@, fill_qty@),
{
    if current_qty.is_zero() {
        return Some(false);
    }
    match checked_add(&current_qty, &fill_qty) {
        None => None,
        Some(new_qty) => Some(
            new_qty.is_zero() || (new_qty.sign() == current_qty.sign() && !less_or_equal(
                &current_qty.abs(),
                &new_qty.abs(),
            )),
        ),
    }
}

/// The effect of a trade on a copy of an account's collateral and
/// positions.
fn simulate_trade(
    account: &Account,
    market_id: &str,
    fill_quantity: Decimal,
    fill_price: Decimal,
) -> (r: Option<(Decimal, OrderedMap<Position>)>)
    ensures
        match r {
            Some((c, p)) => trade_model(
                account@.collateral,
                account@.positions,
                market_id@,
                fill_quantity@,
                fill_price@,
            ) == Some((c@, p@)),
            None => trade_model(
                account@.collateral,
                account@.positions,
                market_id@,
                fill_quantity@,
                fill_price@,
            ) is None,
        },
{
    let mut sim_collateral = account.collateral;
    let mut sim_positions = account.positions.duplicate();
    match apply_trade_to(
        &mut sim_collateral,
        &mut sim_positions,
        market_id,
        fill_quantity,
        fill_price,
    ) {
        Ok(()) => Some((sim_collateral, sim_positions)),
        Err(_) => None,
    }
}

enum Walk {
    Totals(Decimal, Decimal),
    UnknownMarket(String),
    Overflow,
}

impl View for Walk {
    type V = Scan;

    closed spec fn view(&self) -> Scan {
        match self {
            Walk::Totals(u, m) => Scan::Totals { unrealized: u@, margin: m@ },
            Walk::UnknownMarket(k) => Scan::UnknownMarket(k@),
            Walk::Overflow => Scan::Overflow,
        }
    }
}

fn walk_step(
    unrealized: Decimal,
    margin: Decimal,
    key: &String,
    pos: &Position,
    markets: &OrderedMap<Market>,
) -> (r: Walk)
    ensures
        r@ == scan_step(unrealized@, margin@, key@, pos@, markets@),
{
    let m = match markets.get(key.as_str()) {
        Some(m) => m,
        None => {
            return Walk::UnknownMarket(key.clone());
        },
    };
    let pnl = match position_unrealized_pnl(pos.quantity, pos.cost_basis, m.mark_price) {
        Some(pnl) => pnl,
        None => {
            return Walk::Overflow;
        },
    };
    let u = match checked_add(&unrealized, &pnl) {
        Some(u) => u,
        None => {
            return Walk::Overflow;
        },
    };
    let n = match position_notional(pos.quantity, m.mark_price) {
        Some(n) => n,
        None => {
            return Walk::Overflow;
        },
    };
    let t = match checked_mul(&n, &m.initial_margin_fraction) {
        Some(t) => t,
        None => {
            return Walk::Overflow;
        },
    };
    match checked_add(&margin, &t) {
        Some(im) => Walk::Totals(u, im),
        None => Walk::Overflow,
    }
}

fn walk_portfolio(positions: &OrderedMap<Position>, markets: &OrderedMap<Market>) -> (r: Walk)
    ensures
        r@ == scan_model(positions@, markets@),
{
    let n = positions.len();
    let mut unrealized = Decimal::zero();
    let mut margin = Decimal::zero();
    let mut i: usize = 0;
    proof {
        assert(positions@.take(0) =~= Seq::<(Key, PositionView)>::empty());
    }
    while i < n
        invariant
            n == positions@.len(),
            i <= n,
            scan_model(positions@.take(i as int), markets@) == (Scan::Totals {
                unrealized: unrealized@,
                margin: margin@,
            }),
        decreases n - i,
    {
        proof {
            assert(positions@.take(i as int + 1).drop_last() =~= positions@.take(i as int));
        }
        match walk_step(unrealized, margin, positions.key_at(i), positions.value_at(i), markets) {
            Walk::Totals(u, m) => {
                unrealized = u;
                margin = m;
            },
            stopped => {
                proof {
                    lemma_scan_stops(positions@, markets@, i as int + 1);
                }
                return stopped;
            },
        }
        i = i + 1;
    }
    proof {
        assert(positions@.take(n as int) =~= positions@);
    }
    Walk::Totals(unrealized, margin)
}

fn insufficient_margin(equity: &Decimal, required: &Decimal) -> (r: String)
    ensures
        r@ == insufficient_margin_text(equity@, required@),
{
    let mut reason = "Insufficient margin: equity ".to_owned();
    reason.append(to_text(&equity.normalize()).as_str());
    reason.append(" < IM required ");
    reason.append(to_text(&required.normalize()).as_str());
    reason
}

fn withdrawal_margin(equity_after: &Decimal, required: &Decimal) -> (r: String)
    ensures
        r@ == withdrawal_margin_text(equity_after@, required@),
{
    let mut reason = "Withdrawal would violate IM: equity after ".to_owned();
    reason.append(to_text(&equity_after.normalize()).as_str());
    reason.append(" < IM ");
    reason.append(to_text(&required.normalize()).as_str());
    reason
}

fn judge_portfolio(
    collateral: Decimal,
    positions: &OrderedMap<Position>,
    markets: &OrderedMap<Market>,
) -> (r: Option<TradeCheck>)
    ensures
        option_verdict(r) == margin_verdict(collateral@, positions@, markets@),
{
    match walk_portfolio(positions, markets) {
        Walk::Overflow => None,
        Walk::UnknownMarket(key) => {
            let mut reason = "Unknown market in portfolio: ".to_owned();
            reason.append(key.as_str());
            Some(TradeCheck::Rejected(reason))
        },
        Walk::Totals(unrealized, margin) => match checked_add(&collateral, &unrealized) {
            None => None,
            Some(equity) => if less_or_equal(&margin, &equity) {
                Some(TradeCheck::Accepted)
            } else {
                Some(TradeCheck::Rejected(insufficient_margin(&equity, &margin)))
            },
        },
    }
}

/// Checks a trade against the state before it is applied; `None` on
/// overflow.
pub fn check_trade(
    state: &State,
    account_id: &str,
    market_id: &str,
    fill_quantity: Decimal,
    fill_price: Decimal,
) -> (r: Option<TradeCheck>)
    ensures
        option_verdict(r) == check_trade_model(
            state@,
            account_id@,
            market_id@,
            fill_quantity@,
            fill_price@,
        ),
{
    let account = match state.accounts.get(account_id) {
        Some(a) => a,
        None => {
            return Some(TradeCheck::Rejected("Account does not exist".to_owned()));
        },
    };
    if !state.markets.contains_key(market_id) {
        let mut reason = "Unknown market_id: ".to_owned();
        reason.append(market_id);
        return Some(TradeCheck::Rejected(reason));
    }
    let current_qty = match account.positions.get(market_id) {
        Some(p) => p.quantity,
        None => Decimal::zero(),
    };
    match is_risk_reducing(current_qty, fill_quantity) {
        None => None,
        Some(true) => Some(TradeCheck::Accepted),
        Some(false) => match simulate_trade(account, market_id, fill_quantity, fill_price) {
            None => None,
            Some((sim_collateral, sim_positions)) => judge_portfolio(
                sim_collateral,
                &sim_positions,
                &state.markets,
            ),
        },
    }
}

/// Checks a withdrawal against the state before it is applied; `None` on
/// overflow.
pub fn check_withdrawal(state: &State, account_id: &str, amount: Decimal) -> (r: Option<TradeCheck>)
    ensures
        option_verdict(r) == check_withdrawal_model(state@, account_id@, amount@),
{
    let account = match state.accounts.get(account_id) {
        Some(a) => a,
        None => {
            return Some(TradeCheck::Rejected("Account does not exist".to_owned()));
        },
    };
    if !less_or_equal(&amount, &account.collateral) {
        return Some(TradeCheck::Rejected("Withdrawal exceeds collateral balance".to_owned()));
    }
    let eq = portfolio_equity(account.collateral, &account.positions, &state.markets);
    let im = portfolio_margin(&account.positions, &state.markets, false);
    match (eq, im) {
        (Some(eq), Some(im)) => match checked_sub(&eq, &amount) {
            None => None,
            Some(eq_after) => if less_or_equal(&im, &eq_after) {
                Some(TradeCheck::Accepted)
            } else {
                Some(TradeCheck::Rejected(withdrawal_margin(&eq_after, &im)))
            },
        },
        _ => None,
    }
}

} // verus!
