//! Deterministic risk and accounting core of a cross-margin perpetual-futures
//! exchange.
//!
//! The engine consumes an ordered stream of events (deposits, withdrawals,
//! trade fills, mark prices, funding indices) and keeps, for every account,
//! its collateral, its positions and its funding marks. Trades and
//! withdrawals are checked against the margin of the whole portfolio before
//! they are applied, and an account that falls to its maintenance margin is
//! liquidated. The log of events is the sole source of truth: replaying it
//! rebuilds the state.
//!
//! Money is exact decimal arithmetic, done by `rust_decimal`. No function of
//! this crate panics: where a decimal leaves the range that can be held, or
//! the sequence numbers run out, the function reports it and leaves its
//! arguments as they were.
//!
//! Every function has a contract over a model of its data: decimals as
//! mantissa and scale ([`decimal::Dec`]), maps as sequences of bindings in
//! ascending key order, the engine as a state, a log and a list of
//! snapshots. What holds across calls is proved in [`invariants`],
//! [`replay`] and [`solvency`].

pub mod decimal;
pub mod text;
pub mod ordered_map;
pub mod types;
pub mod state;
pub mod events;
pub mod margin;
pub mod risk;
pub mod liquidation;
pub mod snapshot;
pub mod engine;
pub mod invariants;
pub mod replay;
pub mod solvency;
