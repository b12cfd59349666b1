//! Verified core of a bitbank market-making bot.
//!
//! The crate maintains a limit-order-book view from sequenced snapshot and
//! diff messages, computes capital-aware order-reconciliation plans, and
//! drives a best-quote market-making strategy. All monetary values are plain
//! scaled integers: prices and amounts are `u64`, quote-denominated values
//! (price times amount) are `u128`.

pub mod backtest;
pub mod best_mm;
pub mod bitbank_bot;
pub mod bitbank_depth;
pub mod book;
pub mod bybit;
pub mod decimal;
pub mod num;
pub mod order_manager;
pub mod strlex;

use vstd::prelude::*;

verus! {

} // verus!
