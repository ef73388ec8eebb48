//! Profit-and-loss computation and order/fill reconciliation for a trading
//! account: a pure computation core with exact decimal arithmetic, FIFO
//! lot matching, trailing-window aggregation, and precedence-ordered
//! resolution of raw order records.

pub mod decimal;
pub mod decimal_text;
pub mod errors;
pub mod fields;
pub mod fills;
pub mod intervals;
pub mod matching;
pub mod orders;
pub mod text;
pub mod timestamp;
pub mod trades;
