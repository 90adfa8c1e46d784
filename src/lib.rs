//! An options-trading backtest engine: a day-stepped broker that replays
//! historical option quotes, fills strategy orders at the quote midpoint and
//! keeps an exact ledger of cash, positions and commissions.

pub mod book;
pub mod broker;
pub mod commission;
pub mod date;
pub mod filled_order;
pub mod laws;
pub mod money;
pub mod names;
pub mod order;
pub mod position;
pub mod quote;
pub mod simulation;
pub mod strategy;
pub mod util;
