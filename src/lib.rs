//! A transaction engine that turns per-client streams of deposits,
//! withdrawals and dispute operations into settled account balances.
//!
//! Amounts are carried as signed integers in ten-thousandths of a unit
//! (four decimal places), so every balance identity holds exactly.

pub mod amount;
pub mod ops;
pub mod account;
pub mod replay;
pub mod registry;
pub mod store;
pub mod pipeline;
