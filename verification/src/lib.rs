//! A verified matching core for a trading venue.
//!
//! `orderbook` holds the per-market book and its price-time-priority
//! crossing algorithm; `ledger` holds the shared balance table and the
//! fund-escrow step that gates order admission; `engine` routes typed
//! commands to the right book after escrow; `laws` states and proves the
//! global properties of matching and escrow.

pub mod engine;
pub mod laws;
pub mod ledger;
pub mod orderbook;
pub mod types;
