//! The container format: headers, the search for one, and the volumes that
//! lie behind them.

pub mod candidates;
pub mod create;
pub mod decrypted;
pub mod on_disk;
pub mod parse;
pub mod protect;
pub mod repair;
pub mod search;
