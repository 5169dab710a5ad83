//! Handles to resources and the storage behind them.

pub mod handle;
pub mod storage;
