//! Per-visitor hit counting with bounded in-memory retention and
//! watermark-based synchronisation to a durable log.

pub mod ledger;
pub mod recent;
pub mod database;
pub mod sync;
pub mod report;
pub mod cowsay;
pub mod handler;
