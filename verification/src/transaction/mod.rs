//! Idempotent producers and transactions.
pub mod laws;
pub mod manager;
pub mod queries;
pub mod ranges;
pub mod record;
