//! Share groups: records leased to members one by one and acknowledged one by one.
pub mod acquire;
pub mod batches;
pub mod laws;
pub mod delivery_laws;
pub mod manager;
pub mod partition;
pub mod snapshot;
pub mod state_log;
pub mod state_log_laws;
pub mod timers;
