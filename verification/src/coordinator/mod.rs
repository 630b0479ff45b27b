//! Consumer groups: who is a member, who leads, and who consumes what.
pub mod describe;
pub mod group;
pub mod groups;
pub mod history;
pub mod join;
pub mod laws;
pub mod request_laws;
pub mod membership;
