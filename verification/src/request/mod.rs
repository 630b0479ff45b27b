//! Requests of clients: what they may ask for, where they are served, and what they are answered.
pub mod laws;
pub mod payload;
pub mod process;
pub mod replies;
pub mod rights;
pub mod route;
pub mod serve;
