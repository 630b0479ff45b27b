//! What a broker knows and decides: its peers, the topics and their partitions, the cluster's
//! metadata, and what follows from them for a request.
pub mod brokers;
pub mod configs;
pub mod credentials;
pub mod table;
pub mod topics;
pub mod state;
pub mod metadata;
pub mod snapshot;
pub mod laws;
pub mod sweep;
pub mod create;
pub mod commit;
pub mod admin;
pub mod produce;
pub mod txn;
pub mod flow;
pub mod ending;
pub mod txn_laws;
pub mod produce_laws;
pub mod cluster_laws;
pub mod config_laws;
pub mod create_laws;
pub mod proposal;
