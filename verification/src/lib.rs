//! The logic of a message broker, with its behaviour stated and proved.
//!
//! * [`engine`]: the metadata that the brokers of a cluster agree on, who leads what, and what
//!   is appended, committed and read.
//! * [`partition`], [`producer`], [`records`]: one partition's log, as far as its offsets,
//!   watermarks and idempotent producers go.
//! * [`coordinator`], [`share`], [`transaction`]: consumer groups, share groups, transactions.
//! * [`request`], [`sasl`], [`wire`]: what clients ask for, who they are, what they may do, and
//!   what they are answered.
//! * [`internode`], [`listener`], [`certificate`], [`metrics`]: what nodes tell each other, where the broker
//!   listens, and what it counts.
//! * [`acl`], [`acl_manager`], [`glob`], [`ip`]: access rules and what they match.
//! * [`placement`], [`checksum`]: where partitions go, and which partition a key goes to.
//! * [`assoc`], [`name_map`], [`keys`], [`codec`], [`text`]: maps, composite keys, byte formats
//!   and text.
//!
//! The modules whose names end in `laws` state what holds of the others on every input: what an
//! operation gives back of what went in, what it leaves alone, and how two of them relate.
pub mod acl;
pub mod acl_laws;
pub mod acl_manager;
pub mod assoc;
pub mod certificate;
pub mod checksum;
pub mod codec;
pub mod coordinator;
pub mod engine;
pub mod glob;
pub mod internode;
pub mod internode_laws;
pub mod ip;
pub mod ip_laws;
pub mod keys;
pub mod listener;
pub mod metrics;
pub mod metrics_laws;
pub mod name_map;
pub mod partition;
pub mod placement;
pub mod producer;
pub mod records;
pub mod request;
pub mod sasl;
pub mod sasl_laws;
pub mod share;
pub mod text;
pub mod text_laws;
pub mod transaction;
pub mod wire;
