//! A verified core for a small Redis-compatible server: the RESP wire-protocol
//! codec (token scanner, value parser, serializer), the expiry-aware keyspace
//! engine that interprets parsed commands, and the replica-side handshake
//! state machine.

pub mod data_core;
pub mod laws;
pub mod numeric;
pub mod parser;
pub mod replication;
pub mod tokenizer;
