//! A small Kafka-like message queue: broker state, replication metadata,
//! consumer groups, wire codecs and client-side decisions.
pub mod ids;
pub mod maps;
pub mod text;
pub mod order;
pub mod seqs;
pub mod api;
pub mod broker;
pub mod client;
pub mod codec;
pub mod wire;
