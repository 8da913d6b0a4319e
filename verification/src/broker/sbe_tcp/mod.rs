//! Replication messages over raw TCP in a fixed binary layout.
pub mod buffer;
pub mod codec;
pub mod connection;
pub mod pool;
pub mod server;
