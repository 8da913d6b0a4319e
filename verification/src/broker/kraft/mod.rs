//! A broker whose messages live in replicated partition logs.
pub mod isr_manager;
pub mod replication_manager;
pub mod broker;
