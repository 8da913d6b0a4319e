//! Producers and consumers: what they ask for, and what they make of the answers.
pub mod config;
pub mod producer;
pub mod joining;
pub mod group_coordinator;
pub mod consumer;
pub mod metadata_cache;
pub mod runtime;
pub mod console;
