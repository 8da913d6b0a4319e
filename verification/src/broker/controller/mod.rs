//! The controller: cluster metadata and how it changes.
pub mod state_machine;
pub mod types;
