//! Requests and responses.
pub mod broker;
pub mod requests;
pub mod responses;
