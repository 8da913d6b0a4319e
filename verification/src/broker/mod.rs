//! The broker.
pub mod assignments;
pub mod raft;
pub mod groups;
pub mod store;
pub mod state_machine;
pub mod recovery;
pub mod durability;
pub mod controller;
pub mod controller_state_machine;
pub mod controller_types;
pub mod config;
pub mod error;
pub mod reading;
pub mod liveness;
pub mod storage;
pub mod consumer_group_coordinator;
pub mod sbe_tcp;
pub mod raft_network;
pub mod partition_log;
pub mod kraft;
pub mod topics;
pub mod raft_types;
pub mod raft_state_machine;
pub mod raft_storage;
pub mod simple_raft;
pub mod raft_broker;
pub mod replicated;
pub mod sled_storage;
pub mod multi_broker;
pub mod cluster;
pub mod service;
pub mod broker_core;
pub mod command_gateway;
pub mod rpc_router;
