//! Cluster metadata without liveness: brokers register and unregister, but
//! are not watched.
use vstd::prelude::*;

use crate::maps::VecMap;

pub use crate::broker::controller::types::{PartitionRecord, PartitionView, TopicRecord};

verus! {

/// A broker that has registered.
#[derive(Debug)]
pub struct BrokerRegistration {
    pub broker_id: u64,
    pub api_addr: String,
    pub rpc_addr: String,
}

/// What a registration holds.
#[verifier::ext_equal]
pub struct RegistrationView {
    pub broker_id: u64,
    pub api_addr: Seq<char>,
    pub rpc_addr: Seq<char>,
}

impl DeepView for BrokerRegistration {
    type V = RegistrationView;

    open spec fn deep_view(&self) -> RegistrationView {
        RegistrationView { broker_id: self.broker_id, api_addr: self.api_addr@, rpc_addr: self.rpc_addr@ }
    }
}

/// The metadata of the cluster.
pub struct ControllerMetadata {
    pub topics: VecMap<String, TopicRecord>,
    pub partitions: VecMap<(String, i32), PartitionRecord>,
    pub brokers: VecMap<u64, BrokerRegistration>,
    /// Counts the controller elections.
    pub controller_epoch: u64,
}

/// What the metadata holds.
#[verifier::ext_equal]
pub struct MetadataView {
    pub topics: Map<Seq<char>, TopicRecord>,
    pub partitions: Map<(Seq<char>, i32), PartitionView>,
    pub brokers: Map<u64, RegistrationView>,
    pub controller_epoch: int,
}

impl ControllerMetadata {
    pub open spec fn view(&self) -> MetadataView {
        MetadataView {
            topics: self.topics@,
            partitions: self.partitions@,
            brokers: self.brokers@,
            controller_epoch: self.controller_epoch as int,
        }
    }
}

/// The metadata of a cluster in which nothing has happened.
pub open spec fn empty_metadata() -> MetadataView {
    MetadataView { topics: Map::empty(), partitions: Map::empty(), brokers: Map::empty(), controller_epoch: 0 }
}

impl Default for ControllerMetadata {
    fn default() -> (r: Self)
        ensures
            r@ == empty_metadata(),
    {
        ControllerMetadata {
            topics: VecMap::new(),
            partitions: VecMap::new(),
            brokers: VecMap::new(),
            controller_epoch: 0,
        }
    }
}

/// A command of the controller's log.
#[derive(Debug)]
pub enum ControllerCommand {
    CreateTopic { topic: String, num_partitions: i32, replication_factor: u16 },
    DeleteTopic { topic: String },
    /// Sets who leads a partition and who is in sync.
    PartitionChange { topic: String, partition: i32, leader: u64, isr: Vec<u64>, replicas: Vec<u64> },
    RegisterBroker { broker_id: u64, api_addr: String, rpc_addr: String },
    UnregisterBroker { broker_id: u64 },
    BumpControllerEpoch,
}

} // verus!
