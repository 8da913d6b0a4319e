//! Cluster metadata and the commands that change it.
use vstd::prelude::*;

use crate::maps::{Dup, VecMap};

verus! {

/// What is known of a topic.
#[derive(Debug, Clone, Copy, PartialEq, Eq, Structural)]
pub struct TopicRecord {
    pub num_partitions: i32,
    pub replication_factor: u16,
}

impl DeepView for TopicRecord {
    type V = TopicRecord;

    open spec fn deep_view(&self) -> TopicRecord {
        *self
    }
}

impl Dup for TopicRecord {
    fn dup(&self) -> (r: Self) {
        *self
    }
}

/// What is known of a partition.
#[derive(Debug)]
pub struct PartitionRecord {
    /// The leading broker; zero where there is none.
    pub leader: u64,
    /// The replicas that have caught up, the leader among them.
    pub isr: Vec<u64>,
    /// All replicas.
    pub replicas: Vec<u64>,
    /// Counts the changes of leadership.
    pub leader_epoch: u32,
}

/// What a partition record holds.
#[verifier::ext_equal]
pub struct PartitionView {
    pub leader: u64,
    pub isr: Seq<u64>,
    pub replicas: Seq<u64>,
    pub leader_epoch: int,
}

impl DeepView for PartitionRecord {
    type V = PartitionView;

    open spec fn deep_view(&self) -> PartitionView {
        PartitionView {
            leader: self.leader,
            isr: self.isr@,
            replicas: self.replicas@,
            leader_epoch: self.leader_epoch as int,
        }
    }
}

/// A copy of a list of broker ids.
pub fn copy_ids(v: &Vec<u64>) -> (r: Vec<u64>)
    ensures
        r@ == v@,
{
    let r = v.dup();
    assert(r@ =~= v@) by {
        assert(r.deep_view().len() == v.deep_view().len());
        assert forall|i: int| 0 <= i < v@.len() implies r@[i] == v@[i] by {
            assert(r.deep_view()[i] == v.deep_view()[i]);
        }
    }
    r
}

impl Dup for PartitionRecord {
    fn dup(&self) -> (r: Self) {
        PartitionRecord {
            leader: self.leader,
            isr: copy_ids(&self.isr),
            replicas: copy_ids(&self.replicas),
            leader_epoch: self.leader_epoch,
        }
    }
}

/// A partition that nobody has been put in charge of.
pub open spec fn unassigned() -> PartitionView {
    PartitionView { leader: 0, isr: Seq::empty(), replicas: Seq::empty(), leader_epoch: 0 }
}

/// A broker that has registered.
#[derive(Debug)]
pub struct BrokerRegistration {
    pub broker_id: u64,
    pub api_addr: String,
    pub rpc_addr: String,
    /// When the broker was last heard of; zero where it never was.
    pub last_seen_ms: u64,
}

/// What a registration holds.
#[verifier::ext_equal]
pub struct RegistrationView {
    pub broker_id: u64,
    pub api_addr: Seq<char>,
    pub rpc_addr: Seq<char>,
    pub last_seen_ms: u64,
}

impl DeepView for BrokerRegistration {
    type V = RegistrationView;

    open spec fn deep_view(&self) -> RegistrationView {
        RegistrationView {
            broker_id: self.broker_id,
            api_addr: self.api_addr@,
            rpc_addr: self.rpc_addr@,
            last_seen_ms: self.last_seen_ms,
        }
    }
}

impl Dup for BrokerRegistration {
    fn dup(&self) -> (r: Self) {
        BrokerRegistration {
            broker_id: self.broker_id,
            api_addr: self.api_addr.dup(),
            rpc_addr: self.rpc_addr.dup(),
            last_seen_ms: self.last_seen_ms,
        }
    }
}

/// The metadata of the cluster.
pub struct ControllerMetadata {
    pub topics: VecMap<String, TopicRecord>,
    pub partitions: VecMap<(String, i32), PartitionRecord>,
    pub brokers: VecMap<u64, BrokerRegistration>,
    /// Counts the controller elections.
    pub controller_epoch: u64,
}

/// What the metadata holds.
#[verifier::ext_equal]
pub struct MetadataView {
    pub topics: Map<Seq<char>, TopicRecord>,
    pub partitions: Map<(Seq<char>, i32), PartitionView>,
    pub brokers: Map<u64, RegistrationView>,
    pub controller_epoch: int,
}

impl ControllerMetadata {
    pub open spec fn view(&self) -> MetadataView {
        MetadataView {
            topics: self.topics@,
            partitions: self.partitions@,
            brokers: self.brokers@,
            controller_epoch: self.controller_epoch as int,
        }
    }
}

impl DeepView for ControllerMetadata {
    type V = MetadataView;

    open spec fn deep_view(&self) -> MetadataView {
        self@
    }
}

impl Dup for ControllerMetadata {
    fn dup(&self) -> (r: Self) {
        ControllerMetadata {
            topics: self.topics.dup(),
            partitions: self.partitions.dup(),
            brokers: self.brokers.dup(),
            controller_epoch: self.controller_epoch,
        }
    }
}

/// The metadata of a cluster in which nothing has happened.
pub open spec fn empty_metadata() -> MetadataView {
    MetadataView { topics: Map::empty(), partitions: Map::empty(), brokers: Map::empty(), controller_epoch: 0 }
}

impl Default for ControllerMetadata {
    fn default() -> (r: Self)
        ensures
            r@ == empty_metadata(),
    {
        ControllerMetadata {
            topics: VecMap::new(),
            partitions: VecMap::new(),
            brokers: VecMap::new(),
            controller_epoch: 0,
        }
    }
}

/// Who is in charge of a partition after a broker has died.
#[derive(Debug)]
pub struct PartitionAssignment {
    pub topic: String,
    pub partition: i32,
    pub new_leader: u64,
    pub new_isr: Vec<u64>,
    pub replicas: Vec<u64>,
}

/// What an assignment holds.
#[verifier::ext_equal]
pub struct AssignmentView {
    pub topic: Seq<char>,
    pub partition: i32,
    pub new_leader: u64,
    pub new_isr: Seq<u64>,
    pub replicas: Seq<u64>,
}

impl DeepView for PartitionAssignment {
    type V = AssignmentView;

    open spec fn deep_view(&self) -> AssignmentView {
        AssignmentView {
            topic: self.topic@,
            partition: self.partition,
            new_leader: self.new_leader,
            new_isr: self.new_isr@,
            replicas: self.replicas@,
        }
    }
}

/// A command of the controller's log.
#[derive(Debug)]
pub enum ControllerCommand {
    CreateTopic { topic: String, num_partitions: i32, replication_factor: u16 },
    DeleteTopic { topic: String },
    /// Sets who leads a partition and who is in sync.
    PartitionChange { topic: String, partition: i32, leader: u64, isr: Vec<u64>, replicas: Vec<u64> },
    RegisterBroker { broker_id: u64, api_addr: String, rpc_addr: String },
    UnregisterBroker { broker_id: u64 },
    BumpControllerEpoch,
    BrokerHeartbeat { broker_id: u64, timestamp_ms: u64 },
    /// Removes a broker and hands its partitions on.
    MarkBrokerDead { broker_id: u64, new_assignments: Vec<PartitionAssignment> },
}

} // verus!
