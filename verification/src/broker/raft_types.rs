//! Requests, responses and state of the broker that replicates whole requests.
use vstd::prelude::*;
use vstd::string::StringExecFns;

use crate::maps::{Dup, VecMap};

verus! {

/// The id of a node.
pub type BrokerNodeId = u64;

/// The addresses of a node.
#[derive(Debug)]
pub struct BrokerNode {
    pub rpc_addr: String,
    pub api_addr: String,
}

/// The addresses of a node.
#[verifier::ext_equal]
pub struct NodeView {
    pub rpc_addr: Seq<char>,
    pub api_addr: Seq<char>,
}

impl DeepView for BrokerNode {
    type V = NodeView;

    open spec fn deep_view(&self) -> NodeView {
        NodeView { rpc_addr: self.rpc_addr@, api_addr: self.api_addr@ }
    }
}

impl Dup for BrokerNode {
    fn dup(&self) -> (r: Self) {
        BrokerNode { rpc_addr: self.rpc_addr.dup(), api_addr: self.api_addr.dup() }
    }
}

impl Default for BrokerNode {
    fn default() -> (r: Self)
        ensures
            r.deep_view() == (NodeView { rpc_addr: Seq::empty(), api_addr: Seq::empty() }),
    {
        BrokerNode { rpc_addr: String::new(), api_addr: String::new() }
    }
}

impl BrokerNode {
    /// Both addresses, readable.
    pub fn to_string(&self) -> (r: String)
        ensures
            r@ == "BrokerNode { rpc: "@ + self.rpc_addr@ + ", api: "@ + self.api_addr@ + " }"@,
    {
        let mut r = "BrokerNode { rpc: ".to_owned();
        r.append(self.rpc_addr.as_str());
        r.append(", api: ");
        r.append(self.api_addr.as_str());
        r.append(" }");
        r
    }
}

/// A request that is replicated.
#[derive(Debug)]
pub enum BrokerRequest {
    Produce { topic: String, partition: i32, message: Vec<u8> },
    CommitOffset { group: String, topic: String, partition: i32, offset: i64, metadata: String },
    JoinGroup { group_id: String, member_id: String, protocol_type: String },
    LeaveGroup { group_id: String, member_id: String },
    CreateTopic { topic: String, partitions: i32, replication_factor: i32 },
    DeleteTopic { topic: String },
    GroupHeartbeat { group_id: String, generation_id: i32, member_id: String },
}

/// What a request is answered.
#[derive(Debug)]
pub enum BrokerResponse {
    Produce { offset: i64 },
    CommitOffset,
    JoinGroup { generation_id: i32, leader_id: String, member_id: String },
    LeaveGroup,
    CreateTopic,
    DeleteTopic,
    GroupHeartbeat,
    Error(String),
}

/// What a response says.
#[verifier::ext_equal]
pub enum ResponseView {
    Produce { offset: i64 },
    CommitOffset,
    JoinGroup { generation_id: int, leader_id: Seq<char>, member_id: Seq<char> },
    LeaveGroup,
    CreateTopic,
    DeleteTopic,
    GroupHeartbeat,
    Error(Seq<char>),
}

impl DeepView for BrokerResponse {
    type V = ResponseView;

    open spec fn deep_view(&self) -> ResponseView {
        match self {
            BrokerResponse::Produce { offset } => ResponseView::Produce { offset: *offset },
            BrokerResponse::CommitOffset => ResponseView::CommitOffset,
            BrokerResponse::JoinGroup { generation_id, leader_id, member_id } => ResponseView::JoinGroup {
                generation_id: *generation_id as int,
                leader_id: leader_id@,
                member_id: member_id@,
            },
            BrokerResponse::LeaveGroup => ResponseView::LeaveGroup,
            BrokerResponse::CreateTopic => ResponseView::CreateTopic,
            BrokerResponse::DeleteTopic => ResponseView::DeleteTopic,
            BrokerResponse::GroupHeartbeat => ResponseView::GroupHeartbeat,
            BrokerResponse::Error(e) => ResponseView::Error(e@),
        }
    }
}

/// A member of a group.
#[derive(Debug)]
pub struct GroupMember {
    pub member_id: String,
    pub metadata: Vec<u8>,
}

/// What a member holds.
#[verifier::ext_equal]
pub struct GroupMemberView {
    pub member_id: Seq<char>,
    pub metadata: Seq<u8>,
}

impl DeepView for GroupMember {
    type V = GroupMemberView;

    open spec fn deep_view(&self) -> GroupMemberView {
        GroupMemberView { member_id: self.member_id@, metadata: self.metadata.deep_view() }
    }
}

impl Dup for GroupMember {
    fn dup(&self) -> (r: Self) {
        GroupMember { member_id: self.member_id.dup(), metadata: self.metadata.dup() }
    }
}

/// A consumer group.
#[derive(Debug)]
pub struct ConsumerGroupState {
    pub generation_id: i32,
    pub leader_id: String,
    pub protocol: String,
    pub members: Vec<GroupMember>,
}

/// What a group holds.
#[verifier::ext_equal]
pub struct ConsumerGroupView {
    pub generation_id: int,
    pub leader_id: Seq<char>,
    pub protocol: Seq<char>,
    pub members: Seq<GroupMemberView>,
}

impl DeepView for ConsumerGroupState {
    type V = ConsumerGroupView;

    open spec fn deep_view(&self) -> ConsumerGroupView {
        ConsumerGroupView {
            generation_id: self.generation_id as int,
            leader_id: self.leader_id@,
            protocol: self.protocol@,
            members: self.members.deep_view(),
        }
    }
}

impl Dup for ConsumerGroupState {
    fn dup(&self) -> (r: Self) {
        ConsumerGroupState {
            generation_id: self.generation_id,
            leader_id: self.leader_id.dup(),
            protocol: self.protocol.dup(),
            members: self.members.dup(),
        }
    }
}

/// The configuration of a topic.
#[derive(Debug, Clone, Copy, PartialEq, Eq, Structural)]
pub struct TopicConfig {
    pub partitions: i32,
    pub replication_factor: i32,
}

impl DeepView for TopicConfig {
    type V = TopicConfig;

    open spec fn deep_view(&self) -> TopicConfig {
        *self
    }
}

impl Dup for TopicConfig {
    fn dup(&self) -> (r: Self) {
        *self
    }
}

/// The messages of a topic by partition, each with its offset.
pub type TopicMessages = VecMap<i32, Vec<(i64, Vec<u8>)>>;

/// What a group has committed for a topic, by partition.
pub type TopicOffsets = VecMap<i32, (i64, String)>;

/// The state that the requests build up.
pub struct BrokerStateMachineData {
    pub messages: VecMap<String, TopicMessages>,
    pub offsets: VecMap<String, VecMap<String, TopicOffsets>>,
    pub groups: VecMap<String, ConsumerGroupState>,
    pub topics: VecMap<String, TopicConfig>,
}

/// What the state holds.
#[verifier::ext_equal]
pub struct StateView {
    pub messages: Map<Seq<char>, Map<i32, Seq<(i64, Seq<u8>)>>>,
    pub offsets: Map<Seq<char>, Map<Seq<char>, Map<i32, (i64, Seq<char>)>>>,
    pub groups: Map<Seq<char>, ConsumerGroupView>,
    pub topics: Map<Seq<char>, TopicConfig>,
}

impl BrokerStateMachineData {
    pub open spec fn view(&self) -> StateView {
        StateView {
            messages: self.messages@,
            offsets: self.offsets@,
            groups: self.groups@,
            topics: self.topics@,
        }
    }
}

/// The state before any request.
pub open spec fn empty_state() -> StateView {
    StateView { messages: Map::empty(), offsets: Map::empty(), groups: Map::empty(), topics: Map::empty() }
}

impl Default for BrokerStateMachineData {
    fn default() -> (r: Self)
        ensures
            r@ == empty_state(),
    {
        BrokerStateMachineData {
            messages: VecMap::new(),
            offsets: VecMap::new(),
            groups: VecMap::new(),
            topics: VecMap::new(),
        }
    }
}

/// The timing of the replicated log, in milliseconds.
#[derive(Debug, Clone, Copy, PartialEq, Eq, Structural)]
pub struct RaftTimeouts {
    pub heartbeat_interval: u64,
    pub election_timeout_min: u64,
    pub election_timeout_max: u64,
}

/// The timing that a broker starts with.
pub fn create_raft_config() -> (r: RaftTimeouts)
    ensures
        r == (RaftTimeouts { heartbeat_interval: 1000, election_timeout_min: 3000, election_timeout_max: 6000 }),
{
    RaftTimeouts { heartbeat_interval: 1000, election_timeout_min: 3000, election_timeout_max: 6000 }
}

} // verus!
