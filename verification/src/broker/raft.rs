//! The replicated broker state and the commands of its log.
use vstd::prelude::*;

use crate::maps::{Dup, VecMap, VecSet};

verus! {

/// A message of a partition log.
#[derive(Debug)]
pub struct BrokerStoredMessage {
    pub offset: i64,
    pub key: Option<Vec<u8>>,
    pub value: Vec<u8>,
    pub timestamp_ms: i64,
}

/// What a stored message holds.
#[verifier::ext_equal]
pub struct MessageView {
    pub offset: i64,
    pub key: Option<Seq<u8>>,
    pub value: Seq<u8>,
    pub timestamp_ms: i64,
}

impl DeepView for BrokerStoredMessage {
    type V = MessageView;

    open spec fn deep_view(&self) -> MessageView {
        MessageView {
            offset: self.offset,
            key: self.key.deep_view(),
            value: self.value.deep_view(),
            timestamp_ms: self.timestamp_ms,
        }
    }
}

impl Dup for BrokerStoredMessage {
    fn dup(&self) -> (r: Self) {
        BrokerStoredMessage {
            offset: self.offset,
            key: self.key.dup(),
            value: self.value.dup(),
            timestamp_ms: self.timestamp_ms,
        }
    }
}

/// Where a consumer group stands.
#[derive(Debug, Clone, Copy, PartialEq, Eq, Structural)]
pub enum GroupStatus {
    Empty,
    Stable,
    PreparingRebalance,
}

impl DeepView for GroupStatus {
    type V = GroupStatus;

    open spec fn deep_view(&self) -> GroupStatus {
        *self
    }
}

impl Default for GroupStatus {
    fn default() -> (r: Self)
        ensures
            r == GroupStatus::Empty,
    {
        GroupStatus::Empty
    }
}

/// A member of a consumer group.
#[derive(Debug)]
pub struct ReplicatedGroupMember {
    pub member_id: String,
    pub metadata: Vec<u8>,
}

/// What a group member holds.
#[verifier::ext_equal]
pub struct MemberView {
    pub member_id: Seq<char>,
    pub metadata: Seq<u8>,
}

impl DeepView for ReplicatedGroupMember {
    type V = MemberView;

    open spec fn deep_view(&self) -> MemberView {
        MemberView { member_id: self.member_id@, metadata: self.metadata.deep_view() }
    }
}

impl Dup for ReplicatedGroupMember {
    fn dup(&self) -> (r: Self) {
        ReplicatedGroupMember { member_id: self.member_id.dup(), metadata: self.metadata.dup() }
    }
}

/// A consumer group.
pub struct ReplicatedGroupState {
    pub generation_id: i32,
    pub leader_id: String,
    pub members: Vec<ReplicatedGroupMember>,
    /// The topic of every subscribed member.
    pub subscriptions: VecMap<String, String>,
    /// The partitions of every assigned member.
    pub assignments: VecMap<String, Vec<i32>>,
    pub status: GroupStatus,
    /// Who has come back since the rebalance began.
    pub rejoined: VecSet<String>,
    pub session_timeout_ms: i64,
    pub rebalance_started_ms: i64,
}

/// What a consumer group holds.
#[verifier::ext_equal]
pub struct GroupView {
    pub generation_id: int,
    pub leader_id: Seq<char>,
    pub members: Seq<MemberView>,
    pub subscriptions: Map<Seq<char>, Seq<char>>,
    pub assignments: Map<Seq<char>, Seq<i32>>,
    pub status: GroupStatus,
    pub rejoined: Set<Seq<char>>,
    pub session_timeout_ms: i64,
    pub rebalance_started_ms: i64,
}

impl ReplicatedGroupState {
    pub open spec fn view(&self) -> GroupView {
        GroupView {
            generation_id: self.generation_id as int,
            leader_id: self.leader_id@,
            members: self.members.deep_view(),
            subscriptions: self.subscriptions@,
            assignments: self.assignments@,
            status: self.status,
            rejoined: self.rejoined@,
            session_timeout_ms: self.session_timeout_ms,
            rebalance_started_ms: self.rebalance_started_ms,
        }
    }
}

impl DeepView for ReplicatedGroupState {
    type V = GroupView;

    open spec fn deep_view(&self) -> GroupView {
        self@
    }
}

impl Dup for ReplicatedGroupState {
    fn dup(&self) -> (r: Self) {
        ReplicatedGroupState {
            generation_id: self.generation_id,
            leader_id: self.leader_id.dup(),
            members: self.members.dup(),
            subscriptions: self.subscriptions.dup(),
            assignments: self.assignments.dup(),
            status: self.status,
            rejoined: self.rejoined.dup(),
            session_timeout_ms: self.session_timeout_ms,
            rebalance_started_ms: self.rebalance_started_ms,
        }
    }
}

/// The state that the committed commands build up.
pub struct BrokerData {
    /// The message log of every partition, in the order of the offsets.
    pub messages: VecMap<(String, i32), Vec<BrokerStoredMessage>>,
    /// The offset that a group has committed for a partition of a topic.
    pub offsets: VecMap<(String, String, i32), i64>,
    /// The number of partitions of every topic.
    pub topics: VecMap<String, i32>,
    pub groups: VecMap<String, ReplicatedGroupState>,
    /// The next offset of every partition; it never falls, whatever is truncated.
    pub next_offsets: VecMap<(String, i32), i64>,
}

/// What the broker state holds.
#[verifier::ext_equal]
pub struct BrokerDataView {
    pub messages: Map<(Seq<char>, i32), Seq<MessageView>>,
    pub offsets: Map<(Seq<char>, Seq<char>, i32), i64>,
    pub topics: Map<Seq<char>, i32>,
    pub groups: Map<Seq<char>, GroupView>,
    pub next_offsets: Map<(Seq<char>, i32), i64>,
}

impl BrokerData {
    pub open spec fn view(&self) -> BrokerDataView {
        BrokerDataView {
            messages: self.messages@,
            offsets: self.offsets@,
            topics: self.topics@,
            groups: self.groups@,
            next_offsets: self.next_offsets@,
        }
    }
}

impl DeepView for BrokerData {
    type V = BrokerDataView;

    open spec fn deep_view(&self) -> BrokerDataView {
        self@
    }
}

impl Dup for BrokerData {
    fn dup(&self) -> (r: Self) {
        BrokerData {
            messages: self.messages.dup(),
            offsets: self.offsets.dup(),
            topics: self.topics.dup(),
            groups: self.groups.dup(),
            next_offsets: self.next_offsets.dup(),
        }
    }
}

/// The state before any command.
pub open spec fn empty_data() -> BrokerDataView {
    BrokerDataView {
        messages: Map::empty(),
        offsets: Map::empty(),
        topics: Map::empty(),
        groups: Map::empty(),
        next_offsets: Map::empty(),
    }
}

impl Default for BrokerData {
    fn default() -> (r: Self)
        ensures
            r@ == empty_data(),
    {
        BrokerData {
            messages: VecMap::new(),
            offsets: VecMap::new(),
            topics: VecMap::new(),
            groups: VecMap::new(),
            next_offsets: VecMap::new(),
        }
    }
}

/// A command of the replicated log.
#[derive(Debug)]
pub enum BrokerCommand {
    Produce { topic: String, partition: i32, key: Option<Vec<u8>>, value: Vec<u8> },
    CommitOffset { group_id: String, topic: String, partition: i32, offset: i64 },
    CreateTopic { topic: String, num_partitions: i32 },
    TruncatePartition { topic: String, partition: i32, before_offset: i64 },
    GroupJoin {
        group_id: String,
        member_id: String,
        topic: String,
        metadata: Vec<u8>,
        session_timeout_ms: i64,
    },
    GroupLeave { group_id: String, member_id: String },
    GroupExpire { group_id: String, expired_ids: Vec<String> },
    GroupFinalize { group_id: String },
}

} // verus!
