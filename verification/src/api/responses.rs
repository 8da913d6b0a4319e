//! An answer of a broker.
use vstd::prelude::*;

use crate::api::broker::{
    AddNodeResponse, CreateTopicResponse, FetchResponse, GroupCoordinatorResponse, HeartbeatResponse,
    JoinGroupResponse, LeaveGroupResponse, ListOffsetsResponse, OffsetCommitResponse, OffsetFetchResponse,
    ProduceResponse, RemoveNodeResponse, SyncGroupResponse, TopicMetadataResponse,
};

verus! {

/// An answer of a broker.
#[derive(Debug)]
pub enum BrokerGrpcResponse {
    GetTopicMetadata(TopicMetadataResponse),
    CreateTopic(CreateTopicResponse),
    Produce(ProduceResponse),
    Fetch(FetchResponse),
    ListOffsets(ListOffsetsResponse),
    FindCoordinator(GroupCoordinatorResponse),
    JoinGroup(JoinGroupResponse),
    SyncGroup(SyncGroupResponse),
    Heartbeat(HeartbeatResponse),
    LeaveGroup(LeaveGroupResponse),
    CommitOffset(OffsetCommitResponse),
    FetchOffset(OffsetFetchResponse),
    AddNode(AddNodeResponse),
    RemoveNode(RemoveNodeResponse),
}

} // verus!
