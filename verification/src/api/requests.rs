//! A request to a broker.
use vstd::prelude::*;

use crate::api::broker::{
    AddNodeRequest, CreateTopicRequest, FetchRequest, GroupCoordinatorRequest, HeartbeatRequest, JoinGroupRequest,
    LeaveGroupRequest, ListOffsetsRequest, OffsetCommitRequest, OffsetFetchRequest, ProduceRequest, RemoveNodeRequest,
    SyncGroupRequest, TopicMetadataRequest,
};

verus! {

/// A request to a broker.
#[derive(Debug)]
pub enum BrokerGrpcRequest {
    GetTopicMetadata(TopicMetadataRequest),
    CreateTopic(CreateTopicRequest),
    Produce(ProduceRequest),
    Fetch(FetchRequest),
    ListOffsets(ListOffsetsRequest),
    FindCoordinator(GroupCoordinatorRequest),
    JoinGroup(JoinGroupRequest),
    SyncGroup(SyncGroupRequest),
    Heartbeat(HeartbeatRequest),
    LeaveGroup(LeaveGroupRequest),
    CommitOffset(OffsetCommitRequest),
    FetchOffset(OffsetFetchRequest),
    AddNode(AddNodeRequest),
    RemoveNode(RemoveNodeRequest),
}

} // verus!
