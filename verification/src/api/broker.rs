//! What clients and brokers say to each other.
use vstd::prelude::*;

use crate::maps::Dup;

verus! {

/// Asks for topics; no names means all.
#[derive(Debug)]
pub struct TopicMetadataRequest {
    pub topics: Vec<String>,
}

/// A broker in an answer about topics.
#[derive(Debug)]
pub struct MetadataBroker {
    pub node_id: i32,
    pub host: String,
    pub port: i32,
}

/// A partition in an answer about topics.
#[derive(Debug)]
pub struct PartitionMetadata {
    pub partition_error_code: i32,
    pub partition_id: i32,
    pub leader: i32,
    pub replicas: Vec<i32>,
    pub isr: Vec<i32>,
}

/// A topic in an answer about topics.
#[derive(Debug)]
pub struct TopicMetadata {
    pub topic_error_code: i32,
    pub topic_name: String,
    pub partitions: Vec<PartitionMetadata>,
}

/// The brokers and the topics.
#[derive(Debug)]
pub struct TopicMetadataResponse {
    pub brokers: Vec<MetadataBroker>,
    pub topics: Vec<TopicMetadata>,
}

/// A record to be stored.
#[derive(Debug)]
pub struct Record {
    pub key: Option<Vec<u8>>,
    pub value: Vec<u8>,
}

/// What a record holds.
#[verifier::ext_equal]
pub struct RecordView {
    pub key: Option<Seq<u8>>,
    pub value: Seq<u8>,
}

impl DeepView for Record {
    type V = RecordView;

    open spec fn deep_view(&self) -> RecordView {
        RecordView { key: self.key.deep_view(), value: self.value.deep_view() }
    }
}

impl Dup for Record {
    fn dup(&self) -> (r: Self) {
        Record { key: self.key.dup(), value: self.value.dup() }
    }
}

/// Records for a partition.
#[derive(Debug)]
pub struct ProducePartition {
    pub partition: i32,
    pub records: Vec<Record>,
}

/// Records for a topic.
#[derive(Debug)]
pub struct ProduceTopic {
    pub topic_name: String,
    pub partitions: Vec<ProducePartition>,
}

/// Asks to store records.
#[derive(Debug)]
pub struct ProduceRequest {
    pub required_acks: i32,
    pub timeout_ms: i32,
    pub topics: Vec<ProduceTopic>,
}

/// What became of the records of a partition.
#[derive(Debug)]
pub struct ProducePartitionResult {
    pub partition: i32,
    pub error_code: i32,
    pub offset: i64,
    pub leader_addr: String,
}

/// What became of the records of a topic.
#[derive(Debug)]
pub struct ProduceTopicResult {
    pub topic_name: String,
    pub partitions: Vec<ProducePartitionResult>,
}

/// What became of records.
#[derive(Debug)]
pub struct ProduceResponse {
    pub results: Vec<ProduceTopicResult>,
}

/// A partition to read from.
#[derive(Debug)]
pub struct FetchPartition {
    pub partition: i32,
    pub fetch_offset: i64,
    pub max_bytes: i32,
}

/// A topic to read from.
#[derive(Debug)]
pub struct FetchTopic {
    pub topic_name: String,
    pub partitions: Vec<FetchPartition>,
}

/// Asks for records.
#[derive(Debug)]
pub struct FetchRequest {
    pub replica_id: i32,
    pub max_wait_time: i32,
    pub min_bytes: i32,
    pub topics: Vec<FetchTopic>,
}

/// A record that was read.
#[derive(Debug)]
pub struct FetchedRecord {
    pub offset: i64,
    pub key: Option<Vec<u8>>,
    pub value: Vec<u8>,
}

/// The records of a partition.
#[derive(Debug)]
pub struct FetchPartitionResult {
    pub partition: i32,
    pub error_code: i32,
    pub high_watermark_offset: i64,
    pub records: Vec<FetchedRecord>,
}

/// The records of a topic.
#[derive(Debug)]
pub struct FetchTopicResult {
    pub topic_name: String,
    pub partitions: Vec<FetchPartitionResult>,
}

/// Records that were read.
#[derive(Debug)]
pub struct FetchResponse {
    pub topics: Vec<FetchTopicResult>,
}

/// A partition whose offset at a time is wanted.
#[derive(Debug)]
pub struct ListOffsetsPartition {
    pub partition: i32,
    pub time: i64,
    pub max_number_of_offsets: i32,
}

/// A topic whose offsets at a time are wanted.
#[derive(Debug)]
pub struct ListOffsetsTopic {
    pub topic_name: String,
    pub partitions: Vec<ListOffsetsPartition>,
}

/// Asks for offsets at a time.
#[derive(Debug)]
pub struct ListOffsetsRequest {
    pub replica_id: i32,
    pub topics: Vec<ListOffsetsTopic>,
}

/// The offsets of a partition.
#[derive(Debug)]
pub struct PartitionOffsets {
    pub partition: i32,
    pub error_code: i32,
    pub offsets: Vec<i64>,
}

/// The offsets of a topic.
#[derive(Debug)]
pub struct ListOffsetsTopicResult {
    pub topic_name: String,
    pub partitions: Vec<PartitionOffsets>,
}

/// Offsets at a time.
#[derive(Debug)]
pub struct ListOffsetsResponse {
    pub topics: Vec<ListOffsetsTopicResult>,
}

/// Asks who coordinates a group.
#[derive(Debug)]
pub struct GroupCoordinatorRequest {
    pub group_id: String,
}

/// Who coordinates a group.
#[derive(Debug)]
pub struct GroupCoordinatorResponse {
    pub error_code: i32,
    pub coordinator_id: i32,
    pub coordinator_host: String,
    pub coordinator_port: i32,
}

/// A way of assigning partitions that a member can do with.
#[derive(Debug)]
pub struct GroupProtocol {
    pub protocol_name: String,
    pub protocol_metadata: Vec<u8>,
}

/// Asks to join a group.
#[derive(Debug)]
pub struct JoinGroupRequest {
    pub group_id: String,
    pub session_timeout: i32,
    pub member_id: String,
    pub protocol_type: String,
    pub group_protocols: Vec<GroupProtocol>,
}

/// A member in an answer to a join.
#[derive(Debug)]
pub struct JoinedMember {
    pub member_id: String,
    pub member_metadata: Vec<u8>,
}

/// What a member that joins is told.
#[derive(Debug)]
pub struct JoinGroupResponse {
    pub error_code: i32,
    pub generation_id: i32,
    pub group_protocol: String,
    pub leader_id: String,
    pub member_id: String,
    pub members: Vec<JoinedMember>,
}

/// The partitions that a leader gives to a member.
#[derive(Debug)]
pub struct GroupAssignment {
    pub member_id: String,
    pub member_assignment: Vec<u8>,
}

/// Asks for the own partitions.
#[derive(Debug)]
pub struct SyncGroupRequest {
    pub group_id: String,
    pub generation_id: i32,
    pub member_id: String,
    pub group_assignment: Vec<GroupAssignment>,
}

/// The partitions of a member.
#[derive(Debug)]
pub struct SyncGroupResponse {
    pub error_code: i32,
    pub member_assignment: Vec<u8>,
}

/// Says that a member is alive.
#[derive(Debug)]
pub struct HeartbeatRequest {
    pub group_id: String,
    pub generation_id: i32,
    pub member_id: String,
}

/// What a living member is told.
#[derive(Debug)]
pub struct HeartbeatResponse {
    pub error_code: i32,
}

/// Asks to leave a group.
#[derive(Debug)]
pub struct LeaveGroupRequest {
    pub group_id: String,
    pub member_id: String,
}

/// What a member that leaves is told.
#[derive(Debug)]
pub struct LeaveGroupResponse {
    pub error_code: i32,
}

/// An offset to be committed.
#[derive(Debug)]
pub struct CommitPartition {
    pub partition: i32,
    pub offset: i64,
    pub metadata: String,
}

/// Offsets of a topic to be committed.
#[derive(Debug)]
pub struct CommitTopic {
    pub topic_name: String,
    pub partitions: Vec<CommitPartition>,
}

/// Asks to commit offsets.
#[derive(Debug)]
pub struct OffsetCommitRequest {
    pub consumer_group_id: String,
    pub topics: Vec<CommitTopic>,
}

/// What became of a commit.
#[derive(Debug)]
pub struct CommitPartitionResult {
    pub partition: i32,
    pub error_code: i32,
}

/// What became of the commits of a topic.
#[derive(Debug)]
pub struct CommitTopicResult {
    pub topic_name: String,
    pub partitions: Vec<CommitPartitionResult>,
}

/// What became of commits.
#[derive(Debug)]
pub struct OffsetCommitResponse {
    pub topics: Vec<CommitTopicResult>,
}

/// A topic whose committed offsets are wanted.
#[derive(Debug)]
pub struct OffsetFetchTopic {
    pub topic_name: String,
    pub partitions: Vec<i32>,
}

/// Asks for committed offsets.
#[derive(Debug)]
pub struct OffsetFetchRequest {
    pub consumer_group_id: String,
    pub topics: Vec<OffsetFetchTopic>,
}

/// A committed offset.
#[derive(Debug)]
pub struct OffsetFetchPartitionResult {
    pub partition: i32,
    pub offset: i64,
    pub metadata: String,
    pub error_code: i32,
}

/// The committed offsets of a topic.
#[derive(Debug)]
pub struct OffsetFetchTopicResult {
    pub topic_name: String,
    pub partitions: Vec<OffsetFetchPartitionResult>,
}

/// Committed offsets.
#[derive(Debug)]
pub struct OffsetFetchResponse {
    pub topics: Vec<OffsetFetchTopicResult>,
}

/// Asks to create a topic.
#[derive(Debug)]
pub struct CreateTopicRequest {
    pub topic_name: String,
    pub num_partitions: i32,
}

/// What became of a new topic.
#[derive(Debug)]
pub struct CreateTopicResponse {
    pub error_code: i32,
    pub error_message: String,
}

/// Asks to let a broker into the cluster.
#[derive(Debug)]
pub struct AddNodeRequest {
    pub node_id: u64,
    pub api_addr: String,
    pub rpc_addr: String,
}

/// What became of a new broker.
#[derive(Debug)]
pub struct AddNodeResponse {
    pub error_code: i32,
    pub error_message: String,
}

/// Asks to take a broker out of the cluster.
#[derive(Debug)]
pub struct RemoveNodeRequest {
    pub node_id: u64,
}

/// What became of the removal.
#[derive(Debug)]
pub struct RemoveNodeResponse {
    pub error_code: i32,
    pub error_message: String,
}

} // verus!
