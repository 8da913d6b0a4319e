//! Which part of a broker answers a request.
use vstd::prelude::*;

use crate::api::requests::BrokerGrpcRequest;
use crate::api::responses::BrokerGrpcResponse;
use crate::broker::broker_core::{
    answers_topics, asked_topics, commits_topics, dates_topic, describes, fetches_topic, first_metadata, first_protocol,
    group_code, is_join_response, is_own_broker, node_answer, plain_code, recalls_topic, BrokerCore,
};
use crate::broker::raft::GroupStatus;
use crate::broker::service::{BrokerStorage, JoinView};
use crate::broker::storage::InMemoryStorage;
use crate::wire::i32_list;

verus! {

/// Sends every request to the part of the broker that answers it.
pub struct BrokerRpcRouter<S: BrokerStorage> {
    pub core: BrokerCore<S>,
}

/// The generation of a group can still be counted when the request changes it.
pub open spec fn can_answer<S: BrokerStorage>(s: S, request: BrokerGrpcRequest, now: i64) -> bool {
    match request {
        BrokerGrpcRequest::JoinGroup(q) => s.can_join(
            q.group_id@,
            q.member_id@,
            first_metadata(q),
            q.session_timeout as i64,
            now,
        ),
        BrokerGrpcRequest::LeaveGroup(q) => s.can_leave(q.group_id@, q.member_id@, now),
        _ => true,
    }
}

/// The answer is of the kind of the request, and it says what the storage gave.
pub open spec fn is_answered<S: BrokerStorage>(
    before: S,
    request: BrokerGrpcRequest,
    now: i64,
    response: BrokerGrpcResponse,
    after: S,
) -> bool {
    match request {
        BrokerGrpcRequest::GetTopicMetadata(q) => {
            &&& after == before
            &&& response matches BrokerGrpcResponse::GetTopicMetadata(a) && is_own_broker(before, a.brokers@) && exists|
                names: Seq<Seq<char>>,
            | #[trigger]
                asked_topics(before, q, names) && describes(before, names, a.topics@)
        },
        BrokerGrpcRequest::Produce(q) => response matches BrokerGrpcResponse::Produce(a) && answers_topics(
            before,
            q.topics@,
            now,
            a.results@,
            after,
        ),
        BrokerGrpcRequest::Fetch(q) => {
            &&& after == before
            &&& response matches BrokerGrpcResponse::Fetch(a) && a.topics@.len() == q.topics@.len() && forall|i: int|
                0 <= i < a.topics@.len() ==> fetches_topic(before, q.topics@[i], #[trigger] a.topics@[i])
        },
        BrokerGrpcRequest::ListOffsets(q) => {
            &&& after == before
            &&& response matches BrokerGrpcResponse::ListOffsets(a) && a.topics@.len() == q.topics@.len() && forall|
                i: int,
            |
                0 <= i < a.topics@.len() ==> dates_topic(before, q.topics@[i], #[trigger] a.topics@[i])
        },
        BrokerGrpcRequest::FindCoordinator(_) => {
            &&& after == before
            &&& response matches BrokerGrpcResponse::FindCoordinator(a) && a.error_code == 0 && before.located(
                (a.coordinator_id, a.coordinator_host@, a.coordinator_port),
            )
        },
        BrokerGrpcRequest::JoinGroup(q) => response matches BrokerGrpcResponse::JoinGroup(a) && exists|
            r: Result<JoinView, Seq<char>>,
        | #[trigger]
            S::joins(
                before,
                q.group_id@,
                q.member_id@,
                q.protocol_type@,
                first_metadata(q),
                q.session_timeout as i64,
                now,
                r,
                after,
            ) && is_join_response(a, first_protocol(q), r),
        BrokerGrpcRequest::SyncGroup(q) => {
            &&& after == before
            &&& response matches BrokerGrpcResponse::SyncGroup(a) && exists|r: Result<Seq<u8>, Seq<char>>| #[trigger]
                before.syncs(q.group_id@, q.generation_id, q.member_id@, r) && a.error_code == group_code(r)
                    && a.member_assignment@ == (match r {
                    Ok(b) => b,
                    Err(_) => Seq::empty(),
                })
        },
        BrokerGrpcRequest::Heartbeat(q) => response matches BrokerGrpcResponse::Heartbeat(a) && exists|
            r: Result<(), Seq<char>>,
        | #[trigger]
            S::beats(before, q.group_id@, q.generation_id, q.member_id@, now, r, after) && a.error_code == group_code(r),
        BrokerGrpcRequest::LeaveGroup(q) => response matches BrokerGrpcResponse::LeaveGroup(a) && exists|
            r: Result<(), Seq<char>>,
        | #[trigger]
            S::leaves(before, q.group_id@, q.member_id@, now, r, after) && a.error_code == plain_code(r),
        BrokerGrpcRequest::CommitOffset(q) => response matches BrokerGrpcResponse::CommitOffset(a) && commits_topics(
            before,
            q.consumer_group_id@,
            q.topics@,
            a.topics@,
            after,
        ),
        BrokerGrpcRequest::FetchOffset(q) => {
            &&& after == before
            &&& response matches BrokerGrpcResponse::FetchOffset(a) && a.topics@.len() == q.topics@.len() && forall|
                i: int,
            |
                0 <= i < a.topics@.len() ==> recalls_topic(
                    before,
                    q.consumer_group_id@,
                    q.topics@[i],
                    #[trigger] a.topics@[i],
                )
        },
        BrokerGrpcRequest::CreateTopic(q) => response matches BrokerGrpcResponse::CreateTopic(a) && exists|
            r: Result<(), Seq<char>>,
        | #[trigger]
            S::creates(before, q.topic_name@, q.num_partitions, r, after) && (a.error_code, a.error_message@) == (match r {
                Ok(_) => (0i32, Seq::<char>::empty()),
                Err(e) => (1i32, e),
            }),
        BrokerGrpcRequest::AddNode(q) => response matches BrokerGrpcResponse::AddNode(a) && exists|
            r: Result<(), Seq<char>>,
        | #[trigger]
            S::admits(before, q.node_id, q.api_addr@, q.rpc_addr@, r, after) && (a.error_code, a.error_message@)
                == node_answer(r),
        BrokerGrpcRequest::RemoveNode(q) => response matches BrokerGrpcResponse::RemoveNode(a) && exists|
            r: Result<(), Seq<char>>,
        | #[trigger]
            S::dismisses(before, q.node_id, r, after) && (a.error_code, a.error_message@) == node_answer(r),
    }
}

impl<S: BrokerStorage> BrokerRpcRouter<S> {
    /// Requests go to this broker.
    pub fn new(core: BrokerCore<S>) -> (r: Self)
        ensures
            r.core == core,
    {
        BrokerRpcRouter { core }
    }

    /// Answers a request.
    pub fn dispatch(&mut self, request: BrokerGrpcRequest, now: i64) -> (r: BrokerGrpcResponse)
        requires
            can_answer(old(self).core.storage, request, now),
        ensures
            is_answered(old(self).core.storage, request, now, r, final(self).core.storage),
    {
        match request {
            BrokerGrpcRequest::GetTopicMetadata(q) => BrokerGrpcResponse::GetTopicMetadata(
                self.core.handle_get_topic_metadata(q),
            ),
            BrokerGrpcRequest::Produce(q) => BrokerGrpcResponse::Produce(self.core.handle_produce(q, now)),
            BrokerGrpcRequest::Fetch(q) => BrokerGrpcResponse::Fetch(self.core.handle_fetch(q)),
            BrokerGrpcRequest::ListOffsets(q) => BrokerGrpcResponse::ListOffsets(self.core.handle_list_offsets(q)),
            BrokerGrpcRequest::FindCoordinator(q) => BrokerGrpcResponse::FindCoordinator(self.core.handle_find_coordinator(q)),
            BrokerGrpcRequest::JoinGroup(q) => BrokerGrpcResponse::JoinGroup(self.core.handle_join_group(q, now)),
            BrokerGrpcRequest::SyncGroup(q) => BrokerGrpcResponse::SyncGroup(self.core.handle_sync_group(q)),
            BrokerGrpcRequest::Heartbeat(q) => BrokerGrpcResponse::Heartbeat(self.core.handle_heartbeat(q, now)),
            BrokerGrpcRequest::LeaveGroup(q) => BrokerGrpcResponse::LeaveGroup(self.core.handle_leave_group(q, now)),
            BrokerGrpcRequest::CommitOffset(q) => BrokerGrpcResponse::CommitOffset(self.core.handle_commit_offset(q)),
            BrokerGrpcRequest::FetchOffset(q) => BrokerGrpcResponse::FetchOffset(self.core.handle_fetch_offset(q)),
            BrokerGrpcRequest::CreateTopic(q) => BrokerGrpcResponse::CreateTopic(self.core.handle_create_topic(q)),
            BrokerGrpcRequest::AddNode(q) => BrokerGrpcResponse::AddNode(self.core.handle_add_node(q)),
            BrokerGrpcRequest::RemoveNode(q) => BrokerGrpcResponse::RemoveNode(self.core.handle_remove_node(q)),
        }
    }
}

/// The answer is of the kind of the request.
pub open spec fn same_kind(request: BrokerGrpcRequest, response: BrokerGrpcResponse) -> bool {
    match request {
        BrokerGrpcRequest::GetTopicMetadata(_) => response is GetTopicMetadata,
        BrokerGrpcRequest::Produce(_) => response is Produce,
        BrokerGrpcRequest::Fetch(_) => response is Fetch,
        BrokerGrpcRequest::ListOffsets(_) => response is ListOffsets,
        BrokerGrpcRequest::FindCoordinator(_) => response is FindCoordinator,
        BrokerGrpcRequest::JoinGroup(_) => response is JoinGroup,
        BrokerGrpcRequest::SyncGroup(_) => response is SyncGroup,
        BrokerGrpcRequest::Heartbeat(_) => response is Heartbeat,
        BrokerGrpcRequest::LeaveGroup(_) => response is LeaveGroup,
        BrokerGrpcRequest::CommitOffset(_) => response is CommitOffset,
        BrokerGrpcRequest::FetchOffset(_) => response is FetchOffset,
        BrokerGrpcRequest::CreateTopic(_) => response is CreateTopic,
        BrokerGrpcRequest::AddNode(_) => response is AddNode,
        BrokerGrpcRequest::RemoveNode(_) => response is RemoveNode,
    }
}

/// Every request gets an answer of its kind, and requests that only ask change nothing.
pub proof fn asking_changes_nothing<S: BrokerStorage>(
    before: S,
    request: BrokerGrpcRequest,
    now: i64,
    response: BrokerGrpcResponse,
    after: S,
)
    requires
        is_answered(before, request, now, response, after),
    ensures
        same_kind(request, response),
        request is GetTopicMetadata || request is Fetch || request is ListOffsets || request is FindCoordinator
            || request is SyncGroup || request is FetchOffset ==> after == before,
{
}

/// How a broker on its own answers. Partitions are told, and heartbeats taken, outside of
/// rebalances; a heartbeat counts only of a member. Only a known group can be left, a
/// topic needs partitions, and there is no cluster to change. Whoever is refused is told
/// so by a code other than zero.
pub proof fn codes_tell_what_became_of_requests(
    before: InMemoryStorage,
    request: BrokerGrpcRequest,
    now: i64,
    response: BrokerGrpcResponse,
    after: InMemoryStorage,
)
    requires
        is_answered(before, request, now, response, after),
    ensures
        match request {
            BrokerGrpcRequest::SyncGroup(q) => response matches BrokerGrpcResponse::SyncGroup(a) && {
                let groups = before@.groups;
                let g = q.group_id@;
                let told = groups.dom().contains(g) && groups[g].status != GroupStatus::PreparingRebalance;
                &&& a.error_code == 0 <==> told
                &&& told && groups[g].assignments.dom().contains(q.member_id@) ==> a.member_assignment@ == i32_list(
                    groups[g].assignments[q.member_id@],
                )
                &&& !told ==> a.member_assignment@.len() == 0
            },
            BrokerGrpcRequest::Heartbeat(q) => response matches BrokerGrpcResponse::Heartbeat(a) && {
                let groups = before@.groups;
                let g = q.group_id@;
                &&& a.error_code == 0 <==> groups.dom().contains(g) && groups[g].status != GroupStatus::PreparingRebalance
                    && exists|i: int|
                    0 <= i < groups[g].members.len() && (#[trigger] groups[g].members[i]).member_id == q.member_id@
                &&& a.error_code == 0 ==> after@.heard == before@.heard.insert((g, q.member_id@), now)
            },
            BrokerGrpcRequest::LeaveGroup(q) => response matches BrokerGrpcResponse::LeaveGroup(a) && (a.error_code == 0
                <==> before@.groups.dom().contains(q.group_id@)) && (a.error_code != 0 ==> after@ == before@),
            BrokerGrpcRequest::CreateTopic(q) => response matches BrokerGrpcResponse::CreateTopic(a) && (a.error_code == 0
                <==> q.num_partitions > 0) && (a.error_code == 0 ==> after@.topics == before@.topics.insert(
                q.topic_name@,
                q.num_partitions,
            )) && (a.error_code != 0 ==> after@ == before@ && a.error_message@ == "num_partitions must be > 0"@),
            BrokerGrpcRequest::AddNode(_) => response matches BrokerGrpcResponse::AddNode(a) && a.error_code != 0 && after@
                == before@,
            BrokerGrpcRequest::RemoveNode(_) => response matches BrokerGrpcResponse::RemoveNode(a) && a.error_code != 0
                && after@ == before@,
            _ => true,
        },
{
}

} // verus!
