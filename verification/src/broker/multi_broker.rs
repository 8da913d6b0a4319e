//! A broker of a cluster whose whole state is replicated: what it proposes, and what
//! it answers from the replicated state.
use vstd::prelude::*;
use vstd::string::StringExecFns;

use crate::broker::config::RaftConfig;
use crate::broker::consumer_group_coordinator::{heartbeat_answer, is_heartbeat_answer};
use crate::broker::error::{BrokerError, BrokerResult, ErrorView};
use crate::broker::liveness::{is_liveness, liveness_commands};
use crate::broker::raft::{BrokerCommand, BrokerData};
use crate::broker::sled_storage::{
    is_commit, is_create, is_join_command, is_leave, is_produce, is_walk, join_command};
use crate::broker::storage::{is_join_answer, join_answer, JoinAnswer};
use crate::broker::topics::{
    bad_topic_name, is_topic_name, validate_topic_name, BrokerInfo, ClusterMetadata, InfoView};
use crate::maps::{Dup, VecMap};
use crate::text::{decimal, decimal_text};

verus! {

/// How brokers talk to each other.
#[derive(Debug, Clone, Copy, PartialEq, Eq, Structural)]
pub enum Transport {
    Grpc,
    SbeTcp,
}

/// The transport of this name; an unknown name is gRPC.
pub fn transport_of(kind: &String) -> (r: Transport)
    ensures
        r == (if kind@ == "sbe_tcp"@ { Transport::SbeTcp } else { Transport::Grpc }),
{
    if *kind == "sbe_tcp".to_owned() {
        Transport::SbeTcp
    } else {
        Transport::Grpc
    }
}

/// How long a rebalance may last.
pub fn rebalance_timeout(raft_config: &Option<RaftConfig>) -> (r: i64)
    ensures
        r == (match raft_config {
            Some(c) => c.rebalance_timeout_ms,
            None => 30_000,
        }),
{
    match raft_config {
        Some(c) => c.rebalance_timeout_ms,
        None => RaftConfig::default().rebalance_timeout_ms,
    }
}

/// A broker of a cluster.
pub struct MultiBroker {
    node_id: u64,
    heard: VecMap<(String, String), i64>,
    broker_host: String,
    broker_port: i32,
    rebalance_timeout_ms: i64,
}

/// What the broker knows by itself.
#[verifier::ext_equal]
pub struct MultiView {
    pub node_id: u64,
    pub heard: Map<(Seq<char>, Seq<char>), i64>,
    pub host: Seq<char>,
    pub port: int,
    pub rebalance_timeout_ms: i64,
}

/// What came of a heartbeat that was passed on to the leader.
pub enum Forwarded {
    /// The leader could not be reached.
    Unreachable,
    /// The call failed with this message.
    Failed(String),
    /// The leader answered with this code.
    Answered(i32),
}

/// What a member is told whose heartbeat was passed on.
pub open spec fn forwarding_error(leader: Seq<char>, f: Forwarded) -> Option<ErrorView> {
    match f {
        Forwarded::Unreachable => Some(ErrorView::NotLeader { leader_addr: Some(leader) }),
        Forwarded::Failed(m) => Some(
            ErrorView::Internal("Failed to forward heartbeat to leader "@ + leader + ": "@ + m@),
        ),
        Forwarded::Answered(code) => if code == 0 {
            None
        } else if code == 27 {
            Some(ErrorView::RebalanceInProgress)
        } else {
            Some(
                ErrorView::Internal(
                    "Heartbeat error_code="@ + decimal_text(code as int) + " from leader "@ + leader,
                ),
            )
        },
    }
}

/// What a member is told whose heartbeat was passed on to a leader.
pub fn forwarded_answer(leader_addr: &String, f: Forwarded) -> (r: BrokerResult<()>)
    ensures
        match r {
            Ok(()) => forwarding_error(leader_addr@, f) is None,
            Err(e) => forwarding_error(leader_addr@, f) == Some(e.deep_view()),
        },
{
    match f {
        Forwarded::Unreachable => Err(BrokerError::NotLeader { leader_addr: Some(leader_addr.dup()) }),
        Forwarded::Failed(m) => {
            let mut text = "Failed to forward heartbeat to leader ".to_owned();
            text.append(leader_addr.as_str());
            text.append(": ");
            text.append(m.as_str());
            Err(BrokerError::Internal(text))
        },
        Forwarded::Answered(code) => {
            if code == 0 {
                Ok(())
            } else if code == 27 {
                Err(BrokerError::RebalanceInProgress)
            } else {
                let mut text = "Heartbeat error_code=".to_owned();
                text.append(decimal(code as i64).as_str());
                text.append(" from leader ");
                text.append(leader_addr.as_str());
                Err(BrokerError::Internal(text))
            }
        },
    }
}

/// What to do with a heartbeat.
pub enum HeartbeatStep {
    /// Answer the member.
    Answer(BrokerResult<()>),
    /// Pass the heartbeat on to the leader at this address.
    Forward(String),
}

impl MultiBroker {
    /// What the broker knows by itself.
    pub closed spec fn view(&self) -> MultiView {
        MultiView {
            node_id: self.node_id,
            heard: self.heard@,
            host: self.broker_host@,
            port: self.broker_port as int,
            rebalance_timeout_ms: self.rebalance_timeout_ms,
        }
    }

    /// A broker of this id; its port follows from the id.
    pub fn new(node_id: u64, raft_config: &Option<RaftConfig>) -> (r: Self)
        requires
            9092 + (node_id as i32) <= i32::MAX,
        ensures
            r@ == (MultiView {
                node_id,
                heard: Map::empty(),
                host: "127.0.0.1"@,
                port: 9092 + (node_id as i32),
                rebalance_timeout_ms: match raft_config {
                    Some(c) => c.rebalance_timeout_ms,
                    None => 30_000,
                },
            }),
    {
        let id = #[verifier::truncate] (node_id as i32);
        MultiBroker {
            node_id,
            heard: VecMap::new(),
            broker_host: "127.0.0.1".to_owned(),
            broker_port: 9092 + id,
            rebalance_timeout_ms: rebalance_timeout(raft_config),
        }
    }

    /// What the leader is to propose about silent members and overdue rebalances; any
    /// other broker proposes nothing.
    pub fn liveness(&self, data: &BrokerData, is_leader: bool, now: i64) -> (r: Vec<BrokerCommand>)
        ensures
            !is_leader ==> r@.len() == 0,
            is_leader ==> exists|order: Seq<Seq<char>>| #[trigger]
                is_walk(order, data@) && is_liveness(
                    data@.groups,
                    order,
                    self@.heard,
                    now,
                    self@.rebalance_timeout_ms,
                    r@,
                ),
    {
        if !is_leader {
            return Vec::new();
        }
        let _ = data.groups.len();
        let r = liveness_commands(&data.groups, &self.heard, now, self.rebalance_timeout_ms);
        assert(is_walk(data.groups.order(), data@));
        r
    }

    /// The command that creates a topic; a bad name is refused.
    pub fn create_topic(&self, topic: &String, num_partitions: i32) -> (r: BrokerResult<BrokerCommand>)
        ensures
            match r {
                Ok(cmd) => is_topic_name(topic@) && is_create(cmd, topic@, num_partitions),
                Err(e) => !is_topic_name(topic@) && e.deep_view() == bad_topic_name(),
            },
    {
        match validate_topic_name(topic) {
            Err(e) => Err(e),
            Ok(()) => Ok(BrokerCommand::CreateTopic { topic: topic.dup(), num_partitions }),
        }
    }

    /// The command that appends a message; a bad name is refused.
    pub fn produce_message(&self, topic: &String, partition: i32, key: Option<Vec<u8>>, value: Vec<u8>) -> (r: BrokerResult<
        BrokerCommand,
    >)
        ensures
            match r {
                Ok(cmd) => is_topic_name(topic@) && is_produce(cmd, topic@, partition, key.deep_view(), value@),
                Err(e) => !is_topic_name(topic@) && e.deep_view() == bad_topic_name(),
            },
    {
        match validate_topic_name(topic) {
            Err(e) => Err(e),
            Ok(()) => Ok(BrokerCommand::Produce { topic: topic.dup(), partition, key, value }),
        }
    }

    /// The command that commits an offset. Metadata is not kept.
    pub fn commit_offset(&self, group: &String, topic: &String, partition: i32, offset: i64) -> (cmd: BrokerCommand)
        ensures
            is_commit(cmd, group@, topic@, partition, offset),
    {
        BrokerCommand::CommitOffset { group_id: group.dup(), topic: topic.dup(), partition, offset }
    }

    /// Where the coordinator of groups is: at this broker.
    pub fn get_coordinator_info(&self) -> (r: (i32, String, i32))
        ensures
            r.0 == self@.node_id as i32,
            r.1@ == self@.host,
            r.2 == self@.port,
    {
        (#[verifier::truncate] (self.node_id as i32), self.broker_host.dup(), self.broker_port)
    }

    /// A member wants to join: it was heard of, and this is to be proposed.
    pub fn join_group(
        &mut self,
        group_id: &String,
        member_id: &String,
        protocol_metadata: &[u8],
        session_timeout_ms: i64,
        now: i64,
    ) -> (cmd: BrokerCommand)
        ensures
            is_join_command(cmd, group_id@, member_id@, protocol_metadata@, session_timeout_ms),
            final(self)@ == (MultiView { heard: old(self)@.heard.insert((group_id@, member_id@), now), ..old(self)@ }),
    {
        self.heard.insert((group_id.dup(), member_id.dup()), now);
        join_command(group_id, member_id, protocol_metadata, session_timeout_ms)
    }

    /// What a member is told once its joining was replicated.
    pub fn joined(&self, data: &BrokerData, group_id: &String, member_id: &String) -> (r: BrokerResult<JoinAnswer>)
        ensures
            match r {
                Ok(a) => data@.groups.dom().contains(group_id@) && is_join_answer(
                    data@.groups[group_id@],
                    member_id@,
                    a,
                ),
                Err(e) => !data@.groups.dom().contains(group_id@) && e.deep_view() == ErrorView::NotFound(
                    "Group not found after join"@,
                ),
            },
    {
        match data.groups.get(group_id) {
            Some(group) => Ok(join_answer(group, member_id)),
            None => Err(BrokerError::NotFound("Group not found after join".to_owned())),
        }
    }

    /// A member reports that it is alive. The leader notes it; another broker passes it
    /// on, so that only the leader decides who is silent.
    pub fn heartbeat(
        &mut self,
        data: &BrokerData,
        is_leader: bool,
        leader_addr: Option<String>,
        group_id: &String,
        member_id: &String,
        now: i64,
    ) -> (r: HeartbeatStep)
        ensures
            is_leader ==> (r matches HeartbeatStep::Answer(a) && is_heartbeat_answer(
                data@.groups,
                group_id@,
                member_id@,
                a,
            )) && final(self)@ == (MultiView {
                heard: old(self)@.heard.insert((group_id@, member_id@), now),
                ..old(self)@
            }),
            !is_leader ==> final(self)@ == old(self)@ && match leader_addr {
                Some(a) => r matches HeartbeatStep::Forward(b) && b@ == a@,
                None => r matches HeartbeatStep::Answer(Err(e)) && e.deep_view() == (ErrorView::NotLeader {
                    leader_addr: None,
                }),
            },
    {
        if !is_leader {
            return match leader_addr {
                Some(a) => HeartbeatStep::Forward(a),
                None => HeartbeatStep::Answer(Err(BrokerError::NotLeader { leader_addr: None })),
            };
        }
        self.heard.insert((group_id.dup(), member_id.dup()), now);
        HeartbeatStep::Answer(heartbeat_answer(&data.groups, group_id, member_id))
    }

    /// A member wants to leave: it is not waited for any longer, and this is to be
    /// proposed.
    pub fn leave_group(&mut self, group_id: &String, member_id: &String) -> (cmd: BrokerCommand)
        ensures
            is_leave(cmd, group_id@, member_id@),
            final(self)@ == (MultiView { heard: old(self)@.heard.remove((group_id@, member_id@)), ..old(self)@ }),
    {
        let _ = self.heard.remove(&(group_id.dup(), member_id.dup()));
        BrokerCommand::GroupLeave { group_id: group_id.dup(), member_id: member_id.dup() }
    }

    /// The brokers of the cluster and the leader.
    pub fn get_cluster_metadata(&self, peers: Vec<(u64, String)>, leader_id: u64) -> (r: ClusterMetadata)
        ensures
            r.leader_id == leader_id,
            r.brokers.deep_view() == peers.deep_view().map_values(
                |p: (u64, Seq<char>)| InfoView { node_id: p.0, api_addr: p.1 },
            ),
    {
        let mut brokers: Vec<BrokerInfo> = Vec::new();
        for p in it: peers
            invariant
                it.seq() == peers@,
                brokers@.len() == it.index(),
                forall|i: int|
                    0 <= i < brokers@.len() ==> (#[trigger] brokers@[i]).deep_view() == (InfoView {
                        node_id: peers@[i].0,
                        api_addr: peers@[i].1@,
                    }),
        {
            brokers.push(BrokerInfo { node_id: p.0, api_addr: p.1 });
        }
        assert(brokers.deep_view() =~= peers.deep_view().map_values(
            |p: (u64, Seq<char>)| InfoView { node_id: p.0, api_addr: p.1 },
        ));
        ClusterMetadata { brokers, leader_id }
    }
}

/// A heartbeat that was passed on is confirmed exactly where the leader confirmed it. A
/// rebalance is reported as such, a leader that cannot be reached is named, and anything
/// else is a failure.
pub proof fn forwarding_keeps_the_answer(leader: Seq<char>, f: Forwarded)
    ensures
        forwarding_error(leader, f) is None <==> f == Forwarded::Answered(0),
        forwarding_error(leader, f) == Some(ErrorView::RebalanceInProgress) <==> f == Forwarded::Answered(27),
        f is Unreachable ==> forwarding_error(leader, f) == Some(ErrorView::NotLeader { leader_addr: Some(leader) }),
        f is Failed ==> (forwarding_error(leader, f) matches Some(e) && e is Internal),
        f matches Forwarded::Answered(code) ==> (code != 0 && code != 27 ==> (forwarding_error(leader, f) matches Some(e)
            && e is Internal)),
{
}

} // verus!
