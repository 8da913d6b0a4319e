//! A broker on top of the replicated requests: who answers what.
use vstd::prelude::*;
use vstd::string::StringExecFns;

use crate::broker::raft_state_machine::topic_offsets;
use crate::broker::raft_types::{
    BrokerNode, BrokerNodeId, BrokerResponse, BrokerStateMachineData, GroupMemberView, NodeView,
    StateView};
use crate::broker::storage::GroupMember;
use crate::ids::{ascending_same_ids, different_ids_rise, sort_ids};
use crate::maps::{Dup, VecMap};
use crate::order::{in_order, texts_rise};
use crate::seqs::{range, up_to};
use crate::text::{
    cut, cut_joined, decimal_text, decimal_u64, number_within, padded_has_no_colon, padded_reads_back, parse_i32, splitn,
};

verus! {

/// A node and the nodes that it knows.
pub struct RaftBroker {
    node_id: BrokerNodeId,
    nodes: VecMap<u64, BrokerNode>,
    rpc_addr: String,
    api_addr: String,
}

/// Where a request goes.
#[derive(Debug)]
pub enum Route {
    /// This node leads and takes the request.
    Here,
    /// The request is refused with this message.
    Refused(String),
}

/// Why a request is refused, if it is: another node leads, or none does.
pub open spec fn refusal(node_id: u64, leader: Option<u64>, nodes: Map<u64, NodeView>) -> Option<Seq<char>> {
    match leader {
        Some(l) => if l == node_id {
            None
        } else if nodes.dom().contains(l) {
            Some("Not leader, forward to node "@ + decimal_text(l as int) + " at "@ + nodes[l].api_addr)
        } else {
            Some("No leader available"@)
        },
        None => Some("No leader available"@),
    }
}

/// The host and the port in an address: what stands before the first colon and what
/// stands between it and the second; without a number the port is the default one.
pub open spec fn first_host_and_port(addr: Seq<char>) -> (Seq<char>, int) {
    let parts = cut(addr, 3, ':');
    (
        parts[0],
        if parts.len() > 1 {
            match number_within(parts[1], i32::MIN as int, i32::MAX as int) {
                Some(p) => p,
                None => 9092,
            }
        } else {
            9092
        },
    )
}

/// Splits an address at its colons.
pub fn split_host_port(addr: &String) -> (r: (String, i32))
    ensures
        (r.0@, r.1 as int) == first_host_and_port(addr@),
{
    let parts = splitn(addr.as_str(), 3, ':');
    proof {
        lemma_cut_nonempty(addr@, 3, ':');
        assert(parts.deep_view().len() == parts@.len());
        assert(parts.deep_view()[0] == parts@[0]@);
    }
    let port: i32 = if parts.len() > 1 {
        assert(parts.deep_view()[1] == parts@[1]@);
        match parse_i32(parts[1].as_str()) {
            Some(p) => p,
            None => 9092,
        }
    } else {
        9092
    };
    (parts[0].dup(), port)
}

proof fn lemma_cut_nonempty(s: Seq<char>, n: nat, sep: char)
    requires
        n > 0,
    ensures
        cut(s, n, sep).len() > 0,
{
}

impl RaftBroker {
    /// The own id.
    pub closed spec fn node(&self) -> u64 {
        self.node_id
    }

    /// The own addresses.
    pub closed spec fn own(&self) -> NodeView {
        NodeView { rpc_addr: self.rpc_addr@, api_addr: self.api_addr@ }
    }

    /// The known nodes.
    pub closed spec fn known(&self) -> Map<u64, NodeView> {
        self.nodes@
    }

    /// A node that knows no other.
    pub fn new(node_id: BrokerNodeId, rpc_addr: String, api_addr: String) -> (r: Self)
        ensures
            r.node() == node_id,
            r.own() == (NodeView { rpc_addr: rpc_addr@, api_addr: api_addr@ }),
            r.known() == Map::<u64, NodeView>::empty(),
    {
        RaftBroker { node_id, nodes: VecMap::new(), rpc_addr, api_addr }
    }

    /// The members that a new cluster begins with: this node alone.
    pub fn init_cluster(&self) -> (r: VecMap<u64, BrokerNode>)
        ensures
            r@ == Map::<u64, NodeView>::empty().insert(self.node(), self.own()),
    {
        let mut nodes: VecMap<u64, BrokerNode> = VecMap::new();
        nodes.insert(
            self.node_id,
            BrokerNode { rpc_addr: self.rpc_addr.dup(), api_addr: self.api_addr.dup() },
        );
        nodes
    }

    /// A node takes part from now on.
    pub fn add_node(&mut self, node_id: BrokerNodeId, node: BrokerNode)
        ensures
            final(self).known() == old(self).known().insert(node_id, node.deep_view()),
            final(self).node() == old(self).node(),
            final(self).own() == old(self).own(),
    {
        self.nodes.insert(node_id, node);
    }

    /// A node takes part no longer. Returns the others by id, who are to be the members.
    pub fn remove_node(&mut self, node_id: BrokerNodeId) -> (remaining: Vec<u64>)
        ensures
            final(self).known() == old(self).known().remove(node_id),
            final(self).node() == old(self).node(),
            final(self).own() == old(self).own(),
            forall|i: int, j: int| 0 <= i < j < remaining@.len() ==> #[trigger] remaining@[i] < #[trigger] remaining@[j],
            remaining@.to_set() == final(self).known().dom(),
    {
        let _ = self.nodes.remove(&node_id);
        let others = self.nodes.keys();
        assert(others.deep_view() =~= others@);
        let remaining = sort_ids(&others);
        proof {
            different_ids_rise(others@);
            assert(remaining@.to_set() =~= others@.to_set()) by {
                assert forall|id: u64| remaining@.contains(id) <==> others@.contains(id) by {
                    ascending_same_ids(others@, id);
                }
            }
        }
        remaining
    }

    /// Where a request goes: to this node, where it leads.
    pub fn forward_to_leader(&self, leader: Option<u64>) -> (r: Route)
        ensures
            match r {
                Route::Here => refusal(self.node(), leader, self.known()) is None,
                Route::Refused(m) => refusal(self.node(), leader, self.known()) == Some(m@),
            },
    {
        if let Some(l) = leader {
            if l == self.node_id {
                return Route::Here;
            }
            if let Some(node) = self.nodes.get(&l) {
                let mut m = "Not leader, forward to node ".to_owned();
                m.append(decimal_u64(l).as_str());
                m.append(" at ");
                m.append(node.api_addr.as_str());
                return Route::Refused(m);
            }
        }
        Route::Refused("No leader available".to_owned())
    }

    /// Where the coordinator of groups is: at the leader, where it is known, else here.
    pub fn get_coordinator_info(&self, leader: Option<u64>) -> (r: (i32, String, i32))
        ensures
            match leader {
                Some(l) if self.known().dom().contains(l) => r.0 == l as i32 && (r.1@, r.2 as int)
                    == first_host_and_port(self.known()[l].api_addr),
                _ => r.0 == self.node() as i32 && (r.1@, r.2 as int) == first_host_and_port(self.own().api_addr),
            },
    {
        if let Some(l) = leader {
            if let Some(node) = self.nodes.get(&l) {
                let (host, port) = split_host_port(&node.api_addr);
                return (#[verifier::truncate] (l as i32), host, port);
            }
        }
        let (host, port) = split_host_port(&self.api_addr);
        (#[verifier::truncate] (self.node_id as i32), host, port)
    }
}

/// Reads the answer to a stored message.
pub fn produce_answer(response: Result<BrokerResponse, String>) -> (r: Result<i64, String>)
    ensures
        match (response, r) {
            (Ok(BrokerResponse::Produce { offset }), Ok(o)) => o == offset,
            (Ok(BrokerResponse::Produce { .. }), Err(_)) => false,
            (Ok(BrokerResponse::Error(e)), Err(m)) => m@ == e@,
            (Err(e), Err(m)) => m@ == e@,
            (Ok(_), Err(m)) => m@ == "Unexpected response"@,
            (_, Ok(_)) => false,
        },
{
    match response {
        Ok(BrokerResponse::Produce { offset }) => Ok(offset),
        Ok(BrokerResponse::Error(e)) => Err(e),
        Ok(_) => Err("Unexpected response".to_owned()),
        Err(e) => Err(e),
    }
}

/// The answers that say no more than that a request was done.
#[derive(Debug, Clone, Copy, PartialEq, Eq)]
pub enum Acknowledged {
    CommitOffset,
    Heartbeat,
    LeaveGroup,
}

/// The response acknowledges this.
pub open spec fn acknowledges(response: BrokerResponse, what: Acknowledged) -> bool {
    match what {
        Acknowledged::CommitOffset => response is CommitOffset,
        Acknowledged::Heartbeat => response is GroupHeartbeat,
        Acknowledged::LeaveGroup => response is LeaveGroup,
    }
}

/// Reads the answer to a request that has no result.
pub fn plain_answer(what: Acknowledged, response: Result<BrokerResponse, String>) -> (r: Result<(), String>)
    ensures
        match response {
            Ok(resp) => if acknowledges(resp, what) {
                r is Ok
            } else {
                r matches Err(m) && m@ == (match resp {
                    BrokerResponse::Error(e) => e@,
                    _ => "Unexpected response"@,
                })
            },
            Err(e) => r matches Err(m) && m@ == e@,
        },
{
    match (what, response) {
        (Acknowledged::CommitOffset, Ok(BrokerResponse::CommitOffset)) => Ok(()),
        (Acknowledged::Heartbeat, Ok(BrokerResponse::GroupHeartbeat)) => Ok(()),
        (Acknowledged::LeaveGroup, Ok(BrokerResponse::LeaveGroup)) => Ok(()),
        (_, Ok(BrokerResponse::Error(e))) => Err(e),
        (_, Ok(_)) => Err("Unexpected response".to_owned()),
        (_, Err(e)) => Err(e),
    }
}

/// The members of a group; an unknown group has none.
pub open spec fn members_of(s: StateView, group: Seq<char>) -> Seq<GroupMemberView> {
    if s.groups.dom().contains(group) { s.groups[group].members } else { Seq::empty() }
}

/// A member of a group, seen by a client.
pub open spec fn shown_member(m: GroupMember) -> GroupMemberView {
    GroupMemberView { member_id: m.member_id@, metadata: m.metadata.deep_view() }
}

/// Reads the answer to a member that has joined, and adds the members of its group.
pub fn join_answer(data: &BrokerStateMachineData, group_id: &String, response: Result<BrokerResponse, String>) -> (r: Result<
    (i32, String, String, Vec<GroupMember>),
    String,
>)
    ensures
        match (response, r) {
            (Ok(BrokerResponse::JoinGroup { generation_id, leader_id, member_id }), Ok(a)) => {
                &&& a.0 == generation_id
                &&& a.1@ == leader_id@
                &&& a.2@ == member_id@
                &&& a.3@.len() == members_of(data@, group_id@).len()
                &&& forall|i: int|
                    0 <= i < a.3@.len() ==> shown_member(#[trigger] a.3@[i]) == members_of(data@, group_id@)[i]
            },
            (Ok(BrokerResponse::JoinGroup { .. }), Err(_)) => false,
            (Ok(BrokerResponse::Error(e)), Err(m)) => m@ == e@,
            (Err(e), Err(m)) => m@ == e@,
            (Ok(_), Err(m)) => m@ == "Unexpected response"@,
            (_, Ok(_)) => false,
        },
{
    match response {
        Ok(BrokerResponse::JoinGroup { generation_id, leader_id, member_id }) => {
            let mut members: Vec<GroupMember> = Vec::new();
            if let Some(group) = data.groups.get(group_id) {
                let mut i: usize = 0;
                while i < group.members.len()
                    invariant
                        i <= group.members@.len(),
                        members@.len() == i,
                        forall|j: int|
                            0 <= j < i ==> shown_member(#[trigger] members@[j]) == group.members.deep_view()[j],
                    decreases group.members@.len() - i,
                {
                    let m = &group.members[i];
                    members.push(GroupMember { member_id: m.member_id.dup(), metadata: m.metadata.dup() });
                    i += 1;
                }
            }
            Ok((generation_id, leader_id, member_id, members))
        },
        Ok(BrokerResponse::Error(e)) => Err(e),
        Ok(_) => Err("Unexpected response".to_owned()),
        Err(e) => Err(e),
    }
}

/// The topics by name.
pub fn get_topics(data: &BrokerStateMachineData) -> (r: Vec<String>)
    ensures
        texts_rise(r.deep_view()),
        r.deep_view().to_set() == data@.topics.dom(),
{
    in_order(data.topics.keys())
}

/// The partitions of a topic.
pub fn get_topic_partitions(data: &BrokerStateMachineData, topic: &String) -> (r: Option<Vec<i32>>)
    ensures
        match r {
            Some(p) => data@.topics.dom().contains(topic@) && p@ == up_to(data@.topics[topic@].partitions as int),
            None => !data@.topics.dom().contains(topic@),
        },
{
    match data.topics.get(topic) {
        Some(config) => Some(range(config.partitions)),
        None => None,
    }
}

/// The partition is known.
pub open spec fn knows_partition(s: StateView, topic: Seq<char>, partition: i32) -> bool {
    s.messages.dom().contains(topic) && s.messages[topic].dom().contains(partition)
}

/// How many bytes a reader wants at most; a negative number is no limit.
pub open spec fn wanted_bytes(max_bytes: i32) -> int {
    if max_bytes >= 0 { max_bytes as int } else { usize::MAX + 1 + max_bytes }
}

/// The bytes of messages from an offset on, as long as the limit is not reached, and
/// the offset behind the last message taken.
pub open spec fn gathered(log: Seq<(i64, Seq<u8>)>, offset: i64, limit: int) -> (Seq<u8>, int)
    decreases log.len(),
{
    if log.len() == 0 {
        (Seq::empty(), offset as int)
    } else {
        let before = gathered(log.drop_last(), offset, limit);
        let m = log.last();
        if m.0 >= offset && before.0.len() < limit { (before.0 + m.1, m.0 + 1) } else { before }
    }
}

/// Reads the bytes of messages from an offset on, and the offset behind all of them.
pub fn fetch_messages(data: &BrokerStateMachineData, topic: &String, partition: i32, offset: i64, max_bytes: i32) -> (r: Result<
    (Vec<u8>, i64),
    String,
>)
    requires
        knows_partition(data@, topic@, partition) ==> forall|i: int|
            0 <= i < data@.messages[topic@][partition].len() ==> (#[trigger] data@.messages[topic@][partition][i]).0
                < i64::MAX,
    ensures
        match r {
            Ok(a) => knows_partition(data@, topic@, partition) && {
                let log = data@.messages[topic@][partition];
                let g = gathered(log, offset, wanted_bytes(max_bytes));
                a.0@ == g.0 && a.1 == (if g.1 >= log.len() as i64 { g.1 } else { log.len() as i64 as int })
            },
            Err(e) => !knows_partition(data@, topic@, partition) && e@ == "Topic or partition not found"@,
        },
{
    if let Some(parts) = data.messages.get(topic) {
        if let Some(log) = parts.get(&partition) {
            let limit: u128 = if max_bytes >= 0 {
                max_bytes as u128
            } else {
                (usize::MAX as i128 + 1 + max_bytes as i128) as u128
            };
            let ghost all = log.deep_view();
            let mut bytes: Vec<u8> = Vec::new();
            let mut mark: i64 = offset;
            let mut i: usize = 0;
            assert(all.take(0) =~= Seq::empty());
            while i < log.len()
                invariant
                    i <= log@.len(),
                    all == log.deep_view(),
                    limit == wanted_bytes(max_bytes),
                    forall|i: int| 0 <= i < all.len() ==> (#[trigger] all[i]).0 < i64::MAX,
                    (bytes@, mark as int) == gathered(all.take(i as int), offset, limit as int),
                decreases log@.len() - i,
            {
                proof {
                    assert(all.take(i + 1).drop_last() =~= all.take(i as int));
                    assert(all.take(i + 1).last() == all[i as int]);
                    assert(all[i as int].1 =~= log@[i as int].1@);
                }
                if log[i].0 >= offset && (bytes.len() as u128) < limit {
                    let mut more = log[i].1.dup();
                    assert(more@ =~= all[i as int].1) by {
                        assert(more.deep_view() =~= more@);
                    }
                    bytes.append(&mut more);
                    mark = log[i].0 + 1;
                }
                i += 1;
            }
            assert(all.take(i as int) =~= all);
            let count = #[verifier::truncate] (log.len() as i64);
            return Ok((bytes, if mark >= count { mark } else { count }));
        }
    }
    Err("Topic or partition not found".to_owned())
}

/// The offset that a request by time means: minus two the beginning, anything else the
/// end.
pub fn get_partition_offset(data: &BrokerStateMachineData, topic: &String, partition: i32, time: i64) -> (r: Result<
    Vec<i64>,
    String,
>)
    ensures
        match r {
            Ok(v) => knows_partition(data@, topic@, partition) && v@ == seq![
                if time == -2 { 0 } else { data@.messages[topic@][partition].len() as i64 },
            ],
            Err(e) => !knows_partition(data@, topic@, partition) && e@ == "Topic or partition not found"@,
        },
{
    if let Some(parts) = data.messages.get(topic) {
        if let Some(log) = parts.get(&partition) {
            let mut v: Vec<i64> = Vec::new();
            v.push(if time == -2 { 0 } else { #[verifier::truncate] (log.len() as i64) });
            return Ok(v);
        }
    }
    Err("Topic or partition not found".to_owned())
}

/// The offset that a group has committed; minus one where it has not.
pub fn fetch_offset(data: &BrokerStateMachineData, group: &String, topic: &String, partition: i32) -> (r: (i64, String))
    ensures
        (r.0, r.1@) == (if topic_offsets(data@, group@, topic@).dom().contains(partition) {
            topic_offsets(data@, group@, topic@)[partition]
        } else {
            (-1i64, Seq::<char>::empty())
        }),
{
    if let Some(topics) = data.offsets.get(group) {
        if let Some(parts) = topics.get(topic) {
            if let Some(v) = parts.get(&partition) {
                return (v.0, v.1.dup());
            }
        }
    }
    (-1, String::new())
}

/// A request is taken here exactly where this node leads. Where another node leads that is
/// known, it is named with its address for clients.
pub proof fn only_the_leader_takes_requests(node_id: u64, leader: Option<u64>, nodes: Map<u64, NodeView>)
    ensures
        refusal(node_id, leader, nodes) is None <==> leader == Some(node_id),
        leader matches Some(l) ==> (l != node_id && nodes.dom().contains(l) ==> refusal(node_id, leader, nodes) == Some(
            "Not leader, forward to node "@ + decimal_text(l as int) + " at "@ + nodes[l].api_addr,
        )),
        leader matches Some(l) ==> (l != node_id && !nodes.dom().contains(l) ==> refusal(node_id, leader, nodes) == Some(
            "No leader available"@,
        )),
        leader is None ==> refusal(node_id, leader, nodes) == Some("No leader available"@),
{
}

/// An address is a host, a colon and a port, and reads back as those; one without a colon
/// has the default port.
pub proof fn host_and_port_read_back(host: Seq<char>, port: i32)
    requires
        !host.contains(':'),
    ensures
        first_host_and_port(host + seq![':'] + decimal_text(port as int)) == (host, port as int),
        first_host_and_port(host) == (host, 9092int),
{
    let tail = decimal_text(port as int);
    padded_has_no_colon(port as int, 0);
    padded_reads_back(port as int, 0);
    cut_joined(host, tail, 3, ':');
    reveal_with_fuel(cut, 3);
}

/// The bytes of the messages from one place up to another, one after the other.
pub open spec fn bytes_between(log: Seq<(i64, Seq<u8>)>, a: int, b: int) -> Seq<u8>
    decreases b,
{
    if b <= a || b <= 0 { Seq::empty() } else { bytes_between(log, a, b - 1) + log[b - 1].1 }
}

proof fn lemma_bytes_prefix(log: Seq<(i64, Seq<u8>)>, a: int, b: int)
    requires
        0 <= b < log.len(),
    ensures
        bytes_between(log.drop_last(), a, b) == bytes_between(log, a, b),
    decreases b,
{
    if b > a && b > 0 {
        lemma_bytes_prefix(log, a, b - 1);
    }
}

proof fn lemma_bytes_upto(log: Seq<(i64, Seq<u8>)>, a: int, b: int)
    requires
        0 <= b < log.len(),
    ensures
        bytes_between(log.drop_last(), a, b) == bytes_between(log, a, b),
{
    lemma_bytes_prefix(log, a, b);
}

/// What is read of a partition has no gap: the bytes of the messages from the first that
/// does not lie before the offset, one after the other. It ends at the end of the log, or
/// with the message that reaches the limit. The mark lies behind the last message read,
/// or where reading was to start.
pub proof fn bytes_are_gathered_without_gap(log: Seq<(i64, Seq<u8>)>, offset: i64, limit: int, a: int) -> (n: int)
    requires
        0 <= a <= log.len(),
        forall|i: int| 0 <= i < a ==> (#[trigger] log[i]).0 < offset,
        forall|i: int| a <= i < log.len() ==> (#[trigger] log[i]).0 >= offset,
    ensures
        a <= n <= log.len(),
        gathered(log, offset, limit).0 == bytes_between(log, a, n),
        n == a ==> gathered(log, offset, limit).1 == offset,
        n > a ==> gathered(log, offset, limit).1 == log[n - 1].0 + 1,
        n < log.len() ==> gathered(log, offset, limit).0.len() >= limit,
        n > a ==> bytes_between(log, a, n - 1).len() < limit,
    decreases log.len(),
{
    if log.len() == 0 {
        0
    } else {
        let front = log.drop_last();
        let last = log.len() - 1;
        assert(log.last() == log[last]);
        assert(forall|i: int| 0 <= i < last ==> #[trigger] front[i] == log[i]);
        if a == log.len() {
            let n = bytes_are_gathered_without_gap(front, offset, limit, a - 1);
            assert(n == a - 1);
            a
        } else {
            let n = bytes_are_gathered_without_gap(front, offset, limit, a);
            lemma_bytes_upto(log, a, n);
            if n > a {
                lemma_bytes_upto(log, a, n - 1);
            }
            if gathered(front, offset, limit).0.len() < limit {
                assert(n == last);
                n + 1
            } else {
                n
            }
        }
    }
}

/// How many bytes are wanted: as many as were asked for, and practically any number where
/// that was negative.
pub proof fn wanted_bytes_are_those_asked_for(max_bytes: i32)
    ensures
        max_bytes >= 0 ==> wanted_bytes(max_bytes) == max_bytes,
        max_bytes < 0 ==> wanted_bytes(max_bytes) > i32::MAX,
{
}

} // verus!
