//! A broker on its own whose state survives a restart: every change is applied in
//! memory and handed out as writes to the store.
use vstd::prelude::*;

use crate::broker::config::{RetentionConfig, DEFAULT_REBALANCE_TIMEOUT_MS};
use crate::broker::consumer_group_coordinator::{heartbeat_answer, is_heartbeat_answer, is_sync_answer, sync_answer};
use crate::broker::error::{BrokerError, BrokerResult, ErrorView};
use crate::broker::liveness::{is_liveness, liveness_commands};
use crate::broker::raft::{BrokerCommand, BrokerData, BrokerDataView};
use crate::broker::reading::{end_offset, is_fetched, is_offset_at};
use crate::broker::recovery::{load_broker_data_from_sled, loaded};
use crate::broker::groups::{joined, left};
use crate::broker::replicated;
use crate::broker::replicated::{are_truncations, committed_offset, logs_end_in_range, Truncation};
use crate::broker::state_machine;
use crate::broker::state_machine::{
    answer, appending_touches_one_partition, applied, apply_raft_command, command_fits, generation_counts, log_end, log_of, next_offset, room_for,
    watermark_of, writes_of,
};
use crate::broker::storage::{is_join_answer, join_answer, read_topic, subscribed_topic, JoinAnswer, StoredMessage};
use crate::broker::store::{StoreValue, StoreWrite};
use crate::broker::topics::{bad_topic_name, is_topic_name, validate_topic_name};
use crate::maps::{Dup, VecMap};
use crate::seqs::up_to;

verus! {

/// A broker whose state is kept in a store.
pub struct SledStorage {
    data: BrokerData,
    heard: VecMap<(String, String), i64>,
    broker_id: i32,
    broker_host: String,
    broker_port: i32,
}

/// What the broker holds.
#[verifier::ext_equal]
pub struct SledView {
    pub data: BrokerDataView,
    /// When every member was last heard of; lost in a restart.
    pub heard: Map<(Seq<char>, Seq<char>), i64>,
    pub address: (i32, Seq<char>, i32),
}

/// The broker after a command.
pub open spec fn storage_applied(s: SledView, cmd: BrokerCommand, now: i64) -> SledView {
    SledView { data: applied(s.data, cmd, now), ..s }
}

/// The broker after a member was heard of.
pub open spec fn member_heard(s: SledView, group: Seq<char>, member: Seq<char>, now: i64) -> SledView {
    SledView { heard: s.heard.insert((group, member), now), ..s }
}

/// The command that lets a member join.
pub open spec fn is_join_command(
    cmd: BrokerCommand,
    group: Seq<char>,
    member: Seq<char>,
    protocol_metadata: Seq<u8>,
    timeout: i64,
) -> bool {
    cmd matches BrokerCommand::GroupJoin { group_id, member_id, topic, metadata, session_timeout_ms } && group_id@ == group
        && member_id@ == member && topic@ == subscribed_topic(protocol_metadata) && metadata@ == protocol_metadata
        && session_timeout_ms == timeout
}

/// The command that lets a member join.
pub fn join_command(group_id: &String, member_id: &String, protocol_metadata: &[u8], session_timeout_ms: i64) -> (cmd:
    BrokerCommand)
    ensures
        is_join_command(cmd, group_id@, member_id@, protocol_metadata@, session_timeout_ms),
{
    BrokerCommand::GroupJoin {
        group_id: group_id.dup(),
        member_id: member_id.dup(),
        topic: read_topic(protocol_metadata),
        metadata: vstd::slice::slice_to_vec(protocol_metadata),
        session_timeout_ms,
    }
}

impl SledStorage {
    /// What the broker holds.
    pub closed spec fn view(&self) -> SledView {
        SledView {
            data: self.data@,
            heard: self.heard@,
            address: (self.broker_id, self.broker_host@, self.broker_port),
        }
    }

    /// The broker with the state that the entries of the store make up.
    pub fn open(broker_id: i32, broker_host: String, broker_port: i32, entries: Vec<(Vec<u8>, StoreValue)>) -> (r: Self)
        ensures
            r@ == (SledView {
                data: loaded(entries.deep_view()),
                heard: Map::empty(),
                address: (broker_id, broker_host@, broker_port),
            }),
    {
        let data = load_broker_data_from_sled(entries);
        SledStorage { data, heard: VecMap::new(), broker_id, broker_host, broker_port }
    }

    /// Applies a command. Returns what it answers and what is to be written.
    pub fn apply(&mut self, cmd: BrokerCommand, now: i64) -> (r: (i64, Vec<StoreWrite>))
        requires
            command_fits(old(self)@.data, cmd, now),
        ensures
            final(self)@ == storage_applied(old(self)@, cmd, now),
            r.0 == answer(old(self)@.data, cmd),
            r.1.deep_view() == writes_of(old(self)@.data, cmd, now),
    {
        apply_raft_command(&mut self.data, cmd, now)
    }

    /// Whether the numbers that a command may count up have a successor.
    pub fn has_room(&self, cmd: &BrokerCommand) -> (b: bool)
        ensures
            b == room_for(self@.data, *cmd),
    {
        state_machine::has_room(&self.data, cmd)
    }

    /// Whether another message of a partition gets an offset that has a successor.
    pub fn partition_has_room(&self, topic: &String, partition: i32) -> (b: bool)
        ensures
            b == (next_offset(self@.data, topic@, partition) < i64::MAX),
    {
        state_machine::partition_has_room(&self.data, topic, partition)
    }

    /// Whether the generation of a group has a successor.
    pub fn group_has_room(&self, group_id: &String) -> (b: bool)
        ensures
            b == generation_counts(self@.data, group_id@),
    {
        state_machine::group_has_room(&self.data, group_id)
    }

    /// Whether the offset behind a log fits its type.
    pub fn end_fits(&self, topic: &String, partition: i32) -> (b: bool)
        ensures
            b == (log_end(log_of(self@.data, topic@, partition)) <= i64::MAX),
            b ==> end_offset(log_of(self@.data, topic@, partition), watermark_of(self@.data, topic@, partition))
                <= i64::MAX,
    {
        replicated::end_fits(&self.data, topic, partition)
    }

    /// Whether the offset behind every log fits its type.
    pub fn logs_fit(&self) -> (b: bool)
        ensures
            b == logs_end_in_range(self@.data),
    {
        replicated::logs_fit(&self.data)
    }

    /// What is to be done about silent members and overdue rebalances.
    pub fn liveness(&self, now: i64) -> (r: Vec<BrokerCommand>)
        ensures
            exists|order: Seq<Seq<char>>| #[trigger]
                is_walk(order, self@.data) && is_liveness(
                    self@.data.groups,
                    order,
                    self@.heard,
                    now,
                    DEFAULT_REBALANCE_TIMEOUT_MS,
                    r@,
                ),
    {
        let _ = self.data.groups.len();
        let r = liveness_commands(&self.data.groups, &self.heard, now, DEFAULT_REBALANCE_TIMEOUT_MS);
        assert(is_walk(self.data.groups.order(), self@.data));
        r
    }

    /// The partitions that are to be truncated, and where.
    pub fn retention(&self, retention: &RetentionConfig, now: i64) -> (r: Vec<Truncation>)
        requires
            logs_end_in_range(self@.data),
        ensures
            are_truncations(self@.data, *retention, now, r.deep_view()),
    {
        replicated::truncations(&self.data, retention, now)
    }

    /// Creates a topic. A bad name and a topic without partitions are refused.
    pub fn create_topic(&mut self, topic: &String, num_partitions: i32, now: i64) -> (r: BrokerResult<Vec<StoreWrite>>)
        ensures
            match r {
                Ok(w) => is_topic_name(topic@) && num_partitions > 0 && exists|cmd: BrokerCommand| #[trigger]
                    is_create(cmd, topic@, num_partitions) && final(self)@ == storage_applied(old(self)@, cmd, now)
                        && w.deep_view() == writes_of(old(self)@.data, cmd, now),
                Err(e) => final(self)@ == old(self)@ && e.deep_view() == (if !is_topic_name(topic@) {
                    bad_topic_name()
                } else {
                    ErrorView::Validation("num_partitions must be > 0"@)
                }) && !(is_topic_name(topic@) && num_partitions > 0),
            },
    {
        match validate_topic_name(topic) {
            Err(e) => {
                return Err(e);
            },
            Ok(()) => {},
        }
        if num_partitions <= 0 {
            return Err(BrokerError::Validation("num_partitions must be > 0".to_owned()));
        }
        let cmd = BrokerCommand::CreateTopic { topic: topic.dup(), num_partitions };
        assert(is_create(cmd, topic@, num_partitions));
        let (_, writes) = self.apply(cmd, now);
        Ok(writes)
    }

    /// The topics.
    pub fn get_topics(&self) -> (r: Vec<String>)
        ensures
            r.deep_view().no_duplicates(),
            r.deep_view().to_set() == self@.data.topics.dom(),
    {
        replicated::get_topics(&self.data)
    }

    /// The partitions of a topic.
    pub fn get_topic_partitions(&self, topic: &String) -> (r: Option<Vec<i32>>)
        ensures
            match r {
                Some(p) => self@.data.topics.dom().contains(topic@) && p@ == up_to(self@.data.topics[topic@] as int),
                None => !self@.data.topics.dom().contains(topic@),
            },
    {
        replicated::get_topic_partitions(&self.data, topic)
    }

    /// Appends a message.
    pub fn produce_message(
        &mut self,
        topic: &String,
        partition: i32,
        key: Option<Vec<u8>>,
        value: Vec<u8>,
        now: i64,
    ) -> (r: BrokerResult<(i64, Vec<StoreWrite>)>)
        requires
            next_offset(old(self)@.data, topic@, partition) < i64::MAX,
        ensures
            match r {
                Ok(a) => is_topic_name(topic@) && a.0 == next_offset(old(self)@.data, topic@, partition) && exists|
                    cmd: BrokerCommand,
                | #[trigger]
                    is_produce(cmd, topic@, partition, key.deep_view(), value@) && final(self)@ == storage_applied(
                        old(self)@,
                        cmd,
                        now,
                    ) && a.1.deep_view() == writes_of(old(self)@.data, cmd, now),
                Err(e) => !is_topic_name(topic@) && e.deep_view() == bad_topic_name() && final(self)@ == old(self)@,
            },
    {
        match validate_topic_name(topic) {
            Err(e) => {
                return Err(e);
            },
            Ok(()) => {},
        }
        let ghost k = key.deep_view();
        let cmd = BrokerCommand::Produce { topic: topic.dup(), partition, key, value };
        assert(is_produce(cmd, topic@, partition, k, value@));
        Ok(self.apply(cmd, now))
    }

    /// Reads the messages from an offset on, as far as they fit.
    pub fn fetch_messages(&self, topic: &String, partition: i32, offset: i64, max_bytes: i32) -> (r: BrokerResult<
        Vec<StoredMessage>,
    >)
        ensures
            r matches Ok(m) && is_fetched(log_of(self@.data, topic@, partition), offset, max_bytes, m.deep_view()),
    {
        Ok(replicated::fetch_messages(&self.data, topic, partition, offset, max_bytes))
    }

    /// The offset that a request by time means.
    pub fn get_partition_offset(&self, topic: &String, partition: i32, time: i64) -> (r: BrokerResult<Vec<i64>>)
        requires
            end_offset(log_of(self@.data, topic@, partition), watermark_of(self@.data, topic@, partition)) <= i64::MAX,
        ensures
            r matches Ok(v) && v@.len() == 1 && is_offset_at(
                log_of(self@.data, topic@, partition),
                watermark_of(self@.data, topic@, partition),
                time,
                v@[0] as int,
            ),
    {
        Ok(replicated::get_partition_offset(&self.data, topic, partition, time))
    }

    /// A group commits an offset. Metadata is not kept.
    pub fn commit_offset(&mut self, group: &String, topic: &String, partition: i32, offset: i64, now: i64) -> (r: BrokerResult<
        Vec<StoreWrite>,
    >)
        ensures
            r matches Ok(w) && exists|cmd: BrokerCommand| #[trigger]
                is_commit(cmd, group@, topic@, partition, offset) && final(self)@ == storage_applied(
                    old(self)@,
                    cmd,
                    now,
                ) && w.deep_view() == writes_of(old(self)@.data, cmd, now),
    {
        let cmd = BrokerCommand::CommitOffset { group_id: group.dup(), topic: topic.dup(), partition, offset };
        assert(is_commit(cmd, group@, topic@, partition, offset));
        let (_, writes) = self.apply(cmd, now);
        Ok(writes)
    }

    /// The offset that a group has committed; minus one where it has not.
    pub fn fetch_offset(&self, group: &String, topic: &String, partition: i32) -> (r: BrokerResult<(i64, String)>)
        ensures
            r matches Ok(v) && v.0 == committed_offset(self@.data, group@, topic@, partition) && v.1@
                == Seq::<char>::empty(),
    {
        Ok(replicated::fetch_offset(&self.data, group, topic, partition))
    }

    /// Where the broker is found.
    pub fn get_coordinator_info(&self) -> (r: (i32, String, i32))
        ensures
            (r.0, r.1@, r.2) == self@.address,
    {
        (self.broker_id, self.broker_host.dup(), self.broker_port)
    }

    /// A member joins a group, which comes into being where it is unknown.
    pub fn join_group(
        &mut self,
        group_id: &String,
        member_id: &String,
        protocol_metadata: &[u8],
        session_timeout_ms: i64,
        now: i64,
    ) -> (r: BrokerResult<(JoinAnswer, Vec<StoreWrite>)>)
        requires
            forall|cmd: BrokerCommand| #[trigger]
                is_join_command(cmd, group_id@, member_id@, protocol_metadata@, session_timeout_ms) ==> command_fits(
                    old(self)@.data,
                    cmd,
                    now,
                ),
        ensures
            r matches Ok(a) && exists|cmd: BrokerCommand| #[trigger]
                is_join_command(cmd, group_id@, member_id@, protocol_metadata@, session_timeout_ms) && final(self)@
                    == member_heard(storage_applied(old(self)@, cmd, now), group_id@, member_id@, now)
                    && a.1.deep_view() == writes_of(old(self)@.data, cmd, now) && is_join_answer(
                    final(self)@.data.groups[group_id@],
                    member_id@,
                    a.0,
                ),
    {
        self.heard.insert((group_id.dup(), member_id.dup()), now);
        let cmd = join_command(group_id, member_id, protocol_metadata, session_timeout_ms);
        let (_, writes) = self.apply(cmd, now);
        match self.data.groups.get(group_id) {
            Some(group) => Ok((join_answer(group, member_id), writes)),
            None => {
                assert(false);
                Err(BrokerError::NotFound("Group not found after join".to_owned()))
            },
        }
    }

    /// The partitions of a member, once no rebalance is going on.
    pub fn sync_group(&self, group_id: &String, member_id: &String) -> (r: BrokerResult<Vec<u8>>)
        ensures
            is_sync_answer(self@.data.groups, group_id@, member_id@, r),
    {
        sync_answer(&self.data.groups, group_id, member_id)
    }

    /// A member reports that it is alive. Even one that nobody knows is noted.
    pub fn heartbeat(&mut self, group_id: &String, member_id: &String, now: i64) -> (r: BrokerResult<()>)
        ensures
            is_heartbeat_answer(old(self)@.data.groups, group_id@, member_id@, r),
            final(self)@ == member_heard(old(self)@, group_id@, member_id@, now),
    {
        self.heard.insert((group_id.dup(), member_id.dup()), now);
        heartbeat_answer(&self.data.groups, group_id, member_id)
    }

    /// A member leaves a group.
    pub fn leave_group(&mut self, group_id: &String, member_id: &String, now: i64) -> (r: BrokerResult<Vec<StoreWrite>>)
        requires
            forall|cmd: BrokerCommand| #[trigger]
                is_leave(cmd, group_id@, member_id@) ==> command_fits(old(self)@.data, cmd, now),
        ensures
            r matches Ok(w) && exists|cmd: BrokerCommand| #[trigger]
                is_leave(cmd, group_id@, member_id@) && final(self)@ == (SledView {
                    heard: old(self)@.heard.remove((group_id@, member_id@)),
                    ..storage_applied(old(self)@, cmd, now)
                }) && w.deep_view() == writes_of(old(self)@.data, cmd, now),
    {
        let _ = self.heard.remove(&(group_id.dup(), member_id.dup()));
        let cmd = BrokerCommand::GroupLeave { group_id: group_id.dup(), member_id: member_id.dup() };
        assert(is_leave(cmd, group_id@, member_id@));
        let (_, writes) = self.apply(cmd, now);
        Ok(writes)
    }
}

/// The groups in some order, each once.
pub open spec fn is_walk(order: Seq<Seq<char>>, d: BrokerDataView) -> bool {
    order.no_duplicates() && order.to_set() == d.groups.dom()
}

/// The command that creates a topic.
pub open spec fn is_create(cmd: BrokerCommand, topic: Seq<char>, n: i32) -> bool {
    cmd matches BrokerCommand::CreateTopic { topic: t, num_partitions } && t@ == topic && num_partitions == n
}

/// The command that appends a message.
pub open spec fn is_produce(
    cmd: BrokerCommand,
    topic: Seq<char>,
    partition: i32,
    key: Option<Seq<u8>>,
    value: Seq<u8>,
) -> bool {
    cmd matches BrokerCommand::Produce { topic: t, partition: p, key: k, value: v } && t@ == topic && p == partition
        && k.deep_view() == key && v@ == value
}

/// The command that commits an offset.
pub open spec fn is_commit(cmd: BrokerCommand, group: Seq<char>, topic: Seq<char>, partition: i32, offset: i64) -> bool {
    cmd matches BrokerCommand::CommitOffset { group_id, topic: t, partition: p, offset: o } && group_id@ == group && t@
        == topic && p == partition && o == offset
}

/// The command that lets a member leave.
pub open spec fn is_leave(cmd: BrokerCommand, group: Seq<char>, member: Seq<char>) -> bool {
    cmd matches BrokerCommand::GroupLeave { group_id, member_id } && group_id@ == group && member_id@ == member
}

/// What is asked of the storage is what becomes of its state: a topic has the partitions
/// that were asked for, a message stands last with its key and value under the offset
/// that is answered, a group has committed the offset, and who joins or leaves has done
/// so in that group.
pub proof fn commands_do_what_was_asked(
    d: BrokerDataView,
    cmd: BrokerCommand,
    now: i64,
    group: Seq<char>,
    member: Seq<char>,
    topic: Seq<char>,
    partition: i32,
    n: i32,
    offset: i64,
    key: Option<Seq<u8>>,
    value: Seq<u8>,
    metadata: Seq<u8>,
    timeout: i64,
)
    requires
        command_fits(d, cmd, now),
    ensures
        ({
            let e = applied(d, cmd, now);
            &&& is_create(cmd, topic, n) ==> e.topics.dom().contains(topic) && e.topics[topic] == n
            &&& is_produce(cmd, topic, partition, key, value) ==> {
                let log = e.messages[(topic, partition)];
                &&& e.messages.dom().contains((topic, partition))
                &&& log.len() > 0
                &&& log.last().key == key
                &&& log.last().value == value
                &&& log.last().timestamp_ms == now
                &&& log.last().offset == answer(d, cmd)
            }
            &&& is_commit(cmd, group, topic, partition, offset) ==> committed_offset(e, group, topic, partition) == offset
            &&& is_leave(cmd, group, member) && d.groups.dom().contains(group) ==> e.groups[group] == left(
                d.groups[group],
                member,
                now,
            )
            &&& is_join_command(cmd, group, member, metadata, timeout) && d.groups.dom().contains(group) ==> e.groups[group]
                == joined(d.groups[group], member, Some(subscribed_topic(metadata)), metadata, d.topics, now)
            &&& is_join_command(cmd, group, member, metadata, timeout) && !d.groups.dom().contains(group)
                ==> e.groups[group].leader_id == member && e.groups[group].session_timeout_ms == timeout
                && e.groups[group].members.len() == 1 && e.groups[group].members[0].member_id == member
                && e.groups[group].members[0].metadata == metadata
        }),
{
    if cmd is Produce {
        appending_touches_one_partition(d, cmd, now, (topic, partition));
    }
}

/// A command changes the state as commands do, and neither who was heard of nor where the
/// broker is found. Hearing of a member changes nothing else.
pub proof fn storage_keeps_the_rest(
    s: SledView,
    cmd: BrokerCommand,
    now: i64,
    group: Seq<char>,
    member: Seq<char>,
    other: (Seq<char>, Seq<char>),
)
    ensures
        storage_applied(s, cmd, now).data == applied(s.data, cmd, now),
        storage_applied(s, cmd, now).heard == s.heard,
        storage_applied(s, cmd, now).address == s.address,
        member_heard(s, group, member, now).data == s.data,
        member_heard(s, group, member, now).address == s.address,
        member_heard(s, group, member, now).heard.dom().contains((group, member)),
        member_heard(s, group, member, now).heard[(group, member)] == now,
        other != (group, member) ==> (member_heard(s, group, member, now).heard.dom().contains(other)
            <==> s.heard.dom().contains(other)),
        other != (group, member) && s.heard.dom().contains(other) ==> member_heard(s, group, member, now).heard[other]
            == s.heard[other],
{
}

/// A walk through the groups meets each of them, and each once.
pub proof fn walk_meets_every_group(order: Seq<Seq<char>>, d: BrokerDataView, id: Seq<char>)
    requires
        is_walk(order, d),
    ensures
        order.contains(id) <==> d.groups.dom().contains(id),
        forall|i: int, j: int| 0 <= i < j < order.len() ==> order[i] != order[j],
{
    assert(order.to_set().contains(id) <==> d.groups.dom().contains(id));
}

} // verus!
