//! Commands to a broker from within its own program.
use vstd::prelude::*;
use vstd::utf8::encode_utf8;

use crate::broker::error::{error_of_message, BrokerError};
use crate::broker::service::{join_shown, shown, BrokerStorage, JoinView};
use crate::broker::storage::{messages_of, GroupMember, InMemoryStorage};

verus! {

/// A command to a broker.
#[derive(Debug)]
pub enum BrokerCommand {
    CreateTopic { topic: String, num_partitions: i32 },
    Produce { topic: String, partition: i32, key: Option<Vec<u8>>, value: Vec<u8> },
    CommitOffset { group_id: String, topic: String, partition: i32, offset: i64, metadata: String },
    GroupJoin { group_id: String, member_id: String, topic: String, session_timeout_ms: i64 },
    GroupLeave { group_id: String, member_id: String },
}

/// What became of a command.
#[derive(Debug)]
pub enum CommandOutcome {
    /// It was carried out.
    Ack,
    /// The message has this offset.
    Offset(i64),
    /// The member has joined.
    GroupJoin { generation_id: i32, leader_id: String, member_id: String, members: Vec<GroupMember> },
}

/// Carries out commands. The relation is between what there was before, the command, the
/// outcome, and what there is after; as it stands here, it says nothing.
pub trait LeaderAwareCommandGateway: Sized {
    /// The generation of a group can still be counted when the command changes it.
    open spec fn can_execute(&self, command: BrokerCommand, now: i64) -> bool {
        true
    }

    open spec fn executes(
        before: Self,
        command: BrokerCommand,
        now: i64,
        r: Result<CommandOutcome, BrokerError>,
        after: Self,
    ) -> bool {
        true
    }

    /// Carries out a command.
    fn execute(&mut self, command: BrokerCommand, now: i64) -> (r: Result<CommandOutcome, BrokerError>)
        requires
            old(self).can_execute(command, now),
        ensures
            Self::executes(*old(self), command, now, r, *final(self)),
    ;
}

/// Carries out commands on a storage.
pub struct StorageCommandGateway<S: BrokerStorage> {
    pub storage: S,
}

impl<S: BrokerStorage> StorageCommandGateway<S> {
    /// Commands go to this storage.
    pub fn new(storage: S) -> (r: Self)
        ensures
            r.storage == storage,
    {
        StorageCommandGateway { storage }
    }
}

/// The error is that of the storage.
pub open spec fn is_refused(r: Result<CommandOutcome, BrokerError>, e: Seq<char>) -> bool {
    r matches Err(b) && b.deep_view() == error_of_message(e)
}

/// A command that says no more than whether it worked.
pub open spec fn is_acked(r: Result<CommandOutcome, BrokerError>, a: Result<(), Seq<char>>) -> bool {
    match a {
        Ok(_) => r == Ok::<CommandOutcome, BrokerError>(CommandOutcome::Ack),
        Err(e) => is_refused(r, e),
    }
}

/// A command that appends a message.
pub open spec fn is_appended(r: Result<CommandOutcome, BrokerError>, a: Result<i64, Seq<char>>) -> bool {
    match a {
        Ok(o) => r == Ok::<CommandOutcome, BrokerError>(CommandOutcome::Offset(o)),
        Err(e) => is_refused(r, e),
    }
}

/// A command by which a member joins.
pub open spec fn has_joined(r: Result<CommandOutcome, BrokerError>, a: Result<JoinView, Seq<char>>) -> bool {
    match a {
        Ok(j) => r matches Ok(CommandOutcome::GroupJoin { generation_id, leader_id, member_id, members }) && (
        generation_id, leader_id@, member_id@, members.deep_view()) == j,
        Err(e) => is_refused(r, e),
    }
}

impl<S: BrokerStorage> LeaderAwareCommandGateway for StorageCommandGateway<S> {
    open spec fn can_execute(&self, command: BrokerCommand, now: i64) -> bool {
        match command {
            BrokerCommand::GroupJoin { group_id, member_id, topic, session_timeout_ms } => self.storage.can_join(
                group_id@,
                member_id@,
                encode_utf8(topic@),
                session_timeout_ms,
                now,
            ),
            BrokerCommand::GroupLeave { group_id, member_id } => self.storage.can_leave(group_id@, member_id@, now),
            _ => true,
        }
    }

    open spec fn executes(
        before: Self,
        command: BrokerCommand,
        now: i64,
        r: Result<CommandOutcome, BrokerError>,
        after: Self,
    ) -> bool {
        match command {
            BrokerCommand::CreateTopic { topic, num_partitions } => exists|a: Result<(), Seq<char>>| #[trigger]
                S::creates(before.storage, topic@, num_partitions, a, after.storage) && is_acked(r, a),
            BrokerCommand::Produce { topic, partition, key, value } => exists|a: Result<i64, Seq<char>>| #[trigger]
                S::produces(
                    before.storage,
                    topic@,
                    partition,
                    key.deep_view(),
                    value.deep_view(),
                    now,
                    a,
                    after.storage,
                ) && is_appended(r, a),
            BrokerCommand::CommitOffset { group_id, topic, partition, offset, metadata } => exists|
                a: Result<(), Seq<char>>,
            | #[trigger]
                S::commits(before.storage, group_id@, topic@, partition, offset, metadata@, a, after.storage)
                    && is_acked(r, a),
            BrokerCommand::GroupJoin { group_id, member_id, topic, session_timeout_ms } => exists|
                a: Result<JoinView, Seq<char>>,
            | #[trigger]
                S::joins(
                    before.storage,
                    group_id@,
                    member_id@,
                    "consumer"@,
                    encode_utf8(topic@),
                    session_timeout_ms,
                    now,
                    a,
                    after.storage,
                ) && has_joined(r, a),
            BrokerCommand::GroupLeave { group_id, member_id } => exists|a: Result<(), Seq<char>>| #[trigger]
                S::leaves(before.storage, group_id@, member_id@, now, a, after.storage) && is_acked(r, a),
        }
    }

    fn execute(&mut self, command: BrokerCommand, now: i64) -> (r: Result<CommandOutcome, BrokerError>) {
        let ghost start = self.storage;
        match command {
            BrokerCommand::CreateTopic { topic, num_partitions } => {
                let a = self.storage.create_topic(&topic, num_partitions);
                let ghost given = shown(a);
                assert(S::creates(start, topic@, num_partitions, given, self.storage));
                let r = acked(a);
                assert(is_acked(r, given));
                r
            },
            BrokerCommand::Produce { topic, partition, key, value } => {
                let ghost k = key.deep_view();
                let ghost v = value.deep_view();
                let a = self.storage.produce_message(&topic, partition, key, value, now);
                let ghost given = shown(a);
                assert(S::produces(start, topic@, partition, k, v, now, given, self.storage));
                let r = match a {
                    Ok(offset) => Ok(CommandOutcome::Offset(offset)),
                    Err(e) => Err(BrokerError::from_message(e)),
                };
                assert(is_appended(r, given));
                r
            },
            BrokerCommand::CommitOffset { group_id, topic, partition, offset, metadata } => {
                let ghost remark = metadata@;
                let a = self.storage.commit_offset(&group_id, &topic, partition, offset, metadata);
                let ghost given = shown(a);
                assert(S::commits(start, group_id@, topic@, partition, offset, remark, given, self.storage));
                let r = acked(a);
                assert(is_acked(r, given));
                r
            },
            BrokerCommand::GroupJoin { group_id, member_id, topic, session_timeout_ms } => {
                let protocol_type = "consumer".to_owned();
                let metadata = vstd::slice::slice_to_vec(topic.as_str().as_bytes());
                let a = self.storage.join_group(
                    &group_id,
                    &member_id,
                    &protocol_type,
                    &metadata,
                    session_timeout_ms,
                    now,
                );
                let ghost given = join_shown(a);
                assert(S::joins(
                    start,
                    group_id@,
                    member_id@,
                    "consumer"@,
                    encode_utf8(topic@),
                    session_timeout_ms,
                    now,
                    given,
                    self.storage,
                ));
                let r = match a {
                    Ok(j) => {
                        let (generation_id, leader_id, member_id, members) = j;
                        Ok(CommandOutcome::GroupJoin { generation_id, leader_id, member_id, members })
                    },
                    Err(e) => Err(BrokerError::from_message(e)),
                };
                assert(has_joined(r, given));
                r
            },
            BrokerCommand::GroupLeave { group_id, member_id } => {
                let a = self.storage.leave_group(&group_id, &member_id, now);
                let ghost given = shown(a);
                assert(S::leaves(start, group_id@, member_id@, now, given, self.storage));
                let r = acked(a);
                assert(is_acked(r, given));
                r
            },
        }
    }
}

fn acked(a: Result<(), String>) -> (r: Result<CommandOutcome, BrokerError>)
    ensures
        is_acked(r, shown(a)),
{
    match a {
        Ok(_) => Ok(CommandOutcome::Ack),
        Err(e) => Err(BrokerError::from_message(e)),
    }
}

/// A command succeeds exactly where the storage carried it out: it is acknowledged, or
/// answered with the offset, or with the group that was joined. A refusal of the storage
/// is passed on.
pub proof fn outcomes_are_those_of_the_storage(
    r: Result<CommandOutcome, BrokerError>,
    plain: Result<(), Seq<char>>,
    offset: Result<i64, Seq<char>>,
    joined: Result<JoinView, Seq<char>>,
)
    ensures
        is_acked(r, plain) ==> (r is Ok <==> plain is Ok) && (r matches Ok(o) ==> o is Ack),
        is_acked(r, plain) && plain is Err ==> r->Err_0.deep_view() == error_of_message(plain->Err_0),
        is_appended(r, offset) ==> (r is Ok <==> offset is Ok),
        is_appended(r, offset) && offset is Ok ==> r->Ok_0 == CommandOutcome::Offset(offset->Ok_0),
        is_appended(r, offset) && offset is Err ==> r->Err_0.deep_view() == error_of_message(offset->Err_0),
        has_joined(r, joined) ==> (r is Ok <==> joined is Ok),
        has_joined(r, joined) && joined is Ok ==> (r->Ok_0 matches CommandOutcome::GroupJoin {
            generation_id,
            leader_id,
            member_id,
            members,
        } && generation_id == (joined->Ok_0).0 && leader_id@ == (joined->Ok_0).1 && member_id@ == (joined->Ok_0).2
            && members.deep_view() == (joined->Ok_0).3),
        has_joined(r, joined) && joined is Err ==> r->Err_0.deep_view() == error_of_message(joined->Err_0),
{
}

/// What commands do where the storage is in memory. A topic is created where it has
/// partitions. A message is appended behind the others of its partition, and the answer
/// is how many those are. A committed offset is kept as it was given. Who joins stands in
/// the group and is noted as heard of now, and only a known group can be left.
pub proof fn commands_reach_the_storage(
    before: StorageCommandGateway<InMemoryStorage>,
    command: BrokerCommand,
    now: i64,
    r: Result<CommandOutcome, BrokerError>,
    after: StorageCommandGateway<InMemoryStorage>,
)
    requires
        StorageCommandGateway::<InMemoryStorage>::executes(before, command, now, r, after),
    ensures
        ({
            let a = before.storage@;
            let b = after.storage@;
            match command {
                BrokerCommand::CreateTopic { topic, num_partitions } => {
                    &&& r is Ok <==> num_partitions > 0
                    &&& r is Ok ==> r->Ok_0 is Ack && b.topics == a.topics.insert(topic@, num_partitions)
                    &&& r is Err ==> b == a
                },
                BrokerCommand::Produce { topic, partition, key, value } => {
                    let log = messages_of(a, topic@, partition);
                    let longer = messages_of(b, topic@, partition);
                    &&& r == Ok::<CommandOutcome, BrokerError>(CommandOutcome::Offset(log.len() as i64))
                    &&& longer.len() == log.len() + 1 && longer.drop_last() == log
                    &&& longer.last().key == key.deep_view() && longer.last().value == value.deep_view()
                    &&& longer.last().timestamp_ms == now && longer.last().offset == log.len() as i64
                    &&& b.offsets == a.offsets && b.groups == a.groups
                },
                BrokerCommand::CommitOffset { group_id, topic, partition, offset, metadata } => {
                    &&& r == Ok::<CommandOutcome, BrokerError>(CommandOutcome::Ack)
                    &&& b.offsets == a.offsets.insert((group_id@, topic@, partition), (offset, metadata@))
                    &&& b.messages == a.messages && b.groups == a.groups
                },
                BrokerCommand::GroupJoin { group_id, member_id, .. } => {
                    &&& r matches Ok(CommandOutcome::GroupJoin { generation_id, leader_id, member_id: m, members })
                        && b.groups.dom().contains(group_id@) && generation_id == b.groups[group_id@].generation_id
                        && leader_id@ == b.groups[group_id@].leader_id && m@ == member_id@ && members.deep_view()
                        == b.groups[group_id@].members
                    &&& b.heard == a.heard.insert((group_id@, member_id@), now)
                    &&& b.messages == a.messages && b.offsets == a.offsets
                },
                BrokerCommand::GroupLeave { group_id, member_id } => {
                    &&& r is Ok <==> a.groups.dom().contains(group_id@)
                    &&& r is Ok ==> r->Ok_0 is Ack && b.heard == a.heard.remove((group_id@, member_id@))
                    &&& r is Err ==> b == a
                    &&& b.messages == a.messages && b.offsets == a.offsets
                },
            }
        }),
{
    if let BrokerCommand::Produce { topic, partition, .. } = command {
        let log = messages_of(before.storage@, topic@, partition);
        assert(messages_of(after.storage@, topic@, partition).drop_last() =~= log);
    }
}

} // verus!
