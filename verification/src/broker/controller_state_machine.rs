//! What every command does to cluster metadata without liveness.
use vstd::prelude::*;

use crate::broker::controller::state_machine::{
    add_partitions, change_partition, record_of, remove_partitions, with_change, without_topic,
};
use crate::broker::controller::types::unassigned;
use crate::broker::controller_types::{
    BrokerRegistration, ControllerCommand, ControllerMetadata, MetadataView, RegistrationView, TopicRecord,
};
use crate::broker::state_machine::filled;

verus! {

/// The metadata after a command.
pub open spec fn commanded(m: MetadataView, cmd: ControllerCommand) -> MetadataView {
    match cmd {
        ControllerCommand::CreateTopic { topic, num_partitions, replication_factor } => MetadataView {
            topics: if m.topics.dom().contains(topic@) {
                m.topics
            } else {
                m.topics.insert(topic@, TopicRecord { num_partitions, replication_factor })
            },
            partitions: filled(m.partitions, topic@, num_partitions as int, unassigned()),
            ..m
        },
        ControllerCommand::DeleteTopic { topic } => if m.topics.dom().contains(topic@) {
            MetadataView {
                topics: m.topics.remove(topic@),
                partitions: without_topic(m.partitions, topic@, m.topics[topic@].num_partitions as int),
                ..m
            }
        } else {
            m
        },
        ControllerCommand::PartitionChange { topic, partition, leader, isr, replicas } => MetadataView {
            partitions: with_change(m.partitions, (topic@, partition), leader, isr@, replicas@),
            ..m
        },
        ControllerCommand::RegisterBroker { broker_id, api_addr, rpc_addr } => MetadataView {
            brokers: m.brokers.insert(
                broker_id,
                RegistrationView { broker_id, api_addr: api_addr@, rpc_addr: rpc_addr@ },
            ),
            ..m
        },
        ControllerCommand::UnregisterBroker { broker_id } => MetadataView { brokers: m.brokers.remove(broker_id), ..m },
        ControllerCommand::BumpControllerEpoch => MetadataView { controller_epoch: m.controller_epoch + 1, ..m },
    }
}

/// The epochs that the command counts up stay within their types.
pub open spec fn controller_fits(m: MetadataView, cmd: ControllerCommand) -> bool {
    match cmd {
        ControllerCommand::PartitionChange { topic, partition, .. } => commanded(m, cmd).partitions[(
            topic@,
            partition,
        )].leader_epoch <= u32::MAX,
        ControllerCommand::BumpControllerEpoch => m.controller_epoch < u64::MAX,
        _ => true,
    }
}

/// Applies a command to the metadata.
pub fn apply_controller_command(meta: &mut ControllerMetadata, cmd: ControllerCommand)
    requires
        controller_fits(old(meta)@, cmd),
    ensures
        final(meta)@ == commanded(old(meta)@, cmd),
{
    let ghost m = meta@;
    let ghost whole = cmd;
    match cmd {
        ControllerCommand::CreateTopic { topic, num_partitions, replication_factor } => {
            add_partitions(&mut meta.partitions, &topic, num_partitions);
            if !meta.topics.contains_key(&topic) {
                meta.topics.insert(topic, TopicRecord { num_partitions, replication_factor });
            }
        },
        ControllerCommand::DeleteTopic { topic } => {
            match meta.topics.remove(&topic) {
                Some(record) => {
                    remove_partitions(&mut meta.partitions, &topic, record.num_partitions);
                },
                None => {
                    assert(meta@.topics =~= m.topics);
                },
            }
        },
        ControllerCommand::PartitionChange { topic, partition, leader, isr, replicas } => {
            change_partition(&mut meta.partitions, topic, partition, leader, isr, replicas);
        },
        ControllerCommand::RegisterBroker { broker_id, api_addr, rpc_addr } => {
            meta.brokers.insert(broker_id, BrokerRegistration { broker_id, api_addr, rpc_addr });
        },
        ControllerCommand::UnregisterBroker { broker_id } => {
            let _ = meta.brokers.remove(&broker_id);
        },
        ControllerCommand::BumpControllerEpoch => {
            meta.controller_epoch += 1;
        },
    }
    assert(meta@ =~= commanded(m, whole));
}

/// Creating a topic a second time in the same way changes nothing.
pub proof fn creating_topic_is_idempotent(m: MetadataView, cmd: ControllerCommand)
    requires
        cmd is CreateTopic,
    ensures
        commanded(commanded(m, cmd), cmd) == commanded(m, cmd),
{
    let once = commanded(m, cmd);
    let twice = commanded(once, cmd);
    assert(twice.partitions =~= once.partitions);
    assert(twice.topics =~= once.topics);
}

/// Deleting a topic undoes its creation.
pub proof fn deleting_undoes_creating(m: MetadataView, create: ControllerCommand, delete: ControllerCommand)
    requires
        create matches ControllerCommand::CreateTopic { topic, .. } && delete matches ControllerCommand::DeleteTopic {
            topic: t,
        } && topic@ == t@ && !m.topics.dom().contains(t@) && (forall|p: i32| !m.partitions.dom().contains((t@, p))),
    ensures
        commanded(commanded(m, create), delete) == m,
{
    let back = commanded(commanded(m, create), delete);
    assert(back.topics =~= m.topics);
    assert(back.partitions =~= m.partitions);
}

/// A deleted topic keeps none of the partitions it was created with.
pub proof fn deleted_topic_keeps_no_partition(m: MetadataView, delete: ControllerCommand, p: i32)
    requires
        delete is DeleteTopic,
        m.topics.dom().contains(delete->DeleteTopic_topic@),
        0 <= p < m.topics[delete->DeleteTopic_topic@].num_partitions,
    ensures
        !commanded(m, delete).partitions.dom().contains((delete->DeleteTopic_topic@, p)),
        !commanded(m, delete).topics.dom().contains(delete->DeleteTopic_topic@),
{
}

/// The epoch of a partition rises by one when its leader changes, and stays otherwise,
/// whatever the command.
pub proof fn epoch_counts_leader_changes(m: MetadataView, cmd: ControllerCommand, k: (Seq<char>, i32))
    requires
        commanded(m, cmd).partitions.dom().contains(k),
    ensures
        ({
            let before = record_of(m.partitions, k);
            let after = commanded(m, cmd).partitions[k];
            after.leader_epoch == before.leader_epoch + (if before.leader != after.leader { 1int } else { 0 })
        }),
{
}

/// The epoch of the controller rises by one with the command that bumps it, which
/// changes nothing else; no other command touches it.
pub proof fn controller_epoch_counts_bumps(m: MetadataView, cmd: ControllerCommand)
    ensures
        commanded(m, cmd).controller_epoch == m.controller_epoch + (if cmd is BumpControllerEpoch { 1int } else { 0 }),
        cmd is BumpControllerEpoch ==> commanded(m, cmd) == (MetadataView {
            controller_epoch: m.controller_epoch + 1,
            ..m
        }),
{
}

/// What commands do to topics and partitions. Creating adds the topic, where it is new,
/// and the partitions that are missing, without leader and replicas. Deleting takes the
/// topic and the partitions it was created with. A change concerns one partition: it gets
/// the leader and the replicas that the command names, and its epoch rises by one when the
/// leader is another one. No other topic or partition is touched.
pub proof fn commands_touch_one_topic(m: MetadataView, cmd: ControllerCommand, t: Seq<char>, k: (Seq<char>, i32))
    ensures
        ({
            let after = commanded(m, cmd);
            match cmd {
                ControllerCommand::CreateTopic { topic, num_partitions, replication_factor } => {
                    let ours = k.0 == topic@ && 0 <= k.1 < num_partitions;
                    &&& after.partitions.dom().contains(k) <==> m.partitions.dom().contains(k) || ours
                    &&& m.partitions.dom().contains(k) ==> after.partitions[k] == m.partitions[k]
                    &&& ours && !m.partitions.dom().contains(k) ==> after.partitions[k].leader == 0
                        && after.partitions[k].isr.len() == 0 && after.partitions[k].replicas.len() == 0
                        && after.partitions[k].leader_epoch == 0
                    &&& after.topics.dom().contains(t) <==> m.topics.dom().contains(t) || t == topic@
                    &&& m.topics.dom().contains(t) ==> after.topics[t] == m.topics[t]
                    &&& !m.topics.dom().contains(topic@) ==> after.topics[topic@].num_partitions == num_partitions
                        && after.topics[topic@].replication_factor == replication_factor
                },
                ControllerCommand::DeleteTopic { topic } => {
                    let ours = m.topics.dom().contains(topic@) && k.0 == topic@ && 0 <= k.1 < m.topics[topic@].num_partitions;
                    &&& after.topics.dom().contains(t) <==> m.topics.dom().contains(t) && t != topic@
                    &&& after.topics.dom().contains(t) ==> after.topics[t] == m.topics[t]
                    &&& after.partitions.dom().contains(k) <==> m.partitions.dom().contains(k) && !ours
                    &&& after.partitions.dom().contains(k) ==> after.partitions[k] == m.partitions[k]
                },
                ControllerCommand::PartitionChange { topic, partition, leader, isr, replicas } => {
                    let ours = k == (topic@, partition);
                    let old_leader = if m.partitions.dom().contains(k) { m.partitions[k].leader } else { 0 };
                    let old_epoch = if m.partitions.dom().contains(k) { m.partitions[k].leader_epoch as int } else { 0 };
                    &&& after.partitions.dom().contains(k) <==> m.partitions.dom().contains(k) || ours
                    &&& ours ==> after.partitions[k].leader == leader && after.partitions[k].isr == isr@
                        && after.partitions[k].replicas == replicas@
                    &&& ours && leader != old_leader ==> after.partitions[k].leader_epoch == old_epoch + 1
                    &&& ours && leader == old_leader ==> after.partitions[k].leader_epoch == old_epoch
                    &&& !ours && m.partitions.dom().contains(k) ==> after.partitions[k] == m.partitions[k]
                    &&& after.topics == m.topics
                },
                _ => after.topics == m.topics && after.partitions == m.partitions,
            }
        }),
{
}

/// Registering records the addresses of a broker, and unregistering forgets it. No other
/// command, and no other broker, is concerned. The epoch of the controller counts the
/// commands that bump it.
pub proof fn commands_touch_one_broker(m: MetadataView, cmd: ControllerCommand, id: u64)
    ensures
        ({
            let after = commanded(m, cmd);
            &&& cmd is BumpControllerEpoch ==> after.controller_epoch == m.controller_epoch + 1
            &&& !(cmd is BumpControllerEpoch) ==> after.controller_epoch == m.controller_epoch
            &&& match cmd {
                ControllerCommand::RegisterBroker { broker_id, api_addr, rpc_addr } => {
                    &&& after.brokers.dom().contains(broker_id)
                    &&& after.brokers[broker_id].broker_id == broker_id
                    &&& after.brokers[broker_id].api_addr == api_addr@
                    &&& after.brokers[broker_id].rpc_addr == rpc_addr@
                    &&& id != broker_id ==> (after.brokers.dom().contains(id) <==> m.brokers.dom().contains(id))
                    &&& id != broker_id && m.brokers.dom().contains(id) ==> after.brokers[id] == m.brokers[id]
                },
                ControllerCommand::UnregisterBroker { broker_id } => {
                    &&& after.brokers.dom().contains(id) <==> m.brokers.dom().contains(id) && id != broker_id
                    &&& after.brokers.dom().contains(id) ==> after.brokers[id] == m.brokers[id]
                },
                _ => after.brokers == m.brokers,
            }
        }),
{
}

} // verus!
