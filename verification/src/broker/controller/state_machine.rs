//! What every controller command does to the cluster metadata, and who takes
//! over when a broker dies.
use vstd::prelude::*;

use crate::broker::controller::types::{
    copy_ids, unassigned, AssignmentView, BrokerRegistration, ControllerCommand, ControllerMetadata, MetadataView,
    PartitionAssignment, PartitionRecord, PartitionView, RegistrationView, TopicRecord,
};
use crate::broker::state_machine::filled;
use crate::maps::{Dup, VecMap};
use crate::seqs::{lemma_filter_ends, lemma_filter_holds, lemma_filter_places, lemma_filter_step};

verus! {

/// The partitions without those numbered `0..n` of a topic.
pub open spec fn without_topic(
    partitions: Map<(Seq<char>, i32), PartitionView>,
    topic: Seq<char>,
    n: int,
) -> Map<(Seq<char>, i32), PartitionView> {
    Map::new(
        |k: (Seq<char>, i32)| partitions.dom().contains(k) && !(k.0 == topic && 0 <= k.1 < n),
        |k: (Seq<char>, i32)| partitions[k],
    )
}

/// A record; an unknown partition counts as unassigned.
pub open spec fn record_of(partitions: Map<(Seq<char>, i32), PartitionView>, k: (Seq<char>, i32)) -> PartitionView {
    if partitions.dom().contains(k) { partitions[k] } else { unassigned() }
}

/// A record after a change; a new leader begins a new epoch.
pub open spec fn changed(r: PartitionView, leader: u64, isr: Seq<u64>, replicas: Seq<u64>) -> PartitionView {
    PartitionView {
        leader,
        isr,
        replicas,
        leader_epoch: if r.leader != leader { r.leader_epoch + 1 } else { r.leader_epoch },
    }
}

/// The partitions after one of them has changed.
pub open spec fn with_change(
    partitions: Map<(Seq<char>, i32), PartitionView>,
    k: (Seq<char>, i32),
    leader: u64,
    isr: Seq<u64>,
    replicas: Seq<u64>,
) -> Map<(Seq<char>, i32), PartitionView> {
    partitions.insert(k, changed(record_of(partitions, k), leader, isr, replicas))
}

/// The partitions after an assignment.
pub open spec fn with_assignment(
    partitions: Map<(Seq<char>, i32), PartitionView>,
    a: AssignmentView,
) -> Map<(Seq<char>, i32), PartitionView> {
    with_change(partitions, (a.topic, a.partition), a.new_leader, a.new_isr, a.replicas)
}

/// The partitions after a row of assignments.
pub open spec fn reassigned(
    partitions: Map<(Seq<char>, i32), PartitionView>,
    assignments: Seq<AssignmentView>,
) -> Map<(Seq<char>, i32), PartitionView>
    decreases assignments.len(),
{
    if assignments.len() == 0 {
        partitions
    } else {
        with_assignment(reassigned(partitions, assignments.drop_last()), assignments.last())
    }
}

/// No epoch outgrows its type on the way.
pub open spec fn reassigning_fits(
    partitions: Map<(Seq<char>, i32), PartitionView>,
    assignments: Seq<AssignmentView>,
) -> bool
    decreases assignments.len(),
{
    assignments.len() > 0 ==> {
        let a = assignments.last();
        let k = (a.topic, a.partition);
        reassigning_fits(partitions, assignments.drop_last()) && reassigned(partitions, assignments)[k].leader_epoch
            <= u32::MAX
    }
}

/// The metadata after a command.
pub open spec fn commanded(m: MetadataView, cmd: ControllerCommand) -> MetadataView {
    match cmd {
        ControllerCommand::CreateTopic { topic, num_partitions, replication_factor } => MetadataView {
            topics: if m.topics.dom().contains(topic@) {
                m.topics
            } else {
                m.topics.insert(topic@, TopicRecord { num_partitions, replication_factor })
            },
            partitions: filled(m.partitions, topic@, num_partitions as int, unassigned()),
            ..m
        },
        ControllerCommand::DeleteTopic { topic } => if m.topics.dom().contains(topic@) {
            MetadataView {
                topics: m.topics.remove(topic@),
                partitions: without_topic(m.partitions, topic@, m.topics[topic@].num_partitions as int),
                ..m
            }
        } else {
            m
        },
        ControllerCommand::PartitionChange { topic, partition, leader, isr, replicas } => MetadataView {
            partitions: with_change(m.partitions, (topic@, partition), leader, isr@, replicas@),
            ..m
        },
        ControllerCommand::RegisterBroker { broker_id, api_addr, rpc_addr } => MetadataView {
            brokers: m.brokers.insert(
                broker_id,
                RegistrationView { broker_id, api_addr: api_addr@, rpc_addr: rpc_addr@, last_seen_ms: 0 },
            ),
            ..m
        },
        ControllerCommand::UnregisterBroker { broker_id } => MetadataView { brokers: m.brokers.remove(broker_id), ..m },
        ControllerCommand::BumpControllerEpoch => MetadataView { controller_epoch: m.controller_epoch + 1, ..m },
        ControllerCommand::BrokerHeartbeat { broker_id, timestamp_ms } => if m.brokers.dom().contains(broker_id)
            && timestamp_ms > m.brokers[broker_id].last_seen_ms {
            MetadataView {
                brokers: m.brokers.insert(
                    broker_id,
                    RegistrationView { last_seen_ms: timestamp_ms, ..m.brokers[broker_id] },
                ),
                ..m
            }
        } else {
            m
        },
        ControllerCommand::MarkBrokerDead { broker_id, new_assignments } => MetadataView {
            brokers: m.brokers.remove(broker_id),
            partitions: reassigned(m.partitions, new_assignments.deep_view()),
            ..m
        },
    }
}

/// The epochs that the command counts up stay within their types.
pub open spec fn controller_fits(m: MetadataView, cmd: ControllerCommand) -> bool {
    match cmd {
        ControllerCommand::PartitionChange { topic, partition, .. } => commanded(m, cmd).partitions[(
            topic@,
            partition,
        )].leader_epoch <= u32::MAX,
        ControllerCommand::BumpControllerEpoch => m.controller_epoch < u64::MAX,
        ControllerCommand::MarkBrokerDead { new_assignments, .. } => reassigning_fits(
            m.partitions,
            new_assignments.deep_view(),
        ),
        _ => true,
    }
}

/// A record of a partition that nobody has been put in charge of.
pub fn unassigned_record() -> (r: PartitionRecord)
    ensures
        r.deep_view() == unassigned(),
{
    let r = PartitionRecord { leader: 0, isr: Vec::new(), replicas: Vec::new(), leader_epoch: 0 };
    assert(r.deep_view() =~= unassigned());
    r
}

/// Adds the partitions `0..n` of a topic that are not there yet.
pub fn add_partitions(partitions: &mut VecMap<(String, i32), PartitionRecord>, topic: &String, n: i32)
    ensures
        final(partitions)@ == filled(old(partitions)@, topic@, n as int, unassigned()),
{
    let mut p: i32 = 0;
    assert(partitions@ =~= filled(old(partitions)@, topic@, 0, unassigned()));
    while p < n
        invariant
            0 <= p,
            p <= n || p == 0,
            partitions@ == filled(old(partitions)@, topic@, p as int, unassigned()),
        decreases n - p,
    {
        let k = (topic.dup(), p);
        if !partitions.contains_key(&k) {
            partitions.insert(k, unassigned_record());
        }
        p += 1;
        assert(partitions@ =~= filled(old(partitions)@, topic@, p as int, unassigned()));
    }
    assert(partitions@ =~= filled(old(partitions)@, topic@, n as int, unassigned()));
}

/// Removes the partitions `0..n` of a topic.
pub fn remove_partitions(partitions: &mut VecMap<(String, i32), PartitionRecord>, topic: &String, n: i32)
    ensures
        final(partitions)@ == without_topic(old(partitions)@, topic@, n as int),
{
    let mut p: i32 = 0;
    assert(partitions@ =~= without_topic(old(partitions)@, topic@, 0));
    while p < n
        invariant
            0 <= p,
            p <= n || p == 0,
            partitions@ == without_topic(old(partitions)@, topic@, p as int),
        decreases n - p,
    {
        let k = (topic.dup(), p);
        let _ = partitions.remove(&k);
        p += 1;
        assert(partitions@ =~= without_topic(old(partitions)@, topic@, p as int));
    }
    assert(partitions@ =~= without_topic(old(partitions)@, topic@, n as int));
}

/// Sets who leads a partition and who is in sync.
pub fn change_partition(
    partitions: &mut VecMap<(String, i32), PartitionRecord>,
    topic: String,
    partition: i32,
    leader: u64,
    isr: Vec<u64>,
    replicas: Vec<u64>,
)
    requires
        changed(record_of(old(partitions)@, (topic@, partition)), leader, isr@, replicas@).leader_epoch <= u32::MAX,
    ensures
        final(partitions)@ == with_change(old(partitions)@, (topic@, partition), leader, isr@, replicas@),
{
    let k = (topic, partition);
    let mut entry = match partitions.remove(&k) {
        Some(r) => r,
        None => unassigned_record(),
    };
    let leader_changed = entry.leader != leader;
    entry.leader = leader;
    entry.isr = isr;
    entry.replicas = replicas;
    if leader_changed {
        entry.leader_epoch += 1;
    }
    let ghost e = entry.deep_view();
    assert(e =~= changed(record_of(old(partitions)@, k.deep_view()), leader, isr@, replicas@));
    partitions.insert(k, entry);
    assert(partitions@ =~= with_change(old(partitions)@, k.deep_view(), leader, isr@, replicas@));
}

proof fn lemma_prefix_fits(partitions: Map<(Seq<char>, i32), PartitionView>, all: Seq<AssignmentView>, i: int)
    requires
        reassigning_fits(partitions, all),
        0 <= i <= all.len(),
    ensures
        reassigning_fits(partitions, all.take(i)),
    decreases all.len() - i,
{
    if i < all.len() {
        lemma_prefix_fits(partitions, all, i + 1);
        assert(all.take(i + 1).drop_last() =~= all.take(i));
    } else {
        assert(all.take(i) =~= all);
    }
}

/// Applies a command to the metadata.
pub fn apply_controller_command(meta: &mut ControllerMetadata, cmd: ControllerCommand)
    requires
        controller_fits(old(meta)@, cmd),
    ensures
        final(meta)@ == commanded(old(meta)@, cmd),
{
    let ghost m = meta@;
    let ghost whole = cmd;
    match cmd {
        ControllerCommand::CreateTopic { topic, num_partitions, replication_factor } => {
            add_partitions(&mut meta.partitions, &topic, num_partitions);
            if !meta.topics.contains_key(&topic) {
                meta.topics.insert(topic, TopicRecord { num_partitions, replication_factor });
            }
        },
        ControllerCommand::DeleteTopic { topic } => {
            match meta.topics.remove(&topic) {
                Some(record) => {
                    remove_partitions(&mut meta.partitions, &topic, record.num_partitions);
                },
                None => {
                    assert(meta@.topics =~= m.topics);
                },
            }
        },
        ControllerCommand::PartitionChange { topic, partition, leader, isr, replicas } => {
            change_partition(&mut meta.partitions, topic, partition, leader, isr, replicas);
        },
        ControllerCommand::RegisterBroker { broker_id, api_addr, rpc_addr } => {
            meta.brokers.insert(broker_id, BrokerRegistration { broker_id, api_addr, rpc_addr, last_seen_ms: 0 });
        },
        ControllerCommand::UnregisterBroker { broker_id } => {
            let _ = meta.brokers.remove(&broker_id);
        },
        ControllerCommand::BumpControllerEpoch => {
            meta.controller_epoch += 1;
        },
        ControllerCommand::BrokerHeartbeat { broker_id, timestamp_ms } => {
            match meta.brokers.remove(&broker_id) {
                Some(mut reg) => {
                    if timestamp_ms > reg.last_seen_ms {
                        reg.last_seen_ms = timestamp_ms;
                    }
                    meta.brokers.insert(broker_id, reg);
                    assert(meta@.brokers =~= commanded(m, whole).brokers);
                },
                None => {
                    assert(meta@.brokers =~= m.brokers);
                },
            }
        },
        ControllerCommand::MarkBrokerDead { broker_id, new_assignments } => {
            let _ = meta.brokers.remove(&broker_id);
            let ghost all = new_assignments.deep_view();
            assert(all.take(0) =~= Seq::empty());
            for a in it: new_assignments
                invariant
                    it.seq() == new_assignments@,
                    all == new_assignments.deep_view(),
                    reassigning_fits(m.partitions, all),
                    meta@.partitions == reassigned(m.partitions, all.take(it.index())),
                    meta@.brokers == m.brokers.remove(broker_id),
                    meta@.topics == m.topics,
                    meta@.controller_epoch == m.controller_epoch,
            {
                let ghost i = it.index();
                proof {
                    assert(all[i] == a.deep_view());
                    lemma_prefix_fits(m.partitions, all, i + 1);
                    assert(all.take(i + 1).drop_last() =~= all.take(i));
                    assert(all.take(i + 1).last() == all[i]);
                }
                change_partition(
                    &mut meta.partitions,
                    a.topic,
                    a.partition,
                    a.new_leader,
                    a.new_isr,
                    a.replicas,
                );
            }
            assert(all.take(all.len() as int) =~= all);
        },
    }
    assert(meta@ =~= commanded(m, whole));
}

/// The brokers that are still alive once one is dead.
pub open spec fn alive_without(m: MetadataView, dead: u64) -> spec_fn(u64) -> bool {
    |id: u64| id != dead && m.brokers.dom().contains(id)
}

/// The replicas in sync that are still alive once a broker is dead.
pub open spec fn surviving_isr(m: MetadataView, dead: u64, isr: Seq<u64>) -> Seq<u64> {
    isr.filter(alive_without(m, dead))
}

/// Who takes over a partition of a dead broker: the first replica in sync that is
/// alive, or nobody.
pub open spec fn failover(m: MetadataView, dead: u64, k: (Seq<char>, i32)) -> AssignmentView {
    let isr = surviving_isr(m, dead, m.partitions[k].isr);
    AssignmentView {
        topic: k.0,
        partition: k.1,
        new_leader: if isr.len() > 0 { isr[0] } else { 0 },
        new_isr: isr,
        replicas: m.partitions[k].replicas,
    }
}

/// The partition is led by the dead broker.
pub open spec fn led_by(m: MetadataView, dead: u64, k: (Seq<char>, i32)) -> bool {
    m.partitions.dom().contains(k) && m.partitions[k].leader == dead
}

/// One assignment for every partition that the dead broker led, in any order.
pub open spec fn is_failover(m: MetadataView, dead: u64, r: Seq<AssignmentView>) -> bool {
    &&& forall|i: int|
        0 <= i < r.len() ==> led_by(m, dead, ((#[trigger] r[i]).topic, r[i].partition)) && r[i] == failover(
            m,
            dead,
            (r[i].topic, r[i].partition),
        )
    &&& forall|i: int, j: int|
        0 <= i < r.len() && 0 <= j < r.len() && i != j ==> ((#[trigger] r[i]).topic, r[i].partition) != ((
        #[trigger] r[j]).topic, r[j].partition)
    &&& forall|k: (Seq<char>, i32)|
        #[trigger] led_by(m, dead, k) ==> exists|i: int|
            0 <= i < r.len() && (#[trigger] r[i]).topic == k.0 && r[i].partition == k.1
}

fn survivors(meta: &ControllerMetadata, dead: u64, isr: &Vec<u64>) -> (r: Vec<u64>)
    ensures
        r@ == surviving_isr(meta@, dead, isr@),
{
    let ghost p = alive_without(meta@, dead);
    let mut r: Vec<u64> = Vec::new();
    proof {
        lemma_filter_ends(isr@, p);
    }
    let mut i: usize = 0;
    while i < isr.len()
        invariant
            i <= isr@.len(),
            p == alive_without(meta@, dead),
            r@ == isr@.take(i as int).filter(p),
        decreases isr@.len() - i,
    {
        proof {
            lemma_filter_step(isr@, p, i as int);
        }
        let id = isr[i];
        if id != dead && meta.brokers.contains_key(&id) {
            r.push(id);
        }
        i += 1;
    }
    assert(isr@.take(i as int) =~= isr@);
    r
}

/// Who takes over the partitions that a dead broker led.
pub fn compute_failover_assignments(meta: &ControllerMetadata, dead_broker_id: u64) -> (r: Vec<PartitionAssignment>)
    ensures
        is_failover(meta@, dead_broker_id, r.deep_view()),
{
    let n = meta.partitions.len();
    let ghost m = meta@;
    let ghost order = meta.partitions.order();
    let mut r: Vec<PartitionAssignment> = Vec::new();
    let mut i: usize = 0;
    while i < n
        invariant
            i <= n,
            n == order.len(),
            order == meta.partitions.order(),
            m == meta@,
            order.no_duplicates(),
            order.to_set() == m.partitions.dom(),
            forall|x: int|
                0 <= x < r@.len() ==> led_by(m, dead_broker_id, ((#[trigger] r.deep_view()[x]).topic, r.deep_view()[x].partition))
                    && r.deep_view()[x] == failover(m, dead_broker_id, (r.deep_view()[x].topic, r.deep_view()[x].partition)),
            forall|x: int|
                0 <= x < r@.len() ==> exists|j: int|
                    0 <= j < i && #[trigger] order[j] == ((#[trigger] r.deep_view()[x]).topic, r.deep_view()[x].partition),
            forall|x: int, y: int|
                0 <= x < r@.len() && 0 <= y < r@.len() && x != y ==> ((#[trigger] r.deep_view()[x]).topic, r.deep_view()[x].partition)
                    != ((#[trigger] r.deep_view()[y]).topic, r.deep_view()[y].partition),
            forall|j: int|
                0 <= j < i && led_by(m, dead_broker_id, #[trigger] order[j]) ==> exists|x: int|
                    0 <= x < r@.len() && (#[trigger] r.deep_view()[x]).topic == order[j].0 && r.deep_view()[x].partition
                        == order[j].1,
        decreases n - i,
    {
        let record = meta.partitions.value_at(i);
        let ghost before = r.deep_view();
        if record.leader == dead_broker_id {
            let key = meta.partitions.key_at(i);
            let new_isr = survivors(meta, dead_broker_id, &record.isr);
            let new_leader: u64 = if new_isr.len() > 0 { new_isr[0] } else { 0 };
            let a = PartitionAssignment {
                topic: key.0.dup(),
                partition: key.1,
                new_leader,
                new_isr,
                replicas: copy_ids(&record.replicas),
            };
            let ghost v = a.deep_view();
            proof {
                assert(order[i as int] == (v.topic, v.partition));
                assert(v =~= failover(m, dead_broker_id, (v.topic, v.partition)));
            }
            r.push(a);
            proof {
                assert(r.deep_view() =~= before.push(v));
                assert forall|x: int| 0 <= x < before.len() implies ((#[trigger] before[x]).topic, before[x].partition) != (
                v.topic, v.partition) by {
                    assert(r.deep_view()[x] == before[x]);
                    let j = choose|j: int| 0 <= j < i && #[trigger] order[j] == (before[x].topic, before[x].partition);
                    assert(order[j] != order[i as int]);
                }
                assert forall|x: int| 0 <= x < r@.len() implies exists|j: int|
                    0 <= j < i + 1 && #[trigger] order[j] == ((#[trigger] r.deep_view()[x]).topic, r.deep_view()[x].partition) by {
                    if x < before.len() {
                        assert(r.deep_view()[x] == before[x]);
                        let j = choose|j: int| 0 <= j < i && #[trigger] order[j] == (before[x].topic, before[x].partition);
                        assert(order[j] == (r.deep_view()[x].topic, r.deep_view()[x].partition));
                    } else {
                        assert(order[i as int] == (r.deep_view()[x].topic, r.deep_view()[x].partition));
                    }
                }
                assert forall|j: int| 0 <= j < i + 1 && led_by(m, dead_broker_id, #[trigger] order[j]) implies exists|x: int|
                    0 <= x < r@.len() && (#[trigger] r.deep_view()[x]).topic == order[j].0 && r.deep_view()[x].partition
                        == order[j].1 by {
                    if j < i {
                        let x = choose|x: int|
                            0 <= x < before.len() && (#[trigger] before[x]).topic == order[j].0 && before[x].partition
                                == order[j].1;
                        assert(r.deep_view()[x] == before[x]);
                    } else {
                        assert(r.deep_view()[before.len() as int] == v);
                    }
                }
            }
        } else {
            assert(!led_by(m, dead_broker_id, order[i as int]));
        }
        i += 1;
    }
    proof {
        assert forall|k: (Seq<char>, i32)| #[trigger] led_by(m, dead_broker_id, k) implies exists|x: int|
            0 <= x < r.deep_view().len() && (#[trigger] r.deep_view()[x]).topic == k.0 && r.deep_view()[x].partition == k.1 by {
            assert(order.to_set().contains(k));
            let j = choose|j: int| 0 <= j < order.len() && order[j] == k;
            assert(led_by(m, dead_broker_id, order[j]));
        }
    }
    r
}

/// Creating a topic a second time in the same way changes nothing.
pub proof fn creating_topic_is_idempotent(m: MetadataView, cmd: ControllerCommand)
    requires
        cmd is CreateTopic,
    ensures
        commanded(commanded(m, cmd), cmd) == commanded(m, cmd),
{
    let once = commanded(m, cmd);
    let twice = commanded(once, cmd);
    assert(twice.partitions =~= once.partitions);
    assert(twice.topics =~= once.topics);
}

/// Deleting a topic undoes its creation.
pub proof fn deleting_undoes_creating(m: MetadataView, create: ControllerCommand, delete: ControllerCommand)
    requires
        create matches ControllerCommand::CreateTopic { topic, .. } && delete matches ControllerCommand::DeleteTopic {
            topic: t,
        } && topic@ == t@ && !m.topics.dom().contains(t@) && (forall|p: i32| !m.partitions.dom().contains((t@, p))),
    ensures
        commanded(commanded(m, create), delete) == m,
{
    let back = commanded(commanded(m, create), delete);
    assert(back.topics =~= m.topics);
    assert(back.partitions =~= m.partitions);
}

/// A deleted topic keeps none of the partitions it was created with.
pub proof fn deleted_topic_keeps_no_partition(m: MetadataView, delete: ControllerCommand, p: i32)
    requires
        delete is DeleteTopic,
        m.topics.dom().contains(delete->DeleteTopic_topic@),
        0 <= p < m.topics[delete->DeleteTopic_topic@].num_partitions,
    ensures
        !commanded(m, delete).partitions.dom().contains((delete->DeleteTopic_topic@, p)),
        !commanded(m, delete).topics.dom().contains(delete->DeleteTopic_topic@),
{
}

/// The epoch of a partition rises by one when its leader changes, and stays otherwise,
/// whatever the command: no partition is named twice when a broker is marked dead.
pub proof fn epoch_counts_leader_changes(m: MetadataView, cmd: ControllerCommand, k: (Seq<char>, i32))
    requires
        cmd matches ControllerCommand::MarkBrokerDead { new_assignments, .. } ==> names_once(new_assignments.deep_view()),
        commanded(m, cmd).partitions.dom().contains(k),
    ensures
        ({
            let before = record_of(m.partitions, k);
            let after = commanded(m, cmd).partitions[k];
            after.leader_epoch == before.leader_epoch + (if before.leader != after.leader { 1int } else { 0 })
        }),
{
    if let ControllerCommand::MarkBrokerDead { new_assignments, .. } = cmd {
        let r = new_assignments.deep_view();
        lemma_reassigned_at(m.partitions, r, k);
        if exists|i: int| 0 <= i < r.len() && ((#[trigger] r[i]).topic, r[i].partition) == k {
            let i = choose|i: int| 0 <= i < r.len() && ((#[trigger] r[i]).topic, r[i].partition) == k;
            assert((r[i].topic, r[i].partition) == k);
        }
    }
}

/// The epoch of the controller rises by one with the command that bumps it, which
/// changes nothing else; no other command touches it.
pub proof fn controller_epoch_counts_bumps(m: MetadataView, cmd: ControllerCommand)
    ensures
        commanded(m, cmd).controller_epoch == m.controller_epoch + (if cmd is BumpControllerEpoch { 1int } else { 0 }),
        cmd is BumpControllerEpoch ==> commanded(m, cmd) == (MetadataView {
            controller_epoch: m.controller_epoch + 1,
            ..m
        }),
{
}

/// No command moves the time at which a registered broker was last heard of back,
/// unless it registers the broker anew.
pub proof fn last_seen_never_falls(m: MetadataView, cmd: ControllerCommand, id: u64)
    requires
        !(cmd is RegisterBroker),
        m.brokers.dom().contains(id),
        commanded(m, cmd).brokers.dom().contains(id),
    ensures
        m.brokers[id].last_seen_ms <= commanded(m, cmd).brokers[id].last_seen_ms,
{
}

/// No partition is assigned twice.
pub open spec fn names_once(r: Seq<AssignmentView>) -> bool {
    forall|i: int, j: int|
        0 <= i < r.len() && 0 <= j < r.len() && i != j ==> ((#[trigger] r[i]).topic, r[i].partition) != ((
        #[trigger] r[j]).topic, r[j].partition)
}

proof fn lemma_reassigned_at(
    partitions: Map<(Seq<char>, i32), PartitionView>,
    r: Seq<AssignmentView>,
    k: (Seq<char>, i32),
)
    requires
        names_once(r),
    ensures
        (forall|i: int| 0 <= i < r.len() ==> ((#[trigger] r[i]).topic, r[i].partition) != k) ==> reassigned(
            partitions,
            r,
        ).dom().contains(k) == partitions.dom().contains(k) && reassigned(partitions, r)[k] == partitions[k],
        forall|i: int|
            0 <= i < r.len() && ((#[trigger] r[i]).topic, r[i].partition) == k ==> reassigned(partitions, r).dom().contains(
                k,
            ) && reassigned(partitions, r)[k] == changed(
                record_of(partitions, k),
                r[i].new_leader,
                r[i].new_isr,
                r[i].replicas,
            ),
    decreases r.len(),
{
    if r.len() > 0 {
        let q = r.drop_last();
        let a = r.last();
        assert forall|i: int, j: int| 0 <= i < q.len() && 0 <= j < q.len() && i != j implies ((#[trigger] q[i]).topic, q[i].partition)
            != ((#[trigger] q[j]).topic, q[j].partition) by {
            assert(q[i] == r[i] && q[j] == r[j]);
        }
        lemma_reassigned_at(partitions, q, k);
        if (a.topic, a.partition) == k {
            assert forall|i: int| 0 <= i < q.len() implies ((#[trigger] q[i]).topic, q[i].partition) != k by {
                assert(q[i] == r[i] && r[r.len() - 1] == a);
            }
        } else {
            if forall|i: int| 0 <= i < r.len() ==> ((#[trigger] r[i]).topic, r[i].partition) != k {
                assert forall|i: int| 0 <= i < q.len() implies ((#[trigger] q[i]).topic, q[i].partition) != k by {
                    assert(q[i] == r[i]);
                }
            }
            assert forall|i: int| 0 <= i < r.len() && ((#[trigger] r[i]).topic, r[i].partition) == k implies reassigned(
                partitions,
                r,
            ).dom().contains(k) && reassigned(partitions, r)[k] == changed(
                record_of(partitions, k),
                r[i].new_leader,
                r[i].new_isr,
                r[i].replicas,
            ) by {
                assert(i < q.len());
                assert(q[i] == r[i]);
            }
        }
    }
}

/// After a broker has been marked dead with its failover assignments it leads
/// nothing: each of its partitions keeps its replicas, is left with those in sync that
/// are alive, is led by the first of them or by nobody, and begins a new epoch; every
/// other partition is as it was.
pub proof fn dead_broker_leads_nothing(m: MetadataView, cmd: ControllerCommand, k: (Seq<char>, i32))
    requires
        cmd is MarkBrokerDead,
        cmd->MarkBrokerDead_broker_id != 0,
        is_failover(m, cmd->MarkBrokerDead_broker_id, cmd->new_assignments.deep_view()),
        m.partitions.dom().contains(k),
    ensures
        ({
            let dead = cmd->MarkBrokerDead_broker_id;
            let after = commanded(m, cmd);
            &&& !after.brokers.dom().contains(dead)
            &&& after.partitions.dom().contains(k)
            &&& after.partitions[k].leader != dead
            &&& led_by(m, dead, k) ==> {
                let isr = surviving_isr(m, dead, m.partitions[k].isr);
                after.partitions[k] == (PartitionView {
                    leader: if isr.len() > 0 { isr[0] } else { 0 },
                    isr,
                    replicas: m.partitions[k].replicas,
                    leader_epoch: m.partitions[k].leader_epoch + 1,
                })
            }
            &&& led_by(m, dead, k) ==> after.partitions[k].leader == 0 || (m.partitions[k].isr.contains(
                after.partitions[k].leader,
            ) && after.brokers.dom().contains(after.partitions[k].leader))
            &&& !led_by(m, dead, k) ==> after.partitions[k] == m.partitions[k]
        }),
{
    let dead = cmd->MarkBrokerDead_broker_id;
    let r = cmd->new_assignments.deep_view();
    lemma_reassigned_at(m.partitions, r, k);
    if led_by(m, dead, k) {
        let i = choose|i: int| 0 <= i < r.len() && (#[trigger] r[i]).topic == k.0 && r[i].partition == k.1;
        assert((r[i].topic, r[i].partition) == k);
        let isr = m.partitions[k].isr;
        let p = alive_without(m, dead);
        let live = surviving_isr(m, dead, isr);
        if live.len() > 0 {
            isr.lemma_filter_pred(p, 0);
            assert(live.contains(live[0]));
            isr.lemma_filter_contains_rev(p, live[0]);
        }
    } else {
        assert forall|i: int| 0 <= i < r.len() implies ((#[trigger] r[i]).topic, r[i].partition) != k by {
            assert(led_by(m, dead, (r[i].topic, r[i].partition)));
        }
    }
}

/// Creating a topic adds its partitions, numbered from zero, without a leader, without
/// replicas and in epoch zero. Partitions and topics that are there stay as they are, and
/// so do the brokers.
pub proof fn created_topic_gets_its_partitions(m: MetadataView, cmd: ControllerCommand, t: Seq<char>, k: (Seq<char>, i32))
    requires
        cmd is CreateTopic,
    ensures
        ({
            let after = commanded(m, cmd);
            let topic = cmd->CreateTopic_topic@;
            let ours = k.0 == topic && 0 <= k.1 < cmd->num_partitions;
            &&& after.partitions.dom().contains(k) <==> m.partitions.dom().contains(k) || ours
            &&& m.partitions.dom().contains(k) ==> after.partitions[k] == m.partitions[k]
            &&& ours && !m.partitions.dom().contains(k) ==> after.partitions[k].leader == 0 && after.partitions[k].isr.len()
                == 0 && after.partitions[k].replicas.len() == 0 && after.partitions[k].leader_epoch == 0
            &&& after.topics.dom().contains(t) <==> m.topics.dom().contains(t) || t == topic
            &&& m.topics.dom().contains(t) ==> after.topics[t] == m.topics[t]
            &&& !m.topics.dom().contains(topic) ==> after.topics[topic].num_partitions == cmd->num_partitions
                && after.topics[topic].replication_factor == cmd->replication_factor
            &&& after.brokers == m.brokers
        }),
{
}

/// Deleting a topic removes it and the partitions that it was created with, and nothing
/// else.
pub proof fn deleting_touches_one_topic(m: MetadataView, cmd: ControllerCommand, t: Seq<char>, k: (Seq<char>, i32))
    requires
        cmd is DeleteTopic,
    ensures
        ({
            let after = commanded(m, cmd);
            let topic = cmd->DeleteTopic_topic@;
            let ours = m.topics.dom().contains(topic) && k.0 == topic && 0 <= k.1 < m.topics[topic].num_partitions;
            &&& after.topics.dom().contains(t) <==> m.topics.dom().contains(t) && t != topic
            &&& after.topics.dom().contains(t) ==> after.topics[t] == m.topics[t]
            &&& after.partitions.dom().contains(k) <==> m.partitions.dom().contains(k) && !ours
            &&& after.partitions.dom().contains(k) ==> after.partitions[k] == m.partitions[k]
            &&& after.brokers == m.brokers
        }),
{
}

/// A change of a partition gives it the leader, the replicas in sync and the replicas
/// that the command names, and touches nothing else.
pub proof fn change_touches_one_partition(m: MetadataView, cmd: ControllerCommand, k: (Seq<char>, i32))
    requires
        cmd is PartitionChange,
    ensures
        ({
            let after = commanded(m, cmd);
            let ours = k == (cmd->PartitionChange_topic@, cmd->partition);
            &&& after.partitions.dom().contains(k) <==> m.partitions.dom().contains(k) || ours
            &&& ours ==> after.partitions[k].leader == cmd->leader && after.partitions[k].isr == cmd->isr@
                && after.partitions[k].replicas == cmd->replicas@
            &&& !ours && m.partitions.dom().contains(k) ==> after.partitions[k] == m.partitions[k]
            &&& after.topics == m.topics
            &&& after.brokers == m.brokers
        }),
{
}

/// What commands do to the brokers. Registering records the addresses, and that the
/// broker has not been heard of yet. Unregistering and marking dead forget the broker. A
/// heartbeat of a registered broker moves on the time at which it was last heard of, and
/// changes nothing else. No other command, and no other broker, is concerned.
pub proof fn broker_commands_touch_one_broker(m: MetadataView, cmd: ControllerCommand, id: u64)
    ensures
        ({
            let after = commanded(m, cmd);
            match cmd {
                ControllerCommand::RegisterBroker { broker_id, api_addr, rpc_addr } => {
                    &&& after.brokers.dom().contains(broker_id)
                    &&& after.brokers[broker_id].broker_id == broker_id
                    &&& after.brokers[broker_id].api_addr == api_addr@
                    &&& after.brokers[broker_id].rpc_addr == rpc_addr@
                    &&& after.brokers[broker_id].last_seen_ms == 0
                    &&& id != broker_id ==> (after.brokers.dom().contains(id) <==> m.brokers.dom().contains(id))
                    &&& id != broker_id && m.brokers.dom().contains(id) ==> after.brokers[id] == m.brokers[id]
                    &&& after.topics == m.topics
                    &&& after.partitions == m.partitions
                },
                ControllerCommand::UnregisterBroker { broker_id } => {
                    &&& after.brokers.dom().contains(id) <==> m.brokers.dom().contains(id) && id != broker_id
                    &&& after.brokers.dom().contains(id) ==> after.brokers[id] == m.brokers[id]
                    &&& after.topics == m.topics
                    &&& after.partitions == m.partitions
                },
                ControllerCommand::MarkBrokerDead { broker_id, .. } => {
                    &&& after.brokers.dom().contains(id) <==> m.brokers.dom().contains(id) && id != broker_id
                    &&& after.brokers.dom().contains(id) ==> after.brokers[id] == m.brokers[id]
                    &&& after.topics == m.topics
                },
                ControllerCommand::BrokerHeartbeat { broker_id, timestamp_ms } => {
                    &&& after.brokers.dom() == m.brokers.dom()
                    &&& id != broker_id && m.brokers.dom().contains(id) ==> after.brokers[id] == m.brokers[id]
                    &&& m.brokers.dom().contains(broker_id) ==> after.brokers[broker_id].api_addr
                        == m.brokers[broker_id].api_addr && after.brokers[broker_id].rpc_addr
                        == m.brokers[broker_id].rpc_addr && after.brokers[broker_id].broker_id
                        == m.brokers[broker_id].broker_id
                    &&& m.brokers.dom().contains(broker_id) && timestamp_ms >= m.brokers[broker_id].last_seen_ms
                        ==> after.brokers[broker_id].last_seen_ms == timestamp_ms
                    &&& m.brokers.dom().contains(broker_id) && timestamp_ms < m.brokers[broker_id].last_seen_ms
                        ==> after.brokers[broker_id].last_seen_ms == m.brokers[broker_id].last_seen_ms
                    &&& after.topics == m.topics
                    &&& after.partitions == m.partitions
                },
                _ => after.brokers == m.brokers,
            }
        }),
{
    if let ControllerCommand::BrokerHeartbeat { broker_id, .. } = cmd {
        assert(commanded(m, cmd).brokers.dom() =~= m.brokers.dom());
    }
}

/// Who takes over from a dead broker. The replicas in sync that go on are exactly those
/// that are registered and not the dead broker itself. The new leader is the one of them
/// that comes first in the old list; where nobody is left nobody leads.
pub proof fn first_survivor_takes_over(m: MetadataView, dead: u64, r: Seq<AssignmentView>, x: int, id: u64, i: int)
    requires
        is_failover(m, dead, r),
        0 <= x < r.len(),
    ensures
        ({
            let k = (r[x].topic, r[x].partition);
            let old = m.partitions[k];
            &&& m.partitions.dom().contains(k)
            &&& old.leader == dead
            &&& r[x].replicas == old.replicas
            &&& r[x].new_isr.contains(id) <==> old.isr.contains(id) && id != dead && m.brokers.dom().contains(id)
            &&& 0 <= i < old.isr.len() && old.isr[i] != dead && m.brokers.dom().contains(old.isr[i]) && (forall|j: int|
                0 <= j < i ==> #[trigger] old.isr[j] == dead || !m.brokers.dom().contains(old.isr[j])) ==> r[x].new_leader
                == old.isr[i]
            &&& r[x].new_isr.len() == 0 ==> r[x].new_leader == 0
            &&& old.isr.no_duplicates() ==> r[x].new_isr.no_duplicates()
        }),
{
    let k = (r[x].topic, r[x].partition);
    assert(led_by(m, dead, k));
    let isr = m.partitions[k].isr;
    let p = alive_without(m, dead);
    lemma_filter_holds(isr, p);
    let at = lemma_filter_places(isr, p);
    let live = isr.filter(p);
    if 0 <= i < isr.len() && p(isr[i]) && (forall|j: int|
        0 <= j < i ==> #[trigger] isr[j] == dead || !m.brokers.dom().contains(isr[j])) {
        assert(at.contains(i));
        let y = choose|y: int| 0 <= y < at.len() && at[y] == i;
        assert(p(isr[at[0]]));
        if y > 0 {
            assert(at[0] < at[y]);
            assert(isr[at[0]] == dead || !m.brokers.dom().contains(isr[at[0]]));
        }
        assert(live[0] == isr[i]);
    }
}

/// Every partition that the dead broker led gets exactly one new assignment.
pub proof fn every_orphan_is_reassigned(m: MetadataView, dead: u64, r: Seq<AssignmentView>, k: (Seq<char>, i32)) -> (x: int)
    requires
        is_failover(m, dead, r),
        m.partitions.dom().contains(k),
        m.partitions[k].leader == dead,
    ensures
        0 <= x < r.len(),
        r[x].topic == k.0,
        r[x].partition == k.1,
        forall|y: int| 0 <= y < r.len() && (#[trigger] r[y]).topic == k.0 && r[y].partition == k.1 ==> y == x,
{
    assert(led_by(m, dead, k));
    let x = choose|x: int| 0 <= x < r.len() && (#[trigger] r[x]).topic == k.0 && r[x].partition == k.1;
    assert forall|y: int| 0 <= y < r.len() && (#[trigger] r[y]).topic == k.0 && r[y].partition == k.1 implies y == x by {
        if y != x {
            assert((r[x].topic, r[x].partition) != (r[y].topic, r[y].partition));
        }
    }
    x
}

} // verus!
