//! The broker: who leads what, and what is stored and read where.
use vstd::prelude::*;
use vstd::relations::sorted_by;
use vstd::string::StringExecFns;

use crate::broker::consumer_group_coordinator::{
    group_joined, is_heartbeat_answer, is_sync_answer, knows_member, ConsumerGroupCoordinator, CoordinatorView};
use crate::broker::controller::types::{
    copy_ids, ControllerCommand, ControllerMetadata, MetadataView, RegistrationView};
use crate::broker::error::{BrokerError, BrokerResult, ErrorView};
use crate::broker::groups::left;
use crate::broker::kraft::isr_manager::{
    all_ticked, are_reports, logs_ticked, seeded, IsrChange, IsrManager, IsrRules, IsrStateView, IsrView,
    ReplicaProgress};
use crate::broker::kraft::replication_manager::{
    handle_fetch, replicated, FetchResult, BACKOFF_MS, POLL_INTERVAL_MS};
use crate::broker::liveness::{all_checked, checked};
use crate::broker::partition_log::{
    changes_touch_nothing_else, committed_message_is_read, log_advanced, log_appended, log_message, log_read, message_fits, valid_log, LogErrorView, LogView, PartitionLog};
use crate::broker::raft::MessageView;
use crate::broker::storage::{is_join_answer, JoinAnswer, StoredMessage};
use crate::broker::topics::{
    api_address, bad_topic_name, is_topic_name, parse_api_addr, validate_topic_name, BrokerInfo, ClusterMetadata, InfoView};
use crate::ids::{ascending_is_sorted, ascending_same_ids, id_order, sort_ids};
use crate::maps::{Dup, VecMap};
use crate::seqs::{lemma_next_element, range, up_to};
use crate::text::{decimal, decimal_text};

verus! {

/// After how many milliseconds of silence a replica is not in sync any longer.
pub const REPLICA_STALE_MS: u64 = 30_000;

/// How many milliseconds a producer waits for all replicas in sync.
pub const ACKS_TIMEOUT_MS: u64 = 5_000;

/// What a producer that wants all replicas in sync to have its message is told.
#[derive(Debug)]
pub enum AckStep {
    /// They have it, at this offset.
    Done(i64),
    /// Not yet.
    Wait,
    /// The time is up.
    Failed(BrokerError),
}

/// What a producer is told.
#[verifier::ext_equal]
pub enum AckView {
    Done(i64),
    Wait,
    Failed(ErrorView),
}

impl DeepView for AckStep {
    type V = AckView;

    open spec fn deep_view(&self) -> AckView {
        match self {
            AckStep::Done(offset) => AckView::Done(*offset),
            AckStep::Wait => AckView::Wait,
            AckStep::Failed(e) => AckView::Failed(e.deep_view()),
        }
    }
}

/// A message that all replicas in sync have is acknowledged however long it took; one
/// that they lack is waited for until the time is up.
pub open spec fn ack_step(acknowledged: bool, waited_ms: u64, offset: i64) -> AckView {
    if acknowledged {
        AckView::Done(offset)
    } else if waited_ms < ACKS_TIMEOUT_MS {
        AckView::Wait
    } else {
        AckView::Failed(ErrorView::Internal("acks=all timeout: replication did not complete within 5 s"@))
    }
}

/// Decides what a producer is told that has waited this long for a message.
pub fn judge_ack(acknowledged: bool, waited_ms: u64, offset: i64) -> (r: AckStep)
    ensures
        r.deep_view() == ack_step(acknowledged, waited_ms, offset),
{
    if acknowledged {
        AckStep::Done(offset)
    } else if waited_ms < ACKS_TIMEOUT_MS {
        AckStep::Wait
    } else {
        AckStep::Failed(BrokerError::Internal("acks=all timeout: replication did not complete within 5 s".to_owned()))
    }
}

/// The replica that a fetch request comes from. Consumers name a number that is not
/// positive.
pub fn fetching_replica(replica_id: i32) -> (r: Option<u64>)
    ensures
        r == (if replica_id > 0 { Some(replica_id as u64) } else { None::<u64> }),
{
    if replica_id > 0 { Some(replica_id as u64) } else { None }
}

/// A broker whose messages live in replicated partition logs.
pub struct KRaftBroker {
    node_id: u64,
    api_addr: String,
    /// The logs of the partitions that this broker leads or copies.
    partition_store: VecMap<(String, i32), PartitionLog>,
    /// What groups have committed; kept by this broker alone.
    committed_offsets: VecMap<(String, String, i32), (i64, String)>,
    group_coordinator: ConsumerGroupCoordinator,
    isr_mgr: IsrManager,
    replication_factor: u16,
}

/// What a broker holds.
#[verifier::ext_equal]
pub struct KRaftView {
    pub node_id: u64,
    pub api_addr: Seq<char>,
    pub logs: Map<(Seq<char>, i32), LogView>,
    pub committed: Map<(Seq<char>, Seq<char>, i32), (i64, Seq<char>)>,
    pub groups: CoordinatorView,
    pub isr: IsrView,
    pub replication_factor: u16,
}

/// A log without entries.
pub open spec fn fresh_log() -> LogView {
    LogView { entries: Seq::empty(), leo: 0, hw: 0 }
}

fn new_log() -> (r: PartitionLog)
    ensures
        r@ == fresh_log(),
{
    let items: Vec<(Vec<u8>, Vec<u8>)> = Vec::new();
    let r = PartitionLog::open(items, None, None);
    proof {
        reveal(Seq::filter);
        assert(items.deep_view() =~= Seq::empty());
        assert(r@ =~= fresh_log());
    }
    r
}

/// The partition belongs to a known topic, and the broker leads or copies it.
pub open spec fn holds_partition(meta: MetadataView, node: u64, k: (Seq<char>, i32)) -> bool {
    &&& meta.topics.dom().contains(k.0)
    &&& 0 <= k.1 < meta.topics[k.0].num_partitions
    &&& meta.partitions.dom().contains(k)
    &&& meta.partitions[k].leader == node || meta.partitions[k].replicas.contains(node)
}

/// The logs with one for every partition that the broker leads or copies.
pub open spec fn logs_synced(logs: Map<(Seq<char>, i32), LogView>, meta: MetadataView, node: u64) -> Map<
    (Seq<char>, i32),
    LogView,
> {
    Map::new(
        |k: (Seq<char>, i32)| logs.dom().contains(k) || holds_partition(meta, node, k),
        |k: (Seq<char>, i32)| if logs.dom().contains(k) { logs[k] } else { fresh_log() },
    )
}

/// The known topics with those of the metadata.
pub open spec fn topics_synced(topics: Map<Seq<char>, i32>, meta: MetadataView) -> Map<Seq<char>, i32> {
    Map::new(
        |t: Seq<char>| topics.dom().contains(t) || meta.topics.dom().contains(t),
        |t: Seq<char>| if meta.topics.dom().contains(t) { meta.topics[t].num_partitions } else { topics[t] },
    )
}

/// The brokers that replicas are put on: all that have registered, in ascending
/// order, or this one where none has.
pub open spec fn is_roster(ids: Seq<u64>, brokers: Map<u64, RegistrationView>, node: u64) -> bool {
    if brokers.dom().is_empty() {
        ids == seq![node]
    } else {
        ids.no_duplicates() && ids.to_set() == brokers.dom() && sorted_by(ids, id_order())
    }
}

/// How many replicas a partition gets: as many as wanted, as far as there are brokers.
pub open spec fn effective_rf(n: nat, rf: u16) -> nat {
    if rf < n { rf as nat } else { n }
}

/// The replicas of a partition: as many brokers in a row as there are to be replicas,
/// beginning one further for every partition.
pub open spec fn planned_replicas(ids: Seq<u64>, rf: u16, p: int) -> Seq<u64> {
    Seq::new(effective_rf(ids.len(), rf), |i: int| ids[(p % (ids.len() as int) + i) % (ids.len() as int)])
}

/// The command that puts brokers in charge of a partition.
pub open spec fn is_planned(cmd: ControllerCommand, topic: Seq<char>, ids: Seq<u64>, rf: u16, p: int) -> bool {
    cmd matches ControllerCommand::PartitionChange { topic: t, partition, leader, isr, replicas } && {
        &&& t@ == topic
        &&& partition == p
        &&& replicas@ == planned_replicas(ids, rf, p)
        &&& isr@ == replicas@
        &&& leader == replicas@[0]
    }
}

/// The commands that create a topic: the topic itself, and, from the controller, one
/// assignment for every partition.
pub open spec fn are_topic_commands(
    cmds: Seq<ControllerCommand>,
    topic: Seq<char>,
    n: int,
    ids: Seq<u64>,
    rf: u16,
    is_controller: bool,
) -> bool {
    &&& cmds.len() == 1 + if is_controller { n } else { 0 }
    &&& cmds[0] matches ControllerCommand::CreateTopic { topic: t, num_partitions, replication_factor } && t@ == topic
        && num_partitions == n && replication_factor == rf
    &&& forall|i: int| 1 <= i < cmds.len() ==> is_planned(#[trigger] cmds[i], topic, ids, rf, i - 1)
}

proof fn lemma_rotation(n: int, a: int, i: int, j: int)
    requires
        n > 0,
        0 <= a < n,
        0 <= i < j < n,
    ensures
        (a + i) % n != (a + j) % n,
        0 <= (a + i) % n < n,
{
    if a + j < n {
        vstd::arithmetic::div_mod::lemma_small_mod((a + i) as nat, n as nat);
        vstd::arithmetic::div_mod::lemma_small_mod((a + j) as nat, n as nat);
    } else {
        vstd::arithmetic::div_mod::lemma_mod_sub_multiples_vanish(a + j, n);
        vstd::arithmetic::div_mod::lemma_small_mod((a + j - n) as nat, n as nat);
        if a + i < n {
            vstd::arithmetic::div_mod::lemma_small_mod((a + i) as nat, n as nat);
        } else {
            vstd::arithmetic::div_mod::lemma_mod_sub_multiples_vanish(a + i, n);
            vstd::arithmetic::div_mod::lemma_small_mod((a + i - n) as nat, n as nat);
        }
    }
}

/// The replicas of a partition are different brokers, as many as wanted and there
/// are, and the leader is the first of them.
pub proof fn replicas_are_distinct(ids: Seq<u64>, rf: u16, p: int)
    requires
        ids.no_duplicates(),
        ids.len() > 0,
    ensures
        planned_replicas(ids, rf, p).no_duplicates(),
        planned_replicas(ids, rf, p).len() == effective_rf(ids.len(), rf),
        forall|i: int|
            0 <= i < planned_replicas(ids, rf, p).len() ==> ids.contains(#[trigger] planned_replicas(ids, rf, p)[i]),
{
    let n = ids.len() as int;
    let a = p % n;
    let r = planned_replicas(ids, rf, p);
    vstd::arithmetic::div_mod::lemma_mod_bound(p, n);
    assert forall|i: int| 0 <= i < r.len() implies ids.contains(#[trigger] r[i]) by {
        vstd::arithmetic::div_mod::lemma_mod_bound(a + i, n);
        assert(r[i] == ids[(a + i) % n]);
    }
    assert forall|i: int, j: int| 0 <= i < r.len() && 0 <= j < r.len() && i != j implies r[i] != r[j] by {
        vstd::arithmetic::div_mod::lemma_mod_bound(a + i, n);
        vstd::arithmetic::div_mod::lemma_mod_bound(a + j, n);
        if i < j {
            lemma_rotation(n, a, i, j);
        } else {
            lemma_rotation(n, a, j, i);
        }
    }
}

/// Leadership goes round: consecutive partitions begin with consecutive brokers.
pub proof fn leadership_goes_round(ids: Seq<u64>, rf: u16, p: int)
    requires
        ids.len() > 0,
        rf > 0,
        0 <= p,
    ensures
        planned_replicas(ids, rf, p)[0] == ids[p % (ids.len() as int)],
        planned_replicas(ids, rf, p + ids.len()) == planned_replicas(ids, rf, p),
{
    let n = ids.len() as int;
    vstd::arithmetic::div_mod::lemma_mod_bound(p, n);
    vstd::arithmetic::div_mod::lemma_small_mod((p % n) as nat, n as nat);
    vstd::arithmetic::div_mod::lemma_mod_add_multiples_vanish(p, n);
    assert(planned_replicas(ids, rf, p + ids.len()) =~= planned_replicas(ids, rf, p));
}

/// Puts brokers on the replicas of a partition.
fn plan_replicas(ids: &Vec<u64>, rf: u16, p: i32) -> (r: Vec<u64>)
    requires
        ids@.len() > 0,
        p >= 0,
    ensures
        r@ == planned_replicas(ids@, rf, p as int),
{
    let n: usize = ids.len();
    let count: usize = if (rf as usize) < n { rf as usize } else { n };
    let start: u128 = (p as u128) % (n as u128);
    let mut r: Vec<u64> = Vec::new();
    let mut i: usize = 0;
    while i < count
        invariant
            i <= count <= n,
            n == ids@.len(),
            n > 0,
            p >= 0,
            count == effective_rf(n as nat, rf),
            start == p as int % n as int,
            0 <= start < n,
            r@.len() == i,
            forall|j: int| 0 <= j < i ==> #[trigger] r@[j] == ids@[(p as int % n as int + j) % (n as int)],
        decreases count - i,
    {
        let at: usize = ((start + i as u128) % (n as u128)) as usize;
        r.push(ids[at]);
        i += 1;
    }
    assert(r@ =~= planned_replicas(ids@, rf, p as int));
    r
}

fn roster(brokers: &VecMap<u64, crate::broker::controller::types::BrokerRegistration>, node_id: u64) -> (r: Vec<u64>)
    ensures
        is_roster(r@, brokers@, node_id),
        r@.len() > 0,
{
    let keys = brokers.keys();
    proof {
        assert(keys.deep_view() =~= keys@);
    }
    let mut ids = sort_ids(&keys);
    proof {
        broadcast use vstd::seq_lib::group_to_multiset_ensures;

        ascending_is_sorted(keys@);
        assert forall|id: u64| ids@.to_set().contains(id) == keys@.to_set().contains(id) by {
            ascending_same_ids(keys@, id);
        }
        assert(ids@.to_set() =~= keys@.to_set());
        keys@.lemma_multiset_has_no_duplicates();
        assert forall|x: u64| ids@.to_multiset().contains(x) implies ids@.to_multiset().count(x) == 1 by {}
        ids@.lemma_multiset_has_no_duplicates_conv();
        assert(ids@.len() == keys@.len()) by {
            ascending_same_ids(keys@, 0);
        }
    }
    if ids.len() == 0 {
        ids.push(node_id);
        proof {
            assert(keys@.to_set() =~= Set::empty());
            assert(ids@ =~= seq![node_id]);
        }
    } else {
        proof {
            assert(brokers@.dom().contains(keys@[0])) by {
                assert(keys@.contains(keys@[0]));
            }
        }
    }
    ids
}

/// What is said of a partition that nobody knows.
pub open spec fn unknown_partition(topic: Seq<char>, partition: i32) -> Seq<char> {
    "Unknown partition "@ + topic + "-"@ + decimal_text(partition as int)
}

/// Why a message cannot be stored here, if it cannot.
pub open spec fn produce_refusal(meta: MetadataView, node: u64, topic: Seq<char>, partition: i32) -> Option<ErrorView> {
    let k = (topic, partition);
    if !is_topic_name(topic) {
        Some(bad_topic_name())
    } else if !meta.partitions.dom().contains(k) {
        Some(ErrorView::NotFound(unknown_partition(topic, partition)))
    } else if meta.partitions[k].leader == 0 {
        Some(ErrorView::Internal("Partition has no leader assigned yet"@))
    } else if meta.partitions[k].leader != node {
        let leader = meta.partitions[k].leader;
        Some(
            ErrorView::NotLeader {
                leader_addr: if meta.brokers.dom().contains(leader) {
                    Some(meta.brokers[leader].api_addr)
                } else {
                    None
                },
            },
        )
    } else {
        None
    }
}

/// The log of a partition; an unknown one is fresh.
pub open spec fn log_at(logs: Map<(Seq<char>, i32), LogView>, k: (Seq<char>, i32)) -> LogView {
    if logs.dom().contains(k) { logs[k] } else { fresh_log() }
}

/// The log of a partition after a message was stored. Where nobody else is in sync,
/// the message may be read at once.
pub open spec fn log_produced(
    log: LogView,
    isr: Seq<u64>,
    node: u64,
    key: Option<Seq<u8>>,
    value: Seq<u8>,
    now: i64,
) -> LogView {
    let after = log_appended(log, key, value, now);
    if isr == seq![node] { log_advanced(after, after.leo) } else { after }
}

/// What is known of a partition once its leader is this broker.
pub open spec fn led_from_now(b: KRaftView, k: (Seq<char>, i32), isr: Seq<u64>, now: i64) -> KRaftView {
    let log = log_at(b.logs, k);
    KRaftView {
        logs: b.logs.insert(k, log),
        isr: IsrView {
            partitions: b.isr.partitions.insert(
                k,
                IsrStateView {
                    all_replicas: isr,
                    progress: seeded(isr, b.isr.rules.this_node, log.leo, now),
                    current_isr: isr,
                },
            ),
            ..b.isr
        },
        ..b
    }
}

/// The broker after the first `n` partitions of a topic were looked at: it leads those
/// that the metadata gives it.
pub open spec fn leads_taken(b: KRaftView, meta: MetadataView, topic: Seq<char>, n: int, now: i64) -> KRaftView
    decreases n,
{
    if n <= 0 {
        b
    } else {
        let before = leads_taken(b, meta, topic, n - 1, now);
        let k = (topic, (n - 1) as i32);
        if meta.partitions.dom().contains(k) && meta.partitions[k].leader == b.node_id {
            led_from_now(before, k, meta.partitions[k].isr, now)
        } else {
            before
        }
    }
}

impl KRaftBroker {
    /// What the broker holds.
    pub closed spec fn view(&self) -> KRaftView {
        KRaftView {
            node_id: self.node_id,
            api_addr: self.api_addr@,
            logs: self.partition_store@,
            committed: self.committed_offsets@,
            groups: self.group_coordinator@,
            isr: self.isr_mgr@,
            replication_factor: self.replication_factor,
        }
    }

    /// A broker with the logs that were found on disk, and with a log for every
    /// partition that the metadata gives it.
    pub fn new(
        node_id: u64,
        api_addr: String,
        meta: &ControllerMetadata,
        stored: VecMap<(String, i32), PartitionLog>,
        rebalance_timeout_ms: i64,
        isr_lag_max: i64,
        replication_factor: u16,
    ) -> (r: Self)
        ensures
            r@ == (KRaftView {
                node_id,
                api_addr: api_addr@,
                logs: logs_synced(stored@, meta@, node_id),
                committed: Map::empty(),
                groups: CoordinatorView {
                    groups: Map::empty(),
                    topics: topics_synced(Map::empty(), meta@),
                    heard: Map::empty(),
                    rebalance_timeout_ms,
                },
                isr: IsrView {
                    partitions: Map::empty(),
                    rules: IsrRules { this_node: node_id, lag_max: isr_lag_max, stale_ms: REPLICA_STALE_MS as i64 },
                },
                replication_factor,
            }),
    {
        let mut r = KRaftBroker {
            node_id,
            api_addr,
            partition_store: stored,
            committed_offsets: VecMap::new(),
            group_coordinator: ConsumerGroupCoordinator::with_rebalance_timeout(rebalance_timeout_ms),
            isr_mgr: IsrManager::new(node_id, isr_lag_max, REPLICA_STALE_MS),
            replication_factor,
        };
        r.sync_partitions_from_metadata(meta);
        r
    }

    /// Learns the topics of the metadata, and opens a log for every partition that it
    /// gives to this broker.
    pub fn sync_partitions_from_metadata(&mut self, meta: &ControllerMetadata)
        ensures
            final(self)@ == (KRaftView {
                logs: logs_synced(old(self)@.logs, meta@, old(self)@.node_id),
                groups: CoordinatorView {
                    topics: topics_synced(old(self)@.groups.topics, meta@),
                    ..old(self)@.groups
                },
                ..old(self)@
            }),
    {
        let ghost b = self@;
        let ghost m = meta@;
        let topics = meta.topics.keys();
        let ghost order = topics.deep_view();
        let mut i: usize = 0;
        proof {
            assert(order.take(0).to_set() =~= Set::empty());
            assert(logs_among(b.logs, m, b.node_id, order.take(0).to_set(), Seq::empty(), 0) =~= b.logs);
            assert(topics_among(b.groups.topics, m, order.take(0).to_set()) =~= b.groups.topics);
        }
        while i < topics.len()
            invariant
                i <= topics@.len(),
                order == topics.deep_view(),
                order.to_set() == m.topics.dom(),
                order.no_duplicates(),
                m == meta@,
                self@.logs == logs_among(b.logs, m, b.node_id, order.take(i as int).to_set(), Seq::empty(), 0),
                self@.groups == (CoordinatorView {
                    topics: topics_among(b.groups.topics, m, order.take(i as int).to_set()),
                    ..b.groups
                }),
                self@ == (KRaftView { logs: self@.logs, groups: self@.groups, ..b }),
            decreases topics@.len() - i,
        {
            let ghost seen = order.take(i as int).to_set();
            let topic = topics[i].dup();
            let ghost t = topic@;
            proof {
                assert(topics@[i as int].deep_view() == order[i as int]);
                lemma_next_element(order, i as int);
            }
            let n: i32 = match meta.topics.get(&topic) {
                Some(record) => record.num_partitions,
                None => 0,
            };
            self.group_coordinator.update_topic(topic.dup(), n);
            assert(topics_among(b.groups.topics, m, seen.insert(t)) =~= topics_among(b.groups.topics, m, seen).insert(
                t,
                n,
            ));
            let mut p: i32 = 0;
            assert(logs_among(b.logs, m, b.node_id, seen, Seq::empty(), 0) =~= logs_among(b.logs, m, b.node_id, seen, t, 0));
            while p < n
                invariant
                    0 <= p,
                    p <= n || p == 0,
                    m == meta@,
                    t == topic@,
                    m.topics.dom().contains(t),
                    n == m.topics[t].num_partitions,
                    self@.logs == logs_among(b.logs, m, b.node_id, seen, t, p as int),
                    self@.groups == (CoordinatorView {
                        topics: topics_among(b.groups.topics, m, seen.insert(t)),
                        ..b.groups
                    }),
                    self@ == (KRaftView { logs: self@.logs, groups: self@.groups, ..b }),
                decreases n - p,
            {
                let k = (topic.dup(), p);
                let held = match meta.partitions.get(&k) {
                    Some(record) => record.leader == self.node_id || has_id(&record.replicas, self.node_id),
                    None => false,
                };
                if held {
                    self.ensure_partition_log(&topic, p);
                }
                proof {
                    assert(holds_partition(m, b.node_id, (t, p)) == held);
                    assert(self@.logs =~= logs_among(b.logs, m, b.node_id, seen, t, p + 1));
                }
                p += 1;
            }
            proof {
                assert(logs_among(b.logs, m, b.node_id, seen, t, p as int) =~= logs_among(
                    b.logs,
                    m,
                    b.node_id,
                    seen.insert(t),
                    Seq::empty(),
                    0,
                ));
            }
            i += 1;
        }
        proof {
            assert(order.take(i as int) =~= order);
            assert(self@.logs =~= logs_synced(b.logs, m, b.node_id));
            assert(self@.groups.topics =~= topics_synced(b.groups.topics, m));
        }
    }

    /// Opens the log of a partition where it is not open yet.
    pub fn ensure_partition_log(&mut self, topic: &String, partition: i32)
        ensures
            final(self)@ == (KRaftView {
                logs: old(self)@.logs.insert((topic@, partition), log_at(old(self)@.logs, (topic@, partition))),
                ..old(self)@
            }),
    {
        let k = (topic.dup(), partition);
        if !self.partition_store.contains_key(&k) {
            self.partition_store.insert(k, new_log());
        }
        assert(self@.logs =~= old(self)@.logs.insert(
            (topic@, partition),
            log_at(old(self)@.logs, (topic@, partition)),
        ));
    }

    /// Takes over a log that was found on disk.
    pub fn restore_partition_log(&mut self, topic: &String, partition: i32, log: PartitionLog)
        ensures
            final(self)@ == (KRaftView { logs: old(self)@.logs.insert((topic@, partition), log@), ..old(self)@ }),
    {
        self.partition_store.insert((topic.dup(), partition), log);
    }

    /// The log of a partition, where it is open.
    pub fn partition_log(&self, topic: &String, partition: i32) -> (r: Option<&PartitionLog>)
        ensures
            match r {
                Some(log) => self@.logs.dom().contains((topic@, partition)) && log@ == self@.logs[(topic@, partition)],
                None => !self@.logs.dom().contains((topic@, partition)),
            },
    {
        self.partition_store.get(&(topic.dup(), partition))
    }

    /// The broker becomes the leader of a partition.
    pub fn on_became_leader(&mut self, topic: &String, partition: i32, isr: Vec<u64>, now: i64)
        ensures
            final(self)@ == led_from_now(old(self)@, (topic@, partition), isr@, now),
    {
        self.ensure_partition_log(topic, partition);
        let ghost b = self@;
        let k = (topic.dup(), partition);
        if let Some(log) = self.partition_store.get(&k) {
            self.isr_mgr.add_partition(topic.dup(), partition, copy_ids(&isr), isr, log, now);
        }
    }

    /// A replica fetches from an offset on.
    pub fn record_replica_fetch(&mut self, topic: &String, partition: i32, replica_id: u64, fetch_offset: i64, now: i64)
        ensures
            final(self)@ == (if old(self)@.isr.partitions.dom().contains((topic@, partition)) {
                let s = old(self)@.isr.partitions[(topic@, partition)];
                KRaftView {
                    isr: IsrView {
                        partitions: old(self)@.isr.partitions.insert(
                            (topic@, partition),
                            IsrStateView {
                                progress: s.progress.insert(
                                    replica_id,
                                    ReplicaProgress { fetch_offset, last_contact_ms: now },
                                ),
                                ..s
                            },
                        ),
                        ..old(self)@.isr
                    },
                    ..old(self)@
                }
            } else {
                old(self)@
            }),
    {
        self.isr_mgr.record_fetch_progress(topic, partition, replica_id, fetch_offset, now);
    }

    /// Looks at the replicas of all partitions that this broker leads.
    pub fn tick(&mut self, now: i64) -> (changes: Vec<IsrChange>)
        ensures
            final(self)@ == (KRaftView {
                logs: logs_ticked(old(self)@.isr, old(self)@.logs, now),
                isr: all_ticked(old(self)@.isr, old(self)@.logs, now),
                ..old(self)@
            }),
            are_reports(old(self)@.isr, old(self)@.logs, now, changes.deep_view()),
    {
        self.isr_mgr.tick(&mut self.partition_store, now)
    }

    /// The commands to propose for a new topic. A bad name and a topic without
    /// partitions are refused. A partition that is put on brokers needs a leader, so
    /// the controller cannot do without replicas.
    pub fn create_topic_commands(
        &self,
        meta: &ControllerMetadata,
        topic: &String,
        num_partitions: i32,
        is_controller: bool,
    ) -> (r: BrokerResult<Vec<ControllerCommand>>)
        requires
            is_controller && is_topic_name(topic@) && num_partitions > 0 ==> self@.replication_factor > 0,
        ensures
            match r {
                Ok(cmds) => is_topic_name(topic@) && num_partitions > 0 && exists|ids: Seq<u64>| #[trigger]
                    is_roster(ids, meta@.brokers, self@.node_id) && are_topic_commands(
                        cmds@,
                        topic@,
                        num_partitions as int,
                        ids,
                        self@.replication_factor,
                        is_controller,
                    ),
                Err(e) => e.deep_view() == (if !is_topic_name(topic@) {
                    bad_topic_name()
                } else {
                    ErrorView::Validation("num_partitions must be > 0"@)
                }) && !(is_topic_name(topic@) && num_partitions > 0),
            },
    {
        match validate_topic_name(topic) {
            Err(e) => {
                return Err(e);
            },
            Ok(()) => {},
        }
        if num_partitions <= 0 {
            return Err(BrokerError::Validation("num_partitions must be > 0".to_owned()));
        }
        let rf = self.replication_factor;
        let ids = roster(&meta.brokers, self.node_id);
        let mut cmds: Vec<ControllerCommand> = Vec::new();
        cmds.push(ControllerCommand::CreateTopic { topic: topic.dup(), num_partitions, replication_factor: rf });
        if is_controller {
            let mut p: i32 = 0;
            while p < num_partitions
                invariant
                    0 <= p <= num_partitions,
                    rf == self@.replication_factor,
                    rf > 0,
                    ids@.len() > 0,
                    cmds@.len() == 1 + p,
                    cmds@[0] matches ControllerCommand::CreateTopic {
                        topic: t,
                        num_partitions: n,
                        replication_factor,
                    } && t@ == topic@ && n == num_partitions && replication_factor == rf,
                    forall|i: int| 1 <= i < cmds@.len() ==> is_planned(#[trigger] cmds@[i], topic@, ids@, rf, i - 1),
                decreases num_partitions - p,
            {
                let replicas = plan_replicas(&ids, rf, p);
                let leader = replicas[0];
                let isr = copy_ids(&replicas);
                let ghost before = cmds@;
                cmds.push(ControllerCommand::PartitionChange { topic: topic.dup(), partition: p, leader, isr, replicas });
                assert forall|i: int| 1 <= i < cmds@.len() implies is_planned(#[trigger] cmds@[i], topic@, ids@, rf, i - 1) by {
                    if i < before.len() {
                        assert(cmds@[i] == before[i]);
                    }
                }
                p += 1;
            }
        }
        assert(is_roster(ids@, meta@.brokers, self@.node_id));
        assert(are_topic_commands(cmds@, topic@, num_partitions as int, ids@, rf, is_controller));
        Ok(cmds)
    }

    /// A topic has been created: this broker leads the partitions that the metadata
    /// gives it.
    pub fn topic_created(&mut self, meta: &ControllerMetadata, topic: &String, num_partitions: i32, now: i64)
        ensures
            ({
                let b = leads_taken(old(self)@, meta@, topic@, num_partitions as int, now);
                final(self)@ == (KRaftView {
                    groups: CoordinatorView {
                        topics: b.groups.topics.insert(topic@, num_partitions),
                        ..b.groups
                    },
                    ..b
                })
            }),
    {
        let mut p: i32 = 0;
        while p < num_partitions
            invariant
                0 <= p,
                p <= num_partitions || p == 0,
                self@ == leads_taken(old(self)@, meta@, topic@, p as int, now),
                self@.node_id == old(self)@.node_id,
            decreases num_partitions - p,
        {
            let k = (topic.dup(), p);
            if let Some(record) = meta.partitions.get(&k) {
                if record.leader == self.node_id {
                    self.on_became_leader(topic, p, copy_ids(&record.isr), now);
                }
            }
            p += 1;
        }
        proof {
            if num_partitions <= 0 {
                assert(p == 0);
            }
        }
        self.group_coordinator.update_topic(topic.dup(), num_partitions);
    }

    /// The known topics.
    pub fn get_topics(&self, meta: &ControllerMetadata) -> (r: Vec<String>)
        ensures
            r.deep_view().no_duplicates(),
            r.deep_view().to_set() == meta@.topics.dom(),
    {
        meta.topics.keys()
    }

    /// The partitions of a topic.
    pub fn get_topic_partitions(&self, meta: &ControllerMetadata, topic: &String) -> (r: Option<Vec<i32>>)
        ensures
            match r {
                Some(p) => meta@.topics.dom().contains(topic@) && p@ == up_to(
                    meta@.topics[topic@].num_partitions as int,
                ),
                None => !meta@.topics.dom().contains(topic@),
            },
    {
        match meta.topics.get(topic) {
            Some(record) => Some(range(record.num_partitions)),
            None => None,
        }
    }

    /// Stores a message, where this broker leads the partition.
    pub fn produce_message(
        &mut self,
        meta: &ControllerMetadata,
        topic: &String,
        partition: i32,
        key: Option<Vec<u8>>,
        value: Vec<u8>,
        now: i64,
    ) -> (r: BrokerResult<i64>)
        requires
            log_at(old(self)@.logs, (topic@, partition)).leo < i64::MAX,
        ensures
            match produce_refusal(meta@, old(self)@.node_id, topic@, partition) {
                Some(e) => final(self)@ == old(self)@ && (r matches Err(x) && x.deep_view() == e),
                None => {
                    let k = (topic@, partition);
                    let log = log_at(old(self)@.logs, k);
                    &&& r == BrokerResult::<i64>::Ok(log.leo)
                    &&& final(self)@ == (KRaftView {
                        logs: old(self)@.logs.insert(
                            k,
                            log_produced(
                                log,
                                meta@.partitions[k].isr,
                                old(self)@.node_id,
                                key.deep_view(),
                                value.deep_view(),
                                now,
                            ),
                        ),
                        ..old(self)@
                    })
                },
            },
    {
        match validate_topic_name(topic) {
            Err(e) => {
                return Err(e);
            },
            Ok(()) => {},
        }
        let k = (topic.dup(), partition);
        let record = match meta.partitions.get(&k) {
            None => {
                let mut text = "Unknown partition ".to_owned();
                text.append(topic.as_str());
                text.append("-");
                text.append(decimal(partition as i64).as_str());
                return Err(BrokerError::NotFound(text));
            },
            Some(record) => record,
        };
        if record.leader == 0 {
            return Err(BrokerError::Internal("Partition has no leader assigned yet".to_owned()));
        }
        if record.leader != self.node_id {
            let leader_addr = match meta.brokers.get(&record.leader) {
                Some(b) => Some(b.api_addr.dup()),
                None => None,
            };
            return Err(BrokerError::NotLeader { leader_addr });
        }
        let mut log = match self.partition_store.remove(&k) {
            Some(log) => log,
            None => new_log(),
        };
        let offset = log.append(key, value, now);
        if record.isr.len() == 1 && record.isr[0] == self.node_id {
            let _ = log.advance_hw(offset + 1);
            assert(record.isr@ =~= seq![self.node_id]);
        } else {
            assert(record.isr@ != seq![self.node_id]);
        }
        self.partition_store.insert(k, log);
        assert(self@.logs =~= old(self)@.logs.insert((topic@, partition), log@));
        Ok(offset)
    }

    /// Whether all replicas in sync have a message: the watermark has passed it, or the
    /// log is gone.
    pub fn is_acknowledged(&self, topic: &String, partition: i32, offset: i64) -> (b: bool)
        ensures
            b == (self@.logs.dom().contains((topic@, partition)) ==> self@.logs[(topic@, partition)].hw > offset),
    {
        match self.partition_store.get(&(topic.dup(), partition)) {
            Some(log) => log.high_watermark() > offset,
            None => true,
        }
    }

    /// Stores a message for a producer that wants all replicas in sync to have it. Gives
    /// its offset and what the producer is told at first; after that the watermark and
    /// the time decide.
    pub fn produce_message_acks_all(
        &mut self,
        meta: &ControllerMetadata,
        topic: &String,
        partition: i32,
        key: Option<Vec<u8>>,
        value: Vec<u8>,
        now: i64,
    ) -> (r: BrokerResult<(i64, AckStep)>)
        requires
            log_at(old(self)@.logs, (topic@, partition)).leo < i64::MAX,
        ensures
            match produce_refusal(meta@, old(self)@.node_id, topic@, partition) {
                Some(e) => final(self)@ == old(self)@ && (r matches Err(x) && x.deep_view() == e),
                None => {
                    let k = (topic@, partition);
                    let log = log_at(old(self)@.logs, k);
                    let after = log_produced(
                        log,
                        meta@.partitions[k].isr,
                        old(self)@.node_id,
                        key.deep_view(),
                        value.deep_view(),
                        now,
                    );
                    &&& final(self)@ == (KRaftView { logs: old(self)@.logs.insert(k, after), ..old(self)@ })
                    &&& r matches Ok((offset, step)) && offset == log.leo && step.deep_view() == ack_step(
                        after.hw > log.leo,
                        0,
                        log.leo,
                    )
                },
            },
    {
        match self.produce_message(meta, topic, partition, key, value, now) {
            Ok(offset) => {
                let step = judge_ack(self.is_acknowledged(topic, partition, offset), 0, offset);
                Ok((offset, step))
            },
            Err(e) => Err(e),
        }
    }

    /// Reads messages up to the watermark. A partition without a log has none.
    pub fn fetch_messages(&self, topic: &String, partition: i32, offset: i64, max_bytes: i32) -> (r: BrokerResult<
        Vec<StoredMessage>,
    >)
        ensures
            match r {
                Ok(m) => if self@.logs.dom().contains((topic@, partition)) {
                    log_read(self@.logs[(topic@, partition)], offset, max_bytes) == Ok::<_, LogErrorView>(m.deep_view())
                } else {
                    m@.len() == 0
                },
                Err(e) => self@.logs.dom().contains((topic@, partition)) && (log_read(
                    self@.logs[(topic@, partition)],
                    offset,
                    max_bytes,
                ) matches Err(why) && e.deep_view() == ErrorView::Internal(log_message(why))),
            },
    {
        match self.partition_store.get(&(topic.dup(), partition)) {
            None => Ok(Vec::new()),
            Some(log) => match log.read(offset, max_bytes) {
                Ok(m) => Ok(m),
                Err(e) => Err(BrokerError::Internal(e.to_string())),
            },
        }
    }

    /// The offset that a request by time means: minus two the first one that is stored,
    /// anything else the end.
    pub fn get_partition_offset(&self, topic: &String, partition: i32, time: i64) -> (r: BrokerResult<Vec<i64>>)
        ensures
            r matches Ok(v) && v@ == seq![
                if !self@.logs.dom().contains((topic@, partition)) {
                    0
                } else {
                    let log = self@.logs[(topic@, partition)];
                    if time != -2 {
                        log.leo
                    } else if log.entries.len() == 0 {
                        0
                    } else {
                        log.entries[0].0
                    }
                },
            ],
    {
        let offset: i64 = match self.partition_store.get(&(topic.dup(), partition)) {
            None => 0,
            Some(log) => if time == -2 {
                match log.first_offset() {
                    Some(o) => o,
                    None => 0,
                }
            } else {
                log.log_end_offset()
            },
        };
        let mut v: Vec<i64> = Vec::new();
        v.push(offset);
        Ok(v)
    }

    /// A group commits an offset.
    pub fn commit_offset(&mut self, group: &String, topic: &String, partition: i32, offset: i64, metadata: String) -> (r:
        BrokerResult<()>)
        ensures
            r is Ok,
            final(self)@ == (KRaftView {
                committed: old(self)@.committed.insert((group@, topic@, partition), (offset, metadata@)),
                ..old(self)@
            }),
    {
        self.committed_offsets.insert((group.dup(), topic.dup(), partition), (offset, metadata));
        Ok(())
    }

    /// The offset that a group has committed; minus one where it has not.
    pub fn fetch_offset(&self, group: &String, topic: &String, partition: i32) -> (r: BrokerResult<(i64, String)>)
        ensures
            r matches Ok(v) && (v.0, v.1@) == (if self@.committed.dom().contains((group@, topic@, partition)) {
                self@.committed[(group@, topic@, partition)]
            } else {
                (-1i64, Seq::<char>::empty())
            }),
    {
        match self.committed_offsets.get(&(group.dup(), topic.dup(), partition)) {
            Some(v) => Ok((v.0, v.1.dup())),
            None => Ok((-1, String::new())),
        }
    }

    /// Where the coordinator of groups is: at this broker.
    pub fn get_coordinator_info(&self) -> (r: (i32, String, i32))
        ensures
            r.0 == self@.node_id as i32,
            (r.1@, r.2 as int) == api_address(self@.api_addr),
    {
        let (host, port) = parse_api_addr(&self.api_addr);
        (#[verifier::truncate] (self.node_id as i32), host, port)
    }

    /// A member joins a group.
    pub fn join_group(
        &mut self,
        group_id: &String,
        member_id: &String,
        protocol_metadata: &[u8],
        session_timeout_ms: i64,
        now: i64,
    ) -> (r: BrokerResult<JoinAnswer>)
        requires
            group_joined(
                old(self)@.groups,
                group_id@,
                member_id@,
                protocol_metadata@,
                session_timeout_ms,
                now,
            ).generation_id <= i32::MAX,
        ensures
            ({
                let g = group_joined(
                    old(self)@.groups,
                    group_id@,
                    member_id@,
                    protocol_metadata@,
                    session_timeout_ms,
                    now,
                );
                &&& final(self)@ == (KRaftView {
                    groups: CoordinatorView {
                        groups: old(self)@.groups.groups.insert(group_id@, g),
                        heard: old(self)@.groups.heard.insert((group_id@, member_id@), now),
                        ..old(self)@.groups
                    },
                    ..old(self)@
                })
                &&& r matches Ok(a) && is_join_answer(g, member_id@, a)
            }),
    {
        self.group_coordinator.join_group(group_id, member_id, protocol_metadata, session_timeout_ms, now)
    }

    /// The partitions of a member, once no rebalance is going on.
    pub fn sync_group(&self, group_id: &String, member_id: &String) -> (r: BrokerResult<Vec<u8>>)
        ensures
            is_sync_answer(self@.groups.groups, group_id@, member_id@, r),
    {
        self.group_coordinator.sync_group(group_id, member_id)
    }

    /// A member reports that it is alive.
    pub fn heartbeat(&mut self, group_id: &String, member_id: &String, now: i64) -> (r: BrokerResult<()>)
        ensures
            is_heartbeat_answer(old(self)@.groups.groups, group_id@, member_id@, r),
            final(self)@ == (KRaftView {
                groups: if knows_member(old(self)@.groups.groups, group_id@, member_id@) {
                    CoordinatorView {
                        heard: old(self)@.groups.heard.insert((group_id@, member_id@), now),
                        ..old(self)@.groups
                    }
                } else {
                    old(self)@.groups
                },
                ..old(self)@
            }),
    {
        self.group_coordinator.heartbeat(group_id, member_id, now)
    }

    /// A member leaves a group.
    pub fn leave_group(&mut self, group_id: &String, member_id: &String, now: i64) -> (r: BrokerResult<()>)
        requires
            old(self)@.groups.groups.dom().contains(group_id@) ==> left(
                old(self)@.groups.groups[group_id@],
                member_id@,
                now,
            ).generation_id <= i32::MAX,
        ensures
            !old(self)@.groups.groups.dom().contains(group_id@) ==> (r matches Err(e) && e.deep_view()
                == ErrorView::NotFound("Group not found"@)) && final(self)@ == old(self)@,
            old(self)@.groups.groups.dom().contains(group_id@) ==> r is Ok && final(self)@ == (KRaftView {
                groups: CoordinatorView {
                    groups: old(self)@.groups.groups.insert(
                        group_id@,
                        left(old(self)@.groups.groups[group_id@], member_id@, now),
                    ),
                    heard: old(self)@.groups.heard.remove((group_id@, member_id@)),
                    ..old(self)@.groups
                },
                ..old(self)@
            }),
    {
        self.group_coordinator.leave_group(group_id, member_id, now)
    }

    /// Strikes off silent members of groups and ends rebalances that last too long.
    pub fn check_liveness(&mut self, now: i64)
        requires
            forall|g: Seq<char>|
                #[trigger] old(self)@.groups.groups.dom().contains(g) ==> checked(
                    old(self)@.groups.groups[g],
                    old(self)@.groups.heard,
                    g,
                    old(self)@.groups.topics,
                    now,
                    old(self)@.groups.rebalance_timeout_ms,
                ).generation_id <= i32::MAX,
        ensures
            final(self)@ == (KRaftView {
                groups: CoordinatorView {
                    groups: all_checked(
                        old(self)@.groups.groups,
                        old(self)@.groups.heard,
                        old(self)@.groups.topics,
                        now,
                        old(self)@.groups.rebalance_timeout_ms,
                    ),
                    ..old(self)@.groups
                },
                ..old(self)@
            }),
    {
        proof {
            let c = self.group_coordinator@;
            assert forall|g: Seq<char>| #[trigger] c.groups.dom().contains(g) implies checked(
                c.groups[g],
                c.heard,
                g,
                c.topics,
                now,
                c.rebalance_timeout_ms,
            ).generation_id <= i32::MAX by {
                assert(old(self)@.groups.groups.dom().contains(g));
            }
        }
        self.group_coordinator.check_liveness(now);
    }

    /// Takes in what a fetch from the leader of a partition brought, and says for how
    /// many milliseconds to wait before the next one.
    pub fn follow(&mut self, topic: &String, partition: i32, fetched: Option<FetchResult>, now: i64) -> (wait_ms: u64)
        requires
            fetched matches Some(f) ==> log_at(old(self)@.logs, (topic@, partition)).leo + f.records@.len() <= i64::MAX,
        ensures
            ({
                let k = (topic@, partition);
                let log = log_at(old(self)@.logs, k);
                match fetched {
                    None => {
                        &&& final(self)@ == (KRaftView { logs: old(self)@.logs.insert(k, log), ..old(self)@ })
                        &&& wait_ms == BACKOFF_MS
                    },
                    Some(f) => {
                        &&& final(self)@ == (KRaftView {
                            logs: old(self)@.logs.insert(k, replicated(log, f.records.deep_view(), f.leader_hw, now)),
                            ..old(self)@
                        })
                        &&& wait_ms == (if f.records@.len() == 0 { POLL_INTERVAL_MS } else { 0 })
                    },
                }
            }),
    {
        let k = (topic.dup(), partition);
        let mut log = match self.partition_store.remove(&k) {
            Some(log) => log,
            None => new_log(),
        };
        let wait_ms = handle_fetch(&mut log, fetched, now);
        self.partition_store.insert(k, log);
        assert(self@.logs =~= old(self)@.logs.insert((topic@, partition), log@));
        wait_ms
    }

    /// The registered brokers and the controller.
    pub fn get_cluster_metadata(&self, meta: &ControllerMetadata, controller_id: u64) -> (r: ClusterMetadata)
        ensures
            r.leader_id == controller_id,
            r.brokers.deep_view() == meta.brokers.order().map_values(shown_broker(meta@.brokers)),
    {
        let n = meta.brokers.len();
        let ghost order = meta.brokers.order();
        let mut brokers: Vec<BrokerInfo> = Vec::new();
        let mut i: usize = 0;
        while i < n
            invariant
                i <= n,
                n == order.len(),
                order == meta.brokers.order(),
                brokers@.len() == i,
                forall|j: int|
                    0 <= j < i ==> (#[trigger] brokers@[j]).deep_view() == shown_broker(meta@.brokers)(order[j]),
            decreases n - i,
        {
            let b = meta.brokers.value_at(i);
            brokers.push(BrokerInfo { node_id: b.broker_id, api_addr: b.api_addr.dup() });
            i += 1;
        }
        assert(brokers.deep_view() =~= order.map_values(shown_broker(meta@.brokers)));
        ClusterMetadata { brokers, leader_id: controller_id }
    }
}

/// How clients see a registered broker.
pub open spec fn shown_broker(brokers: Map<u64, RegistrationView>) -> spec_fn(u64) -> InfoView {
    |id: u64| InfoView { node_id: brokers[id].broker_id, api_addr: brokers[id].api_addr }
}

fn has_id(ids: &Vec<u64>, id: u64) -> (b: bool)
    ensures
        b == ids@.contains(id),
{
    let mut i: usize = 0;
    while i < ids.len()
        invariant
            i <= ids@.len(),
            forall|j: int| 0 <= j < i ==> #[trigger] ids@[j] != id,
        decreases ids@.len() - i,
    {
        if ids[i] == id {
            return true;
        }
        i += 1;
    }
    false
}

/// The logs with those of some topics, and of the first partitions of one more.
spec fn logs_among(
    logs: Map<(Seq<char>, i32), LogView>,
    meta: MetadataView,
    node: u64,
    seen: Set<Seq<char>>,
    topic: Seq<char>,
    n: int,
) -> Map<(Seq<char>, i32), LogView> {
    Map::new(
        |k: (Seq<char>, i32)|
            logs.dom().contains(k) || (holds_partition(meta, node, k) && (seen.contains(k.0) || (k.0 == topic && k.1 < n))),
        |k: (Seq<char>, i32)| if logs.dom().contains(k) { logs[k] } else { fresh_log() },
    )
}

/// The known topics with some of those of the metadata.
spec fn topics_among(topics: Map<Seq<char>, i32>, meta: MetadataView, seen: Set<Seq<char>>) -> Map<Seq<char>, i32> {
    Map::new(
        |t: Seq<char>| topics.dom().contains(t) || (seen.contains(t) && meta.topics.dom().contains(t)),
        |t: Seq<char>|
            if seen.contains(t) && meta.topics.dom().contains(t) {
                meta.topics[t].num_partitions
            } else {
                topics[t]
            },
    )
}

/// A message that a leader without other replicas in sync stores is handed out at
/// once to whoever reads from its offset on.
pub proof fn lone_leader_serves_at_once(
    log: LogView,
    node: u64,
    key: Option<Seq<u8>>,
    value: Seq<u8>,
    now: i64,
    max_bytes: i32,
)
    requires
        valid_log(log),
        log.leo < i64::MAX,
        message_fits(key, value),
    ensures
        log_read(log_produced(log, seq![node], node, key, value, now), log.leo, max_bytes) == Ok::<_, LogErrorView>(
            seq![MessageView { offset: log.leo, key, value, timestamp_ms: now }],
        ),
{
    committed_message_is_read(log, key, value, now, max_bytes);
}

/// What a group has committed is what it is told afterwards, and nothing else changes.
pub proof fn committed_offset_reads_back(
    b: KRaftView,
    group: Seq<char>,
    topic: Seq<char>,
    partition: i32,
    offset: i64,
    metadata: Seq<char>,
    other: (Seq<char>, Seq<char>, i32),
)
    ensures
        ({
            let after = b.committed.insert((group, topic, partition), (offset, metadata));
            &&& after.dom().contains((group, topic, partition))
            &&& after[(group, topic, partition)] == (offset, metadata)
            &&& other != (group, topic, partition) ==> after.dom().contains(other) == b.committed.dom().contains(other)
            &&& other != (group, topic, partition) && b.committed.dom().contains(other) ==> after[other]
                == b.committed[other]
        }),
{
}

/// A producer that waits for all replicas in sync is told that its message is safe
/// exactly when they have it, and is told so at its offset. Until then it waits, for five
/// seconds at most, and is told so when they are over.
pub proof fn acks_come_with_the_replicas(acknowledged: bool, waited_ms: u64, offset: i64)
    ensures
        acknowledged <==> ack_step(acknowledged, waited_ms, offset) is Done,
        acknowledged ==> ack_step(acknowledged, waited_ms, offset) == AckView::Done(offset),
        !acknowledged && waited_ms < 5_000 ==> ack_step(acknowledged, waited_ms, offset) is Wait,
        !acknowledged && waited_ms >= 5_000 ==> (ack_step(acknowledged, waited_ms, offset) matches AckView::Failed(e) && e
            == ErrorView::Internal("acks=all timeout: replication did not complete within 5 s"@)),
{
}

/// A message is stored by the leader of its partition and by nobody else. Who is not the
/// leader says who is, as far as the leader has registered.
pub proof fn only_the_leader_stores(meta: MetadataView, node: u64, topic: Seq<char>, partition: i32)
    ensures
        ({
            let r = produce_refusal(meta, node, topic, partition);
            let known = meta.partitions.dom().contains((topic, partition));
            let leader = meta.partitions[(topic, partition)].leader;
            &&& r is None <==> is_topic_name(topic) && known && leader == node && node != 0
            &&& !is_topic_name(topic) ==> (r matches Some(e) && e is Validation)
            &&& is_topic_name(topic) && !known ==> (r matches Some(e) && e == ErrorView::NotFound(
                "Unknown partition "@ + topic + "-"@ + decimal_text(partition as int),
            ))
            &&& is_topic_name(topic) && known && leader == 0 ==> (r matches Some(e) && e is Internal)
            &&& is_topic_name(topic) && known && leader != 0 && leader != node && meta.brokers.dom().contains(leader) ==> r
                == Some(ErrorView::NotLeader { leader_addr: Some(meta.brokers[leader].api_addr) })
            &&& is_topic_name(topic) && known && leader != 0 && leader != node && !meta.brokers.dom().contains(leader) ==> r
                == Some(ErrorView::NotLeader { leader_addr: None })
        }),
{
}

/// Storing a message puts one entry behind those that are there. It may be read at once
/// where the leader alone is in sync; otherwise the watermark stays until the replicas
/// have it.
pub proof fn stored_message_waits_for_the_replicas(
    log: LogView,
    isr: Seq<u64>,
    node: u64,
    key: Option<Seq<u8>>,
    value: Seq<u8>,
    now: i64,
)
    requires
        valid_log(log),
        log.leo < i64::MAX,
    ensures
        ({
            let after = log_produced(log, isr, node, key, value, now);
            &&& after.entries.drop_last() == log.entries
            &&& after.entries.len() == log.entries.len() + 1
            &&& after.entries.last().0 == log.leo
            &&& after.leo == log.leo + 1
            &&& isr.len() == 1 && isr[0] == node && log.hw <= log.leo ==> after.hw == after.leo
            &&& !(isr.len() == 1 && isr[0] == node) ==> after.hw == log.hw
        }),
{
    changes_touch_nothing_else(log, key, value, now, (log.leo + 1) as i64, 0, (0, Seq::empty()));
    if isr.len() == 1 && isr[0] == node {
        assert(isr =~= seq![node]);
    }
}

/// Who becomes the leader of a partition has a log for it, the one that is there or a
/// fresh one, and counts the replicas that it was given as in sync.
pub proof fn new_leader_keeps_its_log(b: KRaftView, k: (Seq<char>, i32), isr: Seq<u64>, now: i64, other: (Seq<char>, i32))
    ensures
        ({
            let after = led_from_now(b, k, isr, now);
            &&& after.logs.dom().contains(k)
            &&& b.logs.dom().contains(k) ==> after.logs[k] == b.logs[k]
            &&& !b.logs.dom().contains(k) ==> after.logs[k].entries.len() == 0 && after.logs[k].leo == 0 && after.logs[k].hw
                == 0
            &&& other != k ==> (after.logs.dom().contains(other) <==> b.logs.dom().contains(other))
            &&& other != k && b.logs.dom().contains(other) ==> after.logs[other] == b.logs[other]
            &&& after.isr.partitions.dom().contains(k)
            &&& after.isr.partitions[k].all_replicas == isr
            &&& after.isr.partitions[k].current_isr == isr
            &&& other != k ==> (after.isr.partitions.dom().contains(other) <==> b.isr.partitions.dom().contains(other))
            &&& other != k && b.isr.partitions.dom().contains(other) ==> after.isr.partitions[other]
                == b.isr.partitions[other]
            &&& after.isr.rules == b.isr.rules
            &&& after.committed == b.committed
            &&& after.groups == b.groups
        }),
{
}

/// After a topic was created a broker leads exactly those of its partitions that the
/// metadata gives it, and for those it goes by the replicas in sync that stand there.
pub proof fn broker_leads_what_it_is_given(
    b: KRaftView,
    meta: MetadataView,
    topic: Seq<char>,
    n: i32,
    now: i64,
    k: (Seq<char>, i32),
)
    requires
        n >= 0,
    ensures
        ({
            let after = leads_taken(b, meta, topic, n as int, now);
            let given = k.0 == topic && 0 <= k.1 < n && meta.partitions.dom().contains(k) && meta.partitions[k].leader
                == b.node_id;
            &&& given ==> after.isr.partitions.dom().contains(k) && after.isr.partitions[k].current_isr
                == meta.partitions[k].isr && after.isr.partitions[k].all_replicas == meta.partitions[k].isr
                && after.logs.dom().contains(k)
            &&& !given ==> (after.isr.partitions.dom().contains(k) <==> b.isr.partitions.dom().contains(k))
            &&& !given && b.isr.partitions.dom().contains(k) ==> after.isr.partitions[k] == b.isr.partitions[k]
            &&& !given ==> (after.logs.dom().contains(k) <==> b.logs.dom().contains(k))
            &&& b.logs.dom().contains(k) ==> after.logs[k] == b.logs[k]
            &&& after.groups == b.groups
            &&& after.committed == b.committed
            &&& after.node_id == b.node_id
        }),
    decreases n,
{
    if n > 0 {
        broker_leads_what_it_is_given(b, meta, topic, (n - 1) as i32, now, k);
    }
}

/// A broker opens a log for exactly those partitions of known topics that it leads or
/// copies, besides the logs that it has, which stay as they are. Logs that are opened are
/// empty.
pub proof fn broker_opens_what_it_leads_or_copies(
    logs: Map<(Seq<char>, i32), LogView>,
    meta: MetadataView,
    node: u64,
    k: (Seq<char>, i32),
)
    ensures
        ({
            let after = logs_synced(logs, meta, node);
            let ours = meta.topics.dom().contains(k.0) && 0 <= k.1 < meta.topics[k.0].num_partitions
                && meta.partitions.dom().contains(k) && (meta.partitions[k].leader == node
                || meta.partitions[k].replicas.contains(node));
            &&& after.dom().contains(k) <==> logs.dom().contains(k) || ours
            &&& logs.dom().contains(k) ==> after[k] == logs[k]
            &&& after.dom().contains(k) && !logs.dom().contains(k) ==> after[k].entries.len() == 0 && after[k].leo == 0
                && after[k].hw == 0
        }),
{
}

/// A broker learns every topic of the metadata with its number of partitions, and keeps
/// those that it knows besides.
pub proof fn broker_learns_every_topic(topics: Map<Seq<char>, i32>, meta: MetadataView, t: Seq<char>)
    ensures
        ({
            let after = topics_synced(topics, meta);
            &&& after.dom().contains(t) <==> topics.dom().contains(t) || meta.topics.dom().contains(t)
            &&& meta.topics.dom().contains(t) ==> after[t] == meta.topics[t].num_partitions
            &&& topics.dom().contains(t) && !meta.topics.dom().contains(t) ==> after[t] == topics[t]
        }),
{
}

/// How the partitions of a new topic are put on brokers. Each partition gets as many
/// different registered brokers as wanted, or all where there are fewer. The brokers stand
/// in ascending order, and each partition begins one further, so that leaders and
/// replicas go round. The first replica leads, and all of them count as in sync.
pub proof fn partitions_go_round_the_brokers(
    cmds: Seq<ControllerCommand>,
    topic: Seq<char>,
    n: int,
    ids: Seq<u64>,
    rf: u16,
    brokers: Map<u64, RegistrationView>,
    node: u64,
    p: int,
    i: int,
)
    requires
        is_roster(ids, brokers, node),
        are_topic_commands(cmds, topic, n, ids, rf, true),
        rf > 0,
        0 <= p < n,
    ensures
        cmds.len() == n + 1,
        cmds[0] matches ControllerCommand::CreateTopic { topic: t, num_partitions, replication_factor } && t@ == topic
            && num_partitions == n && replication_factor == rf,
        cmds[p + 1] matches ControllerCommand::PartitionChange { topic: t, partition, leader, isr, replicas } && {
            &&& t@ == topic
            &&& partition == p
            &&& rf <= ids.len() ==> replicas@.len() == rf
            &&& rf > ids.len() ==> replicas@.len() == ids.len()
            &&& replicas@.no_duplicates()
            &&& 0 <= i < replicas@.len() ==> replicas@[i] == ids[(p + i) % (ids.len() as int)]
            &&& 0 <= i < replicas@.len() && !brokers.dom().is_empty() ==> brokers.dom().contains(replicas@[i])
            &&& leader == replicas@[0]
            &&& isr@ == replicas@
        },
        ids.len() > 0,
        brokers.dom().is_empty() ==> ids.len() == 1 && ids[0] == node,
        !brokers.dom().is_empty() ==> ids.len() == brokers.dom().len(),
        forall|a: int, b: int| 0 <= a < b < ids.len() ==> #[trigger] ids[a] < #[trigger] ids[b],
{
    if !brokers.dom().is_empty() {
        ids.unique_seq_to_set();
        if ids.len() == 0 {
            assert(ids.to_set() =~= Set::empty());
            let id = choose|id: u64| brokers.dom().contains(id);
            assert(ids.to_set().contains(id));
        }
        assert forall|a: int, b: int| 0 <= a < b < ids.len() implies #[trigger] ids[a] < #[trigger] ids[b] by {
            assert(id_order()(ids[a], ids[b]));
            assert(ids[a] != ids[b]);
        }
    }
    replicas_are_distinct(ids, rf, p);
    assert(is_planned(cmds[p + 1], topic, ids, rf, p));
    let len = ids.len() as int;
    let r = planned_replicas(ids, rf, p);
    if 0 <= i < r.len() {
        vstd::arithmetic::div_mod::lemma_add_mod_noop(p, i, len);
        vstd::arithmetic::div_mod::lemma_mod_bound(p, len);
        vstd::arithmetic::div_mod::lemma_small_mod(i as nat, len as nat);
        assert(r[i] == ids[(p + i) % len]);
        assert(ids.contains(r[i]));
        if !brokers.dom().is_empty() {
            assert(ids.to_set().contains(r[i]));
        }
    }
}

/// Who is not the controller creates the topic, and leaves its partitions to the
/// controller.
pub proof fn others_leave_placing_to_the_controller(
    cmds: Seq<ControllerCommand>,
    topic: Seq<char>,
    n: int,
    ids: Seq<u64>,
    rf: u16,
)
    requires
        are_topic_commands(cmds, topic, n, ids, rf, false),
    ensures
        cmds.len() == 1,
        cmds[0] matches ControllerCommand::CreateTopic { topic: t, num_partitions, replication_factor } && t@ == topic
            && num_partitions == n && replication_factor == rf,
{
}

/// Clients are shown every registered broker once, under the address that it registered
/// for them.
pub proof fn clients_see_every_broker(brokers: Map<u64, RegistrationView>, order: Seq<u64>, id: u64) -> (i: int)
    requires
        order.to_set() == brokers.dom(),
        order.no_duplicates(),
        brokers.dom().contains(id),
    ensures
        0 <= i < order.map_values(shown_broker(brokers)).len(),
        order.map_values(shown_broker(brokers)).len() == brokers.dom().len(),
        order.map_values(shown_broker(brokers))[i].node_id == brokers[id].broker_id,
        order.map_values(shown_broker(brokers))[i].api_addr == brokers[id].api_addr,
{
    order.unique_seq_to_set();
    assert(order.to_set().contains(id));
    choose|i: int| 0 <= i < order.len() && order[i] == id
}

} // verus!
