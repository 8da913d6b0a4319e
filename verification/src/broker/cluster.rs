//! How a broker of a cluster starts, watches the others, and joins.
use vstd::prelude::*;
use vstd::string::StringExecFns;

use crate::broker::config::{BrokerConfig, ClusterMember};
use crate::broker::controller::state_machine::{
    alive_without, compute_failover_assignments, failover, is_failover, led_by,
};
use crate::broker::controller::types::{copy_ids, ControllerCommand, ControllerMetadata, MetadataView, RegistrationView};
use crate::broker::kraft::isr_manager::{ChangeView, IsrChange};
use crate::broker::raft_network::{PeerInfo, PeerView};
use crate::ids::{ascending_same_ids, different_ids_rise, sort_ids};
use crate::maps::{Dup, VecMap};
use crate::seqs::{lemma_filter_ends, lemma_filter_holds, lemma_filter_step};
use crate::text::{contains_text, has_text};

verus! {

/// How far a replica may be behind before it is not in sync any longer.
pub const ISR_LAG_MAX: i64 = 1000;

/// After how many milliseconds of silence a broker counts as dead.
pub const BROKER_DEAD_MS: u64 = 15_000;

/// How often a broker tries to join a cluster.
pub const MAX_JOIN_ATTEMPTS: u32 = 10;

/// The addresses of a member of the cluster.
pub open spec fn peer_of(m: ClusterMember) -> PeerView {
    PeerView {
        rpc_addr: "http://"@ + m.rpc_addr@,
        api_addr: m.api_addr@,
        sbe_tcp_addr: m.sbe_tcp_addr.deep_view(),
    }
}

/// The peers that members make up; of two with one id the later one counts.
pub open spec fn peers_of(members: Seq<ClusterMember>) -> Map<u64, PeerView>
    decreases members.len(),
{
    if members.len() == 0 {
        Map::empty()
    } else {
        peers_of(members.drop_last()).insert(members.last().node_id, peer_of(members.last()))
    }
}

/// The peers that a broker starts with: none where it joins a cluster or stands alone,
/// else the members in its configuration.
pub open spec fn first_peers(config: BrokerConfig) -> Map<u64, PeerView> {
    match config.cluster {
        Some(c) if config.join_addr is None => peers_of(c.initial_members@),
        _ => Map::empty(),
    }
}

/// The peers that a broker starts with.
pub fn initial_peers(config: &BrokerConfig) -> (r: VecMap<u64, PeerInfo>)
    ensures
        r@ == first_peers(*config),
{
    let mut r: VecMap<u64, PeerInfo> = VecMap::new();
    if config.join_addr.is_some() {
        return r;
    }
    if let Some(cluster) = &config.cluster {
        let members = &cluster.initial_members;
        let mut i: usize = 0;
        assert(members@.take(0) =~= Seq::empty());
        while i < members.len()
            invariant
                i <= members@.len(),
                r@ == peers_of(members@.take(i as int)),
            decreases members@.len() - i,
        {
            let m = &members[i];
            let mut rpc_addr = "http://".to_owned();
            rpc_addr.append(m.rpc_addr.as_str());
            r.insert(
                m.node_id,
                PeerInfo { rpc_addr, api_addr: m.api_addr.dup(), sbe_tcp_addr: m.sbe_tcp_addr.dup() },
            );
            proof {
                assert(members@.take(i + 1).drop_last() =~= members@.take(i as int));
                assert(members@.take(i + 1).last() == members@[i as int]);
            }
            i += 1;
        }
        assert(members@.take(i as int) =~= members@);
    }
    r
}

/// The brokers that vote at the start: nobody where a broker joins a cluster, which
/// tells it; else the members in its configuration; else the broker alone.
pub open spec fn first_voters(config: BrokerConfig) -> Set<u64> {
    if config.join_addr is Some {
        Set::empty()
    } else if first_peers(config).dom() == Set::<u64>::empty() {
        set![config.node_id]
    } else {
        first_peers(config).dom()
    }
}

/// The brokers that vote at the start, each once and in the order of their ids.
pub fn initial_voters(config: &BrokerConfig) -> (r: Vec<u64>)
    ensures
        r@.to_set() == first_voters(*config),
        forall|i: int, j: int| 0 <= i < j < r@.len() ==> #[trigger] r@[i] < #[trigger] r@[j],
{
    if config.join_addr.is_some() {
        let r: Vec<u64> = Vec::new();
        assert(r@.to_set() =~= Set::empty());
        return r;
    }
    let ids = initial_peers(config).keys();
    assert(ids.deep_view() =~= ids@);
    if ids.len() == 0 {
        assert(ids@.to_set() =~= Set::empty());
        let r = vec![config.node_id];
        assert(r@.to_set() =~= set![config.node_id]) by {
            assert(r@[0] == config.node_id);
        }
        return r;
    }
    assert(ids@.to_set().contains(ids@[0]));
    let r = sort_ids(&ids);
    proof {
        different_ids_rise(ids@);
        assert forall|id: u64| r@.contains(id) == ids@.contains(id) by {
            ascending_same_ids(ids@, id);
        }
        assert(r@.to_set() =~= ids@.to_set());
    }
    r
}

/// Where the partition logs are kept, beside the controller's own state.
pub fn data_path(config: &BrokerConfig) -> (r: String)
    ensures
        r@ == config.storage_path@ + "-kraft-data"@,
{
    let mut r = config.storage_path.dup();
    r.append("-kraft-data");
    r
}

/// The command that makes a change of replicas in sync known.
pub open spec fn is_isr_proposal(cmd: ControllerCommand, meta: MetadataView, node: u64, c: ChangeView) -> bool {
    cmd matches ControllerCommand::PartitionChange { topic, partition, leader, isr, replicas } && {
        &&& topic@ == c.topic
        &&& partition == c.partition
        &&& leader == node
        &&& isr@ == c.new_isr
        &&& replicas@ == (if meta.partitions.dom().contains((c.topic, c.partition)) {
            meta.partitions[(c.topic, c.partition)].replicas
        } else {
            Seq::empty()
        })
    }
}

/// What the leader of partitions proposes after their replicas were looked at.
pub fn isr_proposals(meta: &ControllerMetadata, node_id: u64, changes: Vec<IsrChange>) -> (r: Vec<ControllerCommand>)
    ensures
        r@.len() == changes@.len(),
        forall|i: int| 0 <= i < r@.len() ==> is_isr_proposal(#[trigger] r@[i], meta@, node_id, changes@[i].deep_view()),
{
    let mut r: Vec<ControllerCommand> = Vec::new();
    for change in it: changes
        invariant
            it.seq() == changes@,
            r@.len() == it.index(),
            forall|i: int|
                0 <= i < r@.len() ==> is_isr_proposal(#[trigger] r@[i], meta@, node_id, changes@[i].deep_view()),
    {
        let k = (change.topic, change.partition);
        let replicas = match meta.partitions.get(&k) {
            Some(p) => copy_ids(&p.replicas),
            None => Vec::new(),
        };
        r.push(
            ControllerCommand::PartitionChange {
                topic: k.0,
                partition: k.1,
                leader: node_id,
                isr: change.new_isr,
                replicas,
            },
        );
    }
    r
}

/// Whether a refused heartbeat is nothing to worry about: another broker leads.
pub fn is_expected_refusal(message: &str) -> (b: bool)
    ensures
        b == has_text(message@, "NOT_LEADER"@),
{
    contains_text(message, "NOT_LEADER")
}

/// A broker counts as dead: it was heard of, but not for a long time.
pub open spec fn is_dead(b: RegistrationView, now: u64) -> bool {
    b.last_seen_ms > 0 && now - b.last_seen_ms > BROKER_DEAD_MS
}

/// The ids of the brokers that count as dead.
pub open spec fn dead_ids(brokers: Map<u64, RegistrationView>, now: u64) -> spec_fn(u64) -> bool {
    |id: u64| is_dead(brokers[id], now)
}

/// The command that declares a broker dead and hands its partitions on.
pub open spec fn is_burial(cmd: ControllerCommand, meta: MetadataView, id: u64) -> bool {
    cmd matches ControllerCommand::MarkBrokerDead { broker_id, new_assignments } && broker_id == id && is_failover(
        meta,
        id,
        new_assignments.deep_view(),
    )
}

/// What the controller proposes about brokers that have fallen silent; any other broker
/// proposes nothing.
pub fn failure_proposals(meta: &ControllerMetadata, is_controller: bool, now: u64) -> (r: Vec<ControllerCommand>)
    ensures
        !is_controller ==> r@.len() == 0,
        is_controller ==> {
            let dead = meta.brokers.order().filter(dead_ids(meta@.brokers, now));
            &&& r@.len() == dead.len()
            &&& forall|i: int| 0 <= i < r@.len() ==> is_burial(#[trigger] r@[i], meta@, dead[i])
        },
        is_controller ==> forall|id: u64| #[trigger]
            meta@.brokers.dom().contains(id) ==> (meta@.brokers[id].last_seen_ms > 0 && now > meta@.brokers[id].last_seen_ms
                + 15_000 <==> exists|i: int| 0 <= i < r@.len() && is_burial(#[trigger] r@[i], meta@, id)),
{
    let mut r: Vec<ControllerCommand> = Vec::new();
    if !is_controller {
        return r;
    }
    let n = meta.brokers.len();
    let ghost order = meta.brokers.order();
    let ghost p = dead_ids(meta@.brokers, now);
    let mut i: usize = 0;
    proof {
        lemma_filter_ends(order, p);
    }
    while i < n
        invariant
            i <= n,
            n == order.len(),
            order == meta.brokers.order(),
            p == dead_ids(meta@.brokers, now),
            r@.len() == order.take(i as int).filter(p).len(),
            forall|j: int| 0 <= j < r@.len() ==> is_burial(#[trigger] r@[j], meta@, order.take(i as int).filter(p)[j]),
        decreases n - i,
    {
        proof {
            lemma_filter_step(order, p, i as int);
        }
        let id = *meta.brokers.key_at(i);
        let b = meta.brokers.value_at(i);
        if b.last_seen_ms != 0 && now >= b.last_seen_ms && now - b.last_seen_ms > BROKER_DEAD_MS {
            let new_assignments = compute_failover_assignments(meta, id);
            r.push(ControllerCommand::MarkBrokerDead { broker_id: id, new_assignments });
        }
        i += 1;
    }
    assert(order.take(i as int) =~= order);
    proof {
        let dead = order.filter(p);
        assert forall|id: u64| #[trigger] meta@.brokers.dom().contains(id) implies (meta@.brokers[id].last_seen_ms > 0 && now
            > meta@.brokers[id].last_seen_ms + 15_000 <==> exists|i: int|
            0 <= i < r@.len() && is_burial(#[trigger] r@[i], meta@, id)) by {
            all_silent_brokers_are_found(order, meta@.brokers, now, id);
            if dead.contains(id) {
                let i = choose|i: int| 0 <= i < dead.len() && dead[i] == id;
                assert(is_burial(r@[i], meta@, id));
            }
            if exists|i: int| 0 <= i < r@.len() && is_burial(#[trigger] r@[i], meta@, id) {
                let i = choose|i: int| 0 <= i < r@.len() && is_burial(#[trigger] r@[i], meta@, id);
                assert(is_burial(r@[i], meta@, dead[i]));
                assert(dead.contains(dead[i]));
            }
        }
    }
    r
}

/// What came of asking a broker to be let in.
pub enum JoinEvent {
    /// The broker could not be reached, or the call failed.
    Failed,
    /// The broker answered.
    Answered { error_code: i32, error_message: String },
}

/// Where a broker stands that wants to join.
pub enum JoinStep {
    /// It has joined.
    Joined,
    /// Ask this broker, after waiting for this many milliseconds; this is the attempt.
    Ask { target: String, attempt: u32, wait_ms: u64 },
    /// It has asked often enough.
    GaveUp,
}

/// The first step of a broker that wants to join.
pub fn begin_join(join_addr: &String) -> (r: JoinStep)
    ensures
        r matches JoinStep::Ask { target, attempt, wait_ms } && target@ == join_addr@ && attempt == 1 && wait_ms == 500,
{
    JoinStep::Ask { target: join_addr.dup(), attempt: 1, wait_ms: 500 }
}

/// The next step of a broker that wants to join. A broker that names the controller is
/// not asked again, and no time is lost; otherwise there is a pause.
pub fn next_join(target: String, attempt: u32, event: JoinEvent) -> (r: JoinStep)
    requires
        1 <= attempt <= MAX_JOIN_ATTEMPTS,
    ensures
        match event {
            JoinEvent::Answered { error_code, error_message } => {
                &&& error_code == 0 ==> r is Joined
                &&& error_code != 0 && attempt == MAX_JOIN_ATTEMPTS ==> r is GaveUp
                &&& error_code == 6 && error_message@.len() > 0 && attempt < MAX_JOIN_ATTEMPTS ==> (
                r matches JoinStep::Ask { target: t, attempt: a, wait_ms } && t@ == error_message@ && a == attempt + 1
                    && wait_ms == 0)
                &&& error_code != 0 && !(error_code == 6 && error_message@.len() > 0) && attempt < MAX_JOIN_ATTEMPTS ==> (
                r matches JoinStep::Ask { target: t, attempt: a, wait_ms } && t@ == target@ && a == attempt + 1
                    && wait_ms == 2000)
            },
            JoinEvent::Failed => if attempt == MAX_JOIN_ATTEMPTS {
                r is GaveUp
            } else {
                r matches JoinStep::Ask { target: t, attempt: a, wait_ms } && t@ == target@ && a == attempt + 1
                    && wait_ms == 2000
            },
        },
{
    let mut next = target;
    let mut wait_ms: u64 = 2000;
    if let JoinEvent::Answered { error_code, error_message } = event {
        if error_code == 0 {
            return JoinStep::Joined;
        }
        if error_code == 6 && !error_message.as_str().is_empty() {
            next = error_message;
            wait_ms = 0;
        }
    }
    if attempt == MAX_JOIN_ATTEMPTS {
        JoinStep::GaveUp
    } else {
        JoinStep::Ask { target: next, attempt: attempt + 1, wait_ms }
    }
}

/// A broker that was never heard of is not taken for dead, at whatever time it is asked.
pub proof fn silent_start_is_no_death(b: RegistrationView, now: u64)
    requires
        b.last_seen_ms == 0,
    ensures
        !is_dead(b, now),
{
}

/// A broker is found dead exactly if it was heard of and has been silent for more than
/// fifteen seconds since.
pub proof fn death_is_fifteen_seconds_of_silence(b: RegistrationView, now: u64)
    ensures
        is_dead(b, now) <==> b.last_seen_ms > 0 && now > b.last_seen_ms + 15_000,
{
}

/// The brokers that are declared dead are all that have been silent for more than fifteen
/// seconds since they were last heard of, and no others, each once.
pub proof fn all_silent_brokers_are_found(order: Seq<u64>, brokers: Map<u64, RegistrationView>, now: u64, id: u64)
    requires
        order.no_duplicates(),
        order.to_set() == brokers.dom(),
    ensures
        order.filter(dead_ids(brokers, now)).contains(id) <==> brokers.dom().contains(id) && brokers[id].last_seen_ms > 0
            && now > brokers[id].last_seen_ms + 15_000,
        order.filter(dead_ids(brokers, now)).no_duplicates(),
{
    lemma_filter_holds(order, dead_ids(brokers, now));
    assert(order.to_set().contains(id) == order.contains(id));
}

/// What declares a broker dead names that broker, and hands on exactly the partitions
/// that it led: to a replica in sync that is registered and is another broker, or to
/// nobody where there is none. The replicas stay, and in sync are those that were and
/// are registered still.
pub proof fn burial_hands_partitions_on(cmd: ControllerCommand, meta: MetadataView, id: u64, k: (Seq<char>, i32))
    requires
        is_burial(cmd, meta, id),
    ensures
        cmd is MarkBrokerDead,
        cmd->MarkBrokerDead_broker_id == id,
        ({
            let r = cmd->new_assignments.deep_view();
            let named = |i: int| 0 <= i < r.len() && r[i].topic == k.0 && r[i].partition == k.1;
            &&& (exists|i: int| #[trigger] named(i)) <==> meta.partitions.dom().contains(k) && meta.partitions[k].leader == id
            &&& forall|i: int, j: int| #[trigger] named(i) && #[trigger] named(j) ==> i == j
            &&& forall|i: int| #[trigger]
                named(i) ==> {
                    let heir = r[i].new_leader;
                    let alive = |x: u64| meta.partitions[k].isr.contains(x) && x != id && meta.brokers.dom().contains(x);
                    &&& r[i].replicas == meta.partitions[k].replicas
                    &&& forall|x: u64| #[trigger] r[i].new_isr.contains(x) <==> alive(x)
                    &&& r[i].new_isr.len() > 0 ==> heir == r[i].new_isr[0] && alive(heir)
                    &&& r[i].new_isr.len() == 0 ==> heir == 0
                }
        }),
{
    let r = cmd->new_assignments.deep_view();
    let named = |i: int| 0 <= i < r.len() && r[i].topic == k.0 && r[i].partition == k.1;
    if led_by(meta, id, k) {
        let i = choose|i: int| 0 <= i < r.len() && (#[trigger] r[i]).topic == k.0 && r[i].partition == k.1;
        assert(named(i));
    }
    assert forall|i: int| #[trigger] named(i) implies led_by(meta, id, k) && r[i] == failover(meta, id, k) by {
        assert(led_by(meta, id, (r[i].topic, r[i].partition)));
    }
    if exists|i: int| #[trigger] named(i) {
        let i = choose|i: int| #[trigger] named(i);
        assert(led_by(meta, id, k));
    }
    let isr = meta.partitions[k].isr;
    lemma_filter_holds(isr, alive_without(meta, id));
    assert forall|i: int| #[trigger] named(i) implies ({
        let heir = r[i].new_leader;
        let alive = |x: u64| meta.partitions[k].isr.contains(x) && x != id && meta.brokers.dom().contains(x);
        &&& r[i].replicas == meta.partitions[k].replicas
        &&& forall|x: u64| #[trigger] r[i].new_isr.contains(x) <==> alive(x)
        &&& r[i].new_isr.len() > 0 ==> heir == r[i].new_isr[0] && alive(heir)
        &&& r[i].new_isr.len() == 0 ==> heir == 0
    }) by {
        assert(r[i].new_isr == isr.filter(alive_without(meta, id)));
        if r[i].new_isr.len() > 0 {
            assert(r[i].new_isr.contains(r[i].new_isr[0]));
        }
    }
}

/// A change of the replicas in sync is made known as it was found: the broker stays the
/// leader, and the partition keeps its replicas.
pub proof fn isr_proposal_keeps_replicas(cmd: ControllerCommand, meta: MetadataView, node: u64, c: ChangeView)
    requires
        is_isr_proposal(cmd, meta, node, c),
    ensures
        cmd is PartitionChange,
        cmd->PartitionChange_topic@ == c.topic,
        cmd->PartitionChange_partition == c.partition,
        cmd->leader == node,
        cmd->isr@ == c.new_isr,
        meta.partitions.dom().contains((c.topic, c.partition)) ==> cmd->PartitionChange_replicas@ == meta.partitions[(
            c.topic,
            c.partition,
        )].replicas,
{
}

/// A broker knows every member of its cluster at the start by the addresses that stand in
/// its configuration, and nobody else; one that joins a cluster or stands alone knows
/// nobody.
pub proof fn first_peers_are_the_members(config: BrokerConfig, id: u64)
    ensures
        config.join_addr is Some || config.cluster is None ==> first_peers(config).dom() == Set::<u64>::empty(),
        config.join_addr is None && config.cluster is Some ==> {
            let members = config.cluster->0.initial_members@;
            &&& first_peers(config).dom().contains(id) <==> exists|i: int|
                0 <= i < members.len() && (#[trigger] members[i]).node_id == id
            &&& first_peers(config).dom().contains(id) ==> exists|i: int|
                0 <= i < members.len() && (#[trigger] members[i]).node_id == id && first_peers(config)[id].api_addr
                    == members[i].api_addr@ && first_peers(config)[id].rpc_addr == "http://"@ + members[i].rpc_addr@
                    && first_peers(config)[id].sbe_tcp_addr == members[i].sbe_tcp_addr.deep_view()
        },
{
    assert(Map::<u64, PeerView>::empty().dom() =~= Set::empty());
    if config.join_addr is None && config.cluster is Some {
        lemma_peers_of(config.cluster->0.initial_members@, id);
    }
}

proof fn lemma_peers_of(members: Seq<ClusterMember>, id: u64)
    ensures
        peers_of(members).dom().contains(id) <==> exists|i: int|
            0 <= i < members.len() && (#[trigger] members[i]).node_id == id,
        peers_of(members).dom().contains(id) ==> exists|i: int|
            0 <= i < members.len() && (#[trigger] members[i]).node_id == id && peers_of(members)[id] == peer_of(members[i]),
    decreases members.len(),
{
    if members.len() > 0 {
        let front = members.drop_last();
        lemma_peers_of(front, id);
        if members.last().node_id == id {
            assert(members[members.len() - 1].node_id == id);
        } else if peers_of(front).dom().contains(id) {
            let i = choose|i: int|
                0 <= i < front.len() && (#[trigger] front[i]).node_id == id && peers_of(front)[id] == peer_of(front[i]);
            assert(members[i] == front[i]);
        }
        if exists|i: int| 0 <= i < members.len() && (#[trigger] members[i]).node_id == id {
            let i = choose|i: int| 0 <= i < members.len() && (#[trigger] members[i]).node_id == id;
            if i < front.len() {
                assert(front[i].node_id == id);
            }
        }
    }
}

/// Who votes at the start: nobody of a broker that joins a cluster; else every member of
/// the configuration, and the broker alone where there is none.
pub proof fn first_voters_are_the_members(config: BrokerConfig, id: u64)
    ensures
        config.join_addr is Some ==> !first_voters(config).contains(id),
        config.join_addr is None && (config.cluster is None || config.cluster->0.initial_members@.len() == 0) ==> (
        first_voters(config).contains(id) <==> id == config.node_id),
        config.join_addr is None && config.cluster is Some && config.cluster->0.initial_members@.len() > 0 ==> (
        first_voters(config).contains(id) <==> exists|i: int|
            0 <= i < config.cluster->0.initial_members@.len() && (#[trigger] config.cluster->0.initial_members@[i]).node_id == id),
{
    first_peers_are_the_members(config, id);
    if config.join_addr is None && config.cluster is Some {
        let members = config.cluster->0.initial_members@;
        if members.len() > 0 {
            first_peers_are_the_members(config, members[0].node_id);
            assert(members[0].node_id == members[0].node_id);
            assert(first_peers(config).dom().contains(members[0].node_id));
        }
    }
}

proof fn lemma_last_peer_counts(members: Seq<ClusterMember>, i: int)
    requires
        0 <= i < members.len(),
        forall|j: int| i < j < members.len() ==> (#[trigger] members[j]).node_id != members[i].node_id,
    ensures
        peers_of(members).dom().contains(members[i].node_id),
        peers_of(members)[members[i].node_id] == peer_of(members[i]),
    decreases members.len(),
{
    if i < members.len() - 1 {
        let front = members.drop_last();
        assert(members[members.len() - 1].node_id != members[i].node_id);
        assert forall|j: int| i < j < front.len() implies (#[trigger] front[j]).node_id != front[i].node_id by {
            assert(members[j].node_id != members[i].node_id);
        }
        lemma_last_peer_counts(front, i);
    }
}

/// Of two entries with one id the later one counts.
pub proof fn later_entry_of_a_member_counts(config: BrokerConfig, i: int)
    requires
        config.join_addr is None,
        config.cluster is Some,
        0 <= i < config.cluster->0.initial_members@.len(),
        forall|j: int|
            i < j < config.cluster->0.initial_members@.len() ==> (#[trigger] config.cluster->0.initial_members@[j]).node_id
                != config.cluster->0.initial_members@[i].node_id,
    ensures
        ({
            let m = config.cluster->0.initial_members@[i];
            let peers = first_peers(config);
            &&& peers.dom().contains(m.node_id)
            &&& peers[m.node_id].api_addr == m.api_addr@
            &&& peers[m.node_id].rpc_addr == "http://"@ + m.rpc_addr@
            &&& peers[m.node_id].sbe_tcp_addr == m.sbe_tcp_addr.deep_view()
        }),
{
    lemma_last_peer_counts(config.cluster->0.initial_members@, i);
}

} // verus!
