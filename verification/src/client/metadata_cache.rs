//! Which broker leads which partition, as far as a client has learned.
use vstd::prelude::*;
use vstd::string::StringExecFns;

use crate::api::broker::{
    MetadataBroker, PartitionMetadata, TopicMetadata, TopicMetadataRequest, TopicMetadataResponse,
};
use crate::maps::{Dup, VecMap};
use crate::seqs::lemma_next_element;
use crate::text::{decimal, decimal_text, has_prefix, strip_prefix};

verus! {

/// An address without its scheme.
pub open spec fn bare(addr: Seq<char>) -> Seq<char> {
    if has_prefix(addr, "http://"@) {
        addr.skip("http://"@.len() as int)
    } else {
        addr
    }
}

/// An address without its scheme.
pub fn strip_scheme(addr: &String) -> (r: String)
    ensures
        r@ == bare(addr@),
{
    match strip_prefix(addr.as_str(), "http://") {
        Some(rest) => rest,
        None => addr.dup(),
    }
}

/// The leaders that a client has learned.
pub struct MetadataCache {
    bootstrap_addr: String,
    leaders: VecMap<(String, i32), String>,
}

/// The address of a broker; of two with the same number the later counts.
pub open spec fn broker_addr(brokers: Seq<MetadataBroker>, node_id: i32) -> Option<Seq<char>>
    decreases brokers.len(),
{
    if brokers.len() == 0 {
        None
    } else if brokers.last().node_id == node_id {
        Some(brokers.last().host@ + ":"@ + decimal_text(brokers.last().port as int))
    } else {
        broker_addr(brokers.drop_last(), node_id)
    }
}

/// What is known after partitions of a topic were described. One without a leader, or
/// with a leader that nobody knows, teaches nothing.
pub open spec fn learned_partitions(
    known: Map<(Seq<char>, i32), Seq<char>>,
    brokers: Seq<MetadataBroker>,
    topic: Seq<char>,
    parts: Seq<PartitionMetadata>,
) -> Map<(Seq<char>, i32), Seq<char>>
    decreases parts.len(),
{
    if parts.len() == 0 {
        known
    } else {
        let before = learned_partitions(known, brokers, topic, parts.drop_last());
        let p = parts.last();
        match broker_addr(brokers, p.leader) {
            Some(addr) if p.partition_error_code == 0 => before.insert((topic, p.partition_id), addr),
            _ => before,
        }
    }
}

/// What is known after topics were described.
pub open spec fn learned(
    known: Map<(Seq<char>, i32), Seq<char>>,
    brokers: Seq<MetadataBroker>,
    topics: Seq<TopicMetadata>,
) -> Map<(Seq<char>, i32), Seq<char>>
    decreases topics.len(),
{
    if topics.len() == 0 {
        known
    } else {
        let before = learned(known, brokers, topics.drop_last());
        let t = topics.last();
        if t.topic_error_code == 0 {
            learned_partitions(before, brokers, t.topic_name@, t.partitions@)
        } else {
            before
        }
    }
}

/// The partitions among these that a broker leads, in their order.
pub open spec fn led_by(
    known: Map<(Seq<char>, i32), Seq<char>>,
    topic: Seq<char>,
    partitions: Seq<i32>,
    addr: Seq<char>,
) -> Seq<i32>
    decreases partitions.len(),
{
    if partitions.len() == 0 {
        Seq::empty()
    } else {
        let before = led_by(known, topic, partitions.drop_last(), addr);
        if known[(topic, partitions.last())] == addr {
            before.push(partitions.last())
        } else {
            before
        }
    }
}

/// The leaders of all the partitions are known.
pub open spec fn all_known(known: Map<(Seq<char>, i32), Seq<char>>, topic: Seq<char>, partitions: Seq<i32>) -> bool {
    forall|i: int| 0 <= i < partitions.len() ==> known.dom().contains((topic, #[trigger] partitions[i]))
}

/// The brokers that lead any of the partitions, each with those that it leads.
pub open spec fn are_routes(
    routes: Map<Seq<char>, Seq<i32>>,
    known: Map<(Seq<char>, i32), Seq<char>>,
    topic: Seq<char>,
    partitions: Seq<i32>,
) -> bool {
    forall|a: Seq<char>|
        #![trigger routes.dom().contains(a)]
        (routes.dom().contains(a) <==> led_by(known, topic, partitions, a).len() > 0) && (routes.dom().contains(a)
            ==> routes[a] == led_by(known, topic, partitions, a))
}

/// How a partition without a known leader is reported.
pub open spec fn no_leader(topic: Seq<char>, partition: i32) -> Seq<char> {
    "No leader found for "@ + topic + "-"@ + decimal_text(partition as int) + " even after metadata refresh"@
}

fn find_broker(brokers: &Vec<MetadataBroker>, node_id: i32) -> (r: Option<String>)
    ensures
        r.deep_view() == broker_addr(brokers@, node_id),
{
    let mut r: Option<String> = None;
    let mut i: usize = 0;
    assert(brokers@.take(0) =~= Seq::empty());
    while i < brokers.len()
        invariant
            i <= brokers@.len(),
            r.deep_view() == broker_addr(brokers@.take(i as int), node_id),
        decreases brokers@.len() - i,
    {
        proof {
            assert(brokers@.take(i + 1).drop_last() =~= brokers@.take(i as int));
            assert(brokers@.take(i + 1).last() == brokers@[i as int]);
        }
        if brokers[i].node_id == node_id {
            let mut addr = brokers[i].host.dup();
            addr.append(":");
            addr.append(decimal(brokers[i].port as i64).as_str());
            r = Some(addr);
        }
        i += 1;
    }
    assert(brokers@.take(i as int) =~= brokers@);
    r
}

impl MetadataCache {
    /// The leaders by topic and partition.
    pub closed spec fn view(&self) -> Map<(Seq<char>, i32), Seq<char>> {
        self.leaders@
    }

    /// The address of the broker that is asked.
    pub closed spec fn bootstrap(&self) -> Seq<char> {
        self.bootstrap_addr@
    }

    /// A client that has learned nothing.
    pub fn new(bootstrap_addr: &String) -> (r: Self)
        ensures
            r@ == Map::<(Seq<char>, i32), Seq<char>>::empty(),
            r.bootstrap() == bare(bootstrap_addr@),
    {
        MetadataCache { bootstrap_addr: strip_scheme(bootstrap_addr), leaders: VecMap::new() }
    }

    /// The address of the broker that is asked.
    pub fn bootstrap_addr(&self) -> (r: &String)
        ensures
            r@ == self.bootstrap(),
    {
        &self.bootstrap_addr
    }

    /// The known leader of a partition.
    pub fn get_leader(&self, topic: &String, partition: i32) -> (r: Option<&String>)
        ensures
            match r {
                Some(a) => self@.dom().contains((topic@, partition)) && a@ == self@[(topic@, partition)],
                None => !self@.dom().contains((topic@, partition)),
            },
    {
        let key = (topic.dup(), partition);
        self.leaders.get(&key)
    }

    /// Forgets the leaders of a topic.
    pub fn invalidate_topic(&mut self, topic: &String)
        ensures
            final(self).bootstrap() == old(self).bootstrap(),
            forall|t: Seq<char>, p: i32|
                #![trigger final(self)@.dom().contains((t, p))]
                final(self)@.dom().contains((t, p)) <==> old(self)@.dom().contains((t, p)) && t != topic@,
            forall|t: Seq<char>, p: i32|
                #![trigger final(self)@[(t, p)]]
                final(self)@.dom().contains((t, p)) ==> final(self)@[(t, p)] == old(self)@[(t, p)],
    {
        let keys = self.leaders.keys();
        let ghost order = keys.deep_view();
        let ghost start = self.leaders@;
        assert(order.len() == keys@.len());
        let mut i: usize = 0;
        assert(start =~= without_topic(start, order.take(0).to_set(), topic@));
        while i < keys.len()
            invariant
                i <= keys@.len(),
                order == keys.deep_view(),
                order.len() == keys@.len(),
                order.no_duplicates(),
                order.to_set() == start.dom(),
                self.bootstrap_addr == old(self).bootstrap_addr,
                self.leaders@ == without_topic(start, order.take(i as int).to_set(), topic@),
            decreases keys@.len() - i,
        {
            proof {
                lemma_next_element(order, i as int);
                assert(keys@[i as int].deep_view() == order[i as int]);
            }
            if keys[i].0 == *topic {
                let _ = self.leaders.remove(&keys[i]);
            }
            assert(self.leaders@ =~= without_topic(start, order.take(i + 1).to_set(), topic@));
            i += 1;
        }
        proof {
            assert(order.take(i as int) =~= order);
            assert forall|t: Seq<char>, p: i32|
                #![trigger self@.dom().contains((t, p))]
                self@.dom().contains((t, p)) <==> old(self)@.dom().contains((t, p)) && t != topic@ by {
                if start.dom().contains((t, p)) {
                    assert(order.to_set().contains((t, p)));
                }
            }
        }
    }

    /// The request for what there is to know about a topic.
    pub fn metadata_request(topic: &String) -> (r: TopicMetadataRequest)
        ensures
            r.topics@.len() == 1,
            r.topics@[0]@ == topic@,
    {
        let mut topics: Vec<String> = Vec::new();
        topics.push(topic.dup());
        TopicMetadataRequest { topics }
    }

    /// Learns from an answer.
    pub fn refresh(&mut self, response: &TopicMetadataResponse)
        ensures
            final(self).bootstrap() == old(self).bootstrap(),
            final(self)@ == learned(old(self)@, response.brokers@, response.topics@),
    {
        let ghost start = self@;
        let ghost brokers = response.brokers@;
        let ghost topics = response.topics@;
        let mut i: usize = 0;
        assert(topics.take(0) =~= Seq::empty());
        while i < response.topics.len()
            invariant
                i <= topics.len(),
                topics == response.topics@,
                brokers == response.brokers@,
                self.bootstrap_addr == old(self).bootstrap_addr,
                self@ == learned(start, brokers, topics.take(i as int)),
            decreases topics.len() - i,
        {
            let topic = &response.topics[i];
            proof {
                assert(topics.take(i + 1).drop_last() =~= topics.take(i as int));
                assert(topics.take(i + 1).last() == *topic);
            }
            if topic.topic_error_code == 0 {
                let ghost before = self@;
                let ghost parts = topic.partitions@;
                let mut j: usize = 0;
                assert(parts.take(0) =~= Seq::empty());
                while j < topic.partitions.len()
                    invariant
                        j <= parts.len(),
                        parts == topic.partitions@,
                        brokers == response.brokers@,
                        self.bootstrap_addr == old(self).bootstrap_addr,
                        self@ == learned_partitions(before, brokers, topic.topic_name@, parts.take(j as int)),
                    decreases parts.len() - j,
                {
                    proof {
                        assert(parts.take(j + 1).drop_last() =~= parts.take(j as int));
                        assert(parts.take(j + 1).last() == parts[j as int]);
                    }
                    let part = &topic.partitions[j];
                    if part.partition_error_code == 0 {
                        if let Some(addr) = find_broker(&response.brokers, part.leader) {
                            self.leaders.insert((topic.topic_name.dup(), part.partition_id), addr);
                        }
                    }
                    j += 1;
                }
                assert(parts.take(j as int) =~= parts);
            }
            i += 1;
        }
        assert(topics.take(i as int) =~= topics);
    }

    /// The leader of any of the partitions is not known.
    pub fn needs_refresh(&self, topic: &String, partitions: &Vec<i32>) -> (b: bool)
        ensures
            b == !all_known(self@, topic@, partitions@),
    {
        let mut i: usize = 0;
        while i < partitions.len()
            invariant
                i <= partitions@.len(),
                forall|k: int| 0 <= k < i ==> self@.dom().contains((topic@, #[trigger] partitions@[k])),
            decreases partitions@.len() - i,
        {
            if self.get_leader(topic, partitions[i]).is_none() {
                assert(!self@.dom().contains((topic@, partitions@[i as int])));
                return true;
            }
            i += 1;
        }
        false
    }

    /// The partitions by the broker that leads them. Names the first whose leader is not
    /// known.
    pub fn resolve_leaders(&self, topic: &String, partitions: &Vec<i32>) -> (r: Result<VecMap<String, Vec<i32>>, String>)
        ensures
            match r {
                Ok(routes) => all_known(self@, topic@, partitions@) && are_routes(
                    routes@,
                    self@,
                    topic@,
                    partitions@,
                ),
                Err(e) => exists|i: int|
                    #![trigger partitions@[i]]
                    0 <= i < partitions@.len() && !self@.dom().contains((topic@, partitions@[i])) && all_known(
                        self@,
                        topic@,
                        partitions@.take(i),
                    ) && e@ == no_leader(topic@, partitions@[i]),
            },
    {
        let mut routes: VecMap<String, Vec<i32>> = VecMap::new();
        let ghost known = self@;
        let ghost name = topic@;
        let mut i: usize = 0;
        assert(partitions@.take(0) =~= Seq::empty());
        assert(are_routes(routes@, known, name, partitions@.take(0)));
        while i < partitions.len()
            invariant
                i <= partitions@.len(),
                known == self@,
                name == topic@,
                all_known(known, name, partitions@.take(i as int)),
                are_routes(routes@, known, name, partitions@.take(i as int)),
            decreases partitions@.len() - i,
        {
            let p = partitions[i];
            let ghost seen = partitions@.take(i as int);
            let addr = match self.get_leader(topic, p) {
                Some(a) => a.dup(),
                None => {
                    let mut e = "No leader found for ".to_owned();
                    e.append(topic.as_str());
                    e.append("-");
                    e.append(decimal(p as i64).as_str());
                    e.append(" even after metadata refresh");
                    assert(partitions@[i as int] == p);
                    return Err(e);
                },
            };
            let ghost a = addr@;
            let ghost before = routes@;
            let mut list = match routes.remove(&addr) {
                Some(v) => v,
                None => Vec::new(),
            };
            proof {
                assert(list.deep_view() =~= list@);
                assert(before.dom().contains(a) ==> list@ == before[a]);
                assert(before.dom().contains(a) <==> led_by(known, name, seen, a).len() > 0);
                assert(list@ =~= led_by(known, name, seen, a));
            }
            list.push(p);
            let ghost grown = list@;
            assert(list.deep_view() =~= list@);
            routes.insert(addr, list);
            proof {
                let next = partitions@.take(i + 1);
                assert(next.drop_last() =~= seen);
                assert(next.last() == p);
                assert(all_known(known, name, next)) by {
                    assert forall|k: int| 0 <= k < next.len() implies known.dom().contains((name, #[trigger] next[k])) by {
                        if k < i {
                            assert(next[k] == seen[k]);
                        }
                    }
                }
                assert(routes@ =~= before.insert(a, grown));
                assert forall|b: Seq<char>|
                    #![trigger routes@.dom().contains(b)]
                    (routes@.dom().contains(b) <==> led_by(known, name, next, b).len() > 0) && (
                    routes@.dom().contains(b) ==> routes@[b] == led_by(known, name, next, b)) by {
                    assert(before.dom().contains(b) <==> led_by(known, name, seen, b).len() > 0);
                    assert(before.dom().contains(b) ==> before[b] == led_by(known, name, seen, b));
                }
            }
            i += 1;
        }
        assert(partitions@.take(i as int) =~= partitions@);
        Ok(routes)
    }
}

/// What is known without those among some keys that are of a topic.
pub open spec fn without_topic(
    known: Map<(Seq<char>, i32), Seq<char>>,
    among: Set<(Seq<char>, i32)>,
    topic: Seq<char>,
) -> Map<(Seq<char>, i32), Seq<char>> {
    Map::new(
        |k: (Seq<char>, i32)| known.dom().contains(k) && !(among.contains(k) && k.0 == topic),
        |k: (Seq<char>, i32)| known[k],
    )
}

/// Every partition of a request goes to its leader.
pub proof fn partition_goes_to_its_leader(
    routes: Map<Seq<char>, Seq<i32>>,
    known: Map<(Seq<char>, i32), Seq<char>>,
    topic: Seq<char>,
    partitions: Seq<i32>,
    i: int,
)
    requires
        are_routes(routes, known, topic, partitions),
        0 <= i < partitions.len(),
    ensures
        ({
            let addr = known[(topic, partitions[i])];
            routes.dom().contains(addr) && routes[addr].contains(partitions[i])
        }),
{
    let addr = known[(topic, partitions[i])];
    lemma_led(known, topic, partitions, i);
    assert(routes.dom().contains(addr) <==> led_by(known, topic, partitions, addr).len() > 0);
}

proof fn lemma_led(known: Map<(Seq<char>, i32), Seq<char>>, topic: Seq<char>, partitions: Seq<i32>, i: int)
    requires
        0 <= i < partitions.len(),
    ensures
        led_by(known, topic, partitions, known[(topic, partitions[i])]).contains(partitions[i]),
    decreases partitions.len(),
{
    let addr = known[(topic, partitions[i])];
    let before = led_by(known, topic, partitions.drop_last(), addr);
    let all = led_by(known, topic, partitions, addr);
    if i == partitions.len() - 1 {
        assert(all[before.len() as int] == partitions[i]);
    } else {
        lemma_led(known, topic, partitions.drop_last(), i);
        let k = choose|k: int| 0 <= k < before.len() && before[k] == partitions[i];
        assert(all[k] == partitions[i]);
    }
}

/// An address with a scheme loses exactly that; one without stays as it is.
pub proof fn scheme_is_dropped(addr: Seq<char>)
    ensures
        bare("http://"@ + addr) == addr,
        addr.len() < 7 ==> bare(addr) == addr,
        addr.len() > 0 && addr[0] != 'h' ==> bare(addr) == addr,
        bare(addr) == addr || "http://"@ + bare(addr) == addr,
{
    reveal_strlit("http://");
    let whole = "http://"@ + addr;
    assert(whole.take("http://"@.len() as int) =~= "http://"@);
    assert(whole.skip("http://"@.len() as int) =~= addr);
    if has_prefix(addr, "http://"@) {
        assert(addr.take(7)[0] == 'h');
        assert("http://"@ + addr.skip("http://"@.len() as int) =~= addr);
    }
}

/// The address of a broker is the host and the port of the last entry with its number;
/// without an entry there is none.
pub proof fn broker_is_found_by_its_number(brokers: Seq<MetadataBroker>, node_id: i32, b: int)
    ensures
        broker_addr(brokers, node_id) is None <==> forall|i: int|
            0 <= i < brokers.len() ==> (#[trigger] brokers[i]).node_id != node_id,
        0 <= b < brokers.len() && brokers[b].node_id == node_id && (forall|i: int|
            b < i < brokers.len() ==> (#[trigger] brokers[i]).node_id != node_id) ==> broker_addr(brokers, node_id) == Some(
            brokers[b].host@ + ":"@ + decimal_text(brokers[b].port as int),
        ),
    decreases brokers.len(),
{
    if brokers.len() > 0 {
        let front = brokers.drop_last();
        let last = brokers.len() - 1;
        assert(brokers.last() == brokers[last]);
        assert(forall|i: int| 0 <= i < last ==> #[trigger] brokers[i] == front[i]);
        assert(forall|i: int| 0 <= i < last ==> #[trigger] front[i] == brokers[i]);
        broker_is_found_by_its_number(front, node_id, b);
        if brokers.last().node_id == node_id {
            assert(brokers[last].node_id == node_id);
        }
    }
}

/// The entry teaches who leads the partition.
pub open spec fn teaches(brokers: Seq<MetadataBroker>, p: PartitionMetadata, partition: i32) -> bool {
    &&& p.partition_id == partition
    &&& p.partition_error_code == 0
    &&& exists|b: int| 0 <= b < brokers.len() && (#[trigger] brokers[b]).node_id == p.leader
}

proof fn lemma_learned_partition(
    known: Map<(Seq<char>, i32), Seq<char>>,
    brokers: Seq<MetadataBroker>,
    topic: Seq<char>,
    parts: Seq<PartitionMetadata>,
    k: (Seq<char>, i32),
    j: int,
)
    ensures
        ({
            let after = learned_partitions(known, brokers, topic, parts);
            &&& k.0 != topic || (forall|x: int| 0 <= x < parts.len() ==> !teaches(brokers, #[trigger] parts[x], k.1)) ==> (
            after.dom().contains(k) <==> known.dom().contains(k)) && after[k] == known[k]
            &&& k.0 == topic && 0 <= j < parts.len() && teaches(brokers, parts[j], k.1) && (forall|x: int|
                j < x < parts.len() ==> !teaches(brokers, #[trigger] parts[x], k.1)) ==> after.dom().contains(k) && Some(
                after[k],
            ) == broker_addr(brokers, parts[j].leader)
        }),
    decreases parts.len(),
{
    if parts.len() > 0 {
        let front = parts.drop_last();
        let last = parts.len() - 1;
        assert(parts.last() == parts[last]);
        assert(forall|x: int| 0 <= x < last ==> #[trigger] parts[x] == front[x]);
        assert(forall|x: int| 0 <= x < last ==> #[trigger] front[x] == parts[x]);
        lemma_learned_partition(known, brokers, topic, front, k, j);
        broker_is_found_by_its_number(brokers, parts[last].leader, 0);
        assert(teaches(brokers, parts[last], parts[last].partition_id) <==> parts[last].partition_error_code == 0
            && broker_addr(brokers, parts[last].leader) is Some);
    }
}

/// What a client learns about a partition from one description of its topic: the leader
/// that it names, by the address of that broker. Of several entries the last counts. A
/// partition that is not described, or whose leader is not given, stays as it was known.
pub proof fn client_learns_the_leader(
    known: Map<(Seq<char>, i32), Seq<char>>,
    brokers: Seq<MetadataBroker>,
    topics: Seq<TopicMetadata>,
    k: (Seq<char>, i32),
    j: int,
)
    requires
        topics.len() == 1,
        topics[0].topic_error_code == 0,
    ensures
        ({
            let after = learned(known, brokers, topics);
            let parts = topics[0].partitions@;
            &&& k.0 == topics[0].topic_name@ && 0 <= j < parts.len() && teaches(brokers, parts[j], k.1) && (forall|x: int|
                j < x < parts.len() ==> !teaches(brokers, #[trigger] parts[x], k.1)) ==> after.dom().contains(k) && Some(
                after[k],
            ) == broker_addr(brokers, parts[j].leader)
            &&& k.0 != topics[0].topic_name@ || (forall|x: int|
                0 <= x < parts.len() ==> !teaches(brokers, #[trigger] parts[x], k.1)) ==> (after.dom().contains(k)
                <==> known.dom().contains(k)) && after[k] == known[k]
        }),
{
    assert(topics.drop_last() =~= Seq::empty());
    reveal_with_fuel(learned, 2);
    lemma_learned_partition(known, brokers, topics[0].topic_name@, topics[0].partitions@, k, j);
}

/// What a client knows about topics that are not described without an error does not
/// change.
pub proof fn other_topics_are_not_relearned(
    known: Map<(Seq<char>, i32), Seq<char>>,
    brokers: Seq<MetadataBroker>,
    topics: Seq<TopicMetadata>,
    k: (Seq<char>, i32),
)
    requires
        forall|t: int|
            0 <= t < topics.len() ==> (#[trigger] topics[t]).topic_error_code != 0 || topics[t].topic_name@ != k.0,
    ensures
        learned(known, brokers, topics).dom().contains(k) <==> known.dom().contains(k),
        learned(known, brokers, topics)[k] == known[k],
    decreases topics.len(),
{
    if topics.len() > 0 {
        let front = topics.drop_last();
        assert(topics.last() == topics[topics.len() - 1]);
        assert forall|t: int| 0 <= t < front.len() implies (#[trigger] front[t]).topic_error_code != 0 || front[t].topic_name@
            != k.0 by {
            assert(front[t] == topics[t]);
        }
        other_topics_are_not_relearned(known, brokers, front, k);
        lemma_learned_partition(
            learned(known, brokers, front),
            brokers,
            topics.last().topic_name@,
            topics.last().partitions@,
            k,
            0,
        );
    }
}

proof fn lemma_led_only(
    known: Map<(Seq<char>, i32), Seq<char>>,
    topic: Seq<char>,
    partitions: Seq<i32>,
    addr: Seq<char>,
    p: i32,
)
    ensures
        led_by(known, topic, partitions, addr).contains(p) ==> partitions.contains(p) && known[(topic, p)] == addr,
        led_by(known, topic, partitions, addr).len() <= partitions.len(),
        partitions.no_duplicates() ==> led_by(known, topic, partitions, addr).no_duplicates(),
    decreases partitions.len(),
{
    if partitions.len() > 0 {
        let front = partitions.drop_last();
        let before = led_by(known, topic, front, addr);
        let all = led_by(known, topic, partitions, addr);
        let last = partitions.last();
        lemma_led_only(known, topic, front, addr, p);
        lemma_led_only(known, topic, front, addr, last);
        assert(partitions[partitions.len() - 1] == last);
        if all.contains(p) {
            let x = choose|x: int| 0 <= x < all.len() && all[x] == p;
            if x < before.len() {
                assert(before[x] == p);
                let y = choose|y: int| 0 <= y < front.len() && front[y] == p;
                assert(partitions[y] == p);
            }
        }
        if partitions.no_duplicates() {
            assert(front.no_duplicates());
            assert(!front.contains(last)) by {
                if front.contains(last) {
                    let y = choose|y: int| 0 <= y < front.len() && front[y] == last;
                    assert(partitions[y] == partitions[partitions.len() - 1]);
                }
            }
            assert(!before.contains(last));
            assert forall|x: int, y: int| 0 <= x < y < all.len() implies all[x] != all[y] by {
                assert(all[x] == before[x]);
                assert(before.contains(before[x]));
            }
        }
    }
}

/// A partition of a request goes to no broker but its leader, and there once.
pub proof fn partition_goes_nowhere_else(
    routes: Map<Seq<char>, Seq<i32>>,
    known: Map<(Seq<char>, i32), Seq<char>>,
    topic: Seq<char>,
    partitions: Seq<i32>,
    addr: Seq<char>,
    p: i32,
)
    requires
        are_routes(routes, known, topic, partitions),
        routes.dom().contains(addr),
    ensures
        routes[addr].len() > 0,
        routes[addr].contains(p) ==> partitions.contains(p) && known[(topic, p)] == addr,
        partitions.no_duplicates() ==> routes[addr].no_duplicates(),
{
    lemma_led_only(known, topic, partitions, addr, p);
}

} // verus!
