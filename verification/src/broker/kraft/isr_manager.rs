//! Which replicas are in sync with a leader, and how far everybody may read.
use vstd::prelude::*;

use crate::broker::controller::types::copy_ids;
use crate::broker::partition_log::{log_advanced, LogView, PartitionLog};
use crate::ids::{ascending, ascending_is_sorted, ascending_same_ids, different_ids_rise, id_order, sort_ids};
use crate::maps::{Dup, VecMap};
use crate::seqs::{lemma_filter_ends, lemma_filter_holds, lemma_filter_step, lemma_next_element};

verus! {

/// A partition whose replicas in sync or whose watermark have changed.
#[derive(Debug)]
pub struct IsrChange {
    pub topic: String,
    pub partition: i32,
    /// The replicas in sync, in ascending order.
    pub new_isr: Vec<u64>,
    /// The watermark of the log, once it has moved as far as they allow.
    pub new_hw: i64,
}

/// What a change says.
#[verifier::ext_equal]
pub struct ChangeView {
    pub topic: Seq<char>,
    pub partition: i32,
    pub new_isr: Seq<u64>,
    pub new_hw: i64,
}

impl DeepView for IsrChange {
    type V = ChangeView;

    open spec fn deep_view(&self) -> ChangeView {
        ChangeView { topic: self.topic@, partition: self.partition, new_isr: self.new_isr@, new_hw: self.new_hw }
    }
}

/// How far a replica has come.
#[derive(Debug, Clone, Copy, PartialEq, Eq, Structural)]
pub struct ReplicaProgress {
    /// The offset that the replica fetches next.
    pub fetch_offset: i64,
    /// When the replica was last heard of; zero where it never was.
    pub last_contact_ms: i64,
}

impl DeepView for ReplicaProgress {
    type V = ReplicaProgress;

    open spec fn deep_view(&self) -> ReplicaProgress {
        *self
    }
}

impl Dup for ReplicaProgress {
    fn dup(&self) -> (r: Self) {
        *self
    }
}

/// The replicas of a partition.
pub struct PartitionIsrState {
    pub all_replicas: Vec<u64>,
    pub progress: VecMap<u64, ReplicaProgress>,
    pub current_isr: Vec<u64>,
}

/// The replicas of a partition.
#[verifier::ext_equal]
pub struct IsrStateView {
    pub all_replicas: Seq<u64>,
    pub progress: Map<u64, ReplicaProgress>,
    pub current_isr: Seq<u64>,
}

impl DeepView for PartitionIsrState {
    type V = IsrStateView;

    open spec fn deep_view(&self) -> IsrStateView {
        IsrStateView {
            all_replicas: self.all_replicas@,
            progress: self.progress@,
            current_isr: self.current_isr@,
        }
    }
}

/// What a leader goes by.
#[derive(Debug, Clone, Copy, PartialEq, Eq)]
pub struct IsrRules {
    /// The leader.
    pub this_node: u64,
    /// How many messages a replica in sync may be behind.
    pub lag_max: i64,
    /// For how long a replica in sync may be silent.
    pub stale_ms: i64,
}

/// A replica is in sync: it is not far behind, and it is the leader or was heard of
/// not long ago.
pub open spec fn in_sync(progress: Map<u64, ReplicaProgress>, rules: IsrRules, leo: i64, now: i64) -> spec_fn(u64) -> bool {
    |id: u64|
        progress.dom().contains(id) && leo - progress[id].fetch_offset <= rules.lag_max && (id == rules.this_node || (
        progress[id].last_contact_ms > 0 && now - progress[id].last_contact_ms <= rules.stale_ms))
}

/// The progress with that of the leader brought up to date.
pub open spec fn leader_refreshed(
    progress: Map<u64, ReplicaProgress>,
    rules: IsrRules,
    leo: i64,
    now: i64,
) -> Map<u64, ReplicaProgress> {
    progress.insert(rules.this_node, ReplicaProgress { fetch_offset: leo, last_contact_ms: now })
}

/// The smallest of the offsets that replicas have reached; zero where there is none.
pub open spec fn slowest(isr: Seq<u64>, progress: Map<u64, ReplicaProgress>) -> i64
    decreases isr.len(),
{
    if isr.len() == 0 {
        0
    } else {
        let last = progress[isr.last()].fetch_offset;
        let rest = slowest(isr.drop_last(), progress);
        if isr.len() == 1 || last < rest { last } else { rest }
    }
}

/// The replicas of a partition that are in sync, in ascending order.
pub open spec fn computed_isr(state: IsrStateView, rules: IsrRules, leo: i64, now: i64) -> Seq<u64> {
    ascending(state.all_replicas.filter(in_sync(leader_refreshed(state.progress, rules, leo, now), rules, leo, now)))
}

/// The offset that all replicas in sync have reached.
pub open spec fn computed_hw(state: IsrStateView, rules: IsrRules, leo: i64, now: i64) -> i64 {
    slowest(computed_isr(state, rules, leo, now), leader_refreshed(state.progress, rules, leo, now))
}

/// The replicas of a partition after they were looked at.
pub open spec fn isr_ticked(state: IsrStateView, rules: IsrRules, leo: i64, now: i64) -> IsrStateView {
    IsrStateView {
        all_replicas: state.all_replicas,
        progress: leader_refreshed(state.progress, rules, leo, now),
        current_isr: computed_isr(state, rules, leo, now),
    }
}

/// The replicas in sync or the watermark change.
pub open spec fn isr_changes(state: IsrStateView, rules: IsrRules, log: LogView, now: i64) -> bool {
    computed_isr(state, rules, log.leo, now) != state.current_isr || computed_hw(state, rules, log.leo, now) > log.hw
}

/// What is reported of a partition: the watermark is that of the log once it was moved,
/// so it never falls.
pub open spec fn isr_report(k: (Seq<char>, i32), state: IsrStateView, rules: IsrRules, log: LogView, now: i64) -> ChangeView {
    ChangeView {
        topic: k.0,
        partition: k.1,
        new_isr: computed_isr(state, rules, log.leo, now),
        new_hw: log_advanced(log, computed_hw(state, rules, log.leo, now)).hw,
    }
}

proof fn lemma_slowest(isr: Seq<u64>, progress: Map<u64, ReplicaProgress>, i: int)
    requires
        0 <= i < isr.len(),
    ensures
        slowest(isr, progress) <= progress[isr[i]].fetch_offset,
    decreases isr.len(),
{
    if i < isr.len() - 1 {
        lemma_slowest(isr.drop_last(), progress, i);
    }
}

proof fn lemma_slowest_is_reached(isr: Seq<u64>, progress: Map<u64, ReplicaProgress>) -> (i: int)
    requires
        isr.len() > 0,
    ensures
        0 <= i < isr.len(),
        slowest(isr, progress) == progress[isr[i]].fetch_offset,
    decreases isr.len(),
{
    if isr.len() == 1 || progress[isr.last()].fetch_offset < slowest(isr.drop_last(), progress) {
        isr.len() - 1
    } else {
        lemma_slowest_is_reached(isr.drop_last(), progress)
    }
}

/// The offset to which a watermark is to be moved lies beyond no replica in sync, and
/// the slowest of them has reached it exactly.
pub proof fn watermark_is_the_slowest_in_sync(state: IsrStateView, rules: IsrRules, leo: i64, now: i64)
    ensures
        ({
            let isr = computed_isr(state, rules, leo, now);
            let progress = leader_refreshed(state.progress, rules, leo, now);
            let hw = computed_hw(state, rules, leo, now);
            &&& forall|i: int| 0 <= i < isr.len() ==> hw <= progress[#[trigger] isr[i]].fetch_offset
            &&& isr.len() > 0 ==> exists|i: int| 0 <= i < isr.len() && hw == progress[#[trigger] isr[i]].fetch_offset
        }),
{
    let isr = computed_isr(state, rules, leo, now);
    let progress = leader_refreshed(state.progress, rules, leo, now);
    assert forall|i: int| 0 <= i < isr.len() implies slowest(isr, progress) <= progress[#[trigger] isr[i]].fetch_offset by {
        lemma_slowest(isr, progress, i);
    }
    if isr.len() > 0 {
        let i = lemma_slowest_is_reached(isr, progress);
        assert(slowest(isr, progress) == progress[isr[i]].fetch_offset);
    }
}

/// The watermark that is reported of a partition is that of its log afterwards, and
/// no less than it was before.
pub proof fn reported_watermark_is_that_of_the_log(m: IsrView, logs: Map<(Seq<char>, i32), LogView>, now: i64, k: (Seq<char>, i32))
    requires
        is_reported(m, logs, now, k),
    ensures
        isr_report(k, m.partitions[k], m.rules, logs[k], now).new_hw == logs_ticked(m, logs, now)[k].hw,
        isr_report(k, m.partitions[k], m.rules, logs[k], now).new_hw >= logs[k].hw,
{
}

/// Every replica that was in sync when the watermark was moved has what readers see of
/// the messages behind the old watermark.
pub proof fn moved_watermark_is_on_all_in_sync(
    m: IsrView,
    logs: Map<(Seq<char>, i32), LogView>,
    now: i64,
    k: (Seq<char>, i32),
    id: u64,
)
    requires
        m.partitions.dom().contains(k),
        logs.dom().contains(k),
        logs_ticked(m, logs, now)[k].hw > logs[k].hw,
        all_ticked(m, logs, now).partitions[k].current_isr.contains(id),
    ensures
        logs_ticked(m, logs, now)[k].hw <= all_ticked(m, logs, now).partitions[k].progress[id].fetch_offset,
{
    let isr = computed_isr(m.partitions[k], m.rules, logs[k].leo, now);
    let i = choose|i: int| 0 <= i < isr.len() && isr[i] == id;
    watermark_is_the_slowest_in_sync(m.partitions[k], m.rules, logs[k].leo, now);
    assert(isr[i] == id);
}

/// A leader that is among the replicas is always in sync, so that the watermark is not
/// moved beyond the end of its log.
pub proof fn leader_is_in_sync(state: IsrStateView, rules: IsrRules, leo: i64, now: i64)
    requires
        state.all_replicas.contains(rules.this_node),
        rules.lag_max >= 0,
    ensures
        computed_isr(state, rules, leo, now).contains(rules.this_node),
        computed_hw(state, rules, leo, now) <= leo,
{
    let progress = leader_refreshed(state.progress, rules, leo, now);
    let p = in_sync(progress, rules, leo, now);
    let s = state.all_replicas;
    let k = choose|k: int| 0 <= k < s.len() && s[k] == rules.this_node;
    s.lemma_filter_contains(p, k);
    ascending_same_ids(s.filter(p), rules.this_node);
    let isr = computed_isr(state, rules, leo, now);
    let i = choose|i: int| 0 <= i < isr.len() && isr[i] == rules.this_node;
    lemma_slowest(isr, progress, i);
}

/// A replica that lags too far behind leaves, and so does one that was silent for
/// too long.
pub proof fn lagging_replica_leaves(state: IsrStateView, rules: IsrRules, leo: i64, now: i64, id: u64)
    requires
        id != rules.this_node,
        state.progress.dom().contains(id) ==> leo - state.progress[id].fetch_offset > rules.lag_max || now
            - state.progress[id].last_contact_ms > rules.stale_ms || state.progress[id].last_contact_ms <= 0,
    ensures
        !computed_isr(state, rules, leo, now).contains(id),
{
    let p = in_sync(leader_refreshed(state.progress, rules, leo, now), rules, leo, now);
    let f = state.all_replicas.filter(p);
    ascending_same_ids(f, id);
    if f.contains(id) {
        let i = choose|i: int| 0 <= i < f.len() && f[i] == id;
        state.all_replicas.lemma_filter_pred(p, i);
        assert(p(f[i]));
    }
}

/// What is known of the replicas when a broker becomes leader: its own log, and
/// nothing of the others.
pub open spec fn seeded(replicas: Seq<u64>, node: u64, leo: i64, now: i64) -> Map<u64, ReplicaProgress> {
    Map::new(
        |id: u64| id == node || replicas.contains(id),
        |id: u64|
            if id == node {
                ReplicaProgress { fetch_offset: leo, last_contact_ms: now }
            } else {
                ReplicaProgress { fetch_offset: 0, last_contact_ms: 0 }
            },
    )
}

fn seed(replicas: &Vec<u64>, node: u64, leo: i64, now: i64) -> (r: VecMap<u64, ReplicaProgress>)
    ensures
        r@ == seeded(replicas@, node, leo, now),
{
    let mut r: VecMap<u64, ReplicaProgress> = VecMap::new();
    r.insert(node, ReplicaProgress { fetch_offset: leo, last_contact_ms: now });
    let mut i: usize = 0;
    assert(r@ =~= seeded(replicas@.take(0), node, leo, now));
    while i < replicas.len()
        invariant
            i <= replicas@.len(),
            r@ == seeded(replicas@.take(i as int), node, leo, now),
        decreases replicas@.len() - i,
    {
        let id = replicas[i];
        if id != node {
            r.insert(id, ReplicaProgress { fetch_offset: 0, last_contact_ms: 0 });
        }
        proof {
            let a = replicas@.take(i as int);
            let b = replicas@.take(i + 1);
            assert(b =~= a.push(id));
            assert forall|x: u64| #[trigger] b.contains(x) <==> a.contains(x) || x == id by {
                if a.contains(x) {
                    let k = choose|k: int| 0 <= k < a.len() && a[k] == x;
                    assert(b[k] == x);
                }
                assert(b[i as int] == id);
            }
            assert(r@ =~= seeded(b, node, leo, now));
        }
        i += 1;
    }
    assert(replicas@.take(i as int) =~= replicas@);
    r
}

fn filter_in_sync(
    replicas: &Vec<u64>,
    progress: &VecMap<u64, ReplicaProgress>,
    rules: IsrRules,
    leo: i64,
    now: i64,
) -> (r: Vec<u64>)
    ensures
        r@ == replicas@.filter(in_sync(progress@, rules, leo, now)),
{
    let ghost p = in_sync(progress@, rules, leo, now);
    let mut r: Vec<u64> = Vec::new();
    let mut i: usize = 0;
    proof {
        lemma_filter_ends(replicas@, p);
    }
    while i < replicas.len()
        invariant
            i <= replicas@.len(),
            p == in_sync(progress@, rules, leo, now),
            r@ == replicas@.take(i as int).filter(p),
        decreases replicas@.len() - i,
    {
        proof {
            lemma_filter_step(replicas@, p, i as int);
        }
        let id = replicas[i];
        if let Some(q) = progress.get(&id) {
            let in_lag = leo as i128 - q.fetch_offset as i128 <= rules.lag_max as i128;
            let contacted = id == rules.this_node || (q.last_contact_ms > 0 && now as i128 - q.last_contact_ms as i128
                <= rules.stale_ms as i128);
            if in_lag && contacted {
                r.push(id);
            }
        }
        i += 1;
    }
    assert(replicas@.take(i as int) =~= replicas@);
    r
}

fn find_slowest(isr: &Vec<u64>, progress: &VecMap<u64, ReplicaProgress>) -> (r: i64)
    requires
        forall|i: int| 0 <= i < isr@.len() ==> progress@.dom().contains(#[trigger] isr@[i]),
    ensures
        r == slowest(isr@, progress@),
{
    let mut r: i64 = 0;
    let mut i: usize = 0;
    while i < isr.len()
        invariant
            i <= isr@.len(),
            forall|i: int| 0 <= i < isr@.len() ==> progress@.dom().contains(#[trigger] isr@[i]),
            r == slowest(isr@.take(i as int), progress@),
        decreases isr@.len() - i,
    {
        assert(isr@.take(i + 1).drop_last() =~= isr@.take(i as int));
        assert(isr@.take(i + 1).last() == isr@[i as int]);
        if let Some(q) = progress.get(&isr[i]) {
            if i == 0 || q.fetch_offset < r {
                r = q.fetch_offset;
            }
        }
        i += 1;
    }
    assert(isr@.take(i as int) =~= isr@);
    r
}

fn same_ids(a: &Vec<u64>, b: &Vec<u64>) -> (r: bool)
    ensures
        r == (a@ == b@),
{
    if a.len() != b.len() {
        return false;
    }
    let mut i: usize = 0;
    while i < a.len()
        invariant
            i <= a@.len() == b@.len(),
            forall|j: int| 0 <= j < i ==> #[trigger] a@[j] == b@[j],
        decreases a@.len() - i,
    {
        if a[i] != b[i] {
            return false;
        }
        i += 1;
    }
    assert(a@ =~= b@);
    true
}

/// The partitions that a broker leads.
pub struct IsrManager {
    partitions: VecMap<(String, i32), PartitionIsrState>,
    rules: IsrRules,
}

/// What is known of the partitions that a broker leads.
#[verifier::ext_equal]
pub struct IsrView {
    pub partitions: Map<(Seq<char>, i32), IsrStateView>,
    pub rules: IsrRules,
}

/// A partition is looked at: it is led here, and its log is there.
pub open spec fn is_tracked(
    m: IsrView,
    logs: Map<(Seq<char>, i32), LogView>,
    k: (Seq<char>, i32),
) -> bool {
    m.partitions.dom().contains(k) && logs.dom().contains(k)
}

/// A partition is looked at, and something has changed.
pub open spec fn is_reported(
    m: IsrView,
    logs: Map<(Seq<char>, i32), LogView>,
    now: i64,
    k: (Seq<char>, i32),
) -> bool {
    is_tracked(m, logs, k) && isr_changes(m.partitions[k], m.rules, logs[k], now)
}

/// The partitions after all of them were looked at.
pub open spec fn all_ticked(m: IsrView, logs: Map<(Seq<char>, i32), LogView>, now: i64) -> IsrView {
    IsrView {
        partitions: Map::new(
            |k: (Seq<char>, i32)| m.partitions.dom().contains(k),
            |k: (Seq<char>, i32)|
                if logs.dom().contains(k) {
                    isr_ticked(m.partitions[k], m.rules, logs[k].leo, now)
                } else {
                    m.partitions[k]
                },
        ),
        ..m
    }
}

/// The logs after the watermarks were moved.
pub open spec fn logs_ticked(m: IsrView, logs: Map<(Seq<char>, i32), LogView>, now: i64) -> Map<
    (Seq<char>, i32),
    LogView,
> {
    Map::new(
        |k: (Seq<char>, i32)| logs.dom().contains(k),
        |k: (Seq<char>, i32)|
            if m.partitions.dom().contains(k) {
                log_advanced(logs[k], computed_hw(m.partitions[k], m.rules, logs[k].leo, now))
            } else {
                logs[k]
            },
    )
}

/// One report for every partition in which something has changed, in any order.
pub open spec fn are_reports(
    m: IsrView,
    logs: Map<(Seq<char>, i32), LogView>,
    now: i64,
    r: Seq<ChangeView>,
) -> bool {
    &&& forall|i: int|
        0 <= i < r.len() ==> {
            let k = ((#[trigger] r[i]).topic, r[i].partition);
            is_reported(m, logs, now, k) && r[i] == isr_report(k, m.partitions[k], m.rules, logs[k], now)
        }
    &&& forall|i: int, j: int|
        0 <= i < r.len() && 0 <= j < r.len() && i != j ==> ((#[trigger] r[i]).topic, r[i].partition) != ((
        #[trigger] r[j]).topic, r[j].partition)
    &&& forall|k: (Seq<char>, i32)|
        #[trigger] is_reported(m, logs, now, k) ==> exists|i: int|
            0 <= i < r.len() && (#[trigger] r[i]).topic == k.0 && r[i].partition == k.1
}

/// Of two ticks with nothing in between, the second reports nothing.
pub proof fn second_tick_is_quiet(m: IsrView, logs: Map<(Seq<char>, i32), LogView>, now: i64, r: Seq<ChangeView>)
    requires
        are_reports(all_ticked(m, logs, now), logs_ticked(m, logs, now), now, r),
    ensures
        r.len() == 0,
{
    if r.len() > 0 {
        let k = (r[0].topic, r[0].partition);
        let m2 = all_ticked(m, logs, now);
        let logs2 = logs_ticked(m, logs, now);
        assert(is_reported(m2, logs2, now, k));
        let s = m.partitions[k];
        let progress = leader_refreshed(s.progress, m.rules, logs[k].leo, now);
        assert(leader_refreshed(progress, m.rules, logs[k].leo, now) =~= progress);
    }
}

/// The partitions after some of them were looked at.
spec fn ticked_among(
    m: IsrView,
    logs: Map<(Seq<char>, i32), LogView>,
    now: i64,
    seen: Set<(Seq<char>, i32)>,
) -> Map<(Seq<char>, i32), IsrStateView> {
    Map::new(
        |k: (Seq<char>, i32)| m.partitions.dom().contains(k),
        |k: (Seq<char>, i32)|
            if seen.contains(k) && logs.dom().contains(k) {
                isr_ticked(m.partitions[k], m.rules, logs[k].leo, now)
            } else {
                m.partitions[k]
            },
    )
}

/// The logs after some watermarks were moved.
spec fn moved_among(
    m: IsrView,
    logs: Map<(Seq<char>, i32), LogView>,
    now: i64,
    seen: Set<(Seq<char>, i32)>,
) -> Map<(Seq<char>, i32), LogView> {
    Map::new(
        |k: (Seq<char>, i32)| logs.dom().contains(k),
        |k: (Seq<char>, i32)|
            if seen.contains(k) && m.partitions.dom().contains(k) {
                log_advanced(logs[k], computed_hw(m.partitions[k], m.rules, logs[k].leo, now))
            } else {
                logs[k]
            },
    )
}

/// One report for every partition among some in which something has changed.
spec fn reports_among(
    m: IsrView,
    logs: Map<(Seq<char>, i32), LogView>,
    now: i64,
    seen: Set<(Seq<char>, i32)>,
    r: Seq<ChangeView>,
) -> bool {
    &&& forall|i: int|
        0 <= i < r.len() ==> {
            let k = ((#[trigger] r[i]).topic, r[i].partition);
            seen.contains(k) && is_reported(m, logs, now, k) && r[i] == isr_report(
                k,
                m.partitions[k],
                m.rules,
                logs[k],
                now,
            )
        }
    &&& forall|i: int, j: int|
        0 <= i < r.len() && 0 <= j < r.len() && i != j ==> ((#[trigger] r[i]).topic, r[i].partition) != ((
        #[trigger] r[j]).topic, r[j].partition)
    &&& forall|k: (Seq<char>, i32)|
        seen.contains(k) && #[trigger] is_reported(m, logs, now, k) ==> exists|i: int|
            0 <= i < r.len() && (#[trigger] r[i]).topic == k.0 && r[i].partition == k.1
}

proof fn lemma_members_known(state: IsrStateView, rules: IsrRules, leo: i64, now: i64)
    ensures
        ({
            let isr = computed_isr(state, rules, leo, now);
            let progress = leader_refreshed(state.progress, rules, leo, now);
            forall|i: int| 0 <= i < isr.len() ==> progress.dom().contains(#[trigger] isr[i])
        }),
{
    let isr = computed_isr(state, rules, leo, now);
    let progress = leader_refreshed(state.progress, rules, leo, now);
    let p = in_sync(progress, rules, leo, now);
    let f = state.all_replicas.filter(p);
    assert forall|i: int| 0 <= i < isr.len() implies progress.dom().contains(#[trigger] isr[i]) by {
        ascending_same_ids(f, isr[i]);
        assert(isr.contains(isr[i]));
        let j = choose|j: int| 0 <= j < f.len() && f[j] == isr[i];
        state.all_replicas.lemma_filter_pred(p, j);
        assert(p(f[j]));
    }
}

proof fn lemma_reports_grow(
    m: IsrView,
    logs: Map<(Seq<char>, i32), LogView>,
    now: i64,
    seen: Set<(Seq<char>, i32)>,
    k: (Seq<char>, i32),
    r: Seq<ChangeView>,
    t: Seq<ChangeView>,
)
    requires
        reports_among(m, logs, now, seen, r),
        !seen.contains(k),
        is_reported(m, logs, now, k) ==> t == r.push(isr_report(k, m.partitions[k], m.rules, logs[k], now)),
        !is_reported(m, logs, now, k) ==> t == r,
    ensures
        reports_among(m, logs, now, seen.insert(k), t),
{
    assert forall|x: (Seq<char>, i32)|
        seen.insert(k).contains(x) && #[trigger] is_reported(m, logs, now, x) implies exists|i: int|
        0 <= i < t.len() && (#[trigger] t[i]).topic == x.0 && t[i].partition == x.1 by {
        if x == k {
            assert(t[r.len() as int].topic == k.0 && t[r.len() as int].partition == k.1);
        } else {
            let i = choose|i: int| 0 <= i < r.len() && (#[trigger] r[i]).topic == x.0 && r[i].partition == x.1;
            assert(t[i] == r[i]);
        }
    }
    assert forall|i: int| 0 <= i < t.len() implies {
        let x = ((#[trigger] t[i]).topic, t[i].partition);
        seen.insert(k).contains(x) && is_reported(m, logs, now, x) && t[i] == isr_report(
            x,
            m.partitions[x],
            m.rules,
            logs[x],
            now,
        )
    } by {
        if i < r.len() {
            assert(t[i] == r[i]);
        }
    }
    assert forall|i: int, j: int| 0 <= i < t.len() && 0 <= j < t.len() && i != j implies ((#[trigger] t[i]).topic, t[i].partition)
        != ((#[trigger] t[j]).topic, t[j].partition) by {
        if i < r.len() {
            assert(t[i] == r[i]);
        }
        if j < r.len() {
            assert(t[j] == r[j]);
        }
    }
}

proof fn lemma_all_reported(m: IsrView, logs: Map<(Seq<char>, i32), LogView>, now: i64, r: Seq<ChangeView>)
    requires
        reports_among(m, logs, now, m.partitions.dom(), r),
    ensures
        are_reports(m, logs, now, r),
{
    assert forall|k: (Seq<char>, i32)| #[trigger] is_reported(m, logs, now, k) implies exists|i: int|
        0 <= i < r.len() && (#[trigger] r[i]).topic == k.0 && r[i].partition == k.1 by {
        assert(m.partitions.dom().contains(k));
    }
}

impl IsrManager {
    /// What is known of the partitions.
    pub closed spec fn view(&self) -> IsrView {
        IsrView { partitions: self.partitions@, rules: self.rules }
    }

    /// A broker that leads nothing yet.
    pub fn new(this_node: u64, lag_max: i64, stale_ms: u64) -> (r: Self)
        ensures
            r@ == (IsrView {
                partitions: Map::empty(),
                rules: IsrRules { this_node, lag_max, stale_ms: stale_ms as i64 },
            }),
    {
        IsrManager {
            partitions: VecMap::new(),
            rules: IsrRules { this_node, lag_max, stale_ms: #[verifier::truncate] (stale_ms as i64) },
        }
    }

    /// The broker becomes the leader of a partition.
    pub fn add_partition(
        &mut self,
        topic: String,
        partition: i32,
        replicas: Vec<u64>,
        initial_isr: Vec<u64>,
        log: &PartitionLog,
        now: i64,
    )
        ensures
            final(self)@ == (IsrView {
                partitions: old(self)@.partitions.insert(
                    (topic@, partition),
                    IsrStateView {
                        all_replicas: replicas@,
                        progress: seeded(replicas@, old(self)@.rules.this_node, log@.leo, now),
                        current_isr: initial_isr@,
                    },
                ),
                ..old(self)@
            }),
    {
        let progress = seed(&replicas, self.rules.this_node, log.log_end_offset(), now);
        self.partitions.insert(
            (topic, partition),
            PartitionIsrState { all_replicas: replicas, progress, current_isr: initial_isr },
        );
    }

    /// The broker does not lead a partition any longer.
    pub fn remove_partition(&mut self, topic: &String, partition: i32)
        ensures
            final(self)@ == (IsrView {
                partitions: old(self)@.partitions.remove((topic@, partition)),
                ..old(self)@
            }),
    {
        let _ = self.partitions.remove(&(topic.dup(), partition));
    }

    /// A replica fetches from an offset on. Partitions that are not led here do not
    /// care.
    pub fn record_fetch_progress(
        &mut self,
        topic: &String,
        partition: i32,
        replica_id: u64,
        fetch_offset: i64,
        now: i64,
    )
        ensures
            final(self)@ == (if old(self)@.partitions.dom().contains((topic@, partition)) {
                let s = old(self)@.partitions[(topic@, partition)];
                IsrView {
                    partitions: old(self)@.partitions.insert(
                        (topic@, partition),
                        IsrStateView {
                            progress: s.progress.insert(
                                replica_id,
                                ReplicaProgress { fetch_offset, last_contact_ms: now },
                            ),
                            ..s
                        },
                    ),
                    ..old(self)@
                }
            } else {
                old(self)@
            }),
    {
        let k = (topic.dup(), partition);
        if let Some(state) = self.partitions.remove(&k) {
            let mut state = state;
            state.progress.insert(replica_id, ReplicaProgress { fetch_offset, last_contact_ms: now });
            self.partitions.insert(k, state);
            proof {
                let s = old(self)@.partitions[(topic@, partition)];
                assert(self@.partitions =~= old(self)@.partitions.insert(
                    (topic@, partition),
                    IsrStateView {
                        progress: s.progress.insert(
                            replica_id,
                            ReplicaProgress { fetch_offset, last_contact_ms: now },
                        ),
                        ..s
                    },
                ));
            }
        } else {
            assert(self@.partitions =~= old(self)@.partitions);
        }
    }

    /// Computes the replicas in sync of every partition that is led here, moves the
    /// watermarks, and reports what has changed.
    pub fn tick(&mut self, logs: &mut VecMap<(String, i32), PartitionLog>, now: i64) -> (changes: Vec<IsrChange>)
        ensures
            final(self)@ == all_ticked(old(self)@, old(logs)@, now),
            final(logs)@ == logs_ticked(old(self)@, old(logs)@, now),
            are_reports(old(self)@, old(logs)@, now, changes.deep_view()),
    {
        let ghost m = self@;
        let ghost l = logs@;
        let keys = self.partitions.keys();
        let rules = self.rules;
        let ghost order = keys.deep_view();
        let mut changes: Vec<IsrChange> = Vec::new();
        let mut i: usize = 0;
        proof {
            assert(order.take(0).to_set() =~= Set::empty());
            assert(changes.deep_view() =~= Seq::empty());
            assert(ticked_among(m, l, now, order.take(0).to_set()) =~= m.partitions);
            assert(moved_among(m, l, now, order.take(0).to_set()) =~= l);
        }
        while i < keys.len()
            invariant
                i <= keys@.len(),
                order == keys.deep_view(),
                order.no_duplicates(),
                order.to_set() == m.partitions.dom(),
                rules == m.rules,
                self.rules == rules,
                self.partitions@ == ticked_among(m, l, now, order.take(i as int).to_set()),
                logs@ == moved_among(m, l, now, order.take(i as int).to_set()),
                reports_among(m, l, now, order.take(i as int).to_set(), changes.deep_view()),
            decreases keys@.len() - i,
        {
            let ghost seen = order.take(i as int).to_set();
            let ghost k = order[i as int];
            let ghost before = changes.deep_view();
            proof {
                lemma_next_element(order, i as int);
                assert(keys@[i as int].deep_view() == k);
            }
            let key = keys[i].dup();
            if let Some(log) = logs.remove(&key) {
                let mut log = log;
                if let Some(state) = self.partitions.remove(&key) {
                    let mut state = state;
                    let leo = log.log_end_offset();
                    state.progress.insert(rules.this_node, ReplicaProgress { fetch_offset: leo, last_contact_ms: now });
                    let found = filter_in_sync(&state.all_replicas, &state.progress, rules, leo, now);
                    let new_isr = sort_ids(&found);
                    proof {
                        lemma_members_known(m.partitions[k], rules, leo, now);
                        assert(log@ == l[k]);
                        assert(state.progress@ =~= leader_refreshed(m.partitions[k].progress, rules, leo, now));
                        assert(new_isr@ == computed_isr(m.partitions[k], rules, leo, now));
                    }
                    let new_hw = find_slowest(&new_isr, &state.progress);
                    let isr_changed = !same_ids(&new_isr, &state.current_isr);
                    let hw_changed = new_hw > log.high_watermark();
                    if isr_changed {
                        state.current_isr = copy_ids(&new_isr);
                    }
                    if hw_changed {
                        let _ = log.advance_hw(new_hw);
                    }
                    assert(state.deep_view() =~= isr_ticked(m.partitions[k], rules, leo, now));
                    self.partitions.insert(key.dup(), state);
                    if isr_changed || hw_changed {
                        let change = IsrChange {
                            topic: key.0.dup(),
                            partition: key.1,
                            new_isr,
                            new_hw: log.high_watermark(),
                        };
                        let ghost c = change.deep_view();
                        changes.push(change);
                        assert(changes.deep_view() =~= before.push(c));
                        assert(c =~= isr_report(k, m.partitions[k], rules, l[k], now));
                    }
                }
                logs.insert(key, log);
            }
            proof {
                assert(self.partitions@ =~= ticked_among(m, l, now, seen.insert(k)));
                assert(logs@ =~= moved_among(m, l, now, seen.insert(k)));
                lemma_reports_grow(m, l, now, seen, k, before, changes.deep_view());
            }
            i += 1;
        }
        proof {
            assert(order.take(i as int) =~= order);
            assert(self@ =~= all_ticked(m, l, now));
            assert(logs@ =~= logs_ticked(m, l, now));
            lemma_all_reported(m, l, now, changes.deep_view());
        }
        changes
    }
}

/// Who is in sync once the replicas were looked at. A replica of the partition that is
/// not further behind than it may be, and that was heard of not longer ago than it may
/// be, is; one that is, or was not, or is no replica, is not. The leader need not be
/// heard of. The replicas in sync stand in the order of their ids.
pub proof fn replicas_in_sync_keep_up(
    m: IsrView,
    logs: Map<(Seq<char>, i32), LogView>,
    now: i64,
    k: (Seq<char>, i32),
    id: u64,
)
    requires
        m.partitions.dom().contains(k),
        logs.dom().contains(k),
    ensures
        ({
            let before = m.partitions[k];
            let known = before.progress.dom().contains(id);
            let behind = logs[k].leo - before.progress[id].fetch_offset;
            let heard = before.progress[id].last_contact_ms;
            let isr = all_ticked(m, logs, now).partitions[k].current_isr;
            &&& !before.all_replicas.contains(id) ==> !isr.contains(id)
            &&& id == m.rules.this_node && before.all_replicas.contains(id) ==> (isr.contains(id) <==> m.rules.lag_max >= 0)
            &&& id != m.rules.this_node && before.all_replicas.contains(id) && known && behind <= m.rules.lag_max && heard > 0
                && now - heard <= m.rules.stale_ms ==> isr.contains(id)
            &&& id != m.rules.this_node && !known ==> !isr.contains(id)
            &&& id != m.rules.this_node && behind > m.rules.lag_max ==> !isr.contains(id)
            &&& id != m.rules.this_node && (heard <= 0 || now - heard > m.rules.stale_ms) ==> !isr.contains(id)
            &&& forall|i: int, j: int| 0 <= i < j < isr.len() ==> #[trigger] isr[i] <= #[trigger] isr[j]
            &&& before.all_replicas.no_duplicates() ==> isr.no_duplicates()
        }),
{
    let s = m.partitions[k];
    let p = in_sync(leader_refreshed(s.progress, m.rules, logs[k].leo, now), m.rules, logs[k].leo, now);
    let f = s.all_replicas.filter(p);
    let isr = ascending(f);
    lemma_filter_holds(s.all_replicas, p);
    ascending_same_ids(f, id);
    ascending_is_sorted(f);
    assert(all_ticked(m, logs, now).partitions[k].current_isr == isr);
    assert forall|i: int, j: int| 0 <= i < j < isr.len() implies #[trigger] isr[i] <= #[trigger] isr[j] by {
        assert(id_order()(isr[i], isr[j]));
    }
    if s.all_replicas.no_duplicates() {
        different_ids_rise(f);
    }
}

/// What a look at the replicas leaves alone: which replicas there are, what is known of
/// all but the leader, whose own log counts, the entries of the logs, and the partitions
/// that are not led here.
pub proof fn ticking_only_moves_watermarks(
    m: IsrView,
    logs: Map<(Seq<char>, i32), LogView>,
    now: i64,
    k: (Seq<char>, i32),
    id: u64,
)
    ensures
        ({
            let after = all_ticked(m, logs, now);
            let moved = logs_ticked(m, logs, now);
            &&& after.rules == m.rules
            &&& after.partitions.dom() == m.partitions.dom()
            &&& moved.dom() == logs.dom()
            &&& m.partitions.dom().contains(k) && !logs.dom().contains(k) ==> after.partitions[k] == m.partitions[k]
            &&& logs.dom().contains(k) && !m.partitions.dom().contains(k) ==> moved[k] == logs[k]
            &&& logs.dom().contains(k) ==> moved[k].entries == logs[k].entries && moved[k].leo == logs[k].leo
            &&& m.partitions.dom().contains(k) ==> after.partitions[k].all_replicas == m.partitions[k].all_replicas
            &&& m.partitions.dom().contains(k) && id != m.rules.this_node ==> after.partitions[k].progress.dom().contains(id)
                == m.partitions[k].progress.dom().contains(id) && after.partitions[k].progress[id]
                == m.partitions[k].progress[id]
            &&& m.partitions.dom().contains(k) && logs.dom().contains(k) ==> after.partitions[k].progress.dom().contains(
                m.rules.this_node,
            ) && after.partitions[k].progress[m.rules.this_node].fetch_offset == logs[k].leo
                && after.partitions[k].progress[m.rules.this_node].last_contact_ms == now
        }),
{
    assert(all_ticked(m, logs, now).partitions.dom() =~= m.partitions.dom());
    assert(logs_ticked(m, logs, now).dom() =~= logs.dom());
}

/// Where the watermark of a partition stands once its replicas were looked at. It never
/// falls. It passes no message that a replica in sync lacks. It has reached what all of
/// them have.
pub proof fn watermark_is_what_all_in_sync_have(
    m: IsrView,
    logs: Map<(Seq<char>, i32), LogView>,
    now: i64,
    k: (Seq<char>, i32),
)
    requires
        m.partitions.dom().contains(k),
        logs.dom().contains(k),
    ensures
        ({
            let isr = all_ticked(m, logs, now).partitions[k].current_isr;
            let old_hw = logs[k].hw;
            let hw = logs_ticked(m, logs, now)[k].hw;
            let reached = |id: u64|
                if id == m.rules.this_node { logs[k].leo } else { m.partitions[k].progress[id].fetch_offset };
            &&& hw >= old_hw
            &&& hw > old_hw ==> forall|i: int| 0 <= i < isr.len() ==> hw <= reached(#[trigger] isr[i])
            &&& isr.len() > 0 ==> exists|i: int| 0 <= i < isr.len() && hw >= reached(#[trigger] isr[i])
            &&& isr.len() == 0 ==> hw == (if old_hw > 0 { old_hw } else { 0i64 })
        }),
{
    let s = m.partitions[k];
    let leo = logs[k].leo;
    let isr = computed_isr(s, m.rules, leo, now);
    let progress = leader_refreshed(s.progress, m.rules, leo, now);
    let reached = |id: u64| if id == m.rules.this_node { leo } else { s.progress[id].fetch_offset };
    watermark_is_the_slowest_in_sync(s, m.rules, leo, now);
    assert forall|i: int| 0 <= i < isr.len() implies progress[#[trigger] isr[i]].fetch_offset == reached(isr[i]) by {}
    if isr.len() > 0 {
        let i = lemma_slowest_is_reached(isr, progress);
        assert(reached(isr[i]) == progress[isr[i]].fetch_offset);
        assert(logs_ticked(m, logs, now)[k].hw >= reached(isr[i]));
    }
}

/// What is reported: exactly the partitions whose replicas in sync have become others or
/// whose watermark has moved, each once, with the replicas in sync and the watermark that
/// they now have.
pub proof fn reports_say_what_changed(
    m: IsrView,
    logs: Map<(Seq<char>, i32), LogView>,
    now: i64,
    r: Seq<ChangeView>,
    k: (Seq<char>, i32),
)
    requires
        are_reports(m, logs, now, r),
    ensures
        (exists|i: int| 0 <= i < r.len() && (#[trigger] r[i]).topic == k.0 && r[i].partition == k.1) <==> (
        m.partitions.dom().contains(k) && logs.dom().contains(k) && (all_ticked(m, logs, now).partitions[k].current_isr
            != m.partitions[k].current_isr || logs_ticked(m, logs, now)[k].hw != logs[k].hw)),
        forall|i: int|
            0 <= i < r.len() && (#[trigger] r[i]).topic == k.0 && r[i].partition == k.1 ==> r[i].new_isr == all_ticked(
                m,
                logs,
                now,
            ).partitions[k].current_isr && r[i].new_hw == logs_ticked(m, logs, now)[k].hw,
        forall|i: int, j: int|
            0 <= i < r.len() && 0 <= j < r.len() && (#[trigger] r[i]).topic == (#[trigger] r[j]).topic && r[i].partition
                == r[j].partition ==> i == j,
{
    if exists|i: int| 0 <= i < r.len() && (#[trigger] r[i]).topic == k.0 && r[i].partition == k.1 {
        let i = choose|i: int| 0 <= i < r.len() && (#[trigger] r[i]).topic == k.0 && r[i].partition == k.1;
        assert(is_reported(m, logs, now, k));
    }
    if m.partitions.dom().contains(k) && logs.dom().contains(k) {
        assert(is_tracked(m, logs, k));
        if isr_changes(m.partitions[k], m.rules, logs[k], now) {
            assert(is_reported(m, logs, now, k));
        }
    }
    assert forall|i: int| 0 <= i < r.len() && (#[trigger] r[i]).topic == k.0 && r[i].partition == k.1 implies r[i].new_isr
        == all_ticked(m, logs, now).partitions[k].current_isr && r[i].new_hw == logs_ticked(m, logs, now)[k].hw by {
        assert(r[i] == isr_report(k, m.partitions[k], m.rules, logs[k], now));
    }
}

/// A broker that has become the leader counts on itself alone: another replica is not in
/// sync before it was heard of.
pub proof fn new_leader_counts_on_itself(
    rules: IsrRules,
    replicas: Seq<u64>,
    isr: Seq<u64>,
    log: LogView,
    then: i64,
    now: i64,
    k: (Seq<char>, i32),
    id: u64,
)
    requires
        rules.lag_max >= 0,
        replicas.contains(rules.this_node),
    ensures
        ({
            let s = IsrStateView {
                all_replicas: replicas,
                progress: seeded(replicas, rules.this_node, log.leo, then),
                current_isr: isr,
            };
            let m = IsrView { partitions: Map::empty().insert(k, s), rules };
            let logs = Map::empty().insert(k, log);
            all_ticked(m, logs, now).partitions[k].current_isr.contains(id) <==> id == rules.this_node
        }),
{
    let s = IsrStateView {
        all_replicas: replicas,
        progress: seeded(replicas, rules.this_node, log.leo, then),
        current_isr: isr,
    };
    let m = IsrView { partitions: Map::empty().insert(k, s), rules };
    let logs = Map::empty().insert(k, log);
    replicas_in_sync_keep_up(m, logs, now, k, id);
}

/// A new leader knows of itself and of the replicas, and of nobody else: of itself how far
/// its own log goes, of any other replica that nothing has been heard of it.
pub proof fn new_leader_has_heard_of_nobody(replicas: Seq<u64>, node: u64, leo: i64, now: i64, id: u64)
    ensures
        seeded(replicas, node, leo, now).dom().contains(id) <==> id == node || exists|i: int|
            0 <= i < replicas.len() && #[trigger] replicas[i] == id,
        seeded(replicas, node, leo, now)[node].fetch_offset == leo,
        seeded(replicas, node, leo, now)[node].last_contact_ms == now,
        id != node && replicas.contains(id) ==> seeded(replicas, node, leo, now)[id].fetch_offset == 0 && seeded(
            replicas,
            node,
            leo,
            now,
        )[id].last_contact_ms == 0,
{
}

} // verus!
