//! How a follower copies the log of its leader.
use vstd::prelude::*;

use crate::broker::partition_log::{
    entry_layout, entry_of, log_advanced, log_appended, log_stays_valid, message_fits, message_reads_back, valid_log,
    LogView, PartitionLog,
};
use crate::broker::raft::MessageView;
use crate::maps::{Dup, VecSet};

verus! {

/// A record as the leader hands it out.
#[derive(Debug)]
pub struct FetchedRecord {
    pub key: Option<Vec<u8>>,
    pub value: Vec<u8>,
}

/// What a record holds.
#[verifier::ext_equal]
pub struct RecordView {
    pub key: Option<Seq<u8>>,
    pub value: Seq<u8>,
}

impl DeepView for FetchedRecord {
    type V = RecordView;

    open spec fn deep_view(&self) -> RecordView {
        RecordView { key: self.key.deep_view(), value: self.value.deep_view() }
    }
}

/// What a leader answers to a fetch.
#[derive(Debug)]
pub struct FetchResult {
    /// The records from the requested offset on.
    pub records: Vec<FetchedRecord>,
    /// The leader's watermark.
    pub leader_hw: i64,
}

/// How much a follower asks for at once.
pub const MAX_FETCH_BYTES: i32 = 1_048_576;

/// How long a follower waits for new records.
pub const POLL_INTERVAL_MS: u64 = 50;

/// How long a follower waits after a failure.
pub const BACKOFF_MS: u64 = 500;

/// The log with records appended.
pub open spec fn all_appended(log: LogView, records: Seq<RecordView>, now: i64) -> LogView
    decreases records.len(),
{
    if records.len() == 0 {
        log
    } else {
        log_appended(all_appended(log, records.drop_last(), now), records.last().key, records.last().value, now)
    }
}

/// The log of a follower after a fetch: it never reads beyond the leader's watermark
/// nor beyond its own end.
pub open spec fn replicated(log: LogView, records: Seq<RecordView>, leader_hw: i64, now: i64) -> LogView {
    let copied = all_appended(log, records, now);
    if records.len() == 0 {
        log
    } else {
        log_advanced(copied, if leader_hw < copied.leo { leader_hw } else { copied.leo })
    }
}

/// The entry of a record in the log of a follower.
pub open spec fn copied_entry(log: LogView, records: Seq<RecordView>, now: i64, i: int) -> (i64, Seq<u8>) {
    let offset = (log.leo + i) as i64;
    (
        offset,
        entry_layout(MessageView { offset, key: records[i].key, value: records[i].value, timestamp_ms: now }),
    )
}

proof fn lemma_all_appended(log: LogView, records: Seq<RecordView>, now: i64)
    requires
        valid_log(log),
        log.leo + records.len() <= i64::MAX,
    ensures
        all_appended(log, records, now).leo == log.leo + records.len(),
        all_appended(log, records, now).hw == log.hw,
        all_appended(log, records, now).entries.len() == log.entries.len() + records.len(),
        all_appended(log, records, now).entries.take(log.entries.len() as int) == log.entries,
        forall|i: int|
            0 <= i < records.len() ==> #[trigger] all_appended(log, records, now).entries[log.entries.len() + i]
                == copied_entry(log, records, now, i),
        valid_log(all_appended(log, records, now)),
    decreases records.len(),
{
    if records.len() == 0 {
        assert(log.entries.take(log.entries.len() as int) =~= log.entries);
    } else {
        lemma_all_appended(log, records.drop_last(), now);
        let before = all_appended(log, records.drop_last(), now);
        log_stays_valid(before, records.last().key, records.last().value, now, 0, 0);
        let after = all_appended(log, records, now);
        assert(after.entries.take(log.entries.len() as int) =~= before.entries.take(log.entries.len() as int));
        assert forall|i: int| 0 <= i < records.len() implies #[trigger] after.entries[log.entries.len() + i]
            == copied_entry(log, records, now, i) by {
            if i < records.len() - 1 {
                assert(after.entries[log.entries.len() + i] == before.entries[log.entries.len() + i]);
                assert(copied_entry(log, records.drop_last(), now, i) == copied_entry(log, records, now, i));
            }
        }
    }
}

/// A follower keeps what it has, stores every record under the next offset, and lets
/// nobody read beyond what its leader allows, beyond its own end, or less than before.
pub proof fn follower_copies_faithfully(log: LogView, records: Seq<RecordView>, leader_hw: i64, now: i64)
    requires
        valid_log(log),
        log.leo + records.len() <= i64::MAX,
        log.hw <= log.leo,
    ensures
        ({
            let r = replicated(log, records, leader_hw, now);
            &&& valid_log(r)
            &&& r.leo == log.leo + records.len()
            &&& r.entries.len() == log.entries.len() + records.len()
            &&& r.entries.take(log.entries.len() as int) == log.entries
            &&& forall|i: int|
                0 <= i < records.len() ==> #[trigger] r.entries[log.entries.len() + i] == copied_entry(
                    log,
                    records,
                    now,
                    i,
                )
            &&& log.hw <= r.hw <= r.leo
            &&& r.hw > log.hw ==> r.hw <= leader_hw
        }),
{
    lemma_all_appended(log, records, now);
    let copied = all_appended(log, records, now);
    log_stays_valid(copied, None, Seq::empty(), now, if leader_hw < copied.leo { leader_hw } else { copied.leo }, 0);
    assert(log.entries.take(log.entries.len() as int) =~= log.entries);
}

/// The offset that a follower fetches next.
pub fn next_fetch_offset(log: &PartitionLog) -> (r: i64)
    ensures
        r == log@.leo,
{
    log.log_end_offset()
}

/// Takes in what a fetch brought, and says for how many milliseconds to wait before
/// the next one.
pub fn handle_fetch(log: &mut PartitionLog, fetched: Option<FetchResult>, now: i64) -> (wait_ms: u64)
    requires
        fetched matches Some(f) ==> old(log)@.leo + f.records@.len() <= i64::MAX,
    ensures
        match fetched {
            None => final(log)@ == old(log)@ && wait_ms == BACKOFF_MS,
            Some(f) => {
                &&& final(log)@ == replicated(old(log)@, f.records.deep_view(), f.leader_hw, now)
                &&& wait_ms == (if f.records@.len() == 0 { POLL_INTERVAL_MS } else { 0 })
            },
        },
{
    match fetched {
        None => BACKOFF_MS,
        Some(f) => {
            if f.records.len() == 0 {
                return POLL_INTERVAL_MS;
            }
            let ghost start = log@;
            let ghost all = f.records.deep_view();
            let n = f.records.len();
            let mut i: usize = 0;
            let records = f.records;
            assert(all.take(0) =~= Seq::empty());
            for record in it: records
                invariant
                    it.seq() == records@,
                    all == records.deep_view(),
                    n == all.len(),
                    i == it.index(),
                    start.leo + n <= i64::MAX,
                    log@.leo == start.leo + i,
                    log@ == all_appended(start, all.take(i as int), now),
            {
                let ghost r = record.deep_view();
                assert(r == all[i as int]);
                let _ = log.append(record.key, record.value, now);
                assert(all.take(i + 1).drop_last() =~= all.take(i as int));
                assert(all.take(i + 1).last() == r);
                i += 1;
            }
            assert(all.take(i as int) =~= all);
            let our_leo = log.log_end_offset();
            let hw = if f.leader_hw < our_leo {
                f.leader_hw
            } else {
                our_leo
            };
            let _ = log.advance_hw(hw);
            0
        },
    }
}

/// Which partitions are being copied from a leader.
pub struct ReplicationManager {
    tasks: VecSet<(String, i32)>,
}

impl ReplicationManager {
    /// The partitions that are being copied.
    pub closed spec fn view(&self) -> Set<(Seq<char>, i32)> {
        self.tasks@
    }

    /// Nothing is being copied.
    pub fn new() -> (r: Self)
        ensures
            r@ == Set::<(Seq<char>, i32)>::empty(),
    {
        ReplicationManager { tasks: VecSet::new() }
    }

    /// A partition is copied from now on. Returns whether it was copied before, so
    /// that the earlier task is to be ended.
    pub fn start_fetch_task(&mut self, topic: String, partition: i32) -> (replaced: bool)
        ensures
            replaced == old(self)@.contains((topic@, partition)),
            final(self)@ == old(self)@.insert((topic@, partition)),
    {
        let key = (topic, partition);
        let replaced = self.tasks.contains(&key);
        self.tasks.insert(key);
        replaced
    }

    /// A partition is copied no longer. Returns whether it was, so that its task is
    /// to be ended.
    pub fn stop_fetch_task(&mut self, topic: &String, partition: i32) -> (running: bool)
        ensures
            running == old(self)@.contains((topic@, partition)),
            final(self)@ == old(self)@.remove((topic@, partition)),
    {
        let key = (topic.dup(), partition);
        let running = self.tasks.contains(&key);
        self.tasks.remove(&key);
        running
    }

    /// A partition is copied from another leader from now on.
    pub fn update_leader(&mut self, topic: String, partition: i32) -> (replaced: bool)
        ensures
            replaced == old(self)@.contains((topic@, partition)),
            final(self)@ == old(self)@.insert((topic@, partition)),
    {
        self.start_fetch_task(topic, partition)
    }

    /// Nothing is copied any longer. Returns what was.
    pub fn stop_all(&mut self) -> (running: Vec<(String, i32)>)
        ensures
            final(self)@ == Set::<(Seq<char>, i32)>::empty(),
            running.deep_view().to_set() == old(self)@,
            running.deep_view().no_duplicates(),
    {
        let running = self.tasks.elements();
        self.tasks = VecSet::new();
        running
    }

    /// How many partitions are being copied.
    pub fn active_task_count(&self) -> (n: usize)
        ensures
            n == self@.len(),
    {
        self.tasks.len()
    }
}

impl Default for ReplicationManager {
    fn default() -> (r: Self)
        ensures
            r@ == Set::<(Seq<char>, i32)>::empty(),
    {
        ReplicationManager::new()
    }
}

/// How far a follower lets others read. A fetch that brings records takes its watermark
/// to the leader's, or to its own end where that comes first, and never back. One that
/// brings none changes nothing.
pub proof fn follower_watermark_follows_the_leader(log: LogView, records: Seq<RecordView>, leader_hw: i64, now: i64)
    requires
        valid_log(log),
        log.leo + records.len() <= i64::MAX,
        log.hw <= log.leo,
    ensures
        ({
            let r = replicated(log, records, leader_hw, now);
            let end = log.leo + records.len();
            &&& records.len() == 0 ==> r == log
            &&& records.len() > 0 && leader_hw >= end ==> r.hw == end
            &&& records.len() > 0 && log.hw <= leader_hw < end ==> r.hw == leader_hw
            &&& records.len() > 0 && leader_hw < log.hw ==> r.hw == log.hw
        }),
{
    lemma_all_appended(log, records, now);
}

/// A follower that is handed records stores them under consecutive offsets, each with its
/// own key and value, behind what it has.
pub proof fn follower_numbers_records_on(log: LogView, records: Seq<RecordView>, leader_hw: i64, now: i64, i: int)
    requires
        valid_log(log),
        log.leo + records.len() <= i64::MAX,
        0 <= i < records.len(),
        message_fits(records[i].key, records[i].value),
    ensures
        ({
            let e = replicated(log, records, leader_hw, now).entries[log.entries.len() + i];
            &&& e.0 == log.leo + i
            &&& entry_of(e.1) matches Some(m) && m.offset == log.leo + i && m.key == records[i].key && m.value
                == records[i].value && m.timestamp_ms == now
        }),
{
    lemma_all_appended(log, records, now);
    let offset = (log.leo + i) as i64;
    let m = MessageView { offset, key: records[i].key, value: records[i].value, timestamp_ms: now };
    let e = replicated(log, records, leader_hw, now).entries[log.entries.len() + i];
    assert(e == copied_entry(log, records, now, i));
    message_reads_back(m);
}

} // verus!
