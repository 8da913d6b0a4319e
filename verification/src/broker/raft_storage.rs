//! The replicated log as it is stored: entries by index, the last position, and the
//! vote.
use vstd::prelude::*;
use vstd::string::StringExecFns;

use crate::broker::raft_state_machine::LogId;
use crate::maps::{Dup, VecMap};
use crate::seqs::{lemma_filter_ends, lemma_filter_holds, lemma_filter_step, lemma_next_element};
use crate::text::{
    has_prefix, pad_decimal_u64, padded, padded_has_no_sign, padded_reads_back, parse_u64, strip_prefix, unsigned_number,
};

verus! {

/// An entry as it is stored: its position and its bytes.
#[derive(Debug)]
pub struct StoredEntry {
    pub log_id: LogId,
    pub data: Vec<u8>,
}

/// What a stored entry holds.
#[verifier::ext_equal]
pub struct StoredEntryView {
    pub log_id: LogId,
    pub data: Seq<u8>,
}

impl DeepView for StoredEntry {
    type V = StoredEntryView;

    open spec fn deep_view(&self) -> StoredEntryView {
        StoredEntryView { log_id: self.log_id, data: self.data.deep_view() }
    }
}

impl Dup for StoredEntry {
    fn dup(&self) -> (r: Self) {
        StoredEntry { log_id: self.log_id, data: self.data.dup() }
    }
}

/// Whom a node has voted for, and in which term.
#[derive(Debug, Clone, Copy, PartialEq, Eq, Structural)]
pub struct Vote {
    pub term: u64,
    pub node_id: u64,
    pub committed: bool,
}

/// One position comes before another one: by term, then by leader, then by index.
pub open spec fn log_before(a: LogId, b: LogId) -> bool {
    a.term < b.term || (a.term == b.term && (a.node_id < b.node_id || (a.node_id == b.node_id && a.index < b.index)))
}

/// Whether one position comes before another one.
fn comes_before(a: LogId, b: LogId) -> (r: bool)
    ensures
        r == log_before(a, b),
{
    a.term < b.term || (a.term == b.term && (a.node_id < b.node_id || (a.node_id == b.node_id && a.index < b.index)))
}

/// An end of a range of indices.
#[derive(Debug, Clone, Copy, PartialEq, Eq)]
pub enum IndexBound {
    Included(u64),
    Excluded(u64),
    Unbounded,
}

/// Where a range begins.
pub open spec fn range_start(b: IndexBound) -> int {
    match b {
        IndexBound::Included(n) => n as int,
        IndexBound::Excluded(n) => n + 1,
        IndexBound::Unbounded => 0,
    }
}

/// Before which index a range ends.
pub open spec fn range_end(b: IndexBound) -> int {
    match b {
        IndexBound::Included(n) => n + 1,
        IndexBound::Excluded(n) => n as int,
        IndexBound::Unbounded => u64::MAX as int,
    }
}

/// What is stored.
#[verifier::ext_equal]
pub struct RaftLogView {
    pub logs: Map<u64, StoredEntryView>,
    pub last: Option<LogId>,
    pub vote: Option<Vote>,
}

/// The last position, once an entry is stored.
pub open spec fn later_position(last: Option<LogId>, id: LogId) -> Option<LogId> {
    match last {
        Some(l) if !log_before(l, id) => Some(l),
        _ => Some(id),
    }
}

/// What is stored after an entry was appended.
pub open spec fn entry_appended(s: RaftLogView, e: StoredEntryView) -> RaftLogView {
    RaftLogView { logs: s.logs.insert(e.log_id.index, e), last: later_position(s.last, e.log_id), ..s }
}

/// What is stored after several entries were appended.
pub open spec fn entries_appended(s: RaftLogView, entries: Seq<StoredEntryView>) -> RaftLogView
    decreases entries.len(),
{
    if entries.len() == 0 { s } else { entry_appended(entries_appended(s, entries.drop_last()), entries.last()) }
}

/// What is stored when a vote and entries were found: every entry under its index, and
/// no last position.
pub open spec fn found(vote: Option<Vote>, entries: Seq<StoredEntryView>) -> RaftLogView {
    RaftLogView {
        logs: entries_appended(RaftLogView { logs: Map::empty(), last: None, vote }, entries).logs,
        last: None,
        vote,
    }
}

proof fn lemma_vote_kept(s: RaftLogView, entries: Seq<StoredEntryView>)
    ensures
        entries_appended(s, entries).vote == s.vote,
    decreases entries.len(),
{
    if entries.len() > 0 {
        lemma_vote_kept(s, entries.drop_last());
    }
}

/// An entry that was found is stored under its index, where no later one has the same.
pub proof fn found_entry_is_stored(vote: Option<Vote>, entries: Seq<StoredEntryView>, i: int)
    requires
        0 <= i < entries.len(),
        forall|j: int| i < j < entries.len() ==> (#[trigger] entries[j]).log_id.index != entries[i].log_id.index,
    ensures
        found(vote, entries).logs.dom().contains(entries[i].log_id.index),
        found(vote, entries).logs[entries[i].log_id.index] == entries[i],
    decreases entries.len(),
{
    let front = entries.drop_last();
    if i < front.len() {
        assert(front[i] == entries[i]);
        assert forall|j: int| i < j < front.len() implies (#[trigger] front[j]).log_id.index != front[i].log_id.index by {
            assert(front[j] == entries[j]);
        }
        found_entry_is_stored(vote, front, i);
        assert(entries[entries.len() - 1].log_id.index != entries[i].log_id.index);
    }
}

/// The entries before an index.
pub open spec fn logs_before(logs: Map<u64, StoredEntryView>, index: u64) -> Map<u64, StoredEntryView> {
    Map::new(|i: u64| logs.dom().contains(i) && i < index, |i: u64| logs[i])
}

/// The entries behind an index.
pub open spec fn logs_behind(logs: Map<u64, StoredEntryView>, index: u64) -> Map<u64, StoredEntryView> {
    Map::new(|i: u64| logs.dom().contains(i) && i > index, |i: u64| logs[i])
}

/// What is stored after the entries from an index on were dropped.
pub open spec fn conflicts_deleted(s: RaftLogView, index: u64) -> RaftLogView {
    let logs = logs_before(s.logs, index);
    RaftLogView {
        logs,
        last: if index > 0 && logs.dom().contains((index - 1) as u64) {
            Some(logs[(index - 1) as u64].log_id)
        } else {
            None
        },
        ..s
    }
}

/// The entries of a range, up to the first that is missing.
pub open spec fn run_of(logs: Map<u64, StoredEntryView>, from: int, to: int) -> Seq<StoredEntryView>
    decreases to - from,
{
    if 0 <= from < to && to <= u64::MAX && logs.dom().contains(from as u64) {
        seq![logs[from as u64]] + run_of(logs, from + 1, to)
    } else {
        Seq::empty()
    }
}

/// The stored log.
pub struct BrokerRaftStorage {
    logs: VecMap<u64, StoredEntry>,
    last: Option<LogId>,
    vote: Option<Vote>,
}

impl BrokerRaftStorage {
    /// What is stored.
    pub closed spec fn view(&self) -> RaftLogView {
        RaftLogView { logs: self.logs@, last: self.last, vote: self.vote }
    }

    /// The vote and the entries that were found are stored. Which of the entries is the
    /// last is not known again before something is appended or deleted.
    pub fn new(vote: Option<Vote>, entries: Vec<StoredEntry>) -> (r: Self)
        ensures
            r@ == found(vote, entries.deep_view()),
    {
        let mut r = BrokerRaftStorage { logs: VecMap::new(), last: None, vote };
        r.append_to_log(entries);
        proof {
            lemma_vote_kept(RaftLogView { logs: Map::empty(), last: None, vote }, entries.deep_view());
        }
        r.last = None;
        r
    }

    /// The entry at an index.
    pub fn get_log(&self, index: u64) -> (r: Option<&StoredEntry>)
        ensures
            match r {
                Some(e) => self@.logs.dom().contains(index) && e.deep_view() == self@.logs[index],
                None => !self@.logs.dom().contains(index),
            },
    {
        self.logs.get(&index)
    }

    /// The last position that was appended.
    pub fn get_log_state(&self) -> (r: Option<LogId>)
        ensures
            r == self@.last,
    {
        self.last
    }

    /// Keeps a vote.
    pub fn save_vote(&mut self, vote: Vote)
        ensures
            final(self)@ == (RaftLogView { vote: Some(vote), ..old(self)@ }),
    {
        self.vote = Some(vote);
    }

    /// The vote that was kept.
    pub fn read_vote(&self) -> (r: Option<Vote>)
        ensures
            r == self@.vote,
    {
        self.vote
    }

    /// Appends entries; an entry at the same index is replaced.
    pub fn append_to_log(&mut self, entries: Vec<StoredEntry>)
        ensures
            final(self)@ == entries_appended(old(self)@, entries.deep_view()),
    {
        let ghost start = self@;
        let ghost all = entries.deep_view();
        let n = entries.len();
        let mut i: usize = 0;
        assert(all.take(0) =~= Seq::empty());
        for e in it: entries
            invariant
                it.seq() == entries@,
                all == entries.deep_view(),
                n == all.len(),
                i == it.index(),
                i <= n,
                self@ == entries_appended(start, all.take(i as int)),
        {
            proof {
                assert(e.deep_view() == all[i as int]);
                assert(all.take(i + 1).drop_last() =~= all.take(i as int));
                assert(all.take(i + 1).last() == all[i as int]);
            }
            let id = e.log_id;
            let newer = match self.last {
                None => true,
                Some(l) => comes_before(l, id),
            };
            if newer {
                self.last = Some(id);
            }
            self.logs.insert(id.index, e);
            i += 1;
        }
        assert(all.take(i as int) =~= all);
    }

    /// The entries of a range, up to the first that is missing.
    pub fn try_get_log_entries(&self, start: IndexBound, end: IndexBound) -> (r: Vec<StoredEntry>)
        requires
            range_start(start) <= u64::MAX,
            range_end(end) <= u64::MAX,
        ensures
            r.deep_view() == run_of(self@.logs, range_start(start), range_end(end)),
    {
        let from: u64 = match start {
            IndexBound::Included(n) => n,
            IndexBound::Excluded(n) => n + 1,
            IndexBound::Unbounded => 0,
        };
        let to: u64 = match end {
            IndexBound::Included(n) => n + 1,
            IndexBound::Excluded(n) => n,
            IndexBound::Unbounded => u64::MAX,
        };
        let mut r: Vec<StoredEntry> = Vec::new();
        let mut i: u64 = from;
        proof {
            assert(r.deep_view() =~= Seq::empty());
            assert(r.deep_view() + run_of(self@.logs, i as int, to as int) =~= run_of(
                self@.logs,
                from as int,
                to as int,
            ));
        }
        while i < to
            invariant
                i <= to || i == from,
                from == range_start(start),
                to == range_end(end),
                r.deep_view() + run_of(self@.logs, i as int, to as int) == run_of(self@.logs, from as int, to as int),
            decreases to - i,
        {
            match self.logs.get(&i) {
                None => {
                    assert(run_of(self@.logs, i as int, to as int) =~= Seq::empty());
                    assert(r.deep_view() =~= run_of(self@.logs, from as int, to as int));
                    return r;
                },
                Some(e) => {
                    let ghost before = r.deep_view();
                    let ghost shown = e.deep_view();
                    r.push(e.dup());
                    proof {
                        assert(r.deep_view() =~= before.push(shown));
                        assert(r.deep_view() + run_of(self@.logs, i + 1, to as int) =~= before + run_of(
                            self@.logs,
                            i as int,
                            to as int,
                        ));
                    }
                },
            }
            i += 1;
        }
        assert(r.deep_view() =~= run_of(self@.logs, from as int, to as int));
        r
    }

    /// Drops the entries of a range of indices.
    fn drop_indices(&mut self, from: u64, to: u64)
        ensures
            final(self).logs@ == Map::new(
                |k: u64| old(self).logs@.dom().contains(k) && !(from <= k <= to),
                |k: u64| old(self).logs@[k],
            ),
            final(self).last == old(self).last,
            final(self).vote == old(self).vote,
    {
        let keys = self.logs.keys();
        let ghost start = self.logs@;
        let ghost order = keys.deep_view();
        let mut i: usize = 0;
        proof {
            assert(order =~= keys@);
            assert(order.take(0).to_set() =~= Set::empty());
        }
        while i < keys.len()
            invariant
                i <= keys@.len(),
                order == keys@,
                order.no_duplicates(),
                order.to_set() == start.dom(),
                self.last == old(self).last,
                self.vote == old(self).vote,
                forall|k: u64| #[trigger] self.logs@.dom().contains(k) <==> start.dom().contains(k) && !(from <= k <= to
                    && order.take(i as int).to_set().contains(k)),
                forall|k: u64| #[trigger] self.logs@.dom().contains(k) ==> self.logs@[k] == start[k],
            decreases keys@.len() - i,
        {
            proof {
                lemma_next_element(order, i as int);
            }
            if from <= keys[i] && keys[i] <= to {
                let _ = self.logs.remove(&keys[i]);
            }
            i += 1;
        }
        proof {
            assert(order.take(i as int) =~= order);
            assert(self.logs@ =~= Map::new(
                |k: u64| start.dom().contains(k) && !(from <= k <= to),
                |k: u64| start[k],
            ));
        }
    }

    /// Drops the entries from an index on.
    pub fn delete_conflict_logs_since(&mut self, index: u64)
        ensures
            final(self)@ == conflicts_deleted(old(self)@, index),
    {
        self.drop_indices(index, u64::MAX);
        assert(self.logs@ =~= logs_before(old(self)@.logs, index));
        self.last = if index > 0 {
            match self.logs.get(&(index - 1)) {
                Some(e) => Some(e.log_id),
                None => None,
            }
        } else {
            None
        };
    }

    /// Drops the entries up to an index.
    pub fn purge_logs_upto(&mut self, index: u64)
        ensures
            final(self)@ == (RaftLogView { logs: logs_behind(old(self)@.logs, index), ..old(self)@ }),
    {
        self.drop_indices(0, index);
        assert(self.logs@ =~= logs_behind(old(self)@.logs, index));
    }
}

/// Deleted entries are gone, earlier ones stay, and nothing lies behind the last
/// position that is kept.
pub proof fn deletion_ends_the_log(s: RaftLogView, index: u64, i: u64)
    ensures
        ({
            let after = conflicts_deleted(s, index);
            &&& i >= index ==> !after.logs.dom().contains(i)
            &&& i < index ==> after.logs.dom().contains(i) == s.logs.dom().contains(i)
            &&& i < index && s.logs.dom().contains(i) ==> after.logs[i] == s.logs[i]
        }),
{
}

/// What is read from a range has no gap: entry after entry under consecutive indices.
pub proof fn reading_has_no_gap(logs: Map<u64, StoredEntryView>, from: int, to: int, i: int)
    requires
        0 <= i < run_of(logs, from, to).len(),
    ensures
        0 <= from + i < to <= u64::MAX,
        logs.dom().contains((from + i) as u64),
        run_of(logs, from, to)[i] == logs[(from + i) as u64],
    decreases i,
{
    if i > 0 {
        reading_has_no_gap(logs, from + 1, to, i - 1);
    }
}

/// The key under which an entry is stored.
pub open spec fn entry_key(index: u64) -> Seq<char> {
    "log_"@ + padded(index as int, 20)
}

/// The index that a key stands for.
pub open spec fn key_index(key: Seq<char>) -> Option<int> {
    if has_prefix(key, "log_"@) { unsigned_number(key.skip("log_"@.len() as int)) } else { None }
}

/// The key under which an entry is stored.
pub fn log_key(index: u64) -> (r: String)
    ensures
        r@ == entry_key(index),
{
    let mut r = "log_".to_owned();
    r.append(pad_decimal_u64(index, 20).as_str());
    r
}

/// The index that a key stands for.
pub fn log_index(key: &str) -> (r: Option<u64>)
    ensures
        match r {
            Some(i) => key_index(key@) == Some(i as int),
            None => key_index(key@) is None,
        },
{
    match strip_prefix(key, "log_") {
        Some(rest) => parse_u64(rest.as_str()),
        None => None,
    }
}

/// A key gives its index back.
pub proof fn log_key_reads_back(index: u64)
    ensures
        key_index(entry_key(index)) == Some(index as int),
{
    let p = "log_"@;
    let body = padded(index as int, 20);
    assert(entry_key(index).take(p.len() as int) =~= p);
    assert(entry_key(index).skip(p.len() as int) =~= body);
    padded_reads_back(index as int, 20);
    padded_has_no_sign(index as int, 20);
}

/// The keys among several whose entries are to be dropped from an index on.
pub fn keys_from(keys: &Vec<String>, index: u64) -> (r: Vec<String>)
    ensures
        r.deep_view() == keys.deep_view().filter(at_or_behind(index)),
{
    let ghost all = keys.deep_view();
    let ghost p = at_or_behind(index);
    let mut r: Vec<String> = Vec::new();
    let mut i: usize = 0;
    proof {
        lemma_filter_ends(all, p);
        assert(r.deep_view() =~= Seq::empty());
    }
    while i < keys.len()
        invariant
            i <= keys@.len(),
            all == keys.deep_view(),
            p == at_or_behind(index),
            r.deep_view() == all.take(i as int).filter(p),
        decreases keys@.len() - i,
    {
        let ghost before = r.deep_view();
        proof {
            lemma_filter_step(all, p, i as int);
        }
        if let Some(id) = log_index(keys[i].as_str()) {
            if id >= index {
                r.push(keys[i].dup());
                assert(r.deep_view() =~= before.push(all[i as int]));
            }
        }
        i += 1;
    }
    assert(all.take(i as int) =~= all);
    r
}

/// The key is that of an entry at or behind an index.
pub open spec fn at_or_behind(index: u64) -> spec_fn(Seq<char>) -> bool {
    |key: Seq<char>| key_index(key) matches Some(i) && i >= index
}

/// Positions are in one order: a later term comes after an earlier one whatever the index,
/// and within the entries of one leader the index counts.
pub proof fn positions_are_in_one_order(a: LogId, b: LogId, c: LogId)
    ensures
        a.term < b.term ==> log_before(a, b),
        a.term == b.term && a.node_id == b.node_id ==> (log_before(a, b) <==> a.index < b.index),
        a.term == b.term && a.node_id < b.node_id ==> log_before(a, b),
        !log_before(a, a),
        log_before(a, b) ==> !log_before(b, a),
        log_before(a, b) && log_before(b, c) ==> log_before(a, c),
        a == b || log_before(a, b) || log_before(b, a),
{
}

/// What appending does. The entry is stored under its index, in place of one that was
/// there, and no other index is touched. The last position moves to the entry unless a
/// later one is known. The vote stays.
pub proof fn appending_touches_one_index(s: RaftLogView, e: StoredEntryView, i: u64)
    ensures
        ({
            let after = entries_appended(s, seq![e]);
            &&& after.logs.dom().contains(e.log_id.index)
            &&& after.logs[e.log_id.index] == e
            &&& i != e.log_id.index ==> (after.logs.dom().contains(i) <==> s.logs.dom().contains(i))
            &&& i != e.log_id.index && s.logs.dom().contains(i) ==> after.logs[i] == s.logs[i]
            &&& after.vote == s.vote
            &&& after.last is Some
            &&& s.last is None ==> after.last == Some(e.log_id)
            &&& s.last matches Some(l) ==> (log_before(l, e.log_id) ==> after.last == Some(e.log_id)) && (!log_before(
                l,
                e.log_id,
            ) ==> after.last == Some(l))
        }),
{
    assert(seq![e].drop_last() =~= Seq::empty());
    assert(seq![e].last() == e);
    reveal_with_fuel(entries_appended, 2);
}

/// Entries are appended one after the other.
pub proof fn appending_goes_entry_by_entry(s: RaftLogView, a: Seq<StoredEntryView>, b: Seq<StoredEntryView>)
    ensures
        entries_appended(s, a + b) == entries_appended(entries_appended(s, a), b),
    decreases b.len(),
{
    if b.len() == 0 {
        assert(a + b =~= a);
    } else {
        assert((a + b).drop_last() =~= a + b.drop_last());
        assert((a + b).last() == b.last());
        appending_goes_entry_by_entry(s, a, b.drop_last());
    }
}

/// After entries from an index on were dropped, the last position is that of the entry
/// just before, where there is one. The vote stays.
pub proof fn deletion_sets_the_last_position_back(s: RaftLogView, index: u64)
    ensures
        ({
            let after = conflicts_deleted(s, index);
            &&& after.vote == s.vote
            &&& index > 0 && s.logs.dom().contains((index - 1) as u64) ==> after.last == Some(
                s.logs[(index - 1) as u64].log_id,
            )
            &&& index == 0 || !s.logs.dom().contains((index - 1) as u64) ==> after.last is None
        }),
{
}

/// Entries up to an index are dropped, and those behind it stay.
pub proof fn purging_keeps_what_lies_behind(logs: Map<u64, StoredEntryView>, index: u64, i: u64)
    ensures
        logs_behind(logs, index).dom().contains(i) <==> logs.dom().contains(i) && i > index,
        logs_behind(logs, index).dom().contains(i) ==> logs_behind(logs, index)[i] == logs[i],
{
}

/// Reading a range goes on until it ends or an entry is missing.
pub proof fn reading_stops_at_a_gap(logs: Map<u64, StoredEntryView>, from: int, to: int)
    requires
        0 <= from,
        to <= u64::MAX,
    ensures
        from + run_of(logs, from, to).len() >= to || !logs.dom().contains((from + run_of(logs, from, to).len()) as u64),
        from <= to ==> from + run_of(logs, from, to).len() <= to,
    decreases to - from,
{
    if 0 <= from < to && to <= u64::MAX && logs.dom().contains(from as u64) {
        reading_stops_at_a_gap(logs, from + 1, to);
    }
}

/// A range of indices is meant as its ends say; without an end it goes from the first
/// index to the last.
pub proof fn ranges_are_meant_as_stated(n: u64)
    ensures
        range_start(IndexBound::Included(n)) == n,
        range_start(IndexBound::Excluded(n)) == n + 1,
        range_start(IndexBound::Unbounded) == 0,
        range_end(IndexBound::Included(n)) == n + 1,
        range_end(IndexBound::Excluded(n)) == n,
        range_end(IndexBound::Unbounded) == u64::MAX,
{
}

/// The keys that are dropped from an index on are exactly those of entries at or behind
/// it.
pub proof fn keys_of_dropped_entries(keys: Seq<Seq<char>>, index: u64, key: Seq<char>)
    ensures
        keys.filter(at_or_behind(index)).contains(key) <==> keys.contains(key) && (key_index(key) matches Some(i) && i
            >= index),
{
    lemma_filter_holds(keys, at_or_behind(index));
}

/// Entries and a vote that were found are all there is, and the last position is not
/// known.
pub proof fn nothing_else_is_found(vote: Option<Vote>, entries: Seq<StoredEntryView>, index: u64)
    ensures
        found(vote, entries).vote == vote,
        found(vote, entries).last is None,
        found(vote, entries).logs.dom().contains(index) ==> exists|i: int|
            0 <= i < entries.len() && (#[trigger] entries[i]).log_id.index == index,
    decreases entries.len(),
{
    if entries.len() > 0 {
        let front = entries.drop_last();
        nothing_else_is_found(vote, front, index);
        assert(entries.last() == entries[entries.len() - 1]);
        if found(vote, front).logs.dom().contains(index) {
            let i = choose|i: int| 0 <= i < front.len() && (#[trigger] front[i]).log_id.index == index;
            assert(entries[i].log_id.index == index);
        }
    }
}

} // verus!
