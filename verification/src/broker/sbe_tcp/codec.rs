//! The binary layout of replication messages. All numbers are little-endian.
//!
//! ```text
//! header        block_length u16, template u16, schema u16, version u16
//! fixed block   msg_type u32, to u64, from u64, term u64, log_term u64,
//!               index u64, commit u64, commit_term u64, request_snapshot u64,
//!               reject u8, reject_hint u64, priority i64,
//!               num_entries u32, context_len u32, snapshot_len u32
//! variable part context, snapshot, then every entry:
//!               entry_type u32, term u64, index u64, data_len u32, ctx_len u32,
//!               data, ctx
//! ```
use bytes::BytesMut;
use vstd::prelude::*;
use vstd::string::StringExecFns;

use crate::broker::sbe_tcp::buffer::{buffered, put_slice};
use crate::text::{decimal_text, decimal_u64};
use crate::wire::{
    bits_of_i32, bits_of_i64, byte_bound, get_le, i32_of_bits, i64_of_bits, le, le_reads_back, le_value, lemma_bounds,
    lemma_le_len, put_le, signed32, signed64, twos32, twos64};

verus! {

/// The length of the fixed block.
pub const FIXED_BLOCK_LEN: usize = 97;

/// The length of the header.
pub const SBE_HEADER_LEN: usize = 8;

/// No message is shorter than this.
pub const MIN_MSG_LEN: usize = 105;

/// The length of what stands before an entry's bytes.
pub const ENTRY_HEADER_LEN: usize = 28;

/// An entry of the replicated log.
#[derive(Debug)]
pub struct Entry {
    pub entry_type: i32,
    pub term: u64,
    pub index: u64,
    pub data: Vec<u8>,
    pub context: Vec<u8>,
}

/// What an entry holds.
#[verifier::ext_equal]
pub struct EntryView {
    pub entry_type: i32,
    pub term: u64,
    pub index: u64,
    pub data: Seq<u8>,
    pub context: Seq<u8>,
}

impl DeepView for Entry {
    type V = EntryView;

    open spec fn deep_view(&self) -> EntryView {
        EntryView {
            entry_type: self.entry_type,
            term: self.term,
            index: self.index,
            data: self.data@,
            context: self.context@,
        }
    }
}

/// Who takes part in the replication.
#[derive(Debug)]
pub struct ConfState {
    pub voters: Vec<u64>,
    pub learners: Vec<u64>,
    pub voters_outgoing: Vec<u64>,
    pub learners_next: Vec<u64>,
    pub auto_leave: bool,
}

/// Who takes part in the replication.
#[verifier::ext_equal]
pub struct ConfView {
    pub voters: Seq<u64>,
    pub learners: Seq<u64>,
    pub voters_outgoing: Seq<u64>,
    pub learners_next: Seq<u64>,
    pub auto_leave: bool,
}

impl DeepView for ConfState {
    type V = ConfView;

    open spec fn deep_view(&self) -> ConfView {
        ConfView {
            voters: self.voters@,
            learners: self.learners@,
            voters_outgoing: self.voters_outgoing@,
            learners_next: self.learners_next@,
            auto_leave: self.auto_leave,
        }
    }
}

/// Up to where a snapshot goes.
#[derive(Debug)]
pub struct SnapshotMetadata {
    pub conf_state: Option<ConfState>,
    pub index: u64,
    pub term: u64,
}

/// Up to where a snapshot goes.
#[verifier::ext_equal]
pub struct SnapshotMetaView {
    pub conf_state: Option<ConfView>,
    pub index: u64,
    pub term: u64,
}

impl DeepView for SnapshotMetadata {
    type V = SnapshotMetaView;

    open spec fn deep_view(&self) -> SnapshotMetaView {
        SnapshotMetaView { conf_state: self.conf_state.deep_view(), index: self.index, term: self.term }
    }
}

/// A snapshot of the replicated state.
#[derive(Debug)]
pub struct Snapshot {
    pub data: Vec<u8>,
    pub metadata: Option<SnapshotMetadata>,
}

/// What a snapshot holds.
#[verifier::ext_equal]
pub struct SnapshotView {
    pub data: Seq<u8>,
    pub metadata: Option<SnapshotMetaView>,
}

impl DeepView for Snapshot {
    type V = SnapshotView;

    open spec fn deep_view(&self) -> SnapshotView {
        SnapshotView { data: self.data@, metadata: self.metadata.deep_view() }
    }
}

/// A snapshot that goes up to no index is none.
pub open spec fn snapshot_empty(s: SnapshotView) -> bool {
    match s.metadata {
        Some(m) => m.index == 0,
        None => true,
    }
}

impl Snapshot {
    /// Whether the snapshot goes up to no index.
    pub fn is_empty(&self) -> (b: bool)
        ensures
            b == snapshot_empty(self.deep_view()),
    {
        match &self.metadata {
            Some(m) => m.index == 0,
            None => true,
        }
    }
}

/// A message between replicas.
#[derive(Debug)]
pub struct Message {
    pub msg_type: i32,
    pub to: u64,
    pub from: u64,
    pub term: u64,
    pub log_term: u64,
    pub index: u64,
    pub commit: u64,
    pub commit_term: u64,
    pub request_snapshot: u64,
    pub reject: bool,
    pub reject_hint: u64,
    pub priority: i64,
    pub context: Vec<u8>,
    pub snapshot: Option<Snapshot>,
    pub entries: Vec<Entry>,
}

/// What a message holds.
#[verifier::ext_equal]
pub struct MessageView {
    pub msg_type: i32,
    pub to: u64,
    pub from: u64,
    pub term: u64,
    pub log_term: u64,
    pub index: u64,
    pub commit: u64,
    pub commit_term: u64,
    pub request_snapshot: u64,
    pub reject: bool,
    pub reject_hint: u64,
    pub priority: i64,
    pub context: Seq<u8>,
    pub snapshot: Option<SnapshotView>,
    pub entries: Seq<EntryView>,
}

impl DeepView for Message {
    type V = MessageView;

    open spec fn deep_view(&self) -> MessageView {
        MessageView {
            msg_type: self.msg_type,
            to: self.to,
            from: self.from,
            term: self.term,
            log_term: self.log_term,
            index: self.index,
            commit: self.commit,
            commit_term: self.commit_term,
            request_snapshot: self.request_snapshot,
            reject: self.reject,
            reject_hint: self.reject_hint,
            priority: self.priority,
            context: self.context@,
            snapshot: self.snapshot.deep_view(),
            entries: self.entries.deep_view(),
        }
    }
}

impl Default for Message {
    fn default() -> (r: Self)
        ensures
            r.deep_view() == (MessageView {
                msg_type: 0,
                to: 0,
                from: 0,
                term: 0,
                log_term: 0,
                index: 0,
                commit: 0,
                commit_term: 0,
                request_snapshot: 0,
                reject: false,
                reject_hint: 0,
                priority: 0,
                context: Seq::empty(),
                snapshot: None,
                entries: Seq::empty(),
            }),
    {
        let r = Message {
            msg_type: 0,
            to: 0,
            from: 0,
            term: 0,
            log_term: 0,
            index: 0,
            commit: 0,
            commit_term: 0,
            request_snapshot: 0,
            reject: false,
            reject_hint: 0,
            priority: 0,
            context: Vec::new(),
            snapshot: None,
            entries: Vec::new(),
        };
        assert(r.entries.deep_view() =~= Seq::empty());
        r
    }
}

/// The protobuf form of a snapshot.
pub uninterp spec fn snapshot_bytes(s: SnapshotView) -> Seq<u8>;

/// The snapshot that protobuf bytes hold, where they are well-formed.
pub uninterp spec fn snapshot_of_bytes(b: Seq<u8>) -> Option<SnapshotView>;

/// `write_to_bytes` on the snapshot type of the `raft` crate, which `prost` encodes.
/// Reading what it writes gives the same snapshot, and it writes at least a byte where
/// the snapshot goes up to some index.
#[verifier::external_body]
fn write_snapshot(s: &Snapshot) -> (r: Vec<u8>)
    ensures
        r@ == snapshot_bytes(s.deep_view()),
        snapshot_of_bytes(r@) == Some(s.deep_view()),
        !snapshot_empty(s.deep_view()) ==> r@.len() > 0,
{
    let metadata = s.metadata.as_ref().map(|m| raft::eraftpb::SnapshotMetadata {
        conf_state: m.conf_state.as_ref().map(|c| raft::eraftpb::ConfState {
            voters: c.voters.clone(),
            learners: c.learners.clone(),
            voters_outgoing: c.voters_outgoing.clone(),
            learners_next: c.learners_next.clone(),
            auto_leave: c.auto_leave,
        }),
        index: m.index,
        term: m.term,
    });
    let out = raft::eraftpb::Snapshot { data: s.data.clone(), metadata };
    protobuf::Message::write_to_bytes(&out).unwrap_or_default()
}

/// `merge_from_bytes` on the snapshot type of the `raft` crate, which `prost` decodes;
/// malformed bytes are answered by `None`.
#[verifier::external_body]
fn parse_snapshot(bytes: &[u8]) -> (r: Option<Snapshot>)
    ensures
        r.deep_view() == snapshot_of_bytes(bytes@),
{
    let mut s = raft::eraftpb::Snapshot::default();
    protobuf::Message::merge_from_bytes(&mut s, bytes).ok()?;
    let metadata = s.metadata.map(|m| SnapshotMetadata {
        conf_state: m.conf_state.map(|c| ConfState {
            voters: c.voters,
            learners: c.learners,
            voters_outgoing: c.voters_outgoing,
            learners_next: c.learners_next,
            auto_leave: c.auto_leave,
        }),
        index: m.index,
        term: m.term,
    });
    Some(Snapshot { data: s.data, metadata })
}

/// A truth value as a number.
pub open spec fn flag(b: bool) -> nat {
    if b { 1 } else { 0 }
}

/// What stands for a message's snapshot; an empty one is left out.
pub open spec fn snapshot_part(m: MessageView) -> Seq<u8> {
    match m.snapshot {
        Some(s) => if snapshot_empty(s) { Seq::empty() } else { snapshot_bytes(s) },
        None => Seq::empty(),
    }
}

/// The header.
pub open spec fn header_part() -> Seq<u8> {
    le(97, 2) + le(1, 2) + le(1, 2) + le(1, 2)
}

/// The fixed block.
#[verifier::opaque]
pub open spec fn fixed_part(m: MessageView) -> Seq<u8> {
    le(twos32(m.msg_type), 4) + le(m.to as nat, 8) + le(m.from as nat, 8) + le(m.term as nat, 8) + le(
        m.log_term as nat,
        8,
    ) + le(m.index as nat, 8) + le(m.commit as nat, 8) + le(m.commit_term as nat, 8) + le(m.request_snapshot as nat, 8)
        + le(flag(m.reject), 1) + le(m.reject_hint as nat, 8) + le(twos64(m.priority), 8) + le(m.entries.len(), 4) + le(
        m.context.len(),
        4,
    ) + le(snapshot_part(m).len(), 4)
}

/// An entry.
pub open spec fn entry_part(e: EntryView) -> Seq<u8> {
    le(twos32(e.entry_type), 4) + le(e.term as nat, 8) + le(e.index as nat, 8) + le(e.data.len(), 4) + le(
        e.context.len(),
        4,
    ) + e.data + e.context
}

/// A row of entries.
pub open spec fn entries_part(s: Seq<EntryView>) -> Seq<u8>
    decreases s.len(),
{
    if s.len() == 0 { Seq::empty() } else { entry_part(s[0]) + entries_part(s.skip(1)) }
}

/// A message in binary form.
pub open spec fn payload(m: MessageView) -> Seq<u8> {
    header_part() + fixed_part(m) + m.context + snapshot_part(m) + entries_part(m.entries)
}

/// The number in `k` bytes of a row.
pub open spec fn number_at(src: Seq<u8>, off: int, k: nat) -> nat {
    le_value(src.subrange(off, off + k))
}

/// `n` bytes of a row, where it is long enough.
pub open spec fn bytes_at(src: Seq<u8>, at: int, n: nat) -> Option<Seq<u8>> {
    if at + n <= src.len() { Some(src.subrange(at, at + n)) } else { None }
}

/// The entry that starts at a place, and where it ends.
pub open spec fn entry_at(src: Seq<u8>, at: int) -> Option<(EntryView, int)> {
    if at + 28 > src.len() {
        None
    } else {
        let data_len = number_at(src, at + 20, 4);
        let ctx_len = number_at(src, at + 24, 4);
        match (bytes_at(src, at + 28, data_len), bytes_at(src, at + 28 + data_len, ctx_len)) {
            (Some(data), Some(context)) => Some(
                (
                    EntryView {
                        entry_type: signed32(number_at(src, at, 4)),
                        term: number_at(src, at + 4, 8) as u64,
                        index: number_at(src, at + 12, 8) as u64,
                        data,
                        context,
                    },
                    at + 28 + data_len + ctx_len,
                ),
            ),
            _ => None,
        }
    }
}

/// Entries read one after the other until there are `n`, or the position of the
/// one that is cut short.
pub open spec fn entries_at(src: Seq<u8>, at: int, n: nat, done: Seq<EntryView>) -> Result<Seq<EntryView>, nat>
    decreases n - done.len(),
{
    if done.len() >= n {
        Ok(done)
    } else {
        match entry_at(src, at) {
            Some((e, end)) => entries_at(src, end, n, done.push(e)),
            None => Err(done.len()),
        }
    }
}

/// Why bytes are no message.
#[derive(Debug, PartialEq, Eq, Clone, Copy)]
pub enum SbeError {
    /// They are fewer than the shortest message has.
    TooShort { len: usize },
    /// The header speaks of a fixed block that is too short.
    BlockTooShort { block_length: usize },
    /// They end inside the context.
    Context,
    /// They end inside the snapshot.
    Snapshot,
    /// The snapshot is malformed.
    SnapshotMalformed,
    /// They end inside this entry.
    Entry { index: usize },
}

/// The message of an error.
pub open spec fn sbe_message(e: SbeError) -> Seq<char> {
    match e {
        SbeError::TooShort { len } => "SBE decode: buffer too short ("@ + decimal_text(len as int) + " < 105)"@,
        SbeError::BlockTooShort { block_length } => "SBE decode: block_length "@ + decimal_text(block_length as int)
            + " < expected 97"@,
        SbeError::Context => "SBE decode: context"@,
        SbeError::Snapshot => "SBE decode: snapshot"@,
        SbeError::SnapshotMalformed => "SBE decode: prost snapshot"@,
        SbeError::Entry { index } => "SBE decode: entry "@ + decimal_text(index as int),
    }
}

impl SbeError {
    /// The message of the error.
    pub fn to_string(&self) -> (r: String)
        ensures
            r@ == sbe_message(*self),
    {
        match *self {
            SbeError::TooShort { len } => {
                let mut r = "SBE decode: buffer too short (".to_owned();
                r.append(decimal_u64(len as u64).as_str());
                r.append(" < 105)");
                r
            },
            SbeError::BlockTooShort { block_length } => {
                let mut r = "SBE decode: block_length ".to_owned();
                r.append(decimal_u64(block_length as u64).as_str());
                r.append(" < expected 97");
                r
            },
            SbeError::Context => "SBE decode: context".to_owned(),
            SbeError::Snapshot => "SBE decode: snapshot".to_owned(),
            SbeError::SnapshotMalformed => "SBE decode: prost snapshot".to_owned(),
            SbeError::Entry { index } => {
                let mut r = "SBE decode: entry ".to_owned();
                r.append(decimal_u64(index as u64).as_str());
                r
            },
        }
    }
}

/// The snapshot of a message.
pub open spec fn snapshot_at(src: Seq<u8>, at: int, n: nat) -> Result<Option<SnapshotView>, SbeError> {
    if n == 0 {
        Ok(None)
    } else {
        match bytes_at(src, at, n) {
            None => Err(SbeError::Snapshot),
            Some(raw) => match snapshot_of_bytes(raw) {
                None => Err(SbeError::SnapshotMalformed),
                Some(s) => Ok(Some(s)),
            },
        }
    }
}

/// The message that bytes hold.
#[verifier::opaque]
pub open spec fn decoded(src: Seq<u8>) -> Result<MessageView, SbeError> {
    let block = number_at(src, 0, 2);
    let n = number_at(src, 93, 4);
    let context_len = number_at(src, 97, 4);
    let snapshot_len = number_at(src, 101, 4);
    let start = 8 + block;
    let after = start + context_len + snapshot_len;
    if src.len() < 105 {
        Err(SbeError::TooShort { len: src.len() as usize })
    } else if block < 97 {
        Err(SbeError::BlockTooShort { block_length: block as usize })
    } else {
        match bytes_at(src, start as int, context_len) {
            None => Err(SbeError::Context),
            Some(context) => match snapshot_at(src, (start + context_len) as int, snapshot_len) {
                Err(e) => Err(e),
                Ok(snapshot) => match entries_at(src, after as int, n, Seq::empty()) {
                    Err(i) => Err(SbeError::Entry { index: i as usize }),
                    Ok(entries) => Ok(
                        MessageView {
                            msg_type: signed32(number_at(src, 8, 4)),
                            to: number_at(src, 12, 8) as u64,
                            from: number_at(src, 20, 8) as u64,
                            term: number_at(src, 28, 8) as u64,
                            log_term: number_at(src, 36, 8) as u64,
                            index: number_at(src, 44, 8) as u64,
                            commit: number_at(src, 52, 8) as u64,
                            commit_term: number_at(src, 60, 8) as u64,
                            request_snapshot: number_at(src, 68, 8) as u64,
                            reject: number_at(src, 76, 1) != 0,
                            reject_hint: number_at(src, 77, 8) as u64,
                            priority: signed64(number_at(src, 85, 8)),
                            context,
                            snapshot,
                            entries,
                        },
                    ),
                },
            },
        }
    }
}

/// A row of bytes as a vector.
fn bytes_of(src: &[u8], at: usize, n: usize) -> (r: Option<Vec<u8>>)
    ensures
        r.deep_view() == bytes_at(src@, at as int, n as nat),
{
    if at > src.len() || n > src.len() - at {
        None
    } else {
        let part = vstd::slice::slice_subrange(src, at, at + n);
        let r = vstd::slice::slice_to_vec(part);
        assert(r.deep_view() =~= r@);
        Some(r)
    }
}

fn decode_entry(src: &[u8], at: usize) -> (r: Option<(Entry, usize)>)
    ensures
        match r {
            Some((e, end)) => entry_at(src@, at as int) == Some((e.deep_view(), end as int)) && end <= src@.len(),
            None => entry_at(src@, at as int) is None,
        },
{
    if at > src.len() || ENTRY_HEADER_LEN > src.len() - at {
        return None;
    }
    proof {
        lemma_bounds();
    }
    let entry_type = i32_of_bits(get_le(src, at, 4) as u32);
    let term = get_le(src, at + 4, 8);
    let index = get_le(src, at + 12, 8);
    let data_len = get_le(src, at + 20, 4) as usize;
    let ctx_len = get_le(src, at + 24, 4) as usize;
    match bytes_of(src, at + ENTRY_HEADER_LEN, data_len) {
        None => None,
        Some(data) => {
            match bytes_of(src, at + ENTRY_HEADER_LEN + data_len, ctx_len) {
                None => None,
                Some(context) => {
                    assert(data.deep_view() =~= data@);
                    assert(context.deep_view() =~= context@);
                    Some((Entry { entry_type, term, index, data, context }, at + ENTRY_HEADER_LEN + data_len + ctx_len))
                },
            }
        },
    }
}

/// The message in a payload.
pub fn decode(src: &[u8]) -> (r: Result<Message, SbeError>)
    ensures
        match r {
            Ok(m) => decoded(src@) == Ok::<MessageView, SbeError>(m.deep_view()),
            Err(e) => decoded(src@) == Err::<MessageView, SbeError>(e),
        },
{
    proof {
        reveal(decoded);
    }
    if src.len() < MIN_MSG_LEN {
        return Err(SbeError::TooShort { len: src.len() });
    }
    proof {
        lemma_bounds();
    }
    let block_length = get_le(src, 0, 2) as usize;
    if block_length < FIXED_BLOCK_LEN {
        return Err(SbeError::BlockTooShort { block_length });
    }
    let num_entries = get_le(src, 93, 4) as usize;
    let context_len = get_le(src, 97, 4) as usize;
    let snapshot_len = get_le(src, 101, 4) as usize;
    let start = SBE_HEADER_LEN + block_length;
    let context = match bytes_of(src, start, context_len) {
        None => {
            return Err(SbeError::Context);
        },
        Some(c) => c,
    };
    assert(context.deep_view() =~= context@);
    let mut cursor = start + context_len;
    let snapshot = if snapshot_len > 0 {
        match bytes_of(src, cursor, snapshot_len) {
            None => {
                return Err(SbeError::Snapshot);
            },
            Some(raw) => {
                assert(raw.deep_view() =~= raw@);
                cursor = cursor + snapshot_len;
                match parse_snapshot(raw.as_slice()) {
                    None => {
                        return Err(SbeError::SnapshotMalformed);
                    },
                    Some(s) => Some(s),
                }
            },
        }
    } else {
        None
    };
    let ghost after = cursor as int;
    let mut entries: Vec<Entry> = Vec::new();
    assert(entries.deep_view() =~= Seq::empty());
    let mut i: usize = 0;
    while i < num_entries
        invariant
            i <= num_entries,
            entries@.len() == i,
            entries_at(src@, cursor as int, num_entries as nat, entries.deep_view()) == entries_at(
                src@,
                after,
                num_entries as nat,
                Seq::empty(),
            ),
            num_entries == number_at(src@, 93, 4),
            src@.len() >= 105,
            number_at(src@, 0, 2) >= 97,
            bytes_at(src@, 8 + number_at(src@, 0, 2) as int, number_at(src@, 97, 4)) is Some,
            snapshot_at(
                src@,
                8 + number_at(src@, 0, 2) + number_at(src@, 97, 4) as int,
                number_at(src@, 101, 4),
            ) is Ok,
            after == 8 + number_at(src@, 0, 2) + number_at(src@, 97, 4) + number_at(src@, 101, 4),
        decreases num_entries - i,
    {
        proof {
            reveal(decoded);
        }
        match decode_entry(src, cursor) {
            None => {
                return Err(SbeError::Entry { index: i });
            },
            Some((e, end)) => {
                let ghost before = entries.deep_view();
                entries.push(e);
                assert(entries.deep_view() =~= before.push(e.deep_view()));
                cursor = end;
            },
        }
        i += 1;
    }
    let m = Message {
        msg_type: i32_of_bits(get_le(src, 8, 4) as u32),
        to: get_le(src, 12, 8),
        from: get_le(src, 20, 8),
        term: get_le(src, 28, 8),
        log_term: get_le(src, 36, 8),
        index: get_le(src, 44, 8),
        commit: get_le(src, 52, 8),
        commit_term: get_le(src, 60, 8),
        request_snapshot: get_le(src, 68, 8),
        reject: get_le(src, 76, 1) != 0,
        reject_hint: get_le(src, 77, 8),
        priority: i64_of_bits(get_le(src, 85, 8)),
        context,
        snapshot,
        entries,
    };
    Ok(m)
}

/// The lengths fit the four bytes that they are written in.
pub open spec fn lengths_fit(m: MessageView) -> bool {
    &&& m.entries.len() < 0x1_0000_0000
    &&& m.context.len() < 0x1_0000_0000
    &&& snapshot_part(m).len() < 0x1_0000_0000
    &&& forall|i: int|
        0 <= i < m.entries.len() ==> (#[trigger] m.entries[i]).data.len() < 0x1_0000_0000 && m.entries[i].context.len()
            < 0x1_0000_0000
}

/// The protobuf form of the snapshot can be read.
pub open spec fn snapshot_kept(m: MessageView) -> bool {
    m.snapshot matches Some(s) ==> snapshot_empty(s) || {
        &&& snapshot_of_bytes(snapshot_bytes(s)) == Some(s)
        &&& snapshot_bytes(s).len() > 0
    }
}

/// What arrives of a message: an empty snapshot is not sent.
pub open spec fn carried(m: MessageView) -> MessageView {
    MessageView {
        snapshot: match m.snapshot {
            Some(s) => if snapshot_empty(s) { None } else { Some(s) },
            None => None,
        },
        ..m
    }
}

proof fn lemma_number(src: Seq<u8>, off: int, n: nat, k: nat)
    requires
        src.subrange(off, off + k) == le(n, k),
        n < byte_bound(k),
    ensures
        number_at(src, off, k) == n,
{
    le_reads_back(n, k);
}

proof fn lemma_fixed_len(m: MessageView)
    ensures
        fixed_part(m).len() == 97,
        header_part().len() == 8,
{
    reveal(fixed_part);
    lemma_le_len(97, 2);
    lemma_le_len(1, 2);
    lemma_le_len(twos32(m.msg_type), 4);
    lemma_le_len(m.to as nat, 8);
    lemma_le_len(m.from as nat, 8);
    lemma_le_len(m.term as nat, 8);
    lemma_le_len(m.log_term as nat, 8);
    lemma_le_len(m.index as nat, 8);
    lemma_le_len(m.commit as nat, 8);
    lemma_le_len(m.commit_term as nat, 8);
    lemma_le_len(m.request_snapshot as nat, 8);
    lemma_le_len(flag(m.reject), 1);
    lemma_le_len(m.reject_hint as nat, 8);
    lemma_le_len(twos64(m.priority), 8);
    lemma_le_len(m.entries.len(), 4);
    lemma_le_len(m.context.len(), 4);
    lemma_le_len(snapshot_part(m).len(), 4);
}

proof fn lemma_in_block(src: Seq<u8>, f: Seq<u8>, off: int, n: nat, k: nat)
    requires
        src.len() >= 105,
        src.subrange(8, 105) == f,
        0 <= off,
        off + k <= 97,
        f.subrange(off, off + k) == le(n, k),
        n < byte_bound(k),
    ensures
        number_at(src, 8 + off, k) == n,
{
    assert(f.subrange(off, off + k) =~= src.subrange(8 + off, 8 + off + k));
    le_reads_back(n, k);
}

#[verifier::rlimit(40)]
proof fn lemma_fixed_first(src: Seq<u8>, m: MessageView)
    requires
        src.len() >= 105,
        src.subrange(8, 105) == fixed_part(m),
    ensures
        number_at(src, 8, 4) == twos32(m.msg_type),
        number_at(src, 12, 8) == m.to,
        number_at(src, 20, 8) == m.from,
        number_at(src, 28, 8) == m.term,
        number_at(src, 36, 8) == m.log_term,
        number_at(src, 44, 8) == m.index,
        number_at(src, 52, 8) == m.commit,
        number_at(src, 60, 8) == m.commit_term,
{
    lemma_fixed_len(m);
    lemma_bounds();
    lemma_le_len(twos32(m.msg_type), 4);
    lemma_le_len(m.to as nat, 8);
    lemma_le_len(m.from as nat, 8);
    lemma_le_len(m.term as nat, 8);
    lemma_le_len(m.log_term as nat, 8);
    lemma_le_len(m.index as nat, 8);
    lemma_le_len(m.commit as nat, 8);
    lemma_le_len(m.commit_term as nat, 8);
    lemma_le_len(m.request_snapshot as nat, 8);
    lemma_le_len(flag(m.reject), 1);
    lemma_le_len(m.reject_hint as nat, 8);
    lemma_le_len(twos64(m.priority), 8);
    lemma_le_len(m.entries.len(), 4);
    lemma_le_len(m.context.len(), 4);
    lemma_le_len(snapshot_part(m).len(), 4);
    let f = fixed_part(m);
    reveal(fixed_part);
    assert(f.subrange(0, 4) =~= le(twos32(m.msg_type), 4));
    lemma_in_block(src, f, 0, twos32(m.msg_type), 4);
    assert(f.subrange(4, 12) =~= le(m.to as nat, 8));
    lemma_in_block(src, f, 4, m.to as nat, 8);
    assert(f.subrange(12, 20) =~= le(m.from as nat, 8));
    lemma_in_block(src, f, 12, m.from as nat, 8);
    assert(f.subrange(20, 28) =~= le(m.term as nat, 8));
    lemma_in_block(src, f, 20, m.term as nat, 8);
    assert(f.subrange(28, 36) =~= le(m.log_term as nat, 8));
    lemma_in_block(src, f, 28, m.log_term as nat, 8);
    assert(f.subrange(36, 44) =~= le(m.index as nat, 8));
    lemma_in_block(src, f, 36, m.index as nat, 8);
    assert(f.subrange(44, 52) =~= le(m.commit as nat, 8));
    lemma_in_block(src, f, 44, m.commit as nat, 8);
    assert(f.subrange(52, 60) =~= le(m.commit_term as nat, 8));
    lemma_in_block(src, f, 52, m.commit_term as nat, 8);
}

#[verifier::rlimit(40)]
proof fn lemma_fixed_second(src: Seq<u8>, m: MessageView)
    requires
        src.len() >= 105,
        src.subrange(8, 105) == fixed_part(m),
        m.entries.len() < 0x1_0000_0000,
        m.context.len() < 0x1_0000_0000,
        snapshot_part(m).len() < 0x1_0000_0000,
    ensures
        number_at(src, 68, 8) == m.request_snapshot,
        number_at(src, 76, 1) == flag(m.reject),
        number_at(src, 77, 8) == m.reject_hint,
        number_at(src, 85, 8) == twos64(m.priority),
        number_at(src, 93, 4) == m.entries.len(),
        number_at(src, 97, 4) == m.context.len(),
        number_at(src, 101, 4) == snapshot_part(m).len(),
{
    lemma_fixed_len(m);
    lemma_bounds();
    lemma_le_len(twos32(m.msg_type), 4);
    lemma_le_len(m.to as nat, 8);
    lemma_le_len(m.from as nat, 8);
    lemma_le_len(m.term as nat, 8);
    lemma_le_len(m.log_term as nat, 8);
    lemma_le_len(m.index as nat, 8);
    lemma_le_len(m.commit as nat, 8);
    lemma_le_len(m.commit_term as nat, 8);
    lemma_le_len(m.request_snapshot as nat, 8);
    lemma_le_len(flag(m.reject), 1);
    lemma_le_len(m.reject_hint as nat, 8);
    lemma_le_len(twos64(m.priority), 8);
    lemma_le_len(m.entries.len(), 4);
    lemma_le_len(m.context.len(), 4);
    lemma_le_len(snapshot_part(m).len(), 4);
    let f = fixed_part(m);
    reveal(fixed_part);
    assert(f.subrange(60, 68) =~= le(m.request_snapshot as nat, 8));
    lemma_in_block(src, f, 60, m.request_snapshot as nat, 8);
    assert(f.subrange(68, 69) =~= le(flag(m.reject), 1));
    lemma_in_block(src, f, 68, flag(m.reject), 1);
    assert(f.subrange(69, 77) =~= le(m.reject_hint as nat, 8));
    lemma_in_block(src, f, 69, m.reject_hint as nat, 8);
    assert(f.subrange(77, 85) =~= le(twos64(m.priority), 8));
    lemma_in_block(src, f, 77, twos64(m.priority), 8);
    assert(f.subrange(85, 89) =~= le(m.entries.len(), 4));
    lemma_in_block(src, f, 85, m.entries.len(), 4);
    assert(f.subrange(89, 93) =~= le(m.context.len(), 4));
    lemma_in_block(src, f, 89, m.context.len(), 4);
    assert(f.subrange(93, 97) =~= le(snapshot_part(m).len(), 4));
    lemma_in_block(src, f, 93, snapshot_part(m).len(), 4);
}

proof fn lemma_entry_reads_back(pre: Seq<u8>, e: EntryView, post: Seq<u8>)
    requires
        e.data.len() < 0x1_0000_0000,
        e.context.len() < 0x1_0000_0000,
    ensures
        entry_at(pre + entry_part(e) + post, pre.len() as int) == Some((e, (pre + entry_part(e)).len() as int)),
{
    let src = pre + entry_part(e) + post;
    let at = pre.len() as int;
    lemma_bounds();
    lemma_le_len(twos32(e.entry_type), 4);
    lemma_le_len(e.term as nat, 8);
    lemma_le_len(e.index as nat, 8);
    lemma_le_len(e.data.len(), 4);
    lemma_le_len(e.context.len(), 4);
    assert(src.subrange(at, at + 4) =~= le(twos32(e.entry_type), 4));
    lemma_number(src, at, twos32(e.entry_type), 4);
    assert(src.subrange(at + 4, at + 12) =~= le(e.term as nat, 8));
    lemma_number(src, at + 4, e.term as nat, 8);
    assert(src.subrange(at + 12, at + 20) =~= le(e.index as nat, 8));
    lemma_number(src, at + 12, e.index as nat, 8);
    assert(src.subrange(at + 20, at + 24) =~= le(e.data.len(), 4));
    lemma_number(src, at + 20, e.data.len(), 4);
    assert(src.subrange(at + 24, at + 28) =~= le(e.context.len(), 4));
    lemma_number(src, at + 24, e.context.len(), 4);
    assert(src.subrange(at + 28, at + 28 + e.data.len()) =~= e.data);
    assert(src.subrange(at + 28 + e.data.len(), at + 28 + e.data.len() + e.context.len()) =~= e.context);
}

proof fn lemma_entries_read_back(pre: Seq<u8>, done: Seq<EntryView>, rest: Seq<EntryView>)
    requires
        forall|i: int|
            0 <= i < rest.len() ==> (#[trigger] rest[i]).data.len() < 0x1_0000_0000 && rest[i].context.len()
                < 0x1_0000_0000,
    ensures
        entries_at(pre + entries_part(rest), pre.len() as int, done.len() + rest.len(), done) == Ok::<_, nat>(
            done + rest,
        ),
    decreases rest.len(),
{
    if rest.len() == 0 {
        assert(done + rest =~= done);
    } else {
        let e = rest[0];
        let tail = rest.skip(1);
        lemma_entry_reads_back(pre, e, entries_part(tail));
        assert(pre + entry_part(e) + entries_part(tail) =~= pre + entries_part(rest));
        assert forall|i: int| 0 <= i < tail.len() implies (#[trigger] tail[i]).data.len() < 0x1_0000_0000
            && tail[i].context.len() < 0x1_0000_0000 by {
            assert(tail[i] == rest[i + 1]);
        }
        lemma_entries_read_back(pre + entry_part(e), done.push(e), tail);
        assert(done.push(e) + tail =~= done + rest);
    }
}

/// Decoding what was encoded gives the message back.
#[verifier::rlimit(40)]
pub proof fn decoding_undoes_encoding(m: MessageView)
    requires
        lengths_fit(m),
        snapshot_kept(m),
    ensures
        decoded(payload(m)) == Ok::<MessageView, SbeError>(carried(m)),
{
    reveal(decoded);
    let src = payload(m);
    lemma_fixed_len(m);
    lemma_bounds();
    lemma_le_len(97, 2);
    lemma_le_len(1, 2);
    assert(src.subrange(8, 105) =~= fixed_part(m));
    assert(src.subrange(0, 2) =~= le(97, 2));
    lemma_number(src, 0, 97, 2);
    lemma_fixed_first(src, m);
    lemma_fixed_second(src, m);
    let c = 105 + m.context.len();
    assert(src.subrange(105, c as int) =~= m.context);
    let d = c + snapshot_part(m).len();
    assert(src.subrange(c as int, d as int) =~= snapshot_part(m));
    let pre = header_part() + fixed_part(m) + m.context + snapshot_part(m);
    lemma_entries_read_back(pre, Seq::empty(), m.entries);
    assert(Seq::<EntryView>::empty() + m.entries =~= m.entries);
}

/// How long a message is in binary form: every entry adds its own length, and nothing
/// stands before the header.
pub proof fn payload_has_its_length(m: MessageView)
    ensures
        payload(m).len() == 105 + m.context.len() + snapshot_part(m).len() + entries_len(m.entries),
        payload(m).take(8) == le(97, 2) + le(1, 2) + le(1, 2) + le(1, 2),
{
    lemma_fixed_len(m);
    lemma_entries_len(m.entries);
    assert(payload(m).take(8) =~= header_part());
}

/// How long a row of entries is.
pub open spec fn entries_len(s: Seq<EntryView>) -> nat
    decreases s.len(),
{
    if s.len() == 0 { 0 } else { 28 + s[0].data.len() + s[0].context.len() + entries_len(s.skip(1)) }
}

proof fn lemma_entry_len(e: EntryView)
    ensures
        entry_part(e).len() == 28 + e.data.len() + e.context.len(),
{
    lemma_le_len(twos32(e.entry_type), 4);
    lemma_le_len(e.term as nat, 8);
    lemma_le_len(e.index as nat, 8);
    lemma_le_len(e.data.len(), 4);
    lemma_le_len(e.context.len(), 4);
}

proof fn lemma_entries_len(s: Seq<EntryView>)
    ensures
        entries_part(s).len() == entries_len(s),
    decreases s.len(),
{
    if s.len() > 0 {
        lemma_entry_len(s[0]);
        lemma_entries_len(s.skip(1));
    }
}

proof fn lemma_number_kept(a: Seq<u8>, b: Seq<u8>, off: int, k: nat)
    requires
        0 <= off,
        off + k <= a.len(),
        a.len() <= b.len(),
        b.take(a.len() as int) == a,
    ensures
        number_at(a, off, k) == number_at(b, off, k),
{
    assert(a.subrange(off, off + k) =~= b.subrange(off, off + k));
}

proof fn lemma_bytes_kept(a: Seq<u8>, b: Seq<u8>, at: int, n: nat)
    requires
        0 <= at,
        a.len() <= b.len(),
        b.take(a.len() as int) == a,
    ensures
        bytes_at(a, at, n) is Some ==> bytes_at(b, at, n) == bytes_at(a, at, n),
{
    if at + n <= a.len() {
        assert(a.subrange(at, at + n) =~= b.subrange(at, at + n));
    }
}

proof fn lemma_entry_kept(a: Seq<u8>, b: Seq<u8>, at: int)
    requires
        0 <= at,
        a.len() <= b.len(),
        b.take(a.len() as int) == a,
    ensures
        entry_at(a, at) is Some ==> entry_at(b, at) == entry_at(a, at),
{
    if entry_at(a, at) is Some {
        lemma_number_kept(a, b, at, 4);
        lemma_number_kept(a, b, at + 4, 8);
        lemma_number_kept(a, b, at + 12, 8);
        lemma_number_kept(a, b, at + 20, 4);
        lemma_number_kept(a, b, at + 24, 4);
        let data_len = number_at(a, at + 20, 4);
        let ctx_len = number_at(a, at + 24, 4);
        lemma_bytes_kept(a, b, at + 28, data_len);
        lemma_bytes_kept(a, b, at + 28 + data_len, ctx_len);
    }
}

proof fn lemma_entries_kept(a: Seq<u8>, b: Seq<u8>, at: int, n: nat, done: Seq<EntryView>)
    requires
        0 <= at,
        a.len() <= b.len(),
        b.take(a.len() as int) == a,
    ensures
        entries_at(a, at, n, done) is Ok ==> entries_at(b, at, n, done) == entries_at(a, at, n, done),
    decreases n - done.len(),
{
    if done.len() < n {
        lemma_entry_kept(a, b, at);
        if let Some((e, end)) = entry_at(a, at) {
            lemma_entries_kept(a, b, end, n, done.push(e));
        }
    }
}

/// Bytes that follow a message are ignored.
pub proof fn trailing_bytes_are_ignored(src: Seq<u8>, x: Seq<u8>)
    requires
        decoded(src) is Ok,
    ensures
        decoded(src + x) == decoded(src),
{
    reveal(decoded);
    let b = src + x;
    assert(b.take(src.len() as int) =~= src);
    lemma_header_kept(src, b);
    let start = 8 + number_at(src, 0, 2);
    let context_len = number_at(src, 97, 4);
    let snapshot_len = number_at(src, 101, 4);
    lemma_bytes_kept(src, b, start as int, context_len);
    lemma_bytes_kept(src, b, (start + context_len) as int, snapshot_len);
    lemma_entries_kept(src, b, (start + context_len + snapshot_len) as int, number_at(src, 93, 4), Seq::empty());
}

proof fn lemma_header_kept(a: Seq<u8>, b: Seq<u8>)
    requires
        105 <= a.len() <= b.len(),
        b.take(a.len() as int) == a,
    ensures
        number_at(a, 0, 2) == number_at(b, 0, 2),
        number_at(a, 8, 4) == number_at(b, 8, 4),
        number_at(a, 12, 8) == number_at(b, 12, 8),
        number_at(a, 20, 8) == number_at(b, 20, 8),
        number_at(a, 28, 8) == number_at(b, 28, 8),
        number_at(a, 36, 8) == number_at(b, 36, 8),
        number_at(a, 44, 8) == number_at(b, 44, 8),
        number_at(a, 52, 8) == number_at(b, 52, 8),
        number_at(a, 60, 8) == number_at(b, 60, 8),
        number_at(a, 68, 8) == number_at(b, 68, 8),
        number_at(a, 76, 1) == number_at(b, 76, 1),
        number_at(a, 77, 8) == number_at(b, 77, 8),
        number_at(a, 85, 8) == number_at(b, 85, 8),
        number_at(a, 93, 4) == number_at(b, 93, 4),
        number_at(a, 97, 4) == number_at(b, 97, 4),
        number_at(a, 101, 4) == number_at(b, 101, 4),
{
    lemma_number_kept(a, b, 0, 2);
    lemma_number_kept(a, b, 8, 4);
    lemma_number_kept(a, b, 12, 8);
    lemma_number_kept(a, b, 20, 8);
    lemma_number_kept(a, b, 28, 8);
    lemma_number_kept(a, b, 36, 8);
    lemma_number_kept(a, b, 44, 8);
    lemma_number_kept(a, b, 52, 8);
    lemma_number_kept(a, b, 60, 8);
    lemma_number_kept(a, b, 68, 8);
    lemma_number_kept(a, b, 76, 1);
    lemma_number_kept(a, b, 77, 8);
    lemma_number_kept(a, b, 85, 8);
    lemma_number_kept(a, b, 93, 4);
    lemma_number_kept(a, b, 97, 4);
    lemma_number_kept(a, b, 101, 4);
}

/// Fewer bytes than the shortest message has, and a fixed block that is said to be too
/// short, are no message.
pub proof fn short_bytes_are_refused(src: Seq<u8>)
    requires
        src.len() < 105 || number_at(src, 0, 2) < 97,
    ensures
        decoded(src) is Err,
{
    reveal(decoded);
}

proof fn lemma_cut_entries(pre: Seq<u8>, done: Seq<EntryView>, rest: Seq<EntryView>, k: int)
    requires
        forall|i: int|
            0 <= i < rest.len() ==> (#[trigger] rest[i]).data.len() < 0x1_0000_0000 && rest[i].context.len()
                < 0x1_0000_0000,
        pre.len() <= k < (pre + entries_part(rest)).len(),
    ensures
        entries_at((pre + entries_part(rest)).take(k), pre.len() as int, done.len() + rest.len(), done) is Err,
    decreases rest.len(),
{
    if rest.len() > 0 {
        let e = rest[0];
        let tail = rest.skip(1);
        let whole = pre + entries_part(rest);
        let src = whole.take(k);
        let at = pre.len() as int;
        lemma_entry_len(e);
        lemma_entry_reads_back(pre, e, entries_part(tail));
        assert(pre + entry_part(e) + entries_part(tail) =~= whole);
        assert(whole.take(src.len() as int) =~= src);
        lemma_entry_kept(src, whole, at);
        if entry_at(src, at) is Some {
            let end = (entry_at(src, at)->0).1;
            assert(end == (pre + entry_part(e)).len());
            assert(end <= src.len());
            assert forall|i: int| 0 <= i < tail.len() implies (#[trigger] tail[i]).data.len() < 0x1_0000_0000
                && tail[i].context.len() < 0x1_0000_0000 by {
                assert(tail[i] == rest[i + 1]);
            }
            assert(pre + entry_part(e) + entries_part(tail) == whole);
            lemma_cut_entries(pre + entry_part(e), done.push(e), tail, k);
        }
    }
}

/// No message is read from what was written for one when its end is missing.
pub proof fn cut_message_is_refused(m: MessageView, k: int)
    requires
        lengths_fit(m),
        snapshot_kept(m),
        0 <= k < payload(m).len(),
    ensures
        decoded(payload(m).take(k)) is Err,
{
    reveal(decoded);
    let whole = payload(m);
    let src = whole.take(k);
    if k >= 105 {
        lemma_fixed_len(m);
        lemma_bounds();
        lemma_le_len(97, 2);
        lemma_le_len(1, 2);
        assert(whole.subrange(8, 105) =~= fixed_part(m));
        assert(whole.subrange(0, 2) =~= le(97, 2));
        lemma_number(whole, 0, 97, 2);
        lemma_fixed_second(whole, m);
        assert(whole.take(src.len() as int) =~= src);
        lemma_header_kept(src, whole);
        let d = 105 + m.context.len() + snapshot_part(m).len();
        if k >= d {
            let pre = header_part() + fixed_part(m) + m.context + snapshot_part(m);
            assert(pre.len() == d);
            assert(whole == pre + entries_part(m.entries));
            lemma_cut_entries(pre, Seq::empty(), m.entries, k);
        }
    }
}

fn encode_entry(e: &Entry, buf: &mut BytesMut)
    ensures
        buffered(*final(buf)) == buffered(*old(buf)) + entry_part(e.deep_view()),
{
    let mut head: Vec<u8> = Vec::new();
    put_le(&mut head, bits_of_i32(e.entry_type) as u64, 4);
    put_le(&mut head, e.term, 8);
    put_le(&mut head, e.index, 8);
    put_le(&mut head, e.data.len() as u64, 4);
    put_le(&mut head, e.context.len() as u64, 4);
    put_slice(buf, head.as_slice());
    put_slice(buf, e.data.as_slice());
    put_slice(buf, e.context.as_slice());
    assert(buffered(*buf) =~= buffered(*old(buf)) + entry_part(e.deep_view()));
}

proof fn lemma_entries_push(s: Seq<EntryView>, e: EntryView)
    ensures
        entries_part(s.push(e)) == entries_part(s) + entry_part(e),
    decreases s.len(),
{
    if s.len() == 0 {
        assert(s.push(e).skip(1) =~= Seq::empty());
        assert(entries_part(s.push(e).skip(1)) =~= Seq::empty());
        assert(entry_part(e) + Seq::<u8>::empty() =~= Seq::<u8>::empty() + entry_part(e));
    } else {
        lemma_entries_push(s.skip(1), e);
        assert(s.push(e).skip(1) =~= s.skip(1).push(e));
        assert(entries_part(s.push(e)) =~= entries_part(s) + entry_part(e));
    }
}

fn encode_fixed(msg: &Message, snapshot_len: usize) -> (fixed: Vec<u8>)
    requires
        snapshot_len == snapshot_part(msg.deep_view()).len(),
    ensures
        fixed@ == fixed_part(msg.deep_view()),
{
    let mut fixed: Vec<u8> = Vec::new();
    put_le(&mut fixed, bits_of_i32(msg.msg_type) as u64, 4);
    put_le(&mut fixed, msg.to, 8);
    put_le(&mut fixed, msg.from, 8);
    put_le(&mut fixed, msg.term, 8);
    put_le(&mut fixed, msg.log_term, 8);
    put_le(&mut fixed, msg.index, 8);
    put_le(&mut fixed, msg.commit, 8);
    put_le(&mut fixed, msg.commit_term, 8);
    put_le(&mut fixed, msg.request_snapshot, 8);
    put_le(&mut fixed, if msg.reject { 1 } else { 0 }, 1);
    put_le(&mut fixed, msg.reject_hint, 8);
    put_le(&mut fixed, bits_of_i64(msg.priority), 8);
    put_le(&mut fixed, msg.entries.len() as u64, 4);
    put_le(&mut fixed, msg.context.len() as u64, 4);
    put_le(&mut fixed, snapshot_len as u64, 4);
    proof {
        reveal(fixed_part);
        assert(fixed@ =~= fixed_part(msg.deep_view()));
    }
    fixed
}

/// Appends a message to a buffer. What was appended can be read again, but nothing
/// shorter.
pub fn encode(msg: &Message, buf: &mut BytesMut) -> (r: Result<(), SbeError>)
    ensures
        r is Ok,
        buffered(*final(buf)) == buffered(*old(buf)) + payload(msg.deep_view()),
        snapshot_kept(msg.deep_view()),
        lengths_fit(msg.deep_view()) ==> decoded(payload(msg.deep_view())) == Ok::<MessageView, SbeError>(
            carried(msg.deep_view()),
        ),
        lengths_fit(msg.deep_view()) ==> forall|k: int|
            0 <= k < payload(msg.deep_view()).len() ==> decoded(#[trigger] payload(msg.deep_view()).take(k)) is Err,
{
    let ghost m = msg.deep_view();
    let snap_bytes: Vec<u8> = match &msg.snapshot {
        Some(s) => if !s.is_empty() {
            write_snapshot(s)
        } else {
            Vec::new()
        },
        None => Vec::new(),
    };
    proof {
        assert(snap_bytes@ =~= snapshot_part(m));
        if lengths_fit(m) {
            decoding_undoes_encoding(m);
            assert forall|k: int| 0 <= k < payload(m).len() implies decoded(#[trigger] payload(m).take(k)) is Err by {
                cut_message_is_refused(m, k);
            }
        }
    }
    let mut head: Vec<u8> = Vec::new();
    put_le(&mut head, FIXED_BLOCK_LEN as u64, 2);
    put_le(&mut head, 1, 2);
    put_le(&mut head, 1, 2);
    put_le(&mut head, 1, 2);
    assert(head@ =~= header_part());
    put_slice(buf, head.as_slice());
    let fixed = encode_fixed(msg, snap_bytes.len());
    put_slice(buf, fixed.as_slice());
    put_slice(buf, msg.context.as_slice());
    put_slice(buf, snap_bytes.as_slice());
    let ghost start = buffered(*buf);
    assert(start =~= buffered(*old(buf)) + (header_part() + fixed_part(m) + m.context + snapshot_part(m)));
    let mut i: usize = 0;
    assert(m.entries.take(0) =~= Seq::empty());
    assert(start + entries_part(m.entries.take(0)) =~= start);
    while i < msg.entries.len()
        invariant
            i <= msg.entries@.len(),
            m == msg.deep_view(),
            buffered(*buf) == start + entries_part(m.entries.take(i as int)),
        decreases msg.entries@.len() - i,
    {
        let ghost before = m.entries.take(i as int);
        encode_entry(&msg.entries[i], buf);
        proof {
            lemma_entries_push(before, m.entries[i as int]);
            assert(before.push(m.entries[i as int]) =~= m.entries.take(i + 1));
            assert(buffered(*buf) =~= start + entries_part(m.entries.take(i + 1)));
        }
        i += 1;
    }
    assert(m.entries.take(i as int) =~= m.entries);
    assert(buffered(*buf) =~= buffered(*old(buf)) + payload(m));
    Ok(())
}

/// Where the numbers of a message stand in its binary form: behind a header of eight bytes
/// that starts with the length of the fixed part, each with its lowest byte first.
pub proof fn numbers_have_their_places(m: MessageView)
    requires
        lengths_fit(m),
    ensures
        ({
            let src = payload(m);
            &&& number_at(src, 0, 2) == 97
            &&& number_at(src, 8, 4) == twos32(m.msg_type)
            &&& number_at(src, 12, 8) == m.to
            &&& number_at(src, 20, 8) == m.from
            &&& number_at(src, 28, 8) == m.term
            &&& number_at(src, 36, 8) == m.log_term
            &&& number_at(src, 44, 8) == m.index
            &&& number_at(src, 52, 8) == m.commit
            &&& number_at(src, 60, 8) == m.commit_term
            &&& number_at(src, 68, 8) == m.request_snapshot
            &&& number_at(src, 76, 1) == (if m.reject { 1nat } else { 0 })
            &&& number_at(src, 77, 8) == m.reject_hint
            &&& number_at(src, 85, 8) == twos64(m.priority)
            &&& number_at(src, 93, 4) == m.entries.len()
            &&& number_at(src, 97, 4) == m.context.len()
            &&& src.subrange(105, 105int + m.context.len()) == m.context
        }),
{
    let src = payload(m);
    lemma_fixed_len(m);
    lemma_bounds();
    lemma_le_len(97, 2);
    lemma_le_len(1, 2);
    assert(src.subrange(8, 105) =~= fixed_part(m));
    assert(src.subrange(0, 2) =~= le(97, 2));
    lemma_number(src, 0, 97, 2);
    lemma_fixed_first(src, m);
    lemma_fixed_second(src, m);
    assert(src.subrange(105, 105int + m.context.len()) =~= m.context);
}

/// A snapshot is sent behind the context where it reaches an index. One without metadata,
/// or up to index zero, is not sent.
pub proof fn empty_snapshots_are_not_sent(m: MessageView)
    requires
        lengths_fit(m),
    ensures
        m.snapshot is None ==> number_at(payload(m), 101, 4) == 0,
        m.snapshot matches Some(s) ==> (s.metadata is None || s.metadata->0.index == 0 ==> number_at(payload(m), 101, 4)
            == 0),
        m.snapshot matches Some(s) ==> (s.metadata is Some && s.metadata->0.index != 0 ==> number_at(payload(m), 101, 4)
            == snapshot_bytes(s).len() && payload(m).subrange(
            105int + m.context.len(),
            105int + m.context.len() + snapshot_bytes(s).len(),
        ) == snapshot_bytes(s)),
{
    let src = payload(m);
    lemma_fixed_len(m);
    lemma_bounds();
    assert(src.subrange(8, 105) =~= fixed_part(m));
    lemma_fixed_second(src, m);
    let c = 105int + m.context.len();
    assert(src.subrange(c, c + snapshot_part(m).len()) =~= snapshot_part(m));
}

} // verus!
