//! The log of one partition: entries under rising offsets, and the watermark up
//! to which they may be read.
use vstd::prelude::*;
use vstd::string::StringExecFns;

use crate::broker::raft::MessageView;
use crate::broker::reading::{
    byte_limit, limit_is_meant_as_stated, message_weighs_key_and_value, total_weight, weight, weights_add_up,
};
use crate::broker::storage::StoredMessage;
use crate::maps::Dup;
use crate::order::{byte_order_is_strict, bytes_before, longer_rows_keep_order};
use crate::seqs::{lemma_filter_ends, lemma_filter_holds, lemma_filter_places, lemma_filter_step};
use crate::text::{decimal_text, decimal_u64};
use crate::wire::{
    bits_of_i64, decode_i64, encode_i64, get_le, i64_in_front, i64_of_bits, le, le_reads_back, le_value, lemma_bounds, lemma_le_len, numbers_read_back,
    put_le, signed64, twos64,
};

verus! {

/// An entry of the log.
#[derive(Debug)]
pub struct LogEntry {
    pub offset: i64,
    pub key: Option<Vec<u8>>,
    pub value: Vec<u8>,
    pub timestamp_ms: i64,
}

impl DeepView for LogEntry {
    type V = MessageView;

    open spec fn deep_view(&self) -> MessageView {
        MessageView {
            offset: self.offset,
            key: self.key.deep_view(),
            value: self.value.deep_view(),
            timestamp_ms: self.timestamp_ms,
        }
    }
}

/// Hands an entry to a reader.
pub fn stored_message(e: LogEntry) -> (r: StoredMessage)
    ensures
        r.deep_view() == e.deep_view(),
{
    StoredMessage { offset: e.offset, key: e.key, value: e.value, timestamp_ms: e.timestamp_ms }
}

/// Bytes with their number in front.
pub open spec fn counted(s: Seq<u8>) -> Seq<u8> {
    le(s.len(), 8) + s
}

/// A key that may be absent.
pub open spec fn optional_key(key: Option<Seq<u8>>) -> Seq<u8> {
    match key {
        Some(k) => seq![1u8] + counted(k),
        None => seq![0u8],
    }
}

/// The binary form of an entry.
pub open spec fn entry_layout(m: MessageView) -> Seq<u8> {
    le(twos64(m.offset), 8) + optional_key(m.key) + counted(m.value) + le(twos64(m.timestamp_ms), 8)
}

/// `bincode::serialize` on the fields of an entry cannot fail; it writes numbers in
/// eight bytes, lowest first, an absent key as a zero byte, a present one behind a
/// byte of one, and bytes behind their number.
#[verifier::external_body]
pub(crate) fn serialize_entry(e: &LogEntry) -> (r: Vec<u8>)
    ensures
        r@ == entry_layout(e.deep_view()),
{
    bincode::serialize(&(e.offset, &e.key, &e.value, e.timestamp_ms)).unwrap_or_default()
}

/// What `bincode::deserialize` says of bytes that do not begin with an entry.
pub uninterp spec fn entry_failure(bytes: Seq<u8>) -> Seq<char>;

/// `bincode::deserialize` reads the fields of an entry from the front of the bytes
/// and ignores what follows them; it fails exactly where no entry stands there.
#[verifier::external_body]
fn deserialize_entry(bytes: &[u8]) -> (r: Result<LogEntry, String>)
    ensures
        r matches Ok(e) ==> entry_layout(e.deep_view()).is_prefix_of(bytes@),
        r matches Err(text) ==> text@ == entry_failure(bytes@) && forall|m: MessageView|
            !(#[trigger] entry_layout(m)).is_prefix_of(bytes@),
{
    match bincode::deserialize(bytes) {
        Ok((offset, key, value, timestamp_ms)) => Ok(LogEntry { offset, key, value, timestamp_ms }),
        Err(e) => Err(e.to_string()),
    }
}

/// The entry that stands at the front of bytes.
pub open spec fn entry_of(bytes: Seq<u8>) -> Option<MessageView> {
    if exists|m: MessageView| (#[trigger] entry_layout(m)).is_prefix_of(bytes) {
        Some(choose|m: MessageView| (#[trigger] entry_layout(m)).is_prefix_of(bytes))
    } else {
        None
    }
}

proof fn lemma_counted(a: Seq<u8>, b: Seq<u8>, bytes: Seq<u8>)
    requires
        counted(a).is_prefix_of(bytes),
        counted(b).is_prefix_of(bytes),
        bytes.len() <= u64::MAX,
    ensures
        a == b,
{
    lemma_bounds();
    lemma_le_len(a.len(), 8);
    lemma_le_len(b.len(), 8);
    le_reads_back(a.len(), 8);
    le_reads_back(b.len(), 8);
    assert(bytes.take(8) =~= le(a.len(), 8));
    assert(bytes.take(8) =~= le(b.len(), 8));
    assert(counted(a).skip(8) =~= a);
    assert(counted(b).skip(8) =~= b);
    assert(bytes.subrange(8, (8 + a.len()) as int) =~= counted(a).skip(8));
    assert(bytes.subrange(8, (8 + b.len()) as int) =~= counted(b).skip(8));
}

proof fn lemma_prefix_skip(a: Seq<u8>, b: Seq<u8>, bytes: Seq<u8>)
    requires
        (a + b).is_prefix_of(bytes),
    ensures
        a.is_prefix_of(bytes),
        b.is_prefix_of(bytes.skip(a.len() as int)),
{
    assert(bytes.take(a.len() as int) =~= (a + b).take(a.len() as int));
    assert((a + b).take(a.len() as int) =~= a);
    assert(bytes.skip(a.len() as int).take(b.len() as int) =~= (a + b).skip(a.len() as int));
    assert((a + b).skip(a.len() as int) =~= b);
}

proof fn lemma_key_in_front(a: Option<Seq<u8>>, b: Option<Seq<u8>>, bytes: Seq<u8>)
    requires
        optional_key(a).is_prefix_of(bytes),
        optional_key(b).is_prefix_of(bytes),
        bytes.len() <= u64::MAX,
    ensures
        a == b,
{
    assert(bytes[0] == optional_key(a)[0]);
    assert(bytes[0] == optional_key(b)[0]);
    match (a, b) {
        (Some(x), Some(y)) => {
            lemma_prefix_skip(seq![1u8], counted(x), bytes);
            lemma_prefix_skip(seq![1u8], counted(y), bytes);
            lemma_counted(x, y, bytes.skip(1));
        },
        _ => {},
    }
}

proof fn lemma_number_in_front(a: i64, b: i64, bytes: Seq<u8>)
    requires
        le(twos64(a), 8).is_prefix_of(bytes),
        le(twos64(b), 8).is_prefix_of(bytes),
    ensures
        a == b,
{
    lemma_bounds();
    le_reads_back(twos64(a), 8);
    le_reads_back(twos64(b), 8);
    assert(bytes.take(8) =~= le(twos64(a), 8));
    assert(bytes.take(8) =~= le(twos64(b), 8));
}

/// At most one entry stands at the front of a row of bytes.
pub proof fn one_entry_in_front(a: MessageView, b: MessageView, bytes: Seq<u8>)
    requires
        entry_layout(a).is_prefix_of(bytes),
        entry_layout(b).is_prefix_of(bytes),
        bytes.len() <= u64::MAX,
    ensures
        a == b,
{
    lemma_le_len(twos64(a.offset), 8);
    lemma_le_len(twos64(b.offset), 8);
    let a1 = le(twos64(a.offset), 8);
    let b1 = le(twos64(b.offset), 8);
    lemma_prefix_skip(a1 + optional_key(a.key) + counted(a.value), le(twos64(a.timestamp_ms), 8), bytes);
    lemma_prefix_skip(b1 + optional_key(b.key) + counted(b.value), le(twos64(b.timestamp_ms), 8), bytes);
    lemma_prefix_skip(a1 + optional_key(a.key), counted(a.value), bytes);
    lemma_prefix_skip(b1 + optional_key(b.key), counted(b.value), bytes);
    lemma_prefix_skip(a1, optional_key(a.key), bytes);
    lemma_prefix_skip(b1, optional_key(b.key), bytes);
    lemma_number_in_front(a.offset, b.offset, bytes);
    lemma_key_in_front(a.key, b.key, bytes.skip(8));
    let n = (a1 + optional_key(a.key)).len() as int;
    lemma_counted(a.value, b.value, bytes.skip(n));
    let end = (a1 + optional_key(a.key) + counted(a.value)).len() as int;
    lemma_number_in_front(a.timestamp_ms, b.timestamp_ms, bytes.skip(end));
}

/// What was written as an entry is read as that entry.
pub proof fn entry_reads_back(m: MessageView)
    requires
        entry_layout(m).len() <= u64::MAX,
    ensures
        entry_of(entry_layout(m)) == Some(m),
{
    let bytes = entry_layout(m);
    assert(bytes.is_prefix_of(bytes));
    let other = choose|o: MessageView| (#[trigger] entry_layout(o)).is_prefix_of(bytes);
    one_entry_in_front(m, other, bytes);
}

/// Reads the entry at the front of bytes; where none stands there, says why.
pub(crate) fn read_entry(bytes: &[u8]) -> (r: Result<LogEntry, String>)
    ensures
        match r {
            Ok(e) => entry_of(bytes@) == Some(e.deep_view()),
            Err(text) => entry_of(bytes@) is None && text@ == entry_failure(bytes@),
        },
{
    let r = deserialize_entry(bytes);
    proof {
        if r is Ok {
            assert(bytes@.len() == bytes.len());
            let other = choose|o: MessageView| (#[trigger] entry_layout(o)).is_prefix_of(bytes@);
            one_entry_in_front((r->Ok_0).deep_view(), other, bytes@);
        }
    }
    r
}

/// Why a log cannot be read.
#[derive(Debug)]
pub enum LogError {
    /// A key does not have the length of an offset.
    InvalidKeyLength { len: usize },
    /// The bytes under this offset are no entry, for this reason.
    Malformed { offset: i64, reason: String },
}

/// Why a log cannot be read.
#[verifier::ext_equal]
pub enum LogErrorView {
    InvalidKeyLength { len: usize },
    Malformed { offset: i64, reason: Seq<char> },
}

impl DeepView for LogError {
    type V = LogErrorView;

    open spec fn deep_view(&self) -> LogErrorView {
        match self {
            LogError::InvalidKeyLength { len } => LogErrorView::InvalidKeyLength { len: *len },
            LogError::Malformed { offset, reason } => LogErrorView::Malformed { offset: *offset, reason: reason@ },
        }
    }
}

/// The message of an error.
pub open spec fn log_message(e: LogErrorView) -> Seq<char> {
    match e {
        LogErrorView::InvalidKeyLength { len } => "invalid key length "@ + decimal_text(len as int),
        LogErrorView::Malformed { reason, .. } => reason,
    }
}

impl LogError {
    /// The message of the error.
    pub fn to_string(&self) -> (r: String)
        ensures
            r@ == log_message(self.deep_view()),
    {
        match self {
            LogError::InvalidKeyLength { len } => {
                let mut r = "invalid key length ".to_owned();
                r.append(decimal_u64(*len as u64).as_str());
                r
            },
            LogError::Malformed { reason, .. } => reason.dup(),
        }
    }
}

/// The `k` lowest bytes of a number, highest first.
pub open spec fn big_endian(n: nat, k: nat) -> Seq<u8>
    decreases k,
{
    if k == 0 { Seq::empty() } else { big_endian(n / 256, (k - 1) as nat).push((n % 256) as u8) }
}

/// The number whose bytes these are, highest first.
pub open spec fn big_endian_value(s: Seq<u8>) -> nat
    decreases s.len(),
{
    if s.len() == 0 { 0 } else { 256 * big_endian_value(s.drop_last()) + s.last() as nat }
}

/// The key of an offset.
pub open spec fn offset_key(offset: i64) -> Seq<u8> {
    big_endian(twos64(offset), 8)
}

proof fn lemma_big_endian(n: nat, k: nat)
    requires
        n < crate::wire::byte_bound(k),
    ensures
        big_endian(n, k).len() == k,
        big_endian_value(big_endian(n, k)) == n,
    decreases k,
{
    if k > 0 {
        lemma_big_endian(n / 256, (k - 1) as nat);
        assert(big_endian(n, k).drop_last() =~= big_endian(n / 256, (k - 1) as nat));
    }
}

proof fn lemma_big_endian_order(m: nat, n: nat, k: nat)
    requires
        m < n < crate::wire::byte_bound(k),
    ensures
        bytes_before(big_endian(m, k), big_endian(n, k)),
    decreases k,
{
    if k > 0 {
        lemma_big_endian(m, k);
        lemma_big_endian(n, k);
        lemma_big_endian(m / 256, (k - 1) as nat);
        lemma_big_endian(n / 256, (k - 1) as nat);
        let a = big_endian(m / 256, (k - 1) as nat);
        let b = big_endian(n / 256, (k - 1) as nat);
        if m / 256 < n / 256 {
            lemma_big_endian_order(m / 256, n / 256, (k - 1) as nat);
        }
        longer_rows_keep_order(a, b, (m % 256) as u8, (n % 256) as u8);
    }
}

/// The keys of offsets sort as the offsets do.
pub proof fn keys_sort_by_offset(a: i64, b: i64)
    requires
        0 <= a,
        0 <= b,
    ensures
        a < b <==> bytes_before(offset_key(a), offset_key(b)),
{
    lemma_bounds();
    if a < b {
        lemma_big_endian_order(a as nat, b as nat, 8);
    } else if bytes_before(offset_key(a), offset_key(b)) {
        byte_order_is_strict(offset_key(a), offset_key(b));
        if b < a {
            lemma_big_endian_order(b as nat, a as nat, 8);
        }
    }
}

/// The offset that a key stands for.
pub open spec fn key_offset(key: Seq<u8>) -> Option<i64> {
    if key.len() == 8 { Some(signed64(big_endian_value(key))) } else { None }
}

/// A key gives its offset back.
pub proof fn key_reads_back(offset: i64)
    ensures
        key_offset(offset_key(offset)) == Some(offset),
{
    lemma_bounds();
    lemma_big_endian(twos64(offset), 8);
}

proof fn lemma_reversed(n: nat, k: nat)
    ensures
        le(n, k).reverse() == big_endian(n, k),
    decreases k,
{
    if k > 0 {
        lemma_reversed(n / 256, (k - 1) as nat);
        lemma_le_len(n / 256, (k - 1) as nat);
        assert(le(n, k).reverse() =~= le(n / 256, (k - 1) as nat).reverse().push((n % 256) as u8));
    } else {
        assert(le(n, k).reverse() =~= big_endian(n, k));
    }
}

proof fn lemma_value_reversed(s: Seq<u8>)
    ensures
        le_value(s.reverse()) == big_endian_value(s),
    decreases s.len(),
{
    if s.len() > 0 {
        lemma_value_reversed(s.drop_last());
        assert(s.reverse().skip(1) =~= s.drop_last().reverse());
    }
}

fn reversed(v: &[u8]) -> (r: Vec<u8>)
    ensures
        r@ == v@.reverse(),
{
    let mut r: Vec<u8> = Vec::new();
    let mut i: usize = v.len();
    while i > 0
        invariant
            i <= v@.len(),
            r@.len() == v@.len() - i,
            forall|j: int| 0 <= j < r@.len() ==> #[trigger] r@[j] == v@[v@.len() - 1 - j],
        decreases i,
    {
        i -= 1;
        assert(i < v.len());
        r.push(v[i]);
    }
    assert(r@ =~= v@.reverse());
    r
}

/// The key of an offset: its bytes, highest first.
pub fn offset_to_key(offset: i64) -> (r: Vec<u8>)
    ensures
        r@ == offset_key(offset),
{
    let mut low: Vec<u8> = Vec::new();
    put_le(&mut low, bits_of_i64(offset), 8);
    proof {
        assert(low@ =~= le(twos64(offset), 8));
        lemma_reversed(twos64(offset), 8);
    }
    reversed(low.as_slice())
}

/// The offset of a key.
pub fn key_to_offset(key: &[u8]) -> (r: Result<i64, LogError>)
    ensures
        match r {
            Ok(o) => key_offset(key@) == Some(o),
            Err(e) => key_offset(key@) is None && e.deep_view() == (LogErrorView::InvalidKeyLength {
                len: key@.len() as usize,
            }),
        },
{
    if key.len() != 8 {
        return Err(LogError::InvalidKeyLength { len: key.len() });
    }
    let low = reversed(key);
    proof {
        lemma_bounds();
        lemma_value_reversed(key@);
        assert(low@.subrange(0, 8) =~= low@);
    }
    Ok(i64_of_bits(get_le(low.as_slice(), 0, 8)))
}

/// What a log holds: the bytes under every offset, the next offset to be given out,
/// and the offset before which entries may be read.
#[verifier::ext_equal]
pub struct LogView {
    pub entries: Seq<(i64, Seq<u8>)>,
    pub leo: i64,
    pub hw: i64,
}

/// Offsets rise, and all of them have been given out.
pub open spec fn valid_log(log: LogView) -> bool {
    &&& log.leo >= 0
    &&& forall|i: int| 0 <= i < log.entries.len() ==> 0 <= (#[trigger] log.entries[i]).0 < log.leo
    &&& forall|i: int, j: int|
        0 <= i < j < log.entries.len() ==> (#[trigger] log.entries[i]).0 < (#[trigger] log.entries[j]).0
}

/// The log of one partition.
pub struct PartitionLog {
    tree: Vec<(i64, Vec<u8>)>,
    leo: i64,
    hw: i64,
}

/// The key is that of an offset.
pub open spec fn is_entry_key(key: Seq<u8>) -> bool {
    key_offset(key) matches Some(o) && o >= 0
}

/// The stored values under the keys of offsets.
pub open spec fn is_entry_item() -> spec_fn((Seq<u8>, Seq<u8>)) -> bool {
    |item: (Seq<u8>, Seq<u8>)| is_entry_key(item.0)
}

/// The offset of a stored value.
pub open spec fn entry_item() -> spec_fn((Seq<u8>, Seq<u8>)) -> (i64, Seq<u8>) {
    |item: (Seq<u8>, Seq<u8>)| (signed64(big_endian_value(item.0)), item.1)
}

/// The stored item of an entry.
pub open spec fn item_of_entry() -> spec_fn((i64, Seq<u8>)) -> (Seq<u8>, Seq<u8>) {
    |e: (i64, Seq<u8>)| (offset_key(e.0), e.1)
}

/// The number that was saved, if it can be read.
pub open spec fn saved_number(bytes: Option<Seq<u8>>) -> Option<i64> {
    match bytes {
        Some(b) => i64_in_front(b),
        None => None,
    }
}

/// The watermark that was saved; none is zero.
pub open spec fn saved_watermark(bytes: Option<Seq<u8>>) -> i64 {
    match saved_number(bytes) {
        Some(n) => n,
        None => 0,
    }
}

/// The offset behind the last entry.
pub open spec fn behind_last(entries: Seq<(i64, Seq<u8>)>) -> i64 {
    if entries.len() == 0 { 0 } else { (entries.last().0 + 1) as i64 }
}

/// The log that stored items make up. Entries may have been truncated, so the next
/// offset is not only behind the last entry, but also no less than the one that was
/// saved; where none was, no less than the watermark.
pub open spec fn opened(items: Seq<(Seq<u8>, Seq<u8>)>, saved_hw: Option<Seq<u8>>, saved_leo: Option<Seq<u8>>) -> LogView {
    let entries = items.filter(is_entry_item()).map_values(entry_item());
    let hw = saved_watermark(saved_hw);
    let least = match saved_number(saved_leo) {
        Some(n) => n,
        None => hw,
    };
    LogView { entries, leo: if least > behind_last(entries) { least } else { behind_last(entries) }, hw }
}

/// Stored items come in the order of their keys.
pub open spec fn sorted_items(items: Seq<(Seq<u8>, Seq<u8>)>) -> bool {
    forall|i: int, j: int|
        0 <= i < j < items.len() ==> bytes_before((#[trigger] items[i]).0, (#[trigger] items[j]).0)
}

/// The log after a message was appended.
pub open spec fn log_appended(log: LogView, key: Option<Seq<u8>>, value: Seq<u8>, now: i64) -> LogView {
    let m = MessageView { offset: log.leo, key, value, timestamp_ms: now };
    LogView { entries: log.entries.push((log.leo, entry_layout(m))), leo: (log.leo + 1) as i64, hw: log.hw }
}

/// The log after the watermark was moved; it never falls.
pub open spec fn log_advanced(log: LogView, new_hw: i64) -> LogView {
    LogView { hw: if new_hw > log.hw { new_hw } else { log.hw }, ..log }
}

/// The entries from an offset on.
pub open spec fn kept_from(keep_from: i64) -> spec_fn((i64, Seq<u8>)) -> bool {
    |e: (i64, Seq<u8>)| e.0 >= keep_from
}

/// The log without the entries before an offset.
pub open spec fn log_truncated(log: LogView, keep_from: i64) -> LogView {
    LogView { entries: log.entries.filter(kept_from(keep_from)), ..log }
}

/// The entries that a reader may see from an offset on.
pub open spec fn readable(start: i64, hw: i64) -> spec_fn((i64, Seq<u8>)) -> bool {
    |e: (i64, Seq<u8>)| 0 <= start <= e.0 < hw
}

/// Reads entries until one would exceed the limit; the first is taken whatever it
/// weighs. The offset of the first malformed entry ends the reading.
pub open spec fn taken(
    entries: Seq<(i64, Seq<u8>)>,
    limit: int,
    total: int,
    done: Seq<MessageView>,
) -> Result<Seq<MessageView>, LogErrorView>
    decreases entries.len(),
{
    if entries.len() == 0 {
        Ok(done)
    } else {
        match entry_of(entries[0].1) {
            None => Err(LogErrorView::Malformed { offset: entries[0].0, reason: entry_failure(entries[0].1) }),
            Some(m) => if total + weight(m) > limit && done.len() > 0 {
                Ok(done)
            } else {
                taken(entries.skip(1), limit, total + weight(m), done.push(m))
            },
        }
    }
}

/// What a reader gets.
pub open spec fn log_read(log: LogView, start: i64, max_bytes: i32) -> Result<Seq<MessageView>, LogErrorView> {
    taken(log.entries.filter(readable(start, log.hw)), byte_limit(max_bytes), 0, Seq::empty())
}

proof fn lemma_filter_keeps_order(s: Seq<(i64, Seq<u8>)>, p: spec_fn((i64, Seq<u8>)) -> bool)
    requires
        forall|i: int, j: int| 0 <= i < j < s.len() ==> (#[trigger] s[i]).0 < (#[trigger] s[j]).0,
    ensures
        ({
            let f = s.filter(p);
            &&& forall|i: int, j: int| 0 <= i < j < f.len() ==> (#[trigger] f[i]).0 < (#[trigger] f[j]).0
            &&& forall|i: int| 0 <= i < f.len() ==> s.contains(#[trigger] f[i]) && p(f[i])
        }),
    decreases s.len(),
{
    reveal(Seq::filter);
    if s.len() > 0 {
        let t = s.drop_last();
        lemma_filter_keeps_order(t, p);
        let f = s.filter(p);
        let g = t.filter(p);
        assert forall|i: int| 0 <= i < f.len() implies s.contains(#[trigger] f[i]) && p(f[i]) by {
            if i < g.len() {
                assert(t.contains(g[i]));
                let k = choose|k: int| 0 <= k < t.len() && t[k] == g[i];
                assert(s[k] == f[i]);
            } else {
                assert(f[i] == s[s.len() - 1]);
            }
        }
        assert forall|i: int, j: int| 0 <= i < j < f.len() implies (#[trigger] f[i]).0 < (#[trigger] f[j]).0 by {
            if j == g.len() {
                assert(t.contains(g[i]));
                let k = choose|k: int| 0 <= k < t.len() && t[k] == g[i];
                assert(s[k].0 < s[s.len() - 1].0);
            }
        }
    }
}

/// Appending, moving the watermark and truncating keep a log valid.
pub proof fn log_stays_valid(
    log: LogView,
    key: Option<Seq<u8>>,
    value: Seq<u8>,
    now: i64,
    new_hw: i64,
    keep_from: i64,
)
    requires
        valid_log(log),
    ensures
        log.leo < i64::MAX ==> valid_log(log_appended(log, key, value, now)),
        valid_log(log_advanced(log, new_hw)),
        valid_log(log_truncated(log, keep_from)),
{
    lemma_filter_keeps_order(log.entries, kept_from(keep_from));
    let t = log_truncated(log, keep_from);
    assert forall|i: int| 0 <= i < t.entries.len() implies 0 <= (#[trigger] t.entries[i]).0 < log.leo by {
        assert(log.entries.contains(t.entries[i]));
    }
}

/// The watermark never falls.
pub proof fn watermark_never_falls(log: LogView, new_hw: i64)
    ensures
        log_advanced(log, new_hw).hw >= log.hw,
        log_advanced(log, new_hw).hw >= new_hw,
{
}

proof fn lemma_filter_last(s: Seq<(i64, Seq<u8>)>, p: spec_fn((i64, Seq<u8>)) -> bool)
    requires
        s.len() > 0,
        p(s.last()),
        forall|i: int| 0 <= i < s.len() - 1 ==> !p(#[trigger] s[i]),
    ensures
        s.filter(p) == seq![s.last()],
{
    reveal(Seq::filter);
    let t = s.drop_last();
    lemma_filter_none(t, p);
    assert(s.filter(p) =~= seq![s.last()]);
}

proof fn lemma_filter_none(s: Seq<(i64, Seq<u8>)>, p: spec_fn((i64, Seq<u8>)) -> bool)
    requires
        forall|i: int| 0 <= i < s.len() ==> !p(#[trigger] s[i]),
    ensures
        s.filter(p) == Seq::<(i64, Seq<u8>)>::empty(),
    decreases s.len(),
{
    reveal(Seq::filter);
    if s.len() > 0 {
        lemma_filter_none(s.drop_last(), p);
    }
}

/// The bytes of a message can be counted.
pub open spec fn message_fits(key: Option<Seq<u8>>, value: Seq<u8>) -> bool {
    value.len() + (match key {
        Some(k) => k.len(),
        None => 0,
    }) < 0x1_0000_0000_0000_0000 - 64
}

/// A message that can be counted reads back from its binary form.
pub proof fn message_reads_back(m: MessageView)
    requires
        message_fits(m.key, m.value),
    ensures
        entry_of(entry_layout(m)) == Some(m),
{
    lemma_le_len(twos64(m.offset), 8);
    lemma_le_len(twos64(m.timestamp_ms), 8);
    lemma_le_len(m.value.len(), 8);
    if let Some(k) = m.key {
        lemma_le_len(k.len(), 8);
    }
    entry_reads_back(m);
}

/// A message that was appended, and that the watermark has passed, is read from its
/// offset on as it was appended.
pub proof fn committed_message_is_read(
    log: LogView,
    key: Option<Seq<u8>>,
    value: Seq<u8>,
    now: i64,
    max_bytes: i32,
)
    requires
        valid_log(log),
        log.leo < i64::MAX,
        message_fits(key, value),
    ensures
        ({
            let appended = log_appended(log, key, value, now);
            let m = MessageView { offset: log.leo, key, value, timestamp_ms: now };
            log_read(log_advanced(appended, appended.leo), log.leo, max_bytes) == Ok::<_, LogErrorView>(seq![m])
        }),
{
    let m = MessageView { offset: log.leo, key, value, timestamp_ms: now };
    let appended = log_appended(log, key, value, now);
    let after = log_advanced(appended, appended.leo);
    message_reads_back(m);
    let p = readable(log.leo, after.hw);
    lemma_filter_last(after.entries, p);
    let f = seq![(log.leo, entry_layout(m))];
    assert(after.entries.filter(p) =~= f);
    assert(f.skip(1) =~= Seq::empty());
    assert(Seq::<MessageView>::empty().push(m) =~= seq![m]);
    reveal_with_fuel(taken, 2);
}

/// A change of a log.
pub enum LogChange {
    Append { key: Option<Seq<u8>>, value: Seq<u8>, now: i64 },
    Advance { new_hw: i64 },
    Truncate { keep_from: i64 },
}

/// The log after a change.
pub open spec fn log_changed(log: LogView, c: LogChange) -> LogView {
    match c {
        LogChange::Append { key, value, now } => log_appended(log, key, value, now),
        LogChange::Advance { new_hw } => log_advanced(log, new_hw),
        LogChange::Truncate { keep_from } => log_truncated(log, keep_from),
    }
}

/// The log after a row of changes.
pub open spec fn log_changed_all(log: LogView, changes: Seq<LogChange>) -> LogView
    decreases changes.len(),
{
    if changes.len() == 0 { log } else { log_changed(log_changed_all(log, changes.drop_last()), changes.last()) }
}

/// How many of the changes append a message.
pub open spec fn appends(changes: Seq<LogChange>) -> nat
    decreases changes.len(),
{
    if changes.len() == 0 {
        0
    } else {
        appends(changes.drop_last()) + if changes.last() is Append { 1nat } else { 0nat }
    }
}

/// Messages get offsets one after the other, whatever is truncated in between: the next
/// offset counts the messages. The watermark never falls.
pub proof fn offsets_count_messages(log: LogView, changes: Seq<LogChange>)
    requires
        log.leo + appends(changes) <= i64::MAX,
    ensures
        log_changed_all(log, changes).leo == log.leo + appends(changes),
        log_changed_all(log, changes).hw >= log.hw,
    decreases changes.len(),
{
    if changes.len() > 0 {
        offsets_count_messages(log, changes.drop_last());
    }
}

/// What is appended can be counted, and what was appended at an offset is not truncated.
pub open spec fn spares(log: LogView, c: LogChange, offset: i64) -> bool {
    match c {
        LogChange::Append { key, value, .. } => log.leo < i64::MAX && message_fits(key, value),
        LogChange::Advance { .. } => true,
        LogChange::Truncate { keep_from } => keep_from <= offset,
    }
}

/// No change of a row truncates what was appended at an offset.
pub open spec fn all_spare(log: LogView, changes: Seq<LogChange>, offset: i64) -> bool {
    forall|i: int| 0 <= i < changes.len() ==> spares(log_changed_all(log, changes.take(i)), #[trigger] changes[i], offset)
}

spec fn stands(log: LogView, m: MessageView) -> bool {
    &&& valid_log(log)
    &&& log.entries.contains((m.offset, entry_layout(m)))
    &&& entry_of(entry_layout(m)) == Some(m)
    &&& forall|i: int|
        0 <= i < log.entries.len() && (#[trigger] log.entries[i]).0 >= m.offset ==> entry_of(log.entries[i].1) is Some
}

proof fn lemma_still_stands(log: LogView, c: LogChange, m: MessageView)
    requires
        stands(log, m),
        spares(log, c, m.offset),
    ensures
        stands(log_changed(log, c), m),
{
    let after = log_changed(log, c);
    let e = (m.offset, entry_layout(m));
    let k = choose|k: int| 0 <= k < log.entries.len() && log.entries[k] == e;
    match c {
        LogChange::Append { key, value, now } => {
            log_stays_valid(log, key, value, now, 0, 0);
            message_reads_back(MessageView { offset: log.leo, key, value, timestamp_ms: now });
            assert(after.entries[k] == e);
            assert forall|i: int| 0 <= i < after.entries.len() && (#[trigger] after.entries[i]).0
                >= m.offset implies entry_of(after.entries[i].1) is Some by {
                if i < log.entries.len() {
                    assert(after.entries[i] == log.entries[i]);
                }
            }
        },
        LogChange::Advance { new_hw } => {
            log_stays_valid(log, None, Seq::empty(), 0, new_hw, 0);
        },
        LogChange::Truncate { keep_from } => {
            log_stays_valid(log, None, Seq::empty(), 0, 0, keep_from);
            log.entries.lemma_filter_contains(kept_from(keep_from), k);
            lemma_filter_keeps_order(log.entries, kept_from(keep_from));
            assert forall|i: int| 0 <= i < after.entries.len() && (#[trigger] after.entries[i]).0
                >= m.offset implies entry_of(after.entries[i].1) is Some by {
                assert(log.entries.contains(after.entries[i]));
            }
        },
    }
}

proof fn lemma_all_stand(log: LogView, changes: Seq<LogChange>, m: MessageView)
    requires
        stands(log, m),
        all_spare(log, changes, m.offset),
    ensures
        stands(log_changed_all(log, changes), m),
    decreases changes.len(),
{
    if changes.len() > 0 {
        let n = changes.len() - 1;
        let front = changes.drop_last();
        assert(front =~= changes.take(n));
        assert forall|i: int| 0 <= i < front.len() implies spares(
            log_changed_all(log, front.take(i)),
            #[trigger] front[i],
            m.offset,
        ) by {
            assert(front.take(i) =~= changes.take(i));
            assert(front[i] == changes[i]);
        }
        lemma_all_stand(log, front, m);
        assert(spares(log_changed_all(log, changes.take(n)), changes[n], m.offset));
        lemma_still_stands(log_changed_all(log, front), changes.last(), m);
    }
}

proof fn lemma_taken_keeps(entries: Seq<(i64, Seq<u8>)>, limit: int, total: int, done: Seq<MessageView>)
    requires
        forall|i: int| 0 <= i < entries.len() ==> entry_of((#[trigger] entries[i]).1) is Some,
        done.len() > 0,
    ensures
        taken(entries, limit, total, done) matches Ok(r) && r.len() > 0 && r[0] == done[0],
    decreases entries.len(),
{
    if entries.len() > 0 {
        let m = entry_of(entries[0].1)->0;
        if total + weight(m) <= limit {
            let rest = entries.skip(1);
            assert forall|i: int| 0 <= i < rest.len() implies entry_of((#[trigger] rest[i]).1) is Some by {
                assert(rest[i] == entries[i + 1]);
            }
            lemma_taken_keeps(rest, limit, total + weight(m), done.push(m));
        }
    }
}

/// A message that was appended is the first that is read from its offset on as soon as
/// the watermark has passed it, whatever else is appended, and whatever is truncated
/// before it.
pub proof fn message_is_read_first(
    log: LogView,
    key: Option<Seq<u8>>,
    value: Seq<u8>,
    now: i64,
    changes: Seq<LogChange>,
    max_bytes: i32,
)
    requires
        valid_log(log),
        log.leo < i64::MAX,
        message_fits(key, value),
        all_spare(log_appended(log, key, value, now), changes, log.leo),
        log_changed_all(log_appended(log, key, value, now), changes).hw > log.leo,
    ensures
        log_read(log_changed_all(log_appended(log, key, value, now), changes), log.leo, max_bytes) matches Ok(r)
            && r.len() > 0 && r[0] == (MessageView { offset: log.leo, key, value, timestamp_ms: now }),
{
    let m = MessageView { offset: log.leo, key, value, timestamp_ms: now };
    let e = (m.offset, entry_layout(m));
    let start = log_appended(log, key, value, now);
    message_reads_back(m);
    log_stays_valid(log, key, value, now, 0, 0);
    assert(start.entries[log.entries.len() as int] == e);
    lemma_all_stand(start, changes, m);
    let after = log_changed_all(start, changes);
    let p = readable(m.offset, after.hw);
    let f = after.entries.filter(p);
    lemma_filter_keeps_order(after.entries, p);
    let k = choose|k: int| 0 <= k < after.entries.len() && after.entries[k] == e;
    after.entries.lemma_filter_contains(p, k);
    let j = choose|j: int| 0 <= j < f.len() && f[j] == e;
    assert(p(f[0]));
    assert(j == 0);
    let rest = f.skip(1);
    assert forall|i: int| 0 <= i < rest.len() implies entry_of((#[trigger] rest[i]).1) is Some by {
        assert(rest[i] == f[i + 1]);
        assert(p(f[i + 1]));
        assert(after.entries.contains(f[i + 1]));
    }
    lemma_taken_keeps(rest, byte_limit(max_bytes), weight(m), Seq::empty().push(m));
}

proof fn lemma_taken_below(
    entries: Seq<(i64, Seq<u8>)>,
    limit: int,
    total: int,
    done: Seq<MessageView>,
    start: i64,
    hw: i64,
)
    requires
        forall|i: int|
            0 <= i < entries.len() ==> start <= (#[trigger] entries[i]).0 < hw && (entry_of(entries[i].1) matches Some(m)
                ==> m.offset == entries[i].0),
        forall|i: int| 0 <= i < done.len() ==> start <= (#[trigger] done[i]).offset < hw,
    ensures
        taken(entries, limit, total, done) matches Ok(r) ==> forall|i: int|
            0 <= i < r.len() ==> start <= (#[trigger] r[i]).offset < hw,
    decreases entries.len(),
{
    if entries.len() > 0 {
        match entry_of(entries[0].1) {
            Some(m) => if !(total + weight(m) > limit && done.len() > 0) {
                let rest = entries.skip(1);
                assert forall|i: int| 0 <= i < rest.len() implies start <= (#[trigger] rest[i]).0 < hw && (entry_of(
                    rest[i].1,
                ) matches Some(m) ==> m.offset == rest[i].0) by {
                    assert(rest[i] == entries[i + 1]);
                }
                assert(start <= entries[0].0 < hw);
                lemma_taken_below(rest, limit, total + weight(m), done.push(m), start, hw);
            },
            None => {},
        }
    }
}

/// Every entry names the offset that it is stored under.
pub open spec fn entries_fit(log: LogView) -> bool {
    forall|i: int|
        0 <= i < log.entries.len() ==> (entry_of((#[trigger] log.entries[i]).1) matches Some(m) ==> m.offset
            == log.entries[i].0)
}

/// A reader sees no entry at or above the watermark, nor one before the offset that
/// it asks for.
pub proof fn reading_stays_below_watermark(log: LogView, start: i64, max_bytes: i32)
    requires
        valid_log(log),
        entries_fit(log),
    ensures
        log_read(log, start, max_bytes) matches Ok(r) ==> forall|i: int|
            0 <= i < r.len() ==> start <= (#[trigger] r[i]).offset < log.hw,
{
    let p = readable(start, log.hw);
    lemma_filter_keeps_order(log.entries, p);
    let f = log.entries.filter(p);
    assert forall|i: int| 0 <= i < f.len() implies start <= (#[trigger] f[i]).0 < log.hw && (entry_of(f[i].1) matches Some(
        m,
    ) ==> m.offset == f[i].0) by {
        assert(log.entries.contains(f[i]));
        assert(p(f[i]));
    }
    lemma_taken_below(f, byte_limit(max_bytes), 0, Seq::empty(), start, log.hw);
}

/// Entries keep naming their offset when a message is appended.
pub proof fn appending_keeps_entries_fit(log: LogView, key: Option<Seq<u8>>, value: Seq<u8>, now: i64)
    requires
        entries_fit(log),
        message_fits(key, value),
    ensures
        entries_fit(log_appended(log, key, value, now)),
{
    let m = MessageView { offset: log.leo, key, value, timestamp_ms: now };
    message_reads_back(m);
    let after = log_appended(log, key, value, now);
    assert forall|i: int| 0 <= i < after.entries.len() implies (entry_of((#[trigger] after.entries[i]).1) matches Some(x)
        ==> x.offset == after.entries[i].0) by {
        if i < log.entries.len() {
            assert(after.entries[i] == log.entries[i]);
        }
    }
}

/// A number was saved.
pub open spec fn holds_number(saved: Option<Seq<u8>>, n: i64) -> bool {
    saved == Some(le(twos64(n), 8))
}

proof fn lemma_saved(saved: Option<Seq<u8>>, n: i64)
    requires
        holds_number(saved, n),
    ensures
        saved_number(saved) == Some(n),
{
    numbers_read_back(n, 0, Seq::empty());
    assert(le(twos64(n), 8) + Seq::<u8>::empty() =~= le(twos64(n), 8));
}

/// Opening a log again gives it back, whatever was truncated: the watermark was saved
/// if it has moved, and the next offset if it does not follow from the last entry. An
/// older next offset that was saved does no harm.
pub proof fn log_reopens(
    log: LogView,
    items: Seq<(Seq<u8>, Seq<u8>)>,
    saved_hw: Option<Seq<u8>>,
    saved_leo: Option<Seq<u8>>,
    older: i64,
)
    requires
        valid_log(log),
        items.filter(is_entry_item()) == log.entries.map_values(item_of_entry()),
        holds_number(saved_hw, log.hw) || (saved_hw is None && log.hw == 0),
        holds_number(saved_leo, older) || (saved_leo is None && older == log.hw),
        older <= log.leo,
        older == log.leo || behind_last(log.entries) == log.leo,
    ensures
        opened(items, saved_hw, saved_leo) == log,
{
    let r = opened(items, saved_hw, saved_leo);
    assert forall|i: int| 0 <= i < log.entries.len() implies r.entries[i] == log.entries[i] by {
        key_reads_back(log.entries[i].0);
    }
    assert(r.entries =~= log.entries);
    if holds_number(saved_hw, log.hw) {
        lemma_saved(saved_hw, log.hw);
    }
    if holds_number(saved_leo, older) {
        lemma_saved(saved_leo, older);
    }
    if log.entries.len() > 0 {
        assert(log.entries[log.entries.len() - 1].0 < log.leo);
    }
    assert(r =~= log);
}

/// A log that is opened gives out no offset a second time: neither one below the
/// watermark, where nothing else was saved, nor one that was given out when the next
/// offset was saved.
pub proof fn opened_log_goes_on(items: Seq<(Seq<u8>, Seq<u8>)>, saved_hw: Option<Seq<u8>>, saved_leo: Option<Seq<u8>>)
    ensures
        ({
            let log = opened(items, saved_hw, saved_leo);
            &&& saved_number(saved_leo) matches Some(n) ==> log.leo >= n
            &&& saved_number(saved_leo) is None ==> log.leo >= log.hw
            &&& log.leo >= behind_last(log.entries)
        }),
{
}

proof fn lemma_items_rise(items: Seq<(Seq<u8>, Seq<u8>)>)
    requires
        sorted_items(items),
    ensures
        ({
            let f = items.filter(is_entry_item());
            forall|i: int, j: int| 0 <= i < j < f.len() ==> bytes_before((#[trigger] f[i]).0, (#[trigger] f[j]).0)
        }),
        ({
            let f = items.filter(is_entry_item());
            forall|i: int| 0 <= i < f.len() ==> items.contains(#[trigger] f[i]) && is_entry_key(f[i].0)
        }),
    decreases items.len(),
{
    reveal(Seq::filter);
    if items.len() > 0 {
        let t = items.drop_last();
        lemma_items_rise(t);
        let f = items.filter(is_entry_item());
        let g = t.filter(is_entry_item());
        assert forall|i: int| 0 <= i < f.len() implies items.contains(#[trigger] f[i]) && is_entry_key(f[i].0) by {
            if i < g.len() {
                assert(t.contains(g[i]));
                let k = choose|k: int| 0 <= k < t.len() && t[k] == g[i];
                assert(items[k] == f[i]);
            } else {
                assert(f[i] == items[items.len() - 1]);
            }
        }
        assert forall|i: int, j: int| 0 <= i < j < f.len() implies bytes_before(
            (#[trigger] f[i]).0,
            (#[trigger] f[j]).0,
        ) by {
            if j == g.len() {
                assert(t.contains(g[i]));
                let k = choose|k: int| 0 <= k < t.len() && t[k] == g[i];
                assert(bytes_before(items[k].0, items[items.len() - 1].0));
            }
        }
    }
}

proof fn lemma_key_is_canonical(key: Seq<u8>)
    requires
        is_entry_key(key),
    ensures
        offset_key(signed64(big_endian_value(key))) == key,
{
    lemma_bounds();
    lemma_canonical(key);
    lemma_big_endian_bound(key);
}

proof fn lemma_big_endian_bound(s: Seq<u8>)
    ensures
        big_endian_value(s) < crate::wire::byte_bound(s.len()),
    decreases s.len(),
{
    if s.len() > 0 {
        lemma_big_endian_bound(s.drop_last());
    }
}

proof fn lemma_canonical(s: Seq<u8>)
    ensures
        big_endian(big_endian_value(s), s.len()) == s,
    decreases s.len(),
{
    if s.len() > 0 {
        lemma_canonical(s.drop_last());
        let v = big_endian_value(s);
        assert(v % 256 == s.last() as nat && v / 256 == big_endian_value(s.drop_last()));
        assert(big_endian(v, s.len()) =~= s);
    }
}

/// Stored items in the order of their keys make up a valid log.
pub proof fn opened_log_is_valid(items: Seq<(Seq<u8>, Seq<u8>)>, saved_hw: Option<Seq<u8>>, saved_leo: Option<Seq<u8>>)
    requires
        sorted_items(items),
        forall|i: int| 0 <= i < items.len() ==> (#[trigger] items[i]).0 != offset_key(i64::MAX),
    ensures
        valid_log(opened(items, saved_hw, saved_leo)),
{
    let f = items.filter(is_entry_item());
    let log = opened(items, saved_hw, saved_leo);
    lemma_items_rise(items);
    assert forall|i: int| 0 <= i < f.len() implies 0 <= (#[trigger] log.entries[i]).0 < i64::MAX && offset_key(
        log.entries[i].0,
    ) == f[i].0 by {
        assert(is_entry_key(f[i].0));
        lemma_key_is_canonical(f[i].0);
        assert(items.contains(f[i]));
    }
    assert forall|i: int, j: int| 0 <= i < j < log.entries.len() implies (#[trigger] log.entries[i]).0 < (
    #[trigger] log.entries[j]).0 by {
        assert(bytes_before(f[i].0, f[j].0));
        keys_sort_by_offset(log.entries[i].0, log.entries[j].0);
    }
    assert forall|i: int| 0 <= i < log.entries.len() implies 0 <= (#[trigger] log.entries[i]).0 < log.leo by {
        let last = log.entries[log.entries.len() - 1];
        assert(last.0 < i64::MAX);
    }
}

/// Reads a number that was saved.
fn read_saved(saved: &Option<Vec<u8>>) -> (r: Option<i64>)
    ensures
        r == saved_number(saved.deep_view()),
{
    match saved {
        Some(b) => {
            assert(b.deep_view() =~= b@);
            decode_i64(b.as_slice())
        },
        None => None,
    }
}

/// The bytes that a watermark or a next offset is saved as.
pub fn number_to_save(n: i64) -> (r: Vec<u8>)
    ensures
        holds_number(Some(r@), n),
        saved_number(Some(r@)) == Some(n),
{
    let r = encode_i64(n);
    proof {
        lemma_saved(Some(r@), n);
    }
    r
}

impl DeepView for PartitionLog {
    type V = LogView;

    open spec fn deep_view(&self) -> LogView {
        self@
    }
}

impl PartitionLog {
    /// What the log holds.
    pub closed spec fn view(&self) -> LogView {
        LogView { entries: self.tree.deep_view(), leo: self.leo, hw: self.hw }
    }

    #[verifier::type_invariant]
    closed spec fn valid(&self) -> bool {
        valid_log(self.view())
    }

    /// The log that stored items, a saved watermark and a saved next offset make up.
    /// The items come in the order of their keys, and the last offset has a successor.
    pub fn open(items: Vec<(Vec<u8>, Vec<u8>)>, saved_hw: Option<Vec<u8>>, saved_leo: Option<Vec<u8>>) -> (r: Self)
        requires
            sorted_items(items.deep_view()),
            forall|i: int| 0 <= i < items@.len() ==> (#[trigger] items@[i]).0@ != offset_key(i64::MAX),
        ensures
            r@ == opened(items.deep_view(), saved_hw.deep_view(), saved_leo.deep_view()),
            valid_log(r@),
    {
        let ghost all = items.deep_view();
        let ghost p = is_entry_item();
        proof {
            lemma_filter_ends(all, p);
            assert forall|i: int| 0 <= i < all.len() implies (#[trigger] all[i]).0 != offset_key(i64::MAX) by {
                assert(all[i].0 =~= items@[i].0@);
            }
            opened_log_is_valid(all, saved_hw.deep_view(), saved_leo.deep_view());
        }
        let mut tree: Vec<(i64, Vec<u8>)> = Vec::new();
        let mut leo: i64 = 0;
        let mut i: usize = 0;
        let n = items.len();
        assert(tree.deep_view() =~= all.take(0).filter(p).map_values(entry_item()));
        while i < n
            invariant
                i <= n,
                n == items@.len(),
                all == items.deep_view(),
                p == is_entry_item(),
                forall|i: int| 0 <= i < all.len() ==> (#[trigger] all[i]).0 != offset_key(i64::MAX),
                tree.deep_view() == all.take(i as int).filter(p).map_values(entry_item()),
                leo == (if tree@.len() == 0 { 0 } else { tree@.last().0 + 1 }),
            decreases n - i,
        {
            let ghost before = tree.deep_view();
            proof {
                lemma_filter_step(all, p, i as int);
                assert(all[i as int].0 =~= items@[i as int].0@);
                assert(all[i as int].1 =~= items@[i as int].1@);
            }
            if let Ok(offset) = key_to_offset(items[i].0.as_slice()) {
                if offset >= 0 {
                    proof {
                        lemma_key_is_canonical(all[i as int].0);
                    }
                    let value = items[i].1.dup();
                    tree.push((offset, value));
                    leo = offset + 1;
                    assert(tree.deep_view() =~= before.push((offset, all[i as int].1)));
                    assert(tree.deep_view() =~= all.take(i + 1).filter(p).map_values(entry_item()));
                }
            }
            i += 1;
        }
        assert(all.take(i as int) =~= all);
        let hw: i64 = match read_saved(&saved_hw) {
            Some(n) => n,
            None => 0,
        };
        let least: i64 = match read_saved(&saved_leo) {
            Some(n) => n,
            None => hw,
        };
        if least > leo {
            leo = least;
        }
        assert(tree@.len() > 0 ==> tree.deep_view().last().0 == tree@.last().0);
        PartitionLog { tree, leo, hw }
    }

    /// Appends a message and returns its offset.
    pub fn append(&mut self, key: Option<Vec<u8>>, value: Vec<u8>, now: i64) -> (offset: i64)
        requires
            old(self)@.leo < i64::MAX,
        ensures
            offset == old(self)@.leo,
            final(self)@ == log_appended(old(self)@, key.deep_view(), value.deep_view(), now),
            valid_log(final(self)@),
    {
        proof {
            use_type_invariant(&*self);
            log_stays_valid(self@, key.deep_view(), value.deep_view(), now, 0, 0);
        }
        let offset = self.leo;
        let entry = LogEntry { offset, key, value, timestamp_ms: now };
        let bytes = serialize_entry(&entry);
        let mut tree: Vec<(i64, Vec<u8>)> = Vec::new();
        std::mem::swap(&mut tree, &mut self.tree);
        let ghost before = tree.deep_view();
        tree.push((offset, bytes));
        assert(bytes.deep_view() =~= bytes@);
        assert(tree.deep_view() =~= before.push((offset, bytes@)));
        self.leo = offset + 1;
        self.tree = tree;
        offset
    }

    /// The bytes under an offset.
    pub fn stored_bytes(&self, offset: i64) -> (r: Option<&Vec<u8>>)
        ensures
            match r {
                Some(b) => self@.entries.contains((offset, b@)),
                None => forall|i: int| 0 <= i < self@.entries.len() ==> (#[trigger] self@.entries[i]).0 != offset,
            },
    {
        let mut i: usize = 0;
        while i < self.tree.len()
            invariant
                i <= self.tree@.len(),
                forall|j: int| 0 <= j < i ==> (#[trigger] self@.entries[j]).0 != offset,
            decreases self.tree@.len() - i,
        {
            if self.tree[i].0 == offset {
                let b = &self.tree[i].1;
                assert(self@.entries[i as int].1 =~= b@);
                return Some(b);
            }
            i += 1;
        }
        None
    }

    /// Reads messages from an offset on, up to the watermark and the byte limit; the
    /// first one is handed out whatever it weighs.
    pub fn read(&self, start_offset: i64, max_bytes: i32) -> (r: Result<Vec<StoredMessage>, LogError>)
        ensures
            match r {
                Ok(m) => log_read(self@, start_offset, max_bytes) == Ok::<_, LogErrorView>(m.deep_view()),
                Err(e) => log_read(self@, start_offset, max_bytes) == Err::<Seq<MessageView>, _>(e.deep_view()),
            },
    {
        let ghost all = self@.entries;
        let ghost p = readable(start_offset, self@.hw);
        let limit: u128 = if max_bytes >= 0 {
            max_bytes as u128
        } else {
            (usize::MAX as i128 + 1 + max_bytes as i128) as u128
        };
        let mut result: Vec<StoredMessage> = Vec::new();
        let mut total: u128 = 0;
        let mut i: usize = 0;
        proof {
            assert(result.deep_view() =~= Seq::empty());
            assert(all.skip(0) =~= all);
        }
        while i < self.tree.len()
            invariant
                i <= self.tree@.len(),
                all == self@.entries,
                p == readable(start_offset, self@.hw),
                limit == byte_limit(max_bytes),
                result@.len() == 0 ==> total == 0,
                total <= 0x2_0000_0000_0000_0000,
                limit <= 0x1_0000_0000_0000_0000,
                taken(all.skip(i as int).filter(p), limit as int, total as int, result.deep_view()) == log_read(
                    self@,
                    start_offset,
                    max_bytes,
                ),
            decreases self.tree@.len() - i,
        {
            let offset = self.tree[i].0;
            proof {
                lemma_filter_front(all, p, i as int);
                assert(all[i as int].1 =~= self.tree@[i as int].1@);
            }
            if 0 <= start_offset && start_offset <= offset && offset < self.hw {
                let ghost rest = all.skip(i as int).filter(p);
                assert(rest.skip(1) =~= all.skip(i + 1).filter(p));
                match read_entry(self.tree[i].1.as_slice()) {
                    Err(reason) => {
                        return Err(LogError::Malformed { offset, reason });
                    },
                    Ok(entry) => {
                        let ghost m = entry.deep_view();
                        let key_len: usize = match &entry.key {
                            Some(k) => k.len(),
                            None => 0,
                        };
                        let size: u128 = entry.value.len() as u128 + key_len as u128;
                        if total + size > limit && result.len() > 0 {
                            return Ok(result);
                        }
                        let ghost before = result.deep_view();
                        result.push(stored_message(entry));
                        assert(result.deep_view() =~= before.push(m));
                        total = total + size;
                    },
                }
            }
            i += 1;
        }
        proof {
            assert(all.skip(i as int) =~= Seq::empty());
            lemma_filter_ends(all.skip(i as int), p);
        }
        Ok(result)
    }

    /// The next offset to be given out.
    pub fn log_end_offset(&self) -> (r: i64)
        ensures
            r == self@.leo,
    {
        self.leo
    }

    /// The offset before which messages may be read.
    pub fn high_watermark(&self) -> (r: i64)
        ensures
            r == self@.hw,
    {
        self.hw
    }

    /// Moves the watermark, never backwards. Returns whether it has moved.
    pub fn advance_hw(&mut self, new_hw: i64) -> (moved: bool)
        ensures
            moved == (new_hw > old(self)@.hw),
            final(self)@ == log_advanced(old(self)@, new_hw),
    {
        proof {
            use_type_invariant(&*self);
            log_stays_valid(self@, None, Seq::empty(), 0, new_hw, 0);
            assert(self@.entries == log_advanced(self@, new_hw).entries);
        }
        if new_hw > self.hw {
            self.hw = new_hw;
            true
        } else {
            false
        }
    }

    /// The first offset that is still stored.
    pub fn first_offset(&self) -> (r: Option<i64>)
        ensures
            r == (if self@.entries.len() == 0 { None } else { Some(self@.entries[0].0) }),
    {
        if self.tree.len() == 0 {
            None
        } else {
            assert(self@.entries[0].0 == self.tree@[0].0);
            Some(self.tree[0].0)
        }
    }

    /// Removes the entries before an offset and returns their offsets. Neither the
    /// next offset nor the watermark changes.
    pub fn truncate_before(&mut self, keep_from_offset: i64) -> (removed: Vec<i64>)
        ensures
            final(self)@ == log_truncated(old(self)@, keep_from_offset),
            forall|o: i64| #[trigger]
                removed@.contains(o) <==> o < keep_from_offset && exists|i: int|
                    0 <= i < old(self)@.entries.len() && (#[trigger] old(self)@.entries[i]).0 == o,
    {
        let ghost all = self@.entries;
        let ghost p = kept_from(keep_from_offset);
        proof {
            use_type_invariant(&*self);
            log_stays_valid(self@, None, Seq::empty(), 0, 0, keep_from_offset);
            lemma_filter_ends(all, p);
        }
        let mut removed: Vec<i64> = Vec::new();
        let mut kept: Vec<(i64, Vec<u8>)> = Vec::new();
        let mut i: usize = 0;
        assert(kept.deep_view() =~= Seq::empty());
        while i < self.tree.len()
            invariant
                i <= self.tree@.len(),
                all == self@.entries,
                p == kept_from(keep_from_offset),
                kept.deep_view() == all.take(i as int).filter(p),
                forall|k: int|
                    0 <= k < removed@.len() ==> #[trigger] removed@[k] < keep_from_offset && exists|j: int|
                        0 <= j < i && (#[trigger] all[j]).0 == removed@[k],
                forall|j: int| 0 <= j < i && (#[trigger] all[j]).0 < keep_from_offset ==> removed@.contains(all[j].0),
            decreases self.tree@.len() - i,
        {
            proof {
                lemma_filter_step(all, p, i as int);
                assert(all[i as int].1 =~= self.tree@[i as int].1@);
            }
            let ghost before = kept.deep_view();
            let ghost gone = removed@;
            if self.tree[i].0 < keep_from_offset {
                removed.push(self.tree[i].0);
                assert(removed@[gone.len() as int] == all[i as int].0);
                assert forall|j: int| 0 <= j < i + 1 && (#[trigger] all[j]).0 < keep_from_offset implies removed@.contains(
                    all[j].0,
                ) by {
                    if j < i {
                        let k = choose|k: int| 0 <= k < gone.len() && gone[k] == all[j].0;
                        assert(removed@[k] == all[j].0);
                    }
                }
            } else {
                let value = self.tree[i].1.dup();
                kept.push((self.tree[i].0, value));
                assert(kept.deep_view() =~= before.push(all[i as int]));
            }
            i += 1;
        }
        assert(all.take(i as int) =~= all);
        self.tree = kept;
        removed
    }
}

proof fn lemma_filter_front(s: Seq<(i64, Seq<u8>)>, p: spec_fn((i64, Seq<u8>)) -> bool, i: int)
    requires
        0 <= i < s.len(),
    ensures
        s.skip(i).filter(p) == (if p(s[i]) {
            seq![s[i]] + s.skip(i + 1).filter(p)
        } else {
            s.skip(i + 1).filter(p)
        }),
{
    let one = seq![s[i]];
    assert(s.skip(i) =~= one + s.skip(i + 1));
    Seq::filter_distributes_over_add(one, s.skip(i + 1), p);
    reveal(Seq::filter);
    assert(one.drop_last() =~= Seq::empty());
    assert(one.last() == s[i]);
    assert(one.drop_last().filter(p) =~= Seq::empty());
    assert(one.filter(p) =~= if p(s[i]) { one } else { Seq::empty() });
    assert(s.skip(i).filter(p) =~= if p(s[i]) { one + s.skip(i + 1).filter(p) } else { s.skip(i + 1).filter(p) });
}

proof fn lemma_offset_cut(s: Seq<(i64, Seq<u8>)>, bound: int) -> (c: int)
    requires
        forall|i: int, j: int| 0 <= i < j < s.len() ==> (#[trigger] s[i]).0 < (#[trigger] s[j]).0,
    ensures
        0 <= c <= s.len(),
        forall|i: int| 0 <= i < c ==> (#[trigger] s[i]).0 < bound,
        forall|i: int| c <= i < s.len() ==> (#[trigger] s[i]).0 >= bound,
    decreases s.len(),
{
    if s.len() == 0 || s.last().0 < bound {
        if s.len() > 0 {
            assert(s.last() == s[s.len() - 1]);
            assert forall|i: int| 0 <= i < s.len() implies (#[trigger] s[i]).0 < bound by {
                if i < s.len() - 1 {
                    assert(s[i].0 < s[s.len() - 1].0);
                }
            }
        }
        s.len() as int
    } else {
        let t = s.drop_last();
        assert forall|i: int, j: int| 0 <= i < j < t.len() implies (#[trigger] t[i]).0 < (#[trigger] t[j]).0 by {
            assert(t[i] == s[i] && t[j] == s[j]);
        }
        let c = lemma_offset_cut(t, bound);
        assert forall|i: int| 0 <= i < c implies (#[trigger] s[i]).0 < bound by {
            assert(t[i] == s[i]);
        }
        assert forall|i: int| c <= i < s.len() implies (#[trigger] s[i]).0 >= bound by {
            if i < t.len() {
                assert(t[i] == s[i]);
            }
        }
        c
    }
}

proof fn lemma_readable_range(log: LogView, start: i64) -> (r: (int, int))
    requires
        valid_log(log),
        start >= 0,
    ensures
        0 <= r.0 <= r.1 <= log.entries.len(),
        forall|i: int| 0 <= i < r.0 ==> (#[trigger] log.entries[i]).0 < start,
        forall|i: int| r.0 <= i < log.entries.len() ==> (#[trigger] log.entries[i]).0 >= start,
        forall|i: int| r.0 <= i < r.1 ==> (#[trigger] log.entries[i]).0 < log.hw,
        forall|i: int| r.1 <= i < log.entries.len() ==> (#[trigger] log.entries[i]).0 >= log.hw || r.0 == r.1,
        r.1 < log.entries.len() ==> log.entries[r.1].0 >= log.hw,
        log.entries.filter(readable(start, log.hw)) == log.entries.subrange(r.0, r.1),
{
    let s = log.entries;
    let p = readable(start, log.hw);
    let a = lemma_offset_cut(s, start as int);
    let c = lemma_offset_cut(s, log.hw as int);
    let b = if c < a { a } else { c };
    let at = lemma_filter_places(s, p);
    let f = s.filter(p);
    assert forall|i: int| 0 <= i < at.len() implies #[trigger] at[i] == a + i by {
        lemma_places_run(s, p, at, a, b, i);
    }
    assert(at.len() == b - a) by {
        if at.len() > b - a {
            assert(at[b - a] == b);
            assert(p(s[at[b - a]]));
        }
        if at.len() < b - a {
            assert(p(s[a + at.len()]));
            assert(at.contains(a + at.len()));
            let x = choose|x: int| 0 <= x < at.len() && at[x] == a + at.len();
            assert(at[x] == a + x);
        }
    }
    assert(f =~= s.subrange(a, b));
    (a, b)
}

proof fn lemma_places_run(s: Seq<(i64, Seq<u8>)>, p: spec_fn((i64, Seq<u8>)) -> bool, at: Seq<int>, a: int, b: int, i: int)
    requires
        0 <= a <= b <= s.len(),
        0 <= i < at.len(),
        forall|k: int| 0 <= k < s.len() ==> (p(#[trigger] s[k]) <==> a <= k < b),
        forall|i: int| 0 <= i < at.len() ==> 0 <= #[trigger] at[i] < s.len() && p(s[at[i]]),
        forall|i: int, j: int| 0 <= i < j < at.len() ==> #[trigger] at[i] < #[trigger] at[j],
        forall|k: int| 0 <= k < s.len() && p(#[trigger] s[k]) ==> at.contains(k),
    ensures
        at[i] == a + i,
    decreases i,
{
    if i > 0 {
        lemma_places_run(s, p, at, a, b, i - 1);
        assert(at[i - 1] < at[i]);
    }
    let want = a + i;
    assert(at[i] >= want);
    if at[i] > want {
        assert(p(s[at[i]]));
        assert(p(s[want]));
        let x = choose|x: int| 0 <= x < at.len() && at[x] == want;
        if x < i {
            if x < i - 1 {
                assert(at[x] < at[i - 1]);
            }
        } else if x > i {
            assert(at[i] < at[x]);
        }
    }
}

proof fn lemma_taken_front(entries: Seq<(i64, Seq<u8>)>, limit: int, done: Seq<MessageView>)
    ensures
        match taken(entries, limit, total_weight(done), done) {
            Ok(r) => {
                let n = r.len() - done.len();
                &&& 0 <= n <= entries.len()
                &&& r.take(done.len() as int) == done
                &&& forall|i: int| 0 <= i < n ==> entry_of((#[trigger] entries[i]).1) == Some(r[done.len() + i])
                &&& n < entries.len() ==> r.len() > 0 && (entry_of(entries[n].1) matches Some(m) && total_weight(r.push(m))
                    > limit)
                &&& n > 0 && r.len() > 1 ==> total_weight(r) <= limit
            },
            Err(e) => exists|n: int|
                0 <= n < entries.len() && entry_of((#[trigger] entries[n]).1) is None && e == (LogErrorView::Malformed {
                    offset: entries[n].0,
                    reason: entry_failure(entries[n].1),
                }),
        },
    decreases entries.len(),
{
    if entries.len() == 0 {
        assert(done.take(done.len() as int) =~= done);
    } else {
        match entry_of(entries[0].1) {
            None => {
                assert(entry_of(entries[0].1) is None);
            },
            Some(m) => {
                weights_add_up(done, m);
                message_weighs_key_and_value(m);
                assert(done.take(done.len() as int) =~= done);
                if !(total_weight(done) + weight(m) > limit && done.len() > 0) {
                    let rest = entries.skip(1);
                    let more = done.push(m);
                    lemma_taken_front(rest, limit, more);
                    match taken(rest, limit, total_weight(more), more) {
                        Ok(r) => {
                            let n = r.len() - done.len();
                            assert(r.take(done.len() as int) =~= r.take(more.len() as int).take(done.len() as int));
                            assert(more.take(done.len() as int) =~= done);
                            assert(r[done.len() as int] == r.take(more.len() as int)[done.len() as int]);
                            assert forall|i: int| 0 <= i < n implies entry_of((#[trigger] entries[i]).1) == Some(
                                r[done.len() + i],
                            ) by {
                                if i > 0 {
                                    assert(rest[i - 1] == entries[i]);
                                }
                            }
                            if n < entries.len() {
                                assert(rest[n - 1] == entries[n]);
                            }
                            if n == 1 {
                                assert(r =~= r.take(more.len() as int));
                            }
                        },
                        Err(e) => {
                            let n = choose|n: int|
                                0 <= n < rest.len() && entry_of((#[trigger] rest[n]).1) is None && e == (
                                LogErrorView::Malformed { offset: rest[n].0, reason: entry_failure(rest[n].1) });
                            assert(rest[n] == entries[n + 1]);
                        },
                    }
                }
            },
        }
    }
}

/// What is read of a log has no gap. It begins at the first entry that does not lie
/// before the offset and goes on from entry to entry, each as it was stored. It ends at
/// the watermark, at the end of the log, or where the next message would exceed the byte
/// limit. One message is read whatever it weighs; more than one stay within the limit.
pub proof fn reading_has_no_gap(log: LogView, start: i64, max_bytes: i32) -> (at: int)
    requires
        valid_log(log),
        log_read(log, start, max_bytes) is Ok,
    ensures
        ({
            let r = log_read(log, start, max_bytes)->Ok_0;
            &&& 0 <= at
            &&& at + r.len() <= log.entries.len()
            &&& start < 0 ==> r.len() == 0
            &&& start >= 0 ==> {
                let end = at + r.len();
                &&& forall|i: int| 0 <= i < at ==> (#[trigger] log.entries[i]).0 < start
                &&& forall|i: int| at <= i < log.entries.len() ==> (#[trigger] log.entries[i]).0 >= start
                &&& forall|i: int|
                    0 <= i < r.len() ==> log.entries[at + i].0 < log.hw && entry_of(log.entries[at + i].1) == Some(
                        #[trigger] r[i],
                    )
                &&& at < log.entries.len() && log.entries[at].0 < log.hw ==> r.len() > 0
                &&& end < log.entries.len() && log.entries[end].0 < log.hw ==> (entry_of(log.entries[end].1) matches Some(m)
                    && total_weight(r.push(m)) > max_bytes && (max_bytes < 0 ==> total_weight(r.push(m)) > i32::MAX))
                &&& r.len() > 1 && max_bytes >= 0 ==> total_weight(r) <= max_bytes
            }
        }),
{
    let p = readable(start, log.hw);
    let f = log.entries.filter(p);
    let none = Seq::<MessageView>::empty();
    limit_is_meant_as_stated(max_bytes);
    assert(total_weight(none) == 0);
    lemma_taken_front(f, byte_limit(max_bytes), none);
    let r = log_read(log, start, max_bytes)->Ok_0;
    if start < 0 {
        lemma_filter_none(log.entries, p);
        0
    } else {
        let (a, b) = lemma_readable_range(log, start);
        assert forall|i: int| 0 <= i < r.len() implies log.entries[a + i].0 < log.hw && entry_of(log.entries[a + i].1) == Some(
            #[trigger] r[i],
        ) by {
            assert(f[i] == log.entries[a + i]);
            assert(entry_of(f[i].1) == Some(r[none.len() + i]));
        }
        if a + r.len() < b {
            assert(f[r.len() as int] == log.entries[a + r.len()]);
        }
        a
    }
}

/// Reading fails only over an entry that a reader may see and that cannot be read; that
/// entry is named.
pub proof fn reading_fails_over_a_bad_entry(log: LogView, start: i64, max_bytes: i32)
    requires
        valid_log(log),
        log_read(log, start, max_bytes) is Err,
    ensures
        start >= 0,
        log_read(log, start, max_bytes)->Err_0 is Malformed,
        exists|i: int|
            0 <= i < log.entries.len() && start <= (#[trigger] log.entries[i]).0 < log.hw && entry_of(log.entries[i].1) is None
                && (log_read(log, start, max_bytes)->Err_0)->offset == log.entries[i].0,
{
    let p = readable(start, log.hw);
    let f = log.entries.filter(p);
    let none = Seq::<MessageView>::empty();
    assert(total_weight(none) == 0);
    lemma_taken_front(f, byte_limit(max_bytes), none);
    let at = lemma_filter_places(log.entries, p);
    let e = log_read(log, start, max_bytes)->Err_0;
    let n = choose|n: int|
        0 <= n < f.len() && entry_of((#[trigger] f[n]).1) is None && e == (LogErrorView::Malformed {
            offset: f[n].0,
            reason: entry_failure(f[n].1),
        });
    assert(log.entries[at[n]] == f[n]);
}

/// Appending puts the message behind what is there, under the next offset. Moving the
/// watermark changes nothing else, and moves it to where it is told to unless it is
/// there already. Truncating drops exactly the entries before an offset and keeps the
/// order of the others; the next offset and the watermark stay.
pub proof fn changes_touch_nothing_else(
    log: LogView,
    key: Option<Seq<u8>>,
    value: Seq<u8>,
    now: i64,
    new_hw: i64,
    keep_from: i64,
    e: (i64, Seq<u8>),
)
    requires
        log.leo < i64::MAX,
    ensures
        ({
            let a = log_appended(log, key, value, now);
            &&& a.entries.drop_last() == log.entries
            &&& a.entries.last().0 == log.leo
            &&& a.leo == log.leo + 1
            &&& a.hw == log.hw
        }),
        ({
            let a = log_advanced(log, new_hw);
            &&& a.entries == log.entries
            &&& a.leo == log.leo
            &&& new_hw >= log.hw ==> a.hw == new_hw
            &&& new_hw < log.hw ==> a.hw == log.hw
        }),
        ({
            let t = log_truncated(log, keep_from);
            &&& t.leo == log.leo
            &&& t.hw == log.hw
            &&& t.entries.contains(e) <==> log.entries.contains(e) && e.0 >= keep_from
            &&& valid_log(log) ==> valid_log(t)
        }),
{
    assert(log_appended(log, key, value, now).entries.drop_last() =~= log.entries);
    lemma_filter_holds(log.entries, kept_from(keep_from));
    if valid_log(log) {
        log_stays_valid(log, key, value, now, new_hw, keep_from);
    }
}

/// Whatever is stored under the key of an offset, from zero on, is an entry of the opened
/// log, and nothing else is. The next offset lies behind every entry, and is no less than
/// the one that was saved.
pub proof fn opening_finds_every_entry(
    items: Seq<(Seq<u8>, Seq<u8>)>,
    saved_hw: Option<Seq<u8>>,
    saved_leo: Option<Seq<u8>>,
    offset: i64,
    value: Seq<u8>,
)
    ensures
        ({
            let log = opened(items, saved_hw, saved_leo);
            &&& log.entries.contains((offset, value)) <==> 0 <= offset && items.contains((offset_key(offset), value))
            &&& saved_hw is None ==> log.hw == 0
            &&& saved_hw matches Some(b) ==> (i64_in_front(b) is Some ==> log.hw == i64_in_front(b)->0)
            &&& saved_leo matches Some(b) ==> (i64_in_front(b) is Some ==> log.leo >= i64_in_front(b)->0)
            &&& saved_leo is None ==> log.leo >= log.hw
            &&& log.entries.len() > 0 && log.entries.last().0 < i64::MAX ==> log.leo > log.entries.last().0
        }),
{
    let log = opened(items, saved_hw, saved_leo);
    let f = items.filter(is_entry_item());
    lemma_filter_holds(items, is_entry_item());
    key_reads_back(offset);
    if log.entries.contains((offset, value)) {
        let i = choose|i: int| 0 <= i < log.entries.len() && log.entries[i] == (offset, value);
        assert(f.contains(f[i]));
        lemma_key_is_canonical(f[i].0);
        assert(f[i] == (offset_key(offset), value));
    }
    if 0 <= offset && items.contains((offset_key(offset), value)) {
        assert(f.contains((offset_key(offset), value)));
        let i = choose|i: int| 0 <= i < f.len() && f[i] == (offset_key(offset), value);
        assert(log.entries[i] == (offset, value));
    }
}

} // verus!
