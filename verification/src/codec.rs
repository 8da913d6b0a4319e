//! An envelope for typed messages: a name, a version and a time in front of a payload.
use std::time::{Duration, SystemTime, SystemTimeError};
use vstd::prelude::*;
use vstd::string::StringExecFns;
use vstd::utf8::{encode_utf8, encode_utf8_decode_utf8};

use crate::maps::Dup;
use crate::wire::{le, le_reads_back, lemma_bounds, lemma_le_len, twos64};

verus! {

/// `std::time::SystemTime`, carried as it is.
#[verifier::external_type_specification]
#[verifier::external_body]
pub struct ExSystemTime(SystemTime);

/// `std::time::SystemTimeError`, carried as it is.
#[verifier::external_type_specification]
#[verifier::external_body]
pub struct ExSystemTimeError(SystemTimeError);

/// `SystemTime::now` reads the clock; nothing is claimed of what it shows.
pub assume_specification[ SystemTime::now ]() -> SystemTime
;

/// `SystemTime::duration_since` the beginning of 1970 fails where the time is earlier;
/// nothing is claimed of the result, since it comes from the clock.
#[verifier::external_body]
fn since_epoch(time: SystemTime) -> Result<Duration, SystemTimeError> {
    time.duration_since(SystemTime::UNIX_EPOCH)
}

/// `Duration::as_millis` is the length in milliseconds; nothing is claimed of it, since
/// it comes from the clock.
pub assume_specification[ Duration::as_millis ](d: &Duration) -> u128
;

/// The stamp of a moment: the lower 64 bits of the milliseconds since the beginning of
/// 1970. A moment before that has the stamp zero.
pub fn stamp_of(elapsed_ms: Option<u128>) -> (r: i64)
    ensures
        r == (match elapsed_ms {
            Some(ms) => ms as i64,
            None => 0i64,
        }),
{
    match elapsed_ms {
        Some(ms) =>
        #[verifier::truncate]
        (ms as i64),
        None => 0,
    }
}

/// The stamp of this moment. What it is, the clock decides.
pub fn now_ms() -> i64 {
    let elapsed_ms = match since_epoch(SystemTime::now()) {
        Ok(d) => Some(d.as_millis()),
        Err(_) => None,
    };
    stamp_of(elapsed_ms)
}

/// A message with its name, its version and the time at which it was made.
#[derive(Debug)]
pub struct MessageEnvelope<T> {
    /// What kind of message it is.
    pub event_type: String,
    /// The version of the payload's form.
    pub schema_version: u16,
    /// When the message was made, in milliseconds since the beginning of 1970.
    pub created_at_ms: i64,
    pub payload: T,
}

impl<T> MessageEnvelope<T> {
    /// A message that is made now.
    pub fn new(event_type: String, schema_version: u16, payload: T) -> (r: Self)
        ensures
            r.event_type@ == event_type@,
            r.schema_version == schema_version,
            r.payload == payload,
    {
        MessageEnvelope::made_at(event_type, schema_version, now_ms(), payload)
    }

    /// A message that was made at a time.
    pub fn made_at(event_type: String, schema_version: u16, created_at_ms: i64, payload: T) -> (r: Self)
        ensures
            r == (MessageEnvelope { event_type, schema_version, created_at_ms, payload }),
    {
        MessageEnvelope { event_type, schema_version, created_at_ms, payload }
    }
}

/// A payload in its own binary form, which is what stands in an envelope.
#[derive(Debug)]
pub struct Encoded {
    pub bytes: Vec<u8>,
}

/// What an envelope around an encoded payload holds.
#[verifier::ext_equal]
pub struct EnvelopeView {
    pub event_type: Seq<char>,
    pub schema_version: u16,
    pub created_at_ms: i64,
    pub payload: Seq<u8>,
}

/// What an envelope around an encoded payload holds.
pub open spec fn envelope_view(e: MessageEnvelope<Encoded>) -> EnvelopeView {
    EnvelopeView {
        event_type: e.event_type@,
        schema_version: e.schema_version,
        created_at_ms: e.created_at_ms,
        payload: e.payload.bytes@,
    }
}

/// Why an envelope could not be written or read. The text is that of the format.
#[derive(Debug)]
pub enum MessageCodecError {
    EncodeBinary(String),
    DecodeBinary(String),
    EncodeJson(String),
    DecodeJson(String),
}

/// How an error is shown.
pub open spec fn codec_error_text(e: MessageCodecError) -> Seq<char> {
    match e {
        MessageCodecError::EncodeBinary(m) => "failed to encode envelope to binary: "@ + m@,
        MessageCodecError::DecodeBinary(m) => "failed to decode envelope from binary: "@ + m@,
        MessageCodecError::EncodeJson(m) => "failed to encode envelope to JSON: "@ + m@,
        MessageCodecError::DecodeJson(m) => "failed to decode envelope from JSON: "@ + m@,
    }
}

impl MessageCodecError {
    /// The error in words.
    pub fn to_string(&self) -> (r: String)
        ensures
            r@ == codec_error_text(*self),
    {
        let (mut r, m) = match self {
            MessageCodecError::EncodeBinary(m) => ("failed to encode envelope to binary: ".to_owned(), m),
            MessageCodecError::DecodeBinary(m) => ("failed to decode envelope from binary: ".to_owned(), m),
            MessageCodecError::EncodeJson(m) => ("failed to encode envelope to JSON: ".to_owned(), m),
            MessageCodecError::DecodeJson(m) => ("failed to decode envelope from JSON: ".to_owned(), m),
        };
        r.append(m.as_str());
        r
    }
}

/// What stands in front of a payload: the name behind its length in eight bytes, the
/// version in two bytes and the time in eight, all lowest byte first.
pub open spec fn header(event_type: Seq<char>, schema_version: u16, created_at_ms: i64) -> Seq<u8> {
    le(encode_utf8(event_type).len(), 8) + encode_utf8(event_type) + le(schema_version as nat, 2) + le(
        twos64(created_at_ms),
        8,
    )
}

/// The binary form of an envelope: its header, then its payload.
pub open spec fn envelope_bytes(e: EnvelopeView) -> Seq<u8> {
    header(e.event_type, e.schema_version, e.created_at_ms) + e.payload
}

/// What `bincode` says of bytes without a header in front.
pub uninterp spec fn header_failure(bytes: Seq<u8>) -> Seq<char>;

/// `bincode::serialize` on a text and two numbers cannot fail; it writes the text behind
/// its length in eight bytes, then the numbers in two and in eight, lowest byte first.
#[verifier::external_body]
fn write_header(event_type: &String, schema_version: u16, created_at_ms: i64) -> (r: Vec<u8>)
    ensures
        r@ == header(event_type@, schema_version, created_at_ms),
{
    bincode::serialize(&(event_type, schema_version, created_at_ms)).unwrap_or_default()
}

/// `bincode::deserialize` reads a text and two numbers from the front of the bytes and
/// ignores what follows; it fails exactly where they do not stand there, and the text of
/// the error depends on the bytes alone.
#[verifier::external_body]
fn read_header(bytes: &[u8]) -> (r: Result<(String, u16, i64), String>)
    ensures
        r matches Ok(h) ==> header(h.0@, h.1, h.2).is_prefix_of(bytes@),
        r matches Err(e) ==> e@ == header_failure(bytes@) && forall|t: Seq<char>, v: u16, c: i64|
            !(#[trigger] header(t, v, c)).is_prefix_of(bytes@),
{
    bincode::deserialize(bytes).map_err(|e| e.to_string())
}

/// The binary form of an envelope around an encoded payload.
pub fn encode(envelope: &MessageEnvelope<Encoded>) -> (r: Result<Vec<u8>, MessageCodecError>)
    ensures
        r matches Ok(bytes) && bytes@ == envelope_bytes(envelope_view(*envelope)),
{
    let mut bytes = write_header(&envelope.event_type, envelope.schema_version, envelope.created_at_ms);
    let mut payload = envelope.payload.bytes.dup();
    proof {
        assert(payload.deep_view() =~= payload@);
        assert(envelope.payload.bytes.deep_view() =~= envelope.payload.bytes@);
    }
    bytes.append(&mut payload);
    Ok(bytes)
}

/// Reads an envelope; what follows the header is the encoded payload.
pub fn decode(bytes: &[u8]) -> (r: Result<MessageEnvelope<Encoded>, MessageCodecError>)
    ensures
        match r {
            Ok(e) => envelope_bytes(envelope_view(e)) == bytes@,
            Err(e) => (e matches MessageCodecError::DecodeBinary(m) && m@ == header_failure(bytes@)) && forall|v:
                EnvelopeView|
                #[trigger] envelope_bytes(v) != bytes@,
        },
{
    match read_header(bytes) {
        Ok(h) => {
            let ghost head = header(h.0@, h.1, h.2);
            proof {
                lemma_header_len(h.0@, h.1, h.2);
            }
            let end = bytes.len();
            let name_len = h.0.as_str().as_bytes().len();
            let start: usize = 18 + name_len;
            let rest = vstd::slice::slice_to_vec(vstd::slice::slice_subrange(bytes, start, end));
            proof {
                assert(head + rest@ =~= bytes@);
            }
            Ok(
                MessageEnvelope {
                    event_type: h.0,
                    schema_version: h.1,
                    created_at_ms: h.2,
                    payload: Encoded { bytes: rest },
                },
            )
        },
        Err(m) => {
            proof {
                assert forall|v: EnvelopeView| #[trigger] envelope_bytes(v) != bytes@ by {
                    let head = header(v.event_type, v.schema_version, v.created_at_ms);
                    if head + v.payload == bytes@ {
                        assert(head.is_prefix_of(bytes@)) by {
                            assert(bytes@.take(head.len() as int) =~= head);
                        }
                    }
                }
            }
            Err(MessageCodecError::DecodeBinary(m))
        },
    }
}

proof fn lemma_header_len(t: Seq<char>, v: u16, c: i64)
    ensures
        header(t, v, c).len() == 18 + encode_utf8(t).len(),
{
    lemma_le_len(encode_utf8(t).len(), 8);
    lemma_le_len(v as nat, 2);
    lemma_le_len(twos64(c), 8);
}

/// Reading an envelope gives back what was written: no two envelopes have one binary
/// form.
pub proof fn envelope_reads_back(a: EnvelopeView, b: EnvelopeView)
    requires
        envelope_bytes(a) == envelope_bytes(b),
        encode_utf8(a.event_type).len() <= u64::MAX,
        encode_utf8(b.event_type).len() <= u64::MAX,
    ensures
        a == b,
{
    let s = envelope_bytes(a);
    let ua = encode_utf8(a.event_type);
    let ub = encode_utf8(b.event_type);
    lemma_bounds();
    lemma_le_len(ua.len(), 8);
    lemma_le_len(ub.len(), 8);
    lemma_le_len(a.schema_version as nat, 2);
    lemma_le_len(b.schema_version as nat, 2);
    lemma_le_len(twos64(a.created_at_ms), 8);
    lemma_le_len(twos64(b.created_at_ms), 8);
    le_reads_back(ua.len(), 8);
    le_reads_back(ub.len(), 8);
    assert(s.take(8) =~= le(ua.len(), 8));
    assert(s.take(8) =~= le(ub.len(), 8));
    let n = ua.len() as int;
    assert(s.subrange(8, 8 + n) =~= ua);
    assert(s.subrange(8, 8 + n) =~= ub);
    encode_utf8_decode_utf8(a.event_type);
    encode_utf8_decode_utf8(b.event_type);
    le_reads_back(a.schema_version as nat, 2);
    le_reads_back(b.schema_version as nat, 2);
    assert(s.subrange(8 + n, 10 + n) =~= le(a.schema_version as nat, 2));
    assert(s.subrange(8 + n, 10 + n) =~= le(b.schema_version as nat, 2));
    le_reads_back(twos64(a.created_at_ms), 8);
    le_reads_back(twos64(b.created_at_ms), 8);
    assert(s.subrange(10 + n, 18 + n) =~= le(twos64(a.created_at_ms), 8));
    assert(s.subrange(10 + n, 18 + n) =~= le(twos64(b.created_at_ms), 8));
    assert(s.skip(18 + n) =~= a.payload);
    assert(s.skip(18 + n) =~= b.payload);
}

/// An envelope around a payload of any type comes back as it was written, where the
/// binary form of the payload does: `write` gives that form, and `read` reads it.
pub proof fn typed_envelope_reads_back<T>(
    sent: MessageEnvelope<T>,
    write: spec_fn(T) -> Seq<u8>,
    read: spec_fn(Seq<u8>) -> Option<T>,
    got: EnvelopeView,
)
    requires
        read(write(sent.payload)) == Some(sent.payload),
        encode_utf8(sent.event_type@).len() <= u64::MAX,
        encode_utf8(got.event_type).len() <= u64::MAX,
        envelope_bytes(got) == envelope_bytes(
            EnvelopeView {
                event_type: sent.event_type@,
                schema_version: sent.schema_version,
                created_at_ms: sent.created_at_ms,
                payload: write(sent.payload),
            },
        ),
    ensures
        got.event_type == sent.event_type@,
        got.schema_version == sent.schema_version,
        got.created_at_ms == sent.created_at_ms,
        read(got.payload) == Some(sent.payload),
{
    envelope_reads_back(
        got,
        EnvelopeView {
            event_type: sent.event_type@,
            schema_version: sent.schema_version,
            created_at_ms: sent.created_at_ms,
            payload: write(sent.payload),
        },
    );
}

} // verus!
