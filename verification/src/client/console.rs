//! How the command line shows messages and takes them in.
use vstd::prelude::*;
use vstd::string::StringExecFns;
use vstd::utf8::{decode_utf8, encode_utf8, valid_utf8};

use crate::client::consumer::ConsumedMessage;
use crate::client::producer::{OutgoingView, ProducerMessage};
use crate::text::{decimal, decimal_text, decimal_u64, is_trimmed, trim};

verus! {

/// A value as it is shown: its text, or its length where it is none.
pub open spec fn shown_value(value: Seq<u8>) -> Seq<char> {
    if valid_utf8(value) {
        decode_utf8(value)
    } else {
        "<binary data: "@ + decimal_text(value.len() as int) + " bytes>"@
    }
}

/// A message as it is shown: the topic, the partition and the offset, then the value.
pub open spec fn shown_message(m: ConsumedMessage) -> Seq<char> {
    "["@ + m.topic@ + ":"@ + decimal_text(m.partition as int) + ":"@ + decimal_text(m.offset as int) + "] "@
        + shown_value(m.value@)
}

/// The line that shows a message.
pub fn print_line(message: &ConsumedMessage) -> (r: String)
    ensures
        r@ == shown_message(*message),
{
    let value = match message.value_as_string() {
        Ok(text) => text,
        Err(_) => {
            let mut text = "<binary data: ".to_owned();
            text.append(decimal_u64(message.value.len() as u64).as_str());
            text.append(" bytes>");
            text
        },
    };
    assert(value@ == shown_value(message.value@));
    let mut r = "[".to_owned();
    r.append(message.topic.as_str());
    r.append(":");
    r.append(decimal(message.partition as i64).as_str());
    r.append(":");
    r.append(decimal(message.offset).as_str());
    r.append("] ");
    r.append(value.as_str());
    r
}

/// The message that a line of input means: its text without white space at either end;
/// a blank line means none.
pub fn line_message(line: &String) -> (r: Option<ProducerMessage>)
    ensures
        exists|text: Seq<char>| #[trigger]
            is_trimmed(line@, text) && match r {
                Some(m) => text.len() > 0 && m.deep_view() == (OutgoingView {
                    key: None,
                    value: encode_utf8(text),
                    partition: None,
                }),
                None => text.len() == 0,
            },
{
    let text = trim(line.as_str());
    assert(is_trimmed(line@, text@));
    if text.as_str().is_empty() {
        return None;
    }
    let value = vstd::slice::slice_to_vec(text.as_str().as_bytes());
    assert(value.deep_view() =~= value@);
    Some(ProducerMessage::new(value))
}

/// How much is logged: what a broker's configuration says, else the usual.
pub fn log_level(is_broker: bool, configured: Option<String>) -> (r: String)
    ensures
        r@ == (match configured {
            Some(level) if is_broker => level@,
            _ => "info"@,
        }),
{
    match configured {
        Some(level) if is_broker => level,
        _ => "info".to_owned(),
    }
}

} // verus!
