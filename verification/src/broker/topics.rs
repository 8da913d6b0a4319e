//! Names of topics, addresses of brokers, and what clients are told of a cluster.
use vstd::prelude::*;

use crate::broker::error::{BrokerError, BrokerResult, ErrorView};
use crate::maps::Dup;
use crate::text::{
    chars_of, decimal_text, find_char, last_part, last_part_joined, number_within, padded_has_no_colon, padded_reads_back,
    parse_i32, rsplit_once,
};

verus! {

/// The name can be part of a storage key: it has no colon.
pub open spec fn is_topic_name(topic: Seq<char>) -> bool {
    !topic.contains(':')
}

/// What is wrong with a name that has a colon.
pub open spec fn bad_topic_name() -> ErrorView {
    ErrorView::Validation("topic name must not contain ':'"@)
}

/// Refuses a name that has a colon.
pub fn validate_topic_name(topic: &String) -> (r: BrokerResult<()>)
    ensures
        match r {
            Ok(()) => is_topic_name(topic@),
            Err(e) => !is_topic_name(topic@) && e.deep_view() == bad_topic_name(),
        },
{
    let chars = chars_of(topic.as_str());
    match find_char(&chars, 0, ':') {
        None => {
            assert(chars@.skip(0) =~= topic@);
            Ok(())
        },
        Some(i) => {
            assert(topic@[i as int] == ':');
            Err(BrokerError::Validation("topic name must not contain ':'".to_owned()))
        },
    }
}

/// A broker as clients see it.
#[derive(Debug)]
pub struct BrokerInfo {
    pub node_id: u64,
    pub api_addr: String,
}

/// A broker as clients see it.
#[verifier::ext_equal]
pub struct InfoView {
    pub node_id: u64,
    pub api_addr: Seq<char>,
}

impl DeepView for BrokerInfo {
    type V = InfoView;

    open spec fn deep_view(&self) -> InfoView {
        InfoView { node_id: self.node_id, api_addr: self.api_addr@ }
    }
}

/// A cluster as clients see it.
#[derive(Debug)]
pub struct ClusterMetadata {
    pub brokers: Vec<BrokerInfo>,
    /// The leading broker; zero where there is none.
    pub leader_id: u64,
}

/// The host and the port of an address, where what follows the last colon is a number.
pub open spec fn host_and_port(addr: Seq<char>) -> Option<(Seq<char>, int)> {
    let tail = last_part(addr, ':');
    match number_within(tail, i32::MIN as int, i32::MAX as int) {
        Some(port) if addr.contains(':') => Some((addr.take(addr.len() - tail.len() - 1), port)),
        _ => None,
    }
}

/// Splits an address into host and port.
pub fn split_address(addr: &String) -> (r: Option<(String, i32)>)
    ensures
        match r {
            Some((host, port)) => host_and_port(addr@) == Some((host@, port as int)),
            None => host_and_port(addr@) is None,
        },
{
    match rsplit_once(addr.as_str(), ':') {
        None => None,
        Some((host, port)) => {
            proof {
                last_part_joined(host@, port@, ':');
                assert(host@ + seq![':'] + port@ =~= addr@);
                assert(addr@[host@.len() as int] == ':');
                assert(addr@.take(addr@.len() - port@.len() - 1) =~= host@);
            }
            match parse_i32(port.as_str()) {
                Some(p) => Some((host, p)),
                None => None,
            }
        },
    }
}

/// The host and the port that clients of a broker are sent to; an address without a
/// port counts as a host with port zero.
pub open spec fn api_address(addr: Seq<char>) -> (Seq<char>, int) {
    match host_and_port(addr) {
        Some(p) => p,
        None => (addr, 0),
    }
}

/// The host and the port that clients of a broker are sent to.
pub fn parse_api_addr(addr: &String) -> (r: (String, i32))
    ensures
        (r.0@, r.1 as int) == api_address(addr@),
{
    match split_address(addr) {
        Some((host, port)) => (host, port),
        None => (addr.dup(), 0),
    }
}

/// The host and the port of a broker on its own: a wildcard host is the local one,
/// and an address without a port is the default one.
pub open spec fn local_address(addr: Seq<char>) -> (Seq<char>, int) {
    match host_and_port(addr) {
        Some((host, port)) => (if host == "0.0.0.0"@ { "localhost"@ } else { host }, port),
        None => ("localhost"@, 50051),
    }
}

/// The host and the port of a broker on its own.
pub fn parse_host_port(addr: &String) -> (r: (String, i32))
    ensures
        (r.0@, r.1 as int) == local_address(addr@),
{
    match split_address(addr) {
        Some((host, port)) => {
            if host == "0.0.0.0".to_owned() {
                ("localhost".to_owned(), port)
            } else {
                (host, port)
            }
        },
        None => ("localhost".to_owned(), 50051),
    }
}

/// A name is good exactly where none of its characters is a colon.
pub proof fn good_names_have_no_colon(topic: Seq<char>, i: int)
    ensures
        is_topic_name(topic) && 0 <= i < topic.len() ==> topic[i] != ':',
        0 <= i < topic.len() && topic[i] == ':' ==> !is_topic_name(topic),
        !is_topic_name(topic) ==> exists|j: int| 0 <= j < topic.len() && topic[j] == ':',
{
    if 0 <= i < topic.len() {
        assert(topic.contains(topic[i]));
    }
}

/// An address is a host, a colon and a port, and reads back as those: for clients as it
/// is, and for a broker on its own with the local host in place of the wildcard.
pub proof fn addresses_read_back(host: Seq<char>, port: i32)
    ensures
        api_address(host + seq![':'] + decimal_text(port as int)) == (host, port as int),
        local_address(host + seq![':'] + decimal_text(port as int)).1 == port,
        host != "0.0.0.0"@ ==> local_address(host + seq![':'] + decimal_text(port as int)).0 == host,
        host == "0.0.0.0"@ ==> local_address(host + seq![':'] + decimal_text(port as int)).0 == "localhost"@,
{
    let tail = decimal_text(port as int);
    let addr = host + seq![':'] + tail;
    padded_has_no_colon(port as int, 0);
    padded_reads_back(port as int, 0);
    last_part_joined(host, tail, ':');
    assert(addr[host.len() as int] == ':');
    assert(addr.take(addr.len() - tail.len() - 1) =~= host);
}

/// An address without a colon has no port: clients are given port zero, and a broker on
/// its own is the local one at the default port.
pub proof fn address_without_port(addr: Seq<char>)
    requires
        forall|i: int| 0 <= i < addr.len() ==> addr[i] != ':',
    ensures
        api_address(addr) == (addr, 0int),
        local_address(addr) == ("localhost"@, 50051int),
{
    assert(!addr.contains(':'));
}

} // verus!
