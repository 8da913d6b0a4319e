//! The other brokers of a cluster and what is sent to them.
use vstd::prelude::*;

use crate::maps::{Dup, VecMap};

verus! {

/// The addresses of a broker.
#[derive(Debug)]
pub struct PeerInfo {
    /// Where other brokers connect, with a scheme.
    pub rpc_addr: String,
    /// Where clients connect.
    pub api_addr: String,
    /// Where the raw TCP transport connects; where absent, `rpc_addr`.
    pub sbe_tcp_addr: Option<String>,
}

/// The addresses of a broker.
#[verifier::ext_equal]
pub struct PeerView {
    pub rpc_addr: Seq<char>,
    pub api_addr: Seq<char>,
    pub sbe_tcp_addr: Option<Seq<char>>,
}

impl DeepView for PeerInfo {
    type V = PeerView;

    open spec fn deep_view(&self) -> PeerView {
        PeerView {
            rpc_addr: self.rpc_addr@,
            api_addr: self.api_addr@,
            sbe_tcp_addr: self.sbe_tcp_addr.deep_view(),
        }
    }
}

impl Dup for PeerInfo {
    fn dup(&self) -> (r: Self) {
        PeerInfo {
            rpc_addr: self.rpc_addr.dup(),
            api_addr: self.api_addr.dup(),
            sbe_tcp_addr: self.sbe_tcp_addr.dup(),
        }
    }
}

/// Who sends replication messages to whom.
pub struct RaftNetworkSender {
    node_id: u64,
    peers: VecMap<u64, PeerInfo>,
}

/// Where a message of this broker goes, if anywhere: never to the broker itself,
/// and to no broker without an address.
pub open spec fn destination(node_id: u64, peers: Map<u64, PeerView>, to: u64) -> Option<Seq<char>> {
    if to != node_id && peers.dom().contains(to) { Some(peers[to].rpc_addr) } else { None }
}

impl RaftNetworkSender {
    /// The broker that sends.
    pub closed spec fn node(&self) -> u64 {
        self.node_id
    }

    /// The brokers that it knows.
    pub closed spec fn known(&self) -> Map<u64, PeerView> {
        self.peers@
    }

    /// A sender for these peers.
    pub fn new(node_id: u64, peers: VecMap<u64, PeerInfo>) -> (r: Self)
        ensures
            r.node() == node_id,
            r.known() == peers@,
    {
        RaftNetworkSender { node_id, peers }
    }

    /// Where clients of a broker connect.
    pub fn peer_api_addr(&self, node_id: u64) -> (r: Option<&str>)
        ensures
            match r {
                Some(a) => self.known().dom().contains(node_id) && a@ == self.known()[node_id].api_addr,
                None => !self.known().dom().contains(node_id),
            },
    {
        match self.peers.get(&node_id) {
            Some(p) => Some(p.api_addr.as_str()),
            None => None,
        }
    }

    /// Where a message for a broker goes.
    pub fn destination(&self, to: u64) -> (r: Option<String>)
        ensures
            r.deep_view() == destination(self.node(), self.known(), to),
    {
        if to == self.node_id {
            return None;
        }
        match self.peers.get(&to) {
            Some(p) => Some(p.rpc_addr.dup()),
            None => None,
        }
    }
}

/// A broker sends to every other broker that it knows, at the address for brokers, and
/// neither to itself nor to anybody unknown.
pub proof fn messages_go_to_known_others(node_id: u64, peers: Map<u64, PeerView>, to: u64)
    ensures
        destination(node_id, peers, to) is Some <==> to != node_id && peers.dom().contains(to),
        destination(node_id, peers, to) matches Some(addr) ==> addr == peers[to].rpc_addr,
{
}

} // verus!
