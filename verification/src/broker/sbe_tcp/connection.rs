//! Which frame goes to which peer.
use bytes::BytesMut;
use vstd::prelude::*;

use crate::broker::raft_network::{PeerInfo, PeerView};
use crate::broker::sbe_tcp::buffer::{buffer_len, buffered, put_slice, set_front, split};
use crate::broker::sbe_tcp::codec::{encode, payload, Message, MessageView};
use crate::broker::sbe_tcp::pool::BufferPool;
use crate::maps::VecMap;
use crate::seqs::{lemma_filter_ends, lemma_filter_places, lemma_filter_step};
use crate::text::{is_space, is_trimmed, outer_space_is_dropped, trim, trim_start_matches, without_leading};
use crate::wire::{le, le_reads_back, le_value, lemma_bounds, lemma_le_len, put_le};

verus! {

/// A payload with its length in front, ready to be written.
pub struct Frame {
    pub data: BytesMut,
}

/// Who sends to whom over raw TCP.
pub struct ConnectionManager {
    node_id: u64,
    peers: VecMap<u64, PeerInfo>,
    pool: BufferPool,
}

/// Where to write a frame.
pub struct Outgoing {
    pub peer_id: u64,
    pub addr: String,
    pub frame: Frame,
}

/// The address of a peer: that of the raw TCP transport, where it has one that is
/// not blank, else the one for replication; in either case without its scheme.
pub open spec fn is_peer_addr(peer: PeerView, addr: Seq<char>) -> bool {
    match peer.sbe_tcp_addr {
        Some(own) => exists|t: Seq<char>| #[trigger]
            is_trimmed(own, t) && addr == without_leading(if t.len() > 0 { t } else { peer.rpc_addr }, "http://"@),
        None => addr == without_leading(peer.rpc_addr, "http://"@),
    }
}

/// The message is for another broker that has an address.
pub open spec fn is_routed(node_id: u64, peers: Map<u64, PeerView>, m: MessageView) -> bool {
    m.to != node_id && peers.dom().contains(m.to)
}

/// The messages that leave this broker.
pub open spec fn routed(node_id: u64, peers: Map<u64, PeerView>) -> spec_fn(MessageView) -> bool {
    |m: MessageView| is_routed(node_id, peers, m)
}

/// What is written for a message.
pub open spec fn framed(m: MessageView) -> Seq<u8> {
    le(payload(m).len(), 4) + payload(m)
}

/// A frame that carries a message to its receiver.
pub open spec fn is_sent(o: Outgoing, peers: Map<u64, PeerView>, m: MessageView) -> bool {
    &&& o.peer_id == m.to
    &&& is_peer_addr(peers[m.to], o.addr@)
    &&& buffered(o.frame.data) == framed(m)
}

/// The receiver of a frame reads the length of the payload, and then the payload.
pub proof fn frame_reads_back(m: MessageView)
    requires
        payload(m).len() < 0x1_0000_0000,
    ensures
        le_value(framed(m).take(4)) == payload(m).len(),
        framed(m).skip(4) == payload(m),
{
    lemma_bounds();
    le_reads_back(payload(m).len(), 4);
    assert(framed(m).take(4) =~= le(payload(m).len(), 4));
    assert(framed(m).skip(4) =~= payload(m));
}

impl ConnectionManager {
    /// The broker that sends.
    pub closed spec fn node(&self) -> u64 {
        self.node_id
    }

    /// The brokers that it knows.
    pub closed spec fn known(&self) -> Map<u64, PeerView> {
        self.peers@
    }

    /// A manager for these peers.
    pub fn new(node_id: u64, peers: VecMap<u64, PeerInfo>) -> (r: Self)
        ensures
            r.node() == node_id,
            r.known() == peers@,
    {
        ConnectionManager { node_id, peers, pool: BufferPool::new() }
    }

    /// The address without its scheme.
    pub fn bare_addr(addr: &str) -> (r: String)
        ensures
            r@ == without_leading(addr@, "http://"@),
    {
        proof {
            reveal_strlit("http://");
        }
        trim_start_matches(addr, "http://")
    }

    /// Where to connect to a peer.
    pub fn resolve_peer_addr(peer: &PeerInfo) -> (r: String)
        ensures
            is_peer_addr(peer.deep_view(), r@),
    {
        match &peer.sbe_tcp_addr {
            Some(own) => {
                let trimmed = trim(own.as_str());
                assert(is_trimmed(peer.deep_view().sbe_tcp_addr->0, trimmed@));
                if !trimmed.as_str().is_empty() {
                    ConnectionManager::bare_addr(trimmed.as_str())
                } else {
                    ConnectionManager::bare_addr(peer.rpc_addr.as_str())
                }
            },
            None => ConnectionManager::bare_addr(peer.rpc_addr.as_str()),
        }
    }

    /// The frame of a message, built in a buffer of the pool.
    pub fn frame(&mut self, msg: &Message) -> (r: Frame)
        ensures
            buffered(r.data) == framed(msg.deep_view()),
            final(self).node() == old(self).node(),
            final(self).known() == old(self).known(),
    {
        let mut pooled = self.pool.acquire();
        let zeros: [u8; 4] = [0, 0, 0, 0];
        put_slice(&mut pooled.buf, zeros.as_slice());
        let _ = encode(msg, &mut pooled.buf);
        let ghost whole = buffered(pooled.buf);
        assert(whole =~= zeros@ + payload(msg.deep_view()));
        let payload_len = buffer_len(&pooled.buf) - 4;
        let mut prefix: Vec<u8> = Vec::new();
        put_le(&mut prefix, payload_len as u64, 4);
        proof {
            lemma_le_len(payload_len as nat, 4);
            assert(prefix@ =~= le(payload_len as nat, 4));
            assert(whole.skip(4) =~= payload(msg.deep_view()));
        }
        set_front(&mut pooled.buf, prefix.as_slice());
        let data = split(&mut pooled.buf);
        assert(buffered(data) =~= framed(msg.deep_view()));
        self.pool.release(pooled);
        Frame { data }
    }

    /// What to write for a batch of messages, in their order. A message for this
    /// broker, or for one without an address, is left out.
    pub fn send_messages(&mut self, msgs: &Vec<Message>) -> (r: Vec<Outgoing>)
        ensures
            final(self).node() == old(self).node(),
            final(self).known() == old(self).known(),
            ({
                let kept = msgs.deep_view().filter(routed(old(self).node(), old(self).known()));
                &&& r@.len() == kept.len()
                &&& forall|i: int| 0 <= i < kept.len() ==> is_sent(#[trigger] r@[i], old(self).known(), kept[i])
            }),
    {
        let ghost node = self.node();
        let ghost peers = self.known();
        let ghost all = msgs.deep_view();
        let mut r: Vec<Outgoing> = Vec::new();
        let mut i: usize = 0;
        proof {
            lemma_filter_ends(all, routed(node, peers));
        }
        while i < msgs.len()
            invariant
                i <= msgs@.len(),
                all == msgs.deep_view(),
                self.node() == node,
                self.known() == peers,
                r@.len() == all.take(i as int).filter(routed(node, peers)).len(),
                forall|j: int|
                    0 <= j < r@.len() ==> is_sent(
                        #[trigger] r@[j],
                        peers,
                        all.take(i as int).filter(routed(node, peers))[j],
                    ),
            decreases msgs@.len() - i,
        {
            let msg = &msgs[i];
            proof {
                lemma_filter_step(all, routed(node, peers), i as int);
            }
            if msg.to != self.node_id {
                let addr = match self.peers.get(&msg.to) {
                    Some(p) => Some(ConnectionManager::resolve_peer_addr(p)),
                    None => None,
                };
                match addr {
                    Some(addr) => {
                        let frame = self.frame(msg);
                        r.push(Outgoing { peer_id: msg.to, addr, frame });
                    },
                    None => {},
                }
            }
            i += 1;
        }
        assert(all.take(i as int) =~= all);
        r
    }
}

/// Where a peer is reached: at its own address for raw TCP without the spaces around it;
/// where that is blank or missing, at the address for replication. A scheme in front is
/// dropped.
pub proof fn peers_are_reached_at_their_address(peer: PeerView, addr: Seq<char>, a: Seq<char>, t: Seq<char>, b: Seq<char>)
    requires
        is_peer_addr(peer, addr),
        forall|i: int| 0 <= i < a.len() ==> is_space(#[trigger] a[i]),
        forall|i: int| 0 <= i < b.len() ==> is_space(#[trigger] b[i]),
        t.len() > 0 ==> !is_space(t[0]) && !is_space(t.last()),
    ensures
        peer.sbe_tcp_addr is None ==> addr == without_leading(peer.rpc_addr, "http://"@),
        peer.sbe_tcp_addr == Some(a + t + b) && t.len() == 0 ==> addr == without_leading(peer.rpc_addr, "http://"@),
        peer.sbe_tcp_addr == Some(a + t + b) && t.len() > 0 ==> addr == without_leading(t, "http://"@),
{
    if let Some(own) = peer.sbe_tcp_addr {
        let r = choose|r: Seq<char>| #[trigger]
            is_trimmed(own, r) && addr == without_leading(if r.len() > 0 { r } else { peer.rpc_addr }, "http://"@);
        if own == a + t + b {
            outer_space_is_dropped(a, t, b, r);
        }
    }
}

/// A message leaves exactly where it is for another broker and that broker is known. It
/// goes to its receiver, and the messages that leave keep their order. Every frame starts
/// with the length of what follows, in four bytes with the lowest first.
pub proof fn messages_leave_in_order(
    node: u64,
    peers: Map<u64, PeerView>,
    msgs: Seq<MessageView>,
    sent: Seq<Outgoing>,
    k: int,
) -> (at: Seq<int>)
    requires
        sent.len() == msgs.filter(routed(node, peers)).len(),
        forall|i: int| 0 <= i < sent.len() ==> is_sent(#[trigger] sent[i], peers, msgs.filter(routed(node, peers))[i]),
    ensures
        at.len() == sent.len(),
        forall|i: int|
            0 <= i < sent.len() ==> 0 <= #[trigger] at[i] < msgs.len() && sent[i].peer_id == msgs[at[i]].to && is_peer_addr(
                peers[msgs[at[i]].to],
                sent[i].addr@,
            ) && buffered(sent[i].frame.data) == le(payload(msgs[at[i]]).len(), 4) + payload(msgs[at[i]]),
        forall|i: int, j: int| 0 <= i < j < at.len() ==> #[trigger] at[i] < #[trigger] at[j],
        0 <= k < msgs.len() ==> (at.contains(k) <==> msgs[k].to != node && peers.dom().contains(msgs[k].to)),
{
    let at = lemma_filter_places(msgs, routed(node, peers));
    assert forall|i: int| 0 <= i < sent.len() implies 0 <= #[trigger] at[i] < msgs.len() && sent[i].peer_id
        == msgs[at[i]].to && is_peer_addr(peers[msgs[at[i]].to], sent[i].addr@) && buffered(sent[i].frame.data) == le(
        payload(msgs[at[i]]).len(),
        4,
    ) + payload(msgs[at[i]]) by {
        assert(is_sent(sent[i], peers, msgs.filter(routed(node, peers))[i]));
    }
    at
}

} // verus!
