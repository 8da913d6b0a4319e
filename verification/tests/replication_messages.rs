use bytes::BytesMut;
use raft::eraftpb::{EntryType, MessageType};
use rust_mq::broker::sbe_tcp::codec::{
    decode, encode, ConfState, Entry, Message, SbeError, Snapshot, SnapshotMetadata, MIN_MSG_LEN,
};

fn round_trip(msg: &Message) -> Message {
    let mut buf = BytesMut::new();
    encode(msg, &mut buf).expect("encode");
    decode(&buf).expect("decode")
}

fn empty_entry() -> Entry {
    Entry { entry_type: 0, term: 0, index: 0, data: Vec::new(), context: Vec::new() }
}

fn empty_conf_state() -> ConfState {
    ConfState {
        voters: Vec::new(),
        learners: Vec::new(),
        voters_outgoing: Vec::new(),
        learners_next: Vec::new(),
        auto_leave: false,
    }
}

#[test]
fn heartbeat_round_trip() {
    let mut msg = Message::default();
    msg.msg_type = MessageType::MsgHeartbeat as i32;
    msg.to = 2;
    msg.from = 1;
    msg.term = 5;
    msg.commit = 42;

    let out = round_trip(&msg);
    assert_eq!(out.msg_type, msg.msg_type);
    assert_eq!(out.to, msg.to);
    assert_eq!(out.from, msg.from);
    assert_eq!(out.term, msg.term);
    assert_eq!(out.commit, msg.commit);
}

#[test]
fn vote_round_trip() {
    let mut msg = Message::default();
    msg.msg_type = MessageType::MsgRequestVote as i32;
    msg.to = 3;
    msg.from = 1;
    msg.term = 10;
    msg.log_term = 9;
    msg.index = 100;
    msg.reject = false;

    let out = round_trip(&msg);
    assert_eq!(out.msg_type, msg.msg_type);
    assert_eq!(out.index, msg.index);
    assert_eq!(out.log_term, msg.log_term);
    assert_eq!(out.reject, msg.reject);
}

#[test]
fn vote_response_reject_round_trip() {
    let mut msg = Message::default();
    msg.msg_type = MessageType::MsgRequestVoteResponse as i32;
    msg.to = 1;
    msg.from = 2;
    msg.term = 10;
    msg.reject = true;
    msg.reject_hint = 99;

    let out = round_trip(&msg);
    assert_eq!(out.reject, true);
    assert_eq!(out.reject_hint, 99);
}

#[test]
fn append_entries_round_trip() {
    let mut msg = Message::default();
    msg.msg_type = MessageType::MsgAppend as i32;
    msg.to = 2;
    msg.from = 1;
    msg.term = 3;
    msg.commit = 7;

    for i in 0..10u64 {
        let mut e = empty_entry();
        e.entry_type = EntryType::EntryNormal as i32;
        e.term = 3;
        e.index = i + 1;
        e.data = format!("cmd-{}", i).into_bytes();
        msg.entries.push(e);
    }

    let out = round_trip(&msg);
    assert_eq!(out.entries.len(), 10);
    for (i, e) in out.entries.iter().enumerate() {
        assert_eq!(e.index, i as u64 + 1);
        assert_eq!(e.data, format!("cmd-{}", i).into_bytes());
    }
}

#[test]
fn context_round_trip() {
    let mut msg = Message::default();
    msg.msg_type = MessageType::MsgAppend as i32;
    msg.context = b"some-ctx-data".to_vec();

    let out = round_trip(&msg);
    assert_eq!(out.context, b"some-ctx-data");
}

#[test]
fn empty_snapshot_round_trip() {
    // No snapshot set — should decode to empty Snapshot
    let mut msg = Message::default();
    msg.msg_type = MessageType::MsgHeartbeat as i32;
    msg.to = 2;
    msg.from = 1;

    let out = round_trip(&msg);
    assert!(out.snapshot.map_or(true, |s| s.is_empty()));
}

#[test]
fn append_response_round_trip() {
    let mut msg = Message::default();
    msg.msg_type = MessageType::MsgAppendResponse as i32;
    msg.to = 1;
    msg.from = 2;
    msg.term = 4;
    msg.index = 55;
    msg.reject = true;
    msg.reject_hint = 50;
    msg.log_term = 3;

    let out = round_trip(&msg);
    assert_eq!(out.msg_type, MessageType::MsgAppendResponse as i32);
    assert_eq!(out.index, 55);
    assert_eq!(out.reject, true);
    assert_eq!(out.reject_hint, 50);
    assert_eq!(out.log_term, 3);
}

#[test]
fn heartbeat_response_round_trip() {
    let mut msg = Message::default();
    msg.msg_type = MessageType::MsgHeartbeatResponse as i32;
    msg.to = 1;
    msg.from = 3;
    msg.term = 7;
    msg.commit = 100;
    msg.context = b"read-ctx".to_vec();

    let out = round_trip(&msg);
    assert_eq!(out.msg_type, MessageType::MsgHeartbeatResponse as i32);
    assert_eq!(out.commit, 100);
    assert_eq!(out.context, b"read-ctx");
}

#[test]
fn pre_vote_round_trip() {
    let mut msg = Message::default();
    msg.msg_type = MessageType::MsgRequestPreVote as i32;
    msg.to = 2;
    msg.from = 1;
    msg.term = 11;
    msg.log_term = 10;
    msg.index = 200;

    let out = round_trip(&msg);
    assert_eq!(out.msg_type, MessageType::MsgRequestPreVote as i32);
    assert_eq!(out.term, 11);
    assert_eq!(out.log_term, 10);
    assert_eq!(out.index, 200);
}

#[test]
fn pre_vote_response_round_trip() {
    let mut msg = Message::default();
    msg.msg_type = MessageType::MsgRequestPreVoteResponse as i32;
    msg.to = 1;
    msg.from = 2;
    msg.term = 11;
    msg.reject = false; // granted

    let out = round_trip(&msg);
    assert_eq!(out.msg_type, MessageType::MsgRequestPreVoteResponse as i32);
    assert_eq!(out.reject, false);

    // Also test rejected pre-vote
    let mut msg2 = Message::default();
    msg2.msg_type = MessageType::MsgRequestPreVoteResponse as i32;
    msg2.to = 1;
    msg2.from = 2;
    msg2.term = 11;
    msg2.reject = true;
    msg2.reject_hint = 9;
    let out2 = round_trip(&msg2);
    assert_eq!(out2.reject, true);
    assert_eq!(out2.reject_hint, 9);
}

#[test]
fn snapshot_with_data_round_trip() {
    let mut meta = SnapshotMetadata { conf_state: None, index: 0, term: 0 };
    meta.index = 500;
    meta.term = 8;
    let mut cs = empty_conf_state();
    cs.voters = vec![1, 2, 3];
    meta.conf_state = Some(cs);

    let mut snap = Snapshot { data: Vec::new(), metadata: None };
    snap.data = b"snapshot-payload-bytes".to_vec();
    snap.metadata = Some(meta);

    let mut msg = Message::default();
    msg.msg_type = MessageType::MsgSnapshot as i32;
    msg.to = 2;
    msg.from = 1;
    msg.term = 8;
    msg.snapshot = Some(snap);

    let out = round_trip(&msg);
    assert_eq!(out.msg_type, MessageType::MsgSnapshot as i32);
    let out_snap = out.snapshot.unwrap();
    assert_eq!(out_snap.data, b"snapshot-payload-bytes");
    let out_meta = out_snap.metadata.unwrap();
    assert_eq!(out_meta.index, 500);
    assert_eq!(out_meta.term, 8);
    assert_eq!(out_meta.conf_state.unwrap().voters, vec![1, 2, 3]);
}

#[test]
fn timeout_now_round_trip() {
    // MsgTimeoutNow: sent by leader to trigger immediate election on target
    let mut msg = Message::default();
    msg.msg_type = MessageType::MsgTimeoutNow as i32;
    msg.to = 2;
    msg.from = 1;
    msg.term = 6;

    let out = round_trip(&msg);
    assert_eq!(out.msg_type, MessageType::MsgTimeoutNow as i32);
    assert_eq!(out.to, 2);
    assert_eq!(out.term, 6);
}

#[test]
fn transfer_leader_round_trip() {
    // MsgTransferLeader: client asks leader to transfer leadership to node
    let mut msg = Message::default();
    msg.msg_type = MessageType::MsgTransferLeader as i32;
    msg.to = 1; // current leader
    msg.from = 2; // target node
    msg.term = 6;

    let out = round_trip(&msg);
    assert_eq!(out.msg_type, MessageType::MsgTransferLeader as i32);
    assert_eq!(out.from, 2);
}

#[test]
fn read_index_round_trip() {
    // MsgReadIndex carries the read request ID in context
    let mut msg = Message::default();
    msg.msg_type = MessageType::MsgReadIndex as i32;
    msg.to = 1;
    msg.from = 2;
    msg.term = 5;
    msg.context = b"read-req-id-001".to_vec();

    let out = round_trip(&msg);
    assert_eq!(out.msg_type, MessageType::MsgReadIndex as i32);
    assert_eq!(out.context, b"read-req-id-001");
}

#[test]
fn read_index_resp_round_trip() {
    // MsgReadIndexResp carries the confirmed index + original request context
    let mut msg = Message::default();
    msg.msg_type = MessageType::MsgReadIndexResp as i32;
    msg.to = 2;
    msg.from = 1;
    msg.term = 5;
    msg.index = 300; // confirmed safe-read index
    msg.context = b"read-req-id-001".to_vec();

    let out = round_trip(&msg);
    assert_eq!(out.msg_type, MessageType::MsgReadIndexResp as i32);
    assert_eq!(out.index, 300);
    assert_eq!(out.context, b"read-req-id-001");
}

#[test]
fn propose_with_conf_change_entry_round_trip() {
    // MsgPropose with a ConfChange entry (as sent during AddNode/RemoveNode)
    let mut entry = empty_entry();
    entry.entry_type = EntryType::EntryConfChange as i32;
    entry.term = 3;
    entry.index = 42;
    entry.data = b"conf-change-payload".to_vec();
    entry.context = b"cc-ctx".to_vec();

    let mut msg = Message::default();
    msg.msg_type = MessageType::MsgPropose as i32;
    msg.to = 1;
    msg.from = 0; // local propose (from = 0 means local)
    msg.term = 3;
    msg.entries = vec![entry];

    let out = round_trip(&msg);
    assert_eq!(out.msg_type, MessageType::MsgPropose as i32);
    assert_eq!(out.entries.len(), 1);
    assert_eq!(out.entries[0].entry_type, EntryType::EntryConfChange as i32);
    assert_eq!(out.entries[0].data, b"conf-change-payload");
    assert_eq!(out.entries[0].context, b"cc-ctx");
}

#[test]
fn hup_beat_check_quorum_round_trip() {
    // Local trigger messages — minimal fields, exercising the zero-value path
    for msg_type in [
        MessageType::MsgHup,
        MessageType::MsgBeat,
        MessageType::MsgCheckQuorum,
    ] {
        let mut msg = Message::default();
        msg.msg_type = msg_type as i32;
        msg.from = 1;
        msg.term = 2;

        let out = round_trip(&msg);
        assert_eq!(out.msg_type, msg_type as i32, "failed for {:?}", msg_type);
        assert_eq!(out.from, 1);
        assert_eq!(out.term, 2);
        assert!(out.entries.is_empty());
    }
}

#[test]
fn snap_status_unreachable_round_trip() {
    // MsgSnapStatus and MsgUnreachable: notify leader about follower state
    for msg_type in [MessageType::MsgSnapStatus, MessageType::MsgUnreachable] {
        let mut msg = Message::default();
        msg.msg_type = msg_type as i32;
        msg.to = 1;
        msg.from = 3;
        msg.reject = true; // snap failed / node unreachable

        let out = round_trip(&msg);
        assert_eq!(out.msg_type, msg_type as i32, "failed for {:?}", msg_type);
        assert_eq!(out.from, 3);
        assert_eq!(out.reject, true);
    }
}

#[test]
fn all_scalar_fields_preserved() {
    // Single test that every scalar field survives a round-trip without loss.
    let mut msg = Message::default();
    msg.msg_type = MessageType::MsgAppend as i32;
    msg.to = 0xDEAD_BEEF_0001u64;
    msg.from = 0xDEAD_BEEF_0002u64;
    msg.term = 0xDEAD_BEEF_0003u64;
    msg.log_term = 0xDEAD_BEEF_0004u64;
    msg.index = 0xDEAD_BEEF_0005u64;
    msg.commit = 0xDEAD_BEEF_0006u64;
    msg.commit_term = 0xDEAD_BEEF_0007u64;
    msg.request_snapshot = 0xDEAD_BEEF_0008u64;
    msg.reject = true;
    msg.reject_hint = 0xDEAD_BEEF_0009u64;
    msg.priority = -9999;

    let out = round_trip(&msg);
    assert_eq!(out.to, msg.to);
    assert_eq!(out.from, msg.from);
    assert_eq!(out.term, msg.term);
    assert_eq!(out.log_term, msg.log_term);
    assert_eq!(out.index, msg.index);
    assert_eq!(out.commit, msg.commit);
    assert_eq!(out.commit_term, msg.commit_term);
    assert_eq!(out.request_snapshot, msg.request_snapshot);
    assert_eq!(out.reject, true);
    assert_eq!(out.reject_hint, msg.reject_hint);
    assert_eq!(out.priority, -9999);
}

fn bytes_of(msg: &Message) -> Vec<u8> {
    let mut buf = BytesMut::new();
    encode(msg, &mut buf).expect("encode");
    buf.to_vec()
}

#[test]
fn layout_is_little_endian_behind_a_header() {
    let mut msg = Message::default();
    msg.msg_type = 3;
    msg.to = 0x0102;
    msg.priority = -1;
    let bytes = bytes_of(&msg);
    assert_eq!(bytes.len(), MIN_MSG_LEN);
    assert_eq!(bytes[0..2], [97, 0]);
    assert_eq!(bytes[8..12], [3, 0, 0, 0]);
    assert_eq!(bytes[12..20], [2, 1, 0, 0, 0, 0, 0, 0]);
    assert_eq!(bytes[85..93], [255, 255, 255, 255, 255, 255, 255, 255]);
}

#[test]
fn encoding_appends_behind_what_is_there() {
    let mut buf = BytesMut::new();
    buf.extend_from_slice(b"front");
    let mut msg = Message::default();
    msg.term = 7;
    encode(&msg, &mut buf).expect("encode");
    assert_eq!(buf[..5], b"front"[..]);
    assert_eq!(decode(&buf[5..]).expect("decode").term, 7);
}

#[test]
fn short_input_is_refused() {
    let err = decode(&[0u8; 10]).unwrap_err();
    assert!(matches!(err, SbeError::TooShort { len: 10 }));
}

#[test]
fn short_block_is_refused() {
    let mut bytes = bytes_of(&Message::default());
    bytes[0] = 96;
    let err = decode(&bytes).unwrap_err();
    assert!(matches!(err, SbeError::BlockTooShort { block_length: 96 }));
}

#[test]
fn missing_context_is_refused() {
    let mut msg = Message::default();
    msg.context = b"context".to_vec();
    let mut bytes = bytes_of(&msg);
    bytes.truncate(MIN_MSG_LEN + 3);
    assert!(matches!(decode(&bytes).unwrap_err(), SbeError::Context));
}

#[test]
fn missing_and_malformed_snapshots_are_refused() {
    let mut msg = Message::default();
    msg.snapshot = Some(Snapshot {
        data: b"payload".to_vec(),
        metadata: Some(SnapshotMetadata { conf_state: None, index: 3, term: 1 }),
    });
    let bytes = bytes_of(&msg);
    let mut cut = bytes.clone();
    cut.truncate(bytes.len() - 1);
    assert!(matches!(decode(&cut).unwrap_err(), SbeError::Snapshot));

    let mut broken = bytes.clone();
    for b in broken[MIN_MSG_LEN..].iter_mut() {
        *b = 0xff;
    }
    assert!(matches!(decode(&broken).unwrap_err(), SbeError::SnapshotMalformed));
}

#[test]
fn every_cut_is_refused_and_what_follows_is_ignored() {
    let mut msg = Message::default();
    msg.context = b"ctx".to_vec();
    msg.snapshot = Some(Snapshot {
        data: b"state".to_vec(),
        metadata: Some(SnapshotMetadata { conf_state: None, index: 7, term: 1 }),
    });
    for i in 0..2u64 {
        let mut e = empty_entry();
        e.index = i;
        e.data = b"cmd".to_vec();
        msg.entries.push(e);
    }
    let bytes = bytes_of(&msg);
    for k in 0..bytes.len() {
        assert!(decode(&bytes[..k]).is_err(), "cut at {k}");
    }
    let mut longer = bytes.clone();
    longer.extend_from_slice(b"more");
    let (a, b) = (decode(&bytes).unwrap(), decode(&longer).unwrap());
    assert_eq!(bytes_of(&a), bytes);
    assert_eq!(bytes_of(&b), bytes);
}

#[test]
fn snapshot_whose_metadata_is_cut_short_is_refused() {
    let mut msg = Message::default();
    msg.snapshot = Some(Snapshot {
        data: Vec::new(),
        metadata: Some(SnapshotMetadata { conf_state: None, index: 7, term: 0 }),
    });
    let bytes = bytes_of(&msg);
    assert_eq!(bytes[105..], [0x12, 0x02, 0x10, 0x07]);
    let mut bad = bytes.clone();
    bad[106] = 0x05;
    assert_eq!(decode(&bad).unwrap_err(), SbeError::SnapshotMalformed);
}

#[test]
fn missing_entry_is_refused() {
    let mut msg = Message::default();
    let mut entry = empty_entry();
    entry.data = b"data".to_vec();
    msg.entries.push(empty_entry());
    msg.entries.push(entry);
    let mut bytes = bytes_of(&msg);
    let len = bytes.len();
    bytes.truncate(len - 1);
    assert!(matches!(decode(&bytes).unwrap_err(), SbeError::Entry { index: 1 }));
}
