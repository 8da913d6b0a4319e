use rust_mq::broker::raft_network::PeerInfo;
use rust_mq::broker::sbe_tcp::connection::ConnectionManager;
use rust_mq::broker::sbe_tcp::server::{frame_too_large, MAX_FRAME_SIZE_BYTES};

#[test]
fn resolve_peer_addr_prefers_sbe_tcp_addr() {
    let peer = PeerInfo {
        rpc_addr: "http://127.0.0.1:9300".to_string(),
        api_addr: "127.0.0.1:9092".to_string(),
        sbe_tcp_addr: Some("127.0.0.1:9400".to_string()),
    };
    assert_eq!(ConnectionManager::resolve_peer_addr(&peer), "127.0.0.1:9400");
}

#[test]
fn resolve_peer_addr_falls_back_to_rpc_addr() {
    let peer = PeerInfo {
        rpc_addr: "http://127.0.0.1:9300".to_string(),
        api_addr: "127.0.0.1:9092".to_string(),
        sbe_tcp_addr: None,
    };
    assert_eq!(ConnectionManager::resolve_peer_addr(&peer), "127.0.0.1:9300");
}

#[test]
fn max_frame_limit_is_enforced() {
    assert!(!frame_too_large(MAX_FRAME_SIZE_BYTES));
    assert!(frame_too_large(MAX_FRAME_SIZE_BYTES + 1));
}
