use kaspa_client::batch::{address_chunks, record_balances, AddressBalance, BatchCaches};
use kaspa_client::collections::StrMap;
use kaspa_client::config::{replace_text, KaspaConfig};
use kaspa_client::events::{
    block_added_event, classify_event_method, finality_conflict_event, EventListenerConfig,
    EventMethod, Interval, KaspaEvent, ListenerState, LoopAction, LoopEvent, Subscription,
};
use kaspa_client::monitor::{health_recommendation, BlockProgress, NetworkSnapshot, SnapshotHistory};
use kaspa_client::rpc::{basic_auth_credentials, check_http_status, rpc_outcome, RpcErrorBody};
use kaspa_client::types::{Block, BlockHeader, BlockVerboseData, KaspaError};
use std::time::Instant;

fn block(hash: Option<&str>) -> Block {
    Block {
        header: BlockHeader {
            version: 1,
            parents: vec![],
            hash_merkle_root: String::new(),
            timestamp: 0,
            bits: 0,
            nonce: 0,
            daa_score: 0,
            blue_score: 0,
        },
        transactions: vec![],
        verbose_data: hash.map(|h| BlockVerboseData {
            hash: h.to_string(),
            blue_score: 0,
            selected_parent_hash: String::new(),
            is_chain_block: true,
        }),
    }
}

#[test]
fn default_config() {
    let c = KaspaConfig::default();
    assert_eq!(c.rpc_url, "http://localhost:16110");
    assert_eq!(c.ws_url, "ws://localhost:16110");
    assert_eq!(c.username, None);
    assert_eq!(c.timeout_seconds, 30);
    assert!(c.cache_enabled);
    assert_eq!(c.cache_ttl_seconds, 300);
    assert!(c.monitored_addresses.is_empty());
    assert!(c.auto_reconnect);
    assert_eq!(c.max_reconnect_attempts, 10);
}

#[test]
fn rpc_url_sets_websocket_url() {
    let c = KaspaConfig::default().with_rpc_url("https://node.example:16110");
    assert_eq!(c.rpc_url, "https://node.example:16110");
    assert_eq!(c.ws_url, "wss://node.example:16110");
    assert_eq!(c.timeout_seconds, 30);
}

#[test]
fn credentials_are_recorded() {
    let c = KaspaConfig::default().with_credentials("alice", "secret");
    assert_eq!(c.username.as_deref(), Some("alice"));
    assert_eq!(c.password.as_deref(), Some("secret"));
    assert_eq!(c.rpc_url, "http://localhost:16110");
}

#[test]
fn replacing_text_matches_std() {
    for (s, p, r) in [("httphttp", "http", "ws"), ("ahttpb", "http", "ws"), ("aaa", "aa", "b"), ("", "x", "y"), ("abc", "", "z")] {
        let expected = if p.is_empty() { s.to_string() } else { s.replace(p, r) };
        assert_eq!(replace_text(s, p, r), expected);
    }
}

#[test]
fn default_listener_config() {
    let c = EventListenerConfig::default();
    assert_eq!(c.ws_url, "ws://localhost:16110");
    assert_eq!(c.reconnect_interval, Interval { secs: 5, nanos: 0 });
    assert_eq!(c.max_reconnect_attempts, 10);
}

#[test]
fn event_methods_are_classified() {
    assert_eq!(classify_event_method("blockAdded").unwrap(), EventMethod::BlockAdded);
    assert_eq!(classify_event_method("utxosChanged").unwrap(), EventMethod::UtxosChanged);
    assert_eq!(classify_event_method("finalityConflict").unwrap(), EventMethod::FinalityConflict);
    match classify_event_method("pruned") {
        Err(KaspaError::Custom(m)) => assert_eq!(m, "Unknown event method: pruned"),
        other => panic!("unexpected {:?}", other),
    }
}

#[test]
fn notification_events_carry_empty_fields() {
    match block_added_event(block(Some("h"))) {
        KaspaEvent::BlockAdded(b) => {
            assert_eq!(b.block_hash, "");
            assert_eq!(b.daa_score, 0);
            assert_eq!(b.block.verbose_data.unwrap().hash, "h");
        },
        _ => panic!("wrong event"),
    }
    match finality_conflict_event() {
        KaspaEvent::FinalityConflict(f) => assert_eq!(f.violating_block_hash, ""),
        _ => panic!("wrong event"),
    }
}

#[test]
fn listener_starts_once() {
    let mut s = ListenerState::new();
    assert!(s.start().is_ok());
    match s.start() {
        Err(KaspaError::Custom(m)) => assert_eq!(m, "EventListener is already running"),
        other => panic!("unexpected {:?}", other),
    }
    s.stop();
    assert!(!s.running);
    assert!(s.start().is_ok());
}

#[test]
fn subscriptions_follow_watched_addresses() {
    let mut s = ListenerState::new();
    let subs = s.subscriptions();
    assert_eq!(subs.len(), 3);
    assert_eq!(subs[0].id(), 4);
    assert_eq!(subs[0].method(), "notifyNewTransaction");
    assert_eq!(subs[1].id(), 1);
    assert_eq!(subs[2].method(), "notifyVirtualChainChanged");
    s.subscribe_to_address("kaspa:a").unwrap();
    s.subscribe_to_address("kaspa:b").unwrap();
    s.subscribe_to_address("kaspa:a").unwrap();
    let subs = s.subscriptions();
    assert_eq!(subs.len(), 4);
    match &subs[3] {
        Subscription::Utxos(a) => assert_eq!(a, &vec!["kaspa:a".to_string(), "kaspa:b".to_string()]),
        _ => panic!("expected the address subscription"),
    }
    assert_eq!(subs[3].id(), 3);
    s.unsubscribe_from_address("kaspa:a").unwrap();
    s.unsubscribe_from_address("kaspa:b").unwrap();
    assert_eq!(s.subscriptions().len(), 3);
    match subs[1].failure("closed") {
        KaspaError::Custom(m) => assert_eq!(m, "Failed to subscribe to blocks: closed"),
        _ => panic!("wrong error"),
    }
}

#[test]
fn event_loop_gives_up_after_failed_connections() {
    let wait = Interval { secs: 5, nanos: 250_000_000 };
    let mut s = ListenerState::new();
    s.start().unwrap();
    assert_eq!(s.next_action(LoopEvent::Started, 2, wait), LoopAction::Connect);
    assert_eq!(s.next_action(LoopEvent::ConnectFailed, 2, wait), LoopAction::Sleep(wait));
    assert_eq!(s.next_action(LoopEvent::Slept, 2, wait), LoopAction::Connect);
    assert_eq!(s.next_action(LoopEvent::ConnectFailed, 2, wait), LoopAction::Sleep(wait));
    assert_eq!(s.failed_attempts, 2);
    assert_eq!(s.next_action(LoopEvent::Slept, 2, wait), LoopAction::Exit);
}

#[test]
fn event_loop_reads_until_stopped() {
    let wait = Interval { secs: 5, nanos: 0 };
    let mut s = ListenerState::new();
    s.start().unwrap();
    s.failed_attempts = 1;
    assert_eq!(s.next_action(LoopEvent::Connected, 3, wait), LoopAction::Subscribe);
    assert_eq!(s.failed_attempts, 0);
    assert_eq!(s.next_action(LoopEvent::Subscribed, 3, wait), LoopAction::ReadNext);
    assert_eq!(s.next_action(LoopEvent::MessageRead, 3, wait), LoopAction::ReadNext);
    assert_eq!(s.next_action(LoopEvent::StreamClosed, 3, wait), LoopAction::Connect);
    assert_eq!(s.next_action(LoopEvent::SubscribeFailed, 3, wait), LoopAction::Connect);
    s.stop();
    assert_eq!(s.next_action(LoopEvent::MessageRead, 3, wait), LoopAction::Exit);
    assert_eq!(s.next_action(LoopEvent::Started, 3, wait), LoopAction::Exit);
}

#[test]
fn credentials_need_both_parts() {
    assert_eq!(
        basic_auth_credentials(&Some("u".to_string()), &Some("p".to_string())),
        Some(("u".to_string(), "p".to_string()))
    );
    assert_eq!(basic_auth_credentials(&Some("u".to_string()), &None), None);
    assert_eq!(basic_auth_credentials(&None, &Some("p".to_string())), None);
}

#[test]
fn http_status_and_rpc_outcome() {
    assert!(check_http_status(true, "200 OK").is_ok());
    match check_http_status(false, "502 Bad Gateway") {
        Err(KaspaError::ConnectionError(m)) => assert_eq!(m, "HTTP error: 502 Bad Gateway"),
        other => panic!("unexpected {:?}", other),
    }
    assert_eq!(rpc_outcome::<u64>(None, Some(7)).unwrap(), 7);
    match rpc_outcome::<u64>(Some(RpcErrorBody { code: -32601, message: "no such method".to_string() }), Some(7)) {
        Err(e) => {
            assert_eq!(e, KaspaError::RpcError { code: -32601, message: "no such method".to_string() });
            assert_eq!(e.message(), "RPC error: code=-32601, message=no such method");
        },
        Ok(_) => panic!("expected an error"),
    }
    match rpc_outcome::<u64>(None, None) {
        Err(KaspaError::InvalidResponse(m)) => assert_eq!(m, "Missing result in RPC response"),
        other => panic!("unexpected {:?}", other),
    }
}

#[test]
fn error_messages() {
    assert_eq!(KaspaError::AuthenticationError.message(), "Authentication failed");
    assert_eq!(KaspaError::InvalidAddress("x".to_string()).message(), "Invalid address: x");
    assert_eq!(KaspaError::Custom("plain".to_string()).message(), "plain");
    assert_eq!(KaspaError::ConnectionError("down".to_string()).message(), "Connection failed: down");
}

fn network_snapshot(block_count: u64, peer_count: usize) -> NetworkSnapshot {
    NetworkSnapshot { timestamp: Instant::now(), block_count, mempool_size: 0, peer_count }
}

#[test]
fn network_history_progress() {
    let mut h = SnapshotHistory::new();
    assert_eq!(h.progress(), None);
    h.push(network_snapshot(100, 3));
    assert_eq!(h.progress(), None);
    h.push(network_snapshot(130, 4));
    h.push(network_snapshot(160, 8));
    assert_eq!(h.progress(), Some(BlockProgress { block_diff: 60, peer_count: 8 }));
}

#[test]
fn network_history_is_bounded() {
    let mut h = SnapshotHistory::new();
    for i in 0..1005u64 {
        h.push(network_snapshot(i, 1));
    }
    assert_eq!(h.len(), 1000);
    assert_eq!(h.snapshot_at(0).block_count, 5);
}

#[test]
fn health_advice() {
    assert_eq!(health_recommendation(4), "Low peer count, consider adding more connections");
    assert_eq!(health_recommendation(5), "Network healthy");
}

#[test]
fn block_cache_split_and_fill() {
    let mut c = BatchCaches::new();
    assert_eq!(c.cache_fetched(block(Some("h1"))), Some("h1".to_string()));
    assert_eq!(c.cache_fetched(block(None)), None);
    let hashes = vec!["h0".to_string(), "h1".to_string(), "h2".to_string()];
    let (cached, missing) = c.split_cached(&hashes);
    assert_eq!(cached, vec!["h1".to_string()]);
    assert_eq!(missing, vec!["h0".to_string(), "h2".to_string()]);
    assert!(!c.clean_if_stale(300, 300));
    assert!(c.block_cache.contains_key("h1"));
    assert!(c.clean_if_stale(301, 300));
    assert!(!c.block_cache.contains_key("h1"));
}

#[test]
fn addresses_in_chunks_of_fifty() {
    let addresses: Vec<String> = (0..120).map(|i| format!("a{}", i)).collect();
    let chunks = address_chunks(&addresses);
    assert_eq!(chunks.len(), 3);
    assert_eq!(chunks[0].len(), 50);
    assert_eq!(chunks[2].len(), 20);
    assert_eq!(chunks[2][0], "a100");
    assert!(address_chunks(&[]).is_empty());
    assert_eq!(address_chunks(&addresses[..50]).len(), 1);
}

#[test]
fn later_balances_replace_earlier_ones() {
    let mut m: StrMap<u64> = StrMap::new();
    record_balances(
        &mut m,
        &[
            AddressBalance { address: "a".to_string(), balance: 1 },
            AddressBalance { address: "b".to_string(), balance: 2 },
            AddressBalance { address: "a".to_string(), balance: 3 },
        ],
    );
    assert_eq!(m.get("a"), Some(&3));
    assert_eq!(m.get("b"), Some(&2));
    assert_eq!(m.len(), 2);
}
