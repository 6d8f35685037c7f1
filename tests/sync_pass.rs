use zp::config::{PeerConfig, SshConfig, SyncConfig};
use zp::entry::ClipboardHistoryEntry;
use zp::history::merge_clipboard_history;
use zp::merge::ConflictResolutionStrategy;
use zp::protocol::{resolve_endpoint, ssh_tunnel_args, tunnel_action, PassStage, SyncProtocol, TunnelAction};
use zp::sync::{SyncData, SyncManager, SyncMessageType};

fn entry(id: u64, ts: i64, content: &str, device: &str) -> ClipboardHistoryEntry {
    ClipboardHistoryEntry {
        content: content.to_string(),
        timestamp: ts,
        device_id: Some(device.to_string()),
        entry_id: Some(id),
    }
}

fn config_with_peers(own: &str, peers: &[(&str, &str)]) -> SyncConfig {
    let mut c = SyncConfig::with_peer_id(own.to_string());
    c.enable();
    for (id, ep) in peers {
        c.add_peer(id.to_string(), ep.to_string(), "user".to_string());
    }
    c
}

#[test]
fn one_pass_pulls_merges_pushes_and_commits() {
    let config = config_with_peers("me", &[("peer", "http://10.0.0.2:8080")]);
    let mut proto = SyncProtocol::new(config);
    let peers = proto.peers_to_sync();
    assert_eq!(peers.len(), 1);
    let (pass_peer, pass_cfg) = (&peers[0].0, &peers[0].1);
    let (mut pass, tunnel) = proto.begin_pass(pass_peer, pass_cfg, false);
    assert!(tunnel.is_none());
    assert_eq!(pass.endpoint, "http://10.0.0.2:8080");
    assert_eq!(pass.since, 0);
    let hello = proto.handshake_message(10);
    assert_eq!(hello.message_type, SyncMessageType::Handshake);
    assert_eq!(hello.peer_id, "me");
    assert_eq!(hello.timestamp, 10);
    pass.on_handshake(true);
    assert_eq!(pass.stage, PassStage::Pull);

    let local = vec![entry(1, 100, "a", "me")];
    let remote = vec![entry(2, 200, "b", "peer")];
    let merged = proto.on_history(&mut pass, Some(remote.clone()), &local).unwrap();
    assert_eq!(merged, vec![entry(1, 100, "a", "me"), entry(2, 200, "b", "peer")]);
    assert_eq!(pass.stage, PassStage::Push);

    let push = pass.entries_to_push(&merged);
    assert_eq!(push, vec![entry(1, 100, "a", "me")]);
    let msg = proto.push_message(push.clone(), 11);
    assert_eq!(msg.message_type, SyncMessageType::ClipboardSync);
    assert_eq!(msg.timestamp, 11);
    assert_eq!(msg.data, Some(SyncData::ClipboardEntries(push)));

    proto.on_push(&mut pass, true, 1_000);
    assert_eq!(pass.stage, PassStage::Done);
    assert_eq!(proto.manager().get_last_sync("peer"), Some(1_000));

    let (again, _) = proto.begin_pass(pass_peer, pass_cfg, false);
    assert_eq!(again.since, 1_000);
}

#[test]
fn both_devices_keep_same_content_with_distinct_ids() {
    let a_log = vec![entry(10, 100, "same", "dev-a")];
    let b_log = vec![entry(20, 150, "same", "dev-b")];
    let s = ConflictResolutionStrategy::KeepNewest;
    let a_after = merge_clipboard_history(&a_log, &b_log, &s, &"dev-a".to_string());
    let b_after = merge_clipboard_history(&b_log, &a_after, &s, &"dev-b".to_string());
    assert_eq!(a_after.len(), 2);
    assert_eq!(b_after.len(), 2);
    assert!(a_after.contains(&entry(10, 100, "same", "dev-a")));
    assert!(a_after.contains(&entry(20, 150, "same", "dev-b")));
    assert!(b_after.contains(&entry(10, 100, "same", "dev-a")));
    assert!(b_after.contains(&entry(20, 150, "same", "dev-b")));
}

#[test]
fn unreachable_peer_fails_alone() {
    let config = config_with_peers("me", &[("down", "http://10.0.0.9:8080"), ("up", "http://10.0.0.2:8080")]);
    let mut proto = SyncProtocol::new(config);
    let peers = proto.peers_to_sync();
    assert_eq!(peers.len(), 2);
    let local = vec![entry(1, 100, "a", "me")];

    let (mut down, _) = proto.begin_pass(&peers[0].0, &peers[0].1, false);
    down.fail();
    assert_eq!(down.stage, PassStage::Failed);
    assert!(proto.on_history(&mut down, Some(vec![entry(9, 9, "z", "x")]), &local).is_none());
    proto.on_push(&mut down, true, 500);
    assert_eq!(proto.manager().get_last_sync("down"), None);

    let (mut up, _) = proto.begin_pass(&peers[1].0, &peers[1].1, false);
    up.on_handshake(true);
    let merged = proto.on_history(&mut up, Some(vec![entry(2, 200, "b", "up")]), &local).unwrap();
    assert_eq!(merged.len(), 2);
    proto.on_push(&mut up, true, 500);
    assert_eq!(up.stage, PassStage::Done);
    assert_eq!(proto.manager().get_last_sync("up"), Some(500));
    assert_eq!(proto.manager().get_last_sync("down"), None);
}

#[test]
fn failed_pull_leaves_log_alone() {
    let config = config_with_peers("me", &[("p", "http://x")]);
    let mut proto = SyncProtocol::new(config);
    let peers = proto.peers_to_sync();
    let (mut pass, _) = proto.begin_pass(&peers[0].0, &peers[0].1, false);
    pass.on_handshake(true);
    assert!(proto.on_history(&mut pass, None, &vec![]).is_none());
    assert_eq!(pass.stage, PassStage::Failed);
}

#[test]
fn refused_handshake_fails_pass() {
    let config = config_with_peers("me", &[("p", "http://x")]);
    let mut proto = SyncProtocol::new(config);
    let peers = proto.peers_to_sync();
    let (mut pass, _) = proto.begin_pass(&peers[0].0, &peers[0].1, false);
    pass.on_handshake(false);
    assert_eq!(pass.stage, PassStage::Failed);
}

#[test]
fn disabled_sync_visits_no_peer() {
    let mut config = config_with_peers("me", &[("p", "http://x")]);
    config.disable();
    let proto = SyncProtocol::new(config);
    assert!(proto.peers_to_sync().is_empty());
}

#[test]
fn disabled_peer_is_skipped() {
    let mut config = config_with_peers("me", &[("p", "http://x"), ("q", "http://y")]);
    config.peers.set_enabled("p", false);
    let manager = SyncManager::new(config);
    let peers = manager.get_enabled_peers();
    assert_eq!(peers.len(), 1);
    assert_eq!(peers[0].0, "q");
    assert!(manager.is_enabled());
    assert_eq!(manager.get_peer_id(), "me");
    assert_eq!(manager.get_listen_port(), 8080);
}

#[test]
fn watermarks_are_per_peer() {
    let mut manager = SyncManager::new(SyncConfig::with_peer_id("me".to_string()));
    assert_eq!(manager.get_last_sync("a"), None);
    manager.update_last_sync("a".to_string(), 5);
    manager.update_last_sync("b".to_string(), 7);
    manager.update_last_sync("a".to_string(), 9);
    assert_eq!(manager.get_last_sync("a"), Some(9));
    assert_eq!(manager.get_last_sync("b"), Some(7));
}

#[test]
fn second_tunnel_request_reuses_port() {
    let config = config_with_peers("me", &[("far", "ssh://bob@far.host:2200")]);
    let mut proto = SyncProtocol::new(config);
    let peers = proto.peers_to_sync();
    let (pass, first) = proto.begin_pass(&peers[0].0, &peers[0].1, false);
    assert_eq!(pass.endpoint, "http://localhost:8081");
    match first {
        Some(TunnelAction::Spawn(args)) => assert_eq!(
            args,
            vec!["-N", "-L", "8081:localhost:8080", "-p", "2200", "bob@far.host"]
        ),
        other => panic!("expected a new tunnel, got {:?}", other),
    }
    // The tunnel started by the first request now holds the port.
    let (_, second) = proto.begin_pass(&peers[0].0, &peers[0].1, true);
    assert_eq!(second, Some(TunnelAction::Reuse));
    // A tunnel that died frees its port and is started again.
    let (_, third) = proto.begin_pass(&peers[0].0, &peers[0].1, false);
    assert!(matches!(third, Some(TunnelAction::Spawn(_))));
}

#[test]
fn bound_port_is_reused() {
    let c = SshConfig {
        tunnel_local_port: 9000,
        remote_port: 8080,
        ssh_user: "u".to_string(),
        ssh_host: "h".to_string(),
        ssh_port: None,
        identity_file: Some("/k".to_string()),
    };
    assert_eq!(tunnel_action(&c, true), TunnelAction::Reuse);
    assert_eq!(
        tunnel_action(&c, false),
        TunnelAction::Spawn(
            vec!["-N", "-L", "9000:localhost:8080", "-p", "22", "u@h", "-i", "/k"]
                .into_iter()
                .map(String::from)
                .collect()
        )
    );
    assert_eq!(ssh_tunnel_args(&c).len(), 8);
}

#[test]
fn direct_endpoint_is_used_verbatim() {
    let p = PeerConfig { endpoint: "http://h:1".to_string(), enabled: true, ssh_config: None };
    assert_eq!(resolve_endpoint(&p), "http://h:1");
}

#[test]
fn pulled_entries_are_stored_in_order_and_not_pushed_back() {
    let config = config_with_peers("me", &[("p", "http://x")]);
    let mut proto = SyncProtocol::new(config);
    let peers = proto.peers_to_sync();
    let (mut pass, _) = proto.begin_pass(&peers[0].0, &peers[0].1, false);
    pass.on_handshake(true);
    let local = vec![entry(1, 300, "mine", "me")];
    let remote = vec![entry(2, 100, "theirs", "p"), entry(3, 200, "theirs too", "p")];
    let merged = proto.on_history(&mut pass, Some(remote), &local).unwrap();
    let ids: Vec<u64> = merged.iter().map(|e| e.entry_id.unwrap()).collect();
    assert_eq!(ids, vec![2, 3, 1]);
    assert_eq!(pass.entries_to_push(&merged), vec![entry(1, 300, "mine", "me")]);
    proto.on_push(&mut pass, false, 9);
    assert_eq!(pass.stage, PassStage::Failed);
    assert_eq!(proto.manager().get_last_sync("p"), None);
}

#[test]
fn resync_with_nothing_new_keeps_log() {
    let config = config_with_peers("me", &[("p", "http://x")]);
    let mut proto = SyncProtocol::new(config);
    let peers = proto.peers_to_sync();
    let (mut pass, _) = proto.begin_pass(&peers[0].0, &peers[0].1, false);
    pass.on_handshake(true);
    let local = vec![entry(1, 100, "a", "me"), entry(2, 100, "b", "me"), entry(3, 50, "c", "me")];
    let stored = proto.on_history(&mut pass, Some(vec![]), &local).unwrap();
    let ids: Vec<u64> = stored.iter().map(|e| e.entry_id.unwrap()).collect();
    assert_eq!(ids, vec![3, 1, 2]);
    let (mut again, _) = proto.begin_pass(&peers[0].0, &peers[0].1, false);
    again.on_handshake(true);
    assert_eq!(proto.on_history(&mut again, Some(vec![]), &stored).unwrap(), stored);
}
