use zp::config::{PeerConfig, SyncConfig};
use zp::handler::SyncHandler;

#[test]
fn test_config_creation() {
    let config = SyncConfig::default();
    assert!(!config.enabled);
    assert!(config.peer_id.contains('@'));
    assert_eq!(config.listen_port, 8080);
}

#[test]
fn test_add_http_peer() {
    let mut config = SyncConfig::default();
    config.add_peer(
        "test-peer".to_string(),
        "http://192.168.1.100:8080".to_string(),
        "user".to_string(),
    );

    assert!(config.peers.contains_key("test-peer"));
    let peer: &PeerConfig = config.peers.get("test-peer").unwrap();
    assert!(peer.enabled);
    assert!(peer.ssh_config.is_none());
}

#[test]
fn test_add_ssh_peer() {
    let mut config = SyncConfig::default();
    config.add_peer(
        "ssh-peer".to_string(),
        "ssh://user@remote.host:22".to_string(),
        "someone".to_string(),
    );

    assert!(config.peers.contains_key("ssh-peer"));
    let peer = config.peers.get("ssh-peer").unwrap();
    assert!(peer.enabled);
    assert!(peer.ssh_config.is_some());

    let ssh_config = peer.ssh_config.as_ref().unwrap();
    assert_eq!(ssh_config.ssh_user, "user");
    assert_eq!(ssh_config.ssh_host, "remote.host");
    assert_eq!(ssh_config.ssh_port, Some(22));
}

#[test]
fn ssh_peer_defaults_user_and_port() {
    let mut config = SyncConfig::with_peer_id("me@box-abcd".to_string());
    assert!(config.add_peer("p".to_string(), "ssh://far.away".to_string(), "alice".to_string()));
    let ssh = config.peers.get("p").unwrap().ssh_config.as_ref().unwrap();
    assert_eq!(ssh.ssh_user, "alice");
    assert_eq!(ssh.ssh_host, "far.away");
    assert_eq!(ssh.ssh_port, Some(22));
    assert_eq!(ssh.remote_port, 8080);
    assert_eq!(ssh.tunnel_local_port, 8081);
    assert_eq!(ssh.identity_file, None);
}

#[test]
fn ssh_peer_unreadable_port_falls_back() {
    let mut config = SyncConfig::with_peer_id("me".to_string());
    config.add_peer("p".to_string(), "ssh://bob@h:http".to_string(), "alice".to_string());
    let ssh = config.peers.get("p").unwrap().ssh_config.as_ref().unwrap();
    assert_eq!(ssh.ssh_user, "bob");
    assert_eq!(ssh.ssh_host, "h");
    assert_eq!(ssh.ssh_port, Some(22));
}

#[test]
fn tunnel_ports_are_distinct_and_scan_upward() {
    let mut config = SyncConfig::with_peer_id("me".to_string());
    config.add_peer("a".to_string(), "ssh://u@a:2222".to_string(), "x".to_string());
    config.add_peer("b".to_string(), "ssh://u@b".to_string(), "x".to_string());
    config.add_peer("c".to_string(), "http://c:8080".to_string(), "x".to_string());
    config.add_peer("d".to_string(), "ssh://u@d".to_string(), "x".to_string());
    let port = |k: &str| config.peers.get(k).unwrap().ssh_config.as_ref().unwrap().tunnel_local_port;
    assert_eq!(port("a"), 8081);
    assert_eq!(port("b"), 8082);
    assert_eq!(port("d"), 8083);
    assert_eq!(config.peers.get("a").unwrap().ssh_config.as_ref().unwrap().ssh_port, Some(2222));
    assert_eq!(config.find_available_port(), Some(8084));
    assert!(config.peers.remove("b"));
    assert_eq!(config.find_available_port(), Some(8082));
    assert!(!config.peers.remove("b"));
    assert_eq!(config.peers.len(), 3);
}

#[test]
fn re_adding_a_peer_replaces_it() {
    let mut config = SyncConfig::with_peer_id("me".to_string());
    config.add_peer("a".to_string(), "http://one".to_string(), "x".to_string());
    config.add_peer("a".to_string(), "http://two".to_string(), "x".to_string());
    assert_eq!(config.peers.len(), 1);
    assert_eq!(config.peers.get("a").unwrap().endpoint, "http://two");
}

#[test]
fn peers_can_be_disabled_and_enabled() {
    let mut config = SyncConfig::with_peer_id("me".to_string());
    config.add_peer("a".to_string(), "http://one".to_string(), "x".to_string());
    assert!(config.peers.set_enabled("a", false));
    assert!(!config.peers.get("a").unwrap().enabled);
    assert!(config.peers.set_enabled("a", true));
    assert!(config.peers.get("a").unwrap().enabled);
    assert!(!config.peers.set_enabled("zzz", true));
    config.enable();
    assert!(config.enabled);
    config.disable();
    assert!(!config.enabled);
}

#[test]
fn generated_identity_has_user_host_and_suffix() {
    let config = SyncConfig::generated("carol");
    let id = config.peer_id.clone();
    assert!(id.starts_with("carol@"));
    let dash = id.rfind('-').unwrap();
    let suffix = &id[dash + 1..];
    assert_eq!(suffix.len(), 4);
    assert!(suffix.chars().all(|c| c.is_ascii_lowercase() || c.is_ascii_digit()));
    assert_eq!(config.sync_interval_seconds, 30);
    assert!(config.auto_sync);
    assert_eq!(config.peers.len(), 0);
}

#[test]
fn compose_peer_id_joins_parts() {
    assert_eq!(zp::config::compose_peer_id("u", "h", "ab12"), "u@h-ab12");
}

#[test]
fn handler_edits_configuration() {
    let mut h = SyncHandler::new(SyncConfig::with_peer_id("me".to_string()));
    h.enable_sync();
    assert!(h.config().enabled);
    assert!(h.add_peer("a".to_string(), "ssh://a.host".to_string(), "ann".to_string()));
    assert_eq!(h.config().peers.get("a").unwrap().ssh_config.as_ref().unwrap().ssh_user, "ann");
    assert!(h.set_peer_enabled("a", false));
    assert!(!h.config().peers.get("a").unwrap().enabled);
    assert!(h.remove_peer("a"));
    assert!(!h.remove_peer("a"));
    assert!(!h.set_peer_enabled("a", true));
    h.disable_sync();
    assert!(!h.config().enabled);
}

#[test]
fn ssh_port_may_carry_a_plus() {
    let mut config = SyncConfig::with_peer_id("me".to_string());
    config.add_peer("p".to_string(), "ssh://u@h:+2022".to_string(), "x".to_string());
    assert_eq!(config.peers.get("p").unwrap().ssh_config.as_ref().unwrap().ssh_port, Some(2022));
}
