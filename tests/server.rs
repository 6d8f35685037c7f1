use zp::config::SyncConfig;
use zp::entry::ClipboardHistoryEntry;
use zp::server::{handle_history_request, parse_since, ServerError, SyncReply, SyncServer};
use zp::sync::{create_sync_message, SyncData, SyncMessageType};

fn entry(id: u64, ts: i64, content: &str, device: &str) -> ClipboardHistoryEntry {
    ClipboardHistoryEntry {
        content: content.to_string(),
        timestamp: ts,
        device_id: Some(device.to_string()),
        entry_id: Some(id),
    }
}

#[test]
fn handshake_is_acknowledged() {
    let mut server = SyncServer::new(SyncConfig::with_peer_id("srv".to_string()));
    let msg = create_sync_message(SyncMessageType::Handshake, "cli".to_string(), None, 7);
    let out = server.handle_sync_request(&msg, Some(&vec![]), 99);
    assert!(out.store.is_none());
    match out.reply {
        SyncReply::Message(m) => {
            assert_eq!(m.message_type, SyncMessageType::Handshake);
            assert_eq!(m.peer_id, "srv");
            assert_eq!(m.timestamp, 99);
        }
        other => panic!("unexpected {:?}", other),
    }
}

#[test]
fn pushed_entries_are_merged() {
    let mut server = SyncServer::new(SyncConfig::with_peer_id("srv".to_string()));
    let local = vec![entry(1, 100, "a", "srv")];
    let mut msg = create_sync_message(
        SyncMessageType::ClipboardSync,
        "cli".to_string(),
        Some(SyncData::ClipboardEntries(vec![entry(2, 200, "b", "cli")])), 7);
    msg.timestamp = 42;
    let out = server.handle_sync_request(&msg, Some(&local), 99);
    assert_eq!(out.store, Some(vec![entry(1, 100, "a", "srv"), entry(2, 200, "b", "cli")]));
    assert!(matches!(out.reply, SyncReply::Message(ref m) if m.message_type == SyncMessageType::ClipboardSync));
}

#[test]
fn push_without_entries_is_refused() {
    let mut server = SyncServer::new(SyncConfig::with_peer_id("srv".to_string()));
    let msg = create_sync_message(SyncMessageType::ClipboardSync, "cli".to_string(), Some(SyncData::Timestamp(3)), 7);
    let out = server.handle_sync_request(&msg, Some(&vec![]), 99);
    assert_eq!(out.reply, SyncReply::Error(ServerError::InvalidSyncData));
    assert!(out.store.is_none());
}

#[test]
fn push_with_unreadable_log_stores_nothing() {
    let mut server = SyncServer::new(SyncConfig::with_peer_id("srv".to_string()));
    let msg = create_sync_message(
        SyncMessageType::ClipboardSync,
        "cli".to_string(),
        Some(SyncData::ClipboardEntries(vec![entry(2, 200, "b", "cli")])), 7);
    let out = server.handle_sync_request(&msg, None, 99);
    assert_eq!(out.reply, SyncReply::Error(ServerError::LogUnavailable));
    assert!(out.store.is_none());
}

#[test]
fn history_request_answers_newer_entries() {
    let mut server = SyncServer::new(SyncConfig::with_peer_id("srv".to_string()));
    let local = vec![entry(1, 100, "a", "srv"), entry(2, 200, "b", "srv")];
    let msg = create_sync_message(SyncMessageType::HistoryRequest, "cli".to_string(), Some(SyncData::Timestamp(150)), 7);
    let out = server.handle_sync_request(&msg, Some(&local), 99);
    match out.reply {
        SyncReply::Message(m) => {
            assert_eq!(m.message_type, SyncMessageType::HistoryResponse);
            assert_eq!(m.data, Some(SyncData::ClipboardEntries(vec![entry(2, 200, "b", "srv")])));
        }
        other => panic!("unexpected {:?}", other),
    }
}

#[test]
fn heartbeat_is_unsupported() {
    let mut server = SyncServer::new(SyncConfig::with_peer_id("srv".to_string()));
    let msg = create_sync_message(SyncMessageType::Heartbeat, "cli".to_string(), None, 7);
    let out = server.handle_sync_request(&msg, Some(&vec![]), 99);
    assert_eq!(out.reply, SyncReply::Error(ServerError::UnsupportedMessageType));
}

#[test]
fn history_query_parses_since() {
    let local = vec![entry(1, 0, "a", "s"), entry(2, 200, "b", "s")];
    assert_eq!(handle_history_request(Some("0"), Some(&local)), Ok(vec![entry(2, 200, "b", "s")]));
    assert_eq!(handle_history_request(None, Some(&local)).unwrap().len(), 1);
    assert_eq!(handle_history_request(Some("-5"), Some(&local)).unwrap().len(), 2);
    assert_eq!(handle_history_request(Some("x"), None), Err(ServerError::LogUnavailable));
    assert_eq!(parse_since(Some("123")), 123);
    assert_eq!(parse_since(Some("-9223372036854775808")), i64::MIN);
    assert_eq!(parse_since(Some("9223372036854775808")), 0);
    assert_eq!(parse_since(Some("+7")), 7);
    assert_eq!(parse_since(Some("")), 0);
    assert_eq!(parse_since(None), 0);
}

#[test]
fn stored_log_is_in_timestamp_order() {
    let mut server = SyncServer::new(SyncConfig::with_peer_id("srv".to_string()));
    let local = vec![entry(1, 100, "a", "srv")];
    let msg = create_sync_message(
        SyncMessageType::ClipboardSync,
        "cli".to_string(),
        Some(SyncData::ClipboardEntries(vec![entry(3, 50, "c", "cli"), entry(1, 100, "a", "srv")])),
        7,
    );
    let out = server.handle_sync_request(&msg, Some(&local), 99);
    assert_eq!(out.store, Some(vec![entry(3, 50, "c", "cli"), entry(1, 100, "a", "srv")]));
}
