use zp::daemon::{daemon_status, read_pid_record, start_decision, stop_decision, DaemonStatus, PidRecord, StartDecision, StopDecision};
use zp::entry::ClipboardHistoryEntry;
use zp::history::{
    capture_entry, classify_store, keep_newest, merge_clipboard_history, save_clipboard_history,
    sort_by_timestamp, ClipboardWatcher, StoreError, StoreShape,
};
use zp::merge::ConflictResolutionStrategy;
use zp::p2p::{handle_incoming, peer_address, KnownPeers, ZpMessage};
use zp::text::{decimal_text, parse_decimal, str_eq, trim_text};

fn entry(id: u64, ts: i64, content: &str) -> ClipboardHistoryEntry {
    ClipboardHistoryEntry {
        content: content.to_string(),
        timestamp: ts,
        device_id: Some("d".to_string()),
        entry_id: Some(id),
    }
}

#[test]
fn store_shapes() {
    assert_eq!(classify_store(None), Ok(StoreShape::Empty));
    assert_eq!(classify_store(Some("")), Ok(StoreShape::Empty));
    assert_eq!(classify_store(Some("  \n")), Ok(StoreShape::Empty));
    assert_eq!(classify_store(Some(" [] ")), Ok(StoreShape::Empty));
    assert_eq!(classify_store(Some("[{\"a\":1}]")), Ok(StoreShape::List));
    assert_eq!(classify_store(Some("{}")), Err(StoreError::CorruptStore));
}

#[test]
fn sort_is_stable_by_timestamp() {
    let log = vec![entry(1, 300, "c"), entry(2, 100, "a"), entry(3, 300, "d"), entry(4, 200, "b")];
    let s = sort_by_timestamp(&log);
    let ids: Vec<u64> = s.iter().map(|e| e.entry_id.unwrap()).collect();
    assert_eq!(ids, vec![2, 4, 1, 3]);
}

#[test]
fn cap_keeps_newest() {
    let log: Vec<ClipboardHistoryEntry> = (0..5).map(|i| entry(i, i as i64, "x")).collect();
    let kept = keep_newest(log.clone(), 3);
    assert_eq!(kept, log[2..].to_vec());
    assert_eq!(keep_newest(log.clone(), 10), log);
}

#[test]
fn merged_history_is_ordered_and_capped() {
    let local: Vec<ClipboardHistoryEntry> = (0..100).map(|i| entry(i, 1000 + i as i64, "x")).collect();
    let remote = vec![entry(500, 5, "old"), entry(501, 5000, "new")];
    let m = merge_clipboard_history(&local, &remote, &ConflictResolutionStrategy::KeepNewest, &"me".to_string());
    assert_eq!(m.len(), 100);
    assert_eq!(m.last().unwrap().entry_id, Some(501));
    assert!(m.iter().all(|e| e.entry_id != Some(500)));
    assert!(m.windows(2).all(|w| w[0].timestamp <= w[1].timestamp));
}

#[test]
fn capture_and_append() {
    let e = capture_entry("hello".to_string(), &"dev".to_string(), 1_700_000_000);
    assert_eq!(e.content, "hello");
    assert_eq!(e.device_id, Some("dev".to_string()));
    assert!(e.entry_id.is_some());
    assert_eq!(e.timestamp, 1_700_000_000);
    let mut log = vec![];
    save_clipboard_history(&mut log, e.clone());
    assert_eq!(log, vec![e]);
}

#[test]
fn watcher_captures_changes_only() {
    let mut w = ClipboardWatcher::new();
    assert_eq!(w.observe(String::new()), None);
    assert_eq!(w.observe("a".to_string()), Some("a".to_string()));
    assert_eq!(w.observe("a".to_string()), None);
    assert_eq!(w.observe("b".to_string()), Some("b".to_string()));
}

#[test]
fn pid_records() {
    assert_eq!(read_pid_record(None), PidRecord::Missing);
    assert_eq!(read_pid_record(Some(" 4242\n")), PidRecord::Pid(4242));
    assert_eq!(read_pid_record(Some("abc")), PidRecord::Invalid);
    assert_eq!(read_pid_record(Some("4294967296")), PidRecord::Invalid);
    assert_eq!(read_pid_record(Some("")), PidRecord::Invalid);
    assert_eq!(read_pid_record(Some("+77")), PidRecord::Pid(77));
    assert_eq!(read_pid_record(Some("\u{a0}12\u{3000}")), PidRecord::Pid(12));
    assert_eq!(read_pid_record(Some("+")), PidRecord::Invalid);
}

#[test]
fn daemon_decisions() {
    assert_eq!(start_decision(false, PidRecord::Missing, false), StartDecision::Disabled);
    assert_eq!(start_decision(true, PidRecord::Pid(7), true), StartDecision::AlreadyRunning(7));
    assert_eq!(start_decision(true, PidRecord::Pid(7), false), StartDecision::Start);
    assert_eq!(start_decision(true, PidRecord::Invalid, true), StartDecision::Start);
    assert_eq!(stop_decision(PidRecord::Missing), StopDecision::NotRunning);
    assert_eq!(stop_decision(PidRecord::Invalid), StopDecision::InvalidPid);
    assert_eq!(stop_decision(PidRecord::Pid(3)), StopDecision::Signal(3));
    assert_eq!(daemon_status(PidRecord::Pid(3), true), DaemonStatus::Running(3));
    assert_eq!(daemon_status(PidRecord::Pid(3), false), DaemonStatus::Stale(3));
    assert_eq!(daemon_status(PidRecord::Missing, false), DaemonStatus::NotRunning);
    assert_eq!(daemon_status(PidRecord::Invalid, true), DaemonStatus::InvalidPid);
}

#[test]
fn peer_addresses_get_default_port() {
    assert_eq!(peer_address("10.0.0.5"), "10.0.0.5:7643");
    assert_eq!(peer_address("10.0.0.5:9000"), "10.0.0.5:9000");
}

#[test]
fn known_peers_learn_each_address_once() {
    let mut peers = KnownPeers::from_lines(&vec!["a:1".to_string(), "  ".to_string(), "b:2".to_string(), "a:1".to_string()]);
    assert_eq!(peers.len(), 2);
    assert!(peers.contains("a:1"));
    assert!(!peers.add("b:2".to_string()));
    assert!(peers.add("c:3".to_string()));
    assert_eq!(peers.get(2), "c:3");
}

#[test]
fn broadcast_messages() {
    let own = "me".to_string();
    let s = ConflictResolutionStrategy::KeepNewest;
    let log = vec![entry(1, 10, "a")];
    let out = handle_incoming(ZpMessage::NewEntry(entry(2, 5, "b")), Some(&log), &s, &own);
    assert_eq!(out.store, Some(vec![entry(2, 5, "b"), entry(1, 10, "a")]));
    assert!(out.reply.is_none());
    let out = handle_incoming(ZpMessage::RequestHistory, Some(&log), &s, &own);
    assert_eq!(out.reply, Some(ZpMessage::History(log.clone())));
    let out = handle_incoming(ZpMessage::History(vec![entry(1, 10, "a")]), Some(&log), &s, &own);
    assert_eq!(out.store, Some(log.clone()));
    let out = handle_incoming(ZpMessage::RequestHistory, None, &s, &own);
    assert!(out.reply.is_none() && out.store.is_none());
}

#[test]
fn text_helpers() {
    assert_eq!(parse_decimal("65535", 65535), Some(65535));
    assert_eq!(parse_decimal("65536", 65535), None);
    assert_eq!(parse_decimal("", 10), None);
    assert_eq!(parse_decimal("1a", 100), None);
    assert_eq!(decimal_text(0), "0");
    assert_eq!(decimal_text(8081), "8081");
    assert_eq!(decimal_text(u64::MAX), "18446744073709551615");
    assert_eq!(trim_text("\t x y \r\n"), "x y");
    assert_eq!(trim_text("\u{2003}x\u{85}"), "x");
    assert!(str_eq("ab", "ab"));
    assert!(!str_eq("ab", "abc"));
}

#[test]
fn known_peers_keep_first_seen_order() {
    let peers = KnownPeers::from_lines(&vec![
        "b:2".to_string(),
        "a:1".to_string(),
        "".to_string(),
        "b:2".to_string(),
        "c:3".to_string(),
    ]);
    let all: Vec<String> = (0..peers.len()).map(|i| peers.get(i).clone()).collect();
    assert_eq!(all, vec!["b:2", "a:1", "c:3"]);
}
