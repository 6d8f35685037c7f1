use zp::entry::{filter_entries_since_timestamp, ClipboardHistoryEntry};
use zp::history::merge_clipboard_history;
use zp::merge::{merge_entries, ConflictResolutionStrategy};

fn entry(id: u64, ts: i64, content: &str, device: &str) -> ClipboardHistoryEntry {
    ClipboardHistoryEntry {
        content: content.to_string(),
        timestamp: ts,
        device_id: Some(device.to_string()),
        entry_id: Some(id),
    }
}

fn legacy(ts: i64, content: &str) -> ClipboardHistoryEntry {
    ClipboardHistoryEntry { content: content.to_string(), timestamp: ts, device_id: None, entry_id: None }
}

fn me() -> String {
    "me".to_string()
}

#[test]
fn merge_appends_new_keys() {
    let local = vec![entry(1, 100, "a", "me")];
    let remote = vec![entry(2, 200, "b", "peer")];
    let m = merge_clipboard_history(&local, &remote, &ConflictResolutionStrategy::KeepNewest, &me());
    assert_eq!(m, vec![entry(1, 100, "a", "me"), entry(2, 200, "b", "peer")]);
}

#[test]
fn merge_is_idempotent_on_example() {
    let local = vec![entry(1, 100, "a", "me"), entry(3, 50, "c", "me")];
    let remote = vec![entry(1, 300, "a2", "peer"), entry(2, 200, "b", "peer")];
    for s in [
        ConflictResolutionStrategy::KeepNewest,
        ConflictResolutionStrategy::KeepBoth,
        ConflictResolutionStrategy::PreferLocalDevice,
        ConflictResolutionStrategy::PreferSpecificDevice("peer".to_string()),
    ] {
        let once = merge_clipboard_history(&local, &remote, &s, &me());
        let twice = merge_clipboard_history(&once, &remote, &s, &me());
        assert_eq!(once, twice);
    }
}

#[test]
fn keep_newest_takes_later_entry() {
    let local = vec![entry(1, 100, "old", "me")];
    let remote = vec![entry(1, 200, "new", "peer")];
    let m = merge_clipboard_history(&local, &remote, &ConflictResolutionStrategy::KeepNewest, &me());
    assert_eq!(m, vec![entry(1, 200, "new", "peer")]);
    let m2 = merge_clipboard_history(&remote, &local, &ConflictResolutionStrategy::KeepNewest, &"peer".to_string());
    assert_eq!(m2, vec![entry(1, 200, "new", "peer")]);
}

#[test]
fn keep_both_keeps_two() {
    let local = vec![entry(1, 100, "x", "me")];
    let remote = vec![entry(1, 200, "y", "peer")];
    let m = merge_clipboard_history(&local, &remote, &ConflictResolutionStrategy::KeepBoth, &me());
    assert_eq!(m.len(), 2);
    assert_eq!(m[0].content, "x");
    assert_eq!(m[1].content, "y");
}

#[test]
fn prefer_local_keeps_local() {
    let local = vec![entry(1, 100, "x", "me")];
    let remote = vec![entry(1, 200, "y", "peer")];
    let m = merge_clipboard_history(&local, &remote, &ConflictResolutionStrategy::PreferLocalDevice, &me());
    assert_eq!(m, local);
}

#[test]
fn prefer_specific_device_only_from_that_device() {
    let local = vec![entry(1, 100, "x", "me"), entry(2, 100, "p", "me")];
    let remote = vec![entry(1, 50, "y", "laptop"), entry(2, 500, "q", "phone")];
    let s = ConflictResolutionStrategy::PreferSpecificDevice("laptop".to_string());
    let m = merge_clipboard_history(&local, &remote, &s, &me());
    assert_eq!(m, vec![entry(1, 50, "y", "laptop"), entry(2, 100, "p", "me")]);
}

#[test]
fn own_entries_from_remote_are_dropped() {
    let local = vec![entry(1, 100, "x", "me")];
    let remote = vec![entry(1, 900, "changed", "me"), entry(5, 900, "echo", "me")];
    let m = merge_clipboard_history(&local, &remote, &ConflictResolutionStrategy::KeepNewest, &me());
    assert_eq!(m, local);
}

#[test]
fn legacy_entries_dedup_by_content() {
    let local = vec![legacy(100, "same"), legacy(100, "other")];
    let remote = vec![legacy(100, "same"), legacy(200, "fresh")];
    let m = merge_clipboard_history(&local, &remote, &ConflictResolutionStrategy::KeepNewest, &me());
    assert_eq!(m, vec![legacy(100, "same"), legacy(100, "other"), legacy(200, "fresh")]);
}

#[test]
fn same_content_different_ids_is_no_conflict() {
    let local = vec![entry(1, 100, "same", "me")];
    let remote = vec![entry(2, 150, "same", "peer")];
    let m = merge_clipboard_history(&local, &remote, &ConflictResolutionStrategy::KeepNewest, &me());
    assert_eq!(m.len(), 2);
}

#[test]
fn merge_of_empty_sets() {
    let empty: Vec<ClipboardHistoryEntry> = vec![];
    let m = merge_clipboard_history(&empty, &empty, &ConflictResolutionStrategy::KeepNewest, &me());
    assert!(m.is_empty());
}

#[test]
fn filter_since_keeps_strictly_newer_in_order() {
    let log = vec![entry(1, 100, "a", "me"), entry(2, 200, "b", "me"), entry(3, 150, "c", "me")];
    let r = filter_entries_since_timestamp(&log, 100);
    assert_eq!(r, vec![entry(2, 200, "b", "me"), entry(3, 150, "c", "me")]);
    assert!(filter_entries_since_timestamp(&log, 200).is_empty());
    assert_eq!(filter_entries_since_timestamp(&log, i64::MIN).len(), 3);
}

#[test]
fn keep_both_does_not_duplicate_one_event() {
    let local = vec![entry(1, 100, "a", "me")];
    let remote = vec![entry(1, 200, "a", "peer")];
    let m = merge_clipboard_history(&local, &remote, &ConflictResolutionStrategy::KeepBoth, &me());
    assert_eq!(m, local);
}

#[test]
fn merged_log_is_ordered_by_time() {
    let local = vec![entry(1, 300, "a", "me")];
    let remote = vec![entry(2, 100, "b", "peer"), entry(3, 200, "c", "peer")];
    let m = merge_clipboard_history(&local, &remote, &ConflictResolutionStrategy::KeepNewest, &me());
    let ids: Vec<u64> = m.iter().map(|e| e.entry_id.unwrap()).collect();
    assert_eq!(ids, vec![2, 3, 1]);
    let core = merge_entries(&local, &remote, &ConflictResolutionStrategy::KeepNewest, &me());
    assert_eq!(core.len(), 3);
    assert_eq!(core[0].entry_id, Some(1));
}
