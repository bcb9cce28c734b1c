use cliplink::config::AppConfig;
use cliplink::constants::{MAX_REMOTE_SESSION_ITEMS_PER_PEER, MAX_REMOTE_SESSION_ITEMS_TOTAL};
use cliplink::controller::devices::{
    collapse_duplicate_device_entries, device_detail_text, device_entries, device_status_label,
    device_status_tooltip, device_status_tooltip_at, discovered_peer_is_trusted, format_relative_time,
};
use cliplink::controller::presenter::{format_bytes, limit_tooltip_text, truncate_inline};
use cliplink::controller::remote::RemoteHistorySession;
use cliplink::controller::types::{DeviceStatusKind, HistoryScope, SettingsDeviceEntry};
use cliplink::model::{ClipboardItem, ClipboardKind, ClipboardPayload, DiscoveredPeer, TrustedPeer};

fn entry(
    device_id: &str,
    secondary_text: &str,
    status_kind: DeviceStatusKind,
    is_online: bool,
    status_tooltip: &str,
) -> SettingsDeviceEntry {
    SettingsDeviceEntry {
        device_id: device_id.to_string(),
        device_name: "HUAWEI NOH-AN01".to_string(),
        secondary_text: secondary_text.to_string(),
        status_kind,
        is_online,
        is_trusted: true,
        status_tooltip: status_tooltip.to_string(),
    }
}

fn discovered(device_id: &str, fingerprint: &str) -> DiscoveredPeer {
    DiscoveredPeer {
        device_id: device_id.to_string(),
        device_name: "HUAWEI NOH-AN01".to_string(),
        host: "peer.local".to_string(),
        address: "192.168.1.4".to_string(),
        port: 27_841,
        fingerprint: fingerprint.to_string(),
        last_seen: 0,
    }
}

fn trusted(device_id: &str, device_name: &str, fingerprint: &str) -> TrustedPeer {
    TrustedPeer {
        device_id: device_id.to_string(),
        device_name: device_name.to_string(),
        fingerprint: fingerprint.to_string(),
    }
}

fn sample_remote_text_item(device_id: &str, index: i64) -> ClipboardItem {
    let id = ((device_id.len() as u128) << 64) + (index as u128) + 1
        + if device_id.ends_with('b') { 1u128 << 100 } else { 0 };
    ClipboardItem {
        id,
        kind: ClipboardKind::Text,
        summary: format!("remote {index}"),
        signature: format!("sig-{device_id}-{index}"),
        payload: ClipboardPayload::Text(format!("payload {index}")),
        source_device_id: Some(device_id.to_string()),
        source_device_name: Some(format!("Device {device_id}")),
        created_at: (index as i128) * 1_000_000_000,
        is_remote: true,
        is_pinned: false,
    }
}

#[test]
fn truncate_inline_appends_ellipsis_when_needed() {
    assert_eq!(truncate_inline("abcdef", 3), "abc…");
    assert_eq!(truncate_inline("ab", 3), "ab");
}

#[test]
fn limit_tooltip_text_adds_omission_notice_for_extra_lines() {
    let text = (0..40).map(|index| format!("line {index}")).collect::<Vec<_>>().join("\n");
    let clipped = limit_tooltip_text(&text);

    assert!(clipped.contains("line 0"));
    assert!(clipped.contains("……已省略"));
}

#[test]
fn format_bytes_uses_human_readable_units() {
    assert_eq!(format_bytes(999), "999 B");
    assert_eq!(format_bytes(1024), "1.00 KB");
    assert_eq!(format_bytes(5 * 1024 * 1024), "5.00 MB");
}

#[test]
fn device_status_tooltip_shows_offline_without_last_seen_record() {
    let tooltip = device_status_tooltip(DeviceStatusKind::Offline, false, None);

    assert!(tooltip.contains("状态：离线"));
    assert!(tooltip.contains("最后发现：暂无记录"));
}

#[test]
fn device_status_label_maps_status_kinds() {
    assert_eq!(device_status_label(DeviceStatusKind::ConnectedTrusted), "已信任已连接");
    assert_eq!(device_status_label(DeviceStatusKind::TrustedStandby), "已信任未连接");
    assert_eq!(device_status_label(DeviceStatusKind::Offline), "离线");
    assert_eq!(device_status_label(DeviceStatusKind::Untrusted), "未信任");
}

#[test]
fn device_detail_text_keeps_only_address_for_row_subtitle() {
    let detail = device_detail_text(Some(("192.168.1.8", 27841)));

    assert_eq!(detail, "192.168.1.8:27841");
}

#[test]
fn duplicate_device_entries_collapse_by_exact_device_id() {
    let entries = vec![
        entry("same-id", "192.168.1.4:27841", DeviceStatusKind::ConnectedTrusted, true, ""),
        entry("same-id", "", DeviceStatusKind::Offline, false, ""),
    ];

    let collapsed = collapse_duplicate_device_entries(entries);

    assert_eq!(collapsed.len(), 1);
    assert_eq!(collapsed[0].device_id, "same-id");
    assert_eq!(collapsed[0].status_kind, DeviceStatusKind::ConnectedTrusted);
}

#[test]
fn device_entries_with_same_name_but_different_device_ids_are_preserved() {
    let entries = vec![
        entry("device-a", "192.168.1.4:27841", DeviceStatusKind::ConnectedTrusted, true, ""),
        entry("device-b", "", DeviceStatusKind::Offline, false, ""),
    ];

    let collapsed = collapse_duplicate_device_entries(entries);

    assert_eq!(collapsed.len(), 2);
}

#[test]
fn discovered_peer_trust_requires_matching_fingerprint() {
    let trusted_fingerprints = vec!["fp-1".to_string()];
    let trusted_peer = discovered("same-id", "fp-1");
    let mismatched_peer = DiscoveredPeer { fingerprint: "fp-2".to_string(), ..trusted_peer.clone() };

    assert!(discovered_peer_is_trusted(&trusted_peer, &trusted_fingerprints));
    assert!(!discovered_peer_is_trusted(&mismatched_peer, &trusted_fingerprints));
}

#[test]
fn shadowed_offline_same_name_without_last_seen_is_collapsed() {
    let entries = vec![
        entry(
            "device-a",
            "192.168.1.4:27841",
            DeviceStatusKind::ConnectedTrusted,
            true,
            "状态：已信任已连接\n最近发现：刚刚",
        ),
        entry("device-b", "", DeviceStatusKind::Offline, false, "状态：离线\n最后发现：暂无记录"),
    ];

    let collapsed = collapse_duplicate_device_entries(entries);

    assert_eq!(collapsed.len(), 1);
    assert_eq!(collapsed[0].device_id, "device-a");
}

#[test]
fn previously_seen_offline_same_name_device_is_preserved() {
    let entries = vec![
        entry(
            "device-a",
            "192.168.1.4:27841",
            DeviceStatusKind::ConnectedTrusted,
            true,
            "状态：已信任已连接\n最近发现：刚刚",
        ),
        entry(
            "device-b",
            "",
            DeviceStatusKind::Offline,
            false,
            "状态：离线\n最后发现：2026-03-31 22:00:00 UTC",
        ),
    ];

    let collapsed = collapse_duplicate_device_entries(entries);

    assert_eq!(collapsed.len(), 2);
}

#[test]
fn offline_trusted_duplicates_with_same_fingerprint_are_not_listed_multiple_times() {
    let mut config = AppConfig::new(Some("Local Mac")).unwrap();
    config.trusted_peers = vec![
        trusted("device-old", "HUAWEI NOH-AN01", "fp-1"),
        trusted("device-new", "HUAWEI NOH-AN01", "fp-1"),
    ];

    let entries = device_entries(&config, &Vec::new(), &Vec::new(), &Vec::new(), 0);

    assert_eq!(entries.len(), 1);
    assert_eq!(entries[0].device_name, "HUAWEI NOH-AN01");
    assert_eq!(entries[0].status_kind, DeviceStatusKind::Offline);
}

#[test]
fn remote_history_session_limits_items_per_peer() {
    let mut session = RemoteHistorySession::new();
    let items = (0..(MAX_REMOTE_SESSION_ITEMS_PER_PEER as i64 + 3))
        .map(|index| sample_remote_text_item("peer-a", index))
        .collect::<Vec<_>>();

    let removed_ids = session.replace_peer_items("peer-a", items);

    assert_eq!(session.len(), MAX_REMOTE_SESSION_ITEMS_PER_PEER);
    assert!(removed_ids.is_empty());
}

#[test]
fn remote_history_session_reports_replaced_peer_items_for_cleanup() {
    let mut session = RemoteHistorySession::new();
    let first = sample_remote_text_item("peer-a", 1);
    let second = sample_remote_text_item("peer-a", 2);
    session.replace_peer_items("peer-a", vec![first.clone(), second.clone()]);

    let replacement = sample_remote_text_item("peer-a", 3);
    let mut removed_ids = session.replace_peer_items("peer-a", vec![replacement.clone()]);
    removed_ids.sort_unstable();
    let mut expected_ids = vec![first.id, second.id];
    expected_ids.sort_unstable();

    assert_eq!(removed_ids, expected_ids);
    assert!(session.item(replacement.id).is_some());
}

#[test]
fn remote_history_session_prunes_offline_devices_and_total_budget() {
    let mut session = RemoteHistorySession::new();
    for index in 0..(MAX_REMOTE_SESSION_ITEMS_TOTAL as i64 + 10) {
        let peer = if index % 2 == 0 { "peer-a" } else { "peer-b" };
        let _ = session.upsert_live_item(sample_remote_text_item(peer, index));
    }

    assert!(session.len() <= MAX_REMOTE_SESSION_ITEMS_TOTAL);

    let online_ids = vec!["peer-a".to_string()];
    assert!(!session.retain_online_devices(&online_ids).is_empty());
    assert!(session.entries().iter().all(|entry| !entry.source_tooltip.contains("peer-b")));
}

#[test]
fn remote_history_session_only_removes_items_for_matching_peer() {
    let mut session = RemoteHistorySession::new();
    let peer_a = sample_remote_text_item("peer-a", 1);
    let peer_b = sample_remote_text_item("peer-b", 2);
    let _ = session.upsert_live_item(peer_a.clone());
    let _ = session.upsert_live_item(peer_b.clone());

    let removed = session.remove_peer_items("peer-a", &[peer_a.id, peer_b.id]);

    assert_eq!(removed, vec![peer_a.id]);
    assert!(session.item(peer_a.id).is_none());
    assert!(session.item(peer_b.id).is_some());
}

#[test]
fn history_scope_parsing_accepts_known_values_and_defaults_to_all() {
    assert_eq!(HistoryScope::from_raw("all"), HistoryScope::All);
    assert_eq!(HistoryScope::from_raw("local"), HistoryScope::Local);
    assert_eq!(HistoryScope::from_raw("device:peer-a"), HistoryScope::Device("peer-a".to_string()));
    assert_eq!(HistoryScope::from_raw("unknown"), HistoryScope::All);
    assert_eq!(HistoryScope::from_raw("  device:peer-b  "), HistoryScope::Device("peer-b".to_string()));
}

#[test]
fn relative_time_counts_minutes_hours_and_days() {
    let second: i128 = 1_000_000_000;
    assert_eq!(format_relative_time(0, 59 * second), "刚刚");
    assert_eq!(format_relative_time(0, 125 * second), "2 分钟前");
    assert_eq!(format_relative_time(0, 7_200 * second), "2 小时前");
    assert_eq!(format_relative_time(0, 3 * 86_400 * second), "3 天前");
    assert_eq!(format_relative_time(10 * second, 0), "刚刚");
    assert_eq!(format_relative_time(0, 40 * 86_400 * second), "1970-01-01 00:00:00 UTC");
}

#[test]
fn status_tooltip_with_last_seen_shows_relative_and_absolute_time() {
    let tooltip = device_status_tooltip_at(DeviceStatusKind::ConnectedTrusted, true, Some(0), 120_000_000_000);
    assert_eq!(tooltip, "状态：已信任已连接\n最近发现：2 分钟前\n记录时间：1970-01-01 00:00:00 UTC");
}

#[test]
fn device_entries_list_online_then_offline_trusted_peers() {
    let mut config = AppConfig::new(Some("Local Mac")).unwrap();
    config.trusted_peers = vec![trusted("peer-b", "Beta", "fp-b"), trusted("peer-a", "Alpha", "fp-a")];
    let online = vec![DiscoveredPeer { device_name: "Zeta".to_string(), ..discovered("peer-z", "fp-a") }];
    let shares = vec![("peer-z".to_string(), false)];

    let entries = device_entries(&config, &online, &Vec::new(), &shares, 0);

    assert_eq!(entries.len(), 2);
    assert_eq!(entries[0].device_id, "peer-z");
    assert_eq!(entries[0].status_kind, DeviceStatusKind::TrustedStandby);
    assert_eq!(entries[0].secondary_text, "192.168.1.4:27841");
    assert_eq!(entries[1].device_id, "peer-b");
    assert_eq!(entries[1].status_kind, DeviceStatusKind::Offline);
}

#[test]
fn remote_history_session_keeps_every_peer_within_its_budget() {
    let mut session = RemoteHistorySession::new();
    for index in 0..(MAX_REMOTE_SESSION_ITEMS_TOTAL as i64 + 10) {
        let peer = if index % 2 == 0 { "peer-a" } else { "peer-b" };
        let _ = session.upsert_live_item(sample_remote_text_item(peer, index));
        for source in ["peer-a", "peer-b"] {
            let count = session
                .entries()
                .iter()
                .filter(|entry| entry.source_device_id.as_deref() == Some(source))
                .count();
            assert!(count <= MAX_REMOTE_SESSION_ITEMS_PER_PEER);
        }
    }
    assert_eq!(session.len(), 2 * MAX_REMOTE_SESSION_ITEMS_PER_PEER);
}

#[test]
fn remote_record_placeholder_keeps_source_and_text() {
    let mut session = RemoteHistorySession::new();
    let item = sample_remote_text_item("peer-a", 7);
    let _ = session.upsert_live_item(item.clone());
    let placeholder = session.item(item.id).unwrap().to_placeholder_item();
    assert_eq!(placeholder.id, item.id);
    assert_eq!(placeholder.source_device_id, Some("peer-a".to_string()));
    assert_eq!(placeholder.signature, item.signature);
    assert!(placeholder.is_remote);
    assert!(!placeholder.is_pinned);
}
