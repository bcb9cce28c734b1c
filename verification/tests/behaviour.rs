use cliplink::config::AppConfig;
use cliplink::controller::history::{
    clear_history_status, deletion_status, history_rows_with_scope, history_scope_options,
    normalize_history_scope, pin_change_status, recent_menu_entries, sort_newest_first, unique_sorted_ids,
    upsert_history_entry,
};
use cliplink::controller::settings::{
    hotkey, normalize_settings_update, plan_settings_change, settings_saved_status, validate_settings_update,
};
use cliplink::controller::state::{
    apply_transfer_progress, inbound_status, items_removed_status, local_item_status, merge_item_with_existing_state,
    preferred_latest_item, remote_failed_status, remote_resolved_status, share_state_status, snapshot_failed_status,
    snapshot_received_status, transfer_progress_detail, transfer_progress_label, trust_completed_status,
    trust_request_failed_status, trust_request_status, trust_revoked_by_peer_status, ControllerState,
    TrustRequestPlan,
};
use cliplink::controller::remote::RemoteHistorySession;
use cliplink::controller::state::{plan_activation, ActivationPlan};
use cliplink::controller::trust::{apply_trusted_peer_list, reconcile_trusted_peers_with_discovered, remove_trusted_by_id};
use cliplink::controller::types::{HistoryEntry, HistoryScope, SettingsUpdate};
use cliplink::discovery::{decode_hex, encode_hex};
use cliplink::error::AppError;
use cliplink::ids::id_to_string;
use cliplink::model::{ClipboardItem, ClipboardKind, ClipboardPayload, DiscoveredPeer, FileDescriptor, TrustedPeer};
use cliplink::runtime::{frame_header, frame_length, FileTransferProgress};
use cliplink::security::{certificate_fingerprint, MessageSignatureScheme};

fn history_entry(id: u128, created_at: i128, is_remote: bool, source: Option<&str>, is_pinned: bool) -> HistoryEntry {
    HistoryEntry {
        id,
        kind: ClipboardKind::Text,
        created_at,
        source_device_id: source.map(|s| s.to_string()),
        source_badge: "本机".to_string(),
        source_tooltip: source.unwrap_or("").to_string(),
        summary_text: format!("item {id}"),
        detail_tooltip: format!("detail {id}"),
        search_blob: format!("hello item {id}"),
        is_remote,
        is_pinned,
    }
}

fn trusted(device_id: &str, device_name: &str, fingerprint: &str) -> TrustedPeer {
    TrustedPeer {
        device_id: device_id.to_string(),
        device_name: device_name.to_string(),
        fingerprint: fingerprint.to_string(),
    }
}

fn update(device_name: &str, history_limit: usize, hotkey: &str) -> SettingsUpdate {
    SettingsUpdate {
        device_name: device_name.to_string(),
        history_limit,
        hotkey: hotkey.to_string(),
        launch_at_login: true,
        share_local_history: false,
        prefer_remote_latest_on_paste: true,
        discovery_enabled: true,
    }
}

#[test]
fn hex_encoding_reads_back() {
    let bytes = vec![0u8, 1, 0xab, 0xff, 0x10];
    let text = encode_hex(&bytes);
    assert_eq!(text, "0001abff10");
    assert_eq!(decode_hex(&text), Some(bytes));
    assert_eq!(decode_hex("abc"), None);
    assert_eq!(decode_hex("zz"), None);
}

#[test]
fn signature_scheme_names_read_back() {
    for scheme in [MessageSignatureScheme::Ed25519, MessageSignatureScheme::EcdsaP256Sha256Asn1, MessageSignatureScheme::EcdsaP384Sha384Asn1] {
        assert_eq!(MessageSignatureScheme::parse(scheme.as_str()), Some(scheme));
    }
    assert_eq!(MessageSignatureScheme::parse("rsa"), None);
}

#[test]
fn frame_header_reads_back_and_rejects_bad_sizes() {
    let header = frame_header(300).unwrap();
    assert_eq!(header, vec![0, 0, 1, 44]);
    assert_eq!(frame_length(&header).unwrap(), 300);
    assert!(frame_header(0).is_err());
    assert!(frame_length(&[0, 0, 0, 0]).is_err());
    assert!(frame_length(&[0xff, 0, 0, 0]).is_err());
}

#[test]
fn certificate_fingerprint_is_sha256_hex() {
    assert_eq!(
        certificate_fingerprint(b"abc"),
        "ba7816bf8f01cfea414140de5dae2223b00361a396177a9cb410ff61f20015ad"
    );
}

#[test]
fn random_ids_differ_and_render_as_uuid_text() {
    let a = cliplink::clipboard::build_item_from_text("x", None, None, None, false).unwrap();
    let b = cliplink::clipboard::build_item_from_text("x", None, None, None, false).unwrap();
    assert_ne!(a.id, b.id);
    assert_eq!(id_to_string(0x0123456789abcdef0123456789abcdef), "01234567-89ab-cdef-0123-456789abcdef");
    assert!(a.created_at > 1_600_000_000_000_000_000);
    assert_ne!(AppConfig::new(None).unwrap().device_id, AppConfig::new(None).unwrap().device_id);
}

#[test]
fn scope_keys_read_back() {
    for scope in [HistoryScope::All, HistoryScope::Local, HistoryScope::Device("peer-a".to_string())] {
        assert_eq!(HistoryScope::from_raw(&scope.key()), scope);
    }
}

#[test]
fn hotkey_falls_back_to_default_when_blank() {
    let mut config = AppConfig::new(Some("Mac")).unwrap();
    config.hotkey = "   ".to_string();
    assert_eq!(hotkey(&config), "CmdOrCtrl+Shift+V");
    config.hotkey = "Alt+V".to_string();
    assert_eq!(hotkey(&config), "Alt+V");
}

#[test]
fn settings_edit_is_trimmed_clamped_and_checked() {
    let config = AppConfig::new(Some("Mac")).unwrap();
    let normalized = normalize_settings_update(&config, update("  Laptop  ", 0, "  "));
    assert_eq!(normalized.device_name, "Laptop");
    assert_eq!(normalized.history_limit, 1);
    assert_eq!(normalized.hotkey, "CmdOrCtrl+Shift+V");
    let blank = normalize_settings_update(&config, update("   ", 9999, "Alt+V"));
    assert_eq!(blank.device_name, "Mac");
    assert_eq!(blank.history_limit, 500);

    assert!(validate_settings_update(&update("Laptop", 10, "Alt+V")).is_ok());
    let too_long = "x".repeat(65);
    let cases = [
        (update(" ", 10, "Alt+V"), "Device name cannot be empty."),
        (update(&too_long, 10, "Alt+V"), "Device name must be at most 64 characters."),
        (update("a\u{7}b", 10, "Alt+V"), "Device name cannot contain control characters."),
        (update("Laptop", 0, "Alt+V"), "History limit must be between 1 and 500."),
        (update("Laptop", 10, " "), "History popup hotkey cannot be empty."),
    ];
    for (u, message) in cases {
        match validate_settings_update(&u) {
            Err(AppError::InvalidConfig(m)) => assert_eq!(m, message),
            other => panic!("unexpected {other:?}"),
        }
    }
}

#[test]
fn settings_change_keeps_identity_and_reports_changes() {
    let config = AppConfig::new(Some("Mac")).unwrap();
    let change = plan_settings_change(&config, update(" Laptop ", 30, "Alt+V")).unwrap();
    assert_eq!(change.next.device_id, config.device_id);
    assert_eq!(change.next.device_name, "Laptop");
    assert_eq!(change.next.history_limit, 30);
    assert!(change.share_local_history_changed);
    assert!(!change.paste_preference_changed);
    assert!(plan_settings_change(&config, update("a\u{1}", 30, "Alt+V")).is_err());
}

#[test]
fn saved_status_lists_failed_steps() {
    assert_eq!(settings_saved_status(None, None, None, None), "设置已保存");
    assert_eq!(
        settings_saved_status(Some(AppError::Network("down".to_string())), None, None, None),
        "设置已保存，但后台网络服务更新失败: Network error: down"
    );
}

#[test]
fn newest_first_keeps_order_of_equal_times() {
    let sorted = sort_newest_first(vec![
        history_entry(1, 10, false, None, false),
        history_entry(2, 30, false, None, false),
        history_entry(3, 10, false, None, false),
        history_entry(4, 20, false, None, false),
    ]);
    assert_eq!(sorted.iter().map(|e| e.id).collect::<Vec<_>>(), vec![2, 4, 1, 3]);
}

#[test]
fn history_rows_follow_scope_and_query() {
    let local = vec![history_entry(1, 10, false, None, false), history_entry(2, 40, false, None, false)];
    let remote = vec![
        history_entry(3, 30, true, Some("peer-a"), false),
        history_entry(4, 20, true, Some("peer-b"), false),
    ];
    let trusted_peers = vec![trusted("peer-a", "Phone", "fp-a")];

    let all = history_rows_with_scope(&local, &remote, &trusted_peers, "", HistoryScope::All);
    assert_eq!(all.iter().map(|r| r.id).collect::<Vec<_>>(), vec![2, 3, 4, 1]);
    let only_local = history_rows_with_scope(&local, &remote, &trusted_peers, "", HistoryScope::Local);
    assert_eq!(only_local.iter().map(|r| r.id).collect::<Vec<_>>(), vec![2, 1]);
    let device = history_rows_with_scope(&local, &remote, &trusted_peers, "", HistoryScope::Device("peer-a".to_string()));
    assert_eq!(device.iter().map(|r| r.id).collect::<Vec<_>>(), vec![3]);
    let unknown = history_rows_with_scope(&local, &remote, &trusted_peers, "", HistoryScope::Device("nobody".to_string()));
    assert_eq!(unknown.len(), 4);
    let query = history_rows_with_scope(&local, &remote, &trusted_peers, "  ITEM 4 ", HistoryScope::All);
    assert_eq!(query.iter().map(|r| r.id).collect::<Vec<_>>(), vec![4]);
    assert_eq!(query[0].kind, "text");
}

#[test]
fn scope_menu_lists_sources_once_ordered_by_label() {
    let trusted_peers = vec![trusted("peer-b", "  Zed ", "fp-b"), trusted("peer-a", "", "fp-a")];
    let remote = vec![
        history_entry(3, 30, true, Some("peer-c"), false),
        history_entry(4, 20, true, Some("peer-b"), false),
    ];
    let options = history_scope_options(&trusted_peers, &remote);
    let pairs = options.iter().map(|o| (o.key.as_str(), o.label.as_str())).collect::<Vec<_>>();
    assert_eq!(
        pairs,
        vec![
            ("all", "全部"),
            ("local", "本机"),
            ("device:peer-b", "Zed"),
            ("device:peer-a", "peer-a"),
            ("device:peer-c", "peer-c"),
        ]
    );
    assert_eq!(normalize_history_scope(&trusted_peers, &remote, HistoryScope::Device("peer-c".to_string())), HistoryScope::Device("peer-c".to_string()));
    assert_eq!(normalize_history_scope(&trusted_peers, &remote, HistoryScope::Device("zzz".to_string())), HistoryScope::All);
}

#[test]
fn recent_menu_shows_badge_and_summary() {
    let local = vec![history_entry(1, 10, false, None, false), history_entry(2, 40, false, None, false)];
    let entries = recent_menu_entries(&local, &Vec::new(), 1);
    assert_eq!(entries, vec![(2, "[本机] item 2".to_string())]);
}

#[test]
fn upsert_replaces_places_and_limits_unpinned_entries() {
    let mut entries = vec![
        history_entry(1, 50, false, None, true),
        history_entry(2, 40, false, None, false),
        history_entry(3, 30, false, None, false),
    ];
    upsert_history_entry(&mut entries, history_entry(3, 45, false, None, false), 1);
    assert_eq!(entries.iter().map(|e| e.id).collect::<Vec<_>>(), vec![1, 3]);
    upsert_history_entry(&mut entries, history_entry(9, 60, false, None, false), 0);
    assert_eq!(entries.iter().map(|e| e.id).collect::<Vec<_>>(), vec![9, 1]);
}

#[test]
fn ids_are_sorted_once_each() {
    assert_eq!(unique_sorted_ids(&[5, 1, 5, 3, 1]), vec![1, 3, 5]);
}

#[test]
fn history_statuses_count_items() {
    assert_eq!(deletion_status(0, true), "远程历史为只读，无法删除");
    assert_eq!(deletion_status(0, false), "未找到可删除的本机历史");
    assert_eq!(deletion_status(1, false), "已删除剪切板历史");
    assert_eq!(deletion_status(1, true), "已删除 1 条本机历史，远程项已跳过");
    assert_eq!(deletion_status(3, false), "已删除 3 条剪切板历史");
    assert_eq!(pin_change_status(2, true, false), "已锁定 2 条历史");
    assert_eq!(pin_change_status(1, false, true), "已取消锁定 1 条本机历史，远程项已跳过");
    assert_eq!(pin_change_status(0, true, false), "选中条目已全部处于锁定状态");
    assert_eq!(clear_history_status(true, false, true), "已清空本机剪切板历史");
    assert_eq!(clear_history_status(false, true, true), "没有可清理的本机历史");
}

#[test]
fn transfer_texts_and_progress_changes() {
    assert_eq!(transfer_progress_label("Phone"), "正在接收来自 Phone 的文件");
    assert_eq!(transfer_progress_detail("a.txt", 2048, 1024), "a.txt · 2.00 KB / 2.00 KB");
    let progress = FileTransferProgress {
        item_id: 1,
        source_device_name: "Phone".to_string(),
        summary: "a.txt".to_string(),
        bytes_done: 10,
        bytes_total: 20,
    };
    let mut active = None;
    assert!(apply_transfer_progress(&mut active, progress.clone()));
    assert!(!apply_transfer_progress(&mut active, progress));
    assert_eq!(active.unwrap().bytes_done, 10);
}

fn file(rel: &str, local: Option<&str>, source: Option<&str>) -> FileDescriptor {
    FileDescriptor {
        name: rel.to_string(),
        relative_path: rel.to_string(),
        size_bytes: 1,
        source_path: source.map(|s| s.to_string()),
        local_path: local.map(|s| s.to_string()),
    }
}

fn files_item(created_at: i128, is_pinned: bool, files: Vec<FileDescriptor>) -> ClipboardItem {
    ClipboardItem {
        id: 5,
        kind: ClipboardKind::Files,
        summary: "files".to_string(),
        signature: "sig".to_string(),
        payload: ClipboardPayload::Files(files),
        source_device_id: None,
        source_device_name: None,
        created_at,
        is_remote: false,
        is_pinned,
    }
}

#[test]
fn merge_keeps_known_state_of_files() {
    let item = files_item(10, false, vec![file("a", Some("/gone/a"), None), file("b", Some("/here/b"), Some("/src/b"))]);
    let existing = files_item(20, true, vec![file("a", Some("/cache/a"), Some("/src/a")), file("b", None, None)]);
    let present = vec!["/cache/a".to_string(), "/here/b".to_string()];
    let merged = merge_item_with_existing_state(item, Some(existing), &present);
    assert_eq!(merged.created_at, 20);
    assert!(merged.is_pinned);
    let ClipboardPayload::Files(files) = merged.payload else { panic!("files expected") };
    assert_eq!(files[0].local_path.as_deref(), Some("/cache/a"));
    assert_eq!(files[0].source_path.as_deref(), Some("/src/a"));
    assert_eq!(files[1].local_path.as_deref(), Some("/here/b"));
    assert_eq!(files[1].source_path.as_deref(), Some("/src/b"));
}

#[test]
fn preferred_latest_prefers_newer_remote_only_when_asked() {
    let local = files_item(10, false, Vec::new());
    let mut remote = files_item(20, false, Vec::new());
    remote.id = 6;
    assert_eq!(preferred_latest_item(Some(local.clone()), Some(remote.clone()), true).unwrap().id, 6);
    assert_eq!(preferred_latest_item(Some(local.clone()), Some(remote.clone()), false).unwrap().id, 5);
    assert!(preferred_latest_item(None, Some(remote), false).is_none());
}

#[test]
fn trusting_a_peer_updates_and_orders_the_list() {
    let mut list = vec![trusted("b", "Zed", "fp-b"), trusted("a", "Alpha", "fp-a")];
    let result = apply_trusted_peer_list(&mut list, trusted("c", "Beta", "fp-c"));
    assert!(result.updated);
    assert_eq!(list.iter().map(|p| p.device_id.as_str()).collect::<Vec<_>>(), vec!["a", "c", "b"]);
    let again = apply_trusted_peer_list(&mut list, trusted("c", "Beta", "fp-c"));
    assert!(!again.updated);
    let moved = apply_trusted_peer_list(&mut list, trusted("c2", "Beta", "fp-c"));
    assert!(moved.updated);
    assert_eq!(moved.removed_device_ids, vec!["c".to_string()]);
    assert_eq!(remove_trusted_by_id(&mut list, "c2"), Some("Beta".to_string()));
    assert_eq!(remove_trusted_by_id(&mut list, "c2"), None);
    assert_eq!(list.len(), 2);
}

fn online(device_id: &str, fingerprint: &str, last_seen: i128) -> DiscoveredPeer {
    DiscoveredPeer {
        device_id: device_id.to_string(),
        device_name: device_id.to_string(),
        host: "h".to_string(),
        address: "10.0.0.2".to_string(),
        port: 7,
        fingerprint: fingerprint.to_string(),
        last_seen,
    }
}

#[test]
fn controller_state_tracks_peers_and_sync() {
    let mut state = ControllerState::new();
    state.record_share_state("gone", true);
    assert!(state.observe_peer_list(vec![online("a", "fp-a", 5)]));
    assert!(!state.observe_peer_list(vec![online("a", "fp-a", 5)]));
    assert_eq!(state.device_last_seen, vec![("a".to_string(), 5)]);
    assert!(state.remote_share_enabled.is_empty());

    let mut config = AppConfig::new(Some("Mac")).unwrap();
    config.trusted_peers = vec![trusted("a", "A", "fp-a")];
    config.history_limit = 1000;
    let plan = state.plan_history_sync(&config);
    assert_eq!(plan.requests, vec![("a".to_string(), 120)]);
    assert_eq!(plan.announce_share_state, Some(config.share_local_history));
    let again = state.plan_history_sync(&config);
    assert!(again.requests.is_empty());
    assert_eq!(again.announce_share_state, None);

    state.record_trust_request(1, online("b", "fp-b", 0));
    state.record_trust_request(2, online("b", "fp-b", 0));
    assert_eq!(state.pending_trust_requests.len(), 1);
    assert_eq!(state.pending_trust_requests[0].secondary_text, "10.0.0.2:7");
    assert_eq!(state.status.as_deref(), Some("b 请求建立信任连接"));
    assert!(state.take_trust_request(2).is_some());
    assert!(state.take_trust_request(2).is_none());

    let cleared = state.clear_removed_trusted_device_state(&vec![" a ".to_string(), "".to_string()]);
    assert_eq!(cleared, vec!["a".to_string()]);
    assert!(state.device_last_seen.is_empty());
    assert!(state.requested_history_sync_peers.is_empty());
}

#[test]
fn clipboard_text_lists_reachable_paths() {
    let item = files_item(1, false, vec![file("a", Some("/local/a"), Some("/src/a")), file("b", None, None), file("c", None, Some("/src/c"))]);
    assert_eq!(item.as_clipboard_text(), "/local/a\n/src/c");
    let empty = files_item(1, false, Vec::new());
    assert_eq!(empty.as_clipboard_text(), "");
}

fn named(device_id: &str, device_name: &str, fingerprint: &str) -> DiscoveredPeer {
    let mut peer = online(device_id, fingerprint, 0);
    peer.device_name = device_name.to_string();
    peer
}

#[test]
fn discovered_peers_reconcile_trusted_list() {
    let mut list = vec![
        trusted("old-id", "Beta", "fp-1"),
        trusted("older-id", "Beta", "fp-1"),
        trusted("x", "Alpha", "fp-2"),
    ];
    let peers = vec![named("new-id", "Beta", "fp-1"), named("x", "Alpha", "fp-2"), named("y", "Gamma", "fp-9")];
    let result = reconcile_trusted_peers_with_discovered(&mut list, &peers);
    assert!(result.devices_changed);
    assert_eq!(result.removed_device_ids, vec!["old-id".to_string(), "older-id".to_string()]);
    assert_eq!(list, vec![trusted("x", "Alpha", "fp-2"), trusted("new-id", "Beta", "fp-1")]);

    let again = reconcile_trusted_peers_with_discovered(&mut list, &peers);
    assert!(!again.devices_changed);
    assert!(again.removed_device_ids.is_empty());
    assert_eq!(list.len(), 2);
}

#[test]
fn trust_requests_go_only_to_online_untrusted_devices() {
    let mut state = ControllerState::new();
    state.observe_peer_list(vec![named("a", "Desk", "fp-a"), named("b", "Phone", "fp-b")]);
    let known = vec![trusted("old-b", "Phone", "fp-b")];

    let missing = state.plan_trust_request(&known, "zzz");
    assert!(matches!(missing, TrustRequestPlan::NotOnline));
    assert_eq!(trust_request_status(&missing, false), "仅支持向当前在线设备发起信任请求");

    let send = state.plan_trust_request(&known, "a");
    match &send {
        TrustRequestPlan::Send(peer) => assert_eq!(peer.device_id, "a"),
        _ => panic!("expected a request to be sent"),
    }
    assert_eq!(trust_request_status(&send, false), "已向 Desk 发送信任请求，等待对方确认");

    let again = state.plan_trust_request(&known, "b");
    match &again {
        TrustRequestPlan::AlreadyTrusted(record) => assert_eq!(record, &trusted("b", "Phone", "fp-b")),
        _ => panic!("expected a known fingerprint"),
    }
    assert_eq!(trust_request_status(&again, true), "已更新设备 Phone 的信任标识");
    assert_eq!(trust_request_status(&again, false), "设备 Phone 已在信任列表中");
}

#[test]
fn runtime_event_statuses() {
    let failure = Some(AppError::Network("down".to_string()));
    assert_eq!(trust_completed_status("Desk", false, &None), "Desk 已拒绝本次连接请求");
    assert_eq!(trust_completed_status("Desk", true, &None), "Desk 已同意建立信任连接");
    assert_eq!(
        trust_completed_status("Desk", true, &failure),
        format!("Desk 已同意连接，但保存信任关系失败: {}", failure.as_ref().unwrap().message())
    );
    assert_eq!(trust_request_failed_status("d1", "timeout"), "发送到设备 d1 的信任请求失败: timeout");
    assert_eq!(trust_revoked_by_peer_status("Desk", &None), "设备 Desk 已移除对当前设备的信任，已同步更新本机");
    assert_eq!(
        trust_revoked_by_peer_status("Desk", &failure),
        format!("同步对端移除信任状态失败: {}", failure.as_ref().unwrap().message())
    );
    assert_eq!(share_state_status("Desk", true, true), "Desk 已恢复共享本机剪切板历史");
    assert_eq!(share_state_status("Desk", false, true), "Desk 已关闭共享本机剪切板历史，但更新系统剪切板失败");
    assert_eq!(share_state_status("Desk", false, false), "Desk 已关闭共享本机剪切板历史");
    assert_eq!(inbound_status(&Some("Desk".to_string()), true, &None), "已接收来自 Desk 的内容");
    assert_eq!(inbound_status(&None, false, &None), "已接收来自 远端设备 的内容，粘贴仍优先本机最新记录");
    assert_eq!(
        inbound_status(&None, true, &failure),
        format!("更新系统剪切板失败: {}", failure.as_ref().unwrap().message())
    );
    assert_eq!(items_removed_status("Desk", 12), "Desk 已同步删除 12 条历史记录");
    assert_eq!(snapshot_received_status("Desk"), "已同步 Desk 的历史记录");
    assert_eq!(snapshot_failed_status("d1", "gone"), "拉取设备 d1 的远端历史失败: gone");
    assert_eq!(remote_resolved_status(true, &None), "远程文件已保存到本机并写入系统剪切板");
    assert_eq!(remote_resolved_status(false, &None), "远端内容已写入系统剪切板");
    assert_eq!(
        remote_resolved_status(false, &failure),
        format!("远端内容已接收，但写入系统剪切板失败: {}", failure.as_ref().unwrap().message())
    );
    assert_eq!(remote_failed_status(true, "x"), "远程文件传输失败: x");
    assert_eq!(remote_failed_status(false, "x"), "远端内容读取失败: x");
}

#[test]
fn runtime_runs_only_when_needed_and_stopping_forgets_peers() {
    let mut config = AppConfig::new(Some("Mac")).unwrap();
    config.discovery_enabled = false;
    config.trusted_peers.clear();
    assert!(!cliplink::controller::state::runtime_should_run(&config, false, true));
    assert!(cliplink::controller::state::runtime_should_run(&config, true, true));
    assert!(!cliplink::controller::state::runtime_should_run(&config, true, false));
    config.trusted_peers = vec![trusted("a", "A", "fp-a")];
    assert!(cliplink::controller::state::runtime_should_run(&config, false, false));

    let mut state = ControllerState::new();
    state.observe_peer_list(vec![online("a", "fp-a", 5)]);
    state.record_trust_request(1, online("b", "fp-b", 0));
    state.runtime_stopped();
    assert!(state.discovered.is_empty());
    assert!(state.pending_trust_requests.is_empty());
    assert_eq!(state.device_last_seen, vec![("a".to_string(), 5)]);
    assert!(state.status.is_some());
}

#[test]
fn local_item_statuses() {
    let failure = Some(AppError::Network("down".to_string()));
    let message = failure.as_ref().unwrap().message();
    assert_eq!(local_item_status(&None, &None, false), None);
    assert_eq!(local_item_status(&failure, &None, false), Some(format!("保存本机剪切板历史失败: {message}")));
    assert_eq!(local_item_status(&None, &failure, false), Some(format!("本机内容已保存，但共享失败: {message}")));
    assert_eq!(
        local_item_status(&None, &failure, true),
        Some("本机内容已保存，但同步裁剪后的历史删除失败".to_string())
    );
}

fn text_item(id: u128, text: &str, source_id: &str, source_name: &str, is_remote: bool) -> ClipboardItem {
    ClipboardItem {
        id,
        kind: ClipboardKind::Text,
        summary: text.to_string(),
        signature: format!("sig-{text}"),
        payload: ClipboardPayload::Text(text.to_string()),
        source_device_id: Some(source_id.to_string()),
        source_device_name: Some(source_name.to_string()),
        created_at: 0,
        is_remote,
        is_pinned: false,
    }
}

#[test]
fn repeated_copies_are_skipped_only_from_the_same_source() {
    let local = text_item(1, "shared text", "local-device", "Test Device", false);
    let remote = text_item(2, "shared text", "remote-device", "Remote Device", true);
    assert!(!cliplink::storage::insert_is_repeat(None, &local));
    assert!(!cliplink::storage::insert_is_repeat(Some(&local), &remote));
    let again = text_item(3, "shared text", "local-device", "Test Device", false);
    assert!(cliplink::storage::insert_is_repeat(Some(&local), &again));
    let same_id = text_item(1, "shared text", "local-device", "Test Device", false);
    assert!(!cliplink::storage::insert_is_repeat(Some(&local), &same_id));
}

#[test]
fn retention_keeps_pinned_rows_and_the_newest_unpinned() {
    assert_eq!(cliplink::storage::retention_mask(&[false, false, true], 1), vec![true, false, true]);
    assert_eq!(cliplink::storage::retention_mask(&[false, false, true], 0), vec![true, false, true]);
    assert_eq!(cliplink::storage::retention_mask(&[true, false, false, false], 2), vec![true, true, true, false]);
    assert!(cliplink::storage::retention_mask(&[], 3).is_empty());
}

#[test]
fn random_ids_are_version_four() {
    let id = cliplink::ids::new_random_id().unwrap();
    assert_eq!((id >> 76) & 0xf, 4);
    assert_eq!((id >> 62) & 0x3, 2);
    assert_eq!(id_to_string(id).chars().nth(14), Some('4'));
}

#[test]
fn announcements_report_the_peer_list_only_when_it_changes() {
    let mut state = cliplink::discovery_loop::DiscoveryState::new();
    let peer = online("peer-a", "fp-a", 1_000);
    let first = state.on_announce(peer.clone(), 1_000);
    match first {
        Some(cliplink::runtime::RuntimeEvent::PeerList(list)) => {
            assert_eq!(list.len(), 1);
            assert_eq!(list[0].device_id, "peer-a");
        },
        other => panic!("unexpected {other:?}"),
    }
    assert!(state.on_announce(peer, 1_000).is_none());
}

#[test]
fn trust_answers_complete_a_recorded_request_once() {
    let mut state = cliplink::discovery_loop::DiscoveryState::new();
    let peer = online("peer-a", "fp-a", 1_000);
    state.record_outgoing(42, peer.clone());
    let events = state.on_trust_decision(42, peer.clone(), true, 1_000);
    assert!(events.len() >= 1 && events.len() <= 2);
    let completions = events
        .iter()
        .filter(|event| matches!(event, cliplink::runtime::RuntimeEvent::TrustRequestCompleted { .. }))
        .count();
    assert_eq!(completions, 1);
    assert!(matches!(
        events.last(),
        Some(cliplink::runtime::RuntimeEvent::TrustRequestCompleted { accepted: true, .. })
    ));
    assert!(state.on_trust_decision(42, peer.clone(), true, 1_000).is_empty());
    state.record_outgoing(43, peer.clone());
    let other = online("peer-b", "fp-b", 1_000);
    let failed = state.on_trust_decision(43, other, true, 1_000);
    assert!(matches!(
        failed.last(),
        Some(cliplink::runtime::RuntimeEvent::TrustRequestFailed { peer_device_id, .. }) if peer_device_id == "peer-a"
    ));
}

#[test]
fn activation_prefers_local_then_cached_then_fetch() {
    let mut state = ControllerState::new();
    let local = text_item(1, "local", "me", "Me", false);
    let cached = text_item(2, "cached", "peer-a", "Peer A", true);
    match plan_activation(&mut state, Some(local.clone()), Some(cached.clone()), None, true, 99).unwrap() {
        ActivationPlan::WriteLocal(item) => {
            assert_eq!(item.id, 1);
            assert_eq!(item.created_at, 99);
        },
        other => panic!("unexpected {other:?}"),
    }
    match plan_activation(&mut state, None, Some(cached), None, true, 98).unwrap() {
        ActivationPlan::WriteCached(item) => {
            assert_eq!(item.id, 2);
            assert_eq!(item.created_at, 98);
        },
        other => panic!("unexpected {other:?}"),
    }
    assert!(matches!(plan_activation(&mut state, None, None, None, true, 97).unwrap(), ActivationPlan::Noop));

    let mut session = RemoteHistorySession::new();
    let _ = session.upsert_live_item(text_item(3, "remote", "peer-a", "Peer A", true));
    let record = session.item(3).unwrap();
    assert!(plan_activation(&mut state, None, None, Some(record), false, 96).is_err());
    match plan_activation(&mut state, None, None, Some(record), true, 96).unwrap() {
        ActivationPlan::Fetch(cliplink::runtime::RuntimeCommand::FetchRemoteClipboardItem { peer_device_id, item_id }) => {
            assert_eq!(peer_device_id, "peer-a");
            assert_eq!(item_id, 3);
        },
        other => panic!("unexpected {other:?}"),
    }
    assert_eq!(state.pending_remote_activation, Some(3));
}
