use cliplink::at_rest::LocalDataCipher;
use cliplink::config::{AppConfig, DEFAULT_HISTORY_POPUP_HOTKEY};
use cliplink::constants::{DEFAULT_HISTORY_LIMIT, DEFAULT_LISTEN_PORT};
use cliplink::controller::trust::reconcile_trusted_peer_by_fingerprint;
use cliplink::discovery::{
    accept_envelope, build_discovery_config, discovery_frame_body, frame_discovery_payload,
    merge_announced_peers, prune_stale_discovered_peers, sign_discovery_message, sorted_discovered_peers,
    DiscoveryEnvelope, DiscoveryMessage,
};
use cliplink::model::{ClipboardItem, ClipboardKind, ClipboardPayload, DiscoveredPeer, TrustedPeer};
use cliplink::protocol::{
    TransferRequest, TransferRequestBody, TransferResponse, TransferResponseBody, WireClipboardItem, WireFile,
    TRANSFER_PROTOCOL_VERSION,
};
use cliplink::security::{generate_identity, sign_detached_message, verify_detached_message_signature};

fn trusted_peer(device_id: &str, device_name: &str, fingerprint: &str) -> TrustedPeer {
    TrustedPeer {
        device_id: device_id.to_string(),
        device_name: device_name.to_string(),
        fingerprint: fingerprint.to_string(),
    }
}

#[test]
fn reconcile_trusted_peer_by_fingerprint_updates_device_id_and_drops_duplicates() {
    let mut trusted = vec![
        trusted_peer("old-id", "HUAWEI NOH-AN01", "fp-1"),
        trusted_peer("older-id", "HUAWEI NOH-AN01", "fp-1"),
    ];

    let result = reconcile_trusted_peer_by_fingerprint(&mut trusted, "new-id", "HUAWEI NOH-AN01", "fp-1");

    assert!(result.changed);
    assert_eq!(result.removed_device_ids, vec!["old-id".to_string(), "older-id".to_string()]);
    assert_eq!(trusted.len(), 1);
    assert_eq!(trusted[0].device_id, "new-id");
    assert_eq!(trusted[0].fingerprint, "fp-1");
}

#[test]
fn local_data_roundtrip_works() {
    let cipher = LocalDataCipher::from_bytes([7_u8; 32]);
    let plaintext = b"secret clipboard payload";
    let sealed = cipher.seal(b"cliplink.test", plaintext).unwrap();
    let opened = cipher.open(b"cliplink.test", &sealed).unwrap();
    assert_eq!(opened, plaintext);
}

#[test]
fn local_data_rejects_wrong_purpose() {
    let cipher = LocalDataCipher::from_bytes([9_u8; 32]);
    let sealed = cipher.seal(b"cliplink.test.one", b"payload").unwrap();
    assert!(cipher.open(b"cliplink.test.two", &sealed).is_err());
}

#[test]
fn app_config_normalized_deduplicates_trusted_peers_by_fingerprint() {
    let config = AppConfig {
        device_id: "local-device".to_string(),
        device_name: String::new(),
        listen_port: DEFAULT_LISTEN_PORT,
        history_limit: DEFAULT_HISTORY_LIMIT,
        launch_at_login: false,
        share_local_history: true,
        prefer_remote_latest_on_paste: true,
        discovery_enabled: true,
        hotkey: String::new(),
        trusted_peers: vec![
            trusted_peer("old-id", "HUAWEI NOH-AN01", "fp-1"),
            trusted_peer("new-id", "HUAWEI NOH-AN01", "fp-1"),
            trusted_peer("peer-b", "Pixel 9", "fp-2"),
        ],
    };

    let normalized = config.normalized(Some("Local Mac"));

    assert_eq!(normalized.device_name, "Local Mac");
    assert_eq!(normalized.hotkey, DEFAULT_HISTORY_POPUP_HOTKEY);
    assert_eq!(normalized.trusted_peers.len(), 2);
    assert_eq!(normalized.trusted_peers[0].device_id, "new-id");
    assert_eq!(normalized.trusted_peers[0].fingerprint, "fp-1");
    assert_eq!(normalized.trusted_peers[1].device_id, "peer-b");
    assert_eq!(normalized.trusted_peers[1].fingerprint, "fp-2");
}

#[test]
fn app_config_normalized_drops_blank_trusted_peer_records() {
    let config = AppConfig {
        trusted_peers: vec![trusted_peer("   ", "   ", "   "), trusted_peer("peer-a", "Phone", "")],
        ..AppConfig::new(Some("Local Mac")).unwrap()
    };

    let normalized = config.normalized(Some("Local Mac"));

    assert_eq!(normalized.trusted_peers.len(), 1);
    assert_eq!(normalized.trusted_peers[0].device_id, "peer-a");
    assert_eq!(normalized.trusted_peers[0].device_name, "Phone");
}

fn unsigned_probe_json(device_id: &str, fingerprint: &str) -> Vec<u8> {
    format!(
        "{{\"protocol_version\":2,\"message\":{{\"kind\":\"probe\",\"device_id\":\"{device_id}\",\"fingerprint\":\"{fingerprint}\"}}}}"
    )
    .into_bytes()
}

fn signed_probe(fingerprint_claim: &str) -> (DiscoveryEnvelope, Vec<u8>) {
    let identity = generate_identity("device-a").unwrap();
    let config = build_discovery_config(&AppConfig::new(Some("Local Mac")).unwrap(), &identity);
    let unsigned = unsigned_probe_json("device-a", fingerprint_claim);
    let signature = sign_discovery_message(&config, &unsigned).unwrap();
    let envelope = DiscoveryEnvelope {
        protocol_version: 2,
        message: DiscoveryMessage::Probe {
            device_id: "device-a".to_string(),
            fingerprint: fingerprint_claim.to_string(),
        },
        certificate_der_hex: signature.certificate_der_hex,
        signature_scheme: signature.signature_scheme,
        signature_hex: signature.signature_hex,
    };
    (envelope, unsigned)
}

#[test]
fn discovery_message_roundtrip_works() {
    let identity = generate_identity("device-a").unwrap();
    let fingerprint = identity.fingerprint.clone();
    let config = build_discovery_config(&AppConfig::new(Some("Local Mac")).unwrap(), &identity);
    let unsigned = unsigned_probe_json("device-a", &fingerprint);
    let signature = sign_discovery_message(&config, &unsigned).unwrap();
    let envelope_json = b"{\"protocol_version\":2}".to_vec();
    let datagram = frame_discovery_payload(&envelope_json).unwrap();
    assert_eq!(discovery_frame_body(&datagram), Some(envelope_json));
    let envelope = DiscoveryEnvelope {
        protocol_version: 2,
        message: DiscoveryMessage::Probe { device_id: "device-a".to_string(), fingerprint: fingerprint.clone() },
        certificate_der_hex: signature.certificate_der_hex,
        signature_scheme: signature.signature_scheme,
        signature_hex: signature.signature_hex,
    };
    let decoded = accept_envelope(envelope, &unsigned);
    assert_eq!(
        decoded,
        Some(DiscoveryMessage::Probe { device_id: "device-a".to_string(), fingerprint })
    );
}

#[test]
fn discovery_decoder_ignores_foreign_payloads() {
    assert!(discovery_frame_body(b"not-cliplink").is_none());
    assert!(discovery_frame_body(b"CLKD").is_none());
    let body = discovery_frame_body(b"CLKD{}").unwrap();
    assert_eq!(body, b"{}".to_vec());
    let value: serde_json::Value = serde_json::from_slice(&body).unwrap();
    for field in ["protocol_version", "message", "certificate_der_hex", "signature_scheme", "signature_hex"] {
        assert!(value.get(field).is_none());
    }
}

#[test]
fn discovery_decoder_rejects_fingerprint_mismatch() {
    let (envelope, unsigned) = signed_probe("forged-fingerprint");
    assert!(accept_envelope(envelope, &unsigned).is_none());
}

#[test]
fn discovery_decoder_rejects_tampered_payload() {
    let identity = generate_identity("device-a").unwrap();
    let fingerprint = identity.fingerprint.clone();
    let config = build_discovery_config(&AppConfig::new(Some("Local Mac")).unwrap(), &identity);
    let mut unsigned = unsigned_probe_json("device-a", &fingerprint);
    let signature = sign_discovery_message(&config, &unsigned).unwrap();
    let envelope = DiscoveryEnvelope {
        protocol_version: 2,
        message: DiscoveryMessage::Probe { device_id: "device-a".to_string(), fingerprint },
        certificate_der_hex: signature.certificate_der_hex,
        signature_scheme: signature.signature_scheme,
        signature_hex: signature.signature_hex,
    };
    unsigned.push(b' ');
    assert!(accept_envelope(envelope, &unsigned).is_none());
}

fn peer(device_id: &str, address: &str, last_seen: i128) -> DiscoveredPeer {
    DiscoveredPeer {
        device_id: device_id.to_string(),
        device_name: "Android".to_string(),
        host: "android.local".to_string(),
        address: address.to_string(),
        port: 27_841,
        fingerprint: "fp-1".to_string(),
        last_seen,
    }
}

#[test]
fn merge_announced_peers_replaces_stale_device_id_for_same_fingerprint() {
    let mut discovered: Vec<DiscoveredPeer> = Vec::new();

    merge_announced_peers(&mut discovered, vec![peer("old-id", "192.168.1.20", 0)], 0);
    merge_announced_peers(&mut discovered, vec![peer("new-id", "192.168.1.21", 0)], 0);

    assert_eq!(discovered.len(), 1);
    assert!(discovered.iter().any(|p| p.device_id == "new-id"));
    assert!(!discovered.iter().any(|p| p.device_id == "old-id"));
}

#[test]
fn discovery_keeps_peer_online_until_grace_expires() {
    let now: i128 = 1_700_000_000_000_000_000;
    let second: i128 = 1_000_000_000;
    let mut discovered: Vec<DiscoveredPeer> = Vec::new();
    merge_announced_peers(&mut discovered, vec![peer("android", "192.168.1.10", 0)], now);

    prune_stale_discovered_peers(&mut discovered, now + 6 * second);
    assert_eq!(sorted_discovered_peers(&discovered).len(), 1);

    prune_stale_discovered_peers(&mut discovered, now + 20 * second);
    assert!(sorted_discovered_peers(&discovered).is_empty());
}

fn sample_text_item() -> ClipboardItem {
    ClipboardItem {
        id: 7,
        signature: "sig-text".to_string(),
        kind: ClipboardKind::Text,
        summary: "text".to_string(),
        payload: ClipboardPayload::Text("hello".to_string()),
        source_device_id: Some("device-a".to_string()),
        source_device_name: Some("Device A".to_string()),
        created_at: 1_000,
        is_remote: false,
        is_pinned: false,
    }
}

fn sample_file_wire_item() -> WireClipboardItem {
    WireClipboardItem {
        id: 9,
        signature: "sig-files".to_string(),
        kind: ClipboardKind::Files,
        summary: "file".to_string(),
        text: None,
        files: vec![WireFile { name: "a.txt".to_string(), relative_path: "a.txt".to_string(), size_bytes: 4 }],
        source_device_id: Some("device-a".to_string()),
        source_device_name: Some("Device A".to_string()),
        created_at: 2_000,
    }
}

fn sample_file_item() -> ClipboardItem {
    sample_file_wire_item().into_metadata_item().expect("metadata file item should be valid")
}

#[test]
fn unsupported_protocol_version_is_rejected() {
    let mut request = TransferRequest::fetch_history_snapshot(8);
    request.protocol_version = TRANSFER_PROTOCOL_VERSION + 1;
    assert!(request.validate().is_err());
}

#[test]
fn remove_history_items_requires_at_least_one_item() {
    let request = TransferRequest::remove_history_items(&[]);
    assert!(request.validate().is_err());
}

#[test]
fn file_payload_requires_matching_local_file_count() {
    let item = sample_file_wire_item();
    let error = item.into_item_with_local_files(Vec::new()).unwrap_err();
    assert!(error.message().contains("expected 1 files, received 0 files"));
}

#[test]
fn text_payload_rejects_embedded_file_descriptors() {
    let mut request = TransferRequest::push_clipboard(&sample_text_item());
    if let TransferRequestBody::PushClipboard { item, .. } = &mut request.body {
        item.files.push(WireFile {
            name: "unexpected.txt".to_string(),
            relative_path: "unexpected.txt".to_string(),
            size_bytes: 1,
        });
    }
    assert!(request.validate().is_err());
}

#[test]
fn metadata_only_file_item_roundtrip_preserves_remote_file_descriptors() {
    let item = sample_file_wire_item().into_metadata_item().unwrap();
    assert!(item.is_remote);
    assert!(matches!(item.payload, ClipboardPayload::Files(_)));
    let ClipboardPayload::Files(files) = item.payload else {
        unreachable!("validated above");
    };
    assert_eq!(files.len(), 1);
    assert!(files[0].local_path.is_none());
    assert!(files[0].source_path.is_none());
}

#[test]
fn push_clipboard_keeps_file_items_metadata_only() {
    let request = TransferRequest::push_clipboard(&sample_file_item());
    let TransferRequestBody::PushClipboard { include_files, .. } = request.body else {
        unreachable!("push clipboard must produce push request");
    };
    assert!(!include_files);
}

#[test]
fn history_snapshot_response_rejects_invalid_text_file_bytes() {
    let mut response = TransferResponse {
        protocol_version: TRANSFER_PROTOCOL_VERSION,
        body: TransferResponseBody::ClipboardItem {
            item: WireClipboardItem::from_item(&sample_text_item()),
            include_files: true,
        },
    };
    assert!(response.validate().is_err());

    response.body = TransferResponseBody::HistorySnapshot { items: vec![WireClipboardItem::from_item(&sample_text_item())] };
    assert!(response.validate().is_ok());
}

#[test]
fn detached_message_signature_roundtrip_works() {
    let identity = generate_identity("test-device").expect("identity");

    let signature = sign_detached_message(&identity, b"hello world").expect("sign");
    verify_detached_message_signature(&signature.certificate_der, signature.scheme, b"hello world", &signature.signature)
        .expect("verify");
    assert!(verify_detached_message_signature(
        &signature.certificate_der,
        signature.scheme,
        b"hello world!",
        &signature.signature
    )
    .is_err());
}

#[test]
fn discovery_frames_read_back() {
    let framed = cliplink::discovery::frame_discovery_payload(b"{\"a\":1}").unwrap();
    assert_eq!(&framed[..4], b"CLKD");
    assert_eq!(cliplink::discovery::discovery_frame_body(&framed), Some(b"{\"a\":1}".to_vec()));
    assert_eq!(cliplink::discovery::discovery_frame_body(b"XXXX{}"), None);
    assert!(cliplink::discovery::frame_discovery_payload(&vec![b'x'; 4092]).is_ok());
    assert!(cliplink::discovery::frame_discovery_payload(&vec![b'x'; 4093]).is_err());
}

#[test]
fn wire_items_read_back_as_received_metadata() {
    let item = ClipboardItem {
        id: 7,
        kind: ClipboardKind::Files,
        summary: "a.txt".to_string(),
        signature: "sig-a".to_string(),
        payload: ClipboardPayload::Files(vec![cliplink::model::FileDescriptor {
            name: "a.txt".to_string(),
            relative_path: "a.txt".to_string(),
            size_bytes: 3,
            source_path: Some("/src/a.txt".to_string()),
            local_path: Some("/local/a.txt".to_string()),
        }]),
        source_device_id: Some("d".to_string()),
        source_device_name: Some("Desk".to_string()),
        created_at: 5,
        is_remote: false,
        is_pinned: true,
    };
    let back = WireClipboardItem::from_item(&item).into_metadata_item().unwrap();
    assert_eq!(back.id, 7);
    assert_eq!(back.created_at, 5);
    assert_eq!(back.source_device_name.as_deref(), Some("Desk"));
    assert!(back.is_remote);
    assert!(!back.is_pinned);
    match back.payload {
        ClipboardPayload::Files(files) => {
            assert_eq!(files.len(), 1);
            assert_eq!(files[0].relative_path, "a.txt");
            assert_eq!(files[0].size_bytes, 3);
            assert!(files[0].source_path.is_none());
            assert!(files[0].local_path.is_none());
        }
        _ => panic!("a file item stays a file item"),
    }
}

#[test]
fn discovery_signatures_use_the_device_key_scheme() {
    let identity = generate_identity("device-a").unwrap();
    let config = build_discovery_config(&AppConfig::new(Some("Local Mac")).unwrap(), &identity);
    let signature = sign_discovery_message(&config, b"{}").unwrap();
    assert_eq!(signature.signature_scheme, "ed25519");
    assert_eq!(signature.signature_hex.len(), 128);
    assert_eq!(signature.certificate_der_hex, cliplink::discovery::encode_hex(&identity.certificate_der));
    let mut broken = config;
    broken.private_key_der = vec![1, 2, 3];
    assert!(sign_discovery_message(&broken, b"{}").is_err());
}

#[test]
fn device_certificates_name_the_service_host_and_device() {
    assert_eq!(
        cliplink::security::identity_names("device-a"),
        vec!["cliplink.local".to_string(), "localhost".to_string(), "device-a".to_string()]
    );
}

#[test]
fn history_scope_reads_device_ids_trimmed() {
    assert_eq!(cliplink::controller::types::HistoryScope::from_raw("  device:  peer-a  "), cliplink::controller::types::HistoryScope::Device("peer-a".to_string()));
    assert_eq!(cliplink::controller::types::HistoryScope::from_raw("LOCAL"), cliplink::controller::types::HistoryScope::Local);
    assert_eq!(cliplink::controller::types::HistoryScope::from_raw("device:   "), cliplink::controller::types::HistoryScope::All);
    assert_eq!(cliplink::controller::types::HistoryScope::from_raw("anything"), cliplink::controller::types::HistoryScope::All);
}
