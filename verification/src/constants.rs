//! Limits and defaults shared by the library's components.

use vstd::prelude::*;

verus! {

/// Maximum allowed length, in characters, of the local device name.
pub const MAX_DEVICE_NAME_CHARS: usize = 64;

/// Maximum number of history items accepted by settings validation.
pub const MAX_HISTORY_LIMIT: usize = 500;

/// Maximum number of tooltip lines of a history item's detail preview.
pub const MAX_HISTORY_TOOLTIP_LINES: usize = 32;

/// Maximum number of tooltip characters of a history item's detail preview.
pub const MAX_HISTORY_TOOLTIP_CHARS: usize = 2048;

/// Maximum history entries synchronized in one snapshot request.
pub const MAX_HISTORY_SNAPSHOT_ITEMS: usize = 120;

/// Maximum number of remote history entries kept across all peers.
pub const MAX_REMOTE_SESSION_ITEMS_TOTAL: usize = 192;

/// Maximum number of remote history entries kept per peer.
pub const MAX_REMOTE_SESSION_ITEMS_PER_PEER: usize = 48;

/// Maximum number of tooltip lines kept for a remote history item.
pub const MAX_REMOTE_HISTORY_TOOLTIP_LINES: usize = 8;

/// Maximum number of tooltip characters kept for a remote history item.
pub const MAX_REMOTE_HISTORY_TOOLTIP_CHARS: usize = 384;

/// Maximum number of full remote items kept in the content cache.
pub const MAX_REMOTE_CONTENT_CACHE_ITEMS: usize = 2;

/// Maximum estimated memory of the remote content cache.
pub const MAX_REMOTE_CONTENT_CACHE_BYTES: usize = 262144;

/// Default QUIC listen port.
pub const DEFAULT_LISTEN_PORT: u16 = 27841;

/// Default number of clipboard records kept in history.
pub const DEFAULT_HISTORY_LIMIT: usize = 120;

/// Seconds after which a silent peer is considered offline.
pub const DISCOVERY_OFFLINE_GRACE_SECS: i128 = 8;

/// Maximum size of one length-prefixed protocol frame.
pub const MAX_PROTOCOL_FRAME_BYTES: usize = 4194304;

/// Minimum byte delta between two file transfer progress reports.
pub const PROGRESS_EMIT_GRANULARITY_BYTES: u64 = 524288;

/// Maximum accepted size of a discovery datagram.
pub const MAX_DISCOVERY_PACKET_BYTES: usize = 4096;

/// Version of the LAN discovery wire format.
pub const DISCOVERY_PROTOCOL_VERSION: u8 = 2;

/// Purpose binding of the sealed settings.
pub const CONFIG_PURPOSE: &'static str = "cliplink.config.v1";

/// Purpose binding of the sealed history payloads.
pub const HISTORY_PURPOSE: &'static str = "cliplink.history.v1";

/// Purpose binding of the sealed device certificate.
pub const DEVICE_CERT_PURPOSE: &'static str = "cliplink.device-cert.v1";

/// Purpose binding of the sealed device private key.
pub const DEVICE_KEY_PURPOSE: &'static str = "cliplink.device-key.v1";

} // verus!
