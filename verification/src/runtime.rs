//! Decisions of the background runtime: what each controller command leads
//! to, how network resources follow the settings, how an incoming request is
//! answered, how a peer's reply is read, and file-transfer progress.

use vstd::prelude::*;

use crate::config::{AppConfig, clone_peers};
use crate::error::{AppError, AppResult};
use crate::model::{peer_views, trusted_views, ClipboardItem, DiscoveredPeer, ItemView, PeerView, TrustedPeer, TrustedPeerView};
use crate::protocol::{
    request_problem, response_problem, wire_item_matches, TransferRequestBody, TransferResponse,
    TransferResponseBody, WireClipboardItem, arrived_item, metadata_payload, wire_item_problem,
};
use crate::model::{ClipboardPayload, PayloadView, item_views};
use crate::text::{chars_of, decimal_chars, decimal_spec, extend_chars, extend_str, string_of, str_eq};

verus! {

/// Progress of a running remote file download.
#[derive(Debug)]
pub struct FileTransferProgress {
    pub item_id: u128,
    pub source_device_name: String,
    pub summary: String,
    pub bytes_done: u64,
    pub bytes_total: u64,
}

impl Clone for FileTransferProgress {
    fn clone(&self) -> (r: Self)
        ensures
            r == *self,
    {
        FileTransferProgress {
            item_id: self.item_id,
            source_device_name: self.source_device_name.clone(),
            summary: self.summary.clone(),
            bytes_done: self.bytes_done,
            bytes_total: self.bytes_total,
        }
    }
}

/// Commands from the controller to the runtime.
#[derive(Debug)]
pub enum RuntimeCommand {
    Broadcast(ClipboardItem),
    BroadcastHistoryRemovals { item_ids: Vec<u128> },
    ReplaceConfig(AppConfig),
    NotifyShareState { share_local_history: bool },
    RequestTrust { peer_device_id: String },
    NotifyTrustRevoked { peer_device_id: String },
    ResolveTrustRequest { request_id: u128, allow: bool },
    RequestHistorySnapshot { peer_device_id: String, limit: usize },
    FetchRemoteClipboardItem { peer_device_id: String, item_id: u128 },
    FetchRemoteFiles(ClipboardItem),
    Shutdown,
}

/// Events from the runtime to the controller.
#[derive(Debug)]
pub enum RuntimeEvent {
    PeerList(Vec<DiscoveredPeer>),
    TrustRequestReceived { request_id: u128, peer: DiscoveredPeer },
    TrustRequestCompleted { peer: DiscoveredPeer, accepted: bool },
    TrustRequestFailed { peer_device_id: String, message: String },
    TrustRevokedByPeer { peer_device_id: String, peer_device_name: String },
    RemoteShareStateChanged { peer_device_id: String, peer_device_name: String, share_local_history: bool },
    InboundClipboard(ClipboardItem),
    RemoteHistoryItemsRemoved { peer_device_id: String, peer_device_name: String, item_ids: Vec<u128> },
    HistorySnapshotReceived { peer_device_id: String, peer_device_name: String, items: Vec<ClipboardItem> },
    HistorySnapshotFailed { peer_device_id: String, message: String },
    RemoteClipboardResolved(ClipboardItem),
    RemoteClipboardFailed { item_id: u128, message: String },
    RemoteFilesResolved(ClipboardItem),
    RemoteFilesFailed { item_id: u128, message: String },
    FileTransferProgress(FileTransferProgress),
    Status(String),
}

/// Some element of `s` equals `x` by view.
pub open spec fn has_text(s: Seq<String>, x: Seq<char>) -> bool {
    exists|i: int| 0 <= i < s.len() && s[i]@ == x
}

/// Some of the first `n` peers has fingerprint `x`.
pub open spec fn fingerprint_among(peers: Seq<TrustedPeer>, n: int, x: Seq<char>) -> bool {
    exists|k: int| 0 <= k < n && peers[k].fingerprint@ == x
}

/// The fingerprints of the trusted peers, each once.
pub fn trusted_fingerprint_set(config: &AppConfig) -> (r: Vec<String>)
    ensures
        forall|x: Seq<char>| #[trigger] has_text(r@, x) <==> fingerprint_among(config.trusted_peers@, config.trusted_peers@.len() as int, x),
        forall|i: int, j: int| 0 <= i < j < r@.len() ==> r@[i]@ != r@[j]@,
{
    let peers = &config.trusted_peers;
    let mut out: Vec<String> = Vec::new();
    let mut i: usize = 0;
    while i < peers.len()
        invariant
            i <= peers@.len(),
            forall|x: Seq<char>| #[trigger] has_text(out@, x) <==> fingerprint_among(peers@, i as int, x),
            forall|a: int, b: int| 0 <= a < b < out@.len() ==> out@[a]@ != out@[b]@,
        decreases peers@.len() - i,
    {
        let fp = &peers[i].fingerprint;
        let ghost out0 = out@;
        let present = contains_text(&out, fp.as_str());
        if !present {
            out.push(fp.clone());
        }
        proof {
            assert forall|x: Seq<char>| #[trigger] has_text(out@, x) <==> (has_text(out0, x) || x == fp@) by {
                if has_text(out@, x) {
                    let k = choose|k: int| 0 <= k < out@.len() && out@[k]@ == x;
                    if k < out0.len() {
                        assert(out0[k]@ == x);
                    }
                }
                if has_text(out0, x) {
                    let k = choose|k: int| 0 <= k < out0.len() && out0[k]@ == x;
                    assert(out@[k]@ == x);
                }
                if x == fp@ && !present {
                    assert(out@[out0.len() as int]@ == x);
                }
            }
            assert forall|x: Seq<char>| #[trigger] fingerprint_among(peers@, i + 1, x) <==> (fingerprint_among(peers@, i as int, x) || x == peers@[i as int].fingerprint@) by {
                if x == peers@[i as int].fingerprint@ {
                    assert(0 <= i < i + 1 && peers@[i as int].fingerprint@ == x);
                }
                if fingerprint_among(peers@, i + 1, x) {
                    let k = choose|k: int| 0 <= k < i + 1 && peers@[k].fingerprint@ == x;
                    if k < i {
                        assert(fingerprint_among(peers@, i as int, x));
                    }
                }
            }
            assert forall|x: Seq<char>| #[trigger] has_text(out@, x) <==> fingerprint_among(peers@, i + 1, x) by {
                assert(has_text(out0, x) <==> fingerprint_among(peers@, i as int, x));
                assert(has_text(out@, x) <==> (has_text(out0, x) || x == fp@));
            }
            if !present {
                assert forall|a: int, b: int| 0 <= a < b < out@.len() implies out@[a]@ != out@[b]@ by {
                    if b == out0.len() {
                        assert(out@[a] == out0[a]);
                    } else {
                        assert(out@[a] == out0[a]);
                        assert(out@[b] == out0[b]);
                    }
                }
            }
        }
        i = i + 1;
    }
    out
}

/// Whether some element of the list equals `x`.
pub fn contains_text(list: &Vec<String>, x: &str) -> (r: bool)
    ensures
        r == has_text(list@, x@),
{
    let mut i: usize = 0;
    while i < list.len()
        invariant
            i <= list@.len(),
            forall|k: int| 0 <= k < i ==> list@[k]@ != x@,
        decreases list@.len() - i,
    {
        if str_eq(list[i].as_str(), x) {
            return true;
        }
        i = i + 1;
    }
    false
}

/// Whether a peer's fingerprint belongs to a trusted peer of the settings.
pub fn is_trusted_peer(config: &AppConfig, peer: &DiscoveredPeer) -> (r: bool)
    ensures
        r == exists|i: int| 0 <= i < config.trusted_peers@.len() && config.trusted_peers@[i].fingerprint@ == peer.fingerprint@,
{
    let mut i: usize = 0;
    while i < config.trusted_peers.len()
        invariant
            i <= config.trusted_peers@.len(),
            forall|k: int| 0 <= k < i ==> config.trusted_peers@[k].fingerprint@ != peer.fingerprint@,
        decreases config.trusted_peers@.len() - i,
    {
        if str_eq(config.trusted_peers[i].fingerprint.as_str(), peer.fingerprint.as_str()) {
            return true;
        }
        i = i + 1;
    }
    false
}

/// Whether the transfer service should run: some peer is trusted.
pub fn transfer_service_enabled(config: &AppConfig) -> (r: bool)
    ensures
        r == (config.trusted_peers@.len() > 0),
{
    config.trusted_peers.len() > 0
}

/// Position of the peer with the device id, or the length.
pub open spec fn peer_pos(t: Seq<PeerView>, id: Seq<char>) -> nat {
    crate::discovery::id_pos(t, id)
}

/// Position of the first discovered peer with the device id, or the length.
pub fn find_discovered(discovered: &Vec<DiscoveredPeer>, device_id: &str) -> (r: usize)
    ensures
        r == peer_pos(peer_views(discovered@), device_id@),
        r <= discovered@.len(),
{
    let ghost tv = peer_views(discovered@);
    let mut i: usize = 0;
    while i < discovered.len()
        invariant
            i <= discovered@.len(),
            tv == peer_views(discovered@),
            forall|j: int| 0 <= j < i ==> #[trigger] tv[j].device_id != device_id@,
        decreases discovered@.len() - i,
    {
        if str_eq(discovered[i].device_id.as_str(), device_id) {
            proof {
                crate::discovery::lemma_id_pos(tv, device_id@, i as int);
            }
            return i;
        }
        i = i + 1;
    }
    proof {
        crate::discovery::lemma_id_pos(tv, device_id@, i as int);
    }
    i
}

/// The outcome of looking a trusted peer up among the online ones: the peer,
/// or the message of the failure.
pub open spec fn resolve_spec(t: Seq<PeerView>, trusted: Seq<String>, device_id: Seq<char>) -> Result<PeerView, Seq<char>> {
    let i = peer_pos(t, device_id);
    if i >= t.len() {
        Err("Trusted peer `"@ + device_id + "` is not online."@)
    } else if !has_text(trusted, t[i as int].fingerprint) {
        Err("Peer `"@ + t[i as int].device_name + "` is not trusted."@)
    } else {
        Ok(t[i as int])
    }
}

/// The online peer with the device id, if its fingerprint is trusted.
pub fn resolve_trusted_peer(discovered: &Vec<DiscoveredPeer>, trusted_fingerprints: &Vec<String>, device_id: &str) -> (r: AppResult<DiscoveredPeer>)
    ensures
        match resolve_spec(peer_views(discovered@), trusted_fingerprints@, device_id@) {
            Ok(p) => r matches Ok(q) && q@ == p,
            Err(m) => r matches Err(e) && e.is_network(m),
        },
{
    let i = find_discovered(discovered, device_id);
    proof {
        crate::discovery::lemma_id_pos_found(peer_views(discovered@), device_id@);
    }
    if i >= discovered.len() {
        let mut m = chars_of("Trusted peer `");
        extend_str(&mut m, device_id);
        extend_str(&mut m, "` is not online.");
        return Err(AppError::Network(string_of(m.as_slice())));
    }
    let peer = &discovered[i];
    if !contains_text(trusted_fingerprints, peer.fingerprint.as_str()) {
        let mut m = chars_of("Peer `");
        extend_str(&mut m, peer.device_name.as_str());
        extend_str(&mut m, "` is not trusted.");
        return Err(AppError::Network(string_of(m.as_slice())));
    }
    Ok(peer.clone())
}

/// The online peers whose fingerprint is trusted, in table order.
pub open spec fn trusted_online_spec(t: Seq<PeerView>, trusted: Seq<String>) -> Seq<PeerView> {
    t.filter(|p: PeerView| has_text(trusted, p.fingerprint))
}

/// The online peers whose fingerprint is trusted.
pub fn trusted_online_peers(discovered: &Vec<DiscoveredPeer>, trusted_fingerprints: &Vec<String>) -> (r: Vec<DiscoveredPeer>)
    ensures
        peer_views(r@) == trusted_online_spec(peer_views(discovered@), trusted_fingerprints@),
{
    let ghost tv = peer_views(discovered@);
    let ghost pred = |p: PeerView| has_text(trusted_fingerprints@, p.fingerprint);
    let mut out: Vec<DiscoveredPeer> = Vec::new();
    let mut i: usize = 0;
    while i < discovered.len()
        invariant
            i <= discovered@.len(),
            tv == peer_views(discovered@),
            pred == (|p: PeerView| has_text(trusted_fingerprints@, p.fingerprint)),
            peer_views(out@) == tv.take(i as int).filter(pred),
        decreases discovered@.len() - i,
    {
        proof {
            reveal(Seq::filter);
            assert(tv.take(i + 1).drop_last() =~= tv.take(i as int));
            assert(tv.take(i + 1).last() == discovered@[i as int]@);
        }
        if contains_text(trusted_fingerprints, discovered[i].fingerprint.as_str()) {
            out.push(discovered[i].clone());
            proof {
                assert(peer_views(out@) =~= peer_views(out@.drop_last()).push(discovered@[i as int]@));
            }
        }
        i = i + 1;
    }
    proof {
        assert(tv.take(i as int) =~= tv);
    }
    out
}

/// What the runtime knows when it handles a command.
pub struct RuntimeView {
    pub share_local_history: bool,
    pub listen_port: u16,
    pub endpoint_running: bool,
}

/// What a command leads to.
#[derive(Debug)]
pub enum RuntimeAction {
    /// Nothing to do.
    Ignore,
    /// Push the item to each peer.
    PushClipboard { peers: Vec<DiscoveredPeer>, item: ClipboardItem },
    /// Tell each peer that these items left the history.
    PushHistoryRemovals { peers: Vec<DiscoveredPeer>, item_ids: Vec<u128> },
    /// Tell each peer whether this device shares its history.
    PushShareState { peers: Vec<DiscoveredPeer>, share_local_history: bool },
    /// Hand a trust request for the peer to the discovery loop.
    SendTrustRequest { peer: DiscoveredPeer },
    /// Tell the peer it is no longer trusted.
    NotifyTrustRevoked { peer: DiscoveredPeer },
    /// Hand the answer to a trust request to the discovery loop.
    SendTrustDecision { request_id: u128, allow: bool },
    /// Adopt new settings and re-arrange the network resources.
    ApplyConfig { config: AppConfig, trusted_fingerprints: Vec<String>, port_changed: bool },
    /// Ask the peer for its history.
    FetchHistorySnapshot { peer: DiscoveredPeer, limit: usize },
    /// Ask the peer for one clipboard item.
    FetchClipboardItem { peer: DiscoveredPeer, item_id: u128 },
    /// Download the files of the item from the peer.
    FetchFiles { peer: DiscoveredPeer, item: ClipboardItem },
    /// Report to the controller.
    Emit(RuntimeEvent),
    /// Stop the runtime.
    Shutdown,
}

/// A snapshot size request clamped to what is accepted.
pub open spec fn clamp_limit(limit: usize) -> usize {
    if limit < 1 {
        1
    } else if limit > crate::constants::MAX_HISTORY_SNAPSHOT_ITEMS {
        crate::constants::MAX_HISTORY_SNAPSHOT_ITEMS
    } else {
        limit
    }
}

/// Message given when the transfer service does not run.
pub open spec fn service_down_msg() -> Seq<char> {
    "传输服务未启动"@
}

/// The failure message of an unresolved peer.
pub open spec fn network_message(m: Seq<char>) -> Seq<char> {
    "Network error: "@ + m
}

/// The action a command leads to, given the runtime's state, the online
/// peers and the trusted fingerprints.
pub open spec fn plan_spec(state: RuntimeView, t: Seq<PeerView>, trusted: Seq<String>, command: RuntimeCommand, a: RuntimeAction) -> bool {
    match command {
        RuntimeCommand::Broadcast(item) => if !state.share_local_history || !state.endpoint_running {
            a is Ignore
        } else {
            a matches RuntimeAction::PushClipboard { peers, item: i } && peer_views(peers@) == trusted_online_spec(t, trusted) && i@ == item@
        },
        RuntimeCommand::BroadcastHistoryRemovals { item_ids } => if item_ids@.len() == 0 || !state.share_local_history || !state.endpoint_running {
            a is Ignore
        } else {
            a matches RuntimeAction::PushHistoryRemovals { peers, item_ids: ids } && peer_views(peers@) == trusted_online_spec(t, trusted) && ids@ == item_ids@
        },
        RuntimeCommand::NotifyShareState { share_local_history } => if !state.endpoint_running {
            a is Ignore
        } else {
            a matches RuntimeAction::PushShareState { peers, share_local_history: s } && peer_views(peers@) == trusted_online_spec(t, trusted) && s == share_local_history
        },
        RuntimeCommand::RequestTrust { peer_device_id } => if peer_pos(t, peer_device_id@) >= t.len() {
            a matches RuntimeAction::Emit(RuntimeEvent::TrustRequestFailed { peer_device_id: d, message }) && d@ == peer_device_id@
                && message@ == "The selected device is not online."@
        } else {
            a matches RuntimeAction::SendTrustRequest { peer } && peer@ == t[peer_pos(t, peer_device_id@) as int]
        },
        RuntimeCommand::NotifyTrustRevoked { peer_device_id } => if !state.endpoint_running {
            a is Ignore
        } else {
            match resolve_spec(t, trusted, peer_device_id@) {
                Ok(p) => a matches RuntimeAction::NotifyTrustRevoked { peer } && peer@ == p,
                Err(_) => a is Ignore,
            }
        },
        RuntimeCommand::ResolveTrustRequest { request_id, allow } => a == (RuntimeAction::SendTrustDecision { request_id, allow }),
        RuntimeCommand::ReplaceConfig(config) => a matches RuntimeAction::ApplyConfig { config: c, trusted_fingerprints: fps, port_changed }
            && c.device_id == config.device_id && c.device_name == config.device_name && c.listen_port == config.listen_port
            && c.share_local_history == config.share_local_history && c.discovery_enabled == config.discovery_enabled
            && trusted_views(c.trusted_peers@) == trusted_views(config.trusted_peers@)
            && (forall|x: Seq<char>| #[trigger] has_text(fps@, x) <==> fingerprint_among(config.trusted_peers@, config.trusted_peers@.len() as int, x))
            && port_changed == (state.listen_port != config.listen_port),
        RuntimeCommand::RequestHistorySnapshot { peer_device_id, limit } => if !state.endpoint_running {
            a matches RuntimeAction::Emit(RuntimeEvent::HistorySnapshotFailed { peer_device_id: d, message }) && d@ == peer_device_id@ && message@ == service_down_msg()
        } else {
            match resolve_spec(t, trusted, peer_device_id@) {
                Ok(p) => a matches RuntimeAction::FetchHistorySnapshot { peer, limit: l } && peer@ == p && l == clamp_limit(limit),
                Err(m) => a matches RuntimeAction::Emit(RuntimeEvent::HistorySnapshotFailed { peer_device_id: d, message }) && d@ == peer_device_id@ && message@ == network_message(m),
            }
        },
        RuntimeCommand::FetchRemoteClipboardItem { peer_device_id, item_id } => if !state.endpoint_running {
            a matches RuntimeAction::Emit(RuntimeEvent::RemoteClipboardFailed { item_id: i, message }) && i == item_id && message@ == service_down_msg()
        } else {
            match resolve_spec(t, trusted, peer_device_id@) {
                Ok(p) => a matches RuntimeAction::FetchClipboardItem { peer, item_id: i } && peer@ == p && i == item_id,
                Err(m) => a matches RuntimeAction::Emit(RuntimeEvent::RemoteClipboardFailed { item_id: i, message }) && i == item_id && message@ == network_message(m),
            }
        },
        RuntimeCommand::FetchRemoteFiles(item) => if !state.endpoint_running {
            a matches RuntimeAction::Emit(RuntimeEvent::RemoteFilesFailed { item_id: i, message }) && i == item.id && message@ == service_down_msg()
        } else {
            match item.source_device_id {
                None => a matches RuntimeAction::Emit(RuntimeEvent::RemoteFilesFailed { item_id: i, message }) && i == item.id && message@ == "远程文件缺少来源设备标识"@,
                Some(d) => match resolve_spec(t, trusted, d@) {
                    Ok(p) => a matches RuntimeAction::FetchFiles { peer, item: it } && peer@ == p && it@ == item@,
                    Err(m) => a matches RuntimeAction::Emit(RuntimeEvent::RemoteFilesFailed { item_id: i, message }) && i == item.id && message@ == network_message(m),
                },
            }
        },
        RuntimeCommand::Shutdown => a is Shutdown,
    }
}

fn clamp_snapshot_limit(limit: usize) -> (r: usize)
    ensures
        r == clamp_limit(limit),
{
    if limit < 1 {
        1
    } else if limit > crate::constants::MAX_HISTORY_SNAPSHOT_ITEMS {
        crate::constants::MAX_HISTORY_SNAPSHOT_ITEMS
    } else {
        limit
    }
}

/// Decides what a controller command leads to.
pub fn plan_runtime_command(state: &RuntimeView, discovered: &Vec<DiscoveredPeer>, trusted_fingerprints: &Vec<String>, command: RuntimeCommand) -> (r: RuntimeAction)
    ensures
        plan_spec(*state, peer_views(discovered@), trusted_fingerprints@, command, r),
{
    match command {
        RuntimeCommand::Broadcast(item) => {
            if !state.share_local_history || !state.endpoint_running {
                return RuntimeAction::Ignore;
            }
            let peers = trusted_online_peers(discovered, trusted_fingerprints);
            RuntimeAction::PushClipboard { peers, item }
        },
        RuntimeCommand::BroadcastHistoryRemovals { item_ids } => {
            if item_ids.len() == 0 || !state.share_local_history || !state.endpoint_running {
                return RuntimeAction::Ignore;
            }
            let peers = trusted_online_peers(discovered, trusted_fingerprints);
            RuntimeAction::PushHistoryRemovals { peers, item_ids }
        },
        RuntimeCommand::NotifyShareState { share_local_history } => {
            if !state.endpoint_running {
                return RuntimeAction::Ignore;
            }
            let peers = trusted_online_peers(discovered, trusted_fingerprints);
            RuntimeAction::PushShareState { peers, share_local_history }
        },
        RuntimeCommand::RequestTrust { peer_device_id } => {
            let i = find_discovered(discovered, peer_device_id.as_str());
            if i >= discovered.len() {
                return RuntimeAction::Emit(RuntimeEvent::TrustRequestFailed {
                    peer_device_id,
                    message: "The selected device is not online.".to_string(),
                });
            }
            RuntimeAction::SendTrustRequest { peer: discovered[i].clone() }
        },
        RuntimeCommand::NotifyTrustRevoked { peer_device_id } => {
            if !state.endpoint_running {
                return RuntimeAction::Ignore;
            }
            match resolve_trusted_peer(discovered, trusted_fingerprints, peer_device_id.as_str()) {
                Ok(peer) => RuntimeAction::NotifyTrustRevoked { peer },
                Err(_) => RuntimeAction::Ignore,
            }
        },
        RuntimeCommand::ResolveTrustRequest { request_id, allow } => RuntimeAction::SendTrustDecision { request_id, allow },
        RuntimeCommand::ReplaceConfig(config) => {
            let trusted = trusted_fingerprint_set(&config);
            let port_changed = state.listen_port != config.listen_port;
            RuntimeAction::ApplyConfig { config, trusted_fingerprints: trusted, port_changed }
        },
        RuntimeCommand::RequestHistorySnapshot { peer_device_id, limit } => {
            if !state.endpoint_running {
                return RuntimeAction::Emit(RuntimeEvent::HistorySnapshotFailed { peer_device_id, message: "传输服务未启动".to_string() });
            }
            match resolve_trusted_peer(discovered, trusted_fingerprints, peer_device_id.as_str()) {
                Ok(peer) => RuntimeAction::FetchHistorySnapshot { peer, limit: clamp_snapshot_limit(limit) },
                Err(e) => RuntimeAction::Emit(RuntimeEvent::HistorySnapshotFailed { peer_device_id, message: e.message() }),
            }
        },
        RuntimeCommand::FetchRemoteClipboardItem { peer_device_id, item_id } => {
            if !state.endpoint_running {
                return RuntimeAction::Emit(RuntimeEvent::RemoteClipboardFailed { item_id, message: "传输服务未启动".to_string() });
            }
            match resolve_trusted_peer(discovered, trusted_fingerprints, peer_device_id.as_str()) {
                Ok(peer) => RuntimeAction::FetchClipboardItem { peer, item_id },
                Err(e) => RuntimeAction::Emit(RuntimeEvent::RemoteClipboardFailed { item_id, message: e.message() }),
            }
        },
        RuntimeCommand::FetchRemoteFiles(item) => {
            if !state.endpoint_running {
                return RuntimeAction::Emit(RuntimeEvent::RemoteFilesFailed { item_id: item.id, message: "传输服务未启动".to_string() });
            }
            let peer_device_id = match &item.source_device_id {
                Some(d) => d.clone(),
                None => {
                    return RuntimeAction::Emit(RuntimeEvent::RemoteFilesFailed { item_id: item.id, message: "远程文件缺少来源设备标识".to_string() });
                },
            };
            match resolve_trusted_peer(discovered, trusted_fingerprints, peer_device_id.as_str()) {
                Ok(peer) => RuntimeAction::FetchFiles { peer, item },
                Err(e) => RuntimeAction::Emit(RuntimeEvent::RemoteFilesFailed { item_id: item.id, message: e.message() }),
            }
        },
        RuntimeCommand::Shutdown => RuntimeAction::Shutdown,
    }
}

/// The status report after new settings were applied: the failure, or a
/// note that the listening port moved.
pub fn config_applied_status(result: &AppResult<()>, port_changed: bool) -> (r: Option<RuntimeEvent>)
    ensures
        match result {
            Err(e) => r matches Some(RuntimeEvent::Status(m)) && m@ == "后台网络服务更新失败: "@ + e.message_spec(),
            Ok(()) => if port_changed {
                r matches Some(RuntimeEvent::Status(m)) && m@ == "监听端口已更新"@
            } else {
                r is None
            },
        },
{
    match result {
        Err(e) => {
            let mut m = chars_of("后台网络服务更新失败: ");
            let msg = e.message();
            extend_str(&mut m, msg.as_str());
            Some(RuntimeEvent::Status(string_of(m.as_slice())))
        },
        Ok(()) => if port_changed {
            Some(RuntimeEvent::Status("监听端口已更新".to_string()))
        } else {
            None
        },
    }
}

/// How the network resources follow the settings.
#[derive(Debug, PartialEq, Eq)]
pub enum ResourcePlan {
    /// Neither discovery nor transfer is wanted: release everything.
    ShutdownAll,
    /// Transfer is wanted: make sure the identity, the history store and an
    /// endpoint on the configured port exist; `restart` when the endpoint is
    /// missing or listens elsewhere.
    EnsureEndpoint { restart: bool },
    /// Transfer is not wanted but an endpoint runs: close it.
    CloseEndpoint,
    /// Transfer is not wanted and no endpoint runs: release stores.
    ReleaseStores,
}

/// Decides how the network resources change for the settings.
pub fn plan_runtime_resources(config: &AppConfig, endpoint_running: bool, endpoint_port: Option<u16>) -> (r: ResourcePlan)
    ensures
        r == if !config.discovery_enabled && config.trusted_peers@.len() == 0 {
            ResourcePlan::ShutdownAll
        } else if config.trusted_peers@.len() > 0 {
            ResourcePlan::EnsureEndpoint { restart: !endpoint_running || endpoint_port != Some(config.listen_port) }
        } else if endpoint_running {
            ResourcePlan::CloseEndpoint
        } else {
            ResourcePlan::ReleaseStores
        },
{
    let transfer_requested = transfer_service_enabled(config);
    if !config.discovery_enabled && !transfer_requested {
        return ResourcePlan::ShutdownAll;
    }
    if transfer_requested {
        let same_port = match endpoint_port {
            Some(p) => p == config.listen_port,
            None => false,
        };
        ResourcePlan::EnsureEndpoint { restart: !endpoint_running || !same_port }
    } else if endpoint_running {
        ResourcePlan::CloseEndpoint
    } else {
        ResourcePlan::ReleaseStores
    }
}


// ---------------------------------------------------------------------------
// Serving a peer's request.

/// The trusted peer with the given fingerprint: its device id and name.
pub open spec fn trusted_identity_spec(peers: Seq<TrustedPeer>, fingerprint: Option<Seq<char>>) -> Option<(Seq<char>, Seq<char>)>
    decreases peers.len(),
{
    match fingerprint {
        None => None,
        Some(fp) => if peers.len() == 0 {
            None
        } else if peers[0].fingerprint@ == fp {
            Some((peers[0].device_id@, peers[0].device_name@))
        } else {
            trusted_identity_spec(peers.drop_first(), fingerprint)
        },
    }
}

/// The first trusted peer with the fingerprint of the connection's client.
pub fn trusted_identity(peers: &Vec<TrustedPeer>, fingerprint: Option<&str>) -> (r: Option<(String, String)>)
    ensures
        match r {
            Some((id, name)) => trusted_identity_spec(peers@, crate::config::opt_str_view(fingerprint)) == Some((id@, name@)),
            None => trusted_identity_spec(peers@, crate::config::opt_str_view(fingerprint)) is None,
        },
{
    let fp = match fingerprint {
        Some(f) => f,
        None => return None,
    };
    let mut i: usize = 0;
    proof {
        assert(peers@.skip(0) =~= peers@);
    }
    while i < peers.len()
        invariant
            i <= peers@.len(),
            trusted_identity_spec(peers@, Some(fp@)) == trusted_identity_spec(peers@.skip(i as int), Some(fp@)),
            crate::config::opt_str_view(fingerprint) == Some(fp@),
        decreases peers@.len() - i,
    {
        proof {
            assert(peers@.skip(i as int).drop_first() =~= peers@.skip(i + 1));
            assert(peers@.skip(i as int)[0] == peers@[i as int]);
        }
        if str_eq(peers[i].fingerprint.as_str(), fp) {
            proof {
                assert(trusted_identity_spec(peers@.skip(i as int), Some(fp@)) == Some((peers@[i as int].device_id@, peers@[i as int].device_name@)));
            }
            let id = peers[i].device_id.clone();
            let name = peers[i].device_name.clone();
            proof {
                assert(crate::config::opt_str_view(fingerprint) == Some(fp@));
            }
            return Some((id, name));
        }
        i = i + 1;
    }
    None
}

/// How a validated request is served.
#[derive(Debug)]
pub enum ConnectionReply {
    /// Receive the pushed item (and its files when sent), report it, acknowledge.
    ReceiveClipboard { item: WireClipboardItem, include_files: bool },
    /// Acknowledge, reporting the event when there is one.
    Acknowledge { event: Option<RuntimeEvent> },
    /// Send the most recent local items, up to the limit; none at all when
    /// sharing is off.
    SendSnapshot { limit: Option<usize> },
    /// Look the item up and send it, with its files when asked.
    SendItem { item_id: u128, with_files: bool },
    /// Answer with an error.
    Refuse { message: String },
}

/// How a request from the peer with the given client fingerprint is served.
pub open spec fn connection_reply_spec(
    body: TransferRequestBody,
    peers: Seq<TrustedPeer>,
    fingerprint: Option<Seq<char>>,
    share_local_history: bool,
    r: ConnectionReply,
) -> bool {
    match body {
        TransferRequestBody::PushClipboard { item, include_files } => r == (ConnectionReply::ReceiveClipboard { item, include_files }),
        TransferRequestBody::RemoveHistoryItems { item_ids } => match trusted_identity_spec(peers, fingerprint) {
            Some((id, name)) => r matches ConnectionReply::Acknowledge { event: Some(RuntimeEvent::RemoteHistoryItemsRemoved { peer_device_id, peer_device_name, item_ids: ids }) }
                && peer_device_id@ == id && peer_device_name@ == name && ids == item_ids,
            None => r matches ConnectionReply::Acknowledge { event: None },
        },
        TransferRequestBody::UpdateShareState { share_local_history: s } => match trusted_identity_spec(peers, fingerprint) {
            Some((id, name)) => r matches ConnectionReply::Acknowledge { event: Some(RuntimeEvent::RemoteShareStateChanged { peer_device_id, peer_device_name, share_local_history: s2 }) }
                && peer_device_id@ == id && peer_device_name@ == name && s2 == s,
            None => r matches ConnectionReply::Acknowledge { event: None },
        },
        TransferRequestBody::RevokeTrust => match trusted_identity_spec(peers, fingerprint) {
            Some((id, name)) => r matches ConnectionReply::Acknowledge { event: Some(RuntimeEvent::TrustRevokedByPeer { peer_device_id, peer_device_name }) }
                && peer_device_id@ == id && peer_device_name@ == name,
            None => r matches ConnectionReply::Acknowledge { event: None },
        },
        TransferRequestBody::FetchHistorySnapshot { limit } => r == (ConnectionReply::SendSnapshot {
            limit: if share_local_history { Some(clamp_limit(limit)) } else { None },
        }),
        TransferRequestBody::FetchClipboardItem { item_id } => if share_local_history {
            r == (ConnectionReply::SendItem { item_id, with_files: false })
        } else {
            r matches ConnectionReply::Refuse { message } && message@ == "Remote clipboard sharing is disabled."@
        },
        TransferRequestBody::FetchFiles { item_id } => if share_local_history {
            r == (ConnectionReply::SendItem { item_id, with_files: true })
        } else {
            r matches ConnectionReply::Refuse { message } && message@ == "Remote file sharing is disabled."@
        },
    }
}

/// Decides how a validated request is served.
pub fn plan_connection_reply(
    body: TransferRequestBody,
    trusted_peers: &Vec<TrustedPeer>,
    peer_fingerprint: Option<&str>,
    share_local_history: bool,
) -> (r: ConnectionReply)
    ensures
        connection_reply_spec(body, trusted_peers@, crate::config::opt_str_view(peer_fingerprint), share_local_history, r),
{
    match body {
        TransferRequestBody::PushClipboard { item, include_files } => ConnectionReply::ReceiveClipboard { item, include_files },
        TransferRequestBody::RemoveHistoryItems { item_ids } => match trusted_identity(trusted_peers, peer_fingerprint) {
            Some((peer_device_id, peer_device_name)) => ConnectionReply::Acknowledge {
                event: Some(RuntimeEvent::RemoteHistoryItemsRemoved { peer_device_id, peer_device_name, item_ids }),
            },
            None => ConnectionReply::Acknowledge { event: None },
        },
        TransferRequestBody::UpdateShareState { share_local_history: s } => match trusted_identity(trusted_peers, peer_fingerprint) {
            Some((peer_device_id, peer_device_name)) => ConnectionReply::Acknowledge {
                event: Some(RuntimeEvent::RemoteShareStateChanged { peer_device_id, peer_device_name, share_local_history: s }),
            },
            None => ConnectionReply::Acknowledge { event: None },
        },
        TransferRequestBody::RevokeTrust => match trusted_identity(trusted_peers, peer_fingerprint) {
            Some((peer_device_id, peer_device_name)) => ConnectionReply::Acknowledge {
                event: Some(RuntimeEvent::TrustRevokedByPeer { peer_device_id, peer_device_name }),
            },
            None => ConnectionReply::Acknowledge { event: None },
        },
        TransferRequestBody::FetchHistorySnapshot { limit } => ConnectionReply::SendSnapshot {
            limit: if share_local_history { Some(clamp_snapshot_limit(limit)) } else { None },
        },
        TransferRequestBody::FetchClipboardItem { item_id } => if share_local_history {
            ConnectionReply::SendItem { item_id, with_files: false }
        } else {
            ConnectionReply::Refuse { message: "Remote clipboard sharing is disabled.".to_string() }
        },
        TransferRequestBody::FetchFiles { item_id } => if share_local_history {
            ConnectionReply::SendItem { item_id, with_files: true }
        } else {
            ConnectionReply::Refuse { message: "Remote file sharing is disabled.".to_string() }
        },
    }
}

/// The local items of a list, in order (remote copies are never served).
pub open spec fn local_items(items: Seq<ClipboardItem>) -> Seq<ClipboardItem> {
    items.filter(|i: ClipboardItem| !i.is_remote)
}

/// The snapshot reply for the most recent items: only the local ones.
pub fn snapshot_reply(items: Vec<ClipboardItem>) -> (r: TransferResponse)
    ensures
        r.protocol_version == crate::protocol::TRANSFER_PROTOCOL_VERSION,
        r.body matches TransferResponseBody::HistorySnapshot { items: ws } && ws@.len() == local_items(items@).len()
            && forall|i: int| 0 <= i < ws@.len() ==> wire_item_matches(#[trigger] ws@[i], local_items(items@)[i]),
{
    let ghost pred = |i: ClipboardItem| !i.is_remote;
    let ghost all = items@;
    let _n = items.len();
    let mut local: Vec<ClipboardItem> = Vec::new();
    let mut rest = items;
    let mut k: usize = 0;
    proof {
        assert(all.skip(0) =~= all);
    }
    while rest.len() > 0
        invariant
            k + rest@.len() == all.len(),
            all.len() <= usize::MAX,
            rest@ == all.skip(k as int),
            pred == (|i: ClipboardItem| !i.is_remote),
            local@ == all.take(k as int).filter(pred),
        decreases rest@.len(),
    {
        proof {
            reveal(Seq::filter);
            assert(all.take(k + 1).drop_last() =~= all.take(k as int));
            assert(all.skip(k as int)[0] == all[k as int]);
            assert(all.take(k + 1).last() == all[k as int]);
        }
        let it = rest.remove(0);
        proof {
            assert(rest@ =~= all.skip(k + 1));
        }
        if !it.is_remote {
            local.push(it);
        }
        k = k + 1;
    }
    proof {
        assert(all.take(k as int) =~= all);
    }
    TransferResponse::history_snapshot(local.as_slice())
}

/// The reply to a request for one item: the item when it is local (and holds
/// files, when files are asked for), else an error; and whether the file
/// bytes follow.
pub fn item_reply(found: Option<ClipboardItem>, with_files: bool) -> (r: (TransferResponse, bool))
    ensures
        match found {
            Some(item) if !item.is_remote && (!with_files || item.payload is Files) => r.1 == with_files
                && (r.0.body matches TransferResponseBody::ClipboardItem { item: w, include_files } && include_files == with_files
                && wire_item_matches(w, item)),
            Some(item) if !item.is_remote => !r.1 && (r.0.body matches TransferResponseBody::Error { message }
                && message@ == "Requested history item does not contain transferable files."@),
            _ => !r.1 && (r.0.body matches TransferResponseBody::Error { message } && message@ == if with_files {
                "Requested file history item was not found."@
            } else {
                "Requested clipboard history item was not found."@
            }),
        },
        r.0.protocol_version == crate::protocol::TRANSFER_PROTOCOL_VERSION,
{
    let item = match found {
        Some(item) if !item.is_remote => item,
        _ => {
            let msg = if with_files {
                "Requested file history item was not found.".to_string()
            } else {
                "Requested clipboard history item was not found.".to_string()
            };
            return (TransferResponse::error(msg), false);
        },
    };
    if with_files {
        match &item.payload {
            ClipboardPayload::Files(_) => {},
            ClipboardPayload::Text(_) => {
                return (TransferResponse::error("Requested history item does not contain transferable files.".to_string()), false);
            },
        }
    }
    (TransferResponse::clipboard_item(&item, with_files), with_files)
}

// ---------------------------------------------------------------------------
// Reading a peer's reply.

/// The result of a push-style request: the peer's error message, or success.
pub fn ack_outcome(response: &TransferResponse) -> (r: AppResult<()>)
    ensures
        match response_problem(*response) {
            Some(p) => r matches Err(e) && e.is_network(p),
            None => match response.body {
                TransferResponseBody::Error { message } => r matches Err(e) && e.is_network(message@),
                _ => r is Ok,
            },
        },
{
    response.validate()?;
    match &response.body {
        TransferResponseBody::Error { message } => Err(AppError::Network(message.clone())),
        _ => Ok(()),
    }
}

/// The result of a trust revocation notice: only an acknowledgement counts.
pub fn revoke_outcome(response: &TransferResponse) -> (r: AppResult<()>)
    ensures
        match response_problem(*response) {
            Some(p) => r matches Err(e) && e.is_network(p),
            None => match response.body {
                TransferResponseBody::Ack => r is Ok,
                TransferResponseBody::Error { message } => r matches Err(e) && e.is_network(message@),
                _ => r matches Err(e) && e.is_network("Remote peer returned an unexpected trust revocation response."@),
            },
        },
{
    response.validate()?;
    match &response.body {
        TransferResponseBody::Ack => Ok(()),
        TransferResponseBody::Error { message } => Err(AppError::Network(message.clone())),
        _ => Err(AppError::Network("Remote peer returned an unexpected trust revocation response.".to_string())),
    }
}

/// The items of a history snapshot reply, as metadata-only remote items.
pub fn snapshot_outcome(response: TransferResponse) -> (r: AppResult<Vec<ClipboardItem>>)
    ensures
        match response_problem(response) {
            Some(p) => r matches Err(e) && e.is_network(p),
            None => match response.body {
                TransferResponseBody::HistorySnapshot { items } => r matches Ok(v) && v@.len() == items@.len()
                    && forall|i: int| 0 <= i < v@.len() ==> (#[trigger] v@[i])@ == arrived_item(items@[i], metadata_payload(items@[i])),
                TransferResponseBody::Error { message } => r matches Err(e) && e.is_network(message@),
                _ => r matches Err(e) && e.is_network("Remote peer returned an unexpected history snapshot response."@),
            },
        },
{
    response.validate()?;
    match response.body {
        TransferResponseBody::HistorySnapshot { items } => {
            let ghost ws = items@;
            let _n = items.len();
            let mut out: Vec<ClipboardItem> = Vec::new();
            let mut rest = items;
            let mut k: usize = 0;
            proof {
                assert(crate::protocol::first_snapshot_problem(ws.skip(0)) is None) by {
                    assert(ws.skip(0) =~= ws);
                }
            }
            while rest.len() > 0
                invariant
                    k + rest@.len() == ws.len(),
                    ws.len() <= usize::MAX,
                    rest@ == ws.skip(k as int),
                    crate::protocol::first_snapshot_problem(ws.skip(k as int)) is None,
                    out@.len() == k,
                    forall|i: int| 0 <= i < k ==> (#[trigger] out@[i])@ == arrived_item(ws[i], metadata_payload(ws[i])),
                decreases rest@.len(),
            {
                let w = rest.remove(0);
                proof {
                    assert(ws.skip(k as int)[0] == ws[k as int]);
                    assert(ws.skip(k as int).drop_first() =~= ws.skip(k + 1));
                }
                match w.into_metadata_item() {
                    Ok(item) => out.push(item),
                    Err(e) => {
                        return Err(e);
                    },
                }
                proof {
                    assert(rest@ =~= ws.skip(k + 1));
                }
                k = k + 1;
            }
            Ok(out)
        },
        TransferResponseBody::Error { message } => Err(AppError::Network(message)),
        _ => Err(AppError::Network("Remote peer returned an unexpected history snapshot response.".to_string())),
    }
}

/// The message given for an unexpected reply to an item request.
pub open spec fn unexpected_item_reply(for_files: bool) -> Seq<char> {
    if for_files {
        "Remote peer returned an unexpected file transfer response."@
    } else {
        "Remote peer returned an unexpected clipboard item response."@
    }
}

/// The item of a reply to an item (or files) request, and whether its file
/// bytes follow on the stream.
pub fn item_outcome(response: TransferResponse, for_files: bool) -> (r: AppResult<(WireClipboardItem, bool)>)
    ensures
        match response_problem(response) {
            Some(p) => r matches Err(e) && e.is_network(p),
            None => match response.body {
                TransferResponseBody::ClipboardItem { item, include_files } => r matches Ok((w, f)) && w == item && f == include_files,
                TransferResponseBody::Error { message } => r matches Err(e) && e.is_network(message@),
                _ => r matches Err(e) && e.is_network(unexpected_item_reply(for_files)),
            },
        },
{
    response.validate()?;
    match response.body {
        TransferResponseBody::ClipboardItem { item, include_files } => Ok((item, include_files)),
        TransferResponseBody::Error { message } => Err(AppError::Network(message)),
        _ => {
            let m = if for_files {
                "Remote peer returned an unexpected file transfer response.".to_string()
            } else {
                "Remote peer returned an unexpected clipboard item response.".to_string()
            };
            Err(AppError::Network(m))
        },
    }
}

/// Whether a received item comes with file bytes to store.
pub fn expects_file_bytes(item: &WireClipboardItem, include_files: bool) -> (r: bool)
    ensures
        r == (item.kind == crate::model::ClipboardKind::Files && include_files),
{
    match item.kind {
        crate::model::ClipboardKind::Files => include_files,
        crate::model::ClipboardKind::Text => false,
    }
}

// ---------------------------------------------------------------------------
// Length-prefixed frames.

/// The four big-endian bytes of a frame length.
pub open spec fn be_bytes(n: u32) -> Seq<u8> {
    seq![(n >> 24u32) as u8, ((n >> 16u32) & 0xffu32) as u8, ((n >> 8u32) & 0xffu32) as u8, (n & 0xffu32) as u8]
}

/// The value of four big-endian bytes.
pub open spec fn be_value(b: Seq<u8>) -> u32 {
    ((b[0] as u32) << 24u32) | ((b[1] as u32) << 16u32) | ((b[2] as u32) << 8u32) | (b[3] as u32)
}

/// The header of a frame of `len` bytes; refused for an empty frame or one
/// beyond the protocol limit.
pub fn frame_header(len: usize) -> (r: AppResult<Vec<u8>>)
    ensures
        match r {
            Ok(h) => 0 < len <= crate::constants::MAX_PROTOCOL_FRAME_BYTES && h@ == be_bytes(len as u32),
            Err(e) => (len == 0 || len > crate::constants::MAX_PROTOCOL_FRAME_BYTES) && e.is_network(
                "Protocol frame size "@ + decimal_spec(len as nat) + " is invalid."@,
            ),
        },
{
    if len == 0 || len > crate::constants::MAX_PROTOCOL_FRAME_BYTES {
        let mut m = chars_of("Protocol frame size ");
        let d = decimal_chars(len as u64);
        extend_chars(&mut m, d.as_slice());
        extend_str(&mut m, " is invalid.");
        return Err(AppError::Network(string_of(m.as_slice())));
    }
    let n: u32 = len as u32;
    let mut h: Vec<u8> = Vec::new();
    h.push((n >> 24u32) as u8);
    h.push(((n >> 16u32) & 0xffu32) as u8);
    h.push(((n >> 8u32) & 0xffu32) as u8);
    h.push((n & 0xffu32) as u8);
    proof {
        assert(h@ =~= be_bytes(n));
    }
    Ok(h)
}

/// The length announced by a frame header; refused when it is zero or beyond
/// the protocol limit.
pub fn frame_length(header: &[u8]) -> (r: AppResult<usize>)
    requires
        header@.len() == 4,
    ensures
        match r {
            Ok(n) => n == be_value(header@) && 0 < n <= crate::constants::MAX_PROTOCOL_FRAME_BYTES,
            Err(e) => (be_value(header@) == 0 || be_value(header@) > crate::constants::MAX_PROTOCOL_FRAME_BYTES)
                && e.is_network("Protocol frame length "@ + decimal_spec(be_value(header@) as nat) + " is invalid."@),
        },
{
    let n: u32 = ((header[0] as u32) << 24u32) | ((header[1] as u32) << 16u32) | ((header[2] as u32) << 8u32) | (header[3] as u32);
    if n == 0 || n as usize > crate::constants::MAX_PROTOCOL_FRAME_BYTES {
        let mut m = chars_of("Protocol frame length ");
        let d = decimal_chars(n as u64);
        extend_chars(&mut m, d.as_slice());
        extend_str(&mut m, " is invalid.");
        return Err(AppError::Network(string_of(m.as_slice())));
    }
    Ok(n as usize)
}

/// A frame header read back gives the length it was written for.
pub proof fn lemma_frame_header_roundtrip(n: u32)
    ensures
        be_value(be_bytes(n)) == n,
{
    let b = be_bytes(n);
    let b0 = (n >> 24u32) as u8;
    let b1 = ((n >> 16u32) & 0xffu32) as u8;
    let b2 = ((n >> 8u32) & 0xffu32) as u8;
    let b3 = (n & 0xffu32) as u8;
    assert(b[0] == b0 && b[1] == b1 && b[2] == b2 && b[3] == b3);
    assert(((b0 as u32) << 24u32) | ((b1 as u32) << 16u32) | ((b2 as u32) << 8u32) | (b3 as u32) == n) by (bit_vector)
        requires
            b0 == (n >> 24u32) as u8,
            b1 == ((n >> 16u32) & 0xffu32) as u8,
            b2 == ((n >> 8u32) & 0xffu32) as u8,
            b3 == (n & 0xffu32) as u8,
    ;
}

// ---------------------------------------------------------------------------
// Progress of a file download.

/// Progress reports of one download: a report is due when the bytes done
/// reach the next threshold or the total.
#[derive(Debug)]
pub struct ProgressTracker {
    pub snapshot: FileTransferProgress,
    pub next_emit_at: u64,
}

/// `a + b`, saturating at the largest `u64`.
pub open spec fn sat_add(a: u64, b: u64) -> u64 {
    if a + b > u64::MAX { u64::MAX } else { (a + b) as u64 }
}

impl ProgressTracker {
    /// A tracker for a download of `bytes_total` bytes; the first report is due at once.
    pub fn new(item_id: u128, source_device_name: String, summary: String, bytes_total: u64) -> (r: Self)
        ensures
            r.snapshot == (FileTransferProgress { item_id, source_device_name, summary, bytes_done: 0, bytes_total }),
            r.next_emit_at == 0,
    {
        ProgressTracker {
            snapshot: FileTransferProgress { item_id, source_device_name, summary, bytes_done: 0, bytes_total },
            next_emit_at: 0,
        }
    }

    /// Records that `bytes_done` bytes arrived (capped at the total) and
    /// returns the report when one is due.
    pub fn emit(&mut self, bytes_done: u64) -> (r: Option<FileTransferProgress>)
        ensures
            final(self).snapshot == (FileTransferProgress {
                bytes_done: if bytes_done < old(self).snapshot.bytes_total { bytes_done } else { old(self).snapshot.bytes_total },
                ..old(self).snapshot
            }),
            if final(self).snapshot.bytes_done >= old(self).next_emit_at || final(self).snapshot.bytes_done == final(self).snapshot.bytes_total {
                r == Some(final(self).snapshot) && final(self).next_emit_at == sat_add(final(self).snapshot.bytes_done, crate::constants::PROGRESS_EMIT_GRANULARITY_BYTES)
            } else {
                r is None && final(self).next_emit_at == old(self).next_emit_at
            },
    {
        self.snapshot.bytes_done = if bytes_done < self.snapshot.bytes_total { bytes_done } else { self.snapshot.bytes_total };
        if self.snapshot.bytes_done >= self.next_emit_at || self.snapshot.bytes_done == self.snapshot.bytes_total {
            self.next_emit_at = self.snapshot.bytes_done.saturating_add(crate::constants::PROGRESS_EMIT_GRANULARITY_BYTES);
            Some(self.snapshot.clone())
        } else {
            None
        }
    }

    /// Records `bytes_delta` more bytes.
    pub fn advance(&mut self, bytes_delta: u64) -> (r: Option<FileTransferProgress>)
        ensures
            final(self).snapshot.bytes_done == if sat_add(old(self).snapshot.bytes_done, bytes_delta) < old(self).snapshot.bytes_total {
                sat_add(old(self).snapshot.bytes_done, bytes_delta)
            } else {
                old(self).snapshot.bytes_total
            },
            final(self).snapshot.bytes_total == old(self).snapshot.bytes_total,
            r matches Some(p) ==> p == final(self).snapshot,
            (final(self).snapshot.bytes_done >= old(self).next_emit_at || final(self).snapshot.bytes_done == final(self).snapshot.bytes_total) <==> r is Some,
    {
        let target = self.snapshot.bytes_done.saturating_add(bytes_delta);
        self.emit(target)
    }

    /// Records that the download is complete; the final report always goes out.
    pub fn finish(&mut self) -> (r: Option<FileTransferProgress>)
        ensures
            r matches Some(p) && p.bytes_done == p.bytes_total && p == final(self).snapshot,
            final(self).snapshot.bytes_total == old(self).snapshot.bytes_total,
    {
        let total = self.snapshot.bytes_total;
        self.emit(total)
    }
}

/// The key of a pooled connection to a peer: its fingerprint, or its device
/// id when it has none.
pub fn peer_connection_key_ref<'a>(device_id: &'a str, fingerprint: &'a str) -> (r: &'a str)
    ensures
        r@ == if fingerprint@.len() == 0 { device_id@ } else { fingerprint@ },
{
    if fingerprint.is_empty() {
        device_id
    } else {
        fingerprint
    }
}

/// Whether a pooled connection can serve a peer: same address, same
/// fingerprint, not closed.
pub fn cached_connection_usable(entry_address: &crate::discovery::SocketAddress, entry_fingerprint: &str, closed: bool, address: &crate::discovery::SocketAddress, fingerprint: &str) -> (r: bool)
    ensures
        r == (entry_address.ip@ == address.ip@ && entry_address.port == address.port && entry_fingerprint@ == fingerprint@ && !closed),
{
    str_eq(entry_address.ip.as_str(), address.ip.as_str()) && entry_address.port == address.port && str_eq(entry_fingerprint, fingerprint) && !closed
}

/// Whether a pooled connection is superseded by a new connection to a peer
/// with a fingerprint: same fingerprint under another key.
pub fn pooled_connection_superseded(entry_key: &str, entry_fingerprint: &str, new_key: &str, fingerprint: &str) -> (r: bool)
    ensures
        r == (fingerprint@.len() > 0 && entry_fingerprint@ == fingerprint@ && entry_key@ != new_key@),
{
    !fingerprint.is_empty() && str_eq(entry_fingerprint, fingerprint) && !str_eq(entry_key, new_key)
}

} // verus!
