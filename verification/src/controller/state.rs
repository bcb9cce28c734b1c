//! What the controller keeps between events, and the decisions it takes on
//! each runtime event; the work with disks, clipboard and network is done by
//! the caller with what these functions return.

use vstd::prelude::*;

use crate::controller::presenter::{format_bytes, format_bytes_spec};
use crate::config::AppConfig;
use crate::constants::MAX_HISTORY_SNAPSHOT_ITEMS;
use crate::controller::devices::{forget_device, forget_text, lookup_spec, record_device, without_device};
use crate::controller::remote::{placeholder_view, RemoteHistoryItem};
use crate::controller::types::{pending_views, ActiveTransferState, PendingTrustRequest, PendingTrustView};
use crate::error::{network_error, AppError};
use crate::controller::trust::{announced_record, fingerprint_listed};
use crate::model::{
    trusted_views, TrustedPeerView, clone_opt_string, file_views, opt_view, peer_views, ClipboardItem, ClipboardKind, ClipboardPayload,
    DiscoveredPeer, FileDescriptor, FileView, ItemView, PayloadView, PeerView, TrustedPeer,
};
use crate::runtime::{
    find_discovered, peer_pos, contains_text, fingerprint_among, has_text, trusted_fingerprint_set, FileTransferProgress, RuntimeCommand,
};
use crate::text::{chars_of, decimal_spec, extend_str, string_of, str_eq};

verus! {

/// Joins three texts.
pub fn join3(head: &str, middle: &str, tail: &str) -> (r: String)
    ensures
        r@ == head@ + middle@ + tail@,
{
    let mut v = chars_of(head);
    extend_str(&mut v, middle);
    extend_str(&mut v, tail);
    string_of(v.as_slice())
}

/// The headline of a file download in progress.
pub fn transfer_progress_label(source_device_name: &str) -> (r: String)
    ensures
        r@ == "正在接收来自 "@ + source_device_name@ + " 的文件"@,
{
    join3("正在接收来自 ", source_device_name, " 的文件")
}

/// The detail line of a file download: summary, bytes received and bytes
/// expected (never fewer than received).
pub open spec fn transfer_detail_spec(summary: Seq<char>, done: u64, total: u64) -> Seq<char> {
    summary + " · "@ + format_bytes_spec(done) + " / "@ + format_bytes_spec(if total < done { done } else { total })
}

/// The detail line of a file download in progress.
pub fn transfer_progress_detail(summary: &str, bytes_done: u64, bytes_total: u64) -> (r: String)
    ensures
        r@ == transfer_detail_spec(summary@, bytes_done, bytes_total),
{
    let mut v = chars_of(summary);
    extend_str(&mut v, " · ");
    let d = format_bytes(bytes_done);
    extend_str(&mut v, d.as_str());
    extend_str(&mut v, " / ");
    let t = format_bytes(if bytes_total < bytes_done { bytes_done } else { bytes_total });
    extend_str(&mut v, t.as_str());
    string_of(v.as_slice())
}

/// The download state a progress report describes.
pub open spec fn progress_state_matches(a: ActiveTransferState, p: FileTransferProgress) -> bool {
    &&& a.item_id == p.item_id
    &&& a.source_device_name@ == p.source_device_name@
    &&& a.summary@ == p.summary@
    &&& a.bytes_done == p.bytes_done
    &&& a.bytes_total == p.bytes_total
}

/// Records a progress report; says whether it changed the download shown.
pub fn apply_transfer_progress(active: &mut Option<ActiveTransferState>, progress: FileTransferProgress) -> (changed: bool)
    ensures
        changed == !(*old(active) matches Some(a) && progress_state_matches(a, progress)),
        changed ==> (*final(active) matches Some(a) && progress_state_matches(a, progress)),
        !changed ==> *final(active) == *old(active),
{
    let same = match active {
        Some(current) => current.item_id == progress.item_id && current.bytes_done == progress.bytes_done
            && current.bytes_total == progress.bytes_total && str_eq(current.summary.as_str(), progress.summary.as_str())
            && str_eq(current.source_device_name.as_str(), progress.source_device_name.as_str()),
        None => false,
    };
    if !same {
        *active = Some(ActiveTransferState {
            item_id: progress.item_id,
            source_device_name: progress.source_device_name,
            summary: progress.summary,
            bytes_done: progress.bytes_done,
            bytes_total: progress.bytes_total,
        });
    }
    !same
}

/// The last file of `files` with the relative path, if any.
pub open spec fn last_with_path(files: Seq<FileView>, rel: Seq<char>) -> Option<FileView>
    decreases files.len(),
{
    if files.len() == 0 {
        None
    } else if files.last().relative_path == rel {
        Some(files.last())
    } else {
        last_with_path(files.drop_last(), rel)
    }
}

/// A path that is present on disk (it is among `present`).
pub open spec fn present_path(present: Seq<String>, p: Option<Seq<char>>) -> bool {
    p matches Some(x) && has_text(present, x)
}

/// A file of a re-activated item with what is known of the same path: a
/// local copy that is gone is replaced by the known copy when that one is
/// present, and a missing source path is taken from the known file.
pub open spec fn merge_file(f: FileView, known: Seq<FileView>, present: Seq<String>) -> FileView {
    match last_with_path(known, f.relative_path) {
        None => f,
        Some(k) => FileView {
            local_path: if present_path(present, f.local_path) {
                f.local_path
            } else if present_path(present, k.local_path) {
                k.local_path
            } else {
                None
            },
            source_path: if f.source_path is None {
                k.source_path
            } else {
                f.source_path
            },
            ..f
        },
    }
}

/// An item merged with the known state of the same item: the later creation
/// time, the known pin, and the files merged path by path.
pub open spec fn merged_item(item: ItemView, existing: Option<ItemView>, present: Seq<String>) -> ItemView {
    match existing {
        None => item,
        Some(ex) => ItemView {
            created_at: if ex.created_at > item.created_at {
                ex.created_at
            } else {
                item.created_at
            },
            is_pinned: ex.is_pinned,
            payload: match (item.payload, ex.payload) {
                (PayloadView::Files(fs), PayloadView::Files(known)) => PayloadView::Files(
                    fs.map_values(|f: FileView| merge_file(f, known, present)),
                ),
                _ => item.payload,
            },
            ..item
        },
    }
}

fn find_last_with_path(files: &Vec<FileDescriptor>, rel: &str) -> (r: Option<usize>)
    ensures
        match r {
            Some(k) => k < files@.len() && last_with_path(file_views(files@), rel@) == Some(files@[k as int]@),
            None => last_with_path(file_views(files@), rel@) is None,
        },
{
    let ghost fv = file_views(files@);
    let mut i: usize = files.len();
    proof {
        assert(fv.take(i as int) =~= fv);
    }
    while i > 0
        invariant
            i <= files@.len(),
            fv == file_views(files@),
            last_with_path(fv, rel@) == last_with_path(fv.take(i as int), rel@),
        decreases i,
    {
        proof {
            assert(fv.take(i as int).drop_last() =~= fv.take(i - 1));
            assert(fv.take(i as int).last() == files@[i - 1]@);
        }
        if str_eq(files[i - 1].relative_path.as_str(), rel) {
            return Some(i - 1);
        }
        i = i - 1;
    }
    proof {
        assert(fv.take(0) =~= Seq::<FileView>::empty());
    }
    None
}

fn is_present(present: &Vec<String>, p: &Option<String>) -> (r: bool)
    ensures
        r == present_path(present@, opt_view(*p)),
{
    match p {
        Some(x) => contains_text(present, x.as_str()),
        None => false,
    }
}

fn merge_file_exec(f: FileDescriptor, known: &Vec<FileDescriptor>, present: &Vec<String>) -> (r: FileDescriptor)
    ensures
        r@ == merge_file(f@, file_views(known@), present@),
{
    match find_last_with_path(known, f.relative_path.as_str()) {
        None => f,
        Some(k) => {
            let kf = &known[k];
            let mut f = f;
            if !is_present(present, &f.local_path) {
                f.local_path = if is_present(present, &kf.local_path) {
                    clone_opt_string(&kf.local_path)
                } else {
                    None
                };
            }
            if f.source_path.is_none() {
                f.source_path = clone_opt_string(&kf.source_path);
            }
            f
        },
    }
}

/// Merges a re-activated item with what is known of it (`existing`);
/// `present` lists the paths that exist on disk.
pub fn merge_item_with_existing_state(
    item: ClipboardItem,
    existing: Option<ClipboardItem>,
    present: &Vec<String>,
) -> (r: ClipboardItem)
    ensures
        r@ == merged_item(item@, match existing {
            Some(e) => Some(e@),
            None => None,
        }, present@),
{
    let existing = match existing {
        None => {
            return item;
        },
        Some(e) => e,
    };
    let mut item = item;
    if existing.created_at > item.created_at {
        item.created_at = existing.created_at;
    }
    item.is_pinned = existing.is_pinned;
    let ghost item0 = item@;
    match (item.payload, &existing.payload) {
        (ClipboardPayload::Files(files), ClipboardPayload::Files(known)) => {
            let ghost fs = file_views(files@);
            let mut out: Vec<FileDescriptor> = Vec::new();
            let mut rest = files;
            let ghost orig = rest@;
            let n = rest.len();
            let mut i: usize = 0;
            while i < n
                invariant
                    n == orig.len(),
                    i <= orig.len(),
                    fs == file_views(orig),
                    rest@ == orig.skip(i as int),
                    file_views(out@) == fs.take(i as int).map_values(|f: FileView| merge_file(f, file_views(known@), present@)),
                decreases orig.len() - i,
            {
                let ghost before = file_views(out@);
                let f = rest.remove(0);
                proof {
                    assert(f == orig[i as int]);
                    assert(rest@ =~= orig.skip(i + 1));
                }
                let m = merge_file_exec(f, known, present);
                out.push(m);
                proof {
                    assert(file_views(out@) =~= before.push(m@));
                    assert(fs.take(i + 1).map_values(|f: FileView| merge_file(f, file_views(known@), present@))
                        =~= fs.take(i as int).map_values(|f: FileView| merge_file(f, file_views(known@), present@)).push(
                        merge_file(fs[i as int], file_views(known@), present@),
                    ));
                }
                i = i + 1;
            }
            proof {
                assert(fs.take(i as int) =~= fs);
            }
            item.payload = ClipboardPayload::Files(out);
        },
        (payload, _) => {
            item.payload = payload;
        },
    }
    item
}

/// The item pasting should bring back: the newest local one, or the newest
/// remote one when remote items are preferred and it is newer (or there is
/// no local one).
pub open spec fn preferred_latest_spec(local: Option<ItemView>, remote: Option<ItemView>, prefer_remote: bool) -> Option<ItemView> {
    match (local, remote) {
        (Some(l), Some(r)) => if prefer_remote && r.created_at > l.created_at {
            Some(r)
        } else {
            Some(l)
        },
        (Some(l), None) => Some(l),
        (None, Some(r)) => if prefer_remote {
            Some(r)
        } else {
            None
        },
        (None, None) => None,
    }
}

/// Chooses the item pasting should bring back.
pub fn preferred_latest_item(
    latest_local: Option<ClipboardItem>,
    latest_remote: Option<ClipboardItem>,
    prefer_remote: bool,
) -> (r: Option<ClipboardItem>)
    ensures
        match r {
            Some(x) => preferred_latest_spec(
                match latest_local { Some(l) => Some(l@), None => None },
                match latest_remote { Some(m) => Some(m@), None => None },
                prefer_remote,
            ) == Some(x@),
            None => preferred_latest_spec(
                match latest_local { Some(l) => Some(l@), None => None },
                match latest_remote { Some(m) => Some(m@), None => None },
                prefer_remote,
            ) is None,
        },
{
    match (latest_local, latest_remote) {
        (Some(l), Some(r)) => {
            if prefer_remote && r.created_at > l.created_at {
                Some(r)
            } else {
                Some(l)
            }
        },
        (Some(l), None) => Some(l),
        (None, Some(r)) => {
            if prefer_remote {
                Some(r)
            } else {
                None
            }
        },
        (None, None) => None,
    }
}

/// The controller's state between events.
pub struct ControllerState {
    /// The peers announced on the network, each id once.
    pub discovered: Vec<DiscoveredPeer>,
    /// When each device was last seen (Unix nanoseconds).
    pub device_last_seen: Vec<(String, i128)>,
    /// Whether each online peer shares its history.
    pub remote_share_enabled: Vec<(String, bool)>,
    /// Peers whose history was requested since they came online.
    pub requested_history_sync_peers: Vec<String>,
    /// Peers told the local share state since they came online.
    pub announced_share_state_peers: Vec<String>,
    /// Trust requests awaiting the user's answer.
    pub pending_trust_requests: Vec<PendingTrustRequest>,
    /// The remote item whose content is being fetched for pasting.
    pub pending_remote_activation: Option<u128>,
    /// The file download in progress.
    pub active_transfer: Option<ActiveTransferState>,
    /// The status line.
    pub status: Option<String>,
}

/// Some peer of `ps` has the device id.
pub open spec fn online_id(ps: Seq<PeerView>, id: Seq<char>) -> bool {
    exists|k: int| 0 <= k < ps.len() && (#[trigger] ps[k]).device_id == id
}

/// The time of the last peer of `ps` with the device id.
pub open spec fn last_seen_in(ps: Seq<PeerView>, id: Seq<char>) -> Option<i128>
    decreases ps.len(),
{
    if ps.len() == 0 {
        None
    } else if ps.last().device_id == id {
        Some(ps.last().last_seen)
    } else {
        last_seen_in(ps.drop_last(), id)
    }
}

/// The pairs of `list` whose device id is online, in order.
pub open spec fn online_pairs<V>(list: Seq<(String, V)>, ps: Seq<PeerView>) -> Seq<(String, V)>
    decreases list.len(),
{
    if list.len() == 0 {
        seq![]
    } else if online_id(ps, list.last().0@) {
        online_pairs(list.drop_last(), ps).push(list.last())
    } else {
        online_pairs(list.drop_last(), ps)
    }
}

/// The texts of `list` that are online device ids, in order.
pub open spec fn online_texts(list: Seq<String>, ps: Seq<PeerView>) -> Seq<String>
    decreases list.len(),
{
    if list.len() == 0 {
        seq![]
    } else if online_id(ps, list.last()@) {
        online_texts(list.drop_last(), ps).push(list.last())
    } else {
        online_texts(list.drop_last(), ps)
    }
}

fn peer_listed(peers: &Vec<DiscoveredPeer>, id: &str) -> (r: bool)
    ensures
        r == online_id(peer_views(peers@), id@),
{
    let ghost pv = peer_views(peers@);
    let mut i: usize = 0;
    while i < peers.len()
        invariant
            i <= peers@.len(),
            pv == peer_views(peers@),
            forall|k: int| 0 <= k < i ==> (#[trigger] pv[k]).device_id != id@,
        decreases peers@.len() - i,
    {
        if str_eq(peers[i].device_id.as_str(), id) {
            proof {
                assert(pv[i as int].device_id == id@);
            }
            return true;
        }
        i = i + 1;
    }
    false
}

fn same_peer(a: &DiscoveredPeer, b: &DiscoveredPeer) -> (r: bool)
    ensures
        r == (a@ == b@),
{
    str_eq(a.device_id.as_str(), b.device_id.as_str()) && str_eq(a.device_name.as_str(), b.device_name.as_str())
        && str_eq(a.host.as_str(), b.host.as_str()) && str_eq(a.address.as_str(), b.address.as_str())
        && a.port == b.port && str_eq(a.fingerprint.as_str(), b.fingerprint.as_str()) && a.last_seen == b.last_seen
}

fn same_peers(a: &Vec<DiscoveredPeer>, b: &Vec<DiscoveredPeer>) -> (r: bool)
    ensures
        r == (peer_views(a@) == peer_views(b@)),
{
    if a.len() != b.len() {
        proof {
            assert(peer_views(a@).len() != peer_views(b@).len());
        }
        return false;
    }
    let mut i: usize = 0;
    while i < a.len()
        invariant
            i <= a@.len(),
            a@.len() == b@.len(),
            forall|k: int| 0 <= k < i ==> (#[trigger] a@[k])@ == b@[k]@,
        decreases a@.len() - i,
    {
        if !same_peer(&a[i], &b[i]) {
            proof {
                assert(peer_views(a@)[i as int] != peer_views(b@)[i as int]);
            }
            return false;
        }
        i = i + 1;
    }
    proof {
        assert(peer_views(a@) =~= peer_views(b@));
    }
    true
}

fn retain_online_pairs<V>(list: Vec<(String, V)>, peers: &Vec<DiscoveredPeer>) -> (r: Vec<(String, V)>)
    ensures
        r@ == online_pairs(list@, peer_views(peers@)),
{
    let ghost orig = list@;
    let mut rest = list;
    let mut out: Vec<(String, V)> = Vec::new();
    let n = rest.len();
    let mut i: usize = 0;
    while i < n
        invariant
            n == orig.len(),
            i <= n,
            rest@ == orig.skip(i as int),
            out@ == online_pairs(orig.take(i as int), peer_views(peers@)),
        decreases n - i,
    {
        let pair = rest.remove(0);
        proof {
            assert(pair == orig[i as int]);
            assert(rest@ =~= orig.skip(i + 1));
            assert(orig.take(i + 1).drop_last() =~= orig.take(i as int));
            assert(orig.take(i + 1).last() == pair);
        }
        if peer_listed(peers, pair.0.as_str()) {
            out.push(pair);
        }
        i = i + 1;
    }
    proof {
        assert(orig.take(i as int) =~= orig);
    }
    out
}

fn retain_online_texts(list: Vec<String>, peers: &Vec<DiscoveredPeer>) -> (r: Vec<String>)
    ensures
        r@ == online_texts(list@, peer_views(peers@)),
{
    let ghost orig = list@;
    let mut out: Vec<String> = Vec::new();
    let mut i: usize = 0;
    while i < list.len()
        invariant
            i <= list@.len(),
            orig == list@,
            out@ == online_texts(orig.take(i as int), peer_views(peers@)),
        decreases list@.len() - i,
    {
        proof {
            assert(orig.take(i + 1).drop_last() =~= orig.take(i as int));
            assert(orig.take(i + 1).last() == list@[i as int]);
        }
        if peer_listed(peers, list[i].as_str()) {
            out.push(list[i].clone());
        }
        i = i + 1;
    }
    proof {
        assert(orig.take(i as int) =~= orig);
    }
    out
}

/// A trust request is superseded by a new one with the same request id, or
/// from the same device with the same fingerprint.
pub open spec fn superseded(r: PendingTrustView, request_id: u128, peer: PeerView) -> bool {
    r.request_id == request_id || (r.device_id == peer.device_id && r.fingerprint == peer.fingerprint)
}

/// The requests of `s` not superseded, in order.
pub open spec fn kept_requests(s: Seq<PendingTrustView>, request_id: u128, peer: PeerView) -> Seq<PendingTrustView>
    decreases s.len(),
{
    if s.len() == 0 {
        seq![]
    } else if superseded(s.last(), request_id, peer) {
        kept_requests(s.drop_last(), request_id, peer)
    } else {
        kept_requests(s.drop_last(), request_id, peer).push(s.last())
    }
}

/// History sync decisions so far: the snapshot requests to send, the peers
/// requested and announced to, and whether the share state must be sent.
pub ghost struct SyncView {
    pub requests: Seq<(Seq<char>, usize)>,
    pub requested: Set<Seq<char>>,
    pub announced: Set<Seq<char>>,
    pub announce: bool,
}

/// The decision for one online peer: a trusted peer (by non-empty
/// fingerprint) gets a snapshot request and the share state once.
pub open spec fn sync_step(st: SyncView, p: PeerView, trusted: Seq<TrustedPeer>, limit: usize) -> SyncView {
    if p.fingerprint.len() == 0 || !fingerprint_among(trusted, trusted.len() as int, p.fingerprint) {
        st
    } else {
        let st1 = if st.requested.contains(p.device_id) {
            st
        } else {
            SyncView { requests: st.requests.push((p.device_id, limit)), requested: st.requested.insert(p.device_id), ..st }
        };
        if st1.announced.contains(p.device_id) {
            st1
        } else {
            SyncView { announced: st1.announced.insert(p.device_id), announce: true, ..st1 }
        }
    }
}

/// The decisions for the online peers in order.
pub open spec fn sync_fold(ps: Seq<PeerView>, st: SyncView, trusted: Seq<TrustedPeer>, limit: usize) -> SyncView
    decreases ps.len(),
{
    if ps.len() == 0 {
        st
    } else {
        sync_step(sync_fold(ps.drop_last(), st, trusted, limit), ps.last(), trusted, limit)
    }
}

/// The history limit asked of a peer: the local limit clamped to the
/// snapshot maximum.
pub open spec fn snapshot_limit(history_limit: usize) -> usize {
    if history_limit < 1 {
        1
    } else if history_limit > MAX_HISTORY_SNAPSHOT_ITEMS {
        MAX_HISTORY_SNAPSHOT_ITEMS
    } else {
        history_limit
    }
}

/// What to send to peers after a change of the online or trusted peers.
pub struct HistorySyncPlan {
    /// Snapshot requests: peer device id and item limit.
    pub requests: Vec<(String, usize)>,
    /// The share state to announce, if some peer has not heard it.
    pub announce_share_state: Option<bool>,
}

/// Abstract values of snapshot requests.
pub open spec fn request_views(s: Seq<(String, usize)>) -> Seq<(Seq<char>, usize)> {
    s.map_values(|r: (String, usize)| (r.0@, r.1))
}

/// Texts of a list as a set.
pub open spec fn text_set(s: Seq<String>) -> Set<Seq<char>> {
    Set::new(|x: Seq<char>| has_text(s, x))
}

impl ControllerState {
    /// Nothing known yet.
    pub fn new() -> (r: Self)
        ensures
            r.discovered@.len() == 0,
            r.device_last_seen@.len() == 0,
            r.remote_share_enabled@.len() == 0,
            r.requested_history_sync_peers@.len() == 0,
            r.announced_share_state_peers@.len() == 0,
            r.pending_trust_requests@.len() == 0,
            r.pending_remote_activation is None,
            r.active_transfer is None,
            r.status is None,
    {
        ControllerState {
            discovered: Vec::new(),
            device_last_seen: Vec::new(),
            remote_share_enabled: Vec::new(),
            requested_history_sync_peers: Vec::new(),
            announced_share_state_peers: Vec::new(),
            pending_trust_requests: Vec::new(),
            pending_remote_activation: None,
            active_transfer: None,
            status: None,
        }
    }

    /// Sets the status line.
    pub fn set_status(&mut self, status: String)
        ensures
            final(self).status == Some(status),
            final(self).discovered == old(self).discovered,
            final(self).pending_trust_requests == old(self).pending_trust_requests,
            final(self).pending_remote_activation == old(self).pending_remote_activation,
    {
        self.status = Some(status);
    }

    /// Takes in the list of online peers: records when each was seen, keeps
    /// the share flags and sync marks of online peers only, and says whether
    /// the list changed.
    #[verifier::loop_isolation(false)]
    pub fn observe_peer_list(&mut self, peers: Vec<DiscoveredPeer>) -> (changed: bool)
        ensures
            changed == (peer_views(old(self).discovered@) != peer_views(peers@)),
            peer_views(final(self).discovered@) == peer_views(peers@),
            forall|id: Seq<char>| #[trigger] lookup_spec(final(self).device_last_seen@, id) == match last_seen_in(peer_views(peers@), id) {
                Some(t) => Some(t),
                None => lookup_spec(old(self).device_last_seen@, id),
            },
            final(self).remote_share_enabled@ == online_pairs(old(self).remote_share_enabled@, peer_views(peers@)),
            final(self).requested_history_sync_peers@ == online_texts(old(self).requested_history_sync_peers@, peer_views(peers@)),
            final(self).announced_share_state_peers@ == online_texts(old(self).announced_share_state_peers@, peer_views(peers@)),
            final(self).pending_trust_requests == old(self).pending_trust_requests,
            final(self).pending_remote_activation == old(self).pending_remote_activation,
            final(self).status == old(self).status,
    {
        let changed = !same_peers(&self.discovered, &peers);
        let ghost pv = peer_views(peers@);
        let mut seen: Vec<(String, i128)> = Vec::new();
        core::mem::swap(&mut seen, &mut self.device_last_seen);
        let ghost seen0 = seen@;
        let mut i: usize = 0;
        while i < peers.len()
            invariant
                i <= peers@.len(),
                pv == peer_views(peers@),
                forall|id: Seq<char>| #[trigger] lookup_spec(seen@, id) == match last_seen_in(pv.take(i as int), id) {
                    Some(t) => Some(t),
                    None => lookup_spec(seen0, id),
                },
            decreases peers@.len() - i,
        {
            record_device(&mut seen, peers[i].device_id.as_str(), peers[i].last_seen);
            proof {
                assert(pv.take(i + 1).drop_last() =~= pv.take(i as int));
                assert(pv.take(i + 1).last() == peers@[i as int]@);
            }
            i = i + 1;
        }
        proof {
            assert(pv.take(i as int) =~= pv);
        }
        self.device_last_seen = seen;
        let mut shares: Vec<(String, bool)> = Vec::new();
        core::mem::swap(&mut shares, &mut self.remote_share_enabled);
        self.remote_share_enabled = retain_online_pairs(shares, &peers);
        let mut requested: Vec<String> = Vec::new();
        core::mem::swap(&mut requested, &mut self.requested_history_sync_peers);
        self.requested_history_sync_peers = retain_online_texts(requested, &peers);
        let mut announced: Vec<String> = Vec::new();
        core::mem::swap(&mut announced, &mut self.announced_share_state_peers);
        self.announced_share_state_peers = retain_online_texts(announced, &peers);
        self.discovered = peers;
        changed
    }

    /// Records a trust request from a peer, replacing an earlier one with the
    /// same request id or from the same device and fingerprint.
    #[verifier::loop_isolation(false)]
    pub fn record_trust_request(&mut self, request_id: u128, peer: DiscoveredPeer)
        ensures
            pending_views(final(self).pending_trust_requests@) == kept_requests(
                pending_views(old(self).pending_trust_requests@),
                request_id,
                peer@,
            ).push(
                PendingTrustView {
                    request_id,
                    device_id: peer.device_id@,
                    device_name: peer.device_name@,
                    secondary_text: peer.address@ + seq![':'] + decimal_spec(peer.port as nat),
                    fingerprint: peer.fingerprint@,
                },
            ),
            final(self).status matches Some(s) && s@ == peer.device_name@ + " 请求建立信任连接"@,
            final(self).discovered == old(self).discovered,
            final(self).pending_remote_activation == old(self).pending_remote_activation,
    {
        let ghost orig = pending_views(self.pending_trust_requests@);
        let mut kept: Vec<PendingTrustRequest> = Vec::new();
        let mut i: usize = 0;
        while i < self.pending_trust_requests.len()
            invariant
                i <= self.pending_trust_requests@.len(),
                orig == pending_views(self.pending_trust_requests@),
                pending_views(kept@) == kept_requests(orig.take(i as int), request_id, peer@),
            decreases self.pending_trust_requests@.len() - i,
        {
            let r = &self.pending_trust_requests[i];
            proof {
                assert(orig.take(i + 1).drop_last() =~= orig.take(i as int));
                assert(orig.take(i + 1).last() == r@);
            }
            let drop = r.request_id == request_id || (str_eq(r.device_id.as_str(), peer.device_id.as_str()) && str_eq(
                r.fingerprint.as_str(),
                peer.fingerprint.as_str(),
            ));
            if !drop {
                let c = PendingTrustRequest {
                    request_id: r.request_id,
                    device_id: r.device_id.clone(),
                    device_name: r.device_name.clone(),
                    secondary_text: r.secondary_text.clone(),
                    fingerprint: r.fingerprint.clone(),
                };
                let ghost before = pending_views(kept@);
                kept.push(c);
                proof {
                    assert(pending_views(kept@) =~= before.push(c@));
                }
            }
            i = i + 1;
        }
        proof {
            assert(orig.take(i as int) =~= orig);
        }
        let status = join3(peer.device_name.as_str(), " 请求建立信任连接", "");
        proof {
            assert(""@.len() == 0) by {
                reveal_strlit("");
            }
            assert(status@ =~= peer.device_name@ + " 请求建立信任连接"@);
        }
        let detail = crate::controller::devices::device_detail_text(Some((peer.address.as_str(), peer.port)));
        let req = PendingTrustRequest {
            request_id,
            device_id: peer.device_id,
            device_name: peer.device_name,
            secondary_text: detail,
            fingerprint: peer.fingerprint,
        };
        let ghost before = pending_views(kept@);
        kept.push(req);
        proof {
            assert(pending_views(kept@) =~= before.push(req@));
        }
        self.pending_trust_requests = kept;
        self.status = Some(status);
    }

    /// Decides which online trusted peers to ask for their history and
    /// whether to announce the local share state, marking them as done.
    #[verifier::loop_isolation(false)]
    pub fn plan_history_sync(&mut self, config: &AppConfig) -> (plan: HistorySyncPlan)
        ensures
            ({
                let fin = sync_fold(
                    peer_views(old(self).discovered@),
                    SyncView {
                        requests: seq![],
                        requested: text_set(old(self).requested_history_sync_peers@),
                        announced: text_set(old(self).announced_share_state_peers@),
                        announce: false,
                    },
                    config.trusted_peers@,
                    snapshot_limit(config.history_limit),
                );
                &&& request_views(plan.requests@) == fin.requests
                &&& text_set(final(self).requested_history_sync_peers@) == fin.requested
                &&& text_set(final(self).announced_share_state_peers@) == fin.announced
                &&& plan.announce_share_state == if fin.announce {
                    Some(config.share_local_history)
                } else {
                    None
                }
            }),
            final(self).discovered == old(self).discovered,
            final(self).status == old(self).status,
            final(self).pending_remote_activation == old(self).pending_remote_activation,
    {
        let limit: usize = if config.history_limit < 1 {
            1
        } else if config.history_limit > MAX_HISTORY_SNAPSHOT_ITEMS {
            MAX_HISTORY_SNAPSHOT_ITEMS
        } else {
            config.history_limit
        };
        let fingerprints = trusted_fingerprint_set(config);
        let ghost pv = peer_views(self.discovered@);
        let ghost st0 = SyncView {
            requests: seq![],
            requested: text_set(self.requested_history_sync_peers@),
            announced: text_set(self.announced_share_state_peers@),
            announce: false,
        };
        let mut requests: Vec<(String, usize)> = Vec::new();
        let mut announce = false;
        let mut requested: Vec<String> = Vec::new();
        core::mem::swap(&mut requested, &mut self.requested_history_sync_peers);
        let mut announced: Vec<String> = Vec::new();
        core::mem::swap(&mut announced, &mut self.announced_share_state_peers);
        let discovered = &self.discovered;
        let mut i: usize = 0;
        proof {
            assert(request_views(requests@) =~= Seq::<(Seq<char>, usize)>::empty());
            assert(pv.take(0) =~= Seq::<PeerView>::empty());
        }
        while i < discovered.len()
            invariant
                i <= discovered@.len(),
                pv == peer_views(discovered@),
                forall|x: Seq<char>| #[trigger] has_text(fingerprints@, x) <==> fingerprint_among(config.trusted_peers@, config.trusted_peers@.len() as int, x),
                ({
                    let st = sync_fold(pv.take(i as int), st0, config.trusted_peers@, limit);
                    &&& request_views(requests@) == st.requests
                    &&& text_set(requested@) == st.requested
                    &&& text_set(announced@) == st.announced
                    &&& announce == st.announce
                }),
            decreases discovered@.len() - i,
        {
            proof {
                assert(pv.take(i + 1).drop_last() =~= pv.take(i as int));
                assert(pv.take(i + 1).last() == discovered@[i as int]@);
            }
            let id = discovered[i].device_id.clone();
            let fp_ok = !discovered[i].fingerprint.as_str().is_empty() && contains_text(
                &fingerprints,
                discovered[i].fingerprint.as_str(),
            );
            if fp_ok {
                if !contains_text(&requested, id.as_str()) {
                    let ghost r0 = requested@;
                    let ghost q0 = requests@;
                    requested.push(id.clone());
                    requests.push((id.clone(), limit));
                    proof {
                        crate::controller::devices::lemma_has_text_push(r0, id);
                        assert(text_set(requested@) =~= text_set(r0).insert(id@));
                        assert(request_views(requests@) =~= request_views(q0).push((id@, limit)));
                    }
                }
                if !contains_text(&announced, id.as_str()) {
                    let ghost a0 = announced@;
                    announced.push(id.clone());
                    announce = true;
                    proof {
                        crate::controller::devices::lemma_has_text_push(a0, id);
                        assert(text_set(announced@) =~= text_set(a0).insert(id@));
                    }
                }
            }
            i = i + 1;
        }
        proof {
            assert(pv.take(i as int) =~= pv);
        }
        self.requested_history_sync_peers = requested;
        self.announced_share_state_peers = announced;
        HistorySyncPlan {
            requests,
            announce_share_state: if announce {
                Some(config.share_local_history)
            } else {
                None
            },
        }
    }

    /// Records a peer's share state: its history may be requested again, and
    /// its flag is set.
    #[verifier::loop_isolation(false)]
    pub fn record_share_state(&mut self, peer_device_id: &str, share_local_history: bool)
        ensures
            forall|x: Seq<char>| #[trigger] has_text(final(self).requested_history_sync_peers@, x) <==> (has_text(
                old(self).requested_history_sync_peers@,
                x,
            ) && x != peer_device_id@),
            lookup_spec(final(self).remote_share_enabled@, peer_device_id@) == Some(share_local_history),
            forall|other: Seq<char>| other != peer_device_id@ ==> lookup_spec(final(self).remote_share_enabled@, other)
                == lookup_spec(old(self).remote_share_enabled@, other),
            final(self).discovered == old(self).discovered,
            final(self).status == old(self).status,
    {
        let ghost orig = self.requested_history_sync_peers@;
        let mut kept: Vec<String> = Vec::new();
        let mut i: usize = 0;
        while i < self.requested_history_sync_peers.len()
            invariant
                i <= orig.len(),
                orig == self.requested_history_sync_peers@,
                forall|x: Seq<char>| #[trigger] has_text(kept@, x) <==> (has_text(orig.take(i as int), x) && x != peer_device_id@),
            decreases orig.len() - i,
        {
            let t = &self.requested_history_sync_peers[i];
            proof {
                assert(orig.take(i + 1) =~= orig.take(i as int).push(*t));
                crate::controller::devices::lemma_has_text_push(orig.take(i as int), *t);
            }
            if !str_eq(t.as_str(), peer_device_id) {
                let ghost k0 = kept@;
                let c = t.clone();
                kept.push(c);
                proof {
                    crate::controller::devices::lemma_has_text_push(k0, c);
                }
            }
            i = i + 1;
        }
        proof {
            assert(orig.take(i as int) =~= orig);
        }
        self.requested_history_sync_peers = kept;
        record_device(&mut self.remote_share_enabled, peer_device_id, share_local_history);
    }

    /// Ends the wait for a remote item's content: says whether it was the one
    /// being fetched for pasting.
    pub fn take_remote_activation(&mut self, item_id: u128) -> (should_paste: bool)
        ensures
            should_paste == (old(self).pending_remote_activation == Some(item_id)),
            final(self).pending_remote_activation is None,
            final(self).active_transfer == old(self).active_transfer,
            final(self).status == old(self).status,
    {
        let should_paste = match self.pending_remote_activation {
            Some(id) => id == item_id,
            None => false,
        };
        self.pending_remote_activation = None;
        should_paste
    }

    /// A fetch of a remote item failed: the wait for it ends, and so does its
    /// download when it was one.
    pub fn remote_fetch_failed(&mut self, item_id: u128, files: bool)
        ensures
            final(self).pending_remote_activation == if old(self).pending_remote_activation == Some(item_id) {
                None
            } else {
                old(self).pending_remote_activation
            },
            final(self).active_transfer == if files && (old(self).active_transfer matches Some(t) && t.item_id == item_id) {
                None
            } else {
                old(self).active_transfer
            },
            final(self).status == old(self).status,
    {
        if self.pending_remote_activation == Some(item_id) {
            self.pending_remote_activation = None;
        }
        if files {
            let matches = match &self.active_transfer {
                Some(t) => t.item_id == item_id,
                None => false,
            };
            if matches {
                self.active_transfer = None;
            }
        }
    }

    /// Starts fetching a remote item for pasting: text is read from the peer,
    /// files are downloaded (and the download shown). Fails when the item has
    /// no source device or the runtime is not running.
    pub fn begin_remote_activation(&mut self, remote_item: &RemoteHistoryItem, runtime_running: bool) -> (r: Result<RuntimeCommand, AppError>)
        ensures
            match remote_item.source_device_id {
                None => r matches Err(e) && e.is_network("Remote history item is missing a source device identifier."@)
                    && *final(self) == *old(self),
                Some(peer) => if !runtime_running {
                    r matches Err(e) && e.is_network("Remote transfer service is not running."@) && *final(self) == *old(self)
                } else {
                    &&& final(self).pending_remote_activation == Some(remote_item.history_entry.id)
                    &&& match remote_item.history_entry.kind {
                        ClipboardKind::Text => {
                            &&& r matches Ok(RuntimeCommand::FetchRemoteClipboardItem { peer_device_id, item_id })
                                && peer_device_id@ == peer@ && item_id == remote_item.history_entry.id
                            &&& final(self).status matches Some(s) && s@ == "正在读取远端文本…"@
                            &&& final(self).active_transfer == old(self).active_transfer
                        },
                        ClipboardKind::Files => {
                            &&& r matches Ok(RuntimeCommand::FetchRemoteFiles(item)) && item@ == placeholder_view(*remote_item)
                            &&& final(self).status matches Some(s) && s@ == "正在传输远程文件…"@
                            &&& final(self).active_transfer matches Some(t) && t.item_id == remote_item.history_entry.id
                                && t.source_device_name@ == remote_item.history_entry.source_tooltip@
                                && t.summary@ == remote_item.history_entry.summary_text@ && t.bytes_done == 0
                                && t.bytes_total == remote_item.total_size_bytes
                        },
                    }
                },
            },
    {
        let peer = match &remote_item.source_device_id {
            None => {
                return Err(network_error("Remote history item is missing a source device identifier."));
            },
            Some(p) => p,
        };
        if !runtime_running {
            return Err(network_error("Remote transfer service is not running."));
        }
        let id = remote_item.history_entry.id;
        self.pending_remote_activation = Some(id);
        match remote_item.history_entry.kind {
            ClipboardKind::Text => {
                self.status = Some("正在读取远端文本…".to_string());
                Ok(RuntimeCommand::FetchRemoteClipboardItem { peer_device_id: peer.clone(), item_id: id })
            },
            ClipboardKind::Files => {
                self.active_transfer = Some(ActiveTransferState {
                    item_id: id,
                    source_device_name: remote_item.history_entry.source_tooltip.clone(),
                    summary: remote_item.history_entry.summary_text.clone(),
                    bytes_done: 0,
                    bytes_total: remote_item.total_size_bytes,
                });
                self.status = Some("正在传输远程文件…".to_string());
                Ok(RuntimeCommand::FetchRemoteFiles(remote_item.to_placeholder_item()))
            },
        }
    }
}

/// What activating a history entry comes to: a local item or a cached
/// remote item written back to the clipboard with a fresh time, a fetch
/// from the peer that holds it, or nothing for an unknown id.
#[derive(Debug)]
pub enum ActivationPlan {
    WriteLocal(ClipboardItem),
    WriteCached(ClipboardItem),
    Fetch(RuntimeCommand),
    Noop,
}

/// The item with its time set to `now`.
pub open spec fn restamped(item: ItemView, now: i128) -> ItemView {
    ItemView { created_at: now, ..item }
}

/// Decides how a history entry is activated. The local item with the id
/// comes first, then the cached content of a remote item, then the remote
/// record itself, whose content is fetched (see
/// `ControllerState::begin_remote_activation`); with none of them nothing
/// happens.
pub fn plan_activation(
    state: &mut ControllerState,
    local: Option<ClipboardItem>,
    cached: Option<ClipboardItem>,
    remote: Option<&RemoteHistoryItem>,
    runtime_running: bool,
    now: i128,
) -> (r: Result<ActivationPlan, AppError>)
    ensures
        local matches Some(l) ==> *final(state) == *old(state)
            && (r matches Ok(ActivationPlan::WriteLocal(i)) && i@ == restamped(l@, now)),
        local is None ==> (cached matches Some(c) ==> *final(state) == *old(state)
            && (r matches Ok(ActivationPlan::WriteCached(i)) && i@ == restamped(c@, now))),
        local is None && cached is None && remote is None ==> *final(state) == *old(state)
            && (r matches Ok(ActivationPlan::Noop)),
        local is None && cached is None ==> (remote matches Some(x) ==> match x.source_device_id {
            None => r matches Err(e) && e.is_network("Remote history item is missing a source device identifier."@)
                && *final(state) == *old(state),
            Some(peer) => if !runtime_running {
                r matches Err(e) && e.is_network("Remote transfer service is not running."@) && *final(state) == *old(state)
            } else {
                &&& final(state).pending_remote_activation == Some(x.history_entry.id)
                &&& match x.history_entry.kind {
                    ClipboardKind::Text => {
                        &&& r matches Ok(ActivationPlan::Fetch(RuntimeCommand::FetchRemoteClipboardItem { peer_device_id, item_id }))
                            && peer_device_id@ == peer@ && item_id == x.history_entry.id
                        &&& final(state).status matches Some(s) && s@ == "正在读取远端文本…"@
                        &&& final(state).active_transfer == old(state).active_transfer
                    },
                    ClipboardKind::Files => {
                        &&& r matches Ok(ActivationPlan::Fetch(RuntimeCommand::FetchRemoteFiles(item))) && item@ == placeholder_view(*x)
                        &&& final(state).status matches Some(s) && s@ == "正在传输远程文件…"@
                        &&& final(state).active_transfer matches Some(t) && t.item_id == x.history_entry.id
                            && t.source_device_name@ == x.history_entry.source_tooltip@
                            && t.summary@ == x.history_entry.summary_text@ && t.bytes_done == 0
                            && t.bytes_total == x.total_size_bytes
                    },
                }
            },
        }),
{
    if let Some(l) = local {
        let mut item = l;
        item.created_at = now;
        return Ok(ActivationPlan::WriteLocal(item));
    }
    if let Some(c) = cached {
        let mut item = c;
        item.created_at = now;
        return Ok(ActivationPlan::WriteCached(item));
    }
    match remote {
        None => Ok(ActivationPlan::Noop),
        Some(x) => match state.begin_remote_activation(x, runtime_running) {
            Ok(command) => Ok(ActivationPlan::Fetch(command)),
            Err(e) => Err(e),
        },
    }
}

impl ControllerState {
    /// Forgets the sync marks and share flag of a peer, so that they are
    /// renewed after its trust changed.
    pub fn forget_peer_sync(&mut self, device_id: &str)
        ensures
            forall|y: Seq<char>| #[trigger] has_text(final(self).requested_history_sync_peers@, y) <==> (has_text(
                old(self).requested_history_sync_peers@,
                y,
            ) && y != device_id@),
            forall|y: Seq<char>| #[trigger] has_text(final(self).announced_share_state_peers@, y) <==> (has_text(
                old(self).announced_share_state_peers@,
                y,
            ) && y != device_id@),
            final(self).remote_share_enabled@ == without_device(old(self).remote_share_enabled@, device_id@),
            final(self).device_last_seen == old(self).device_last_seen,
            final(self).discovered == old(self).discovered,
            final(self).status == old(self).status,
    {
        forget_text(&mut self.requested_history_sync_peers, device_id);
        forget_text(&mut self.announced_share_state_peers, device_id);
        forget_device(&mut self.remote_share_enabled, device_id);
    }

    /// Forgets what is known of devices no longer trusted (their ids trimmed,
    /// blank ones ignored); gives those ids, sorted and once each, so that the
    /// caller drops their remote history.
    pub fn clear_removed_trusted_device_state(&mut self, device_ids: &Vec<String>) -> (r: Vec<String>)
        ensures
            crate::controller::trust::strictly_sorted(r@),
            forall|x: Seq<char>| #[trigger] has_text(r@, x) <==> (x.len() > 0 && exists|i: int|
                0 <= i < device_ids@.len() && crate::text::trim_spec(#[trigger] device_ids@[i]@) == x),
            forall|y: Seq<char>| #[trigger] has_text(final(self).requested_history_sync_peers@, y) <==> (has_text(
                old(self).requested_history_sync_peers@,
                y,
            ) && !has_text(r@, y)),
            forall|y: Seq<char>| #[trigger] has_text(final(self).announced_share_state_peers@, y) <==> (has_text(
                old(self).announced_share_state_peers@,
                y,
            ) && !has_text(r@, y)),
            forall|y: Seq<char>| has_text(r@, y) ==> lookup_spec(final(self).remote_share_enabled@, y) is None && lookup_spec(
                final(self).device_last_seen@,
                y,
            ) is None,
            forall|y: Seq<char>| !has_text(r@, y) ==> lookup_spec(final(self).remote_share_enabled@, y) == lookup_spec(
                old(self).remote_share_enabled@,
                y,
            ) && lookup_spec(final(self).device_last_seen@, y) == lookup_spec(old(self).device_last_seen@, y),
            final(self).discovered == old(self).discovered,
            final(self).status == old(self).status,
    {
        let ids = trimmed_ids(device_ids);
        let mut requested: Vec<String> = Vec::new();
        core::mem::swap(&mut requested, &mut self.requested_history_sync_peers);
        let mut announced: Vec<String> = Vec::new();
        core::mem::swap(&mut announced, &mut self.announced_share_state_peers);
        let mut shares: Vec<(String, bool)> = Vec::new();
        core::mem::swap(&mut shares, &mut self.remote_share_enabled);
        let mut seen: Vec<(String, i128)> = Vec::new();
        core::mem::swap(&mut seen, &mut self.device_last_seen);
        let ghost req0 = requested@;
        let ghost ann0 = announced@;
        let ghost sh0 = shares@;
        let ghost seen0 = seen@;
        let mut i: usize = 0;
        while i < ids.len()
            invariant
                i <= ids@.len(),
                forall|y: Seq<char>| #[trigger] has_text(requested@, y) <==> (has_text(req0, y) && !has_text(ids@.take(i as int), y)),
                forall|y: Seq<char>| #[trigger] has_text(announced@, y) <==> (has_text(ann0, y) && !has_text(ids@.take(i as int), y)),
                forall|y: Seq<char>| #[trigger] lookup_spec(shares@, y) == if has_text(ids@.take(i as int), y) {
                    None
                } else {
                    lookup_spec(sh0, y)
                },
                forall|y: Seq<char>| #[trigger] lookup_spec(seen@, y) == if has_text(ids@.take(i as int), y) {
                    None
                } else {
                    lookup_spec(seen0, y)
                },
            decreases ids@.len() - i,
        {
            let id = ids[i].as_str();
            proof {
                assert(ids@.take(i + 1) =~= ids@.take(i as int).push(ids@[i as int]));
                crate::controller::devices::lemma_has_text_push(ids@.take(i as int), ids@[i as int]);
            }
            let ghost sh1 = shares@;
            let ghost se1 = seen@;
            forget_text(&mut requested, id);
            forget_text(&mut announced, id);
            forget_device(&mut shares, id);
            forget_device(&mut seen, id);
            proof {
                assert forall|y: Seq<char>| #[trigger] lookup_spec(shares@, y) == if has_text(ids@.take(i + 1), y) {
                    None
                } else {
                    lookup_spec(sh0, y)
                } by {
                    lemma_lookup_without(sh1, id@, y);
                }
                assert forall|y: Seq<char>| #[trigger] lookup_spec(seen@, y) == if has_text(ids@.take(i + 1), y) {
                    None
                } else {
                    lookup_spec(seen0, y)
                } by {
                    lemma_lookup_without(se1, id@, y);
                }
            }
            i = i + 1;
        }
        proof {
            assert(ids@.take(i as int) =~= ids@);
        }
        self.requested_history_sync_peers = requested;
        self.announced_share_state_peers = announced;
        self.remote_share_enabled = shares;
        self.device_last_seen = seen;
        ids
    }

    /// Takes out the pending trust request with the id, if any.
    pub fn take_trust_request(&mut self, request_id: u128) -> (r: Option<PendingTrustRequest>)
        ensures
            match r {
                Some(req) => req.request_id == request_id && exists|k: int|
                    0 <= k < old(self).pending_trust_requests@.len()
                        && old(self).pending_trust_requests@[k] == req
                        && (forall|j: int| 0 <= j < k ==> (#[trigger] old(self).pending_trust_requests@[j]).request_id != request_id)
                        && final(self).pending_trust_requests@ == old(self).pending_trust_requests@.remove(k),
                None => (forall|j: int| 0 <= j < old(self).pending_trust_requests@.len() ==> (#[trigger] old(self).pending_trust_requests@[j]).request_id != request_id)
                    && final(self).pending_trust_requests == old(self).pending_trust_requests,
            },
            final(self).discovered == old(self).discovered,
            final(self).status == old(self).status,
    {
        let mut i: usize = 0;
        while i < self.pending_trust_requests.len() && self.pending_trust_requests[i].request_id != request_id
            invariant
                i <= self.pending_trust_requests@.len(),
                forall|j: int| 0 <= j < i ==> (#[trigger] self.pending_trust_requests@[j]).request_id != request_id,
            decreases self.pending_trust_requests@.len() - i,
        {
            i = i + 1;
        }
        if i < self.pending_trust_requests.len() {
            let req = self.pending_trust_requests.remove(i);
            Some(req)
        } else {
            None
        }
    }
}

proof fn lemma_lookup_without<V>(list: Seq<(String, V)>, id: Seq<char>, y: Seq<char>)
    ensures
        lookup_spec(without_device(list, id), y) == if y == id {
            None
        } else {
            lookup_spec(list, y)
        },
    decreases list.len(),
{
    if list.len() > 0 {
        lemma_lookup_without(list.drop_last(), id, y);
        lemma_lookup_last(list.drop_last(), list.last(), y);
        let w = without_device(list.drop_last(), id);
        if list.last().0@ != id {
            lemma_lookup_last(w, list.last(), y);
            assert(list.drop_last().push(list.last()) =~= list);
        } else {
            assert(list.drop_last().push(list.last()) =~= list);
        }
    }
}

proof fn lemma_lookup_last<V>(s: Seq<(String, V)>, x: (String, V), y: Seq<char>)
    ensures
        lookup_spec(s.push(x), y) == match lookup_spec(s, y) {
            Some(v) => Some(v),
            None => if x.0@ == y {
                Some(x.1)
            } else {
                None
            },
        },
    decreases s.len(),
{
    let t = s.push(x);
    if s.len() > 0 {
        assert(t.drop_first() =~= s.drop_first().push(x));
        assert(t[0] == s[0]);
        lemma_lookup_last(s.drop_first(), x, y);
        if s[0].0@ == y {
            assert(lookup_spec(t, y) == Some(s[0].1));
            assert(lookup_spec(s, y) == Some(s[0].1));
        } else {
            assert(lookup_spec(t, y) == lookup_spec(t.drop_first(), y));
            assert(lookup_spec(s, y) == lookup_spec(s.drop_first(), y));
        }
    } else {
        assert(t.drop_first() =~= Seq::<(String, V)>::empty());
        assert(t[0] == x);
        assert(lookup_spec(Seq::<(String, V)>::empty(), y) is None);
        assert(lookup_spec(s, y) is None);
    }
}

/// The texts trimmed, blank ones dropped, sorted and once each.
pub fn trimmed_ids(ids: &Vec<String>) -> (r: Vec<String>)
    ensures
        crate::controller::trust::strictly_sorted(r@),
        forall|x: Seq<char>| #[trigger] has_text(r@, x) <==> (x.len() > 0 && exists|i: int|
            0 <= i < ids@.len() && crate::text::trim_spec(#[trigger] ids@[i]@) == x),
{
    let mut trimmed: Vec<String> = Vec::new();
    let mut i: usize = 0;
    while i < ids.len()
        invariant
            i <= ids@.len(),
            forall|x: Seq<char>| #[trigger] has_text(trimmed@, x) <==> (x.len() > 0 && exists|k: int|
                0 <= k < i && crate::text::trim_spec(#[trigger] ids@[k]@) == x),
        decreases ids@.len() - i,
    {
        let t = crate::text::trim(ids[i].as_str());
        if !t.as_str().is_empty() {
            let ghost t0 = trimmed@;
            let ghost tv = t@;
            trimmed.push(t);
            proof {
                crate::controller::devices::lemma_has_text_push(t0, trimmed@.last());
                assert(t0.push(trimmed@.last()) == trimmed@);
                assert forall|x: Seq<char>| #[trigger] has_text(trimmed@, x) <==> (x.len() > 0 && exists|k: int|
                    0 <= k < i + 1 && crate::text::trim_spec(#[trigger] ids@[k]@) == x) by {
                    if x == tv {
                        assert(crate::text::trim_spec(ids@[i as int]@) == x);
                    }
                }
            }
        } else {
            proof {
                assert forall|x: Seq<char>| #[trigger] has_text(trimmed@, x) <==> (x.len() > 0 && exists|k: int|
                    0 <= k < i + 1 && crate::text::trim_spec(#[trigger] ids@[k]@) == x) by {
                    if x.len() > 0 && exists|k: int| 0 <= k < i + 1 && crate::text::trim_spec(#[trigger] ids@[k]@) == x {
                        let k = choose|k: int| 0 <= k < i + 1 && crate::text::trim_spec(#[trigger] ids@[k]@) == x;
                        assert(k != i);
                    }
                }
            }
        }
        i = i + 1;
    }
    crate::controller::trust::sorted_distinct(trimmed)
}

/// The status after sending trust requests to several devices.
pub fn trust_requests_sent_status(requested: usize) -> (r: String)
    requires
        requested <= u64::MAX,
    ensures
        r@ == "已发送 "@ + decimal_spec(requested as nat) + " 个信任请求，等待对方确认"@,
{
    let d = crate::text::decimal_string(requested as u64);
    join3("已发送 ", d.as_str(), " 个信任请求，等待对方确认")
}

/// The status after removing several trusted devices.
pub fn trusted_devices_removed_status(revoked: usize) -> (r: String)
    requires
        revoked <= u64::MAX,
    ensures
        r@ == "已移除 "@ + decimal_spec(revoked as nat) + " 个信任设备"@,
{
    let d = crate::text::decimal_string(revoked as u64);
    join3("已移除 ", d.as_str(), " 个信任设备")
}

/// Joins two texts.
pub fn join2(head: &str, tail: &str) -> (r: String)
    ensures
        r@ == head@ + tail@,
{
    let mut v = chars_of(head);
    extend_str(&mut v, tail);
    string_of(v.as_slice())
}

/// What a request to trust a device comes to.
pub enum TrustRequestPlan {
    /// The device is not among the discovered peers.
    NotOnline,
    /// A trusted record already carries the device's fingerprint: the
    /// identity to trust anew, in place of sending a request.
    AlreadyTrusted(TrustedPeer),
    /// A trust request goes to this peer.
    Send(DiscoveredPeer),
}

/// `r` is what a request to trust `device_id` comes to, given the discovered
/// and the trusted peers: the first discovered peer with that id decides.
pub open spec fn trust_request_planned(
    discovered: Seq<PeerView>,
    trusted: Seq<TrustedPeerView>,
    device_id: Seq<char>,
    r: TrustRequestPlan,
) -> bool {
    let k = peer_pos(discovered, device_id);
    match r {
        TrustRequestPlan::NotOnline => k >= discovered.len(),
        TrustRequestPlan::AlreadyTrusted(rec) => k < discovered.len() && fingerprint_listed(
            trusted,
            discovered[k as int].fingerprint,
        ) && rec@ == announced_record(discovered[k as int]),
        TrustRequestPlan::Send(p) => k < discovered.len() && !fingerprint_listed(
            trusted,
            discovered[k as int].fingerprint,
        ) && p@ == discovered[k as int],
    }
}

impl ControllerState {
    /// Decides what a request to trust the device with the given id comes to.
    pub fn plan_trust_request(&self, trusted_peers: &Vec<TrustedPeer>, device_id: &str) -> (r: TrustRequestPlan)
        ensures
            trust_request_planned(peer_views(self.discovered@), trusted_views(trusted_peers@), device_id@, r),
    {
        let k = find_discovered(&self.discovered, device_id);
        if k >= self.discovered.len() {
            return TrustRequestPlan::NotOnline;
        }
        let peer = &self.discovered[k];
        let ghost pv = peer_views(self.discovered@);
        assert(pv[k as int] == peer@);
        let ghost tv = trusted_views(trusted_peers@);
        let mut i: usize = 0;
        while i < trusted_peers.len()
            invariant
                i <= trusted_peers@.len(),
                tv == trusted_views(trusted_peers@),
                pv == peer_views(self.discovered@),
                k < self.discovered@.len(),
                k == peer_pos(pv, device_id@),
                pv[k as int] == peer@,
                forall|j: int| 0 <= j < i ==> (#[trigger] tv[j]).fingerprint != peer.fingerprint@,
            decreases trusted_peers@.len() - i,
        {
            if str_eq(trusted_peers[i].fingerprint.as_str(), peer.fingerprint.as_str()) {
                proof {
                    assert(tv[i as int].fingerprint == peer.fingerprint@);
                }
                let rec = TrustedPeer {
                    device_id: peer.device_id.clone(),
                    device_name: peer.device_name.clone(),
                    fingerprint: peer.fingerprint.clone(),
                };
                assert(rec@ == announced_record(pv[k as int]));
                return TrustRequestPlan::AlreadyTrusted(rec);
            }
            i = i + 1;
        }
        assert(!fingerprint_listed(tv, peer.fingerprint@));
        TrustRequestPlan::Send(peer.clone())
    }
}

/// The status a planned trust request leaves; `updated` tells whether
/// trusting an already trusted identity anew changed the list.
pub fn trust_request_status(plan: &TrustRequestPlan, updated: bool) -> (r: String)
    ensures
        r@ == match plan {
            TrustRequestPlan::NotOnline => "仅支持向当前在线设备发起信任请求"@,
            TrustRequestPlan::AlreadyTrusted(rec) => if updated {
                "已更新设备 "@ + rec.device_name@ + " 的信任标识"@
            } else {
                "设备 "@ + rec.device_name@ + " 已在信任列表中"@
            },
            TrustRequestPlan::Send(p) => "已向 "@ + p.device_name@ + " 发送信任请求，等待对方确认"@,
        },
{
    match plan {
        TrustRequestPlan::NotOnline => String::from_str("仅支持向当前在线设备发起信任请求"),
        TrustRequestPlan::AlreadyTrusted(rec) => if updated {
            join3("已更新设备 ", rec.device_name.as_str(), " 的信任标识")
        } else {
            join3("设备 ", rec.device_name.as_str(), " 已在信任列表中")
        },
        TrustRequestPlan::Send(p) => join3("已向 ", p.device_name.as_str(), " 发送信任请求，等待对方确认"),
    }
}

/// `head` followed by the error's message.
pub open spec fn error_status(head: Seq<char>, error: AppError) -> Seq<char> {
    head + error.message_spec()
}

fn with_error(head: &str, error: &AppError) -> (r: String)
    ensures
        r@ == error_status(head@, *error),
{
    let m = error.message();
    join2(head, m.as_str())
}

/// The status after a peer answered a trust request; `save_error` is the
/// failure to keep the accepted trust, if any.
pub fn trust_completed_status(device_name: &str, accepted: bool, save_error: &Option<AppError>) -> (r: String)
    ensures
        r@ == if !accepted {
            device_name@ + " 已拒绝本次连接请求"@
        } else {
            match save_error {
                None => device_name@ + " 已同意建立信任连接"@,
                Some(e) => error_status(device_name@ + " 已同意连接，但保存信任关系失败: "@, *e),
            }
        },
{
    if !accepted {
        return join2(device_name, " 已拒绝本次连接请求");
    }
    match save_error {
        None => join2(device_name, " 已同意建立信任连接"),
        Some(e) => {
            let head = join2(device_name, " 已同意连接，但保存信任关系失败: ");
            with_error(head.as_str(), e)
        },
    }
}

/// The status after a trust request could not be sent.
pub fn trust_request_failed_status(peer_device_id: &str, message: &str) -> (r: String)
    ensures
        r@ == "发送到设备 "@ + peer_device_id@ + " 的信任请求失败: "@ + message@,
{
    let head = join3("发送到设备 ", peer_device_id, " 的信任请求失败: ");
    join2(head.as_str(), message)
}

/// The status after a peer withdrew its trust: updated locally, or the
/// failure to do so.
pub fn trust_revoked_by_peer_status(peer_device_name: &str, error: &Option<AppError>) -> (r: String)
    ensures
        r@ == match error {
            None => "设备 "@ + peer_device_name@ + " 已移除对当前设备的信任，已同步更新本机"@,
            Some(e) => error_status("同步对端移除信任状态失败: "@, *e),
        },
{
    match error {
        None => join3("设备 ", peer_device_name, " 已移除对当前设备的信任，已同步更新本机"),
        Some(e) => with_error("同步对端移除信任状态失败: ", e),
    }
}

/// The status after a peer turned the sharing of its history on or off;
/// `clipboard_failed` tells whether updating the system clipboard failed
/// after it was turned off.
pub fn share_state_status(peer_device_name: &str, share_local_history: bool, clipboard_failed: bool) -> (r: String)
    ensures
        r@ == if share_local_history {
            peer_device_name@ + " 已恢复共享本机剪切板历史"@
        } else if clipboard_failed {
            peer_device_name@ + " 已关闭共享本机剪切板历史，但更新系统剪切板失败"@
        } else {
            peer_device_name@ + " 已关闭共享本机剪切板历史"@
        },
{
    if share_local_history {
        join2(peer_device_name, " 已恢复共享本机剪切板历史")
    } else if clipboard_failed {
        join2(peer_device_name, " 已关闭共享本机剪切板历史，但更新系统剪切板失败")
    } else {
        join2(peer_device_name, " 已关闭共享本机剪切板历史")
    }
}

/// The name shown for the source of a received item.
pub open spec fn inbound_source(source_device_name: Option<Seq<char>>) -> Seq<char> {
    match source_device_name {
        Some(n) => n,
        None => "远端设备"@,
    }
}

/// The status after content pushed by a peer arrived: with the remote item
/// preferred on paste, written to the clipboard or the failure to do so.
pub fn inbound_status(
    source_device_name: &Option<String>,
    prefer_remote_latest_on_paste: bool,
    write_error: &Option<AppError>,
) -> (r: String)
    ensures
        r@ == if prefer_remote_latest_on_paste {
            match write_error {
                None => "已接收来自 "@ + inbound_source(opt_view(*source_device_name)) + " 的内容"@,
                Some(e) => error_status("更新系统剪切板失败: "@, *e),
            }
        } else {
            "已接收来自 "@ + inbound_source(opt_view(*source_device_name)) + " 的内容，粘贴仍优先本机最新记录"@
        },
{
    let source = match source_device_name {
        Some(n) => n.clone(),
        None => String::from_str("远端设备"),
    };
    if prefer_remote_latest_on_paste {
        match write_error {
            None => join3("已接收来自 ", source.as_str(), " 的内容"),
            Some(e) => with_error("更新系统剪切板失败: ", e),
        }
    } else {
        join3("已接收来自 ", source.as_str(), " 的内容，粘贴仍优先本机最新记录")
    }
}

/// The status after a peer deleted items of its shared history.
pub fn items_removed_status(peer_device_name: &str, count: usize) -> (r: String)
    requires
        count <= u64::MAX,
    ensures
        r@ == peer_device_name@ + " 已同步删除 "@ + decimal_spec(count as nat) + " 条历史记录"@,
{
    let d = crate::text::decimal_string(count as u64);
    let head = join3(peer_device_name, " 已同步删除 ", d.as_str());
    join2(head.as_str(), " 条历史记录")
}

/// The status after a peer's history snapshot arrived.
pub fn snapshot_received_status(peer_device_name: &str) -> (r: String)
    ensures
        r@ == "已同步 "@ + peer_device_name@ + " 的历史记录"@,
{
    join3("已同步 ", peer_device_name, " 的历史记录")
}

/// The status after fetching a peer's history snapshot failed.
pub fn snapshot_failed_status(peer_device_id: &str, message: &str) -> (r: String)
    ensures
        r@ == "拉取设备 "@ + peer_device_id@ + " 的远端历史失败: "@ + message@,
{
    let head = join3("拉取设备 ", peer_device_id, " 的远端历史失败: ");
    join2(head.as_str(), message)
}

/// The status after remote content (or remote files) arrived and was
/// written to the clipboard, or the failure to write it.
pub fn remote_resolved_status(files: bool, write_error: &Option<AppError>) -> (r: String)
    ensures
        r@ == match write_error {
            None => if files {
                "远程文件已保存到本机并写入系统剪切板"@
            } else {
                "远端内容已写入系统剪切板"@
            },
            Some(e) => if files {
                error_status("远程文件已接收，但写入系统剪切板失败: "@, *e)
            } else {
                error_status("远端内容已接收，但写入系统剪切板失败: "@, *e)
            },
        },
{
    match write_error {
        None => if files {
            String::from_str("远程文件已保存到本机并写入系统剪切板")
        } else {
            String::from_str("远端内容已写入系统剪切板")
        },
        Some(e) => if files {
            with_error("远程文件已接收，但写入系统剪切板失败: ", e)
        } else {
            with_error("远端内容已接收，但写入系统剪切板失败: ", e)
        },
    }
}

/// The status after fetching remote content (or remote files) failed.
pub fn remote_failed_status(files: bool, message: &str) -> (r: String)
    ensures
        r@ == if files {
            "远程文件传输失败: "@ + message@
        } else {
            "远端内容读取失败: "@ + message@
        },
{
    if files {
        join2("远程文件传输失败: ", message)
    } else {
        join2("远端内容读取失败: ", message)
    }
}

/// Whether the network runtime should run: discovery is on, some peer is
/// trusted, or the preferences window is open under a policy that keeps
/// discovery running before any peer is trusted.
pub fn runtime_should_run(
    config: &AppConfig,
    preferences_visible: bool,
    keep_discovery_running_without_trusted_peers: bool,
) -> (r: bool)
    ensures
        r == (config.discovery_enabled || config.trusted_peers@.len() > 0 || (preferences_visible
            && keep_discovery_running_without_trusted_peers)),
{
    config.discovery_enabled || config.trusted_peers.len() > 0 || (preferences_visible
        && keep_discovery_running_without_trusted_peers)
}

impl ControllerState {
    /// Forgets what only a running runtime knows: the peers online, the
    /// requests and transfers in flight and the per-peer sync marks; when
    /// each device was last seen and the status line stay.
    pub fn runtime_stopped(&mut self)
        ensures
            final(self).discovered@.len() == 0,
            final(self).pending_trust_requests@.len() == 0,
            final(self).requested_history_sync_peers@.len() == 0,
            final(self).announced_share_state_peers@.len() == 0,
            final(self).remote_share_enabled@.len() == 0,
            final(self).pending_remote_activation is None,
            final(self).active_transfer is None,
            final(self).device_last_seen == old(self).device_last_seen,
            final(self).status == old(self).status,
    {
        self.discovered = Vec::new();
        self.pending_trust_requests = Vec::new();
        self.requested_history_sync_peers = Vec::new();
        self.announced_share_state_peers = Vec::new();
        self.remote_share_enabled = Vec::new();
        self.pending_remote_activation = None;
        self.active_transfer = None;
    }
}

/// The status after a local clipboard item was handled: the failure to save
/// it; else the failure to send the removals of pruned items, or else the
/// failure to share it; nothing when all went well.
pub fn local_item_status(save_error: &Option<AppError>, share_error: &Option<AppError>, prune_failed: bool) -> (r: Option<String>)
    ensures
        r matches Some(t) ==> (match save_error {
            Some(e) => t@ == error_status("保存本机剪切板历史失败: "@, *e),
            None => if prune_failed {
                t@ == "本机内容已保存，但同步裁剪后的历史删除失败"@
            } else {
                share_error matches Some(e) && t@ == error_status("本机内容已保存，但共享失败: "@, *e)
            },
        }),
        r is None <==> (save_error is None && !prune_failed && share_error is None),
{
    match save_error {
        Some(e) => Some(with_error("保存本机剪切板历史失败: ", e)),
        None => if prune_failed {
            Some(String::from_str("本机内容已保存，但同步裁剪后的历史删除失败"))
        } else {
            match share_error {
                Some(e) => Some(with_error("本机内容已保存，但共享失败: ", e)),
                None => None,
            }
        },
    }
}

} // verus!
