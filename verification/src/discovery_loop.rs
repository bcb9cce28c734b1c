//! State of the discovery loop: the peers seen on the network, the last peer
//! list reported, the last error reported, and trust requests in flight.
//! The loop itself (sockets, timers) feeds events in and performs what the
//! state answers.

use vstd::prelude::*;

use crate::discovery::{
    merge_announced_peers, merge_all_spec, peer_le, prune_stale_discovered_peers,
    sorted_discovered_peers, still_online, unique_peer_ids, SocketAddress,
};
use crate::model::{peer_views, DiscoveredPeer, PeerView};
use crate::runtime::RuntimeEvent;
use crate::text::str_eq;

verus! {

/// What identifies a reported peer list entry.
#[derive(Debug)]
pub struct PeerSignature {
    pub device_id: String,
    pub device_name: String,
    pub address: String,
    pub port: u16,
    pub fingerprint: String,
}

/// Abstract value of a peer list entry's identity.
pub ghost struct SignatureView {
    pub device_id: Seq<char>,
    pub device_name: Seq<char>,
    pub address: Seq<char>,
    pub port: u16,
    pub fingerprint: Seq<char>,
}

impl View for PeerSignature {
    type V = SignatureView;

    open spec fn view(&self) -> SignatureView {
        SignatureView {
            device_id: self.device_id@,
            device_name: self.device_name@,
            address: self.address@,
            port: self.port,
            fingerprint: self.fingerprint@,
        }
    }
}

/// The identity of a peer as it appears in the reported list.
pub open spec fn signature_of(p: PeerView) -> SignatureView {
    SignatureView {
        device_id: p.device_id,
        device_name: p.device_name,
        address: p.address,
        port: p.port,
        fingerprint: p.fingerprint,
    }
}

/// Abstract values of signatures.
pub open spec fn signature_views(s: Seq<PeerSignature>) -> Seq<SignatureView> {
    s.map_values(|x: PeerSignature| x@)
}

/// The signature of a list of peers.
pub open spec fn list_signature(peers: Seq<PeerView>) -> Seq<SignatureView> {
    peers.map_values(|p: PeerView| signature_of(p))
}

fn signature_list(peers: &Vec<DiscoveredPeer>) -> (r: Vec<PeerSignature>)
    ensures
        signature_views(r@) == list_signature(peer_views(peers@)),
{
    let mut out: Vec<PeerSignature> = Vec::new();
    let mut i: usize = 0;
    while i < peers.len()
        invariant
            i <= peers@.len(),
            signature_views(out@) == list_signature(peer_views(peers@)).take(i as int),
        decreases peers@.len() - i,
    {
        let p = &peers[i];
        let ghost out0 = out@;
        out.push(PeerSignature {
            device_id: p.device_id.clone(),
            device_name: p.device_name.clone(),
            address: p.address.clone(),
            port: p.port,
            fingerprint: p.fingerprint.clone(),
        });
        proof {
            assert(signature_views(out@) =~= signature_views(out0).push(signature_of(p@)));
            assert(list_signature(peer_views(peers@))[i as int] == signature_of(p@));
            assert(signature_views(out@) =~= list_signature(peer_views(peers@)).take(i + 1));
        }
        i = i + 1;
    }
    proof {
        assert(list_signature(peer_views(peers@)).take(i as int) =~= list_signature(peer_views(peers@)));
    }
    out
}

fn signatures_equal(a: &Vec<PeerSignature>, b: &Vec<PeerSignature>) -> (r: bool)
    ensures
        r == (signature_views(a@) == signature_views(b@)),
{
    if a.len() != b.len() {
        proof {
            assert(signature_views(a@).len() != signature_views(b@).len());
        }
        return false;
    }
    let mut i: usize = 0;
    while i < a.len()
        invariant
            i <= a@.len() == b@.len(),
            forall|k: int| 0 <= k < i ==> a@[k]@ == b@[k]@,
        decreases a@.len() - i,
    {
        let x = &a[i];
        let y = &b[i];
        if !(str_eq(x.device_id.as_str(), y.device_id.as_str()) && str_eq(x.device_name.as_str(), y.device_name.as_str())
            && str_eq(x.address.as_str(), y.address.as_str()) && x.port == y.port && str_eq(x.fingerprint.as_str(), y.fingerprint.as_str())) {
            proof {
                assert(signature_views(a@)[i as int] != signature_views(b@)[i as int]);
            }
            return false;
        }
        i = i + 1;
    }
    proof {
        assert(signature_views(a@) =~= signature_views(b@));
    }
    true
}

/// A trust request received from a peer and not answered yet.
#[derive(Debug)]
pub struct PendingIncomingTrustRequest {
    pub request_id: u128,
    pub source: SocketAddress,
    pub peer: DiscoveredPeer,
}

/// A trust request sent to a peer and not answered yet.
#[derive(Debug)]
pub struct PendingOutgoingTrustRequest {
    pub request_id: u128,
    pub peer: DiscoveredPeer,
}

/// No two incoming requests share an id.
pub open spec fn unique_incoming(s: Seq<PendingIncomingTrustRequest>) -> bool {
    forall|i: int, j: int| 0 <= i < j < s.len() ==> s[i].request_id != s[j].request_id
}

/// No two outgoing requests share an id.
pub open spec fn unique_outgoing(s: Seq<PendingOutgoingTrustRequest>) -> bool {
    forall|i: int, j: int| 0 <= i < j < s.len() ==> s[i].request_id != s[j].request_id
}

/// The same device (id and fingerprint) as `peer`.
pub open spec fn same_device(a: PeerView, b: PeerView) -> bool {
    a.device_id == b.device_id && a.fingerprint == b.fingerprint
}

/// The loop's state.
#[derive(Debug)]
pub struct DiscoveryState {
    pub discovered: Vec<DiscoveredPeer>,
    pub last_signature: Vec<PeerSignature>,
    pub last_error: Option<String>,
    pub pending_incoming: Vec<PendingIncomingTrustRequest>,
    pub pending_outgoing: Vec<PendingOutgoingTrustRequest>,
}

/// The peers reported: ordered by name and device id, the table's peers.
pub open spec fn reported_list(table: Seq<PeerView>, peers: Seq<PeerView>) -> bool {
    &&& forall|i: int, j: int| 0 <= i < j < peers.len() ==> peer_le(#[trigger] peers[i], #[trigger] peers[j])
    &&& peers.to_multiset() == table.to_multiset()
}

/// `report` is the peer-list report that goes with moving the table to
/// `table` and the reported signature from `old_sig` to `new_sig`: nothing
/// when the reported list's signature is unchanged, else one `PeerList`
/// carrying that list.
pub open spec fn peer_list_report(
    old_sig: Seq<SignatureView>,
    table: Seq<PeerView>,
    new_sig: Seq<SignatureView>,
    report: Seq<RuntimeEvent>,
) -> bool {
    exists|peers: Seq<PeerView>| {
        &&& #[trigger] reported_list(table, peers)
        &&& new_sig == list_signature(peers)
        &&& if list_signature(peers) == old_sig {
            report.len() == 0
        } else {
            report.len() == 1 && (report[0] matches RuntimeEvent::PeerList(v) && peer_views(v@) == peers)
        }
    }
}

/// An optional event as a sequence of events.
pub open spec fn opt_events(e: Option<RuntimeEvent>) -> Seq<RuntimeEvent> {
    match e {
        Some(x) => seq![x],
        None => Seq::empty(),
    }
}

impl DiscoveryState {
    /// Peer ids and request ids are unique.
    pub open spec fn wf(&self) -> bool {
        &&& unique_peer_ids(peer_views(self.discovered@))
        &&& unique_incoming(self.pending_incoming@)
        &&& unique_outgoing(self.pending_outgoing@)
    }

    /// Nothing seen, nothing reported, nothing pending.
    pub fn new() -> (r: Self)
        ensures
            r.wf(),
            r.discovered@.len() == 0,
            r.last_signature@.len() == 0,
            r.last_error is None,
            r.pending_incoming@.len() == 0,
            r.pending_outgoing@.len() == 0,
    {
        DiscoveryState {
            discovered: Vec::new(),
            last_signature: Vec::new(),
            last_error: None,
            pending_incoming: Vec::new(),
            pending_outgoing: Vec::new(),
        }
    }

    /// Discovery was switched off: pending requests and the last error are
    /// forgotten; when a non-empty list was reported, the table is emptied
    /// and an empty list is reported.
    pub fn disable(&mut self) -> (r: Option<RuntimeEvent>)
        requires
            old(self).wf(),
        ensures
            final(self).wf(),
            final(self).last_error is None,
            final(self).pending_incoming@.len() == 0,
            final(self).pending_outgoing@.len() == 0,
            if old(self).last_signature@.len() > 0 {
                &&& final(self).discovered@.len() == 0
                &&& final(self).last_signature@.len() == 0
                &&& r matches Some(RuntimeEvent::PeerList(v)) && v@.len() == 0
            } else {
                &&& final(self).discovered@ == old(self).discovered@
                &&& final(self).last_signature@ == old(self).last_signature@
                &&& r is None
            },
    {
        self.last_error = None;
        self.pending_incoming = Vec::new();
        self.pending_outgoing = Vec::new();
        if self.last_signature.len() > 0 {
            self.discovered = Vec::new();
            self.last_signature = Vec::new();
            proof {
                assert(peer_views(self.discovered@) =~= Seq::<PeerView>::empty());
            }
            Some(RuntimeEvent::PeerList(Vec::new()))
        } else {
            None
        }
    }

    /// Reports an error unless it is the one reported last.
    pub fn report_error(&mut self, message: String) -> (r: Option<RuntimeEvent>)
        ensures
            final(self).discovered == old(self).discovered,
            final(self).last_signature == old(self).last_signature,
            final(self).pending_incoming == old(self).pending_incoming,
            final(self).pending_outgoing == old(self).pending_outgoing,
            final(self).last_error == Some(message),
            match old(self).last_error {
                Some(m) if m@ == message@ => r is None,
                _ => r == Some(RuntimeEvent::Status(message)),
            },
    {
        let same = match &self.last_error {
            Some(m) => str_eq(m.as_str(), message.as_str()),
            None => false,
        };
        if same {
            proof {
                assert(self.last_error->0@ == message@);
            }
            self.last_error = Some(message);
            None
        } else {
            self.last_error = Some(message.clone());
            Some(RuntimeEvent::Status(message))
        }
    }

    /// Forgets the last error.
    pub fn clear_error(&mut self)
        ensures
            final(self).last_error is None,
            final(self).discovered == old(self).discovered,
            final(self).last_signature == old(self).last_signature,
            final(self).pending_incoming == old(self).pending_incoming,
            final(self).pending_outgoing == old(self).pending_outgoing,
    {
        self.last_error = None;
    }

    /// Reports the peer list when it differs from the one reported last.
    pub fn emit_snapshot(&mut self) -> (r: Option<RuntimeEvent>)
        ensures
            final(self).discovered == old(self).discovered,
            final(self).pending_incoming == old(self).pending_incoming,
            final(self).pending_outgoing == old(self).pending_outgoing,
            final(self).last_error == old(self).last_error,
            exists|peers: Seq<PeerView>| {
                &&& #[trigger] reported_list(peer_views(old(self).discovered@), peers)
                &&& signature_views(final(self).last_signature@) == list_signature(peers)
                &&& if list_signature(peers) == signature_views(old(self).last_signature@) {
                    r is None
                } else {
                    r matches Some(RuntimeEvent::PeerList(v)) && peer_views(v@) == peers
                }
            },
    {
        let peers = sorted_discovered_peers(&self.discovered);
        let sig = signature_list(&peers);
        proof {
            assert(reported_list(peer_views(self.discovered@), peer_views(peers@)));
        }
        if signatures_equal(&sig, &self.last_signature) {
            self.last_signature = sig;
            None
        } else {
            self.last_signature = sig;
            Some(RuntimeEvent::PeerList(peers))
        }
    }

    /// Drops the peers not heard from in time, then reports the list when it changed.
    pub fn refresh(&mut self, now: i128) -> (r: Option<RuntimeEvent>)
        requires
            old(self).wf(),
        ensures
            final(self).wf(),
            peer_views(final(self).discovered@) == peer_views(old(self).discovered@).filter(|p: PeerView| still_online(p, now)),
            final(self).pending_incoming == old(self).pending_incoming,
            final(self).pending_outgoing == old(self).pending_outgoing,
            final(self).last_error == old(self).last_error,
            exists|peers: Seq<PeerView>| {
                &&& #[trigger] reported_list(peer_views(final(self).discovered@), peers)
                &&& signature_views(final(self).last_signature@) == list_signature(peers)
                &&& if list_signature(peers) == signature_views(old(self).last_signature@) {
                    r is None
                } else {
                    r matches Some(RuntimeEvent::PeerList(v)) && peer_views(v@) == peers
                }
            },
    {
        let ghost t0 = peer_views(self.discovered@);
        prune_stale_discovered_peers(&mut self.discovered, now);
        proof {
            crate::discovery::lemma_filter_unique(t0, |p: PeerView| still_online(p, now));
        }
        self.emit_snapshot()
    }

    /// Records a peer heard at `now`, drops the silent ones, and reports the
    /// list when it changed.
    pub fn observe_peer(&mut self, peer: DiscoveredPeer, now: i128) -> (r: Option<RuntimeEvent>)
        requires
            old(self).wf(),
        ensures
            final(self).wf(),
            peer_views(final(self).discovered@) == merge_all_spec(peer_views(old(self).discovered@), seq![peer@], now).filter(
                |p: PeerView| still_online(p, now),
            ),
            final(self).pending_incoming == old(self).pending_incoming,
            final(self).pending_outgoing == old(self).pending_outgoing,
            final(self).last_error == old(self).last_error,
            exists|peers: Seq<PeerView>| {
                &&& #[trigger] reported_list(peer_views(final(self).discovered@), peers)
                &&& signature_views(final(self).last_signature@) == list_signature(peers)
                &&& if list_signature(peers) == signature_views(old(self).last_signature@) {
                    r is None
                } else {
                    r matches Some(RuntimeEvent::PeerList(v)) && peer_views(v@) == peers
                }
            },
    {
        let ghost t0 = peer_views(self.discovered@);
        let mut batch: Vec<DiscoveredPeer> = Vec::new();
        batch.push(peer);
        proof {
            assert(peer_views(batch@) =~= seq![peer@]);
        }
        merge_announced_peers(&mut self.discovered, batch, now);
        proof {
            assert(seq![peer@].drop_last() =~= Seq::<PeerView>::empty());
            assert(merge_all_spec(t0, Seq::<PeerView>::empty(), now) == t0);
            assert(merge_all_spec(t0, seq![peer@], now) == crate::discovery::merge_one_spec(t0, crate::discovery::seen_at(peer@, now)));
            crate::discovery::lemma_merge_one_unique(t0, crate::discovery::seen_at(peer@, now));
        }
        self.refresh(now)
    }

    /// Forgets the outgoing request with the id, returning it.
    #[verifier::loop_isolation(false)]
    pub fn take_outgoing(&mut self, request_id: u128) -> (r: Option<PendingOutgoingTrustRequest>)
        requires
            old(self).wf(),
        ensures
            final(self).wf(),
            final(self).discovered == old(self).discovered,
            final(self).last_signature == old(self).last_signature,
            final(self).last_error == old(self).last_error,
            final(self).pending_incoming == old(self).pending_incoming,
            match r {
                Some(p) => p.request_id == request_id && old(self).pending_outgoing@.contains(p)
                    && final(self).pending_outgoing@.to_multiset() == old(self).pending_outgoing@.to_multiset().remove(p)
                    && exists|i: int| 0 <= i < old(self).pending_outgoing@.len() && old(self).pending_outgoing@[i] == p
                        && final(self).pending_outgoing@ == old(self).pending_outgoing@.remove(i),
                None => final(self).pending_outgoing == old(self).pending_outgoing && forall|i: int| 0 <= i < old(self).pending_outgoing@.len() ==> old(self).pending_outgoing@[i].request_id != request_id,
            },
    {
        let mut i: usize = 0;
        while i < self.pending_outgoing.len()
            invariant
                i <= self.pending_outgoing@.len(),
                forall|k: int| 0 <= k < i ==> self.pending_outgoing@[k].request_id != request_id,
            decreases self.pending_outgoing@.len() - i,
        {
            if self.pending_outgoing[i].request_id == request_id {
                break;
            }
            i = i + 1;
        }
        if i >= self.pending_outgoing.len() {
            return None;
        }
        let ghost before = self.pending_outgoing@;
        let p = self.pending_outgoing.remove(i);
        proof {
            vstd::seq_lib::to_multiset_remove(before, i as int);
            assert(before[i as int] == p);
            assert(before.contains(p));
            assert forall|a: int, b: int| 0 <= a < b < self.pending_outgoing@.len() implies self.pending_outgoing@[a].request_id
                != self.pending_outgoing@[b].request_id by {
                let a2 = if a < i { a } else { a + 1 };
                let b2 = if b < i { b } else { b + 1 };
                assert(self.pending_outgoing@[a] == before[a2]);
                assert(self.pending_outgoing@[b] == before[b2]);
            }
        }
        Some(p)
    }

    /// Forgets the incoming request with the id, returning it.
    #[verifier::loop_isolation(false)]
    pub fn take_incoming(&mut self, request_id: u128) -> (r: Option<PendingIncomingTrustRequest>)
        requires
            old(self).wf(),
        ensures
            final(self).wf(),
            final(self).discovered == old(self).discovered,
            final(self).last_signature == old(self).last_signature,
            final(self).last_error == old(self).last_error,
            final(self).pending_outgoing == old(self).pending_outgoing,
            match r {
                Some(p) => p.request_id == request_id && old(self).pending_incoming@.contains(p)
                    && final(self).pending_incoming@.to_multiset() == old(self).pending_incoming@.to_multiset().remove(p),
                None => final(self).pending_incoming == old(self).pending_incoming && forall|i: int| 0 <= i < old(self).pending_incoming@.len() ==> old(self).pending_incoming@[i].request_id != request_id,
            },
    {
        let mut i: usize = 0;
        while i < self.pending_incoming.len()
            invariant
                i <= self.pending_incoming@.len(),
                forall|k: int| 0 <= k < i ==> self.pending_incoming@[k].request_id != request_id,
            decreases self.pending_incoming@.len() - i,
        {
            if self.pending_incoming[i].request_id == request_id {
                break;
            }
            i = i + 1;
        }
        if i >= self.pending_incoming.len() {
            return None;
        }
        let ghost before = self.pending_incoming@;
        let p = self.pending_incoming.remove(i);
        proof {
            vstd::seq_lib::to_multiset_remove(before, i as int);
            assert(before[i as int] == p);
            assert(before.contains(p));
            assert forall|a: int, b: int| 0 <= a < b < self.pending_incoming@.len() implies self.pending_incoming@[a].request_id
                != self.pending_incoming@[b].request_id by {
                let a2 = if a < i { a } else { a + 1 };
                let b2 = if b < i { b } else { b + 1 };
                assert(self.pending_incoming@[a] == before[a2]);
                assert(self.pending_incoming@[b] == before[b2]);
            }
        }
        Some(p)
    }

    /// Records a trust request that was sent: earlier requests to the same
    /// device are forgotten, and one with the same id is replaced.
    #[verifier::loop_isolation(false)]
    pub fn record_outgoing(&mut self, request_id: u128, peer: DiscoveredPeer)
        requires
            old(self).wf(),
        ensures
            final(self).wf(),
            final(self).discovered == old(self).discovered,
            final(self).last_signature == old(self).last_signature,
            final(self).last_error == old(self).last_error,
            final(self).pending_incoming == old(self).pending_incoming,
            exists|i: int| 0 <= i < final(self).pending_outgoing@.len() && final(self).pending_outgoing@[i].request_id == request_id
                && final(self).pending_outgoing@[i].peer == peer,
            forall|i: int| 0 <= i < final(self).pending_outgoing@.len() && final(self).pending_outgoing@[i].request_id != request_id
                ==> old(self).pending_outgoing@.contains(#[trigger] final(self).pending_outgoing@[i])
                && !same_device(final(self).pending_outgoing@[i].peer@, peer@),
            forall|i: int| 0 <= i < old(self).pending_outgoing@.len() && old(self).pending_outgoing@[i].request_id != request_id
                && !same_device(old(self).pending_outgoing@[i].peer@, peer@) ==> final(self).pending_outgoing@.contains(#[trigger] old(self).pending_outgoing@[i]),
    {
        let ghost before = self.pending_outgoing@;
        let mut kept: Vec<PendingOutgoingTrustRequest> = Vec::new();
        let mut rest: Vec<PendingOutgoingTrustRequest> = Vec::new();
        core::mem::swap(&mut rest, &mut self.pending_outgoing);
        let mut k: usize = 0;
        let _n = rest.len();
        proof {
            assert(before.skip(0) =~= before);
        }
        while rest.len() > 0
            invariant
                k + rest@.len() == before.len(),
                before.len() <= usize::MAX,
                rest@ == before.skip(k as int),
                unique_outgoing(before),
                forall|i: int, j: int| 0 <= i < j < kept@.len() ==> kept@[i].request_id != kept@[j].request_id,
                forall|i: int| 0 <= i < kept@.len() ==> before.take(k as int).contains(#[trigger] kept@[i]) && kept@[i].request_id != request_id
                    && !same_device(kept@[i].peer@, peer@),
                forall|i: int| 0 <= i < k && before[i].request_id != request_id && !same_device(before[i].peer@, peer@) ==> kept@.contains(#[trigger] before[i]),
            decreases rest@.len(),
        {
            proof {
                assert(before.skip(k as int)[0] == before[k as int]);
            }
            let e = rest.remove(0);
            proof {
                assert(rest@ =~= before.skip(k + 1));
            }
            let same = e.request_id == request_id || (str_eq(e.peer.device_id.as_str(), peer.device_id.as_str()) && str_eq(
                e.peer.fingerprint.as_str(),
                peer.fingerprint.as_str(),
            ));
            let ghost kept0 = kept@;
            if !same {
                kept.push(e);
            }
            proof {
                assert forall|i: int| 0 <= i < kept@.len() implies before.take(k + 1).contains(#[trigger] kept@[i]) && kept@[i].request_id != request_id
                    && !same_device(kept@[i].peer@, peer@) by {
                    if i < kept0.len() {
                        assert(before.take(k as int).contains(kept0[i]));
                        let q = choose|q: int| 0 <= q < k && before.take(k as int)[q] == kept0[i];
                        assert(before.take(k + 1)[q] == kept0[i]);
                    } else {
                        assert(before.take(k + 1)[k as int] == before[k as int]);
                    }
                }
                assert forall|i: int, j: int| 0 <= i < j < kept@.len() implies kept@[i].request_id != kept@[j].request_id by {
                    if j >= kept0.len() {
                        assert(before.take(k as int).contains(kept0[i]));
                        let q = choose|q: int| 0 <= q < k && before.take(k as int)[q] == kept0[i];
                        assert(before[q] == kept0[i]);
                    }
                }
                assert forall|i: int| 0 <= i < k + 1 && before[i].request_id != request_id && !same_device(before[i].peer@, peer@) implies kept@.contains(#[trigger] before[i]) by {
                    if i < k {
                        assert(kept0.contains(before[i]));
                        let q = choose|q: int| 0 <= q < kept0.len() && kept0[q] == before[i];
                        assert(kept@[q] == before[i]);
                    } else {
                        assert(kept@[kept@.len() - 1] == before[i]);
                    }
                }
            }
            k = k + 1;
        }
        proof {
            assert(before.take(k as int) =~= before);
        }
        let ghost kept1 = kept@;
        kept.push(PendingOutgoingTrustRequest { request_id, peer });
        proof {
            assert(kept@[kept@.len() - 1].request_id == request_id);
            assert forall|i: int| 0 <= i < kept@.len() && kept@[i].request_id != request_id implies before.contains(#[trigger] kept@[i])
                && !same_device(kept@[i].peer@, peer@) by {
                assert(i < kept1.len());
                assert(kept@[i] == kept1[i]);
            }
            assert forall|i: int| 0 <= i < before.len() && before[i].request_id != request_id && !same_device(before[i].peer@, peer@) implies kept@.contains(#[trigger] before[i]) by {
                assert(kept1.contains(before[i]));
                let q = choose|q: int| 0 <= q < kept1.len() && kept1[q] == before[i];
                assert(kept@[q] == before[i]);
            }
        }
        self.pending_outgoing = kept;
        proof {
            assert(self.pending_outgoing@[self.pending_outgoing@.len() - 1].request_id == request_id);
        }
    }

    /// Records a trust request received from a peer that is not trusted yet:
    /// earlier requests from the same device are forgotten, and one with the
    /// same id is replaced.
    #[verifier::loop_isolation(false)]
    pub fn record_incoming(&mut self, request_id: u128, source: SocketAddress, peer: DiscoveredPeer)
        requires
            old(self).wf(),
        ensures
            final(self).wf(),
            final(self).discovered == old(self).discovered,
            final(self).last_signature == old(self).last_signature,
            final(self).last_error == old(self).last_error,
            final(self).pending_outgoing == old(self).pending_outgoing,
            exists|i: int| 0 <= i < final(self).pending_incoming@.len() && final(self).pending_incoming@[i].request_id == request_id
                && final(self).pending_incoming@[i].peer == peer && final(self).pending_incoming@[i].source == source,
            forall|i: int| 0 <= i < final(self).pending_incoming@.len() && final(self).pending_incoming@[i].request_id != request_id
                ==> old(self).pending_incoming@.contains(#[trigger] final(self).pending_incoming@[i])
                && !same_device(final(self).pending_incoming@[i].peer@, peer@),
            forall|i: int| 0 <= i < old(self).pending_incoming@.len() && old(self).pending_incoming@[i].request_id != request_id
                && !same_device(old(self).pending_incoming@[i].peer@, peer@) ==> final(self).pending_incoming@.contains(#[trigger] old(self).pending_incoming@[i]),
    {
        let ghost before = self.pending_incoming@;
        let mut kept: Vec<PendingIncomingTrustRequest> = Vec::new();
        let mut rest: Vec<PendingIncomingTrustRequest> = Vec::new();
        core::mem::swap(&mut rest, &mut self.pending_incoming);
        let mut k: usize = 0;
        let _n = rest.len();
        proof {
            assert(before.skip(0) =~= before);
        }
        while rest.len() > 0
            invariant
                k + rest@.len() == before.len(),
                before.len() <= usize::MAX,
                rest@ == before.skip(k as int),
                unique_incoming(before),
                forall|i: int, j: int| 0 <= i < j < kept@.len() ==> kept@[i].request_id != kept@[j].request_id,
                forall|i: int| 0 <= i < kept@.len() ==> before.take(k as int).contains(#[trigger] kept@[i]) && kept@[i].request_id != request_id
                    && !same_device(kept@[i].peer@, peer@),
                forall|i: int| 0 <= i < k && before[i].request_id != request_id && !same_device(before[i].peer@, peer@) ==> kept@.contains(#[trigger] before[i]),
            decreases rest@.len(),
        {
            proof {
                assert(before.skip(k as int)[0] == before[k as int]);
            }
            let e = rest.remove(0);
            proof {
                assert(rest@ =~= before.skip(k + 1));
            }
            let same = e.request_id == request_id || (str_eq(e.peer.device_id.as_str(), peer.device_id.as_str()) && str_eq(
                e.peer.fingerprint.as_str(),
                peer.fingerprint.as_str(),
            ));
            let ghost kept0 = kept@;
            if !same {
                kept.push(e);
            }
            proof {
                assert forall|i: int| 0 <= i < kept@.len() implies before.take(k + 1).contains(#[trigger] kept@[i]) && kept@[i].request_id != request_id
                    && !same_device(kept@[i].peer@, peer@) by {
                    if i < kept0.len() {
                        assert(before.take(k as int).contains(kept0[i]));
                        let q = choose|q: int| 0 <= q < k && before.take(k as int)[q] == kept0[i];
                        assert(before.take(k + 1)[q] == kept0[i]);
                    } else {
                        assert(before.take(k + 1)[k as int] == before[k as int]);
                    }
                }
                assert forall|i: int, j: int| 0 <= i < j < kept@.len() implies kept@[i].request_id != kept@[j].request_id by {
                    if j >= kept0.len() {
                        assert(before.take(k as int).contains(kept0[i]));
                        let q = choose|q: int| 0 <= q < k && before.take(k as int)[q] == kept0[i];
                        assert(before[q] == kept0[i]);
                    }
                }
                assert forall|i: int| 0 <= i < k + 1 && before[i].request_id != request_id && !same_device(before[i].peer@, peer@) implies kept@.contains(#[trigger] before[i]) by {
                    if i < k {
                        assert(kept0.contains(before[i]));
                        let q = choose|q: int| 0 <= q < kept0.len() && kept0[q] == before[i];
                        assert(kept@[q] == before[i]);
                    } else {
                        assert(kept@[kept@.len() - 1] == before[i]);
                    }
                }
            }
            k = k + 1;
        }
        proof {
            assert(before.take(k as int) =~= before);
        }
        let ghost kept1 = kept@;
        kept.push(PendingIncomingTrustRequest { request_id, source, peer });
        proof {
            assert(kept@[kept@.len() - 1].request_id == request_id);
            assert forall|i: int| 0 <= i < kept@.len() && kept@[i].request_id != request_id implies before.contains(#[trigger] kept@[i])
                && !same_device(kept@[i].peer@, peer@) by {
                assert(i < kept1.len());
                assert(kept@[i] == kept1[i]);
            }
            assert forall|i: int| 0 <= i < before.len() && before[i].request_id != request_id && !same_device(before[i].peer@, peer@) implies kept@.contains(#[trigger] before[i]) by {
                assert(kept1.contains(before[i]));
                let q = choose|q: int| 0 <= q < kept1.len() && kept1[q] == before[i];
                assert(kept@[q] == before[i]);
            }
        }
        self.pending_incoming = kept;
        proof {
            assert(self.pending_incoming@[self.pending_incoming@.len() - 1].request_id == request_id);
        }
    }

    /// An announcement arrived: the peer is recorded, the list reported when
    /// it changed, and the last error forgotten.
    pub fn on_announce(&mut self, peer: DiscoveredPeer, now: i128) -> (r: Option<RuntimeEvent>)
        requires
            old(self).wf(),
        ensures
            final(self).wf(),
            peer_views(final(self).discovered@) == merge_all_spec(peer_views(old(self).discovered@), seq![peer@], now).filter(
                |p: PeerView| still_online(p, now),
            ),
            final(self).pending_incoming == old(self).pending_incoming,
            final(self).pending_outgoing == old(self).pending_outgoing,
            final(self).last_error is None,
            peer_list_report(
                signature_views(old(self).last_signature@),
                peer_views(final(self).discovered@),
                signature_views(final(self).last_signature@),
                opt_events(r),
            ),
    {
        let r = self.observe_peer(peer, now);
        proof {
            let peers = choose|peers: Seq<PeerView>| {
                &&& #[trigger] reported_list(peer_views(self.discovered@), peers)
                &&& signature_views(self.last_signature@) == list_signature(peers)
                &&& if list_signature(peers) == signature_views(old(self).last_signature@) {
                    r is None
                } else {
                    r matches Some(RuntimeEvent::PeerList(v)) && peer_views(v@) == peers
                }
            };
            assert(reported_list(peer_views(self.discovered@), peers));
        }
        self.clear_error();
        r
    }

    /// A trust request arrived from a peer: the peer is recorded; a peer that
    /// is already trusted gets an automatic acceptance (`auto_accept`),
    /// otherwise the request is kept for the user and reported.
    pub fn on_trust_request(
        &mut self,
        source: SocketAddress,
        request_id: u128,
        peer: DiscoveredPeer,
        now: i128,
        already_trusted: bool,
    ) -> (r: (Vec<RuntimeEvent>, bool))
        requires
            old(self).wf(),
        ensures
            final(self).wf(),
            peer_views(final(self).discovered@) == merge_all_spec(peer_views(old(self).discovered@), seq![peer@], now).filter(
                |p: PeerView| still_online(p, now),
            ),
            final(self).pending_outgoing == old(self).pending_outgoing,
            r.1 == already_trusted,
            already_trusted ==> final(self).pending_incoming == old(self).pending_incoming && r.0@.len() <= 1
                && final(self).last_error == old(self).last_error,
            !already_trusted ==> {
                &&& r.0@.len() >= 1
                &&& r.0@.last() matches RuntimeEvent::TrustRequestReceived { request_id: rid, peer: p } && rid == request_id && p == peer
                &&& exists|i: int| 0 <= i < final(self).pending_incoming@.len() && final(self).pending_incoming@[i].request_id == request_id
                    && final(self).pending_incoming@[i].peer == peer && final(self).pending_incoming@[i].source == source
                &&& final(self).last_error is None
            },
            forall|i: int| 0 <= i < r.0@.len() - 1 ==> r.0@[i] is PeerList,
            already_trusted && r.0@.len() == 1 ==> r.0@[0] is PeerList,
            peer_list_report(
                signature_views(old(self).last_signature@),
                peer_views(final(self).discovered@),
                signature_views(final(self).last_signature@),
                if already_trusted { r.0@ } else { r.0@.drop_last() },
            ),
    {
        let mut events: Vec<RuntimeEvent> = Vec::new();
        let snapshot = self.observe_peer(peer.clone(), now);
        proof {
            let peers = choose|peers: Seq<PeerView>| {
                &&& #[trigger] reported_list(peer_views(self.discovered@), peers)
                &&& signature_views(self.last_signature@) == list_signature(peers)
                &&& if list_signature(peers) == signature_views(old(self).last_signature@) {
                    snapshot is None
                } else {
                    snapshot matches Some(RuntimeEvent::PeerList(v)) && peer_views(v@) == peers
                }
            };
            assert(reported_list(peer_views(self.discovered@), peers));
        }
        match snapshot {
            Some(e) => events.push(e),
            None => {},
        }
        proof {
            assert(events@ =~= opt_events(snapshot));
        }
        if already_trusted {
            return (events, true);
        }
        self.record_incoming(request_id, source, peer.clone());
        let ghost before = events@;
        events.push(RuntimeEvent::TrustRequestReceived { request_id, peer });
        proof {
            assert(events@.drop_last() =~= before);
        }
        self.clear_error();
        (events, false)
    }

    /// The answer to one of this device's trust requests arrived. Unknown
    /// answers are ignored; otherwise the request is settled, the peer
    /// recorded, and the outcome reported: a failure when the answering
    /// device is not the one asked.
    pub fn on_trust_decision(&mut self, request_id: u128, peer: DiscoveredPeer, accepted: bool, now: i128) -> (r: Vec<RuntimeEvent>)
        requires
            old(self).wf(),
        ensures
            final(self).wf(),
            final(self).pending_incoming == old(self).pending_incoming,
            (forall|i: int| 0 <= i < old(self).pending_outgoing@.len() ==> old(self).pending_outgoing@[i].request_id != request_id) ==> {
                &&& r@.len() == 0
                &&& final(self).discovered == old(self).discovered
                &&& final(self).pending_outgoing == old(self).pending_outgoing
                &&& final(self).last_error == old(self).last_error
            },
            (exists|i: int| 0 <= i < old(self).pending_outgoing@.len() && old(self).pending_outgoing@[i].request_id == request_id) ==> {
                &&& peer_views(final(self).discovered@) == merge_all_spec(peer_views(old(self).discovered@), seq![peer@], now).filter(
                    |p: PeerView| still_online(p, now),
                )
                &&& 1 <= r@.len() <= 2
                &&& forall|i: int| 0 <= i < r@.len() - 1 ==> r@[i] is PeerList
                &&& peer_list_report(
                    signature_views(old(self).last_signature@),
                    peer_views(final(self).discovered@),
                    signature_views(final(self).last_signature@),
                    r@.drop_last(),
                )
                &&& exists|i: int| #![trigger old(self).pending_outgoing@[i]] 0 <= i < old(self).pending_outgoing@.len() && old(self).pending_outgoing@[i].request_id == request_id && {
                    let asked = old(self).pending_outgoing@[i].peer;
                    &&& final(self).pending_outgoing@.to_multiset() == old(self).pending_outgoing@.to_multiset().remove(
                        old(self).pending_outgoing@[i],
                    )
                    &&& forall|k: int| 0 <= k < final(self).pending_outgoing@.len() ==> (#[trigger] final(self).pending_outgoing@[k]).request_id != request_id
                    &&& if same_device(asked@, peer@) {
                        r@.last() == (RuntimeEvent::TrustRequestCompleted { peer, accepted })
                    } else {
                        r@.last() matches RuntimeEvent::TrustRequestFailed { peer_device_id, message } && peer_device_id == asked.device_id
                            && message@ == "The trust response did not match the requested device identity."@
                    }
                }
            },
    {
        let ghost before = self.pending_outgoing@;
        let requested = match self.take_outgoing(request_id) {
            Some(p) => p,
            None => {
                return Vec::new();
            },
        };
        let ghost after = self.pending_outgoing@;
        proof {
            let i = choose|i: int| 0 <= i < before.len() && before[i] == requested && after == before.remove(i);
            assert forall|k: int| 0 <= k < after.len() implies (#[trigger] after[k]).request_id != request_id by {
                if k < i {
                    assert(after[k] == before[k]);
                } else {
                    assert(after[k] == before[k + 1]);
                }
            }
            assert(before[i].request_id == request_id);
        }
        let mut events: Vec<RuntimeEvent> = Vec::new();
        let ghost sig0 = signature_views(self.last_signature@);
        let snapshot = self.observe_peer(peer.clone(), now);
        proof {
            let peers = choose|peers: Seq<PeerView>| {
                &&& #[trigger] reported_list(peer_views(self.discovered@), peers)
                &&& signature_views(self.last_signature@) == list_signature(peers)
                &&& if list_signature(peers) == sig0 {
                    snapshot is None
                } else {
                    snapshot matches Some(RuntimeEvent::PeerList(v)) && peer_views(v@) == peers
                }
            };
            assert(reported_list(peer_views(self.discovered@), peers));
        }
        match snapshot {
            Some(e) => events.push(e),
            None => {},
        }
        let ghost before = events@;
        proof {
            assert(before =~= opt_events(snapshot));
        }
        let matches = str_eq(peer.device_id.as_str(), requested.peer.device_id.as_str()) && str_eq(
            peer.fingerprint.as_str(),
            requested.peer.fingerprint.as_str(),
        );
        if !matches {
            events.push(RuntimeEvent::TrustRequestFailed {
                peer_device_id: requested.peer.device_id,
                message: "The trust response did not match the requested device identity.".to_string(),
            });
        } else {
            events.push(RuntimeEvent::TrustRequestCompleted { peer, accepted });
            self.clear_error();
        }
        proof {
            assert(events@.drop_last() =~= before);
        }
        events
    }
}

} // verus!
