//! The list of trusted peers: reconciling it with what a peer now calls
//! itself, adding and removing peers, and the messages of bulk requests.

use vstd::prelude::*;

use crate::controller::devices::lemma_has_text_push;
use crate::model::{peer_views, trusted_views, DiscoveredPeer, PeerView, TrustedPeer, TrustedPeerView};
use crate::runtime::has_text;
use crate::sorting::{sort_vec, TotalPreorder};
use crate::text::{
    chars_of, decimal_chars, decimal_spec, extend_chars, extend_str, lemma_push_contains,
    lemma_seq_lt_irreflexive, lemma_seq_lt_total, lemma_seq_lt_trans, seq_le, seq_lt, str_eq,
    string_of, trim, trim_spec, LexOrder, lex_le,
};

verus! {

/// What reconciling the trusted list with a peer's identity changed.
#[derive(Debug)]
pub struct TrustedPeerFingerprintReconcileResult {
    pub changed: bool,
    pub removed_device_ids: Vec<String>,
}

/// The record a peer identity makes.
pub open spec fn peer_record(device_id: Seq<char>, device_name: Seq<char>, fingerprint: Seq<char>) -> TrustedPeerView {
    TrustedPeerView { device_id, device_name, fingerprint }
}

/// Some record carries the fingerprint.
pub open spec fn fingerprint_listed(t: Seq<TrustedPeerView>, fingerprint: Seq<char>) -> bool {
    exists|i: int| 0 <= i < t.len() && t[i].fingerprint == fingerprint
}

/// Number of records that carry the fingerprint.
pub open spec fn fingerprint_count(t: Seq<TrustedPeerView>, fingerprint: Seq<char>) -> nat
    decreases t.len(),
{
    if t.len() == 0 {
        0
    } else {
        fingerprint_count(t.drop_last(), fingerprint) + if t.last().fingerprint == fingerprint { 1nat } else { 0nat }
    }
}

/// The trusted list after reconciling with a peer identity: when some record
/// carries the peer's fingerprint, all such records are replaced by one
/// record of the identity, at the end.
pub open spec fn reconciled_list(t: Seq<TrustedPeerView>, p: TrustedPeerView) -> Seq<TrustedPeerView> {
    if fingerprint_listed(t, p.fingerprint) {
        t.filter(|x: TrustedPeerView| x.fingerprint != p.fingerprint).push(p)
    } else {
        t
    }
}

/// Whether reconciling changes anything: several records carried the
/// fingerprint, or the one that did differs from the identity.
pub open spec fn reconcile_changes(t: Seq<TrustedPeerView>, p: TrustedPeerView) -> bool {
    fingerprint_count(t, p.fingerprint) >= 2 || (fingerprint_count(t, p.fingerprint) == 1
        && exists|i: int| 0 <= i < t.len() && t[i].fingerprint == p.fingerprint && t[i] != p)
}

/// A device id that reconciling drops: that of a record with the
/// fingerprint under another device id.
pub open spec fn dropped_id(t: Seq<TrustedPeerView>, p: TrustedPeerView, id: Seq<char>) -> bool {
    exists|i: int| 0 <= i < t.len() && t[i].fingerprint == p.fingerprint && t[i].device_id == id && id != p.device_id
}

/// Strictly increasing, hence free of duplicates.
pub open spec fn strictly_sorted(s: Seq<String>) -> bool {
    forall|i: int, j: int| 0 <= i < j < s.len() ==> seq_lt(s[i]@, s[j]@)
}

impl TotalPreorder for String {
    open spec fn le(a: Self, b: Self) -> bool {
        seq_le(a@, b@)
    }

    proof fn lemma_total(a: Self, b: Self) {
        lemma_seq_lt_total(a@, b@);
    }

    proof fn lemma_trans(a: Self, b: Self, c: Self) {
        if seq_lt(a@, b@) && seq_lt(b@, c@) {
            lemma_seq_lt_trans(a@, b@, c@);
        }
    }

    fn le_exec(&self, other: &Self) -> (r: bool) {
        match crate::text::compare_str(self.as_str(), other.as_str()) {
            LexOrder::Greater => false,
            _ => true,
        }
    }
}

/// The texts sorted, each once.
pub fn sorted_distinct(v: Vec<String>) -> (r: Vec<String>)
    ensures
        strictly_sorted(r@),
        forall|x: Seq<char>| #[trigger] has_text(r@, x) <==> has_text(v@, x),
{
    let mut out: Vec<String> = Vec::new();
    let mut i: usize = 0;
    while i < v.len()
        invariant
            i <= v@.len(),
            strictly_sorted(out@),
            forall|x: Seq<char>| #[trigger] has_text(out@, x) <==> has_text(v@.take(i as int), x),
        decreases v@.len() - i,
    {
        let x = &v[i];
        let mut p: usize = 0;
        while p < out.len() && matches!(crate::text::compare_str(out[p].as_str(), x.as_str()), LexOrder::Less)
            invariant
                p <= out@.len(),
                forall|k: int| 0 <= k < p ==> seq_lt(#[trigger] out@[k]@, x@),
            decreases out@.len() - p,
        {
            p = p + 1;
        }
        let ghost o0 = out@;
        let present = p < out.len() && str_eq(out[p].as_str(), x.as_str());
        if !present {
            proof {
                if p < o0.len() {
                    lemma_seq_lt_total(o0[p as int]@, x@);
                    assert(seq_lt(x@, o0[p as int]@));
                    assert forall|k: int| p <= k < o0.len() implies seq_lt(x@, #[trigger] o0[k]@) by {
                        if k > p {
                            lemma_seq_lt_trans(x@, o0[p as int]@, o0[k]@);
                        }
                    }
                }
            }
            out.insert(p, x.clone());
            proof {
                assert forall|a: int, b: int| 0 <= a < b < out@.len() implies seq_lt(out@[a]@, out@[b]@) by {
                    if b == p {
                        assert(out@[a] == o0[a]);
                    } else if a == p {
                        assert(out@[b] == o0[b - 1]);
                        assert(seq_lt(x@, o0[b - 1]@));
                    } else if a < p && b > p {
                        assert(out@[a] == o0[a]);
                        assert(out@[b] == o0[b - 1]);
                        assert(seq_lt(x@, o0[b - 1]@));
                        lemma_seq_lt_trans(o0[a]@, x@, o0[b - 1]@);
                    } else if a > p {
                        assert(out@[a] == o0[a - 1]);
                        assert(out@[b] == o0[b - 1]);
                    } else {
                        assert(out@[a] == o0[a]);
                        assert(out@[b] == o0[b]);
                    }
                }
            }
        }
        proof {
            assert(v@.take(i + 1) =~= v@.take(i as int).push(v@[i as int]));
            assert forall|y: Seq<char>| #[trigger] has_text(out@, y) <==> has_text(v@.take(i + 1), y) by {
                if has_text(v@.take(i + 1), y) {
                    let k = choose|k: int| 0 <= k < v@.take(i + 1).len() && #[trigger] v@.take(i + 1)[k]@ == y;
                    if k < i {
                        assert(v@.take(i as int)[k] == v@.take(i + 1)[k]);
                        assert(has_text(v@.take(i as int), y));
                        assert(has_text(o0, y));
                        let q = choose|q: int| 0 <= q < o0.len() && #[trigger] o0[q]@ == y;
                        if present {
                            assert(out@[q]@ == y);
                        } else if q < p {
                            assert(out@[q]@ == y);
                        } else {
                            assert(out@[q + 1]@ == y);
                        }
                    } else {
                        if present {
                            assert(out@[p as int]@ == y);
                        } else {
                            assert(out@[p as int]@ == y);
                        }
                    }
                }
                if has_text(out@, y) {
                    let k = choose|k: int| 0 <= k < out@.len() && #[trigger] out@[k]@ == y;
                    if present {
                        assert(has_text(o0, y));
                        let q = choose|q: int| 0 <= q < v@.take(i as int).len() && #[trigger] v@.take(i as int)[q]@ == y;
                        assert(v@.take(i + 1)[q]@ == y);
                    } else if k == p {
                        assert(v@.take(i + 1)[i as int]@ == y);
                    } else {
                        let k0 = if k < p { k } else { k - 1 };
                        assert(o0[k0]@ == y);
                        assert(has_text(o0, y));
                        let q = choose|q: int| 0 <= q < v@.take(i as int).len() && #[trigger] v@.take(i as int)[q]@ == y;
                        assert(v@.take(i + 1)[q]@ == y);
                    }
                }
            }
        }
        i = i + 1;
    }
    proof {
        assert(v@.take(i as int) =~= v@);
    }
    out
}

/// Reconciles the trusted list with a peer's current identity: the records
/// that carry its fingerprint collapse into one record of that identity.
/// Reports whether anything changed and, sorted and once each, the device
/// ids that the peer no longer uses.
pub fn reconcile_trusted_peer_by_fingerprint(
    trusted_peers: &mut Vec<TrustedPeer>,
    device_id: &str,
    device_name: &str,
    fingerprint: &str,
) -> (r: TrustedPeerFingerprintReconcileResult)
    ensures
        trusted_views(final(trusted_peers)@) == reconciled_list(trusted_views(old(trusted_peers)@), peer_record(device_id@, device_name@, fingerprint@)),
        r.changed == reconcile_changes(trusted_views(old(trusted_peers)@), peer_record(device_id@, device_name@, fingerprint@)),
        strictly_sorted(r.removed_device_ids@),
        forall|x: Seq<char>| #[trigger] has_text(r.removed_device_ids@, x)
            <==> dropped_id(trusted_views(old(trusted_peers)@), peer_record(device_id@, device_name@, fingerprint@), x),
{
    let ghost t = trusted_views(trusted_peers@);
    let ghost p = peer_record(device_id@, device_name@, fingerprint@);
    let ghost pred = |x: TrustedPeerView| x.fingerprint != fingerprint@;
    let mut kept: Vec<TrustedPeer> = Vec::new();
    let mut removed: Vec<String> = Vec::new();
    let mut matches: usize = 0;
    let mut differs = false;
    let mut i: usize = 0;
    while i < trusted_peers.len()
        invariant
            i <= trusted_peers@.len(),
            t == trusted_views(trusted_peers@),
            p == peer_record(device_id@, device_name@, fingerprint@),
            pred == (|x: TrustedPeerView| x.fingerprint != fingerprint@),
            trusted_views(kept@) == t.take(i as int).filter(pred),
            matches == fingerprint_count(t.take(i as int), fingerprint@),
            matches <= i,
            differs == exists|k: int| 0 <= k < i && t[k].fingerprint == fingerprint@ && t[k] != p,
            forall|x: Seq<char>| #[trigger] has_text(removed@, x) <==> dropped_id(t.take(i as int), p, x),
        decreases trusted_peers@.len() - i,
    {
        proof {
            reveal(Seq::filter);
            assert(t.take(i + 1).drop_last() =~= t.take(i as int));
            assert(t.take(i + 1).last() == trusted_peers@[i as int]@);
        }
        let e = &trusted_peers[i];
        let ghost r0 = removed@;
        if str_eq(e.fingerprint.as_str(), fingerprint) {
            matches = matches + 1;
            let same_id = str_eq(e.device_id.as_str(), device_id);
            if !same_id || !str_eq(e.device_name.as_str(), device_name) {
                differs = true;
            }
            if !same_id {
                removed.push(e.device_id.clone());
            }
        } else {
            kept.push(e.clone());
            proof {
                assert(trusted_views(kept@) =~= trusted_views(kept@.drop_last()).push(e@));
            }
        }
        proof {
            assert(t[i as int] == e@);
            assert forall|x: Seq<char>| #[trigger] has_text(removed@, x) <==> dropped_id(t.take(i + 1), p, x) by {
                if dropped_id(t.take(i + 1), p, x) {
                    let k = choose|k: int| 0 <= k < t.take(i + 1).len() && (#[trigger] t.take(i + 1)[k]).fingerprint == p.fingerprint && t.take(i + 1)[k].device_id == x && x != p.device_id;
                    if k < i {
                        assert(t.take(i as int)[k] == t.take(i + 1)[k]);
                        assert(dropped_id(t.take(i as int), p, x));
                        assert(has_text(r0, x));
                        let q = choose|q: int| 0 <= q < r0.len() && r0[q]@ == x;
                        assert(removed@[q]@ == x);
                    } else {
                        assert(removed@[removed@.len() - 1]@ == x);
                    }
                }
                if has_text(removed@, x) {
                    let k = choose|k: int| 0 <= k < removed@.len() && removed@[k]@ == x;
                    if k < r0.len() {
                        assert(r0[k]@ == x);
                        assert(has_text(r0, x));
                        assert(dropped_id(t.take(i as int), p, x));
                        let q = choose|q: int| 0 <= q < t.take(i as int).len() && (#[trigger] t.take(i as int)[q]).fingerprint == p.fingerprint && t.take(i as int)[q].device_id == x && x != p.device_id;
                        assert(t.take(i + 1)[q] == t.take(i as int)[q]);
                    } else {
                        assert(t.take(i + 1)[i as int] == e@);
                    }
                }
            }
        }
        i = i + 1;
    }
    proof {
        assert(t.take(i as int) =~= t);
    }
    let removed_sorted = sorted_distinct(removed);
    if matches == 0 {
        proof {
            assert(!fingerprint_listed(t, fingerprint@)) by {
                if fingerprint_listed(t, fingerprint@) {
                    let k = choose|k: int| 0 <= k < t.len() && t[k].fingerprint == fingerprint@;
                    lemma_count_pos(t, fingerprint@, k);
                }
            }
        }
        return TrustedPeerFingerprintReconcileResult { changed: false, removed_device_ids: removed_sorted };
    }
    proof {
        assert(fingerprint_listed(t, fingerprint@)) by {
            lemma_count_zero(t, fingerprint@);
        }
    }
    kept.push(TrustedPeer { device_id: device_id.to_string(), device_name: device_name.to_string(), fingerprint: fingerprint.to_string() });
    proof {
        assert(trusted_views(kept@) =~= t.filter(pred).push(p));
    }
    *trusted_peers = kept;
    let changed = matches >= 2 || differs;
    proof {
        if matches == 1 && differs {
        }
        if matches == 1 && !differs {
            assert(!(exists|i: int| 0 <= i < t.len() && t[i].fingerprint == p.fingerprint && t[i] != p));
        }
    }
    TrustedPeerFingerprintReconcileResult { changed, removed_device_ids: removed_sorted }
}

proof fn lemma_count_pos(t: Seq<TrustedPeerView>, fp: Seq<char>, k: int)
    requires
        0 <= k < t.len(),
        t[k].fingerprint == fp,
    ensures
        fingerprint_count(t, fp) > 0,
    decreases t.len(),
{
    if k < t.len() - 1 {
        lemma_count_pos(t.drop_last(), fp, k);
    }
}

proof fn lemma_count_zero(t: Seq<TrustedPeerView>, fp: Seq<char>)
    requires
        fingerprint_count(t, fp) > 0,
    ensures
        fingerprint_listed(t, fp),
    decreases t.len(),
{
    if t.last().fingerprint != fp {
        lemma_count_zero(t.drop_last(), fp);
        let k = choose|k: int| 0 <= k < t.drop_last().len() && t.drop_last()[k].fingerprint == fp;
        assert(t[k] == t.drop_last()[k]);
    } else {
        assert(t[t.len() - 1].fingerprint == fp);
    }
}

/// After reconciling, the peer's fingerprint is carried by exactly the one
/// record of its identity.
pub proof fn lemma_reconciled_single_record(t: Seq<TrustedPeerView>, p: TrustedPeerView)
    requires
        fingerprint_listed(t, p.fingerprint),
    ensures
        reconciled_list(t, p).contains(p),
        forall|i: int| 0 <= i < reconciled_list(t, p).len() && (#[trigger] reconciled_list(t, p)[i]).fingerprint == p.fingerprint
            ==> reconciled_list(t, p)[i] == p,
{
    broadcast use vstd::seq_lib::group_filter_ensures;
    let pred = |x: TrustedPeerView| x.fingerprint != p.fingerprint;
    let f = t.filter(pred);
    let r = reconciled_list(t, p);
    assert(r[f.len() as int] == p);
    assert forall|i: int| 0 <= i < r.len() && (#[trigger] r[i]).fingerprint == p.fingerprint implies r[i] == p by {
        if i < f.len() {
            t.lemma_filter_pred(pred, i);
        }
    }
}

/// The records of `s` with the device name, in order.
pub open spec fn peers_named(s: Seq<TrustedPeerView>, name: Seq<char>) -> Seq<TrustedPeerView>
    decreases s.len(),
{
    if s.len() == 0 {
        seq![]
    } else if s.last().device_name == name {
        peers_named(s.drop_last(), name).push(s.last())
    } else {
        peers_named(s.drop_last(), name)
    }
}

/// `r` holds the records of `s` ordered by device name; records with the same
/// name keep their order.
pub open spec fn sorted_by_name(s: Seq<TrustedPeerView>, r: Seq<TrustedPeerView>) -> bool {
    &&& forall|i: int, j: int| 0 <= i < j < r.len() ==> seq_le((#[trigger] r[i]).device_name, (#[trigger] r[j]).device_name)
    &&& forall|n: Seq<char>| #[trigger] peers_named(r, n) == peers_named(s, n)
}

proof fn lemma_named_concat(a: Seq<TrustedPeerView>, b: Seq<TrustedPeerView>, n: Seq<char>)
    ensures
        peers_named(a + b, n) == peers_named(a, n) + peers_named(b, n),
    decreases b.len(),
{
    if b.len() == 0 {
        assert(a + b =~= a);
        assert(peers_named(a, n) + seq![] =~= peers_named(a, n));
    } else {
        assert((a + b).drop_last() =~= a + b.drop_last());
        lemma_named_concat(a, b.drop_last(), n);
        if b.last().device_name == n {
            assert(peers_named(a, n) + peers_named(b.drop_last(), n).push(b.last()) =~= (peers_named(a, n)
                + peers_named(b.drop_last(), n)).push(b.last()));
        }
    }
}

proof fn lemma_named_none(b: Seq<TrustedPeerView>, n: Seq<char>)
    requires
        forall|k: int| 0 <= k < b.len() ==> (#[trigger] b[k]).device_name != n,
    ensures
        peers_named(b, n) == Seq::<TrustedPeerView>::empty(),
    decreases b.len(),
{
    if b.len() > 0 {
        lemma_named_none(b.drop_last(), n);
    }
}

proof fn lemma_named_one(x: TrustedPeerView, n: Seq<char>)
    ensures
        peers_named(seq![x], n) == if x.device_name == n {
            seq![x]
        } else {
            Seq::<TrustedPeerView>::empty()
        },
{
    assert(seq![x].drop_last() =~= Seq::<TrustedPeerView>::empty());
    assert(seq![x].last() == x);
    assert(peers_named(Seq::<TrustedPeerView>::empty(), n) == Seq::<TrustedPeerView>::empty());
    assert(Seq::<TrustedPeerView>::empty().push(x) =~= seq![x]);
}

/// Orders the records by device name; records with the same name keep their order.
pub fn sort_trusted_by_name(v: Vec<TrustedPeer>) -> (r: Vec<TrustedPeer>)
    ensures
        sorted_by_name(trusted_views(v@), trusted_views(r@)),
        trusted_views(r@).to_multiset() == trusted_views(v@).to_multiset(),
{
    let ghost s = trusted_views(v@);
    let mut out: Vec<TrustedPeer> = Vec::new();
    let mut i: usize = 0;
    proof {
        assert(trusted_views(out@) =~= s.take(0));
    }
    while i < v.len()
        invariant
            i <= v@.len(),
            s == trusted_views(v@),
            forall|a: int, b: int| 0 <= a < b < out@.len() ==> seq_le((#[trigger] out@[a]).device_name@, (#[trigger] out@[b]).device_name@),
            forall|n: Seq<char>| #[trigger] peers_named(trusted_views(out@), n) == peers_named(s.take(i as int), n),
            trusted_views(out@).to_multiset() == s.take(i as int).to_multiset(),
        decreases v@.len() - i,
    {
        let x = v[i].clone();
        let mut p: usize = 0;
        while p < out.len() && !lex_le(x.device_name.as_str(), out[p].device_name.as_str()).0
            invariant
                p <= out@.len(),
                forall|k: int| 0 <= k < p ==> seq_le((#[trigger] out@[k]).device_name@, x.device_name@),
            decreases out@.len() - p,
        {
            proof {
                lemma_seq_lt_total(x.device_name@, out@[p as int].device_name@);
            }
            p = p + 1;
        }
        let ghost before = out@;
        let ghost bv = trusted_views(before);
        out.insert(p, x);
        proof {
            assert(out@ =~= before.insert(p as int, x));
            if p < before.len() {
                assert(seq_lt(x.device_name@, before[p as int].device_name@));
            }
            assert forall|a: int, b: int| 0 <= a < b < out@.len() implies seq_le((#[trigger] out@[a]).device_name@, (#[trigger] out@[b]).device_name@) by {
                if a < p && b == p {
                } else if a < p && b > p {
                    assert(out@[b] == before[b - 1]);
                    if b - 1 > a {
                        assert(seq_le(before[a].device_name@, before[b - 1].device_name@));
                    }
                } else if a == p && b > p {
                    assert(out@[b] == before[b - 1]);
                    if b - 1 > p {
                        assert(seq_le(before[p as int].device_name@, before[b - 1].device_name@));
                        if seq_lt(before[p as int].device_name@, before[b - 1].device_name@) {
                            lemma_seq_lt_trans(x.device_name@, before[p as int].device_name@, before[b - 1].device_name@);
                        }
                    }
                } else if a > p {
                    assert(out@[a] == before[a - 1]);
                    assert(out@[b] == before[b - 1]);
                }
            }
            let ov = trusted_views(out@);
            assert(ov =~= bv.insert(p as int, x@));
            vstd::seq_lib::to_multiset_insert(bv, p as int, x@);
            assert(s.take(i + 1) =~= s.take(i as int).push(x@));
            s.take(i as int).to_multiset_ensures();
            assert(ov =~= bv.take(p as int) + seq![x@] + bv.skip(p as int));
            assert(bv =~= bv.take(p as int) + bv.skip(p as int));
            assert(s.take(i + 1) =~= s.take(i as int).push(x@));
            assert forall|n: Seq<char>| #[trigger] peers_named(ov, n) == peers_named(s.take(i + 1), n) by {
                lemma_named_concat(bv.take(p as int) + seq![x@], bv.skip(p as int), n);
                lemma_named_concat(bv.take(p as int), seq![x@], n);
                lemma_named_concat(bv.take(p as int), bv.skip(p as int), n);
                lemma_named_one(x@, n);
                assert(s.take(i + 1).drop_last() =~= s.take(i as int));
                if x.device_name@ == n {
                    assert forall|k: int| 0 <= k < bv.skip(p as int).len() implies (#[trigger] bv.skip(p as int)[k]).device_name != n by {
                        assert(bv.skip(p as int)[k] == bv[p + k]);
                        lemma_seq_lt_irreflexive(n);
                        if k > 0 {
                            assert(seq_le(before[p as int].device_name@, before[p + k].device_name@));
                            if seq_lt(before[p as int].device_name@, before[p + k].device_name@) {
                                lemma_seq_lt_trans(x.device_name@, before[p as int].device_name@, before[p + k].device_name@);
                            }
                        }
                    }
                    lemma_named_none(bv.skip(p as int), n);
                    assert(peers_named(ov, n) =~= peers_named(bv, n).push(x@));
                } else {
                    assert(peers_named(ov, n) =~= peers_named(bv, n));
                }
            }
        }
        i = i + 1;
    }
    proof {
        assert(s.take(i as int) =~= s);
    }
    out
}

/// Position of the first record with the device id, or the length.
pub open spec fn id_index(t: Seq<TrustedPeerView>, id: Seq<char>) -> nat
    decreases t.len(),
{
    if t.len() == 0 {
        0
    } else if t[0].device_id == id {
        0
    } else {
        1 + id_index(t.drop_first(), id)
    }
}

proof fn lemma_id_index(t: Seq<TrustedPeerView>, id: Seq<char>, i: int)
    requires
        0 <= i <= t.len(),
        forall|k: int| 0 <= k < i ==> (#[trigger] t[k]).device_id != id,
        i == t.len() || t[i].device_id == id,
    ensures
        id_index(t, id) == i,
    decreases t.len(),
{
    if t.len() > 0 && i > 0 {
        assert forall|k: int| 0 <= k < i - 1 implies (#[trigger] t.drop_first()[k]).device_id != id by {
            assert(t.drop_first()[k] == t[k + 1]);
        }
        lemma_id_index(t.drop_first(), id, i - 1);
    }
}

/// Whether placing a record by device id changes the list: none has the id,
/// or the first that does differs.
pub open spec fn place_changes(t: Seq<TrustedPeerView>, p: TrustedPeerView) -> bool {
    let i = id_index(t, p.device_id);
    i >= t.len() || t[i as int] != p
}

/// The list with the record placed by device id: it replaces the first
/// record with its id, or is appended.
pub open spec fn placed(t: Seq<TrustedPeerView>, p: TrustedPeerView) -> Seq<TrustedPeerView> {
    let i = id_index(t, p.device_id);
    if i < t.len() {
        t.update(i as int, p)
    } else {
        t.push(p)
    }
}

/// Whether trusting a peer identity changes the trusted list.
pub open spec fn trust_updates(t: Seq<TrustedPeerView>, p: TrustedPeerView) -> bool {
    reconcile_changes(t, p) || place_changes(reconciled_list(t, p), p)
}

/// The trusted list before ordering: reconciled by fingerprint, then the
/// record placed by device id unless reconciling changed something.
pub open spec fn trusted_after(t: Seq<TrustedPeerView>, p: TrustedPeerView) -> Seq<TrustedPeerView> {
    let r = reconciled_list(t, p);
    if !reconcile_changes(t, p) && place_changes(r, p) {
        placed(r, p)
    } else {
        r
    }
}

/// Outcome of trusting a peer identity.
pub struct TrustApplyResult {
    pub updated: bool,
    pub removed_device_ids: Vec<String>,
}

fn same_record(a: &TrustedPeer, b: &TrustedPeer) -> (r: bool)
    ensures
        r == (a@ == b@),
{
    str_eq(a.device_id.as_str(), b.device_id.as_str()) && str_eq(a.device_name.as_str(), b.device_name.as_str())
        && str_eq(a.fingerprint.as_str(), b.fingerprint.as_str())
}

/// Trusts a peer identity in the trusted list: reconciles by fingerprint,
/// otherwise adds or replaces the record of its device id; when that changed
/// the list, orders it by device name. Reports the change and the device ids
/// the peer no longer uses.
pub fn apply_trusted_peer_list(trusted_peers: &mut Vec<TrustedPeer>, next_peer: TrustedPeer) -> (r: TrustApplyResult)
    ensures
        r.updated == trust_updates(trusted_views(old(trusted_peers)@), next_peer@),
        r.updated ==> sorted_by_name(trusted_after(trusted_views(old(trusted_peers)@), next_peer@), trusted_views(final(trusted_peers)@)),
        !r.updated ==> trusted_views(final(trusted_peers)@) == reconciled_list(trusted_views(old(trusted_peers)@), next_peer@),
        strictly_sorted(r.removed_device_ids@),
        forall|x: Seq<char>| #[trigger] has_text(r.removed_device_ids@, x) <==> dropped_id(trusted_views(old(trusted_peers)@), next_peer@, x),
{
    let ghost t0 = trusted_views(trusted_peers@);
    let rec = reconcile_trusted_peer_by_fingerprint(
        trusted_peers,
        next_peer.device_id.as_str(),
        next_peer.device_name.as_str(),
        next_peer.fingerprint.as_str(),
    );
    let ghost rl = trusted_views(trusted_peers@);
    let mut updated = rec.changed;
    if !updated {
        let mut i: usize = 0;
        while i < trusted_peers.len() && !str_eq(trusted_peers[i].device_id.as_str(), next_peer.device_id.as_str())
            invariant
                i <= trusted_peers@.len(),
                rl == trusted_views(trusted_peers@),
                forall|k: int| 0 <= k < i ==> (#[trigger] rl[k]).device_id != next_peer.device_id@,
            decreases trusted_peers@.len() - i,
        {
            i = i + 1;
        }
        proof {
            lemma_id_index(rl, next_peer.device_id@, i as int);
        }
        if i < trusted_peers.len() {
            if !same_record(&trusted_peers[i], &next_peer) {
                let ghost before = trusted_peers@;
                trusted_peers.set(i, next_peer);
                proof {
                    assert(trusted_views(trusted_peers@) =~= trusted_views(before).update(i as int, next_peer@));
                }
                updated = true;
            }
        } else {
            let ghost before = trusted_peers@;
            trusted_peers.push(next_peer);
            proof {
                assert(trusted_views(trusted_peers@) =~= trusted_views(before).push(next_peer@));
            }
            updated = true;
        }
    }
    if updated {
        let mut taken: Vec<TrustedPeer> = Vec::new();
        core::mem::swap(&mut taken, trusted_peers);
        *trusted_peers = sort_trusted_by_name(taken);
    }
    TrustApplyResult { updated, removed_device_ids: rec.removed_device_ids }
}

/// Removes the records of a device id; gives the name of the first one, or
/// nothing when no record had the id.
pub fn remove_trusted_by_id(trusted_peers: &mut Vec<TrustedPeer>, device_id: &str) -> (r: Option<String>)
    ensures
        trusted_views(final(trusted_peers)@) == trusted_views(old(trusted_peers)@).filter(
            |x: TrustedPeerView| x.device_id != device_id@,
        ),
        fingerprints_unique(trusted_views(old(trusted_peers)@)) ==> fingerprints_unique(
            trusted_views(final(trusted_peers)@),
        ),
        match r {
            Some(name) => id_index(trusted_views(old(trusted_peers)@), device_id@) < old(trusted_peers)@.len()
                && name@ == trusted_views(old(trusted_peers)@)[id_index(trusted_views(old(trusted_peers)@), device_id@) as int].device_name,
            None => id_index(trusted_views(old(trusted_peers)@), device_id@) >= old(trusted_peers)@.len(),
        },
{
    let ghost t = trusted_views(trusted_peers@);
    let ghost pred = |x: TrustedPeerView| x.device_id != device_id@;
    let mut kept: Vec<TrustedPeer> = Vec::new();
    let mut name: Option<String> = None;
    let mut i: usize = 0;
    while i < trusted_peers.len()
        invariant
            i <= trusted_peers@.len(),
            t == trusted_views(trusted_peers@),
            pred == (|x: TrustedPeerView| x.device_id != device_id@),
            trusted_views(kept@) == t.take(i as int).filter(pred),
            match name {
                Some(n) => id_index(t, device_id@) < i && n@ == t[id_index(t, device_id@) as int].device_name,
                None => forall|k: int| 0 <= k < i ==> (#[trigger] t[k]).device_id != device_id@,
            },
        decreases trusted_peers@.len() - i,
    {
        let p = &trusted_peers[i];
        proof {
            reveal(Seq::filter);
            assert(t.take(i + 1).drop_last() =~= t.take(i as int));
            assert(t.take(i + 1).last() == p@);
        }
        if str_eq(p.device_id.as_str(), device_id) {
            if name.is_none() {
                proof {
                    lemma_id_index(t, device_id@, i as int);
                }
                name = Some(p.device_name.clone());
            }
        } else {
            let c = p.clone();
            let ghost before = trusted_views(kept@);
            kept.push(c);
            proof {
                assert(trusted_views(kept@) =~= before.push(c@));
            }
        }
        i = i + 1;
    }
    proof {
        assert(t.take(i as int) =~= t);
        if name is None {
            lemma_id_index(t, device_id@, i as int);
        }
        if fingerprints_unique(t) {
            assert forall|fp: Seq<char>| #[trigger] fingerprint_count(trusted_views(kept@), fp) <= 1 by {
                lemma_count_filter_le(t, pred, fp);
            }
        }
    }
    *trusted_peers = kept;
    name
}

proof fn lemma_named_contains(s: Seq<TrustedPeerView>, x: TrustedPeerView)
    ensures
        s.contains(x) <==> peers_named(s, x.device_name).contains(x),
    decreases s.len(),
{
    if s.len() > 0 {
        let t = s.drop_last();
        lemma_named_contains(t, x);
        let pt = peers_named(t, x.device_name);
        if s.contains(x) {
            let k = choose|k: int| 0 <= k < s.len() && s[k] == x;
            if k < t.len() {
                assert(t[k] == x);
                assert(t.contains(x));
                if s.last().device_name == x.device_name {
                    let m = choose|m: int| 0 <= m < pt.len() && pt[m] == x;
                    assert(pt.push(s.last())[m] == x);
                }
            } else {
                assert(pt.push(s.last())[pt.len() as int] == x);
            }
        }
        if peers_named(s, x.device_name).contains(x) {
            if s.last().device_name == x.device_name {
                let v = pt.push(s.last());
                let m = choose|m: int| 0 <= m < v.len() && v[m] == x;
                if m < pt.len() {
                    assert(pt[m] == x);
                    assert(pt.contains(x));
                    let k = choose|k: int| 0 <= k < t.len() && t[k] == x;
                    assert(s[k] == x);
                } else {
                    assert(s[s.len() - 1] == x);
                }
            } else {
                let k = choose|k: int| 0 <= k < t.len() && t[k] == x;
                assert(s[k] == x);
            }
        }
    }
}

/// Ordering by name keeps exactly the records.
pub proof fn lemma_sorted_by_name_members(s: Seq<TrustedPeerView>, r: Seq<TrustedPeerView>)
    requires
        sorted_by_name(s, r),
    ensures
        forall|x: TrustedPeerView| r.contains(x) <==> s.contains(x),
{
    assert forall|x: TrustedPeerView| r.contains(x) <==> s.contains(x) by {
        lemma_named_contains(r, x);
        lemma_named_contains(s, x);
        assert(peers_named(r, x.device_name) == peers_named(s, x.device_name));
    }
}

/// After trusting a peer identity, the trusted list holds its record.
pub proof fn lemma_trusted_after_contains(t: Seq<TrustedPeerView>, p: TrustedPeerView, r: Seq<TrustedPeerView>)
    requires
        trust_updates(t, p) ==> sorted_by_name(trusted_after(t, p), r),
        !trust_updates(t, p) ==> r == reconciled_list(t, p),
    ensures
        r.contains(p),
{
    let rl = reconciled_list(t, p);
    let i = id_index(rl, p.device_id);
    if fingerprint_listed(t, p.fingerprint) {
        lemma_reconciled_single_record(t, p);
    }
    let after = trusted_after(t, p);
    if !reconcile_changes(t, p) && place_changes(rl, p) {
        if i < rl.len() {
            assert(rl.update(i as int, p)[i as int] == p);
        } else {
            assert(rl.push(p)[rl.len() as int] == p);
        }
        assert(after.contains(p));
    } else if !reconcile_changes(t, p) {
        if !fingerprint_listed(t, p.fingerprint) {
            assert(rl == t);
            assert(!place_changes(rl, p));
            assert(rl[i as int] == p);
        }
        assert(rl.contains(p));
    }
    if trust_updates(t, p) {
        if reconcile_changes(t, p) {
            if !fingerprint_listed(t, p.fingerprint) {
                assert(fingerprint_count(t, p.fingerprint) == 0) by {
                    lemma_count_unlisted(t, p.fingerprint);
                }
            }
            assert(after == rl);
        }
        assert(after.contains(p));
        lemma_sorted_by_name_members(after, r);
    }
}

proof fn lemma_count_unlisted(t: Seq<TrustedPeerView>, fingerprint: Seq<char>)
    requires
        !fingerprint_listed(t, fingerprint),
    ensures
        fingerprint_count(t, fingerprint) == 0,
    decreases t.len(),
{
    if t.len() > 0 {
        assert(!fingerprint_listed(t.drop_last(), fingerprint)) by {
            if fingerprint_listed(t.drop_last(), fingerprint) {
                let k = choose|k: int| 0 <= k < t.drop_last().len() && t.drop_last()[k].fingerprint == fingerprint;
                assert(t[k].fingerprint == fingerprint);
            }
        }
        lemma_count_unlisted(t.drop_last(), fingerprint);
        assert(t[t.len() - 1].fingerprint != fingerprint);
    }
}

/// No two records carry the same fingerprint.
pub open spec fn fingerprints_unique(t: Seq<TrustedPeerView>) -> bool {
    forall|fp: Seq<char>| #[trigger] fingerprint_count(t, fp) <= 1
}

proof fn lemma_count_push(t: Seq<TrustedPeerView>, p: TrustedPeerView, fp: Seq<char>)
    ensures
        fingerprint_count(t.push(p), fp) == fingerprint_count(t, fp) + if p.fingerprint == fp { 1nat } else { 0nat },
{
    assert(t.push(p).drop_last() =~= t);
}

proof fn lemma_count_without(t: Seq<TrustedPeerView>, q: Seq<char>, fp: Seq<char>)
    ensures
        fingerprint_count(t.filter(|x: TrustedPeerView| x.fingerprint != q), fp) == if fp == q {
            0nat
        } else {
            fingerprint_count(t, fp)
        },
    decreases t.len(),
{
    let pred = |x: TrustedPeerView| x.fingerprint != q;
    if t.len() > 0 {
        lemma_count_without(t.drop_last(), q, fp);
        let f0 = t.drop_last().filter(pred);
        assert(t =~= t.drop_last().push(t.last()));
        t.drop_last().lemma_filter_push(t.last(), pred);
        if pred(t.last()) {
            lemma_count_push(f0, t.last(), fp);
        }
    }
}

proof fn lemma_count_filter_le(t: Seq<TrustedPeerView>, pred: spec_fn(TrustedPeerView) -> bool, fp: Seq<char>)
    ensures
        fingerprint_count(t.filter(pred), fp) <= fingerprint_count(t, fp),
    decreases t.len(),
{
    if t.len() > 0 {
        lemma_count_filter_le(t.drop_last(), pred, fp);
        assert(t =~= t.drop_last().push(t.last()));
        t.drop_last().lemma_filter_push(t.last(), pred);
        if pred(t.last()) {
            lemma_count_push(t.drop_last().filter(pred), t.last(), fp);
        }
    }
}

proof fn lemma_count_concat(a: Seq<TrustedPeerView>, b: Seq<TrustedPeerView>, fp: Seq<char>)
    ensures
        fingerprint_count(a + b, fp) == fingerprint_count(a, fp) + fingerprint_count(b, fp),
    decreases b.len(),
{
    if b.len() == 0 {
        assert(a + b =~= a);
    } else {
        lemma_count_concat(a, b.drop_last(), fp);
        assert((a + b).drop_last() =~= a + b.drop_last());
        assert((a + b).last() == b.last());
    }
}

proof fn lemma_count_remove(r: Seq<TrustedPeerView>, k: int, fp: Seq<char>)
    requires
        0 <= k < r.len(),
    ensures
        fingerprint_count(r, fp) == fingerprint_count(r.remove(k), fp) + if r[k].fingerprint == fp {
            1nat
        } else {
            0nat
        },
{
    let one = seq![r[k]];
    assert(r =~= r.take(k) + one + r.skip(k + 1));
    assert(r.remove(k) =~= r.take(k) + r.skip(k + 1));
    lemma_count_concat(r.take(k) + one, r.skip(k + 1), fp);
    lemma_count_concat(r.take(k), one, fp);
    lemma_count_concat(r.take(k), r.skip(k + 1), fp);
    assert(one.drop_last() =~= Seq::<TrustedPeerView>::empty());
    assert(fingerprint_count(Seq::<TrustedPeerView>::empty(), fp) == 0);
    assert(fingerprint_count(one, fp) == if r[k].fingerprint == fp { 1nat } else { 0nat });
}

/// Two lists of the same records carry each fingerprint equally often.
proof fn lemma_count_same_records(s: Seq<TrustedPeerView>, r: Seq<TrustedPeerView>, fp: Seq<char>)
    requires
        s.to_multiset() == r.to_multiset(),
    ensures
        fingerprint_count(s, fp) == fingerprint_count(r, fp),
    decreases s.len(),
{
    broadcast use {vstd::seq_lib::group_to_multiset_ensures, vstd::multiset::group_multiset_axioms};
    if s.len() == 0 {
        vstd::seq_lib::to_multiset_len(s);
        vstd::seq_lib::to_multiset_len(r);
        assert(r.len() == 0);
        assert(r =~= s);
    } else {
        let x = s.last();
        let s0 = s.drop_last();
        assert(s =~= s0.push(x));
        assert(s.to_multiset() =~= s0.to_multiset().insert(x));
        assert(r.to_multiset().count(x) > 0);
        assert(r.contains(x));
        let k = choose|k: int| 0 <= k < r.len() && r[k] == x;
        assert(r.remove(k).to_multiset() =~= r.to_multiset().remove(x));
        assert(r.remove(k).to_multiset() =~= s0.to_multiset());
        lemma_count_same_records(s0, r.remove(k), fp);
        lemma_count_remove(r, k, fp);
    }
}

/// Reconciling with a peer identity keeps every fingerprint on at most one
/// record, and leaves the peer's fingerprint on at most one record whatever
/// the list held before.
pub proof fn lemma_reconcile_keeps_fingerprints_unique(t: Seq<TrustedPeerView>, p: TrustedPeerView)
    ensures
        fingerprint_count(reconciled_list(t, p), p.fingerprint) <= 1,
        forall|fp: Seq<char>| fp != p.fingerprint ==> #[trigger] fingerprint_count(reconciled_list(t, p), fp)
            == fingerprint_count(t, fp),
        fingerprints_unique(t) ==> fingerprints_unique(reconciled_list(t, p)),
{
    let pred = |x: TrustedPeerView| x.fingerprint != p.fingerprint;
    if fingerprint_listed(t, p.fingerprint) {
        assert forall|fp: Seq<char>| #[trigger] fingerprint_count(reconciled_list(t, p), fp) == if fp == p.fingerprint {
            1nat
        } else {
            fingerprint_count(t, fp)
        } by {
            lemma_count_without(t, p.fingerprint, fp);
            lemma_count_push(t.filter(pred), p, fp);
        }
    } else {
        lemma_count_unlisted(t, p.fingerprint);
    }
}

/// The identity a discovered peer announces, as a trusted record.
pub open spec fn announced_record(p: PeerView) -> TrustedPeerView {
    peer_record(p.device_id, p.device_name, p.fingerprint)
}

/// The trusted list after reconciling with each announced identity in turn.
pub open spec fn reconciled_with_all(t: Seq<TrustedPeerView>, peers: Seq<PeerView>) -> Seq<TrustedPeerView>
    decreases peers.len(),
{
    if peers.len() == 0 {
        t
    } else {
        reconciled_list(reconciled_with_all(t, peers.drop_last()), announced_record(peers.last()))
    }
}

/// Whether some step of that reconciliation changed the list.
pub open spec fn any_reconcile_changes(t: Seq<TrustedPeerView>, peers: Seq<PeerView>) -> bool
    decreases peers.len(),
{
    if peers.len() == 0 {
        false
    } else {
        any_reconcile_changes(t, peers.drop_last()) || reconcile_changes(
            reconciled_with_all(t, peers.drop_last()),
            announced_record(peers.last()),
        )
    }
}

/// A device id that some step of that reconciliation dropped.
pub open spec fn dropped_by_any(t: Seq<TrustedPeerView>, peers: Seq<PeerView>, id: Seq<char>) -> bool
    decreases peers.len(),
{
    if peers.len() == 0 {
        false
    } else {
        dropped_by_any(t, peers.drop_last(), id) || dropped_id(
            reconciled_with_all(t, peers.drop_last()),
            announced_record(peers.last()),
            id,
        )
    }
}

/// Reconciling the trusted list with the discovered peers leaves each
/// announced fingerprint on at most one record, and keeps a list without
/// duplicate fingerprints so.
pub proof fn lemma_discovered_reconcile_fingerprints(t: Seq<TrustedPeerView>, peers: Seq<PeerView>)
    ensures
        forall|k: int| 0 <= k < peers.len() ==> fingerprint_count(
            reconciled_with_all(t, peers),
            #[trigger] peers[k].fingerprint,
        ) <= 1,
        fingerprints_unique(t) ==> fingerprints_unique(reconciled_with_all(t, peers)),
    decreases peers.len(),
{
    if peers.len() > 0 {
        let prev = peers.drop_last();
        lemma_discovered_reconcile_fingerprints(t, prev);
        let before = reconciled_with_all(t, prev);
        let q = announced_record(peers.last());
        lemma_reconcile_keeps_fingerprints_unique(before, q);
        assert forall|k: int| 0 <= k < peers.len() implies fingerprint_count(
            reconciled_with_all(t, peers),
            #[trigger] peers[k].fingerprint,
        ) <= 1 by {
            if k < peers.len() - 1 {
                assert(peers[k] == prev[k]);
                if peers[k].fingerprint != q.fingerprint {
                    assert(fingerprint_count(reconciled_list(before, q), peers[k].fingerprint) == fingerprint_count(
                        before,
                        peers[k].fingerprint,
                    ));
                }
            }
        }
    }
}

/// Lists of the same records carry each fingerprint equally often.
pub proof fn lemma_same_records_same_counts(s: Seq<TrustedPeerView>, r: Seq<TrustedPeerView>)
    requires
        s.to_multiset() == r.to_multiset(),
    ensures
        forall|fp: Seq<char>| #[trigger] fingerprint_count(s, fp) == fingerprint_count(r, fp),
{
    assert forall|fp: Seq<char>| #[trigger] fingerprint_count(s, fp) == fingerprint_count(r, fp) by {
        lemma_count_same_records(s, r, fp);
    }
}

/// What reconciling the trusted list with the discovered peers changed.
pub struct TrustedPeerDiscoveryReconcileResult {
    pub devices_changed: bool,
    pub removed_device_ids: Vec<String>,
}

/// Reconciles the trusted list with every discovered peer's identity, in the
/// order discovered; when that changed the list, orders it by device name.
/// Reports the change and, sorted and once each, the device ids that the
/// peers no longer use.
pub fn reconcile_trusted_peers_with_discovered(
    trusted_peers: &mut Vec<TrustedPeer>,
    discovered_peers: &Vec<DiscoveredPeer>,
) -> (r: TrustedPeerDiscoveryReconcileResult)
    ensures
        r.devices_changed == any_reconcile_changes(trusted_views(old(trusted_peers)@), peer_views(discovered_peers@)),
        r.devices_changed ==> sorted_by_name(
            reconciled_with_all(trusted_views(old(trusted_peers)@), peer_views(discovered_peers@)),
            trusted_views(final(trusted_peers)@),
        ),
        !r.devices_changed ==> trusted_views(final(trusted_peers)@) == reconciled_with_all(
            trusted_views(old(trusted_peers)@),
            peer_views(discovered_peers@),
        ),
        strictly_sorted(r.removed_device_ids@),
        forall|x: Seq<char>| #[trigger] has_text(r.removed_device_ids@, x)
            <==> dropped_by_any(trusted_views(old(trusted_peers)@), peer_views(discovered_peers@), x),
        forall|k: int| 0 <= k < discovered_peers@.len() ==> fingerprint_count(
            trusted_views(final(trusted_peers)@),
            #[trigger] discovered_peers@[k].fingerprint@,
        ) <= 1,
        fingerprints_unique(trusted_views(old(trusted_peers)@)) ==> fingerprints_unique(
            trusted_views(final(trusted_peers)@),
        ),
{
    let ghost t0 = trusted_views(trusted_peers@);
    let ghost pv = peer_views(discovered_peers@);
    let mut changed = false;
    let mut removed: Vec<String> = Vec::new();
    let mut i: usize = 0;
    while i < discovered_peers.len()
        invariant
            i <= discovered_peers@.len(),
            pv == peer_views(discovered_peers@),
            trusted_views(trusted_peers@) == reconciled_with_all(t0, pv.take(i as int)),
            changed == any_reconcile_changes(t0, pv.take(i as int)),
            forall|x: Seq<char>| #[trigger] has_text(removed@, x) <==> dropped_by_any(t0, pv.take(i as int), x),
        decreases discovered_peers@.len() - i,
    {
        let peer = &discovered_peers[i];
        proof {
            assert(pv.take(i + 1).drop_last() =~= pv.take(i as int));
            assert(pv.take(i + 1).last() == peer@);
        }
        let rec = reconcile_trusted_peer_by_fingerprint(
            trusted_peers,
            peer.device_id.as_str(),
            peer.device_name.as_str(),
            peer.fingerprint.as_str(),
        );
        if rec.changed {
            changed = true;
        }
        let mut k: usize = 0;
        let ghost before = removed@;
        while k < rec.removed_device_ids.len()
            invariant
                k <= rec.removed_device_ids@.len(),
                forall|x: Seq<char>| #[trigger] has_text(removed@, x)
                    <==> (has_text(before, x) || has_text(rec.removed_device_ids@.take(k as int), x)),
            decreases rec.removed_device_ids@.len() - k,
        {
            let id = rec.removed_device_ids[k].clone();
            proof {
                lemma_has_text_push(removed@, id);
                lemma_has_text_push(rec.removed_device_ids@.take(k as int), id);
                assert(rec.removed_device_ids@.take(k + 1) =~= rec.removed_device_ids@.take(k as int).push(id));
            }
            removed.push(id);
            k = k + 1;
        }
        proof {
            assert(rec.removed_device_ids@.take(k as int) =~= rec.removed_device_ids@);
        }
        i = i + 1;
    }
    proof {
        assert(pv.take(i as int) =~= pv);
    }
    let ghost folded = trusted_views(trusted_peers@);
    if changed {
        let mut taken: Vec<TrustedPeer> = Vec::new();
        core::mem::swap(&mut taken, trusted_peers);
        *trusted_peers = sort_trusted_by_name(taken);
    }
    proof {
        lemma_discovered_reconcile_fingerprints(t0, pv);
        lemma_same_records_same_counts(folded, trusted_views(trusted_peers@));
        assert forall|k: int| 0 <= k < discovered_peers@.len() implies fingerprint_count(
            trusted_views(trusted_peers@),
            #[trigger] discovered_peers@[k].fingerprint@,
        ) <= 1 by {
            assert(pv[k].fingerprint == discovered_peers@[k].fingerprint@);
        }
        if fingerprints_unique(t0) {
            assert forall|fp: Seq<char>| #[trigger] fingerprint_count(trusted_views(trusted_peers@), fp) <= 1 by {
                assert(fingerprint_count(folded, fp) <= 1);
            }
        }
    }
    TrustedPeerDiscoveryReconcileResult { devices_changed: changed, removed_device_ids: sorted_distinct(removed) }
}

} // verus!
