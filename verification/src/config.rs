//! Application settings and the clean-up applied to them on load.

use vstd::prelude::*;

use crate::at_rest::LocalDataCipher;
use crate::error::AppResult;
use crate::ids::{id_text, id_to_string, new_random_id};
use crate::model::{trusted_views, TrustedPeer, TrustedPeerView};
use crate::paths::AppPaths;
use crate::sorting::{lemma_multiset_map, sort_vec, sorted_by, TotalPreorder};
use crate::text::{
    chars_of, compare_str, extend_str, lemma_seq_lt_asym, lemma_seq_lt_irreflexive,
    lemma_seq_lt_total, lemma_seq_lt_trans, seq_le, seq_lt, str_eq, string_of, take_chars,
    take_chars_spec, trim, trim_spec, LexOrder, lex_le,
};

verus! {

/// Hotkey used when none is configured.
pub const DEFAULT_HISTORY_POPUP_HOTKEY: &'static str = "CmdOrCtrl+Shift+V";

/// The user's settings.
#[derive(Debug)]
pub struct AppConfig {
    pub device_id: String,
    pub device_name: String,
    pub listen_port: u16,
    pub history_limit: usize,
    pub launch_at_login: bool,
    pub share_local_history: bool,
    pub prefer_remote_latest_on_paste: bool,
    pub discovery_enabled: bool,
    pub hotkey: String,
    pub trusted_peers: Vec<TrustedPeer>,
}

/// Clones a vector of trusted peers.
pub fn clone_peers(v: &Vec<TrustedPeer>) -> (r: Vec<TrustedPeer>)
    ensures
        r@ == v@,
{
    let mut out: Vec<TrustedPeer> = Vec::new();
    let mut i: usize = 0;
    while i < v.len()
        invariant
            i <= v@.len(),
            out@ == v@.take(i as int),
        decreases v@.len() - i,
    {
        out.push(v[i].clone());
        proof {
            assert(v@.take(i + 1) =~= v@.take(i as int).push(v@[i as int]));
        }
        i = i + 1;
    }
    proof {
        assert(v@.take(i as int) =~= v@);
    }
    out
}

impl Clone for AppConfig {
    fn clone(&self) -> (r: Self)
        ensures
            r.device_id == self.device_id,
            r.device_name == self.device_name,
            r.listen_port == self.listen_port,
            r.history_limit == self.history_limit,
            r.launch_at_login == self.launch_at_login,
            r.share_local_history == self.share_local_history,
            r.prefer_remote_latest_on_paste == self.prefer_remote_latest_on_paste,
            r.discovery_enabled == self.discovery_enabled,
            r.hotkey == self.hotkey,
            r.trusted_peers@ == self.trusted_peers@,
    {
        AppConfig {
            device_id: self.device_id.clone(),
            device_name: self.device_name.clone(),
            listen_port: self.listen_port,
            history_limit: self.history_limit,
            launch_at_login: self.launch_at_login,
            share_local_history: self.share_local_history,
            prefer_remote_latest_on_paste: self.prefer_remote_latest_on_paste,
            discovery_enabled: self.discovery_enabled,
            hotkey: self.hotkey.clone(),
            trusted_peers: clone_peers(&self.trusted_peers),
        }
    }
}

/// The view of an optional string slice.
pub open spec fn opt_str_view(o: Option<&str>) -> Option<Seq<char>> {
    match o {
        Some(s) => Some(s@),
        None => None,
    }
}

/// A name hint after trimming, when anything is left of it.
pub open spec fn hint_name(hint: Option<Seq<char>>) -> Option<Seq<char>> {
    match hint {
        Some(h) => if trim_spec(h).len() > 0 {
            Some(trim_spec(h))
        } else {
            None
        },
        None => None,
    }
}

/// The name a device gets when the user gave none: the application name and
/// the first eight characters of the device id.
pub open spec fn generated_name_spec(device_id: Seq<char>) -> Seq<char> {
    "ClipLink "@ + take_chars_spec(device_id, 8)
}

/// The generated default name of a device.
pub fn generated_default_device_name(device_id: &str) -> (r: String)
    ensures
        r@ == generated_name_spec(device_id@),
{
    let mut v = chars_of("ClipLink ");
    let id = chars_of(device_id);
    let head = take_chars(id.as_slice(), 8);
    crate::text::extend_chars(&mut v, head.as_slice());
    string_of(v.as_slice())
}

/// The trimmed hint, when it is not blank.
fn hint_value(hint: Option<&str>) -> (r: Option<String>)
    ensures
        crate::model::opt_view(r) == hint_name(opt_str_view(hint)),
{
    match hint {
        Some(h) => {
            let t = trim(h);
            if t.as_str().is_empty() {
                None
            } else {
                Some(t)
            }
        },
        None => None,
    }
}

/// A trusted peer with each field trimmed.
pub open spec fn trim_peer(p: TrustedPeerView) -> TrustedPeerView {
    TrustedPeerView {
        device_id: trim_spec(p.device_id),
        device_name: trim_spec(p.device_name),
        fingerprint: trim_spec(p.fingerprint),
    }
}

/// Trims every field of a trusted peer.
pub fn normalize_trusted_peer(peer: TrustedPeer) -> (r: TrustedPeer)
    ensures
        r@ == trim_peer(peer@),
{
    TrustedPeer {
        device_id: trim(peer.device_id.as_str()),
        device_name: trim(peer.device_name.as_str()),
        fingerprint: trim(peer.fingerprint.as_str()),
    }
}

/// Number of non-empty fields of a peer record.
pub open spec fn completeness(p: TrustedPeerView) -> nat {
    (if p.device_id.len() > 0 { 1nat } else { 0nat }) + (if p.device_name.len() > 0 {
        1nat
    } else {
        0nat
    }) + (if p.fingerprint.len() > 0 { 1nat } else { 0nat })
}

/// How many of a peer's fields are filled in.
pub fn trusted_peer_completeness(peer: &TrustedPeer) -> (r: u8)
    ensures
        r == completeness(peer@),
{
    let a: u8 = if peer.device_id.as_str().is_empty() { 0 } else { 1 };
    let b: u8 = if peer.device_name.as_str().is_empty() { 0 } else { 1 };
    let c: u8 = if peer.fingerprint.as_str().is_empty() { 0 } else { 1 };
    a + b + c
}

/// `a` if it is non-empty, else `b`.
pub open spec fn prefer(a: Seq<char>, b: Seq<char>) -> Seq<char> {
    if a.len() > 0 {
        a
    } else {
        b
    }
}

/// Merging a second record of the same peer into the first: empty fields are
/// filled from the candidate; when the candidate is at least as complete, its
/// non-empty fields win.
pub open spec fn merge_spec(e: TrustedPeerView, c: TrustedPeerView) -> TrustedPeerView {
    let filled = TrustedPeerView {
        device_id: prefer(e.device_id, c.device_id),
        device_name: prefer(e.device_name, c.device_name),
        fingerprint: prefer(e.fingerprint, c.fingerprint),
    };
    if completeness(c) < completeness(e) {
        filled
    } else {
        TrustedPeerView {
            device_id: prefer(c.device_id, filled.device_id),
            device_name: prefer(c.device_name, filled.device_name),
            fingerprint: prefer(c.fingerprint, filled.fingerprint),
        }
    }
}

/// Merging field by field: a candidate at least as complete as the existing
/// record wins every field it has (id, name and fingerprint alike) and the
/// existing record fills the rest; a less complete candidate only fills the
/// existing record's empty fields.
pub proof fn lemma_merge_fields(e: TrustedPeerView, c: TrustedPeerView)
    ensures
        completeness(c) >= completeness(e) ==> {
            &&& (c.device_id.len() > 0 ==> merge_spec(e, c).device_id == c.device_id)
            &&& (c.device_name.len() > 0 ==> merge_spec(e, c).device_name == c.device_name)
            &&& (c.fingerprint.len() > 0 ==> merge_spec(e, c).fingerprint == c.fingerprint)
            &&& (c.device_id.len() == 0 ==> merge_spec(e, c).device_id == e.device_id)
            &&& (c.device_name.len() == 0 ==> merge_spec(e, c).device_name == e.device_name)
            &&& (c.fingerprint.len() == 0 ==> merge_spec(e, c).fingerprint == e.fingerprint)
        },
        completeness(c) < completeness(e) ==> {
            &&& (e.device_id.len() > 0 ==> merge_spec(e, c).device_id == e.device_id)
            &&& (e.device_name.len() > 0 ==> merge_spec(e, c).device_name == e.device_name)
            &&& (e.fingerprint.len() > 0 ==> merge_spec(e, c).fingerprint == e.fingerprint)
            &&& (e.device_id.len() == 0 ==> merge_spec(e, c).device_id == c.device_id)
            &&& (e.device_name.len() == 0 ==> merge_spec(e, c).device_name == c.device_name)
            &&& (e.fingerprint.len() == 0 ==> merge_spec(e, c).fingerprint == c.fingerprint)
        },
{
}

/// Merges a second record of the same peer into `existing`.
pub fn merge_trusted_peer(existing: &mut TrustedPeer, candidate: TrustedPeer)
    ensures
        final(existing)@ == merge_spec(old(existing)@, candidate@),
{
    let existing_score = trusted_peer_completeness(existing);
    let candidate_score = trusted_peer_completeness(&candidate);
    let id = if existing.device_id.as_str().is_empty() { candidate.device_id.clone() } else { existing.device_id.clone() };
    let name = if existing.device_name.as_str().is_empty() { candidate.device_name.clone() } else { existing.device_name.clone() };
    let fp = if existing.fingerprint.as_str().is_empty() { candidate.fingerprint.clone() } else { existing.fingerprint.clone() };
    if candidate_score < existing_score {
        *existing = TrustedPeer { device_id: id, device_name: name, fingerprint: fp };
        return;
    }
    let id2 = if candidate.device_id.as_str().is_empty() { id } else { candidate.device_id };
    let name2 = if candidate.device_name.as_str().is_empty() { name } else { candidate.device_name };
    let fp2 = if candidate.fingerprint.as_str().is_empty() { fp } else { candidate.fingerprint };
    *existing = TrustedPeer { device_id: id2, device_name: name2, fingerprint: fp2 };
}

/// The key under which records of one peer are collapsed: its fingerprint,
/// or its device id when it has no fingerprint.
pub open spec fn peer_key(p: TrustedPeerView) -> Seq<char> {
    if p.fingerprint.len() == 0 {
        "id:"@ + p.device_id
    } else {
        "fp:"@ + p.fingerprint
    }
}

/// A collapsed peer record with its key.
pub ghost struct KeyedPeerView {
    pub key: Seq<char>,
    pub peer: TrustedPeerView,
}

/// Position of the first entry with the key, or the length.
pub open spec fn key_pos(c: Seq<KeyedPeerView>, key: Seq<char>) -> nat
    decreases c.len(),
{
    if c.len() == 0 {
        0
    } else if c[0].key == key {
        0
    } else {
        1 + key_pos(c.drop_first(), key)
    }
}

proof fn lemma_key_pos(c: Seq<KeyedPeerView>, key: Seq<char>, i: int)
    requires
        0 <= i <= c.len(),
        forall|j: int| 0 <= j < i ==> #[trigger] c[j].key != key,
        i == c.len() || c[i].key == key,
    ensures
        key_pos(c, key) == i,
    decreases c.len(),
{
    if c.len() > 0 && i > 0 {
        assert forall|j: int| 0 <= j < i - 1 implies #[trigger] c.drop_first()[j].key != key by {
            assert(c.drop_first()[j] == c[j + 1]);
        }
        lemma_key_pos(c.drop_first(), key, i - 1);
    }
}

proof fn lemma_key_pos_found(c: Seq<KeyedPeerView>, key: Seq<char>)
    ensures
        key_pos(c, key) <= c.len(),
        key_pos(c, key) < c.len() ==> c[key_pos(c, key) as int].key == key,
    decreases c.len(),
{
    if c.len() > 0 && c[0].key != key {
        lemma_key_pos_found(c.drop_first(), key);
        if key_pos(c, key) < c.len() {
            assert(c[key_pos(c, key) as int] == c.drop_first()[key_pos(c.drop_first(), key) as int]);
        }
    }
}

/// A record with neither device id nor fingerprint.
pub open spec fn blank_peer(p: TrustedPeerView) -> bool {
    p.device_id.len() == 0 && p.fingerprint.len() == 0
}

/// Records trimmed, blank ones dropped, and the records of each key merged
/// into the first one, in order of first appearance.
pub open spec fn collapse(s: Seq<TrustedPeerView>) -> Seq<KeyedPeerView>
    decreases s.len(),
{
    if s.len() == 0 {
        seq![]
    } else {
        let c = collapse(s.drop_last());
        let p = trim_peer(s.last());
        if blank_peer(p) {
            c
        } else {
            let k = peer_key(p);
            let i = key_pos(c, k);
            if i < c.len() {
                c.update(i as int, KeyedPeerView { key: k, peer: merge_spec(c[i as int].peer, p) })
            } else {
                c.push(KeyedPeerView { key: k, peer: p })
            }
        }
    }
}

/// Order of collapsed records: by name, then device id, then key.
pub open spec fn keyed_le(a: KeyedPeerView, b: KeyedPeerView) -> bool {
    ||| seq_lt(a.peer.device_name, b.peer.device_name)
    ||| (a.peer.device_name == b.peer.device_name && seq_lt(a.peer.device_id, b.peer.device_id))
    ||| (a.peer.device_name == b.peer.device_name && a.peer.device_id == b.peer.device_id
        && seq_le(a.key, b.key))
}

/// `ks` holds the collapsed records of `s` ordered by name, device id and
/// key, and `out` is their peers in that order.
pub open spec fn ordered_collapse(s: Seq<TrustedPeerView>, ks: Seq<KeyedPeerView>, out: Seq<TrustedPeerView>) -> bool {
    &&& forall|i: int, j: int| 0 <= i < j < ks.len() ==> keyed_le(#[trigger] ks[i], #[trigger] ks[j])
    &&& ks.to_multiset() == collapse(s).to_multiset()
    &&& out == ks.map_values(|k: KeyedPeerView| k.peer)
}

/// `out` is the list of collapsed records ordered by name, device id and key.
pub open spec fn normalized_peers(s: Seq<TrustedPeerView>, out: Seq<TrustedPeerView>) -> bool {
    exists|ks: Seq<KeyedPeerView>| #[trigger] ordered_collapse(s, ks, out)
}

/// Collapsed records have distinct keys, each the key of its record.
pub open spec fn collapse_wf(c: Seq<KeyedPeerView>) -> bool {
    &&& forall|i: int, j: int| 0 <= i < j < c.len() ==> (#[trigger] c[i]).key != (#[trigger] c[j]).key
    &&& forall|i: int| 0 <= i < c.len() ==> (#[trigger] c[i]).key == peer_key(c[i].peer)
}

proof fn lemma_key_pos_absent(c: Seq<KeyedPeerView>, key: Seq<char>)
    requires
        key_pos(c, key) >= c.len(),
    ensures
        forall|j: int| 0 <= j < c.len() ==> (#[trigger] c[j]).key != key,
    decreases c.len(),
{
    if c.len() > 0 {
        lemma_key_pos_absent(c.drop_first(), key);
        assert forall|j: int| 0 <= j < c.len() implies (#[trigger] c[j]).key != key by {
            if j > 0 {
                assert(c[j] == c.drop_first()[j - 1]);
            }
        }
    }
}

proof fn lemma_prefixed_eq(x: Seq<char>, a: Seq<char>, b: Seq<char>)
    requires
        x + a == x + b,
    ensures
        a == b,
{
    assert(a =~= (x + a).skip(x.len() as int));
    assert(b =~= (x + b).skip(x.len() as int));
}

/// Merging two records of one key keeps that key.
proof fn lemma_merge_keeps_key(e: TrustedPeerView, c: TrustedPeerView)
    requires
        peer_key(e) == peer_key(c),
        !blank_peer(c),
    ensures
        peer_key(merge_spec(e, c)) == peer_key(c),
{
    reveal_strlit("fp:");
    reveal_strlit("id:");
    if e.fingerprint.len() > 0 && c.fingerprint.len() > 0 {
        lemma_prefixed_eq("fp:"@, e.fingerprint, c.fingerprint);
    } else if e.fingerprint.len() == 0 && c.fingerprint.len() == 0 {
        lemma_prefixed_eq("id:"@, e.device_id, c.device_id);
    } else if e.fingerprint.len() > 0 {
        assert(peer_key(e)[0] == 'f');
        assert(peer_key(c)[0] == 'i');
    } else {
        assert(peer_key(e)[0] == 'i');
        assert(peer_key(c)[0] == 'f');
    }
}

/// Collapsing keeps one record per key, under that record's key.
proof fn lemma_collapse_wf(s: Seq<TrustedPeerView>)
    ensures
        collapse_wf(collapse(s)),
    decreases s.len(),
{
    if s.len() > 0 {
        lemma_collapse_wf(s.drop_last());
        let c = collapse(s.drop_last());
        let p = trim_peer(s.last());
        if !blank_peer(p) {
            let k = peer_key(p);
            let i = key_pos(c, k);
            lemma_key_pos_found(c, k);
            if i < c.len() {
                lemma_merge_keeps_key(c[i as int].peer, p);
                let u = c.update(i as int, KeyedPeerView { key: k, peer: merge_spec(c[i as int].peer, p) });
                assert(collapse(s) == u);
                assert forall|a: int, b: int| 0 <= a < b < u.len() implies (#[trigger] u[a]).key != (#[trigger] u[b]).key by {
                    assert(c[a].key != c[b].key);
                }
            } else {
                lemma_key_pos_absent(c, k);
                let u = c.push(KeyedPeerView { key: k, peer: p });
                assert(collapse(s) == u);
                assert forall|a: int, b: int| 0 <= a < b < u.len() implies (#[trigger] u[a]).key != (#[trigger] u[b]).key by {
                    if b < c.len() {
                        assert(c[a].key != c[b].key);
                    } else {
                        assert(c[a].key != k);
                    }
                }
            }
        }
    }
}

/// Records with distinct keys, each under its own key, carry a non-empty
/// fingerprint at most once, and not at all when no key names it.
proof fn lemma_keyed_fingerprint_count(c: Seq<KeyedPeerView>, fp: Seq<char>)
    requires
        collapse_wf(c),
        fp.len() > 0,
    ensures
        crate::controller::trust::fingerprint_count(c.map_values(|x: KeyedPeerView| x.peer), fp) <= 1,
        (forall|j: int| 0 <= j < c.len() ==> (#[trigger] c[j]).key != "fp:"@ + fp)
            ==> crate::controller::trust::fingerprint_count(c.map_values(|x: KeyedPeerView| x.peer), fp) == 0,
    decreases c.len(),
{
    if c.len() > 0 {
        let c0 = c.drop_last();
        assert(collapse_wf(c0)) by {
            assert forall|a: int, b: int| 0 <= a < b < c0.len() implies (#[trigger] c0[a]).key != (#[trigger] c0[b]).key by {
                assert(c[a].key != c[b].key);
            }
            assert forall|a: int| 0 <= a < c0.len() implies (#[trigger] c0[a]).key == peer_key(c0[a].peer) by {
                assert(c[a] == c0[a]);
            }
        }
        lemma_keyed_fingerprint_count(c0, fp);
        let m = c.map_values(|x: KeyedPeerView| x.peer);
        assert(m.drop_last() =~= c0.map_values(|x: KeyedPeerView| x.peer));
        let last = c[c.len() - 1];
        assert(m.last() == last.peer);
        assert(last.key == peer_key(last.peer));
        if last.peer.fingerprint == fp {
            assert forall|j: int| 0 <= j < c0.len() implies (#[trigger] c0[j]).key != "fp:"@ + fp by {
                assert(c[j].key != c[c.len() - 1].key);
            }
        }
    }
}

/// After normalization no two records carry the same non-empty fingerprint.
pub proof fn lemma_normalized_fingerprints_unique(s: Seq<TrustedPeerView>, out: Seq<TrustedPeerView>)
    requires
        normalized_peers(s, out),
    ensures
        forall|fp: Seq<char>| fp.len() > 0 ==> #[trigger] crate::controller::trust::fingerprint_count(out, fp) <= 1,
{
    let ks = choose|ks: Seq<KeyedPeerView>| #[trigger] ordered_collapse(s, ks, out);
    let c = collapse(s);
    lemma_collapse_wf(s);
    lemma_multiset_map(ks, c, |x: KeyedPeerView| x.peer);
    crate::controller::trust::lemma_same_records_same_counts(out, c.map_values(|x: KeyedPeerView| x.peer));
    assert forall|fp: Seq<char>| fp.len() > 0 implies #[trigger] crate::controller::trust::fingerprint_count(out, fp) <= 1 by {
        lemma_keyed_fingerprint_count(c, fp);
    }
}

/// A record whose fields carry no surrounding whitespace.
pub open spec fn trimmed_peer(p: TrustedPeerView) -> bool {
    trim_peer(p) == p
}

/// Collapsed records are trimmed and not blank.
pub open spec fn collapse_clean(c: Seq<KeyedPeerView>) -> bool {
    forall|i: int| 0 <= i < c.len() ==> trimmed_peer(#[trigger] c[i].peer) && !blank_peer(c[i].peer)
}

/// Some collapsed record has the key.
pub open spec fn has_key(c: Seq<KeyedPeerView>, k: Seq<char>) -> bool {
    exists|i: int| 0 <= i < c.len() && (#[trigger] c[i]).key == k
}

/// Some input record, trimmed, is not blank and has the key.
pub open spec fn input_has_key(s: Seq<TrustedPeerView>, k: Seq<char>) -> bool {
    exists|m: int| 0 <= m < s.len() && !blank_peer(trim_peer(#[trigger] s[m])) && peer_key(trim_peer(s[m])) == k
}

proof fn lemma_trim_peer_trimmed(p: TrustedPeerView)
    ensures
        trimmed_peer(trim_peer(p)),
{
    crate::text::lemma_trim_idempotent(p.device_id);
    crate::text::lemma_trim_idempotent(p.device_name);
    crate::text::lemma_trim_idempotent(p.fingerprint);
}

proof fn lemma_blank_key(p: TrustedPeerView)
    ensures
        blank_peer(p) ==> peer_key(p) == "id:"@,
        !blank_peer(p) ==> peer_key(p) != "id:"@,
{
    reveal_strlit("id:");
    reveal_strlit("fp:");
    if blank_peer(p) {
        assert("id:"@ + p.device_id =~= "id:"@);
    } else if p.fingerprint.len() > 0 {
        assert(peer_key(p)[0] == 'f');
    } else {
        assert(peer_key(p).len() > 3);
    }
}

/// Collapsing keeps trimmed, non-blank records, and has a record for exactly
/// the keys of the non-blank inputs.
proof fn lemma_collapse_clean(s: Seq<TrustedPeerView>)
    ensures
        collapse_clean(collapse(s)),
        forall|k: Seq<char>| #[trigger] has_key(collapse(s), k) <==> input_has_key(s, k),
    decreases s.len(),
{
    if s.len() > 0 {
        let s0 = s.drop_last();
        lemma_collapse_clean(s0);
        lemma_collapse_wf(s0);
        let c = collapse(s0);
        let p = trim_peer(s.last());
        lemma_trim_peer_trimmed(s.last());
        let u = collapse(s);
        if blank_peer(p) {
            assert(u == c);
            assert forall|k: Seq<char>| #[trigger] has_key(u, k) <==> input_has_key(s, k) by {
                if input_has_key(s, k) {
                    let m = choose|m: int| 0 <= m < s.len() && !blank_peer(trim_peer(#[trigger] s[m])) && peer_key(trim_peer(s[m])) == k;
                    assert(m != s.len() - 1);
                    assert(s0[m] == s[m]);
                    assert(input_has_key(s0, k));
                }
                if input_has_key(s0, k) {
                    let m = choose|m: int| 0 <= m < s0.len() && !blank_peer(trim_peer(#[trigger] s0[m])) && peer_key(trim_peer(s0[m])) == k;
                    assert(s[m] == s0[m]);
                }
            }
        } else {
            let k = peer_key(p);
            let i = key_pos(c, k);
            lemma_key_pos_found(c, k);
            let expected = if i < c.len() {
                c.update(i as int, KeyedPeerView { key: k, peer: merge_spec(c[i as int].peer, p) })
            } else {
                c.push(KeyedPeerView { key: k, peer: p })
            };
            assert(u == expected);
            if i < c.len() {
                let e = c[i as int].peer;
                let m = merge_spec(e, p);
                lemma_merge_keeps_key(e, p);
                lemma_blank_key(p);
                lemma_blank_key(m);
                assert(c[i as int].key == peer_key(e));
                assert(u == c.update(i as int, KeyedPeerView { key: k, peer: m }));
                assert(trimmed_peer(m)) by {
                    assert(trimmed_peer(e));
                }
                assert forall|j: int| 0 <= j < u.len() implies trimmed_peer(#[trigger] u[j].peer) && !blank_peer(u[j].peer) by {
                    if j != i {
                        assert(u[j] == c[j]);
                    }
                }
            } else {
                assert(u == c.push(KeyedPeerView { key: k, peer: p }));
                assert forall|j: int| 0 <= j < u.len() implies trimmed_peer(#[trigger] u[j].peer) && !blank_peer(u[j].peer) by {
                    if j < c.len() {
                        assert(u[j] == c[j]);
                    }
                }
            }
            assert forall|q: Seq<char>| #[trigger] has_key(u, q) <==> input_has_key(s, q) by {
                if has_key(u, q) {
                    let j = choose|j: int| 0 <= j < u.len() && (#[trigger] u[j]).key == q;
                    if q == k {
                        assert(s[s.len() - 1] == s.last());
                    } else {
                        if i < c.len() {
                            assert(u == c.update(i as int, KeyedPeerView { key: k, peer: merge_spec(c[i as int].peer, p) }));
                            assert(j != i);
                        } else {
                            assert(u == c.push(KeyedPeerView { key: k, peer: p }));
                        }
                        assert(j < c.len() && u[j] == c[j]);
                        assert(has_key(c, q));
                        let m = choose|m: int| 0 <= m < s0.len() && !blank_peer(trim_peer(#[trigger] s0[m])) && peer_key(trim_peer(s0[m])) == q;
                        assert(s[m] == s0[m]);
                    }
                }
                if input_has_key(s, q) {
                    let m = choose|m: int| 0 <= m < s.len() && !blank_peer(trim_peer(#[trigger] s[m])) && peer_key(trim_peer(s[m])) == q;
                    if m == s.len() - 1 {
                        if i < c.len() {
                            assert(u == c.update(i as int, KeyedPeerView { key: k, peer: merge_spec(c[i as int].peer, p) }));
                            assert(u[i as int].key == k);
                        } else {
                            assert(u == c.push(KeyedPeerView { key: k, peer: p }));
                            assert(u[c.len() as int].key == k);
                        }
                        assert(has_key(u, q));
                    } else {
                        assert(s0[m] == s[m]);
                        assert(input_has_key(s0, q));
                        assert(has_key(c, q));
                        let j = choose|j: int| 0 <= j < c.len() && (#[trigger] c[j]).key == q;
                        if i < c.len() && j == i {
                            assert(u[j].key == k);
                            assert(c[j].key == k);
                        } else if i < c.len() {
                            assert(u == c.update(i as int, KeyedPeerView { key: k, peer: merge_spec(c[i as int].peer, p) }));
                            assert(u[j] == c[j]);
                        } else {
                            assert(u == c.push(KeyedPeerView { key: k, peer: p }));
                            assert(u[j] == c[j]);
                        }
                        assert(has_key(u, q));
                    }
                }
            }
        }
    }
}

proof fn lemma_unique_keys_count(c: Seq<KeyedPeerView>, x: KeyedPeerView)
    requires
        forall|i: int, j: int| 0 <= i < j < c.len() ==> (#[trigger] c[i]).key != (#[trigger] c[j]).key,
    ensures
        c.to_multiset().count(x) <= 1,
    decreases c.len(),
{
    broadcast use {vstd::seq_lib::group_to_multiset_ensures, vstd::multiset::group_multiset_axioms};
    if c.len() > 0 {
        let c0 = c.drop_last();
        assert(c =~= c0.push(c.last()));
        lemma_unique_keys_count(c0, x);
        if c.last() == x && c0.contains(x) {
            let k = choose|k: int| 0 <= k < c0.len() && c0[k] == x;
            assert(c[k] == c0[k]);
            assert(c[k].key != c[c.len() - 1].key);
        }
        if c.last() == x {
            assert(c0.to_multiset().count(x) == 0);
        }
    }
}

/// After normalization every record is trimmed and not blank, no two share
/// a key (a non-empty fingerprint, or else a device id), the records are
/// ordered by name and then device id, and their keys are exactly the keys
/// of the non-blank input records.
pub proof fn lemma_normalized_records(s: Seq<TrustedPeerView>, out: Seq<TrustedPeerView>)
    requires
        normalized_peers(s, out),
    ensures
        forall|i: int| 0 <= i < out.len() ==> trimmed_peer(#[trigger] out[i]) && !blank_peer(out[i]),
        forall|i: int, j: int| 0 <= i < j < out.len() ==> peer_key(#[trigger] out[i]) != peer_key(#[trigger] out[j]),
        forall|i: int, j: int| 0 <= i < j < out.len() ==> seq_lt((#[trigger] out[i]).device_name, (#[trigger] out[j]).device_name)
            || (out[i].device_name == out[j].device_name && seq_le(out[i].device_id, out[j].device_id)),
        forall|k: Seq<char>| (exists|i: int| 0 <= i < out.len() && peer_key(#[trigger] out[i]) == k) <==> #[trigger] input_has_key(s, k),
{
    broadcast use {vstd::seq_lib::group_to_multiset_ensures, vstd::multiset::group_multiset_axioms};
    let ks = choose|ks: Seq<KeyedPeerView>| #[trigger] ordered_collapse(s, ks, out);
    let c = collapse(s);
    lemma_collapse_wf(s);
    lemma_collapse_clean(s);
    assert(out.len() == ks.len());
    assert forall|i: int| 0 <= i < ks.len() implies c.contains(#[trigger] ks[i]) by {
        assert(ks.contains(ks[i]));
        assert(ks.to_multiset().count(ks[i]) > 0);
    }
    assert forall|i: int| 0 <= i < out.len() implies trimmed_peer(#[trigger] out[i]) && !blank_peer(out[i]) && peer_key(out[i])
        == ks[i].key by {
        assert(out[i] == ks[i].peer);
        assert(c.contains(ks[i]));
        let m = choose|m: int| 0 <= m < c.len() && c[m] == ks[i];
    }
    assert forall|i: int, j: int| 0 <= i < j < out.len() implies peer_key(#[trigger] out[i]) != peer_key(#[trigger] out[j]) by {
        assert(c.contains(ks[i]) && c.contains(ks[j]));
        if ks[i].key == ks[j].key {
            let a = choose|a: int| 0 <= a < c.len() && c[a] == ks[i];
            let b = choose|b: int| 0 <= b < c.len() && c[b] == ks[j];
            if a != b {
                if a < b {
                    assert(c[a].key != c[b].key);
                } else {
                    assert(c[b].key != c[a].key);
                }
            } else {
                let x = ks[i];
                let kr = ks.remove(j);
                assert(ks[j] == x);
                assert(kr[i] == x);
                assert(kr.contains(x));
                assert(kr.to_multiset().count(x) > 0);
                assert(kr.to_multiset() =~= ks.to_multiset().remove(ks[j]));
                assert(ks.to_multiset().count(x) >= 2);
                lemma_unique_keys_count(c, x);
            }
        }
    }
    assert forall|i: int, j: int| 0 <= i < j < out.len() implies seq_lt((#[trigger] out[i]).device_name, (#[trigger] out[j]).device_name)
        || (out[i].device_name == out[j].device_name && seq_le(out[i].device_id, out[j].device_id)) by {
        assert(keyed_le(ks[i], ks[j]));
        assert(out[i] == ks[i].peer && out[j] == ks[j].peer);
    }
    assert forall|k: Seq<char>| (exists|i: int| 0 <= i < out.len() && peer_key(#[trigger] out[i]) == k) <==> #[trigger] input_has_key(s, k) by {
        if exists|i: int| 0 <= i < out.len() && peer_key(#[trigger] out[i]) == k {
            let i = choose|i: int| 0 <= i < out.len() && peer_key(#[trigger] out[i]) == k;
            let m = choose|m: int| 0 <= m < c.len() && c[m] == ks[i];
            assert(has_key(c, k));
        }
        if input_has_key(s, k) {
            assert(has_key(c, k));
            let m = choose|m: int| 0 <= m < c.len() && (#[trigger] c[m]).key == k;
            assert(c.contains(c[m]));
            assert(c.to_multiset().count(c[m]) > 0);
            assert(ks.contains(c[m]));
            let i = choose|i: int| 0 <= i < ks.len() && ks[i] == c[m];
            assert(peer_key(out[i]) == ks[i].key);
        }
    }
}

/// A trusted peer with its collapse key.
pub struct KeyedPeer {
    pub key: String,
    pub peer: TrustedPeer,
}

impl View for KeyedPeer {
    type V = KeyedPeerView;

    open spec fn view(&self) -> KeyedPeerView {
        KeyedPeerView { key: self.key@, peer: self.peer@ }
    }
}

/// Abstract values of keyed records.
pub open spec fn keyed_views(s: Seq<KeyedPeer>) -> Seq<KeyedPeerView> {
    s.map_values(|k: KeyedPeer| k@)
}

impl TotalPreorder for KeyedPeer {
    open spec fn le(a: Self, b: Self) -> bool {
        keyed_le(a@, b@)
    }

    proof fn lemma_total(a: Self, b: Self) {
        lemma_seq_lt_total(a.peer.device_name@, b.peer.device_name@);
        lemma_seq_lt_total(a.peer.device_id@, b.peer.device_id@);
        lemma_seq_lt_total(a.key@, b.key@);
    }

    proof fn lemma_trans(a: Self, b: Self, c: Self) {
        let (an, bn, cn) = (a.peer.device_name@, b.peer.device_name@, c.peer.device_name@);
        let (ai, bi, ci) = (a.peer.device_id@, b.peer.device_id@, c.peer.device_id@);
        let (ak, bk, ck) = (a.key@, b.key@, c.key@);
        if seq_lt(an, bn) && seq_lt(bn, cn) {
            lemma_seq_lt_trans(an, bn, cn);
        }
        if an == bn && bn == cn {
            if seq_lt(ai, bi) && seq_lt(bi, ci) {
                lemma_seq_lt_trans(ai, bi, ci);
            }
            if ai == bi && bi == ci && seq_lt(ak, bk) && seq_lt(bk, ck) {
                lemma_seq_lt_trans(ak, bk, ck);
            }
        }
    }

    fn le_exec(&self, other: &Self) -> (r: bool) {
        let (n_lt, n_eq) = lex_le(self.peer.device_name.as_str(), other.peer.device_name.as_str());
        if n_lt {
            return true;
        }
        if !n_eq {
            return false;
        }
        let (i_lt, i_eq) = lex_le(self.peer.device_id.as_str(), other.peer.device_id.as_str());
        if i_lt {
            return true;
        }
        if !i_eq {
            return false;
        }
        let (k_lt, k_eq) = lex_le(self.key.as_str(), other.key.as_str());
        k_lt || k_eq
    }
}

/// The collapse key of a record.
fn peer_key_exec(p: &TrustedPeer) -> (r: String)
    ensures
        r@ == peer_key(p@),
{
    if p.fingerprint.as_str().is_empty() {
        let mut v = chars_of("id:");
        extend_str(&mut v, p.device_id.as_str());
        string_of(v.as_slice())
    } else {
        let mut v = chars_of("fp:");
        extend_str(&mut v, p.fingerprint.as_str());
        string_of(v.as_slice())
    }
}

fn find_key(entries: &Vec<KeyedPeer>, key: &str) -> (r: usize)
    ensures
        r == key_pos(keyed_views(entries@), key@),
{
    let ghost c = keyed_views(entries@);
    let mut i: usize = 0;
    while i < entries.len()
        invariant
            i <= entries@.len(),
            c == keyed_views(entries@),
            forall|j: int| 0 <= j < i ==> #[trigger] c[j].key != key@,
        decreases entries@.len() - i,
    {
        if str_eq(entries[i].key.as_str(), key) {
            proof {
                lemma_key_pos(c, key@, i as int);
            }
            return i;
        }
        i = i + 1;
    }
    proof {
        lemma_key_pos(c, key@, i as int);
    }
    i
}

/// Trims the records, drops blank ones, merges the records of each peer
/// (same fingerprint, or same device id when there is no fingerprint) and
/// orders them by name and device id.
pub fn normalize_trusted_peers(trusted_peers: &mut Vec<TrustedPeer>)
    ensures
        normalized_peers(trusted_views(old(trusted_peers)@), trusted_views(final(trusted_peers)@)),
        forall|fp: Seq<char>| fp.len() > 0 ==> #[trigger] crate::controller::trust::fingerprint_count(
            trusted_views(final(trusted_peers)@),
            fp,
        ) <= 1,
{
    let ghost input = trusted_views(trusted_peers@);
    let mut entries: Vec<KeyedPeer> = Vec::new();
    let mut i: usize = 0;
    while i < trusted_peers.len()
        invariant
            i <= trusted_peers@.len(),
            input == trusted_views(trusted_peers@),
            keyed_views(entries@) == collapse(input.take(i as int)),
        decreases trusted_peers@.len() - i,
    {
        proof {
            assert(input.take(i + 1).drop_last() =~= input.take(i as int));
        }
        let peer = normalize_trusted_peer(trusted_peers[i].clone());
        if peer.device_id.as_str().is_empty() && peer.fingerprint.as_str().is_empty() {
        } else {
            let key = peer_key_exec(&peer);
            let pos = find_key(&entries, key.as_str());
            let ghost before = keyed_views(entries@);
            proof {
                lemma_key_pos_found(before, key@);
                assert(input[i as int] == trusted_peers@[i as int]@);
            }
            if pos < entries.len() {
                let mut existing = entries.remove(pos);
                merge_trusted_peer(&mut existing.peer, peer);
                entries.insert(pos, existing);
                proof {
                    assert(keyed_views(entries@) =~= before.update(
                        pos as int,
                        KeyedPeerView { key: key@, peer: merge_spec(before[pos as int].peer, trim_peer(input[i as int])) },
                    ));
                }
            } else {
                entries.push(KeyedPeer { key, peer });
                proof {
                    assert(keyed_views(entries@) =~= before.push(
                        KeyedPeerView { key: peer_key(trim_peer(input[i as int])), peer: trim_peer(input[i as int]) },
                    ));
                }
            }
        }
        i = i + 1;
    }
    proof {
        assert(input.take(i as int) =~= input);
    }
    let ghost unsorted = entries@;
    let sorted = sort_vec(entries);
    proof {
        lemma_multiset_map(sorted@, unsorted, |k: KeyedPeer| k@);
        assert(keyed_views(sorted@) == sorted@.map_values(|k: KeyedPeer| k@));
    }
    let ghost ks = keyed_views(sorted@);
    let mut out: Vec<TrustedPeer> = Vec::new();
    let mut k: usize = 0;
    while k < sorted.len()
        invariant
            k <= sorted@.len(),
            ks == keyed_views(sorted@),
            trusted_views(out@) == ks.take(k as int).map_values(|x: KeyedPeerView| x.peer),
        decreases sorted@.len() - k,
    {
        let p = sorted[k].peer.clone();
        out.push(p);
        proof {
            assert(ks.take(k + 1).map_values(|x: KeyedPeerView| x.peer) =~= ks.take(
                k as int,
            ).map_values(|x: KeyedPeerView| x.peer).push(ks[k as int].peer));
            assert(trusted_views(out@) =~= trusted_views(out@.drop_last()).push(p@));
        }
        k = k + 1;
    }
    proof {
        assert(ks.take(k as int) =~= ks);
        assert forall|a: int, b: int| 0 <= a < b < ks.len() implies keyed_le(#[trigger] ks[a], #[trigger] ks[b]) by {
            assert(KeyedPeer::le(sorted@[a], sorted@[b]));
        }
        assert(ordered_collapse(input, ks, trusted_views(out@)));
        lemma_normalized_fingerprints_unique(input, trusted_views(out@));
    }
    *trusted_peers = out;
}

impl AppConfig {
    /// Fresh settings with a new random device id, named after the hint when
    /// it is not blank.
    pub fn new(device_name_hint: Option<&str>) -> (r: AppResult<Self>)
        ensures
            r matches Err(e) ==> e.is_crypto("Failed to generate a random id."@),
            r matches Ok(c) ==> {
                &&& c.device_id@.len() == 36
                &&& exists|u: u128| c.device_id@ == id_text(u)
                &&& c.device_name@ == match hint_name(opt_str_view(device_name_hint)) {
                    Some(n) => n,
                    None => generated_name_spec(c.device_id@),
                }
                &&& c.listen_port == crate::constants::DEFAULT_LISTEN_PORT
                &&& c.history_limit == crate::constants::DEFAULT_HISTORY_LIMIT
                &&& !c.launch_at_login
                &&& c.share_local_history
                &&& c.prefer_remote_latest_on_paste
                &&& c.discovery_enabled
                &&& c.hotkey@ == DEFAULT_HISTORY_POPUP_HOTKEY@
                &&& c.trusted_peers@.len() == 0
            },
    {
        let id = match new_random_id() {
            Some(id) => id,
            None => {
                return Err(crate::error::crypto_error("Failed to generate a random id."));
            },
        };
        let device_id = id_to_string(id);
        let device_name = match hint_value(device_name_hint) {
            Some(n) => n,
            None => generated_default_device_name(device_id.as_str()),
        };
        Ok(AppConfig {
            device_id,
            device_name,
            listen_port: crate::constants::DEFAULT_LISTEN_PORT,
            history_limit: crate::constants::DEFAULT_HISTORY_LIMIT,
            launch_at_login: false,
            share_local_history: true,
            prefer_remote_latest_on_paste: true,
            discovery_enabled: true,
            hotkey: DEFAULT_HISTORY_POPUP_HOTKEY.to_string(),
            trusted_peers: Vec::new(),
        })
    }

    /// The settings cleaned up: a blank or generated device name is replaced
    /// by the hint (or the generated name), a blank hotkey by the default, and
    /// the trusted peers are normalized.
    pub fn normalized(self, device_name_hint: Option<&str>) -> (r: Self)
        ensures
            r.device_id == self.device_id,
            r.device_name@ == if trim_spec(self.device_name@).len() == 0 || trim_spec(
                self.device_name@,
            ) == generated_name_spec(self.device_id@) {
                match hint_name(opt_str_view(device_name_hint)) {
                    Some(n) => n,
                    None => generated_name_spec(self.device_id@),
                }
            } else {
                self.device_name@
            },
            r.hotkey@ == if trim_spec(self.hotkey@).len() == 0 {
                DEFAULT_HISTORY_POPUP_HOTKEY@
            } else {
                self.hotkey@
            },
            r.listen_port == self.listen_port,
            r.history_limit == self.history_limit,
            r.launch_at_login == self.launch_at_login,
            r.share_local_history == self.share_local_history,
            r.prefer_remote_latest_on_paste == self.prefer_remote_latest_on_paste,
            r.discovery_enabled == self.discovery_enabled,
            normalized_peers(trusted_views(self.trusted_peers@), trusted_views(r.trusted_peers@)),
            forall|fp: Seq<char>| fp.len() > 0 ==> #[trigger] crate::controller::trust::fingerprint_count(
                trusted_views(r.trusted_peers@),
                fp,
            ) <= 1,
    {
        let mut c = self;
        let generated = generated_default_device_name(c.device_id.as_str());
        let trimmed_name = trim(c.device_name.as_str());
        if trimmed_name.as_str().is_empty() || str_eq(trimmed_name.as_str(), generated.as_str()) {
            c.device_name = match hint_value(device_name_hint) {
                Some(n) => n,
                None => generated,
            };
        }
        let trimmed_hotkey = trim(c.hotkey.as_str());
        if trimmed_hotkey.as_str().is_empty() {
            c.hotkey = DEFAULT_HISTORY_POPUP_HOTKEY.to_string();
        }
        normalize_trusted_peers(&mut c.trusted_peers);
        c
    }
}

/// Where the settings are stored and the key they are sealed with.
#[derive(Debug)]
pub struct ConfigStore {
    pub path: String,
    pub cipher: LocalDataCipher,
}

impl ConfigStore {
    /// A store for the settings file of `paths`.
    pub fn new(paths: &AppPaths, cipher: LocalDataCipher) -> (r: Self)
        ensures
            r.path == paths.config_file,
            r.cipher == cipher,
    {
        ConfigStore { path: paths.config_file.clone(), cipher }
    }
}

} // verus!
