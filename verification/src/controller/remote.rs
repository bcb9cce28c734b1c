//! In-memory history received from trusted peers: compact entries per item,
//! per-peer and total budgets, and a tiny cache of full remote items.

use vstd::prelude::*;

use crate::constants::{
    MAX_REMOTE_CONTENT_CACHE_BYTES, MAX_REMOTE_CONTENT_CACHE_ITEMS,
    MAX_REMOTE_SESSION_ITEMS_PER_PEER, MAX_REMOTE_SESSION_ITEMS_TOTAL,
};
use crate::controller::presenter::{build_remote_history_entry, byte_len, entry_of, sat_add_u64};
use crate::controller::types::{entry_views, EntryView, HistoryEntry};
use crate::model::{
    clone_opt_string, opt_view, ClipboardItem, ClipboardKind, ClipboardPayload, FileView, ItemView,
    PayloadView,
};
use crate::text::{lemma_push_contains, str_eq};
use vstd::utf8::encode_utf8;

verus! {

/// Compact record of one remote history item.
#[derive(Debug)]
pub struct RemoteHistoryItem {
    pub source_device_id: Option<String>,
    pub signature: String,
    pub total_size_bytes: u64,
    pub history_entry: HistoryEntry,
}

/// Abstract value of a remote history record.
pub ghost struct RemoteItemView {
    pub id: u128,
    pub source_device_id: Option<Seq<char>>,
    pub signature: Seq<char>,
    pub total_size_bytes: u64,
    pub entry: EntryView,
}

impl View for RemoteHistoryItem {
    type V = RemoteItemView;

    open spec fn view(&self) -> RemoteItemView {
        RemoteItemView {
            id: self.history_entry.id,
            source_device_id: opt_view(self.source_device_id),
            signature: self.signature@,
            total_size_bytes: self.total_size_bytes,
            entry: self.history_entry@,
        }
    }
}

/// Abstract values of a sequence of remote records.
pub open spec fn remote_views(s: Seq<RemoteHistoryItem>) -> Seq<RemoteItemView> {
    s.map_values(|x: RemoteHistoryItem| x@)
}

/// No two records share an id.
pub open spec fn unique_ids(s: Seq<RemoteItemView>) -> bool {
    forall|i: int, j: int| 0 <= i < j < s.len() ==> s[i].id != s[j].id
}

/// Some record of `s` has id `id`.
pub open spec fn has_id(s: Seq<RemoteItemView>, id: u128) -> bool {
    exists|i: int| 0 <= i < s.len() && s[i].id == id
}

/// Total size of the files of a payload, saturating.
pub open spec fn payload_size(fs: Seq<FileView>) -> u64
    decreases fs.len(),
{
    if fs.len() == 0 {
        0
    } else {
        sat_add_u64(payload_size(fs.drop_last()), fs.last().size_bytes)
    }
}

/// The compact record of a remote clipboard item.
pub open spec fn remote_record(item: ItemView) -> RemoteItemView {
    RemoteItemView {
        id: item.id,
        source_device_id: item.source_device_id,
        signature: item.signature,
        total_size_bytes: match item.payload {
            PayloadView::Text(_) => 0,
            PayloadView::Files(fs) => payload_size(fs),
        },
        entry: entry_of(item, 8, 384, 384, true),
    }
}

/// Builds the compact record of a remote clipboard item.
pub fn remote_item_from_clipboard_item(item: &ClipboardItem) -> (r: RemoteHistoryItem)
    ensures
        r@ == remote_record(item@),
{
    let total = match &item.payload {
        ClipboardPayload::Text(_) => 0u64,
        ClipboardPayload::Files(files) => {
            let mut t: u64 = 0;
            let mut i: usize = 0;
            while i < files.len()
                invariant
                    i <= files.len(),
                    t == payload_size(crate::model::file_views(files@).take(i as int)),
                decreases files.len() - i,
            {
                proof {
                    let fv = crate::model::file_views(files@);
                    assert(fv.take(i + 1).drop_last() =~= fv.take(i as int));
                }
                t = t.saturating_add(files[i].size_bytes);
                i = i + 1;
            }
            proof {
                assert(crate::model::file_views(files@).take(i as int) =~= crate::model::file_views(files@));
            }
            t
        },
    };
    RemoteHistoryItem {
        source_device_id: clone_opt_string(&item.source_device_id),
        signature: item.signature.clone(),
        total_size_bytes: total,
        history_entry: build_remote_history_entry(item),
    }
}

/// The stand-in item of a remote record: its id, kind, summary, signature,
/// source and time; the detail text as the payload of a text item, no files
/// for a file item; remote and unpinned.
pub open spec fn placeholder_view(x: RemoteHistoryItem) -> ItemView {
    ItemView {
        id: x.history_entry.id,
        kind: x.history_entry.kind,
        summary: x.history_entry.summary_text@,
        signature: x.signature@,
        payload: match x.history_entry.kind {
            ClipboardKind::Text => PayloadView::Text(x.history_entry.detail_tooltip@),
            ClipboardKind::Files => PayloadView::Files(Seq::empty()),
        },
        source_device_id: opt_view(x.source_device_id),
        source_device_name: Some(x.history_entry.source_tooltip@),
        created_at: x.history_entry.created_at,
        is_remote: true,
        is_pinned: false,
    }
}

impl RemoteHistoryItem {
    /// A stand-in clipboard item for a remote record whose content is not here yet.
    pub fn to_placeholder_item(&self) -> (r: ClipboardItem)
        ensures
            r@ == placeholder_view(*self),
    {
        let payload = match self.history_entry.kind {
            ClipboardKind::Text => ClipboardPayload::Text(self.history_entry.detail_tooltip.clone()),
            ClipboardKind::Files => {
                let v: Vec<crate::model::FileDescriptor> = Vec::new();
                proof {
                    assert(crate::model::file_views(v@) =~= Seq::<FileView>::empty());
                }
                ClipboardPayload::Files(v)
            },
        };
        ClipboardItem {
            id: self.history_entry.id,
            kind: self.history_entry.kind.clone(),
            summary: self.history_entry.summary_text.clone(),
            signature: self.signature.clone(),
            payload,
            source_device_id: clone_opt_string(&self.source_device_id),
            source_device_name: Some(self.history_entry.source_tooltip.clone()),
            created_at: self.history_entry.created_at,
            is_remote: true,
            is_pinned: false,
        }
    }
}


/// Sequence with the record at `i` removed: membership by id.
proof fn lemma_remove_unique(s: Seq<RemoteItemView>, i: int)
    requires
        unique_ids(s),
        0 <= i < s.len(),
    ensures
        unique_ids(s.remove(i)),
        forall|x: RemoteItemView| s.remove(i).contains(x) <==> (s.contains(x) && x.id != s[i].id),
        forall|id: u128| has_id(s.remove(i), id) <==> (has_id(s, id) && id != s[i].id),
{
    let r = s.remove(i);
    assert forall|a: int, b: int| 0 <= a < b < r.len() implies r[a].id != r[b].id by {
        let a2 = if a < i { a } else { a + 1 };
        let b2 = if b < i { b } else { b + 1 };
        assert(r[a] == s[a2]);
        assert(r[b] == s[b2]);
    }
    assert forall|x: RemoteItemView| r.contains(x) <==> (s.contains(x) && x.id != s[i].id) by {
        if r.contains(x) {
            let k = choose|k: int| 0 <= k < r.len() && r[k] == x;
            let k2 = if k < i { k } else { k + 1 };
            assert(s[k2] == x);
            assert(k2 != i);
        }
        if s.contains(x) && x.id != s[i].id {
            let k = choose|k: int| 0 <= k < s.len() && s[k] == x;
            assert(k != i);
            let k2 = if k < i { k } else { k - 1 };
            assert(r[k2] == x);
        }
    }
    assert forall|id: u128| has_id(r, id) <==> (has_id(s, id) && id != s[i].id) by {
        if has_id(r, id) {
            let k = choose|k: int| 0 <= k < r.len() && r[k].id == id;
            let k2 = if k < i { k } else { k + 1 };
            assert(s[k2].id == id);
            assert(k2 != i);
        }
        if has_id(s, id) && id != s[i].id {
            let k = choose|k: int| 0 <= k < s.len() && s[k].id == id;
            assert(k != i);
            let k2 = if k < i { k } else { k - 1 };
            assert(r[k2].id == id);
        }
    }
}

/// Records that belong to `peer` (any record when `peer` is `None`).
pub open spec fn in_scope(x: RemoteItemView, peer: Option<Seq<char>>) -> bool {
    match peer {
        Some(p) => x.source_device_id == Some(p),
        None => true,
    }
}

/// Number of records in scope.
pub open spec fn scope_count(s: Seq<RemoteItemView>, peer: Option<Seq<char>>) -> nat
    decreases s.len(),
{
    if s.len() == 0 {
        0
    } else {
        scope_count(s.drop_last(), peer) + if in_scope(s.last(), peer) { 1nat } else { 0nat }
    }
}

/// The session's budgets: at most `MAX_REMOTE_SESSION_ITEMS_TOTAL` records
/// in all and at most `MAX_REMOTE_SESSION_ITEMS_PER_PEER` from any one device.
pub open spec fn within_budgets(s: Seq<RemoteItemView>) -> bool {
    &&& scope_count(s, None) <= MAX_REMOTE_SESSION_ITEMS_TOTAL
    &&& forall|p: Seq<char>| #[trigger] scope_count(s, Some(p)) <= MAX_REMOTE_SESSION_ITEMS_PER_PEER
}

proof fn lemma_scope_count_remove(s: Seq<RemoteItemView>, peer: Option<Seq<char>>, i: int)
    requires
        0 <= i < s.len(),
    ensures
        scope_count(s.remove(i), peer) + (if in_scope(s[i], peer) { 1nat } else { 0nat })
            == scope_count(s, peer),
    decreases s.len(),
{
    if i == s.len() - 1 {
        assert(s.remove(i) =~= s.drop_last());
    } else {
        lemma_scope_count_remove(s.drop_last(), peer, i);
        assert(s.remove(i).drop_last() =~= s.drop_last().remove(i));
        assert(s.remove(i).last() == s.last());
    }
}

/// Records drawn from another sequence, none twice, count no more in a
/// scope; only the records in the scope need to be drawn from it.
proof fn lemma_scope_count_subset(s2: Seq<RemoteItemView>, s1: Seq<RemoteItemView>, peer: Option<Seq<char>>)
    requires
        unique_ids(s2),
        forall|x: RemoteItemView| #[trigger] s2.contains(x) && in_scope(x, peer) ==> s1.contains(x),
    ensures
        scope_count(s2, peer) <= scope_count(s1, peer),
    decreases s2.len(),
{
    if s2.len() > 0 {
        let x = s2.last();
        let t = s2.drop_last();
        assert(s2.contains(x)) by {
            assert(s2[s2.len() - 1] == x);
        }
        assert forall|i: int, j: int| 0 <= i < j < t.len() implies t[i].id != t[j].id by {
            assert(t[i] == s2[i]);
            assert(t[j] == s2[j]);
        }
        if in_scope(x, peer) {
            let k = choose|k: int| 0 <= k < s1.len() && s1[k] == x;
            let s1r = s1.remove(k);
            assert forall|y: RemoteItemView| #[trigger] t.contains(y) && in_scope(y, peer) implies s1r.contains(y) by {
                let j = choose|j: int| 0 <= j < t.len() && t[j] == y;
                assert(s2[j] == y);
                assert(s2.contains(y));
                assert(y.id != x.id);
                let m = choose|m: int| 0 <= m < s1.len() && s1[m] == y;
                if m < k {
                    assert(s1r[m] == y);
                } else {
                    assert(m != k);
                    assert(s1r[m - 1] == y);
                }
            }
            lemma_scope_count_subset(t, s1r, peer);
            lemma_scope_count_remove(s1, peer, k);
        } else {
            assert forall|y: RemoteItemView| #[trigger] t.contains(y) && in_scope(y, peer) implies s1.contains(y) by {
                let j = choose|j: int| 0 <= j < t.len() && t[j] == y;
                assert(s2[j] == y);
                assert(s2.contains(y));
            }
            lemma_scope_count_subset(t, s1, peer);
        }
    }
}

/// Changing a record without moving it out of or into a scope keeps the
/// count of that scope.
proof fn lemma_scope_count_update(s: Seq<RemoteItemView>, i: int, y: RemoteItemView, peer: Option<Seq<char>>)
    requires
        0 <= i < s.len(),
        in_scope(y, peer) == in_scope(s[i], peer),
    ensures
        scope_count(s.update(i, y), peer) == scope_count(s, peer),
    decreases s.len(),
{
    if i < s.len() - 1 {
        lemma_scope_count_update(s.drop_last(), i, y, peer);
        assert(s.update(i, y).drop_last() =~= s.drop_last().update(i, y));
    } else {
        assert(s.update(i, y).drop_last() =~= s.drop_last());
    }
}

/// Records drawn from a session that kept its budgets keep them too.
pub proof fn lemma_subset_keeps_budgets(old: Seq<RemoteItemView>, new: Seq<RemoteItemView>)
    requires
        within_budgets(old),
        unique_ids(new),
        forall|x: RemoteItemView| #[trigger] new.contains(x) ==> old.contains(x),
    ensures
        within_budgets(new),
{
    lemma_scope_count_subset(new, old, None);
    assert forall|p: Seq<char>| #[trigger] scope_count(new, Some(p)) <= MAX_REMOTE_SESSION_ITEMS_PER_PEER by {
        lemma_scope_count_subset(new, old, Some(p));
        assert(scope_count(old, Some(p)) <= MAX_REMOTE_SESSION_ITEMS_PER_PEER);
    }
}

/// Dropping the one record with a given id from records with unique ids
/// lowers the count of its scope by one.
proof fn lemma_scope_count_drop_one(s: Seq<RemoteItemView>, t: Seq<RemoteItemView>, i: int, peer: Option<Seq<char>>)
    requires
        unique_ids(s),
        unique_ids(t),
        0 <= i < s.len(),
        forall|x: RemoteItemView| #[trigger] t.contains(x) <==> (s.contains(x) && x.id != s[i].id),
    ensures
        scope_count(t, peer) + (if in_scope(s[i], peer) { 1nat } else { 0nat }) == scope_count(s, peer),
{
    let sr = s.remove(i);
    assert forall|a: int, b: int| 0 <= a < b < sr.len() implies sr[a].id != sr[b].id by {
        let a2 = if a < i { a } else { a + 1 };
        let b2 = if b < i { b } else { b + 1 };
        assert(sr[a] == s[a2] && sr[b] == s[b2]);
    }
    assert forall|x: RemoteItemView| #[trigger] t.contains(x) implies sr.contains(x) by {
        let k = choose|k: int| 0 <= k < s.len() && s[k] == x;
        assert(k != i);
        if k < i {
            assert(sr[k] == x);
        } else {
            assert(sr[k - 1] == x);
        }
    }
    assert forall|x: RemoteItemView| #[trigger] sr.contains(x) implies t.contains(x) by {
        let k = choose|k: int| 0 <= k < sr.len() && sr[k] == x;
        let k2 = if k < i { k } else { k + 1 };
        assert(s[k2] == x);
        assert(s.contains(x));
        assert(s[k2].id != s[i].id) by {
            if k2 < i {
            } else {
            }
        }
    }
    lemma_scope_count_subset(t, sr, peer);
    lemma_scope_count_subset(sr, t, peer);
    lemma_scope_count_remove(s, peer, i);
}

/// The outcome of removing records: what stays is what was there and is not
/// listed; the reported ids are the listed ids that were present, once each.
pub open spec fn removal_outcome(
    old: Seq<RemoteItemView>,
    new: Seq<RemoteItemView>,
    ids: Seq<u128>,
    removed: Seq<u128>,
) -> bool {
    &&& unique_ids(new)
    &&& forall|x: RemoteItemView| new.contains(x) <==> (old.contains(x) && !ids.contains(x.id))
    &&& forall|id: u128| has_id(new, id) <==> (has_id(old, id) && !ids.contains(id))
    &&& forall|id: u128| removed.contains(id) <==> (ids.contains(id) && has_id(old, id))
    &&& removed.no_duplicates()
}

/// Position of the record with id `id`.
fn find_record(items: &Vec<RemoteHistoryItem>, id: u128) -> (r: Option<usize>)
    ensures
        match r {
            Some(i) => i < items@.len() && items@[i as int].history_entry.id == id,
            None => !has_id(remote_views(items@), id),
        },
{
    let mut i: usize = 0;
    while i < items.len()
        invariant
            i <= items@.len(),
            forall|k: int| 0 <= k < i ==> items@[k].history_entry.id != id,
        decreases items@.len() - i,
    {
        if items[i].history_entry.id == id {
            return Some(i);
        }
        i = i + 1;
    }
    proof {
        if has_id(remote_views(items@), id) {
            let k = choose|k: int| 0 <= k < remote_views(items@).len() && remote_views(items@)[k].id == id;
            assert(remote_views(items@)[k] == items@[k]@);
        }
    }
    None
}

/// Removes the records with the given ids; returns the ids that were present.
fn remove_records(items: &mut Vec<RemoteHistoryItem>, ids: &[u128]) -> (removed: Vec<u128>)
    requires
        unique_ids(remote_views(old(items)@)),
    ensures
        removal_outcome(remote_views(old(items)@), remote_views(final(items)@), ids@, removed@),
        final(items)@.len() + removed@.len() == old(items)@.len(),
{
    let ghost start = remote_views(items@);
    let mut removed: Vec<u128> = Vec::new();
    let mut k: usize = 0;
    while k < ids.len()
        invariant
            k <= ids@.len(),
            removal_outcome(start, remote_views(items@), ids@.take(k as int), removed@),
            items@.len() + removed@.len() == start.len(),
        decreases ids@.len() - k,
    {
        let ghost before = remote_views(items@);
        let ghost before_removed = removed@;
        let id = ids[k];
        proof {
            assert(ids@.take(k + 1) =~= ids@.take(k as int).push(id));
        }
        match find_record(items, id) {
            Some(i) => {
                proof {
                    lemma_remove_unique(before, i as int);
                    assert(before[i as int].id == id);
                }
                items.remove(i);
                proof {
                    assert(remote_views(items@) =~= before.remove(i as int));
                }
                removed.push(id);
                proof {
                    assert(!before_removed.contains(id));
                    assert forall|a: int, b: int| 0 <= a < b < removed@.len() implies removed@[a]
                        != removed@[b] by {
                        if b == removed@.len() - 1 {
                            assert(removed@[b] == id);
                            assert(removed@[a] == before_removed[a]);
                        }
                    }
                }
            },
            None => {},
        }
        proof {
            let now = remote_views(items@);
            let ks = ids@.take(k + 1);
            assert forall|x: RemoteItemView| now.contains(x) <==> (start.contains(x) && !ks.contains(x.id)) by {
                lemma_push_contains(ids@.take(k as int), id, x.id);
            }
            assert forall|q: u128| has_id(now, q) <==> (has_id(start, q) && !ks.contains(q)) by {
                lemma_push_contains(ids@.take(k as int), id, q);
            }
            assert forall|q: u128| removed@.contains(q) <==> (ks.contains(q) && has_id(start, q)) by {
                lemma_push_contains(ids@.take(k as int), id, q);
                lemma_push_contains(before_removed, id, q);
                if q == id && removed@ != before_removed {
                    assert(removed@.last() == id);
                }
            }
        }
        k = k + 1;
    }
    proof {
        assert(ids@.take(k as int) =~= ids@);
    }
    removed
}


// ---------------------------------------------------------------------------
// The content cache: the full items most recently fetched, oldest first.

/// `a + b`, saturating at the largest `usize`.
pub open spec fn sat_usize(a: usize, b: usize) -> usize {
    if a + b > usize::MAX { usize::MAX } else { (a + b) as usize }
}

/// What `str::len` gives for a text.
pub open spec fn slen(s: Seq<char>) -> usize {
    encode_utf8(s).len() as usize
}

/// `str::len` of an optional text, 0 when absent.
pub open spec fn opt_slen(o: Option<Seq<char>>) -> usize {
    match o {
        Some(s) => slen(s),
        None => 0,
    }
}

/// The estimate after adding the files of an item.
pub open spec fn estimate_files(total: usize, files: Seq<FileView>) -> usize
    decreases files.len(),
{
    if files.len() == 0 {
        total
    } else {
        let f = files.last();
        let t = estimate_files(total, files.drop_last());
        sat_usize(sat_usize(sat_usize(sat_usize(sat_usize(t, slen(f.name)), slen(f.relative_path)), 64), opt_slen(f.source_path)), opt_slen(f.local_path))
    }
}

/// Estimated memory of a cached item: a fixed overhead and the lengths of
/// its texts (saturating).
pub open spec fn estimate_spec(item: ItemView) -> usize {
    let base = sat_usize(sat_usize(sat_usize(sat_usize(256, slen(item.summary)), slen(item.signature)), opt_slen(item.source_device_id)), opt_slen(item.source_device_name));
    match item.payload {
        PayloadView::Text(t) => sat_usize(base, slen(t)),
        PayloadView::Files(fs) => estimate_files(base, fs),
    }
}

fn opt_len(o: &Option<String>) -> (r: usize)
    ensures
        r == opt_slen(opt_view(*o)),
{
    match o {
        Some(s) => s.as_str().len(),
        None => 0,
    }
}

/// Estimates the memory a cached item takes.
pub fn estimate_clipboard_item_bytes(item: &ClipboardItem) -> (r: usize)
    ensures
        r == estimate_spec(item@),
{
    let mut total: usize = 256;
    total = total.saturating_add(item.summary.as_str().len());
    total = total.saturating_add(item.signature.as_str().len());
    total = total.saturating_add(opt_len(&item.source_device_id));
    total = total.saturating_add(opt_len(&item.source_device_name));
    match &item.payload {
        ClipboardPayload::Text(text) => {
            total = total.saturating_add(text.as_str().len());
        },
        ClipboardPayload::Files(files) => {
            let ghost base = total;
            let ghost fv = crate::model::file_views(files@);
            let mut i: usize = 0;
            while i < files.len()
                invariant
                    i <= files@.len(),
                    fv == crate::model::file_views(files@),
                    total == estimate_files(base, fv.take(i as int)),
                decreases files@.len() - i,
            {
                proof {
                    assert(fv.take(i + 1).drop_last() =~= fv.take(i as int));
                    assert(fv.take(i + 1).last() == files@[i as int]@);
                }
                let f = &files[i];
                total = total.saturating_add(f.name.as_str().len());
                total = total.saturating_add(f.relative_path.as_str().len());
                total = total.saturating_add(64);
                total = total.saturating_add(opt_len(&f.source_path));
                total = total.saturating_add(opt_len(&f.local_path));
                i = i + 1;
            }
            proof {
                assert(fv.take(i as int) =~= fv);
            }
        },
    }
    total
}

/// A cached item with its estimate.
#[derive(Debug)]
pub struct CachedRemoteContent {
    pub item: ClipboardItem,
    pub estimated_bytes: usize,
}

/// Abstract value of a cache entry.
pub ghost struct CacheEntryView {
    pub item: ItemView,
    pub estimated_bytes: usize,
}

impl View for CachedRemoteContent {
    type V = CacheEntryView;

    open spec fn view(&self) -> CacheEntryView {
        CacheEntryView { item: self.item@, estimated_bytes: self.estimated_bytes }
    }
}

/// Abstract values of cache entries.
pub open spec fn cache_views(s: Seq<CachedRemoteContent>) -> Seq<CacheEntryView> {
    s.map_values(|e: CachedRemoteContent| e@)
}

/// Sum of the estimates of cache entries.
pub open spec fn cache_total(s: Seq<CacheEntryView>) -> nat
    decreases s.len(),
{
    if s.len() == 0 {
        0
    } else {
        cache_total(s.drop_last()) + (s.last().estimated_bytes as nat)
    }
}

/// Cache entries without the one of an item id.
pub open spec fn cache_without(s: Seq<CacheEntryView>, id: u128) -> Seq<CacheEntryView> {
    s.filter(|e: CacheEntryView| e.item.id != id)
}

/// Evicts the oldest entries while the cache holds too many or too much.
pub open spec fn cache_evict(s: Seq<CacheEntryView>) -> Seq<CacheEntryView>
    decreases s.len(),
{
    if s.len() > MAX_REMOTE_CONTENT_CACHE_ITEMS || cache_total(s) > MAX_REMOTE_CONTENT_CACHE_BYTES {
        if s.len() == 0 {
            s
        } else {
            cache_evict(s.drop_first())
        }
    } else {
        s
    }
}

/// The cache after caching an item: an item too large for the budget is
/// dropped from it; otherwise it becomes the newest entry, replacing an
/// older copy, and the oldest entries go while the budget is exceeded.
pub open spec fn cache_insert_spec(s: Seq<CacheEntryView>, item: ItemView) -> Seq<CacheEntryView> {
    let est = estimate_spec(item);
    if est > MAX_REMOTE_CONTENT_CACHE_BYTES {
        cache_without(s, item.id)
    } else {
        cache_evict(cache_without(s, item.id).push(CacheEntryView { item, estimated_bytes: est }))
    }
}

/// The cached items that are never too many nor too large.
pub open spec fn cache_wf(s: Seq<CacheEntryView>, total: usize) -> bool {
    &&& total == cache_total(s)
    &&& s.len() <= MAX_REMOTE_CONTENT_CACHE_ITEMS
    &&& total <= MAX_REMOTE_CONTENT_CACHE_BYTES
}

proof fn lemma_cache_total_filter(s: Seq<CacheEntryView>, id: u128)
    ensures
        cache_total(cache_without(s, id)) <= cache_total(s),
        cache_without(s, id).len() <= s.len(),
    decreases s.len(),
{
    reveal(Seq::filter);
    if s.len() > 0 {
        lemma_cache_total_filter(s.drop_last(), id);
        let f = cache_without(s.drop_last(), id);
        assert(cache_without(s, id) == if s.last().item.id != id { f.push(s.last()) } else { f });
        if s.last().item.id != id {
            assert(cache_without(s, id).drop_last() =~= f);
        }
    }
}

proof fn lemma_cache_total_drop_first(s: Seq<CacheEntryView>)
    requires
        s.len() > 0,
    ensures
        cache_total(s) == s[0].estimated_bytes + cache_total(s.drop_first()),
    decreases s.len(),
{
    if s.len() > 1 {
        lemma_cache_total_drop_first(s.drop_last());
        assert(s.drop_last().drop_first() =~= s.drop_first().drop_last());
    } else {
        assert(s.drop_first() =~= Seq::<CacheEntryView>::empty());
        assert(s.drop_last() =~= Seq::<CacheEntryView>::empty());
    }
}

proof fn lemma_cache_evict(s: Seq<CacheEntryView>)
    ensures
        cache_evict(s).len() <= MAX_REMOTE_CONTENT_CACHE_ITEMS,
        cache_total(cache_evict(s)) <= MAX_REMOTE_CONTENT_CACHE_BYTES,
    decreases s.len(),
{
    if s.len() > MAX_REMOTE_CONTENT_CACHE_ITEMS || cache_total(s) > MAX_REMOTE_CONTENT_CACHE_BYTES {
        if s.len() > 0 {
            lemma_cache_evict(s.drop_first());
        }
    }
}

/// The full items most recently fetched from peers, oldest first.
#[derive(Debug)]
pub struct RemoteContentCache {
    pub entries: Vec<CachedRemoteContent>,
    pub total_bytes: usize,
}

impl RemoteContentCache {
    /// The cache's contents.
    pub open spec fn contents(&self) -> Seq<CacheEntryView> {
        cache_views(self.entries@)
    }

    /// The total is the sum of the estimates and within the budget.
    pub open spec fn wf(&self) -> bool {
        cache_wf(self.contents(), self.total_bytes)
    }

    /// An empty cache.
    pub fn new() -> (r: Self)
        ensures
            r.wf(),
            r.contents().len() == 0,
    {
        let r = RemoteContentCache { entries: Vec::new(), total_bytes: 0 };
        proof {
            assert(r.contents() =~= Seq::<CacheEntryView>::empty());
        }
        r
    }

    /// A copy of the cached item with the id.
    pub fn get(&self, id: u128) -> (r: Option<ClipboardItem>)
        ensures
            match r {
                Some(item) => exists|i: int| 0 <= i < self.contents().len() && self.contents()[i].item == item@ && item@.id == id,
                None => forall|i: int| 0 <= i < self.contents().len() ==> self.contents()[i].item.id != id,
            },
    {
        let mut i: usize = 0;
        while i < self.entries.len()
            invariant
                i <= self.entries@.len(),
                forall|k: int| 0 <= k < i ==> self.entries@[k].item.id != id,
            decreases self.entries@.len() - i,
        {
            if self.entries[i].item.id == id {
                let item = self.entries[i].item.clone();
                proof {
                    assert(self.contents()[i as int].item == item@);
                }
                return Some(item);
            }
            i = i + 1;
        }
        None
    }

    /// Drops the entry of the id.
    pub fn remove(&mut self, id: u128)
        requires
            old(self).wf(),
        ensures
            final(self).wf(),
            final(self).contents() == cache_without(old(self).contents(), id),
    {
        let ghost c0 = self.contents();
        let ghost pred = |e: CacheEntryView| e.item.id != id;
        let mut kept: Vec<CachedRemoteContent> = Vec::new();
        let mut total: usize = 0;
        let mut rest: Vec<CachedRemoteContent> = Vec::new();
        core::mem::swap(&mut rest, &mut self.entries);
        let ghost all = rest@;
        let mut k: usize = 0;
        let _n = rest.len();
        proof {
            assert(all.skip(0) =~= all);
            assert(cache_views(kept@) =~= cache_views(all).take(0).filter(pred)) by {
                reveal(Seq::filter);
            }
        }
        while rest.len() > 0
            invariant
                k + rest@.len() == all.len(),
                all.len() <= usize::MAX,
                rest@ == all.skip(k as int),
                cache_views(all) == c0,
                cache_total(c0) <= MAX_REMOTE_CONTENT_CACHE_BYTES,
                pred == (|e: CacheEntryView| e.item.id != id),
                cache_views(kept@) == c0.take(k as int).filter(pred),
                total == cache_total(cache_views(kept@)),
                cache_total(cache_views(kept@)) <= cache_total(c0.take(k as int)),
            decreases rest@.len(),
        {
            proof {
                reveal(Seq::filter);
                assert(c0.take(k + 1).drop_last() =~= c0.take(k as int));
                assert(all.skip(k as int)[0] == all[k as int]);
                lemma_cache_total_prefix(c0, k as int);
                lemma_cache_total_take_le(c0, k + 1);
            }
            let e = rest.remove(0);
            proof {
                assert(rest@ =~= all.skip(k + 1));
                assert(c0[k as int] == e@);
            }
            if e.item.id != id {
                let ghost kv = cache_views(kept@);
                total = total + e.estimated_bytes;
                kept.push(e);
                proof {
                    assert(cache_views(kept@) =~= kv.push(e@));
                    assert(cache_views(kept@).drop_last() =~= kv);
                }
            }
            k = k + 1;
        }
        proof {
            assert(c0.take(k as int) =~= c0);
            lemma_cache_total_filter(c0, id);
        }
        self.entries = kept;
        self.total_bytes = total;
    }

    /// Caches a full item.
    pub fn insert(&mut self, item: ClipboardItem)
        requires
            old(self).wf(),
        ensures
            final(self).wf(),
            final(self).contents() == cache_insert_spec(old(self).contents(), item@),
    {
        let est = estimate_clipboard_item_bytes(&item);
        if est > MAX_REMOTE_CONTENT_CACHE_BYTES {
            self.remove(item.id);
            return;
        }
        self.remove(item.id);
        let ghost base = self.contents();
        self.total_bytes = self.total_bytes + est;
        self.entries.push(CachedRemoteContent { item, estimated_bytes: est });
        proof {
            assert(self.contents() =~= base.push(CacheEntryView { item: item@, estimated_bytes: est }));
            assert(self.contents().drop_last() =~= base);
        }
        while self.entries.len() > MAX_REMOTE_CONTENT_CACHE_ITEMS || self.total_bytes > MAX_REMOTE_CONTENT_CACHE_BYTES
            invariant
                self.total_bytes == cache_total(self.contents()),
                cache_evict(self.contents()) == cache_evict(base.push(CacheEntryView { item: item@, estimated_bytes: est })),
            decreases self.entries@.len(),
        {
            let ghost c = self.contents();
            proof {
                if c.len() == 0 {
                    assert(cache_total(c) == 0);
                }
            }
            let front = self.entries.remove(0);
            proof {
                lemma_cache_total_drop_first(c);
                assert(self.contents() =~= c.drop_first());
            }
            self.total_bytes = self.total_bytes - front.estimated_bytes;
        }
        proof {
            lemma_cache_evict(self.contents());
            assert(cache_evict(self.contents()) == self.contents());
        }
    }
}

proof fn lemma_cache_total_prefix(s: Seq<CacheEntryView>, k: int)
    requires
        0 <= k < s.len(),
    ensures
        cache_total(s.take(k + 1)) == cache_total(s.take(k)) + s[k].estimated_bytes,
        cache_total(s.take(k)) <= cache_total(s),
    decreases s.len(),
{
    assert(s.take(k + 1).drop_last() =~= s.take(k));
    lemma_cache_total_take_le(s, k);
}

proof fn lemma_cache_total_take_le(s: Seq<CacheEntryView>, k: int)
    requires
        0 <= k <= s.len(),
    ensures
        cache_total(s.take(k)) <= cache_total(s),
    decreases s.len(),
{
    if k < s.len() {
        lemma_cache_total_take_le(s.drop_last(), k);
        assert(s.drop_last().take(k) =~= s.take(k));
    } else {
        assert(s.take(k) =~= s);
    }
}


// ---------------------------------------------------------------------------
// The session.

/// Remote history received from peers in this session, and the content cache.
#[derive(Debug)]
pub struct RemoteHistorySession {
    pub records: Vec<RemoteHistoryItem>,
    pub cache: RemoteContentCache,
}

/// The records after adding `rec`: it replaces the record with its id, or
/// goes last.
pub open spec fn with_record(s: Seq<RemoteItemView>, rec: RemoteItemView) -> Seq<RemoteItemView> {
    if has_id(s, rec.id) {
        s.update(choose|i: int| 0 <= i < s.len() && s[i].id == rec.id, rec)
    } else {
        s.push(rec)
    }
}

/// `y` is an old record, or the record of one of the first entries of a
/// snapshot that the per-peer budget admits.
pub open spec fn old_or_snapshot(old: Seq<RemoteItemView>, items: Seq<ClipboardItem>, y: RemoteItemView) -> bool {
    old.contains(y) || exists|j: int| 0 <= j < items.len() && j < MAX_REMOTE_SESSION_ITEMS_PER_PEER && y == remote_record(
        #[trigger] items[j]@,
    )
}

/// `q` is the id of an old record of the peer that the snapshot's admitted
/// entries no longer hold.
pub open spec fn stale_record(old: Seq<RemoteItemView>, items: Seq<ClipboardItem>, peer: Seq<char>, q: u128) -> bool {
    (exists|x: RemoteItemView| #[trigger] old.contains(x) && x.id == q && x.source_device_id == Some(peer))
        && !(exists|j: int| 0 <= j < items.len() && j < MAX_REMOTE_SESSION_ITEMS_PER_PEER && #[trigger] items[j]@.id == q)
}

/// `q` is the id of a record `y` that a budget pruned: an old or snapshot
/// record no newer than any remaining record of its source.
pub open spec fn pruned_oldest(old: Seq<RemoteItemView>, items: Seq<ClipboardItem>, fin: Seq<RemoteItemView>, q: u128) -> bool {
    exists|y: RemoteItemView| #[trigger] old_or_snapshot(old, items, y) && y.id == q
        && forall|z: RemoteItemView| #[trigger] fin.contains(z) && z.source_device_id == y.source_device_id ==> y.entry.created_at
            <= z.entry.created_at
}

/// Ids of a sequence of records.
pub open spec fn record_ids(s: Seq<RemoteItemView>) -> Seq<u128> {
    s.map_values(|x: RemoteItemView| x.id)
}

impl RemoteHistorySession {
    /// The records of the session.
    pub open spec fn records_view(&self) -> Seq<RemoteItemView> {
        remote_views(self.records@)
    }

    /// Record ids are unique and the cache is within its budget.
    pub open spec fn wf(&self) -> bool {
        &&& unique_ids(self.records_view())
        &&& self.cache.wf()
    }

    /// An empty session.
    pub fn new() -> (r: Self)
        ensures
            r.wf(),
            r.records_view().len() == 0,
            r.cache.contents().len() == 0,
            within_budgets(r.records_view()),
    {
        let r = RemoteHistorySession { records: Vec::new(), cache: RemoteContentCache::new() };
        proof {
            assert(r.records_view() =~= Seq::<RemoteItemView>::empty());
        }
        r
    }

    /// Forgets everything; returns the ids of the records that were kept.
    pub fn clear(&mut self) -> (r: Vec<u128>)
        requires
            old(self).wf(),
        ensures
            final(self).wf(),
            r@ == record_ids(old(self).records_view()),
            final(self).records_view().len() == 0,
            final(self).cache.contents().len() == 0,
            within_budgets(final(self).records_view()),
    {
        let mut ids: Vec<u128> = Vec::new();
        let mut i: usize = 0;
        while i < self.records.len()
            invariant
                i <= self.records@.len(),
                ids@ == record_ids(self.records_view()).take(i as int),
            decreases self.records@.len() - i,
        {
            ids.push(self.records[i].history_entry.id);
            proof {
                assert(ids@ =~= record_ids(self.records_view()).take(i + 1));
            }
            i = i + 1;
        }
        proof {
            assert(record_ids(self.records_view()).take(i as int) =~= record_ids(self.records_view()));
        }
        self.records = Vec::new();
        self.cache = RemoteContentCache::new();
        proof {
            assert(self.records_view() =~= Seq::<RemoteItemView>::empty());
        }
        ids
    }

    /// The record with the id.
    pub fn item(&self, id: u128) -> (r: Option<&RemoteHistoryItem>)
        ensures
            match r {
                Some(x) => x@.id == id && self.records_view().contains(x@),
                None => !has_id(self.records_view(), id),
            },
    {
        match find_record(&self.records, id) {
            Some(i) => {
                proof {
                    assert(self.records_view()[i as int] == self.records@[i as int]@);
                }
                Some(&self.records[i])
            },
            None => None,
        }
    }

    /// A copy of the cached full item with the id.
    pub fn cached_item(&self, id: u128) -> (r: Option<ClipboardItem>)
        ensures
            match r {
                Some(item) => exists|i: int| 0 <= i < self.cache.contents().len() && self.cache.contents()[i].item == item@ && item@.id == id,
                None => forall|i: int| 0 <= i < self.cache.contents().len() ==> self.cache.contents()[i].item.id != id,
            },
    {
        self.cache.get(id)
    }

    /// Whether a record has the id.
    pub fn contains(&self, id: u128) -> (r: bool)
        ensures
            r == has_id(self.records_view(), id),
    {
        match find_record(&self.records, id) {
            Some(i) => {
                proof {
                    assert(self.records_view()[i as int].id == id);
                }
                true
            },
            None => false,
        }
    }

    /// Number of records.
    pub fn len(&self) -> (r: usize)
        ensures
            r == self.records_view().len(),
    {
        self.records.len()
    }

    /// The history entries of the records.
    pub fn entries(&self) -> (r: Vec<HistoryEntry>)
        ensures
            entry_views(r@) == self.records_view().map_values(|x: RemoteItemView| x.entry),
    {
        let mut out: Vec<HistoryEntry> = Vec::new();
        let mut i: usize = 0;
        while i < self.records.len()
            invariant
                i <= self.records@.len(),
                entry_views(out@) == self.records_view().map_values(|x: RemoteItemView| x.entry).take(i as int),
            decreases self.records@.len() - i,
        {
            let ghost before = entry_views(out@);
            let e = self.records[i].history_entry.clone();
            out.push(e);
            proof {
                assert(entry_views(out@) =~= before.push(e@));
                assert(self.records_view().map_values(|x: RemoteItemView| x.entry)[i as int] == e@);
                assert(entry_views(out@) =~= self.records_view().map_values(|x: RemoteItemView| x.entry).take(i + 1));
            }
            i = i + 1;
        }
        proof {
            assert(self.records_view().map_values(|x: RemoteItemView| x.entry).take(i as int) =~= self.records_view().map_values(|x: RemoteItemView| x.entry));
        }
        out
    }

    /// The newest cached full item.
    pub fn latest_cached_item(&self) -> (r: Option<ClipboardItem>)
        ensures
            match r {
                Some(item) => exists|i: int| 0 <= i < self.cache.contents().len() && self.cache.contents()[i].item == item@
                    && forall|j: int| 0 <= j < self.cache.contents().len() ==> self.cache.contents()[j].item.created_at <= item@.created_at,
                None => self.cache.contents().len() == 0,
            },
    {
        let entries = &self.cache.entries;
        if entries.len() == 0 {
            return None;
        }
        let mut best: usize = 0;
        let mut i: usize = 1;
        while i < entries.len()
            invariant
                1 <= i <= entries@.len(),
                best < i,
                forall|j: int| 0 <= j < i ==> entries@[j].item.created_at <= entries@[best as int].item.created_at,
            decreases entries@.len() - i,
        {
            if entries[i].item.created_at >= entries[best].item.created_at {
                best = i;
            }
            i = i + 1;
        }
        let item = entries[best].item.clone();
        proof {
            assert(self.cache.contents()[best as int].item == item@);
        }
        Some(item)
    }

    /// Caches a full item.
    pub fn cache_item(&mut self, item: ClipboardItem)
        requires
            old(self).wf(),
        ensures
            final(self).wf(),
            final(self).records == old(self).records,
            final(self).cache.contents() == cache_insert_spec(old(self).cache.contents(), item@),
    {
        self.cache.insert(item);
    }

    /// Moves a record to a new time; false when there is no such record.
    pub fn touch_item(&mut self, id: u128, created_at: i128) -> (r: bool)
        requires
            old(self).wf(),
        ensures
            final(self).wf(),
            final(self).cache == old(self).cache,
            r == has_id(old(self).records_view(), id),
            r ==> exists|i: int| 0 <= i < old(self).records_view().len() && old(self).records_view()[i].id == id
                && final(self).records_view() == old(self).records_view().update(i, RemoteItemView {
                    entry: EntryView { created_at, ..old(self).records_view()[i].entry },
                    ..old(self).records_view()[i]
                }),
            !r ==> final(self).records == old(self).records,
            within_budgets(old(self).records_view()) ==> within_budgets(final(self).records_view()),
    {
        match find_record(&self.records, id) {
            Some(i) => {
                let ghost before = self.records_view();
                let mut rec = self.records.remove(i);
                rec.history_entry.created_at = created_at;
                self.records.insert(i, rec);
                proof {
                    assert(self.records_view() =~= before.update(i as int, RemoteItemView {
                        entry: EntryView { created_at, ..before[i as int].entry },
                        ..before[i as int]
                    }));
                    assert forall|a: int, b: int| 0 <= a < b < self.records_view().len() implies self.records_view()[a].id != self.records_view()[b].id by {
                        assert(self.records_view()[a].id == before[a].id);
                        assert(self.records_view()[b].id == before[b].id);
                    }
                    assert(before[i as int].id == id);
                    let y = RemoteItemView {
                        entry: EntryView { created_at, ..before[i as int].entry },
                        ..before[i as int]
                    };
                    lemma_scope_count_update(before, i as int, y, None);
                    assert forall|p: Seq<char>| #[trigger] scope_count(self.records_view(), Some(p)) == scope_count(before, Some(p)) by {
                        lemma_scope_count_update(before, i as int, y, Some(p));
                    }
                }
                true
            },
            None => false,
        }
    }

    /// Removes the records with the given ids, and their cached content;
    /// returns the ids of the records that were present, once each.
    #[verifier::loop_isolation(false)]
    fn remove_items(&mut self, ids: &[u128]) -> (r: Vec<u128>)
        requires
            old(self).wf(),
        ensures
            final(self).wf(),
            removal_outcome(old(self).records_view(), final(self).records_view(), ids@, r@),
            final(self).records@.len() + r@.len() == old(self).records@.len(),
            forall|i: int| 0 <= i < final(self).cache.contents().len() ==> !ids@.contains(final(self).cache.contents()[i].item.id),
            forall|i: int| 0 <= i < old(self).cache.contents().len() && !ids@.contains(old(self).cache.contents()[i].item.id)
                ==> final(self).cache.contents().contains(old(self).cache.contents()[i]),
    {
        let ghost start = self.records_view();
        let removed = remove_records(&mut self.records, ids);
        let ghost recs = self.records@;
        let ghost c0 = self.cache.contents();
        let mut k: usize = 0;
        while k < ids.len()
            invariant
                k <= ids@.len(),
                self.records@ == recs,
                removal_outcome(start, remote_views(recs), ids@, removed@),
                recs.len() + removed@.len() == start.len(),
                self.cache.wf(),
                forall|i: int| 0 <= i < self.cache.contents().len() ==> !ids@.take(k as int).contains(self.cache.contents()[i].item.id),
                forall|i: int| 0 <= i < c0.len() && !ids@.take(k as int).contains(c0[i].item.id) ==> self.cache.contents().contains(c0[i]),
            decreases ids@.len() - k,
        {
            let ghost before = self.cache.contents();
            self.cache.remove(ids[k]);
            proof {
                let id = ids@[k as int];
                let pred = |e: CacheEntryView| e.item.id != id;
                assert(ids@.take(k + 1) =~= ids@.take(k as int).push(id));
                assert forall|i: int| 0 <= i < self.cache.contents().len() implies !ids@.take(k + 1).contains(self.cache.contents()[i].item.id) by {
                    let x = self.cache.contents()[i];
                    assert(before.filter(pred).contains(x));
                    before.lemma_filter_contains_rev(pred, x);
                    lemma_push_contains(ids@.take(k as int), id, x.item.id);
                    let q = choose|q: int| 0 <= q < before.len() && before[q] == x;
                    assert(before[q] == x);
                }
                assert forall|i: int| 0 <= i < c0.len() && !ids@.take(k + 1).contains(c0[i].item.id) implies self.cache.contents().contains(c0[i]) by {
                    lemma_push_contains(ids@.take(k as int), id, c0[i].item.id);
                    assert(before.contains(c0[i]));
                    let q = choose|q: int| 0 <= q < before.len() && before[q] == c0[i];
                    before.lemma_filter_contains(pred, q);
                }
            }
            k = k + 1;
        }
        proof {
            assert(ids@.take(k as int) =~= ids@);
        }
        removed
    }

    /// Removes the oldest records of the scope (one peer's, or all) until at
    /// most `limit` remain in it; returns their ids.
    fn prune(&mut self, peer: Option<&str>, limit: usize) -> (r: Vec<u128>)
        requires
            old(self).wf(),
        ensures
            final(self).wf(),
            scope_count(final(self).records_view(), crate::config::opt_str_view(peer)) <= limit,
            r@.no_duplicates(),
            forall|x: RemoteItemView| #[trigger] final(self).records_view().contains(x) <==> (old(self).records_view().contains(x) && !r@.contains(x.id)),
            forall|id: u128| #[trigger] r@.contains(id) ==> exists|y: RemoteItemView| #[trigger] old(self).records_view().contains(y) && y.id == id
                && in_scope(y, crate::config::opt_str_view(peer))
                && forall|z: RemoteItemView| #[trigger] final(self).records_view().contains(z) && in_scope(z, crate::config::opt_str_view(peer)) ==> y.entry.created_at <= z.entry.created_at,
            forall|id: u128| #[trigger] r@.contains(id) ==> !has_id(final(self).records_view(), id),
            scope_count(old(self).records_view(), crate::config::opt_str_view(peer)) <= limit ==> r@.len() == 0
                && final(self).records_view() == old(self).records_view(),
            r@.len() > 0 ==> scope_count(final(self).records_view(), crate::config::opt_str_view(peer)) == limit,
    {
        let ghost scope = crate::config::opt_str_view(peer);
        let ghost start = self.records_view();
        let mut removed: Vec<u128> = Vec::new();
        loop
            invariant
                self.wf(),
                scope == crate::config::opt_str_view(peer),
                removed@.no_duplicates(),
                forall|q: u128| #[trigger] removed@.contains(q) ==> !has_id(self.records_view(), q),
                removed@.len() == 0 ==> self.records_view() == start,
                removed@.len() > 0 ==> scope_count(start, scope) > limit,
                removed@.len() > 0 ==> scope_count(self.records_view(), scope) >= limit,
                forall|x: RemoteItemView| #[trigger] self.records_view().contains(x) <==> (start.contains(x) && !removed@.contains(x.id)),
                forall|id: u128| #[trigger] removed@.contains(id) ==> exists|y: RemoteItemView| #[trigger] start.contains(y) && y.id == id
                    && in_scope(y, scope)
                    && forall|z: RemoteItemView| #[trigger] self.records_view().contains(z) && in_scope(z, scope) ==> y.entry.created_at <= z.entry.created_at,
            ensures
                self.wf(),
                scope == crate::config::opt_str_view(peer),
                scope_count(self.records_view(), scope) <= limit,
                removed@.no_duplicates(),
                forall|q: u128| #[trigger] removed@.contains(q) ==> !has_id(self.records_view(), q),
                scope_count(start, scope) <= limit ==> removed@.len() == 0 && self.records_view() == start,
                removed@.len() > 0 ==> scope_count(self.records_view(), scope) == limit,
                forall|x: RemoteItemView| #[trigger] self.records_view().contains(x) <==> (start.contains(x) && !removed@.contains(x.id)),
                forall|id: u128| #[trigger] removed@.contains(id) ==> exists|y: RemoteItemView| #[trigger] start.contains(y) && y.id == id
                    && in_scope(y, scope)
                    && forall|z: RemoteItemView| #[trigger] self.records_view().contains(z) && in_scope(z, scope) ==> y.entry.created_at <= z.entry.created_at,
            decreases self.records@.len(),
        {
            let count = count_in_scope(&self.records, peer);
            if count <= limit {
                break;
            }
            let i = oldest_in_scope(&self.records, peer);
            let ghost before = self.records_view();
            assert(removed@.len() == 0 ==> scope_count(start, scope) > limit);
            let ghost y = before[i as int];
            let id = self.records[i].history_entry.id;
            let mut one: Vec<u128> = Vec::new();
            one.push(id);
            let got = self.remove_items(one.as_slice());
            let ghost removed0 = removed@;
            proof {
                assert(one@ =~= seq![id]);
                assert(one@[0] == id);
                assert(one@.contains(id));
                assert(before[i as int].id == id);
                assert(has_id(before, id));
                assert(before.contains(y));
                assert(in_scope(y, scope));
                assert(got@.contains(id));
                assert(start.contains(y)) by {
                    assert(before.contains(y));
                }
                assert(!removed0.contains(id)) by {
                    if removed0.contains(id) {
                        assert(!start.contains(y) || removed0.contains(y.id));
                    }
                }
            }
            removed.push(id);
            proof {
                assert forall|x: RemoteItemView| #[trigger] self.records_view().contains(x) <==> (before.contains(x) && x.id != before[i as int].id) by {
                    lemma_push_contains(Seq::<u128>::empty(), id, x.id);
                }
                lemma_scope_count_drop_one(before, self.records_view(), i as int, scope);
                assert forall|q: u128| #[trigger] removed@.contains(q) implies !has_id(self.records_view(), q) by {
                    lemma_push_contains(removed0, id, q);
                    if q != id {
                        assert(removed0.contains(q));
                        assert(!has_id(before, q));
                    }
                }
                assert(removed@.len() > 0);
                assert forall|a: int, b: int| 0 <= a < b < removed@.len() implies removed@[a] != removed@[b] by {
                    if b == removed@.len() - 1 {
                        assert(removed0.contains(removed@[a]));
                    }
                }
                assert forall|x: RemoteItemView| #[trigger] self.records_view().contains(x) <==> (start.contains(x) && !removed@.contains(x.id)) by {
                    lemma_push_contains(removed0, id, x.id);
                    lemma_push_contains(one@, id, x.id);
                    assert(one@ =~= Seq::<u128>::empty().push(id));
                    lemma_push_contains(Seq::<u128>::empty(), id, x.id);
                }
                assert forall|q: u128| #[trigger] removed@.contains(q) implies exists|y2: RemoteItemView| #[trigger] start.contains(y2) && y2.id == q
                    && in_scope(y2, scope)
                    && forall|z: RemoteItemView| #[trigger] self.records_view().contains(z) && in_scope(z, scope) ==> y2.entry.created_at <= z.entry.created_at by {
                    lemma_push_contains(removed0, id, q);
                    if q == id {
                        assert(start.contains(y) && y.id == q && in_scope(y, scope));
                        assert forall|z: RemoteItemView| #[trigger] self.records_view().contains(z) && in_scope(z, scope) implies y.entry.created_at <= z.entry.created_at by {
                            assert(before.contains(z));
                        }
                    } else {
                        let y2 = choose|y2: RemoteItemView| #[trigger] start.contains(y2) && y2.id == q
                            && in_scope(y2, scope)
                            && forall|z: RemoteItemView| #[trigger] before.contains(z) && in_scope(z, scope) ==> y2.entry.created_at <= z.entry.created_at;
                        assert forall|z: RemoteItemView| #[trigger] self.records_view().contains(z) && in_scope(z, scope) implies y2.entry.created_at <= z.entry.created_at by {
                            assert(before.contains(z));
                        }
                    }
                }
            }
        }
        removed
    }

    /// Adds a record, replacing the one with the same id.
    fn upsert_record(&mut self, rec: RemoteHistoryItem)
        requires
            old(self).wf(),
        ensures
            final(self).wf(),
            final(self).cache == old(self).cache,
            final(self).records_view() == with_record(old(self).records_view(), rec@),
            forall|x: RemoteItemView| #[trigger] final(self).records_view().contains(x) <==> (x == rec@ || (old(self).records_view().contains(x) && x.id != rec@.id)),
    {
        let ghost before = self.records_view();
        match find_record(&self.records, rec.history_entry.id) {
            Some(i) => {
                let id = rec.history_entry.id;
                self.records.set(i, rec);
                proof {
                    assert(before[i as int].id == id);
                    let c = choose|j: int| 0 <= j < before.len() && before[j].id == id;
                    assert(c == i as int) by {
                        if c != i as int {
                            if c < i as int {
                                assert(before[c].id != before[i as int].id);
                            } else {
                                assert(before[i as int].id != before[c].id);
                            }
                        }
                    }
                    assert(self.records_view() =~= before.update(i as int, rec@));
                    assert forall|a: int, b: int| 0 <= a < b < self.records_view().len() implies self.records_view()[a].id != self.records_view()[b].id by {
                        if a != i && b != i {
                            assert(self.records_view()[a] == before[a]);
                            assert(self.records_view()[b] == before[b]);
                        }
                    }
                    assert forall|x: RemoteItemView| #[trigger] self.records_view().contains(x) <==> (x == rec@ || (before.contains(x) && x.id != rec@.id)) by {
                        if self.records_view().contains(x) {
                            let k = choose|k: int| 0 <= k < self.records_view().len() && self.records_view()[k] == x;
                            if k != i {
                                assert(before[k] == x);
                                assert(before[k].id != before[i as int].id);
                            }
                        }
                        if x == rec@ {
                            assert(self.records_view()[i as int] == x);
                        } else if before.contains(x) && x.id != rec@.id {
                            let k = choose|k: int| 0 <= k < before.len() && before[k] == x;
                            assert(k != i);
                            assert(self.records_view()[k] == x);
                        }
                    }
                }
            },
            None => {
                self.records.push(rec);
                proof {
                    assert(self.records_view() =~= before.push(rec@));
                    assert forall|a: int, b: int| 0 <= a < b < self.records_view().len() implies self.records_view()[a].id != self.records_view()[b].id by {
                        if b == before.len() {
                            assert(before[a].id != rec@.id) by {
                                if before[a].id == rec@.id {
                                    assert(has_id(before, rec@.id));
                                }
                            }
                        }
                    }
                    assert forall|x: RemoteItemView| #[trigger] self.records_view().contains(x) <==> (x == rec@ || (before.contains(x) && x.id != rec@.id)) by {
                        lemma_push_contains(before, rec@, x);
                        if before.contains(x) {
                            let k = choose|k: int| 0 <= k < before.len() && before[k] == x;
                            if x.id == rec@.id {
                                assert(has_id(before, rec@.id));
                            }
                        }
                    }
                }
            },
        }
    }

    /// Drops the records of devices that went offline; returns their ids.
    pub fn retain_online_devices(&mut self, online_device_ids: &Vec<String>) -> (r: Vec<u128>)
        requires
            old(self).wf(),
        ensures
            final(self).wf(),
            forall|x: RemoteItemView| #[trigger] final(self).records_view().contains(x) <==> (old(self).records_view().contains(x)
                && !(x.source_device_id matches Some(d) && !crate::runtime::has_text(online_device_ids@, d))),
            forall|q: u128| #[trigger] r@.contains(q) <==> exists|x: RemoteItemView| #[trigger] old(self).records_view().contains(x) && x.id == q
                && (x.source_device_id matches Some(d) && !crate::runtime::has_text(online_device_ids@, d)),
            within_budgets(old(self).records_view()) ==> within_budgets(final(self).records_view()),
    {
        let ghost rv = self.records_view();
        let mut stale: Vec<u128> = Vec::new();
        let mut i: usize = 0;
        while i < self.records.len()
            invariant
                i <= self.records@.len(),
                rv == self.records_view(),
                forall|q: u128| #[trigger] stale@.contains(q) <==> exists|k: int| 0 <= k < i && rv[k].id == q && (rv[k].source_device_id matches Some(d) && !crate::runtime::has_text(online_device_ids@, d)),
            decreases self.records@.len() - i,
        {
            let offline = match &self.records[i].source_device_id {
                Some(d) => !crate::runtime::contains_text(online_device_ids, d.as_str()),
                None => false,
            };
            let ghost s0 = stale@;
            if offline {
                stale.push(self.records[i].history_entry.id);
            }
            proof {
                assert(rv[i as int] == self.records@[i as int]@);
                assert forall|q: u128| #[trigger] stale@.contains(q) <==> exists|k: int| 0 <= k < i + 1 && rv[k].id == q && (rv[k].source_device_id matches Some(d) && !crate::runtime::has_text(online_device_ids@, d)) by {
                    if offline {
                        lemma_push_contains(s0, rv[i as int].id, q);
                    }
                    if exists|k: int| 0 <= k < i + 1 && rv[k].id == q && (rv[k].source_device_id matches Some(d) && !crate::runtime::has_text(online_device_ids@, d)) {
                        let k = choose|k: int| 0 <= k < i + 1 && rv[k].id == q && (rv[k].source_device_id matches Some(d) && !crate::runtime::has_text(online_device_ids@, d));
                        if k < i {
                            assert(s0.contains(q));
                        }
                    }
                }
            }
            i = i + 1;
        }
        let r = self.remove_items(stale.as_slice());
        proof {
            assert forall|x: RemoteItemView| #[trigger] self.records_view().contains(x) <==> (rv.contains(x)
                && !(x.source_device_id matches Some(d) && !crate::runtime::has_text(online_device_ids@, d))) by {
                if rv.contains(x) {
                    let k = choose|k: int| 0 <= k < rv.len() && rv[k] == x;
                    if stale@.contains(x.id) {
                        let k2 = choose|k2: int| 0 <= k2 < i && rv[k2].id == x.id && (rv[k2].source_device_id matches Some(d) && !crate::runtime::has_text(online_device_ids@, d));
                        if k2 != k {
                            assert(rv[k2].id != rv[k].id) by {
                                if k2 < k {
                                } else {
                                }
                            }
                        }
                    }
                }
            }
            assert forall|q: u128| #[trigger] r@.contains(q) <==> exists|x: RemoteItemView| #[trigger] rv.contains(x) && x.id == q
                && (x.source_device_id matches Some(d) && !crate::runtime::has_text(online_device_ids@, d)) by {
                if r@.contains(q) {
                    let k = choose|k: int| 0 <= k < i && rv[k].id == q && (rv[k].source_device_id matches Some(d) && !crate::runtime::has_text(online_device_ids@, d));
                    assert(rv.contains(rv[k]));
                }
                if exists|x: RemoteItemView| #[trigger] rv.contains(x) && x.id == q && (x.source_device_id matches Some(d) && !crate::runtime::has_text(online_device_ids@, d)) {
                    let x = choose|x: RemoteItemView| #[trigger] rv.contains(x) && x.id == q && (x.source_device_id matches Some(d) && !crate::runtime::has_text(online_device_ids@, d));
                    let k = choose|k: int| 0 <= k < rv.len() && rv[k] == x;
                    assert(stale@.contains(q));
                    assert(has_id(rv, q));
                }
            }
        }
        proof {
            if within_budgets(rv) {
                lemma_subset_keeps_budgets(rv, self.records_view());
            }
        }
        r
    }

    /// Appends the ids of `more` to `out`.
    fn append_ids(out: &mut Vec<u128>, more: Vec<u128>)
        ensures
            final(out)@ == old(out)@ + more@,
    {
        let mut i: usize = 0;
        let ghost start = out@;
        while i < more.len()
            invariant
                i <= more@.len(),
                out@ == start + more@.take(i as int),
            decreases more@.len() - i,
        {
            out.push(more[i]);
            proof {
                assert(more@.take(i + 1) =~= more@.take(i as int).push(more@[i as int]));
            }
            i = i + 1;
        }
        proof {
            assert(more@.take(i as int) =~= more@);
        }
    }

    /// Records an item pushed live by a peer and caches it; the oldest
    /// records go when the peer's or the session's budget is exceeded.
    /// Returns the ids of the records that went.
    pub fn upsert_live_item(&mut self, item: ClipboardItem) -> (r: Vec<u128>)
        requires
            old(self).wf(),
        ensures
            final(self).wf(),
            scope_count(final(self).records_view(), None) <= MAX_REMOTE_SESSION_ITEMS_TOTAL,
            forall|x: RemoteItemView| #[trigger] final(self).records_view().contains(x) ==> x == remote_record(item@) || old(self).records_view().contains(x),
            final(self).records_view().contains(remote_record(item@)) || r@.contains(item@.id),
            forall|x: RemoteItemView| #[trigger] old(self).records_view().contains(x) && x.id != item@.id && !r@.contains(x.id) ==> final(self).records_view().contains(x),
            item@.source_device_id matches Some(p) ==> scope_count(final(self).records_view(), Some(p)) <= MAX_REMOTE_SESSION_ITEMS_PER_PEER,
            forall|p: Seq<char>| item@.source_device_id != Some(p) ==> #[trigger] scope_count(final(self).records_view(), Some(p))
                <= scope_count(old(self).records_view(), Some(p)),
            within_budgets(old(self).records_view()) ==> within_budgets(final(self).records_view()),
            r@.no_duplicates(),
            forall|q: u128| #[trigger] r@.contains(q) ==> !has_id(final(self).records_view(), q),
            forall|q: u128| #[trigger] r@.contains(q) ==> exists|y: RemoteItemView| #[trigger] with_record(old(self).records_view(), remote_record(item@)).contains(y)
                && y.id == q && forall|z: RemoteItemView| #[trigger] final(self).records_view().contains(z) && z.source_device_id == y.source_device_id
                ==> y.entry.created_at <= z.entry.created_at,
            scope_count(with_record(old(self).records_view(), remote_record(item@)), None) <= MAX_REMOTE_SESSION_ITEMS_TOTAL
                && (item@.source_device_id matches Some(p) ==> scope_count(with_record(old(self).records_view(), remote_record(item@)), Some(p))
                <= MAX_REMOTE_SESSION_ITEMS_PER_PEER) ==> r@.len() == 0 && final(self).records_view() == with_record(
                old(self).records_view(),
                remote_record(item@),
            ),
    {
        let peer = clone_opt_string(&item.source_device_id);
        let rec = remote_item_from_clipboard_item(&item);
        let ghost rv0 = self.records_view();
        let ghost recv = rec@;
        self.cache.insert(item);
        self.upsert_record(rec);
        let ghost rv1 = self.records_view();
        let mut removed: Vec<u128> = Vec::new();
        match &peer {
            Some(p) => {
                let more = self.prune(Some(p.as_str()), MAX_REMOTE_SESSION_ITEMS_PER_PEER);
                Self::append_ids(&mut removed, more);
            },
            None => {},
        }
        let ghost rv2 = self.records_view();
        let ghost removed1 = removed@;
        let more = self.prune(None, MAX_REMOTE_SESSION_ITEMS_TOTAL);
        let ghost more_v = more@;
        Self::append_ids(&mut removed, more);
        proof {
            if let Some(p) = item@.source_device_id {
                assert forall|x: RemoteItemView| #[trigger] self.records_view().contains(x) implies rv2.contains(x) by {}
                lemma_scope_count_subset(self.records_view(), rv2, Some(p));
            }
            assert(recv == remote_record(item@));
            assert(removed@ == removed1 + more_v);
            assert(forall|q: u128| #[trigger] removed1.contains(q) ==> !has_id(rv2, q));
            assert forall|a: int, b: int| 0 <= a < b < removed@.len() implies removed@[a] != removed@[b] by {
                if b < removed1.len() {
                } else if a >= removed1.len() {
                    assert(more_v[a - removed1.len()] != more_v[b - removed1.len()]);
                } else {
                    let q = removed@[b];
                    assert(more_v.contains(q));
                    let y = choose|y: RemoteItemView| #[trigger] rv2.contains(y) && y.id == q
                        && in_scope(y, None::<Seq<char>>)
                        && forall|z: RemoteItemView| #[trigger] self.records_view().contains(z) && in_scope(z, None::<Seq<char>>) ==> y.entry.created_at <= z.entry.created_at;
                    let k = choose|k: int| 0 <= k < rv2.len() && rv2[k] == y;
                    assert(has_id(rv2, q));
                    assert(removed1.contains(removed@[a]));
                }
            }
            assert forall|q: u128| #[trigger] removed@.contains(q) implies !has_id(self.records_view(), q) by {
                if removed1.contains(q) {
                    if has_id(self.records_view(), q) {
                        let k = choose|k: int| 0 <= k < self.records_view().len() && self.records_view()[k].id == q;
                        assert(self.records_view().contains(self.records_view()[k]));
                        assert(rv2.contains(self.records_view()[k]));
                        let k2 = choose|k2: int| 0 <= k2 < rv2.len() && rv2[k2] == self.records_view()[k];
                        assert(has_id(rv2, q));
                    }
                } else {
                    assert(more_v.contains(q));
                }
            }
            assert forall|q: u128| #[trigger] removed@.contains(q) implies exists|y: RemoteItemView| #[trigger] rv1.contains(y)
                && y.id == q && forall|z: RemoteItemView| #[trigger] self.records_view().contains(z) && z.source_device_id == y.source_device_id
                ==> y.entry.created_at <= z.entry.created_at by {
                if removed1.contains(q) {
                    let p = item@.source_device_id->0;
                    let y = choose|y: RemoteItemView| #[trigger] rv1.contains(y) && y.id == q
                        && in_scope(y, Some(p))
                        && forall|z: RemoteItemView| #[trigger] rv2.contains(z) && in_scope(z, Some(p)) ==> y.entry.created_at <= z.entry.created_at;
                    assert forall|z: RemoteItemView| #[trigger] self.records_view().contains(z) && z.source_device_id == y.source_device_id
                        implies y.entry.created_at <= z.entry.created_at by {
                        assert(rv2.contains(z));
                    }
                } else {
                    assert(more_v.contains(q));
                    let y = choose|y: RemoteItemView| #[trigger] rv2.contains(y) && y.id == q
                        && in_scope(y, None::<Seq<char>>)
                        && forall|z: RemoteItemView| #[trigger] self.records_view().contains(z) && in_scope(z, None::<Seq<char>>) ==> y.entry.created_at <= z.entry.created_at;
                    assert(rv1.contains(y));
                }
            }
            assert forall|q: u128| removed1.contains(q) || more_v.contains(q) implies #[trigger] removed@.contains(q) by {
                if removed1.contains(q) {
                    let k = choose|k: int| 0 <= k < removed1.len() && removed1[k] == q;
                    assert(removed@[k] == q);
                } else {
                    let k = choose|k: int| 0 <= k < more_v.len() && more_v[k] == q;
                    assert(removed@[removed1.len() + k] == q);
                }
            }
            assert forall|x: RemoteItemView| #[trigger] self.records_view().contains(x) implies x == recv || rv0.contains(x) by {
                assert(rv2.contains(x));
                assert(rv1.contains(x));
            }
            if !self.records_view().contains(recv) {
                assert(rv1.contains(recv));
                if rv2.contains(recv) {
                    assert(more_v.contains(recv.id));
                } else {
                    assert(removed1.contains(recv.id));
                }
            }
            assert forall|x: RemoteItemView| #[trigger] rv0.contains(x) && x.id != item@.id && !removed@.contains(x.id) implies self.records_view().contains(x) by {
                assert(rv1.contains(x));
                if !removed1.contains(x.id) {
                    assert(rv2.contains(x));
                }
                assert(!more_v.contains(x.id));
            }
            assert forall|p: Seq<char>| item@.source_device_id != Some(p) implies #[trigger] scope_count(self.records_view(), Some(p))
                <= scope_count(rv0, Some(p)) by {
                assert forall|x: RemoteItemView| #[trigger] self.records_view().contains(x) && in_scope(x, Some(p)) implies rv0.contains(x) by {
                    assert(x == recv || rv0.contains(x));
                }
                lemma_scope_count_subset(self.records_view(), rv0, Some(p));
            }
        }
        removed
    }

    /// Removes the listed records that came from the peer; returns their ids.
    pub fn remove_peer_items(&mut self, peer_device_id: &str, item_ids: &[u128]) -> (r: Vec<u128>)
        requires
            old(self).wf(),
        ensures
            final(self).wf(),
            forall|x: RemoteItemView| #[trigger] final(self).records_view().contains(x) <==> (old(self).records_view().contains(x)
                && !(item_ids@.contains(x.id) && x.source_device_id == Some(peer_device_id@))),
            forall|q: u128| #[trigger] r@.contains(q) <==> (item_ids@.contains(q) && exists|x: RemoteItemView| #[trigger] old(self).records_view().contains(x) && x.id == q
                && x.source_device_id == Some(peer_device_id@)),
            r@.no_duplicates(),
            within_budgets(old(self).records_view()) ==> within_budgets(final(self).records_view()),
    {
        let ghost rv = self.records_view();
        let mut stale: Vec<u128> = Vec::new();
        let mut i: usize = 0;
        while i < item_ids.len()
            invariant
                i <= item_ids@.len(),
                rv == self.records_view(),
                unique_ids(rv),
                forall|q: u128| #[trigger] stale@.contains(q) <==> (item_ids@.take(i as int).contains(q) && exists|x: RemoteItemView| #[trigger] rv.contains(x) && x.id == q
                    && x.source_device_id == Some(peer_device_id@)),
            decreases item_ids@.len() - i,
        {
            let id = item_ids[i];
            let found = find_record(&self.records, id);
            let belongs = match found {
                Some(k) => match &self.records[k].source_device_id {
                    Some(d) => str_eq(d.as_str(), peer_device_id),
                    None => false,
                },
                None => false,
            };
            let ghost s0 = stale@;
            if belongs {
                stale.push(id);
            }
            proof {
                assert(item_ids@.take(i + 1) =~= item_ids@.take(i as int).push(id));
                let has_match = exists|x: RemoteItemView| #[trigger] rv.contains(x) && x.id == id && x.source_device_id == Some(peer_device_id@);
                match found {
                    Some(k) => {
                        assert(rv[k as int] == self.records@[k as int]@);
                        assert(rv.contains(rv[k as int]));
                        if has_match {
                            let x = choose|x: RemoteItemView| #[trigger] rv.contains(x) && x.id == id && x.source_device_id == Some(peer_device_id@);
                            let a = choose|a: int| 0 <= a < rv.len() && rv[a] == x;
                            if a != k as int {
                                if a < k as int {
                                    assert(rv[a].id != rv[k as int].id);
                                } else {
                                    assert(rv[k as int].id != rv[a].id);
                                }
                            }
                            assert(belongs);
                        }
                        if belongs {
                            assert(has_match);
                        }
                    },
                    None => {
                        if has_match {
                            let x = choose|x: RemoteItemView| #[trigger] rv.contains(x) && x.id == id && x.source_device_id == Some(peer_device_id@);
                            let a = choose|a: int| 0 <= a < rv.len() && rv[a] == x;
                            assert(has_id(rv, id));
                        }
                    },
                }
                assert(belongs == has_match);
                assert forall|q: u128| #[trigger] stale@.contains(q) <==> (item_ids@.take(i + 1).contains(q) && exists|x: RemoteItemView| #[trigger] rv.contains(x) && x.id == q
                    && x.source_device_id == Some(peer_device_id@)) by {
                    lemma_push_contains(item_ids@.take(i as int), id, q);
                    if belongs {
                        lemma_push_contains(s0, id, q);
                    }
                }
            }
            i = i + 1;
        }
        proof {
            assert(item_ids@.take(i as int) =~= item_ids@);
        }
        let r = self.remove_items(stale.as_slice());
        proof {
            assert forall|x: RemoteItemView| #[trigger] self.records_view().contains(x) <==> (rv.contains(x)
                && !(item_ids@.contains(x.id) && x.source_device_id == Some(peer_device_id@))) by {
                if rv.contains(x) && stale@.contains(x.id) {
                    let y = choose|y: RemoteItemView| #[trigger] rv.contains(y) && y.id == x.id && y.source_device_id == Some(peer_device_id@);
                    let a = choose|a: int| 0 <= a < rv.len() && rv[a] == x;
                    let b = choose|b: int| 0 <= b < rv.len() && rv[b] == y;
                    if a != b {
                        assert(rv[a].id != rv[b].id) by {
                            if a < b {
                            } else {
                            }
                        }
                    }
                }
            }
            assert forall|q: u128| #[trigger] r@.contains(q) <==> (item_ids@.contains(q) && exists|x: RemoteItemView| #[trigger] rv.contains(x) && x.id == q
                && x.source_device_id == Some(peer_device_id@)) by {
                if stale@.contains(q) {
                    let x = choose|x: RemoteItemView| #[trigger] rv.contains(x) && x.id == q && x.source_device_id == Some(peer_device_id@);
                    let k = choose|k: int| 0 <= k < rv.len() && rv[k] == x;
                    assert(has_id(rv, q));
                }
            }
        }
        proof {
            if within_budgets(rv) {
                lemma_subset_keeps_budgets(rv, self.records_view());
            }
        }
        r
    }

    /// Replaces the peer's records with a fresh snapshot of its history (its
    /// first entries, up to the per-peer budget); the first item is cached.
    /// The oldest records go when a budget is exceeded. Returns the ids of
    /// the records that went.
    #[verifier::rlimit(100)]
    #[verifier::spinoff_prover]
    pub fn replace_peer_items(&mut self, peer_device_id: &str, items: Vec<ClipboardItem>) -> (r: Vec<u128>)
        requires
            old(self).wf(),
        ensures
            final(self).wf(),
            scope_count(final(self).records_view(), None) <= MAX_REMOTE_SESSION_ITEMS_TOTAL,
            forall|x: RemoteItemView| #[trigger] final(self).records_view().contains(x) ==> (exists|j: int| 0 <= j < items@.len() && j < MAX_REMOTE_SESSION_ITEMS_PER_PEER
                && x == remote_record(#[trigger] items@[j]@)) || (old(self).records_view().contains(x) && x.source_device_id != Some(peer_device_id@)),
            forall|x: RemoteItemView| #[trigger] old(self).records_view().contains(x) && x.source_device_id == Some(peer_device_id@)
                && !(exists|j: int| 0 <= j < items@.len() && j < MAX_REMOTE_SESSION_ITEMS_PER_PEER && #[trigger] items@[j]@.id == x.id)
                ==> r@.contains(x.id) && !has_id(final(self).records_view(), x.id),
            scope_count(final(self).records_view(), Some(peer_device_id@)) <= MAX_REMOTE_SESSION_ITEMS_PER_PEER,
            forall|p: Seq<char>|
                #![trigger scope_count(final(self).records_view(), Some(p))]
                p != peer_device_id@ && !(exists|j: int| 0 <= j < items@.len() && j < MAX_REMOTE_SESSION_ITEMS_PER_PEER
                    && #[trigger] items@[j]@.source_device_id == Some(p)) ==> scope_count(final(self).records_view(), Some(p))
                    <= scope_count(old(self).records_view(), Some(p)),
            within_budgets(old(self).records_view()) && (forall|j: int| 0 <= j < items@.len() && j < MAX_REMOTE_SESSION_ITEMS_PER_PEER
                ==> #[trigger] items@[j]@.source_device_id == Some(peer_device_id@)) ==> within_budgets(final(self).records_view()),
            forall|j: int| 0 <= j < items@.len() && j < MAX_REMOTE_SESSION_ITEMS_PER_PEER ==> has_id(
                final(self).records_view(),
                #[trigger] items@[j]@.id,
            ) || r@.contains(items@[j]@.id),
            r@.no_duplicates(),
            forall|q: u128| #[trigger] r@.contains(q) ==> !has_id(final(self).records_view(), q),
            forall|q: u128| #[trigger] r@.contains(q) ==> stale_record(old(self).records_view(), items@, peer_device_id@, q)
                || ((scope_count(final(self).records_view(), None) == MAX_REMOTE_SESSION_ITEMS_TOTAL || scope_count(
                final(self).records_view(),
                Some(peer_device_id@),
            ) == MAX_REMOTE_SESSION_ITEMS_PER_PEER) && pruned_oldest(
                old(self).records_view(),
                items@,
                final(self).records_view(),
                q,
            )),
    {
        let ghost all_items = items@;
        let mut incoming = items;
        incoming.truncate(MAX_REMOTE_SESSION_ITEMS_PER_PEER);
        let ghost inc = incoming@;
        proof {
            assert forall|j: int| 0 <= j < inc.len() implies inc[j] == all_items[j] && j < MAX_REMOTE_SESSION_ITEMS_PER_PEER by {}
        }
        let ghost rv0 = self.records_view();
        // records of the peer that the snapshot no longer holds
        let mut stale: Vec<u128> = Vec::new();
        let mut i: usize = 0;
        while i < self.records.len()
            invariant
                i <= self.records@.len(),
                rv0 == self.records_view(),
                inc == incoming@,
                forall|q: u128| #[trigger] stale@.contains(q) <==> exists|k: int| 0 <= k < i && rv0[k].id == q && rv0[k].source_device_id == Some(peer_device_id@)
                    && !(exists|j: int| 0 <= j < inc.len() && #[trigger] inc[j]@.id == q),
            decreases self.records@.len() - i,
        {
            let rid = self.records[i].history_entry.id;
            let mine = match &self.records[i].source_device_id {
                Some(d) => str_eq(d.as_str(), peer_device_id),
                None => false,
            };
            let mut listed = false;
            let mut j: usize = 0;
            while j < incoming.len()
                invariant
                    j <= incoming@.len(),
                    listed == exists|t: int| 0 <= t < j && #[trigger] incoming@[t]@.id == rid,
                decreases incoming@.len() - j,
            {
                if incoming[j].id == rid {
                    listed = true;
                }
                proof {
                    let t = j as int;
                    assert(incoming@[t]@.id == incoming@[t].id);
                }
                j = j + 1;
            }
            let ghost s0 = stale@;
            if mine && !listed {
                stale.push(rid);
            }
            proof {
                assert(rv0[i as int] == self.records@[i as int]@);
                assert forall|q: u128| #[trigger] stale@.contains(q) <==> exists|k: int| 0 <= k < i + 1 && rv0[k].id == q && rv0[k].source_device_id == Some(peer_device_id@)
                    && !(exists|j: int| 0 <= j < inc.len() && #[trigger] inc[j]@.id == q) by {
                    if mine && !listed {
                        lemma_push_contains(s0, rid, q);
                    }
                    if exists|k: int| 0 <= k < i + 1 && rv0[k].id == q && rv0[k].source_device_id == Some(peer_device_id@)
                        && !(exists|j: int| 0 <= j < inc.len() && #[trigger] inc[j]@.id == q) {
                        let k = choose|k: int| 0 <= k < i + 1 && rv0[k].id == q && rv0[k].source_device_id == Some(peer_device_id@)
                            && !(exists|j: int| 0 <= j < inc.len() && #[trigger] inc[j]@.id == q);
                        if k < i {
                            assert(s0.contains(q));
                        }
                    }
                }
            }
            i = i + 1;
        }
        let mut removed = self.remove_items(stale.as_slice());
        let ghost rv1 = self.records_view();
        proof {
            assert forall|x: RemoteItemView| #[trigger] rv0.contains(x) && x.source_device_id == Some(peer_device_id@)
                && !(exists|j: int| 0 <= j < inc.len() && #[trigger] inc[j]@.id == x.id) implies removed@.contains(x.id) && !has_id(rv1, x.id) by {
                let k = choose|k: int| 0 <= k < rv0.len() && rv0[k] == x;
                assert(stale@.contains(x.id));
                assert(has_id(rv0, x.id));
            }
            assert forall|x: RemoteItemView| #[trigger] rv1.contains(x) implies !(x.source_device_id == Some(peer_device_id@)
                && !(exists|j: int| 0 <= j < inc.len() && #[trigger] inc[j]@.id == x.id)) by {
                assert(rv0.contains(x));
                if x.source_device_id == Some(peer_device_id@) && !(exists|j: int| 0 <= j < inc.len() && #[trigger] inc[j]@.id == x.id) {
                    let k = choose|k: int| 0 <= k < rv0.len() && rv0[k] == x;
                    assert(stale@.contains(x.id));
                }
            }
        }
        // the snapshot's records
        let mut rest = incoming;
        let mut index: usize = 0;
        let _n = rest.len();
        proof {
            assert(inc.skip(0) =~= inc);
        }
        while rest.len() > 0
            invariant
                index + rest@.len() == inc.len(),
                inc.len() <= usize::MAX,
                rest@ == inc.skip(index as int),
                self.wf(),
                forall|x: RemoteItemView| #[trigger] self.records_view().contains(x) ==> (exists|j: int| 0 <= j < index && x == remote_record(#[trigger] inc[j]@))
                    || (rv1.contains(x) && !(exists|j: int| 0 <= j < index && #[trigger] inc[j]@.id == x.id)),
                forall|j: int| 0 <= j < index ==> has_id(self.records_view(), #[trigger] inc[j]@.id),
            decreases rest@.len(),
        {
            proof {
                assert(inc.skip(index as int)[0] == inc[index as int]);
            }
            let item = rest.remove(0);
            proof {
                assert(rest@ =~= inc.skip(index + 1));
            }
            let rec = remote_item_from_clipboard_item(&item);
            let ghost before = self.records_view();
            let ghost recv = rec@;
            self.upsert_record(rec);
            proof {
                assert(recv.id == inc[index as int]@.id);
                assert forall|j: int| 0 <= j < index + 1 implies has_id(self.records_view(), #[trigger] inc[j]@.id) by {
                    if inc[j]@.id == recv.id {
                        assert(self.records_view().contains(recv));
                        let k = choose|k: int| 0 <= k < self.records_view().len() && self.records_view()[k] == recv;
                    } else {
                        assert(has_id(before, inc[j]@.id));
                        let k = choose|k: int| 0 <= k < before.len() && before[k].id == inc[j]@.id;
                        assert(before.contains(before[k]));
                        assert(self.records_view().contains(before[k]));
                        let k2 = choose|k2: int| 0 <= k2 < self.records_view().len() && self.records_view()[k2] == before[k];
                    }
                }
                assert forall|x: RemoteItemView| #[trigger] self.records_view().contains(x) implies (exists|j: int| 0 <= j < index + 1 && x == remote_record(#[trigger] inc[j]@))
                    || (rv1.contains(x) && !(exists|j: int| 0 <= j < index + 1 && #[trigger] inc[j]@.id == x.id)) by {
                    if x == rec@ {
                        assert(x == remote_record(inc[index as int]@));
                    } else {
                        assert(before.contains(x) && x.id != rec@.id);
                        if rv1.contains(x) && !(exists|j: int| 0 <= j < index && #[trigger] inc[j]@.id == x.id) {
                            assert forall|j: int| 0 <= j < index + 1 implies #[trigger] inc[j]@.id != x.id by {
                                if j == index {
                                    assert(inc[j]@.id == rec@.id);
                                }
                            }
                        }
                    }
                }
            }
            if index == 0 {
                self.cache.insert(item);
            }
            index = index + 1;
        }
        let ghost rv2 = self.records_view();
        let ghost r0 = removed@;
        let more = self.prune(Some(peer_device_id), MAX_REMOTE_SESSION_ITEMS_PER_PEER);
        let ghost rv3 = self.records_view();
        let ghost m1 = more@;
        Self::append_ids(&mut removed, more);
        let more2 = self.prune(None, MAX_REMOTE_SESSION_ITEMS_TOTAL);
        let ghost m2 = more2@;
        let ghost r1 = removed@;
        Self::append_ids(&mut removed, more2);
        proof {
            assert forall|x: RemoteItemView| #[trigger] self.records_view().contains(x) implies rv3.contains(x) by {}
            lemma_scope_count_subset(self.records_view(), rv3, Some(peer_device_id@));
            assert forall|q: u128| r0.contains(q) implies #[trigger] removed@.contains(q) by {
                let k = choose|k: int| 0 <= k < r0.len() && r0[k] == q;
                assert(removed@[k] == q);
            }
            assert forall|x: RemoteItemView| #[trigger] self.records_view().contains(x) implies (exists|j: int| 0 <= j < all_items.len() && j < MAX_REMOTE_SESSION_ITEMS_PER_PEER
                && x == remote_record(#[trigger] all_items[j]@)) || (rv0.contains(x) && x.source_device_id != Some(peer_device_id@)) by {
                assert(rv3.contains(x));
                assert(rv2.contains(x));
                if exists|j: int| 0 <= j < index && x == remote_record(#[trigger] inc[j]@) {
                    let j = choose|j: int| 0 <= j < index && x == remote_record(#[trigger] inc[j]@);
                    assert(all_items[j] == inc[j]);
                } else {
                    assert(rv1.contains(x));
                    assert(rv0.contains(x));
                    if x.source_device_id == Some(peer_device_id@) {
                        assert(exists|j: int| 0 <= j < inc.len() && #[trigger] inc[j]@.id == x.id);
                        assert(!(exists|j: int| 0 <= j < index && #[trigger] inc[j]@.id == x.id));
                    }
                }
            }
            assert forall|x: RemoteItemView| #[trigger] rv0.contains(x) && x.source_device_id == Some(peer_device_id@)
                && !(exists|j: int| 0 <= j < all_items.len() && j < MAX_REMOTE_SESSION_ITEMS_PER_PEER && #[trigger] all_items[j]@.id == x.id)
                implies removed@.contains(x.id) && !has_id(self.records_view(), x.id) by {
                assert(!(exists|j: int| 0 <= j < inc.len() && #[trigger] inc[j]@.id == x.id)) by {
                    if exists|j: int| 0 <= j < inc.len() && #[trigger] inc[j]@.id == x.id {
                        let j = choose|j: int| 0 <= j < inc.len() && #[trigger] inc[j]@.id == x.id;
                        assert(all_items[j] == inc[j]);
                    }
                }
                assert(r0.contains(x.id));
                if has_id(self.records_view(), x.id) {
                    let k = choose|k: int| 0 <= k < self.records_view().len() && self.records_view()[k].id == x.id;
                    let y = self.records_view()[k];
                    assert(self.records_view().contains(y));
                    assert(rv3.contains(y));
                    assert(rv2.contains(y));
                    if exists|j: int| 0 <= j < index && y == remote_record(#[trigger] inc[j]@) {
                        let j = choose|j: int| 0 <= j < index && y == remote_record(#[trigger] inc[j]@);
                        assert(inc[j]@.id == x.id);
                    } else {
                        assert(rv1.contains(y));
                        assert(has_id(rv1, x.id));
                    }
                }
            }
            let fin = self.records_view();
            assert(removed@ == r0 + m1 + m2);
            assert forall|q: u128| #[trigger] r0.contains(q) implies !has_id(rv2, q) && stale_record(rv0, all_items, peer_device_id@, q) by {
                assert(stale@.contains(q));
                assert(!(exists|j: int| 0 <= j < inc.len() && #[trigger] inc[j]@.id == q));
                assert(!has_id(rv1, q));
                if has_id(rv2, q) {
                    let k = choose|k: int| 0 <= k < rv2.len() && rv2[k].id == q;
                    assert(rv2.contains(rv2[k]));
                    if exists|j: int| 0 <= j < index && rv2[k] == remote_record(#[trigger] inc[j]@) {
                        let j = choose|j: int| 0 <= j < index && rv2[k] == remote_record(#[trigger] inc[j]@);
                        assert(inc[j]@.id == q);
                    } else {
                        assert(rv1.contains(rv2[k]));
                        let k1 = choose|k1: int| 0 <= k1 < rv1.len() && rv1[k1] == rv2[k];
                        assert(has_id(rv1, q));
                    }
                }
                let kk = choose|kk: int| 0 <= kk < i && rv0[kk].id == q && rv0[kk].source_device_id == Some(peer_device_id@)
                    && !(exists|j: int| 0 <= j < inc.len() && #[trigger] inc[j]@.id == q);
                assert(rv0.contains(rv0[kk]));
                assert(!(exists|j: int| 0 <= j < all_items.len() && j < MAX_REMOTE_SESSION_ITEMS_PER_PEER && #[trigger] all_items[j]@.id == q)) by {
                    if exists|j: int| 0 <= j < all_items.len() && j < MAX_REMOTE_SESSION_ITEMS_PER_PEER && #[trigger] all_items[j]@.id == q {
                        let j = choose|j: int| 0 <= j < all_items.len() && j < MAX_REMOTE_SESSION_ITEMS_PER_PEER && #[trigger] all_items[j]@.id == q;
                        assert(inc[j] == all_items[j]);
                    }
                }
            }
            assert forall|y: RemoteItemView| #[trigger] rv2.contains(y) implies old_or_snapshot(rv0, all_items, y) by {
                if exists|j: int| 0 <= j < index && y == remote_record(#[trigger] inc[j]@) {
                    let j = choose|j: int| 0 <= j < index && y == remote_record(#[trigger] inc[j]@);
                    assert(inc[j] == all_items[j]);
                } else {
                    assert(rv1.contains(y));
                }
            }
            assert forall|q: u128| has_id(rv3, q) implies #[trigger] has_id(rv2, q) by {
                let k = choose|k: int| 0 <= k < rv3.len() && rv3[k].id == q;
                assert(rv3.contains(rv3[k]));
                let k2 = choose|k2: int| 0 <= k2 < rv2.len() && rv2[k2] == rv3[k];
            }
            assert forall|q: u128| has_id(fin, q) implies #[trigger] has_id(rv3, q) by {
                let k = choose|k: int| 0 <= k < fin.len() && fin[k].id == q;
                assert(fin.contains(fin[k]));
                let k2 = choose|k2: int| 0 <= k2 < rv3.len() && rv3[k2] == fin[k];
            }
            assert forall|q: u128| #[trigger] m1.contains(q) implies has_id(rv2, q) by {
                let y = choose|y: RemoteItemView| #[trigger] rv2.contains(y) && y.id == q
                    && in_scope(y, Some(peer_device_id@))
                    && forall|z: RemoteItemView| #[trigger] rv3.contains(z) && in_scope(z, Some(peer_device_id@)) ==> y.entry.created_at <= z.entry.created_at;
                let k = choose|k: int| 0 <= k < rv2.len() && rv2[k] == y;
            }
            assert forall|q: u128| #[trigger] m2.contains(q) implies has_id(rv3, q) by {
                let y = choose|y: RemoteItemView| #[trigger] rv3.contains(y) && y.id == q
                    && in_scope(y, None::<Seq<char>>)
                    && forall|z: RemoteItemView| #[trigger] fin.contains(z) && in_scope(z, None::<Seq<char>>) ==> y.entry.created_at <= z.entry.created_at;
                let k = choose|k: int| 0 <= k < rv3.len() && rv3[k] == y;
            }
            // the admitted entries are held unless listed
            assert forall|j: int| 0 <= j < all_items.len() && j < MAX_REMOTE_SESSION_ITEMS_PER_PEER implies has_id(
                fin,
                #[trigger] all_items[j]@.id,
            ) || removed@.contains(all_items[j]@.id) by {
                assert(inc[j] == all_items[j]);
                let q = all_items[j]@.id;
                assert(has_id(rv2, q));
                if !m1.contains(q) && !m2.contains(q) {
                    let k = choose|k: int| 0 <= k < rv2.len() && rv2[k].id == q;
                    assert(rv2.contains(rv2[k]));
                    assert(rv3.contains(rv2[k]));
                    assert(fin.contains(rv2[k]));
                    let k3 = choose|k3: int| 0 <= k3 < fin.len() && fin[k3] == rv2[k];
                } else if m1.contains(q) {
                    let k = choose|k: int| 0 <= k < m1.len() && m1[k] == q;
                    assert(removed@[r0.len() + k] == q);
                } else {
                    let k = choose|k: int| 0 <= k < m2.len() && m2[k] == q;
                    assert(removed@[r0.len() + m1.len() + k] == q);
                }
            }
            assert forall|a: int, b: int| 0 <= a < b < removed@.len() implies removed@[a] != removed@[b] by {
                let n0 = r0.len() as int;
                let n1 = m1.len() as int;
                if b < n0 {
                } else if a >= n0 + n1 {
                    assert(m2[a - n0 - n1] != m2[b - n0 - n1]);
                } else if a >= n0 && b < n0 + n1 {
                    assert(m1[a - n0] != m1[b - n0]);
                } else if a < n0 && b < n0 + n1 {
                    assert(r0.contains(removed@[a]));
                    assert(m1.contains(removed@[b]));
                } else if a < n0 {
                    assert(r0.contains(removed@[a]));
                    assert(m2.contains(removed@[b]));
                } else {
                    assert(m1.contains(removed@[a]));
                    assert(m2.contains(removed@[b]));
                    assert(!has_id(rv3, removed@[a]));
                }
            }
            assert forall|q: u128| #[trigger] removed@.contains(q) implies !has_id(fin, q) by {
                let k = choose|k: int| 0 <= k < removed@.len() && removed@[k] == q;
                if k < r0.len() {
                    assert(r0.contains(q));
                } else if k < r0.len() + m1.len() {
                    assert(m1.contains(q));
                    assert(!has_id(rv3, q));
                } else {
                    assert(m2.contains(q));
                }
            }
            if m2.len() == 0 {
                assert forall|x: RemoteItemView| #[trigger] fin.contains(x) implies rv3.contains(x) by {}
                assert forall|x: RemoteItemView| #[trigger] rv3.contains(x) implies fin.contains(x) by {}
                lemma_scope_count_subset(fin, rv3, Some(peer_device_id@));
                lemma_scope_count_subset(rv3, fin, Some(peer_device_id@));
            }
            assert forall|q: u128| #[trigger] removed@.contains(q) implies stale_record(rv0, all_items, peer_device_id@, q)
                || ((scope_count(fin, None) == MAX_REMOTE_SESSION_ITEMS_TOTAL || scope_count(fin, Some(peer_device_id@))
                == MAX_REMOTE_SESSION_ITEMS_PER_PEER) && pruned_oldest(rv0, all_items, fin, q)) by {
                let k = choose|k: int| 0 <= k < removed@.len() && removed@[k] == q;
                if k < r0.len() {
                    assert(r0.contains(q));
                } else if k < r0.len() + m1.len() {
                    assert(m1.contains(q));
                    let y = choose|y: RemoteItemView| #[trigger] rv2.contains(y) && y.id == q
                        && in_scope(y, Some(peer_device_id@))
                        && forall|z: RemoteItemView| #[trigger] rv3.contains(z) && in_scope(z, Some(peer_device_id@)) ==> y.entry.created_at <= z.entry.created_at;
                    assert(old_or_snapshot(rv0, all_items, y));
                    assert forall|z: RemoteItemView| #[trigger] fin.contains(z) && z.source_device_id == y.source_device_id
                        implies y.entry.created_at <= z.entry.created_at by {
                        assert(rv3.contains(z));
                    }
                } else {
                    assert(m2.contains(q));
                    let y = choose|y: RemoteItemView| #[trigger] rv3.contains(y) && y.id == q
                        && in_scope(y, None::<Seq<char>>)
                        && forall|z: RemoteItemView| #[trigger] fin.contains(z) && in_scope(z, None::<Seq<char>>) ==> y.entry.created_at <= z.entry.created_at;
                    assert(rv2.contains(y));
                    assert(old_or_snapshot(rv0, all_items, y));
                }
            }
        }
        proof {
            lemma_snapshot_scope_counts(rv0, self.records_view(), all_items, peer_device_id@);
        }
        removed
    }
}

/// After a snapshot of `peer` replaced its records, another device's records
/// are old ones, unless an admitted snapshot entry came from it.
proof fn lemma_snapshot_scope_counts(
    old: Seq<RemoteItemView>,
    fin: Seq<RemoteItemView>,
    items: Seq<ClipboardItem>,
    peer: Seq<char>,
)
    requires
        unique_ids(fin),
        forall|x: RemoteItemView| #[trigger] fin.contains(x) ==> (exists|j: int| 0 <= j < items.len() && j < MAX_REMOTE_SESSION_ITEMS_PER_PEER
            && x == remote_record(#[trigger] items[j]@)) || (old.contains(x) && x.source_device_id != Some(peer)),
    ensures
        forall|p: Seq<char>|
            #![trigger scope_count(fin, Some(p))]
            p != peer && !(exists|j: int| 0 <= j < items.len() && j < MAX_REMOTE_SESSION_ITEMS_PER_PEER
                && #[trigger] items[j]@.source_device_id == Some(p)) ==> scope_count(fin, Some(p)) <= scope_count(old, Some(p)),
        within_budgets(old) && scope_count(fin, None) <= MAX_REMOTE_SESSION_ITEMS_TOTAL
            && scope_count(fin, Some(peer)) <= MAX_REMOTE_SESSION_ITEMS_PER_PEER
            && (forall|j: int| 0 <= j < items.len() && j < MAX_REMOTE_SESSION_ITEMS_PER_PEER
            ==> #[trigger] items[j]@.source_device_id == Some(peer)) ==> within_budgets(fin),
{
    assert forall|p: Seq<char>|
        p != peer && !(exists|j: int| 0 <= j < items.len() && j < MAX_REMOTE_SESSION_ITEMS_PER_PEER
            && #[trigger] items[j]@.source_device_id == Some(p)) implies #[trigger] scope_count(fin, Some(p))
        <= scope_count(old, Some(p)) by {
        assert forall|x: RemoteItemView| #[trigger] fin.contains(x) && in_scope(x, Some(p)) implies old.contains(x) by {
            if !old.contains(x) {
                let j = choose|j: int| 0 <= j < items.len() && j < MAX_REMOTE_SESSION_ITEMS_PER_PEER && x == remote_record(#[trigger] items[j]@);
                assert(items[j]@.source_device_id == Some(p));
            }
        }
        lemma_scope_count_subset(fin, old, Some(p));
    }
    if within_budgets(old) && scope_count(fin, None) <= MAX_REMOTE_SESSION_ITEMS_TOTAL
        && scope_count(fin, Some(peer)) <= MAX_REMOTE_SESSION_ITEMS_PER_PEER
        && (forall|j: int| 0 <= j < items.len() && j < MAX_REMOTE_SESSION_ITEMS_PER_PEER
        ==> #[trigger] items[j]@.source_device_id == Some(peer)) {
        assert forall|p: Seq<char>| #[trigger] scope_count(fin, Some(p)) <= MAX_REMOTE_SESSION_ITEMS_PER_PEER by {
            if p != peer {
                assert(!(exists|j: int| 0 <= j < items.len() && j < MAX_REMOTE_SESSION_ITEMS_PER_PEER
                    && #[trigger] items[j]@.source_device_id == Some(p)));
                assert(scope_count(old, Some(p)) <= MAX_REMOTE_SESSION_ITEMS_PER_PEER);
            }
        }
    }
}

fn record_in_scope(rec: &RemoteHistoryItem, peer: Option<&str>) -> (r: bool)
    ensures
        r == in_scope(rec@, crate::config::opt_str_view(peer)),
{
    match peer {
        Some(p) => match &rec.source_device_id {
            Some(d) => str_eq(d.as_str(), p),
            None => false,
        },
        None => true,
    }
}

fn count_in_scope(records: &Vec<RemoteHistoryItem>, peer: Option<&str>) -> (r: usize)
    ensures
        r == scope_count(remote_views(records@), crate::config::opt_str_view(peer)),
{
    let ghost rv = remote_views(records@);
    let mut n: usize = 0;
    let mut i: usize = 0;
    while i < records.len()
        invariant
            i <= records@.len(),
            rv == remote_views(records@),
            n == scope_count(rv.take(i as int), crate::config::opt_str_view(peer)),
            n <= i,
        decreases records@.len() - i,
    {
        proof {
            assert(rv.take(i + 1).drop_last() =~= rv.take(i as int));
            assert(rv.take(i + 1).last() == records@[i as int]@);
        }
        if record_in_scope(&records[i], peer) {
            n = n + 1;
        }
        i = i + 1;
    }
    proof {
        assert(rv.take(i as int) =~= rv);
    }
    n
}

proof fn lemma_scope_count_pos(s: Seq<RemoteItemView>, peer: Option<Seq<char>>)
    requires
        scope_count(s, peer) > 0,
    ensures
        exists|i: int| 0 <= i < s.len() && in_scope(s[i], peer),
    decreases s.len(),
{
    if s.len() > 0 && !in_scope(s.last(), peer) {
        lemma_scope_count_pos(s.drop_last(), peer);
        let i = choose|i: int| 0 <= i < s.drop_last().len() && in_scope(s.drop_last()[i], peer);
        assert(s[i] == s.drop_last()[i]);
    } else if s.len() > 0 {
        assert(in_scope(s[s.len() - 1], peer));
    }
}

/// Position of an oldest record in scope; the scope must not be empty.
fn oldest_in_scope(records: &Vec<RemoteHistoryItem>, peer: Option<&str>) -> (r: usize)
    requires
        scope_count(remote_views(records@), crate::config::opt_str_view(peer)) > 0,
    ensures
        r < records@.len(),
        in_scope(records@[r as int]@, crate::config::opt_str_view(peer)),
        forall|j: int| 0 <= j < records@.len() && in_scope(#[trigger] records@[j]@, crate::config::opt_str_view(peer))
            ==> records@[r as int].history_entry.created_at <= records@[j].history_entry.created_at,
{
    proof {
        lemma_scope_count_pos(remote_views(records@), crate::config::opt_str_view(peer));
    }
    let ghost scope = crate::config::opt_str_view(peer);
    let mut best: Option<usize> = None;
    let mut i: usize = 0;
    while i < records.len()
        invariant
            i <= records@.len(),
            scope == crate::config::opt_str_view(peer),
            match best {
                Some(b) => b < i && in_scope(records@[b as int]@, scope) && forall|j: int| 0 <= j < i && in_scope(#[trigger] records@[j]@, scope)
                    ==> records@[b as int].history_entry.created_at <= records@[j].history_entry.created_at,
                None => forall|j: int| 0 <= j < i ==> !in_scope(#[trigger] records@[j]@, scope),
            },
        decreases records@.len() - i,
    {
        if record_in_scope(&records[i], peer) {
            match best {
                Some(b) => {
                    if records[i].history_entry.created_at < records[b].history_entry.created_at {
                        best = Some(i);
                    }
                },
                None => {
                    best = Some(i);
                },
            }
        }
        i = i + 1;
    }
    match best {
        Some(b) => b,
        None => {
            proof {
                let k = choose|k: int| 0 <= k < remote_views(records@).len() && in_scope(remote_views(records@)[k], scope);
                assert(in_scope(records@[k]@, scope));
            }
            0
        },
    }
}
} // verus!
