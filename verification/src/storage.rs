//! Decisions of the encrypted history store: duplicate suppression, the
//! retention limit (pinned items are never pruned), and the recent-items view.
//! The store itself (SQLite rows, encryption) feeds these functions.

use vstd::prelude::*;

use crate::model::{opt_view, ClipboardItem};
use crate::text::str_eq;

verus! {

/// Storage tuning knobs.
#[derive(Debug, Clone, Copy, PartialEq, Eq)]
pub struct HistoryStoreProfile {
    pub cache_size_kib: usize,
    pub full_sync: bool,
}

impl HistoryStoreProfile {
    /// The default profile: a 256 KiB page cache and relaxed syncing.
    pub fn default_profile() -> (r: HistoryStoreProfile)
        ensures
            r.cache_size_kib == 256,
            !r.full_sync,
    {
        HistoryStoreProfile { cache_size_kib: 256, full_sync: false }
    }
}

impl Default for HistoryStoreProfile {
    fn default() -> (r: HistoryStoreProfile)
        ensures
            r.cache_size_kib == 256,
            !r.full_sync,
    {
        HistoryStoreProfile::default_profile()
    }
}

/// Result of inserting an item into the history store.
#[derive(Debug)]
pub struct InsertResult {
    pub inserted: bool,
    pub pruned_ids: Vec<u128>,
}

/// Equality of optional strings.
pub fn opt_str_eq(a: &Option<String>, b: &Option<String>) -> (r: bool)
    ensures
        r == (opt_view(*a) == opt_view(*b)),
{
    match (a, b) {
        (Some(x), Some(y)) => str_eq(x.as_str(), y.as_str()),
        (None, None) => true,
        _ => false,
    }
}

/// An insert is skipped when the newest stored item is a different record with
/// the same content signature from the same source.
pub open spec fn is_repeat_of_latest(latest: ItemKey, item: ItemKey) -> bool {
    &&& latest.id != item.id
    &&& latest.signature == item.signature
    &&& latest.source_device_id == item.source_device_id
    &&& latest.source_device_name == item.source_device_name
    &&& latest.is_remote == item.is_remote
}

/// The fields of an item that duplicate suppression looks at.
pub ghost struct ItemKey {
    pub id: u128,
    pub signature: Seq<char>,
    pub source_device_id: Option<Seq<char>>,
    pub source_device_name: Option<Seq<char>>,
    pub is_remote: bool,
}

pub open spec fn item_key(i: ClipboardItem) -> ItemKey {
    ItemKey {
        id: i.id,
        signature: i.signature@,
        source_device_id: opt_view(i.source_device_id),
        source_device_name: opt_view(i.source_device_name),
        is_remote: i.is_remote,
    }
}

/// Whether inserting `item` should be skipped given the newest stored item.
pub fn insert_is_repeat(latest: Option<&ClipboardItem>, item: &ClipboardItem) -> (r: bool)
    ensures
        r == match latest {
            Some(l) => is_repeat_of_latest(item_key(*l), item_key(*item)),
            None => false,
        },
{
    match latest {
        None => false,
        Some(l) => {
            l.id != item.id && str_eq(l.signature.as_str(), item.signature.as_str())
                && opt_str_eq(&l.source_device_id, &item.source_device_id)
                && opt_str_eq(&l.source_device_name, &item.source_device_name)
                && l.is_remote == item.is_remote
        },
    }
}

/// Sort key of the `created_at` column: the timestamp in nanoseconds,
/// truncated to 64 bits.
pub fn created_at_sort_key(item: &ClipboardItem) -> (k: i64)
    ensures
        k == item.created_at as i64,
{
    #[verifier::truncate]
    (item.created_at as i64)
}

/// Number of unpinned rows in `pinned`.
pub open spec fn unpinned_count(pinned: Seq<bool>) -> nat
    decreases pinned.len(),
{
    if pinned.len() == 0 {
        0
    } else {
        unpinned_count(pinned.drop_last()) + if pinned.last() { 0nat } else { 1nat }
    }
}

/// The limit as applied: at least one unpinned item is always kept.
pub open spec fn effective_limit(limit: usize) -> nat {
    if limit >= 1 { limit as nat } else { 1 }
}

/// Row `i` (rows newest first) survives the limit: pinned, or among the
/// `effective_limit` newest unpinned rows.
pub open spec fn row_kept(pinned: Seq<bool>, limit: usize, i: int) -> bool {
    pinned[i] || unpinned_count(pinned.take(i)) < effective_limit(limit)
}

proof fn lemma_unpinned_step(pinned: Seq<bool>, i: int)
    requires
        0 <= i < pinned.len(),
    ensures
        unpinned_count(pinned.take(i + 1)) == unpinned_count(pinned.take(i)) + if pinned[i] {
            0nat
        } else {
            1nat
        },
{
    assert(pinned.take(i + 1).drop_last() =~= pinned.take(i));
}

/// For rows listed newest first, which rows the retention limit keeps: the
/// store deletes the others, and the recent-items view returns exactly these.
pub fn retention_mask(pinned: &[bool], limit: usize) -> (r: Vec<bool>)
    ensures
        r@.len() == pinned@.len(),
        forall|i: int| 0 <= i < pinned@.len() ==> r@[i] == row_kept(pinned@, limit, i),
{
    let lim: usize = if limit >= 1 { limit } else { 1 };
    let mut kept: usize = 0;
    let mut out: Vec<bool> = Vec::new();
    let mut i: usize = 0;
    while i < pinned.len()
        invariant
            i <= pinned.len(),
            lim == effective_limit(limit),
            kept as nat == if unpinned_count(pinned@.take(i as int)) < lim {
                unpinned_count(pinned@.take(i as int))
            } else {
                lim as nat
            },
            out@.len() == i,
            forall|j: int| 0 <= j < i ==> out@[j] == row_kept(pinned@, limit, j),
        decreases pinned.len() - i,
    {
        proof {
            lemma_unpinned_step(pinned@, i as int);
        }
        if pinned[i] {
            out.push(true);
        } else if kept < lim {
            kept = kept + 1;
            out.push(true);
        } else {
            out.push(false);
        }
        i = i + 1;
    }
    out
}

/// The pinned flags of the rows that survive the limit, in order.
pub open spec fn kept_rows(pinned: Seq<bool>, limit: usize) -> Seq<bool>
    decreases pinned.len(),
{
    if pinned.len() == 0 {
        seq![]
    } else {
        let n = (pinned.len() - 1) as int;
        if row_kept(pinned, limit, n) {
            kept_rows(pinned.drop_last(), limit).push(pinned[n])
        } else {
            kept_rows(pinned.drop_last(), limit)
        }
    }
}

proof fn lemma_kept_rows_step(pinned: Seq<bool>, limit: usize)
    requires
        pinned.len() > 0,
    ensures
        forall|j: int|
            0 <= j < pinned.len() - 1 ==> row_kept(pinned.drop_last(), limit, j) == row_kept(
                pinned,
                limit,
                j,
            ),
{
    assert forall|j: int| 0 <= j < pinned.len() - 1 implies row_kept(
        pinned.drop_last(),
        limit,
        j,
    ) == row_kept(pinned, limit, j) by {
        assert(pinned.drop_last().take(j) =~= pinned.take(j));
    }
}

/// Retention law: the rows kept by the limit hold exactly
/// `min(unpinned rows, effective_limit)` unpinned rows (pinned rows are
/// always kept, by `row_kept`).
pub proof fn lemma_kept_count_matches(pinned: Seq<bool>, limit: usize)
    ensures
        unpinned_count(kept_rows(pinned, limit)) == if unpinned_count(pinned) < effective_limit(
            limit,
        ) {
            unpinned_count(pinned)
        } else {
            effective_limit(limit)
        },
    decreases pinned.len(),
{
    if pinned.len() > 0 {
        let n = (pinned.len() - 1) as int;
        lemma_kept_rows_step(pinned, limit);
        lemma_kept_count_matches(pinned.drop_last(), limit);
        assert(pinned.drop_last() =~= pinned.take(n));
        if row_kept(pinned, limit, n) {
            assert(kept_rows(pinned, limit).drop_last() =~= kept_rows(pinned.drop_last(), limit));
        }
    }
}

} // verus!
