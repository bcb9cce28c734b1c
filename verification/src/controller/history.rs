//! The history list: scopes, the scope menu, filtering and ordering of rows,
//! the local entry cache, and merging a re-activated item with what is known.

use vstd::prelude::*;

use crate::controller::presenter::{history_entry_to_row, kind_label};
use crate::controller::types::{entry_views, EntryView, HistoryEntry, HistoryRow, HistoryScope, HistoryScopeOption};
use crate::controller::types::{option_views, ScopeOptionView};
use crate::model::{opt_view, trusted_views, TrustedPeer, TrustedPeerView};
use crate::runtime::{contains_text, has_text};
use crate::sorting::{lemma_multiset_map, sort_vec, TotalPreorder};
use crate::text::{
    ascii_lower, chars_of, eq_ignore_ascii_case_chars, eq_ignore_ascii_case_spec, extend_str,
    lemma_seq_lt_total, lemma_seq_lt_trans, seq_le, seq_lt, starts_with_chars, starts_with_spec,
    str_eq, string_of, trim, trim_chars, trim_spec, LexOrder, contains_chars, lex_le, contains_spec,
    lowercase, to_lowercase, decimal_chars, decimal_spec, extend_chars,
};

verus! {

/// The text form of a scope.
pub open spec fn scope_key_spec(s: HistoryScope) -> Seq<char> {
    match s {
        HistoryScope::All => "all"@,
        HistoryScope::Local => "local"@,
        HistoryScope::Device(id) => "device:"@ + id@,
    }
}

/// A history scope as a value: every source, the local device, or one
/// device by id.
pub ghost enum ScopeView {
    All,
    Local,
    Device(Seq<char>),
}

/// The value of a scope.
pub open spec fn scope_view(s: HistoryScope) -> ScopeView {
    match s {
        HistoryScope::All => ScopeView::All,
        HistoryScope::Local => ScopeView::Local,
        HistoryScope::Device(id) => ScopeView::Device(id@),
    }
}

/// The scope a text names: `local` or `all` in any case, `device:` and a
/// device id (the trimmed rest of the text); anything else is every scope.
pub open spec fn scope_from_raw_spec(value: Seq<char>) -> ScopeView {
    let t = trim_spec(value);
    if eq_ignore_ascii_case_spec(t, "local"@) {
        ScopeView::Local
    } else if eq_ignore_ascii_case_spec(t, "all"@) {
        ScopeView::All
    } else if starts_with_spec(t, "device:"@) && trim_spec(t.skip(7)).len() > 0 {
        ScopeView::Device(trim_spec(t.skip(7)))
    } else {
        ScopeView::All
    }
}

impl Clone for HistoryScope {
    fn clone(&self) -> (r: Self)
        ensures
            r == *self,
    {
        match self {
            HistoryScope::All => HistoryScope::All,
            HistoryScope::Local => HistoryScope::Local,
            HistoryScope::Device(id) => HistoryScope::Device(id.clone()),
        }
    }
}

impl HistoryScope {
    /// The text form of the scope.
    pub fn key(&self) -> (r: String)
        ensures
            r@ == scope_key_spec(*self),
    {
        match self {
            HistoryScope::All => "all".to_string(),
            HistoryScope::Local => "local".to_string(),
            HistoryScope::Device(id) => {
                let mut v = chars_of("device:");
                extend_str(&mut v, id.as_str());
                string_of(v.as_slice())
            },
        }
    }

    /// Reads a scope from its text form, leniently.
    pub fn from_raw(value: &str) -> (r: Self)
        ensures
            scope_view(r) == scope_from_raw_spec(value@),
    {
        let v = chars_of(value);
        let t = trim_chars(v.as_slice());
        let local = chars_of("local");
        let all = chars_of("all");
        if eq_ignore_ascii_case_chars(t.as_slice(), local.as_slice()) {
            return HistoryScope::Local;
        }
        if eq_ignore_ascii_case_chars(t.as_slice(), all.as_slice()) {
            return HistoryScope::All;
        }
        let prefix = chars_of("device:");
        proof {
            reveal_strlit("device:");
        }
        if starts_with_chars(t.as_slice(), prefix.as_slice()) {
            let mut rest: Vec<char> = Vec::new();
            let mut i: usize = 7;
            while i < t.len()
                invariant
                    7 <= i <= t@.len(),
                    rest@ == t@.subrange(7, i as int),
                decreases t@.len() - i,
            {
                rest.push(t[i]);
                proof {
                    assert(t@.subrange(7, i + 1) =~= t@.subrange(7, i as int).push(t@[i as int]));
                }
                i = i + 1;
            }
            proof {
                assert(rest@ =~= t@.skip(7));
            }
            let id = trim_chars(rest.as_slice());
            if id.len() > 0 {
                let s = string_of(id.as_slice());
                return HistoryScope::Device(s);
            }
        }
        HistoryScope::All
    }
}

/// Reading the text form of a scope gives the scope back, for a device id
/// that is not blank and has no surrounding whitespace.
pub proof fn lemma_scope_key_roundtrip(s: HistoryScope)
    requires
        s matches HistoryScope::Device(id) ==> id@.len() > 0 && trim_spec(id@) == id@,
    ensures
        scope_from_raw_spec(scope_key_spec(s)) == scope_view(s),
{
    reveal_strlit("all");
    reveal_strlit("local");
    reveal_strlit("device:");
    match s {
        HistoryScope::All => {
            crate::text::lemma_trim_plain("all"@);
            assert(!eq_ignore_ascii_case_spec("all"@, "local"@));
            assert(eq_ignore_ascii_case_spec("all"@, "all"@));
        },
        HistoryScope::Local => {
            crate::text::lemma_trim_plain("local"@);
            assert(eq_ignore_ascii_case_spec("local"@, "local"@));
        },
        HistoryScope::Device(id) => {
            let k = "device:"@ + id@;
            assert(k[0] == 'd');
            assert(k.last() == id@.last());
            crate::text::lemma_leading_ws_bounds(id@);
            crate::text::lemma_trailing_ws_bounds(id@);
            assert(!crate::text::is_ws(id@.last())) by {
                let u = crate::text::trim_start_spec(id@);
                crate::text::lemma_trailing_ws_bounds(u);
                assert(trim_spec(id@).len() == u.len() - crate::text::trailing_ws(u));
                assert(crate::text::leading_ws(id@) == 0);
                assert(u =~= id@);
            }
            crate::text::lemma_trim_plain(k);
            assert(k.len() != "local"@.len());
            assert(!eq_ignore_ascii_case_spec(k, "all"@)) by {
                if k.len() == 3 {
                    assert(ascii_lower(k[0]) != ascii_lower("all"@[0]));
                }
            }
            assert(k.take(7) =~= "device:"@);
            assert(k.skip(7) =~= id@);
        },
    }
}

/// The entries of `s` created at time `t`, in order.
pub open spec fn entries_at(s: Seq<EntryView>, t: i128) -> Seq<EntryView>
    decreases s.len(),
{
    if s.len() == 0 {
        seq![]
    } else if s.last().created_at == t {
        entries_at(s.drop_last(), t).push(s.last())
    } else {
        entries_at(s.drop_last(), t)
    }
}

/// `r` holds the entries of `s` newest first; entries created at the same
/// time keep their order.
pub open spec fn newest_first(s: Seq<EntryView>, r: Seq<EntryView>) -> bool {
    &&& forall|i: int, j: int| 0 <= i < j < r.len() ==> (#[trigger] r[i]).created_at >= (#[trigger] r[j]).created_at
    &&& forall|t: i128| #[trigger] entries_at(r, t) == entries_at(s, t)
}

proof fn lemma_entries_at_concat(a: Seq<EntryView>, b: Seq<EntryView>, t: i128)
    ensures
        entries_at(a + b, t) == entries_at(a, t) + entries_at(b, t),
    decreases b.len(),
{
    if b.len() == 0 {
        assert(a + b =~= a);
        assert(entries_at(a, t) + seq![] =~= entries_at(a, t));
    } else {
        assert((a + b).drop_last() =~= a + b.drop_last());
        lemma_entries_at_concat(a, b.drop_last(), t);
        if b.last().created_at == t {
            assert(entries_at(a, t) + entries_at(b.drop_last(), t).push(b.last()) =~= (entries_at(a, t)
                + entries_at(b.drop_last(), t)).push(b.last()));
        }
    }
}

proof fn lemma_entries_at_none(b: Seq<EntryView>, t: i128)
    requires
        forall|k: int| 0 <= k < b.len() ==> (#[trigger] b[k]).created_at != t,
    ensures
        entries_at(b, t) == Seq::<EntryView>::empty(),
    decreases b.len(),
{
    if b.len() > 0 {
        lemma_entries_at_none(b.drop_last(), t);
    }
}

proof fn lemma_entries_at_one(x: EntryView, t: i128)
    ensures
        entries_at(seq![x], t) == if x.created_at == t {
            seq![x]
        } else {
            Seq::<EntryView>::empty()
        },
{
    assert(seq![x].drop_last() =~= Seq::<EntryView>::empty());
    assert(seq![x].last() == x);
    assert(entries_at(Seq::<EntryView>::empty(), t) == Seq::<EntryView>::empty());
    assert(Seq::<EntryView>::empty().push(x) =~= seq![x]);
}

/// Orders entries newest first; entries created at the same time keep their order.
pub fn sort_newest_first(v: Vec<HistoryEntry>) -> (r: Vec<HistoryEntry>)
    ensures
        newest_first(entry_views(v@), entry_views(r@)),
{
    let ghost s = entry_views(v@);
    let mut out: Vec<HistoryEntry> = Vec::new();
    let mut i: usize = 0;
    while i < v.len()
        invariant
            i <= v@.len(),
            s == entry_views(v@),
            forall|a: int, b: int| 0 <= a < b < out@.len() ==> (#[trigger] out@[a]).created_at >= (#[trigger] out@[b]).created_at,
            forall|t: i128| #[trigger] entries_at(entry_views(out@), t) == entries_at(s.take(i as int), t),
        decreases v@.len() - i,
    {
        let x = v[i].clone();
        let mut p: usize = 0;
        while p < out.len() && out[p].created_at >= x.created_at
            invariant
                p <= out@.len(),
                forall|k: int| 0 <= k < p ==> (#[trigger] out@[k]).created_at >= x.created_at,
            decreases out@.len() - p,
        {
            p = p + 1;
        }
        let ghost before = out@;
        let ghost bv = entry_views(before);
        out.insert(p, x);
        proof {
            assert(out@ =~= before.insert(p as int, x));
            assert forall|a: int, b: int| 0 <= a < b < out@.len() implies (#[trigger] out@[a]).created_at >= (#[trigger] out@[b]).created_at by {
                if a < p && b > p {
                    assert(out@[b] == before[b - 1]);
                } else if a > p {
                    assert(out@[a] == before[a - 1]);
                    assert(out@[b] == before[b - 1]);
                } else if a == p && b > p {
                    assert(out@[b] == before[b - 1]);
                    if p < before.len() {
                        assert(before[p as int].created_at < x.created_at);
                        if b - 1 > p {
                            assert(before[p as int].created_at >= before[b - 1].created_at);
                        }
                    }
                }
            }
            let ov = entry_views(out@);
            assert(ov =~= bv.take(p as int) + seq![x@] + bv.skip(p as int));
            assert(bv =~= bv.take(p as int) + bv.skip(p as int));
            assert(s.take(i + 1) =~= s.take(i as int).push(x@));
            assert(x@ == s[i as int]);
            assert forall|t: i128| #[trigger] entries_at(ov, t) == entries_at(s.take(i + 1), t) by {
                lemma_entries_at_concat(bv.take(p as int) + seq![x@], bv.skip(p as int), t);
                lemma_entries_at_concat(bv.take(p as int), seq![x@], t);
                lemma_entries_at_concat(bv.take(p as int), bv.skip(p as int), t);
                lemma_entries_at_one(x@, t);
                assert(s.take(i + 1).drop_last() =~= s.take(i as int));
                if x.created_at == t {
                    assert forall|k: int| 0 <= k < bv.skip(p as int).len() implies (#[trigger] bv.skip(p as int)[k]).created_at != t by {
                        assert(bv.skip(p as int)[k] == bv[p + k]);
                        assert(before[p as int].created_at < x.created_at);
                        if k > 0 {
                            assert(before[p as int].created_at >= before[p + k].created_at);
                        }
                    }
                    lemma_entries_at_none(bv.skip(p as int), t);
                    assert(entries_at(ov, t) =~= entries_at(bv, t).push(x@));
                } else {
                    assert(entries_at(ov, t) =~= entries_at(bv, t));
                }
            }
        }
        i = i + 1;
    }
    proof {
        assert(s.take(i as int) =~= s);
    }
    out
}

/// Whether an entry belongs to a scope.
pub open spec fn in_history_scope(e: EntryView, scope: HistoryScope) -> bool {
    match scope {
        HistoryScope::All => true,
        HistoryScope::Local => !e.is_remote,
        HistoryScope::Device(id) => e.is_remote && e.source_device_id == Some(id@),
    }
}

/// Whether an entry matches a (lower-cased, trimmed) query: an empty query
/// matches everything, otherwise the search text must contain it.
pub open spec fn matches_query(e: EntryView, query: Seq<char>) -> bool {
    query.len() == 0 || contains_spec(e.search_blob, query)
}

/// The entries of `s` in the scope that match the query, in order.
pub open spec fn visible_entries(s: Seq<EntryView>, scope: HistoryScope, query: Seq<char>) -> Seq<EntryView>
    decreases s.len(),
{
    if s.len() == 0 {
        seq![]
    } else if in_history_scope(s.last(), scope) && matches_query(s.last(), query) {
        visible_entries(s.drop_last(), scope, query).push(s.last())
    } else {
        visible_entries(s.drop_last(), scope, query)
    }
}

/// The row shows the entry.
pub open spec fn row_shows(r: HistoryRow, e: EntryView) -> bool {
    &&& r.id == e.id
    &&& r.kind@ == kind_label(e.kind)
    &&& r.source_badge@ == e.source_badge
    &&& r.source_tooltip@ == e.source_tooltip
    &&& r.summary_text@ == e.summary_text
    &&& r.detail_tooltip@ == e.detail_tooltip
    &&& r.is_remote == e.is_remote
    &&& r.is_pinned == e.is_pinned
}

fn in_scope_exec(e: &HistoryEntry, scope: &HistoryScope) -> (r: bool)
    ensures
        r == in_history_scope(e@, *scope),
{
    match scope {
        HistoryScope::All => true,
        HistoryScope::Local => !e.is_remote,
        HistoryScope::Device(id) => {
            e.is_remote && match &e.source_device_id {
                Some(src) => str_eq(src.as_str(), id.as_str()),
                None => false,
            }
        },
    }
}

/// The rows of the entries in the scope that match the query, in order.
pub fn visible_rows(entries: &Vec<HistoryEntry>, scope: &HistoryScope, query: &str) -> (r: Vec<HistoryRow>)
    ensures
        r@.len() == visible_entries(entry_views(entries@), *scope, query@).len(),
        forall|i: int| 0 <= i < r@.len() ==> row_shows(#[trigger] r@[i], visible_entries(entry_views(entries@), *scope, query@)[i]),
{
    let ghost s = entry_views(entries@);
    let q = chars_of(query);
    let mut out: Vec<HistoryRow> = Vec::new();
    let mut i: usize = 0;
    while i < entries.len()
        invariant
            i <= entries@.len(),
            s == entry_views(entries@),
            q@ == query@,
            out@.len() == visible_entries(s.take(i as int), *scope, query@).len(),
            forall|k: int| 0 <= k < out@.len() ==> row_shows(#[trigger] out@[k], visible_entries(s.take(i as int), *scope, query@)[k]),
        decreases entries@.len() - i,
    {
        let e = &entries[i];
        proof {
            assert(s.take(i + 1).drop_last() =~= s.take(i as int));
            assert(s.take(i + 1).last() == e@);
        }
        let blob = chars_of(e.search_blob.as_str());
        if in_scope_exec(e, scope) && (q.len() == 0 || contains_chars(blob.as_slice(), q.as_slice())) {
            let row = history_entry_to_row(e);
            out.push(row);
        }
        i = i + 1;
    }
    proof {
        assert(s.take(i as int) =~= s);
    }
    out
}

/// Every entry of `local` and `remote`, newest first (local ones first among equals).
pub open spec fn all_entries(local: Seq<HistoryEntry>, remote: Seq<HistoryEntry>) -> Seq<EntryView> {
    entry_views(local) + entry_views(remote)
}

fn all_entries_newest_first(local: &Vec<HistoryEntry>, remote: &Vec<HistoryEntry>) -> (r: Vec<HistoryEntry>)
    ensures
        newest_first(all_entries(local@, remote@), entry_views(r@)),
{
    let mut v: Vec<HistoryEntry> = Vec::new();
    let mut i: usize = 0;
    while i < local.len()
        invariant
            i <= local@.len(),
            entry_views(v@) == entry_views(local@).take(i as int),
        decreases local@.len() - i,
    {
        let e = local[i].clone();
        let ghost before = v@;
        v.push(e);
        proof {
            assert(entry_views(v@) =~= entry_views(before).push(e@));
            assert(entry_views(local@).take(i + 1) =~= entry_views(local@).take(i as int).push(local@[i as int]@));
        }
        i = i + 1;
    }
    let mut j: usize = 0;
    while j < remote.len()
        invariant
            j <= remote@.len(),
            i == local@.len(),
            entry_views(v@) == entry_views(local@).take(i as int) + entry_views(remote@).take(j as int),
        decreases remote@.len() - j,
    {
        let e = remote[j].clone();
        let ghost before = v@;
        v.push(e);
        proof {
            assert(entry_views(v@) =~= entry_views(before).push(e@));
            assert(entry_views(remote@).take(j + 1) =~= entry_views(remote@).take(j as int).push(remote@[j as int]@));
            assert(entry_views(v@) =~= entry_views(local@).take(i as int) + entry_views(remote@).take(j + 1));
        }
        j = j + 1;
    }
    proof {
        assert(entry_views(local@).take(i as int) =~= entry_views(local@));
        assert(entry_views(remote@).take(j as int) =~= entry_views(remote@));
    }
    sort_newest_first(v)
}

/// The lower-cased, trimmed query.
pub open spec fn query_key(query: Seq<char>) -> Seq<char> {
    lowercase(trim_spec(query))
}

/// The rows of the history list: local and remote entries newest first, in
/// the (normalized) scope, matching the query.
pub fn history_rows_with_scope(
    local: &Vec<HistoryEntry>,
    remote: &Vec<HistoryEntry>,
    trusted: &Vec<TrustedPeer>,
    query: &str,
    scope: HistoryScope,
) -> (r: Vec<HistoryRow>)
    ensures
        exists|sorted: Seq<EntryView>| {
            &&& newest_first(all_entries(local@, remote@), sorted)
            &&& #[trigger] visible_entries(sorted, normalized_scope(trusted_views(trusted@), entry_views(remote@), scope), query_key(query@)).len() == r@.len()
            &&& forall|i: int| 0 <= i < r@.len() ==> row_shows(#[trigger] r@[i], visible_entries(sorted, normalized_scope(trusted_views(trusted@), entry_views(remote@), scope), query_key(query@))[i])
        },
{
    let ghost scope0 = scope;
    let scope = normalize_history_scope(trusted, remote, scope);
    let t = trim(query);
    let q = to_lowercase(t.as_str());
    let sorted = all_entries_newest_first(local, remote);
    let rows = visible_rows(&sorted, &scope, q.as_str());
    proof {
        let w = entry_views(sorted@);
        let sc = normalized_scope(trusted_views(trusted@), entry_views(remote@), scope0);
        assert(q@ == query_key(query@));
        assert(visible_entries(w, sc, query_key(query@)).len() == rows@.len());
        assert(forall|i: int| 0 <= i < rows@.len() ==> row_shows(#[trigger] rows@[i], visible_entries(w, sc, query_key(query@))[i]));
    }
    rows
}

/// The entries of the recent-items menu: the first `limit` entries newest
/// first, each as its id and `[badge] summary`.
pub fn recent_menu_entries(local: &Vec<HistoryEntry>, remote: &Vec<HistoryEntry>, limit: usize) -> (r: Vec<(u128, String)>)
    ensures
        exists|sorted: Seq<EntryView>| {
            &&& #[trigger] newest_first(all_entries(local@, remote@), sorted)
            &&& r@.len() == if limit < sorted.len() { limit as int } else { sorted.len() as int }
            &&& forall|i: int| 0 <= i < r@.len() ==> (#[trigger] r@[i]).0 == sorted[i].id && r@[i].1@ == seq!['['] + sorted[i].source_badge + seq![']', ' '] + sorted[i].summary_text
        },
{
    let sorted = all_entries_newest_first(local, remote);
    let ghost sv = entry_views(sorted@);
    let mut out: Vec<(u128, String)> = Vec::new();
    let mut i: usize = 0;
    while i < sorted.len() && i < limit
        invariant
            i <= sorted@.len(),
            i <= limit,
            sv == entry_views(sorted@),
            out@.len() == i,
            forall|k: int| 0 <= k < i ==> (#[trigger] out@[k]).0 == sv[k].id && out@[k].1@ == seq!['['] + sv[k].source_badge + seq![']', ' '] + sv[k].summary_text,
        decreases sorted@.len() - i,
    {
        let e = &sorted[i];
        let mut v: Vec<char> = Vec::new();
        v.push('[');
        extend_str(&mut v, e.source_badge.as_str());
        v.push(']');
        v.push(' ');
        extend_str(&mut v, e.summary_text.as_str());
        proof {
            assert(v@ =~= seq!['['] + e.source_badge@ + seq![']', ' '] + e.summary_text@);
        }
        out.push((e.id, string_of(v.as_slice())));
        i = i + 1;
    }
    out
}

/// The label of a remote source: its trimmed name, or its device id when the
/// name is blank.
pub open spec fn source_label(id: Seq<char>, name: Seq<char>) -> Seq<char> {
    if trim_spec(name).len() == 0 {
        id
    } else {
        trim_spec(name)
    }
}

/// A remote source of history: a device id and its label.
pub ghost struct SourceView {
    pub id: Seq<char>,
    pub label: Seq<char>,
}

/// The sources named by trusted peers, in order.
pub open spec fn trusted_sources(t: Seq<TrustedPeerView>) -> Seq<SourceView> {
    t.map_values(|p: TrustedPeerView| SourceView { id: p.device_id, label: source_label(p.device_id, p.device_name) })
}

/// The sources named by remote entries with a source device id, in order;
/// an entry's source tooltip is its device's name.
pub open spec fn entry_sources(r: Seq<EntryView>) -> Seq<SourceView>
    decreases r.len(),
{
    if r.len() == 0 {
        seq![]
    } else {
        match r.last().source_device_id {
            Some(id) => entry_sources(r.drop_last()).push(SourceView { id, label: source_label(id, r.last().source_tooltip) }),
            None => entry_sources(r.drop_last()),
        }
    }
}

/// Some source of `c` has the device id.
pub open spec fn source_listed(c: Seq<SourceView>, id: Seq<char>) -> bool {
    exists|k: int| 0 <= k < c.len() && (#[trigger] c[k]).id == id
}

/// The first source of each device id, in order.
pub open spec fn first_sources(c: Seq<SourceView>) -> Seq<SourceView>
    decreases c.len(),
{
    if c.len() == 0 {
        seq![]
    } else {
        let f = first_sources(c.drop_last());
        if source_listed(f, c.last().id) {
            f
        } else {
            f.push(c.last())
        }
    }
}

/// The menu choice of a source.
pub open spec fn option_of(s: SourceView) -> ScopeOptionView {
    ScopeOptionView { key: "device:"@ + s.id, label: s.label }
}

/// Order of the device choices: by label, then key.
pub open spec fn option_le(a: ScopeOptionView, b: ScopeOptionView) -> bool {
    seq_lt(a.label, b.label) || (a.label == b.label && seq_le(a.key, b.key))
}

impl TotalPreorder for HistoryScopeOption {
    open spec fn le(a: Self, b: Self) -> bool {
        option_le(a@, b@)
    }

    proof fn lemma_total(a: Self, b: Self) {
        lemma_seq_lt_total(a.label@, b.label@);
        lemma_seq_lt_total(a.key@, b.key@);
    }

    proof fn lemma_trans(a: Self, b: Self, c: Self) {
        if seq_lt(a.label@, b.label@) && seq_lt(b.label@, c.label@) {
            lemma_seq_lt_trans(a.label@, b.label@, c.label@);
        }
        if a.label@ == b.label@ && b.label@ == c.label@ && seq_lt(a.key@, b.key@) && seq_lt(b.key@, c.key@) {
            lemma_seq_lt_trans(a.key@, b.key@, c.key@);
        }
    }

    fn le_exec(&self, other: &Self) -> (r: bool) {
        let (l_lt, l_eq) = lex_le(self.label.as_str(), other.label.as_str());
        if l_lt {
            return true;
        }
        if !l_eq {
            return false;
        }
        let (k_lt, k_eq) = lex_le(self.key.as_str(), other.key.as_str());
        k_lt || k_eq
    }
}

fn label_for(id: &str, name: &str) -> (r: String)
    ensures
        r@ == source_label(id@, name@),
{
    let t = trim(name);
    if t.as_str().is_empty() {
        id.to_string()
    } else {
        t
    }
}

fn device_option(id: &str, label: String) -> (r: HistoryScopeOption)
    ensures
        r@ == option_of(SourceView { id: id@, label: label@ }),
{
    let mut v = chars_of("device:");
    extend_str(&mut v, id);
    HistoryScopeOption { key: string_of(v.as_slice()), label }
}

proof fn lemma_first_sources_step(c: Seq<SourceView>, x: SourceView)
    ensures
        first_sources(c.push(x)) == if source_listed(first_sources(c), x.id) {
            first_sources(c)
        } else {
            first_sources(c).push(x)
        },
{
    assert(c.push(x).drop_last() =~= c);
}

proof fn lemma_listed_push(f: Seq<SourceView>, x: SourceView)
    ensures
        forall|y: Seq<char>| #[trigger] source_listed(f.push(x), y) <==> (source_listed(f, y) || x.id == y),
{
    assert forall|y: Seq<char>| #[trigger] source_listed(f.push(x), y) <==> (source_listed(f, y) || x.id == y) by {
        if source_listed(f, y) {
            let k = choose|k: int| 0 <= k < f.len() && (#[trigger] f[k]).id == y;
            assert(f.push(x)[k] == f[k]);
        }
        if x.id == y {
            assert(f.push(x)[f.len() as int] == x);
        }
        if source_listed(f.push(x), y) {
            let k = choose|k: int| 0 <= k < f.len() + 1 && (#[trigger] f.push(x)[k]).id == y;
            if k < f.len() {
                assert(f[k] == f.push(x)[k]);
            }
        }
    }
}

fn add_source(opts: &mut Vec<HistoryScopeOption>, ids: &mut Vec<String>, id: &str, label: String, Ghost(c): Ghost<Seq<SourceView>>)
    requires
        option_views(old(opts)@) == first_sources(c).map_values(|s: SourceView| option_of(s)),
        forall|y: Seq<char>| #[trigger] has_text(old(ids)@, y) <==> source_listed(first_sources(c), y),
    ensures
        option_views(final(opts)@) == first_sources(c.push(SourceView { id: id@, label: label@ })).map_values(|s: SourceView| option_of(s)),
        forall|y: Seq<char>| #[trigger] has_text(final(ids)@, y) <==> source_listed(first_sources(c.push(SourceView { id: id@, label: label@ })), y),
{
    let ghost x = SourceView { id: id@, label: label@ };
    proof {
        lemma_first_sources_step(c, x);
    }
    if !contains_text(ids, id) {
        let ghost f = first_sources(c);
        let ghost o0 = opts@;
        let ghost i0 = ids@;
        let opt = device_option(id, label);
        opts.push(opt);
        let sid = id.to_string();
        ids.push(sid);
        proof {
            assert(option_views(opts@) =~= option_views(o0).push(option_of(x)));
            assert(f.push(x).map_values(|s: SourceView| option_of(s)) =~= f.map_values(|s: SourceView| option_of(s)).push(option_of(x)));
            lemma_listed_push(f, x);
            crate::controller::devices::lemma_has_text_push(i0, sid);
        }
    }
}

/// The first source of each device id among the trusted peers, then the
/// remote entries, as menu choices.
fn collect_source_options(trusted: &Vec<TrustedPeer>, remote: &Vec<HistoryEntry>) -> (r: Vec<HistoryScopeOption>)
    ensures
        option_views(r@) == first_sources(
            trusted_sources(trusted_views(trusted@)) + entry_sources(entry_views(remote@)),
        ).map_values(|s: SourceView| option_of(s)),
{
    let ghost ts = trusted_sources(trusted_views(trusted@));
    let ghost es = entry_sources(entry_views(remote@));
    let mut opts: Vec<HistoryScopeOption> = Vec::new();
    let mut ids: Vec<String> = Vec::new();
    let mut i: usize = 0;
    while i < trusted.len()
        invariant
            i <= trusted@.len(),
            ts == trusted_sources(trusted_views(trusted@)),
            option_views(opts@) == first_sources(ts.take(i as int)).map_values(|s: SourceView| option_of(s)),
            forall|y: Seq<char>| #[trigger] has_text(ids@, y) <==> source_listed(first_sources(ts.take(i as int)), y),
        decreases trusted@.len() - i,
    {
        let p = &trusted[i];
        let label = label_for(p.device_id.as_str(), p.device_name.as_str());
        proof {
            assert(ts.take(i + 1) =~= ts.take(i as int).push(SourceView { id: p.device_id@, label: label@ }));
        }
        add_source(&mut opts, &mut ids, p.device_id.as_str(), label, Ghost(ts.take(i as int)));
        i = i + 1;
    }
    proof {
        assert(ts.take(i as int) =~= ts);
        assert(ts + es.take(0) =~= ts);
    }
    let ghost rv = entry_views(remote@);
    let mut j: usize = 0;
    while j < remote.len()
        invariant
            j <= remote@.len(),
            rv == entry_views(remote@),
            option_views(opts@) == first_sources(ts + entry_sources(rv.take(j as int))).map_values(|s: SourceView| option_of(s)),
            forall|y: Seq<char>| #[trigger] has_text(ids@, y) <==> source_listed(first_sources(ts + entry_sources(rv.take(j as int))), y),
        decreases remote@.len() - j,
    {
        let e = &remote[j];
        proof {
            assert(rv.take(j + 1).drop_last() =~= rv.take(j as int));
            assert(rv.take(j + 1).last() == e@);
        }
        match &e.source_device_id {
            Some(id) => {
                let label = label_for(id.as_str(), e.source_tooltip.as_str());
                proof {
                    assert(ts + entry_sources(rv.take(j + 1)) =~= (ts + entry_sources(rv.take(j as int))).push(
                        SourceView { id: id@, label: label@ },
                    ));
                }
                add_source(&mut opts, &mut ids, id.as_str(), label, Ghost(ts + entry_sources(rv.take(j as int))));
            },
            None => {
                proof {
                    assert(entry_sources(rv.take(j + 1)) == entry_sources(rv.take(j as int)));
                }
            },
        }
        j = j + 1;
    }
    proof {
        assert(rv.take(j as int) =~= rv);
    }
    opts
}

/// The choices of the history scope menu: all, local, then one per remote
/// source (trusted peers first, then sources of remote entries; the first
/// label of each device id wins), ordered by label and key.
pub fn history_scope_options(trusted: &Vec<TrustedPeer>, remote: &Vec<HistoryEntry>) -> (r: Vec<HistoryScopeOption>)
    ensures
        r@.len() >= 2,
        r@[0]@ == (ScopeOptionView { key: "all"@, label: "全部"@ }),
        r@[1]@ == (ScopeOptionView { key: "local"@, label: "本机"@ }),
        forall|i: int, j: int| 2 <= i < j < r@.len() ==> option_le(#[trigger] r@[i]@, #[trigger] r@[j]@),
        option_views(r@).skip(2).to_multiset() == first_sources(
            trusted_sources(trusted_views(trusted@)) + entry_sources(entry_views(remote@)),
        ).map_values(|s: SourceView| option_of(s)).to_multiset(),
{
    let opts = collect_source_options(trusted, remote);
    let ghost unsorted = opts@;
    let sorted = sort_vec(opts);
    let ghost sorted_ghost = sorted@;
    proof {
        lemma_multiset_map(sorted@, unsorted, |o: HistoryScopeOption| o@);
        assert(option_views(sorted@) == sorted@.map_values(|o: HistoryScopeOption| o@));
        assert(option_views(unsorted) == unsorted.map_values(|o: HistoryScopeOption| o@));
    }
    let out = with_fixed_choices(sorted);
    proof {
        assert forall|a: int, b: int| 2 <= a < b < out@.len() implies option_le(#[trigger] out@[a]@, #[trigger] out@[b]@) by {
            assert(out@[a]@ == option_views(out@).skip(2)[a - 2]);
            assert(out@[b]@ == option_views(out@).skip(2)[b - 2]);
            assert(HistoryScopeOption::le(sorted_ghost[a - 2], sorted_ghost[b - 2]));
        }
    }
    out
}

fn with_fixed_choices(sorted: Vec<HistoryScopeOption>) -> (out: Vec<HistoryScopeOption>)
    ensures
        out@.len() == sorted@.len() + 2,
        out@[0]@ == (ScopeOptionView { key: "all"@, label: "全部"@ }),
        out@[1]@ == (ScopeOptionView { key: "local"@, label: "本机"@ }),
        option_views(out@).skip(2) == option_views(sorted@),
{
    let mut out: Vec<HistoryScopeOption> = Vec::new();
    out.push(HistoryScopeOption { key: "all".to_string(), label: "全部".to_string() });
    out.push(HistoryScopeOption { key: "local".to_string(), label: "本机".to_string() });
    let mut k: usize = 0;
    while k < sorted.len()
        invariant
            k <= sorted@.len(),
            out@.len() == k + 2,
            out@[0]@ == (ScopeOptionView { key: "all"@, label: "全部"@ }),
            out@[1]@ == (ScopeOptionView { key: "local"@, label: "本机"@ }),
            option_views(out@).skip(2) == option_views(sorted@).take(k as int),
        decreases sorted@.len() - k,
    {
        let o = HistoryScopeOption { key: sorted[k].key.clone(), label: sorted[k].label.clone() };
        let ghost before = out@;
        out.push(o);
        proof {
            assert(option_views(out@).skip(2) =~= option_views(before).skip(2).push(o@));
            assert(option_views(sorted@).take(k + 1) =~= option_views(sorted@).take(k as int).push(sorted@[k as int]@));
        }
        k = k + 1;
    }
    proof {
        assert(option_views(sorted@).take(k as int) =~= option_views(sorted@));
    }
    out
}

/// Some trusted peer or remote entry has this source device id.
pub open spec fn known_source(trusted: Seq<TrustedPeerView>, remote: Seq<EntryView>, id: Seq<char>) -> bool {
    (exists|i: int| 0 <= i < trusted.len() && (#[trigger] trusted[i]).device_id == id) || (exists|j: int|
        0 <= j < remote.len() && (#[trigger] remote[j]).source_device_id == Some(id))
}

/// A scope the menu offers stays; a device scope of an unknown device
/// becomes every scope.
pub open spec fn normalized_scope(trusted: Seq<TrustedPeerView>, remote: Seq<EntryView>, scope: HistoryScope) -> HistoryScope {
    match scope {
        HistoryScope::Device(id) => if known_source(trusted, remote, id@) {
            scope
        } else {
            HistoryScope::All
        },
        _ => scope,
    }
}

fn has_source(trusted: &Vec<TrustedPeer>, remote: &Vec<HistoryEntry>, id: &str) -> (r: bool)
    ensures
        r == known_source(trusted_views(trusted@), entry_views(remote@), id@),
{
    let ghost tv = trusted_views(trusted@);
    let ghost rv = entry_views(remote@);
    let mut i: usize = 0;
    while i < trusted.len()
        invariant
            i <= trusted@.len(),
            tv == trusted_views(trusted@),
            forall|k: int| 0 <= k < i ==> (#[trigger] tv[k]).device_id != id@,
        decreases trusted@.len() - i,
    {
        if str_eq(trusted[i].device_id.as_str(), id) {
            proof {
                assert(tv[i as int].device_id == id@);
            }
            return true;
        }
        i = i + 1;
    }
    let mut j: usize = 0;
    while j < remote.len()
        invariant
            j <= remote@.len(),
            rv == entry_views(remote@),
            forall|k: int| 0 <= k < trusted@.len() ==> (#[trigger] tv[k]).device_id != id@,
            forall|k: int| 0 <= k < j ==> (#[trigger] rv[k]).source_device_id != Some(id@),
        decreases remote@.len() - j,
    {
        match &remote[j].source_device_id {
            Some(src) => {
                if str_eq(src.as_str(), id) {
                    proof {
                        assert(rv[j as int].source_device_id == Some(id@));
                    }
                    return true;
                }
            },
            None => {},
        }
        j = j + 1;
    }
    false
}

/// Keeps a scope the menu offers; replaces a device scope of an unknown
/// device by every scope.
pub fn normalize_history_scope(trusted: &Vec<TrustedPeer>, remote: &Vec<HistoryEntry>, scope: HistoryScope) -> (r: HistoryScope)
    ensures
        r == normalized_scope(trusted_views(trusted@), entry_views(remote@), scope),
{
    let keep = match &scope {
        HistoryScope::Device(id) => has_source(trusted, remote, id.as_str()),
        _ => true,
    };
    if keep {
        scope
    } else {
        HistoryScope::All
    }
}

/// The entries of `s` whose id is not `id`, in order.
pub open spec fn without_id(s: Seq<EntryView>, id: u128) -> Seq<EntryView>
    decreases s.len(),
{
    if s.len() == 0 {
        seq![]
    } else if s.last().id == id {
        without_id(s.drop_last(), id)
    } else {
        without_id(s.drop_last(), id).push(s.last())
    }
}

/// Position of the first entry created before `t`, or the length.
pub open spec fn newer_pos(s: Seq<EntryView>, t: i128) -> nat
    decreases s.len(),
{
    if s.len() == 0 {
        0
    } else if s[0].created_at < t {
        0
    } else {
        1 + newer_pos(s.drop_first(), t)
    }
}

proof fn lemma_newer_pos(s: Seq<EntryView>, t: i128, i: int)
    requires
        0 <= i <= s.len(),
        forall|k: int| 0 <= k < i ==> (#[trigger] s[k]).created_at >= t,
        i == s.len() || s[i].created_at < t,
    ensures
        newer_pos(s, t) == i,
    decreases s.len(),
{
    if s.len() > 0 && i > 0 {
        assert forall|k: int| 0 <= k < i - 1 implies (#[trigger] s.drop_first()[k]).created_at >= t by {
            assert(s.drop_first()[k] == s[k + 1]);
        }
        lemma_newer_pos(s.drop_first(), t, i - 1);
    }
}

/// Keeps every pinned entry and the first `budget` unpinned ones, in order.
pub open spec fn keep_unlocked(s: Seq<EntryView>, budget: nat) -> Seq<EntryView>
    decreases s.len(),
{
    if s.len() == 0 {
        seq![]
    } else if s[0].is_pinned {
        seq![s[0]] + keep_unlocked(s.drop_first(), budget)
    } else if budget > 0 {
        seq![s[0]] + keep_unlocked(s.drop_first(), (budget - 1) as nat)
    } else {
        keep_unlocked(s.drop_first(), budget)
    }
}

/// The cached entries after an upsert: the entry replaces any with its id,
/// goes before the first older entry, and only the first `max(limit, 1)`
/// unpinned entries stay.
pub open spec fn upserted(s: Seq<EntryView>, e: EntryView, limit: usize) -> Seq<EntryView> {
    let w = without_id(s, e.id);
    keep_unlocked(w.insert(newer_pos(w, e.created_at) as int, e), if limit < 1 { 1 } else { limit as nat })
}

/// Inserts or replaces an entry of the local cache, keeping it newest first
/// and within the limit of unpinned entries.
pub fn upsert_history_entry(entries: &mut Vec<HistoryEntry>, entry: HistoryEntry, limit: usize)
    ensures
        entry_views(final(entries)@) == upserted(entry_views(old(entries)@), entry@, limit),
{
    let ghost s = entry_views(entries@);
    let mut w: Vec<HistoryEntry> = Vec::new();
    let mut i: usize = 0;
    while i < entries.len()
        invariant
            i <= entries@.len(),
            s == entry_views(entries@),
            entry_views(w@) == without_id(s.take(i as int), entry.id),
        decreases entries@.len() - i,
    {
        proof {
            assert(s.take(i + 1).drop_last() =~= s.take(i as int));
            assert(s.take(i + 1).last() == entries@[i as int]@);
        }
        if entries[i].id != entry.id {
            let e = entries[i].clone();
            let ghost before = w@;
            w.push(e);
            proof {
                assert(entry_views(w@) =~= entry_views(before).push(e@));
            }
        }
        i = i + 1;
    }
    proof {
        assert(s.take(i as int) =~= s);
    }
    let ghost wv = entry_views(w@);
    let mut p: usize = 0;
    while p < w.len() && !(w[p].created_at < entry.created_at)
        invariant
            p <= w@.len(),
            wv == entry_views(w@),
            forall|k: int| 0 <= k < p ==> (#[trigger] wv[k]).created_at >= entry.created_at,
        decreases w@.len() - p,
    {
        p = p + 1;
    }
    proof {
        lemma_newer_pos(wv, entry.created_at, p as int);
    }
    let ghost ev = entry@;
    w.insert(p, entry);
    let ghost ins = entry_views(w@);
    proof {
        assert(ins =~= wv.insert(p as int, ev));
    }
    let budget: usize = if limit < 1 { 1 } else { limit };
    let mut left: usize = budget;
    let mut out: Vec<HistoryEntry> = Vec::new();
    let mut k: usize = 0;
    proof {
        assert(ins.skip(0) =~= ins);
        assert(entry_views(out@) + keep_unlocked(ins, budget as nat) =~= keep_unlocked(ins, budget as nat));
    }
    while k < w.len()
        invariant
            k <= w@.len(),
            ins == entry_views(w@),
            left <= budget,
            entry_views(out@) + keep_unlocked(ins.skip(k as int), left as nat) == keep_unlocked(ins, budget as nat),
        decreases w@.len() - k,
    {
        let ghost rest = ins.skip(k as int);
        proof {
            assert(rest.drop_first() =~= ins.skip(k + 1));
            assert(rest[0] == w@[k as int]@);
        }
        let ghost before = entry_views(out@);
        if w[k].is_pinned {
            out.push(w[k].clone());
            proof {
                assert(entry_views(out@) =~= before.push(rest[0]));
                assert(before + (seq![rest[0]] + keep_unlocked(ins.skip(k + 1), left as nat)) =~= before.push(rest[0])
                    + keep_unlocked(ins.skip(k + 1), left as nat));
            }
        } else if left > 0 {
            out.push(w[k].clone());
            proof {
                assert(entry_views(out@) =~= before.push(rest[0]));
                assert(before + (seq![rest[0]] + keep_unlocked(ins.skip(k + 1), (left - 1) as nat)) =~= before.push(
                    rest[0],
                ) + keep_unlocked(ins.skip(k + 1), (left - 1) as nat));
            }
            left = left - 1;
        }
        k = k + 1;
    }
    proof {
        assert(ins.skip(k as int) =~= Seq::<EntryView>::empty());
        assert(entry_views(out@) + Seq::<EntryView>::empty() =~= entry_views(out@));
    }
    *entries = out;
}

/// Entries ordered newest first.
pub open spec fn ordered_newest_first(s: Seq<EntryView>) -> bool {
    forall|i: int, j: int| 0 <= i < j < s.len() ==> (#[trigger] s[i]).created_at >= (#[trigger] s[j]).created_at
}

/// No two entries share an id.
pub open spec fn entry_ids_unique(s: Seq<EntryView>) -> bool {
    forall|i: int, j: int| 0 <= i < j < s.len() ==> (#[trigger] s[i]).id != (#[trigger] s[j]).id
}

/// Number of unpinned entries.
pub open spec fn unpinned_entries(s: Seq<EntryView>) -> nat
    decreases s.len(),
{
    if s.len() == 0 {
        0
    } else {
        (if s[0].is_pinned { 0nat } else { 1nat }) + unpinned_entries(s.drop_first())
    }
}

proof fn lemma_without_id_members(s: Seq<EntryView>, id: u128)
    ensures
        forall|x: EntryView| #[trigger] without_id(s, id).contains(x) ==> s.contains(x) && x.id != id,
    decreases s.len(),
{
    if s.len() > 0 {
        let s0 = s.drop_last();
        lemma_without_id_members(s0, id);
        let w0 = without_id(s0, id);
        assert forall|x: EntryView| #[trigger] without_id(s, id).contains(x) implies s.contains(x) && x.id != id by {
            let w = without_id(s, id);
            let k = choose|k: int| 0 <= k < w.len() && w[k] == x;
            if k < w0.len() {
                assert(w0[k] == x);
                assert(w0.contains(x));
                let m = choose|m: int| 0 <= m < s0.len() && s0[m] == x;
                assert(s[m] == x);
            } else {
                assert(s[s.len() - 1] == x);
            }
        }
    }
}

proof fn lemma_without_id_props(s: Seq<EntryView>, id: u128)
    ensures
        ordered_newest_first(s) ==> ordered_newest_first(without_id(s, id)),
        entry_ids_unique(s) ==> entry_ids_unique(without_id(s, id)),
    decreases s.len(),
{
    if s.len() > 0 {
        let s0 = s.drop_last();
        let last = s[s.len() - 1];
        lemma_without_id_props(s0, id);
        lemma_without_id_members(s0, id);
        let w0 = without_id(s0, id);
        let w = without_id(s, id);
        if ordered_newest_first(s) {
            assert(ordered_newest_first(s0)) by {
                assert forall|i: int, j: int| 0 <= i < j < s0.len() implies (#[trigger] s0[i]).created_at >= (#[trigger] s0[j]).created_at by {
                    assert(s0[i] == s[i] && s0[j] == s[j]);
                }
            }
            assert forall|i: int, j: int| 0 <= i < j < w.len() implies (#[trigger] w[i]).created_at >= (#[trigger] w[j]).created_at by {
                if j >= w0.len() {
                    assert(w[i] == w0[i]);
                    assert(w0.contains(w0[i]));
                    let m = choose|m: int| 0 <= m < s0.len() && s0[m] == w0[i];
                    assert(s[m] == s0[m]);
                    assert(s[m].created_at >= s[s.len() - 1].created_at);
                } else {
                    assert(w[i] == w0[i] && w[j] == w0[j]);
                }
            }
        }
        if entry_ids_unique(s) {
            assert(entry_ids_unique(s0)) by {
                assert forall|i: int, j: int| 0 <= i < j < s0.len() implies (#[trigger] s0[i]).id != (#[trigger] s0[j]).id by {
                    assert(s0[i] == s[i] && s0[j] == s[j]);
                }
            }
            assert forall|i: int, j: int| 0 <= i < j < w.len() implies (#[trigger] w[i]).id != (#[trigger] w[j]).id by {
                if j >= w0.len() {
                    assert(w[i] == w0[i]);
                    assert(w0.contains(w0[i]));
                    let m = choose|m: int| 0 <= m < s0.len() && s0[m] == w0[i];
                    assert(s[m] == s0[m]);
                    assert(s[m].id != s[s.len() - 1].id);
                } else {
                    assert(w[i] == w0[i] && w[j] == w0[j]);
                }
            }
        }
    }
}

proof fn lemma_newer_pos_found(s: Seq<EntryView>, t: i128)
    ensures
        newer_pos(s, t) <= s.len(),
        forall|k: int| 0 <= k < newer_pos(s, t) ==> (#[trigger] s[k]).created_at >= t,
        newer_pos(s, t) < s.len() ==> s[newer_pos(s, t) as int].created_at < t,
    decreases s.len(),
{
    if s.len() > 0 && s[0].created_at >= t {
        lemma_newer_pos_found(s.drop_first(), t);
        assert forall|k: int| 0 <= k < newer_pos(s, t) implies (#[trigger] s[k]).created_at >= t by {
            if k > 0 {
                assert(s[k] == s.drop_first()[k - 1]);
            }
        }
        if newer_pos(s, t) < s.len() {
            assert(s[newer_pos(s, t) as int] == s.drop_first()[newer_pos(s.drop_first(), t) as int]);
        }
    }
}

proof fn lemma_insert_entry(w: Seq<EntryView>, e: EntryView)
    ensures
        ordered_newest_first(w) ==> ordered_newest_first(w.insert(newer_pos(w, e.created_at) as int, e)),
        entry_ids_unique(w) && (forall|x: EntryView| #[trigger] w.contains(x) ==> x.id != e.id) ==> entry_ids_unique(
            w.insert(newer_pos(w, e.created_at) as int, e),
        ),
        w.insert(newer_pos(w, e.created_at) as int, e).contains(e),
        forall|x: EntryView| #[trigger] w.insert(newer_pos(w, e.created_at) as int, e).contains(x) ==> x == e
            || w.contains(x),
        forall|x: EntryView| #[trigger] w.contains(x) ==> w.insert(newer_pos(w, e.created_at) as int, e).contains(x),
{
    lemma_newer_pos_found(w, e.created_at);
    let p = newer_pos(w, e.created_at) as int;
    let u = w.insert(p, e);
    assert(u[p] == e);
    if ordered_newest_first(w) {
        assert forall|i: int, j: int| 0 <= i < j < u.len() implies (#[trigger] u[i]).created_at >= (#[trigger] u[j]).created_at by {
            if j < p {
                assert(u[i] == w[i] && u[j] == w[j]);
            } else if j == p {
                assert(u[i] == w[i]);
            } else if i < p {
                assert(u[i] == w[i] && u[j] == w[j - 1]);
            } else if i == p {
                assert(u[j] == w[j - 1]);
                if j - 1 > p {
                    assert(w[p].created_at >= w[j - 1].created_at);
                }
            } else {
                assert(u[i] == w[i - 1] && u[j] == w[j - 1]);
            }
        }
    }
    if entry_ids_unique(w) && (forall|x: EntryView| #[trigger] w.contains(x) ==> x.id != e.id) {
        assert forall|i: int, j: int| 0 <= i < j < u.len() implies (#[trigger] u[i]).id != (#[trigger] u[j]).id by {
            if j < p {
                assert(u[i] == w[i] && u[j] == w[j]);
            } else if j == p {
                assert(u[i] == w[i]);
                assert(w.contains(w[i]));
            } else if i < p {
                assert(u[i] == w[i] && u[j] == w[j - 1]);
            } else if i == p {
                assert(u[j] == w[j - 1]);
                assert(w.contains(w[j - 1]));
            } else {
                assert(u[i] == w[i - 1] && u[j] == w[j - 1]);
            }
        }
    }
    assert forall|x: EntryView| #[trigger] u.contains(x) implies x == e || w.contains(x) by {
        let k = choose|k: int| 0 <= k < u.len() && u[k] == x;
        if k < p {
            assert(u[k] == w[k]);
        } else if k > p {
            assert(u[k] == w[k - 1]);
        }
    }
    assert forall|x: EntryView| #[trigger] w.contains(x) implies u.contains(x) by {
        let k = choose|k: int| 0 <= k < w.len() && w[k] == x;
        if k < p {
            assert(u[k] == w[k]);
        } else {
            assert(u[k + 1] == w[k]);
        }
    }
}

proof fn lemma_keep_unlocked(s: Seq<EntryView>, budget: nat)
    ensures
        forall|x: EntryView| #[trigger] keep_unlocked(s, budget).contains(x) ==> s.contains(x),
        forall|x: EntryView| #[trigger] s.contains(x) && x.is_pinned ==> keep_unlocked(s, budget).contains(x),
        ordered_newest_first(s) ==> ordered_newest_first(keep_unlocked(s, budget)),
        entry_ids_unique(s) ==> entry_ids_unique(keep_unlocked(s, budget)),
        unpinned_entries(keep_unlocked(s, budget)) <= budget,
    decreases s.len(),
{
    if s.len() == 0 {
        assert(keep_unlocked(s, budget) =~= Seq::<EntryView>::empty());
    } else {
        let t = s.drop_first();
        let b1: nat = if !s[0].is_pinned && budget > 0 { (budget - 1) as nat } else { budget };
        lemma_keep_unlocked(t, b1);
        let rest = keep_unlocked(t, b1);
        let k = keep_unlocked(s, budget);
        let kept_head = s[0].is_pinned || budget > 0;
        if kept_head {
            assert(k == seq![s[0]] + rest);
            assert(k.drop_first() =~= rest);
            assert(k[0] == s[0]);
        } else {
            assert(k == rest);
        }
        assert forall|x: EntryView| #[trigger] k.contains(x) implies s.contains(x) by {
            let i = choose|i: int| 0 <= i < k.len() && k[i] == x;
            if kept_head && i == 0 {
                assert(s[0] == x);
            } else {
                let r = if kept_head { i - 1 } else { i };
                assert(rest[r] == x);
                assert(rest.contains(x));
                let m = choose|m: int| 0 <= m < t.len() && t[m] == x;
                assert(s[m + 1] == x);
            }
        }
        assert forall|x: EntryView| #[trigger] s.contains(x) && x.is_pinned implies k.contains(x) by {
            let i = choose|i: int| 0 <= i < s.len() && s[i] == x;
            if i == 0 {
                assert(k[0] == x);
            } else {
                assert(t[i - 1] == x);
                assert(t.contains(x));
                let r = choose|r: int| 0 <= r < rest.len() && rest[r] == x;
                if kept_head {
                    assert(k[r + 1] == x);
                } else {
                    assert(k[r] == x);
                }
            }
        }
        if ordered_newest_first(s) {
            assert(ordered_newest_first(t)) by {
                assert forall|i: int, j: int| 0 <= i < j < t.len() implies (#[trigger] t[i]).created_at >= (#[trigger] t[j]).created_at by {
                    assert(t[i] == s[i + 1] && t[j] == s[j + 1]);
                }
            }
            if kept_head {
                assert forall|i: int, j: int| 0 <= i < j < k.len() implies (#[trigger] k[i]).created_at >= (#[trigger] k[j]).created_at by {
                    assert(k[j] == rest[j - 1]);
                    if i > 0 {
                        assert(k[i] == rest[i - 1]);
                    } else {
                        assert(rest.contains(rest[j - 1]));
                        let m = choose|m: int| 0 <= m < t.len() && t[m] == rest[j - 1];
                        assert(s[m + 1] == t[m]);
                    }
                }
            }
        }
        if entry_ids_unique(s) {
            assert(entry_ids_unique(t)) by {
                assert forall|i: int, j: int| 0 <= i < j < t.len() implies (#[trigger] t[i]).id != (#[trigger] t[j]).id by {
                    assert(t[i] == s[i + 1] && t[j] == s[j + 1]);
                }
            }
            if kept_head {
                assert forall|i: int, j: int| 0 <= i < j < k.len() implies (#[trigger] k[i]).id != (#[trigger] k[j]).id by {
                    assert(k[j] == rest[j - 1]);
                    if i > 0 {
                        assert(k[i] == rest[i - 1]);
                    } else {
                        assert(rest.contains(rest[j - 1]));
                        let m = choose|m: int| 0 <= m < t.len() && t[m] == rest[j - 1];
                        assert(s[m + 1] == t[m]);
                    }
                }
            }
        }
    }
}

/// Upserting keeps the local cache newest first with each id once, leaves at
/// most `max(limit, 1)` unpinned entries, keeps every pinned entry of another
/// id, and keeps the new entry when it is pinned.
pub proof fn lemma_upsert_keeps_cache_ordered(s: Seq<EntryView>, e: EntryView, limit: usize)
    ensures
        ordered_newest_first(s) ==> ordered_newest_first(upserted(s, e, limit)),
        entry_ids_unique(s) ==> entry_ids_unique(upserted(s, e, limit)),
        unpinned_entries(upserted(s, e, limit)) <= if limit < 1 { 1 } else { limit as nat },
        e.is_pinned ==> upserted(s, e, limit).contains(e),
        forall|x: EntryView| #[trigger] s.contains(x) && x.is_pinned && x.id != e.id ==> upserted(s, e, limit).contains(x),
{
    let w = without_id(s, e.id);
    let budget: nat = if limit < 1 { 1 } else { limit as nat };
    lemma_without_id_members(s, e.id);
    lemma_without_id_props(s, e.id);
    lemma_insert_entry(w, e);
    let u = w.insert(newer_pos(w, e.created_at) as int, e);
    lemma_keep_unlocked(u, budget);
    assert forall|x: EntryView| #[trigger] s.contains(x) && x.is_pinned && x.id != e.id implies upserted(s, e, limit).contains(x) by {
        lemma_without_id_keeps(s, e.id, x);
        assert(u.contains(x));
    }
}

proof fn lemma_without_id_keeps(s: Seq<EntryView>, id: u128, x: EntryView)
    requires
        s.contains(x),
        x.id != id,
    ensures
        without_id(s, id).contains(x),
    decreases s.len(),
{
    let s0 = s.drop_last();
    let w0 = without_id(s0, id);
    if s[s.len() - 1] == x {
        assert(without_id(s, id) == w0.push(x));
        assert(w0.push(x)[w0.len() as int] == x);
    } else {
        let m = choose|m: int| 0 <= m < s.len() && s[m] == x;
        assert(s0[m] == x);
        lemma_without_id_keeps(s0, id, x);
        let k = choose|k: int| 0 <= k < w0.len() && w0[k] == x;
        if s.last().id == id {
            assert(without_id(s, id) == w0);
        } else {
            assert(without_id(s, id).push(s.last())[k] == x) by {
                assert(without_id(s, id) == w0.push(s.last()));
            }
            assert(without_id(s, id)[k] == x);
        }
    }
}

/// Strictly increasing.
pub open spec fn increasing_ids(s: Seq<u128>) -> bool {
    forall|i: int, j: int| 0 <= i < j < s.len() ==> s[i] < s[j]
}

/// The ids in increasing order, each once.
pub fn unique_sorted_ids(ids: &[u128]) -> (r: Vec<u128>)
    ensures
        increasing_ids(r@),
        forall|x: u128| r@.contains(x) <==> ids@.contains(x),
{
    let mut out: Vec<u128> = Vec::new();
    let mut i: usize = 0;
    while i < ids.len()
        invariant
            i <= ids@.len(),
            increasing_ids(out@),
            forall|x: u128| out@.contains(x) <==> ids@.take(i as int).contains(x),
        decreases ids@.len() - i,
    {
        let x = ids[i];
        let mut p: usize = 0;
        while p < out.len() && out[p] < x
            invariant
                p <= out@.len(),
                forall|k: int| 0 <= k < p ==> out@[k] < x,
            decreases out@.len() - p,
        {
            p = p + 1;
        }
        let ghost before = out@;
        let ghost t0 = ids@.take(i as int);
        let ghost t1 = ids@.take(i + 1);
        proof {
            assert(t1 =~= t0.push(x));
        }
        if p < out.len() && out[p] == x {
            proof {
                assert forall|y: u128| out@.contains(y) <==> t1.contains(y) by {
                    if y == x {
                        assert(out@[p as int] == x);
                        assert(t1[i as int] == x);
                    }
                    if t1.contains(y) {
                        let k = choose|k: int| 0 <= k < t1.len() && t1[k] == y;
                        if k < i {
                            assert(t0[k] == y);
                        }
                    }
                    if out@.contains(y) {
                        let k = choose|k: int| 0 <= k < out@.len() && out@[k] == y;
                        assert(out@[k] == y);
                        assert(t0.contains(y));
                        let k2 = choose|k2: int| 0 <= k2 < t0.len() && t0[k2] == y;
                        assert(t1[k2] == y);
                    }
                }
            }
        } else {
            out.insert(p, x);
            proof {
                assert(out@ =~= before.insert(p as int, x));
                assert forall|a: int, b: int| 0 <= a < b < out@.len() implies out@[a] < out@[b] by {
                    if a < p && b == p {
                    } else if a < p && b > p {
                        assert(out@[b] == before[b - 1]);
                    } else if a == p {
                        assert(out@[b] == before[b - 1]);
                        if b - 1 > p {
                            assert(before[p as int] < before[b - 1]);
                        }
                    } else if a > p {
                        assert(out@[a] == before[a - 1]);
                        assert(out@[b] == before[b - 1]);
                    }
                }
                assert forall|y: u128| out@.contains(y) <==> t1.contains(y) by {
                    if y == x {
                        assert(out@[p as int] == x);
                        assert(t1[i as int] == x);
                    }
                    if t1.contains(y) {
                        let k = choose|k: int| 0 <= k < t1.len() && t1[k] == y;
                        if k < i {
                            assert(t0[k] == y);
                            assert(before.contains(y));
                            let k3 = choose|k3: int| 0 <= k3 < before.len() && before[k3] == y;
                            if k3 < p {
                                assert(out@[k3] == y);
                            } else {
                                assert(out@[k3 + 1] == y);
                            }
                        }
                    }
                    if out@.contains(y) && y != x {
                        let k = choose|k: int| 0 <= k < out@.len() && out@[k] == y;
                        if k < p {
                            assert(before[k] == y);
                        } else {
                            assert(k != p);
                            assert(before[k - 1] == y);
                        }
                        assert(before.contains(y));
                        assert(t0.contains(y));
                        let k2 = choose|k2: int| 0 <= k2 < t0.len() && t0[k2] == y;
                        assert(t1[k2] == y);
                    }
                }
            }
        }
        i = i + 1;
    }
    proof {
        assert(ids@.take(i as int) =~= ids@);
    }
    out
}

/// The ids of the local entries a clear removes: all of them, or the unpinned ones.
pub fn clear_history_targets(local: &Vec<HistoryEntry>, include_pinned: bool) -> (r: Vec<u128>)
    ensures
        r@ == without_pinned_ids(entry_views(local@), include_pinned),
{
    let ghost s = entry_views(local@);
    let mut out: Vec<u128> = Vec::new();
    let mut i: usize = 0;
    while i < local.len()
        invariant
            i <= local@.len(),
            s == entry_views(local@),
            out@ == without_pinned_ids(s.take(i as int), include_pinned),
        decreases local@.len() - i,
    {
        proof {
            assert(s.take(i + 1).drop_last() =~= s.take(i as int));
            assert(s.take(i + 1).last() == local@[i as int]@);
        }
        if include_pinned || !local[i].is_pinned {
            out.push(local[i].id);
        }
        i = i + 1;
    }
    proof {
        assert(s.take(i as int) =~= s);
    }
    out
}

/// The ids of the entries a clear removes, in order.
pub open spec fn without_pinned_ids(s: Seq<EntryView>, include_pinned: bool) -> Seq<u128>
    decreases s.len(),
{
    if s.len() == 0 {
        seq![]
    } else if include_pinned || !s.last().is_pinned {
        without_pinned_ids(s.drop_last(), include_pinned).push(s.last().id)
    } else {
        without_pinned_ids(s.drop_last(), include_pinned)
    }
}

/// Clearing deletes exactly the qualifying entries: an id is a target iff
/// some entry carries it and is unpinned (or pinned entries are included
/// too). With pinned entries included every entry's id is a target, in
/// order.
pub proof fn lemma_clear_targets(s: Seq<EntryView>, include_pinned: bool)
    ensures
        forall|id: u128| #[trigger] without_pinned_ids(s, include_pinned).contains(id) <==> exists|i: int|
            0 <= i < s.len() && s[i].id == id && (include_pinned || !s[i].is_pinned),
        without_pinned_ids(s, include_pinned).len() <= s.len(),
        include_pinned ==> without_pinned_ids(s, include_pinned) == s.map_values(|e: EntryView| e.id),
    decreases s.len(),
{
    if s.len() > 0 {
        let t = s.drop_last();
        lemma_clear_targets(t, include_pinned);
        let rt = without_pinned_ids(t, include_pinned);
        let r = without_pinned_ids(s, include_pinned);
        let last = s.last();
        assert forall|id: u128| #[trigger] r.contains(id) <==> exists|i: int|
            0 <= i < s.len() && s[i].id == id && (include_pinned || !s[i].is_pinned) by {
            if include_pinned || !last.is_pinned {
                assert(r == rt.push(last.id));
                if r.contains(id) {
                    let k = choose|k: int| 0 <= k < r.len() && r[k] == id;
                    if k == rt.len() {
                        assert(s[s.len() - 1].id == id);
                    } else {
                        assert(rt[k] == id);
                        assert(rt.contains(id));
                        let i = choose|i: int| 0 <= i < t.len() && t[i].id == id && (include_pinned || !t[i].is_pinned);
                        assert(s[i] == t[i]);
                    }
                }
                if exists|i: int| 0 <= i < s.len() && s[i].id == id && (include_pinned || !s[i].is_pinned) {
                    let i = choose|i: int| 0 <= i < s.len() && s[i].id == id && (include_pinned || !s[i].is_pinned);
                    if i == s.len() - 1 {
                        assert(r[rt.len() as int] == id);
                    } else {
                        assert(t[i] == s[i]);
                        assert(rt.contains(id));
                        let k = choose|k: int| 0 <= k < rt.len() && rt[k] == id;
                        assert(r[k] == id);
                    }
                }
            } else {
                assert(r == rt);
                if r.contains(id) {
                    let i = choose|i: int| 0 <= i < t.len() && t[i].id == id && (include_pinned || !t[i].is_pinned);
                    assert(s[i] == t[i]);
                }
                if exists|i: int| 0 <= i < s.len() && s[i].id == id && (include_pinned || !s[i].is_pinned) {
                    let i = choose|i: int| 0 <= i < s.len() && s[i].id == id && (include_pinned || !s[i].is_pinned);
                    assert(i != s.len() - 1);
                    assert(t[i] == s[i]);
                }
            }
        }
        if include_pinned {
            assert(s.map_values(|e: EntryView| e.id) =~= t.map_values(|e: EntryView| e.id).push(last.id));
        }
    } else {
        assert(s.map_values(|e: EntryView| e.id) =~= Seq::<u128>::empty());
    }
}

/// The status after clearing the local history.
pub open spec fn clear_status_spec(deleted_any: bool, include_pinned: bool, local_left_empty: bool) -> Seq<char> {
    if !deleted_any {
        if include_pinned {
            "没有可清理的本机历史"@
        } else {
            "没有可清理的本机未锁定历史"@
        }
    } else if include_pinned {
        "已清空本机剪切板历史，远程项已保留"@
    } else if local_left_empty {
        "已清空本机剪切板历史"@
    } else {
        "已清空本机未锁定历史，远程项已保留"@
    }
}

/// The status after clearing the local history: nothing to clear, or what was cleared.
pub fn clear_history_status(deleted_any: bool, include_pinned: bool, local_left_empty: bool) -> (r: String)
    ensures
        r@ == clear_status_spec(deleted_any, include_pinned, local_left_empty),
{
    if !deleted_any {
        if include_pinned {
            "没有可清理的本机历史".to_string()
        } else {
            "没有可清理的本机未锁定历史".to_string()
        }
    } else if include_pinned {
        "已清空本机剪切板历史，远程项已保留".to_string()
    } else if local_left_empty {
        "已清空本机剪切板历史".to_string()
    } else {
        "已清空本机未锁定历史，远程项已保留".to_string()
    }
}

/// The status after deleting history items.
pub open spec fn deletion_status_spec(deleted: nat, skipped_remote: bool) -> Seq<char> {
    if deleted == 0 {
        if skipped_remote {
            "远程历史为只读，无法删除"@
        } else {
            "未找到可删除的本机历史"@
        }
    } else if deleted == 1 && !skipped_remote {
        "已删除剪切板历史"@
    } else if !skipped_remote {
        "已删除 "@ + decimal_spec(deleted) + " 条剪切板历史"@
    } else {
        "已删除 "@ + decimal_spec(deleted) + " 条本机历史，远程项已跳过"@
    }
}

fn count_phrase(head: &str, n: usize, tail: &str) -> (r: String)
    ensures
        r@ == head@ + decimal_spec(n as nat) + tail@,
{
    let mut v = chars_of(head);
    let d = decimal_chars(n as u64);
    extend_chars(&mut v, d.as_slice());
    extend_str(&mut v, tail);
    string_of(v.as_slice())
}

/// The status after deleting history items: how many local items went, and
/// whether remote ones were skipped.
pub fn deletion_status(deleted: usize, skipped_remote: bool) -> (r: String)
    requires
        deleted <= u64::MAX,
    ensures
        r@ == deletion_status_spec(deleted as nat, skipped_remote),
{
    if deleted == 0 {
        if skipped_remote {
            "远程历史为只读，无法删除".to_string()
        } else {
            "未找到可删除的本机历史".to_string()
        }
    } else if deleted == 1 && !skipped_remote {
        "已删除剪切板历史".to_string()
    } else if !skipped_remote {
        count_phrase("已删除 ", deleted, " 条剪切板历史")
    } else {
        count_phrase("已删除 ", deleted, " 条本机历史，远程项已跳过")
    }
}

/// The status after pinning or unpinning history items.
pub open spec fn pin_status_spec(changed: nat, pinned: bool, skipped_remote: bool) -> Seq<char> {
    let verb = if pinned {
        "已锁定 "@
    } else {
        "已取消锁定 "@
    };
    if changed == 0 {
        if skipped_remote {
            "远程历史为只读，无法修改锁定状态"@
        } else if pinned {
            "选中条目已全部处于锁定状态"@
        } else {
            "选中条目已全部处于未锁定状态"@
        }
    } else if skipped_remote {
        verb + decimal_spec(changed) + " 条本机历史，远程项已跳过"@
    } else {
        verb + decimal_spec(changed) + " 条历史"@
    }
}

/// The status after pinning or unpinning history items.
pub fn pin_change_status(changed: usize, pinned: bool, skipped_remote: bool) -> (r: String)
    requires
        changed <= u64::MAX,
    ensures
        r@ == pin_status_spec(changed as nat, pinned, skipped_remote),
{
    if changed == 0 {
        if skipped_remote {
            "远程历史为只读，无法修改锁定状态".to_string()
        } else if pinned {
            "选中条目已全部处于锁定状态".to_string()
        } else {
            "选中条目已全部处于未锁定状态".to_string()
        }
    } else {
        let verb = if pinned {
            "已锁定 "
        } else {
            "已取消锁定 "
        };
        if skipped_remote {
            count_phrase(verb, changed, " 条本机历史，远程项已跳过")
        } else {
            count_phrase(verb, changed, " 条历史")
        }
    }
}

/// The status after toggling the pin of one item.
pub fn pin_toggle_status(pinned: bool) -> (r: String)
    ensures
        r@ == if pinned {
            "已锁定该历史条目"@
        } else {
            "已取消锁定该历史条目"@
        },
{
    if pinned {
        "已锁定该历史条目".to_string()
    } else {
        "已取消锁定该历史条目".to_string()
    }
}

} // verus!
