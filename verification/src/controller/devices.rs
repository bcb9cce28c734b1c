//! Device rows of the preferences window: status, labels, tooltips, and the
//! merged list of discovered and trusted devices.

use vstd::prelude::*;

use crate::controller::types::{device_views, DeviceEntryView, DeviceStatusKind, SettingsDeviceEntry};
use crate::discovery::{unix_seconds, whole_seconds};
use crate::config::AppConfig;
use crate::model::{opt_view, peer_views, trusted_views, DiscoveredPeer, PeerView, TrustedPeer, TrustedPeerView};
use crate::runtime::{contains_text, fingerprint_among, has_text, trusted_fingerprint_set};
use crate::sorting::{lemma_multiset_map, sort_vec, TotalPreorder};
use crate::text::{
    chars_of, contains_chars, contains_spec, decimal_chars_wide, decimal_spec, extend_chars,
    extend_str, lemma_seq_lt_total, lemma_seq_lt_trans, lex_le, seq_le, seq_lt, str_eq, string_of,
    trim, trim_spec,
};

verus! {

/// Pattern of the absolute time shown in a device tooltip.
pub const SEEN_TIME_FORMAT: &'static str = "[year]-[month]-[day] [hour]:[minute]:[second] UTC";

/// The row subtitle: `host:port`, or nothing.
pub open spec fn detail_text_spec(address: Option<(Seq<char>, u16)>) -> Seq<char> {
    match address {
        Some((host, port)) => host + seq![':'] + decimal_spec(port as nat),
        None => seq![],
    }
}

/// The subtitle of a device row: its address and port when it is online.
pub fn device_detail_text(address: Option<(&str, u16)>) -> (r: String)
    ensures
        r@ == detail_text_spec(
            match address {
                Some((h, p)) => Some((h@, p)),
                None => None,
            },
        ),
{
    match address {
        Some((host, port)) => {
            let mut v = chars_of(host);
            v.push(':');
            let d = decimal_chars_wide(port as u128);
            extend_chars(&mut v, d.as_slice());
            string_of(v.as_slice())
        },
        None => string_of(&[]),
    }
}

/// The label of a status.
pub open spec fn status_label(status: DeviceStatusKind) -> Seq<char> {
    match status {
        DeviceStatusKind::ConnectedTrusted => "已信任已连接"@,
        DeviceStatusKind::TrustedStandby => "已信任未连接"@,
        DeviceStatusKind::Offline => "离线"@,
        DeviceStatusKind::Untrusted => "未信任"@,
    }
}

/// The label shown for a status.
pub fn device_status_label(status: DeviceStatusKind) -> (r: &'static str)
    ensures
        r@ == status_label(status),
{
    match status {
        DeviceStatusKind::ConnectedTrusted => "已信任已连接",
        DeviceStatusKind::TrustedStandby => "已信任未连接",
        DeviceStatusKind::Offline => "离线",
        DeviceStatusKind::Untrusted => "未信任",
    }
}

/// The value recorded for a device id: the first pair with that id.
pub open spec fn lookup_spec<V>(list: Seq<(String, V)>, id: Seq<char>) -> Option<V>
    decreases list.len(),
{
    if list.len() == 0 {
        None
    } else if list[0].0@ == id {
        Some(list[0].1)
    } else {
        lookup_spec(list.drop_first(), id)
    }
}

/// Looks up the value recorded for a device id.
pub fn lookup_device<V: Copy>(list: &Vec<(String, V)>, id: &str) -> (r: Option<V>)
    ensures
        r == lookup_spec(list@, id@),
{
    let mut i: usize = 0;
    proof {
        assert(list@.skip(0) =~= list@);
    }
    while i < list.len()
        invariant
            i <= list@.len(),
            lookup_spec(list@, id@) == lookup_spec(list@.skip(i as int), id@),
        decreases list@.len() - i,
    {
        proof {
            assert(list@.skip(i as int).drop_first() =~= list@.skip(i + 1));
        }
        if crate::text::str_eq(list[i].0.as_str(), id) {
            return Some(list[i].1);
        }
        i = i + 1;
    }
    None
}

/// Records the value of a device id: the first pair with that id is
/// replaced, or a pair is appended.
#[verifier::loop_isolation(false)]
pub fn record_device<V>(list: &mut Vec<(String, V)>, id: &str, value: V)
    ensures
        lookup_spec(final(list)@, id@) == Some(value),
        forall|other: Seq<char>| other != id@ ==> lookup_spec(final(list)@, other) == lookup_spec(old(list)@, other),
{
    let ghost start = list@;
    let mut i: usize = 0;
    while i < list.len()
        invariant
            i <= list@.len(),
            list@ == start,
            forall|k: int| 0 <= k < i ==> (#[trigger] list@[k]).0@ != id@,
        decreases list@.len() - i,
    {
        if crate::text::str_eq(list[i].0.as_str(), id) {
            let key = list[i].0.clone();
            list.set(i, (key, value));
            proof {
                lemma_lookup_update(start, i as int, id@, value, id@);
                assert forall|other: Seq<char>| other != id@ implies lookup_spec(list@, other) == lookup_spec(start, other) by {
                    lemma_lookup_update(start, i as int, id@, value, other);
                }
            }
            return;
        }
        i = i + 1;
    }
    let key = id.to_string();
    let ghost k = key;
    list.push((key, value));
    proof {
        lemma_lookup_push(start, k, id@, value, id@);
        assert forall|other: Seq<char>| other != id@ implies lookup_spec(list@, other) == lookup_spec(start, other) by {
            lemma_lookup_push(start, k, id@, value, other);
        }
    }
}

/// The pairs of `list` without the device id, in order.
pub open spec fn without_device<V>(list: Seq<(String, V)>, id: Seq<char>) -> Seq<(String, V)>
    decreases list.len(),
{
    if list.len() == 0 {
        seq![]
    } else if list.last().0@ == id {
        without_device(list.drop_last(), id)
    } else {
        without_device(list.drop_last(), id).push(list.last())
    }
}

/// Forgets every value recorded for a device id.
pub fn forget_device<V>(list: &mut Vec<(String, V)>, id: &str)
    ensures
        final(list)@ == without_device(old(list)@, id@),
{
    let ghost orig = list@;
    let mut rest: Vec<(String, V)> = Vec::new();
    core::mem::swap(&mut rest, list);
    let n = rest.len();
    let mut out: Vec<(String, V)> = Vec::new();
    let mut i: usize = 0;
    while i < n
        invariant
            n == orig.len(),
            i <= n,
            rest@ == orig.skip(i as int),
            out@ == without_device(orig.take(i as int), id@),
        decreases n - i,
    {
        let pair = rest.remove(0);
        proof {
            assert(pair == orig[i as int]);
            assert(rest@ =~= orig.skip(i + 1));
            assert(orig.take(i + 1).drop_last() =~= orig.take(i as int));
            assert(orig.take(i + 1).last() == pair);
        }
        if !crate::text::str_eq(pair.0.as_str(), id) {
            out.push(pair);
        }
        i = i + 1;
    }
    proof {
        assert(orig.take(i as int) =~= orig);
    }
    *list = out;
}

/// Removes every copy of a text from a list.
pub fn forget_text(list: &mut Vec<String>, x: &str)
    ensures
        forall|y: Seq<char>| #[trigger] has_text(final(list)@, y) <==> (has_text(old(list)@, y) && y != x@),
{
    let ghost orig = list@;
    let mut kept: Vec<String> = Vec::new();
    let mut i: usize = 0;
    while i < list.len()
        invariant
            i <= orig.len(),
            orig == list@,
            forall|y: Seq<char>| #[trigger] has_text(kept@, y) <==> (has_text(orig.take(i as int), y) && y != x@),
        decreases orig.len() - i,
    {
        let t = &list[i];
        proof {
            assert(orig.take(i + 1) =~= orig.take(i as int).push(*t));
            lemma_has_text_push(orig.take(i as int), *t);
        }
        if !crate::text::str_eq(t.as_str(), x) {
            let ghost k0 = kept@;
            let c = t.clone();
            kept.push(c);
            proof {
                lemma_has_text_push(k0, c);
            }
        }
        i = i + 1;
    }
    proof {
        assert(orig.take(i as int) =~= orig);
    }
    *list = kept;
}

proof fn lemma_lookup_update<V>(s: Seq<(String, V)>, i: int, id: Seq<char>, value: V, other: Seq<char>)
    requires
        0 <= i < s.len(),
        s[i].0@ == id,
        forall|k: int| 0 <= k < i ==> (#[trigger] s[k]).0@ != id,
    ensures
        lookup_spec(s.update(i, (s[i].0, value)), other) == if other == id {
            Some(value)
        } else {
            lookup_spec(s, other)
        },
    decreases s.len(),
{
    let u = s.update(i, (s[i].0, value));
    if i > 0 {
        assert(u.drop_first() =~= s.drop_first().update(i - 1, (s[i].0, value)));
        assert forall|k: int| 0 <= k < i - 1 implies (#[trigger] s.drop_first()[k]).0@ != id by {
            assert(s.drop_first()[k] == s[k + 1]);
        }
        lemma_lookup_update(s.drop_first(), i - 1, id, value, other);
        assert(u[0] == s[0]);
    } else {
        assert(u.drop_first() =~= s.drop_first());
    }
}

proof fn lemma_lookup_push<V>(s: Seq<(String, V)>, key: String, id: Seq<char>, value: V, other: Seq<char>)
    requires
        key@ == id,
        forall|k: int| 0 <= k < s.len() ==> (#[trigger] s[k]).0@ != id,
    ensures
        lookup_spec(s.push((key, value)), other) == if other == id {
            Some(value)
        } else {
            lookup_spec(s, other)
        },
    decreases s.len(),
{
    let t = s.push((key, value));
    if s.len() > 0 {
        assert(t.drop_first() =~= s.drop_first().push((key, value)));
        assert forall|k: int| 0 <= k < s.len() - 1 implies (#[trigger] s.drop_first()[k]).0@ != id by {
            assert(s.drop_first()[k] == s[k + 1]);
        }
        lemma_lookup_push(s.drop_first(), key, id, value, other);
        assert(t[0] == s[0]);
        assert(s[0].0@ != id);
        if s[0].0@ == other {
            assert(lookup_spec(t, other) == Some(s[0].1));
        } else {
            assert(lookup_spec(t, other) == lookup_spec(t.drop_first(), other));
            assert(lookup_spec(s, other) == lookup_spec(s.drop_first(), other));
        }
    } else {
        assert(t[0].0@ == id);
        assert(t.drop_first() =~= Seq::<(String, V)>::empty());
    }
}

/// Status of a device from its share flag, whether it is online and whether it is trusted.
pub open spec fn status_kind_spec(share: Option<bool>, is_online: bool, is_trusted: bool) -> DeviceStatusKind {
    if !is_trusted {
        DeviceStatusKind::Untrusted
    } else if !is_online {
        DeviceStatusKind::Offline
    } else if share == Some(false) {
        DeviceStatusKind::TrustedStandby
    } else {
        DeviceStatusKind::ConnectedTrusted
    }
}

/// The status of a device row: untrusted, offline, connected, or standby when
/// the peer said it does not share its history.
pub fn device_status_kind(
    remote_share_enabled: &Vec<(String, bool)>,
    device_id: &str,
    is_online: bool,
    is_trusted: bool,
) -> (r: DeviceStatusKind)
    ensures
        r == status_kind_spec(lookup_spec(remote_share_enabled@, device_id@), is_online, is_trusted),
{
    if !is_trusted {
        return DeviceStatusKind::Untrusted;
    }
    if !is_online {
        return DeviceStatusKind::Offline;
    }
    match lookup_device(remote_share_enabled, device_id) {
        Some(false) => DeviceStatusKind::TrustedStandby,
        _ => DeviceStatusKind::ConnectedTrusted,
    }
}

/// Rank of a status in the device list.
pub open spec fn status_rank(status: DeviceStatusKind) -> u8 {
    match status {
        DeviceStatusKind::ConnectedTrusted => 0,
        DeviceStatusKind::TrustedStandby => 1,
        DeviceStatusKind::Offline => 2,
        DeviceStatusKind::Untrusted => 3,
    }
}

/// Rank of a status in the device list: connected, standby, offline, untrusted.
pub fn device_status_sort_rank(status: DeviceStatusKind) -> (r: u8)
    ensures
        r == status_rank(status),
{
    match status {
        DeviceStatusKind::ConnectedTrusted => 0,
        DeviceStatusKind::TrustedStandby => 1,
        DeviceStatusKind::Offline => 2,
        DeviceStatusKind::Untrusted => 3,
    }
}

/// Text of a Unix time (nanoseconds) formatted with a `time` format
/// description, or `None` when the time or the pattern is refused.
pub uninterp spec fn formatted_time(nanos: i128, pattern: Seq<char>) -> Option<Seq<char>>;

/// Formats a Unix time with the `time` crate: `format_description::parse` of
/// the pattern, `OffsetDateTime::from_unix_timestamp_nanos` (in UTC) and
/// `OffsetDateTime::format`. The result is named, nothing more is claimed.
#[verifier::external_body]
fn format_unix_time(nanos: i128, pattern: &str) -> (r: Option<String>)
    ensures
        opt_view(r) == formatted_time(nanos, pattern@),
{
    let description = time::format_description::parse(pattern).ok()?;
    let at = time::OffsetDateTime::from_unix_timestamp_nanos(nanos).ok()?;
    at.format(&description).ok()
}

/// Absolute time of a sighting as shown in a tooltip.
pub open spec fn seen_time_spec(nanos: i128) -> Seq<char> {
    match formatted_time(nanos, SEEN_TIME_FORMAT@) {
        Some(s) => s,
        None => "未知时间"@,
    }
}

/// The absolute time of a sighting, `未知时间` when it cannot be formatted.
pub fn format_seen_time(last_seen: i128) -> (r: String)
    ensures
        r@ == seen_time_spec(last_seen),
{
    match format_unix_time(last_seen, SEEN_TIME_FORMAT) {
        Some(s) => s,
        None => "未知时间".to_string(),
    }
}

/// Whole seconds from the sighting to `now`, never negative.
pub open spec fn elapsed_seconds(last_seen: i128, now: i128) -> int {
    let e = whole_seconds(now as int) - whole_seconds(last_seen as int);
    if e < 0 {
        0
    } else {
        e
    }
}

/// How long ago a sighting was, in words.
pub open spec fn relative_time_spec(last_seen: i128, now: i128) -> Seq<char> {
    let e = elapsed_seconds(last_seen, now);
    if e <= 59 {
        "刚刚"@
    } else if e <= 3599 {
        decimal_spec((e / 60) as nat) + " 分钟前"@
    } else if e <= 86_399 {
        decimal_spec((e / 3_600) as nat) + " 小时前"@
    } else if e <= 2_592_000 {
        decimal_spec((e / 86_400) as nat) + " 天前"@
    } else {
        seen_time_spec(last_seen)
    }
}

fn count_with_unit(n: u128, unit: &str) -> (r: String)
    ensures
        r@ == decimal_spec(n as nat) + unit@,
{
    let mut v = decimal_chars_wide(n);
    extend_str(&mut v, unit);
    string_of(v.as_slice())
}

/// How long before `now` a sighting was: just now, minutes, hours or days, or
/// the absolute time after thirty days.
pub fn format_relative_time(last_seen: i128, now: i128) -> (r: String)
    ensures
        r@ == relative_time_spec(last_seen, now),
{
    let now_s = unix_seconds(now);
    let seen_s = unix_seconds(last_seen);
    proof {
        assert(-170141183460469231731687303716 <= whole_seconds(now as int) <= 170141183460469231731687303715) by (nonlinear_arith)
            requires
                i128::MIN <= now as int <= i128::MAX,
        {
        }
        assert(-170141183460469231731687303716 <= whole_seconds(last_seen as int) <= 170141183460469231731687303715) by (nonlinear_arith)
            requires
                i128::MIN <= last_seen as int <= i128::MAX,
        {
        }
    }
    let diff = now_s - seen_s;
    let e: u128 = if diff < 0 { 0 } else { diff as u128 };
    if e <= 59 {
        "刚刚".to_string()
    } else if e <= 3599 {
        count_with_unit(e / 60, " 分钟前")
    } else if e <= 86_399 {
        count_with_unit(e / 3_600, " 小时前")
    } else if e <= 2_592_000 {
        count_with_unit(e / 86_400, " 天前")
    } else {
        format_seen_time(last_seen)
    }
}

/// The tooltip of a device row: its status, when it was last seen (relative to
/// `now`) and the absolute time, or that no sighting is recorded.
pub open spec fn status_tooltip_spec(
    status: DeviceStatusKind,
    is_online: bool,
    last_seen: Option<i128>,
    now: i128,
) -> Seq<char> {
    let seen_label = if is_online {
        "最近发现"@
    } else {
        "最后发现"@
    };
    let head = "状态："@ + status_label(status) + seq!['\n'] + seen_label + "："@;
    match last_seen {
        Some(t) => head + relative_time_spec(t, now) + seq!['\n'] + "记录时间："@ + seen_time_spec(t),
        None => head + "暂无记录"@,
    }
}

/// The tooltip of a device row at time `now` (Unix nanoseconds).
pub fn device_status_tooltip_at(
    status: DeviceStatusKind,
    is_online: bool,
    last_seen: Option<i128>,
    now: i128,
) -> (r: String)
    ensures
        r@ == status_tooltip_spec(status, is_online, last_seen, now),
{
    let mut v = chars_of("状态：");
    extend_str(&mut v, device_status_label(status));
    v.push('\n');
    if is_online {
        extend_str(&mut v, "最近发现");
    } else {
        extend_str(&mut v, "最后发现");
    }
    extend_str(&mut v, "：");
    match last_seen {
        Some(t) => {
            let rel = format_relative_time(t, now);
            extend_str(&mut v, rel.as_str());
            v.push('\n');
            extend_str(&mut v, "记录时间：");
            let abs = format_seen_time(t);
            extend_str(&mut v, abs.as_str());
        },
        None => {
            extend_str(&mut v, "暂无记录");
        },
    }
    string_of(v.as_slice())
}

/// The tooltip of a device row, with relative times counted from the clock.
pub fn device_status_tooltip(status: DeviceStatusKind, is_online: bool, last_seen: Option<i128>) -> (r: String)
    ensures
        exists|now: i128| r@ == #[trigger] status_tooltip_spec(status, is_online, last_seen, now),
        last_seen is None ==> r@ == status_tooltip_spec(status, is_online, None, 0),
{
    let now = crate::ids::now_unix_nanos();
    device_status_tooltip_at(status, is_online, last_seen, now)
}

/// A discovered peer counts as trusted when its fingerprint is non-empty and
/// among the trusted fingerprints.
pub fn discovered_peer_is_trusted(peer: &DiscoveredPeer, trusted_fingerprints: &Vec<String>) -> (r: bool)
    ensures
        r == (peer.fingerprint@.len() > 0 && crate::runtime::has_text(trusted_fingerprints@, peer.fingerprint@)),
{
    !peer.fingerprint.as_str().is_empty() && crate::runtime::contains_text(trusted_fingerprints, peer.fingerprint.as_str())
}

/// An earlier row with the same device id stays when it ranks no lower,
/// is online or trusted whenever the new one is, and has an address whenever
/// the new one does.
pub open spec fn keep_existing(existing: DeviceEntryView, entry: DeviceEntryView) -> bool {
    &&& status_rank(existing.status_kind) <= status_rank(entry.status_kind)
    &&& (existing.is_online || !entry.is_online)
    &&& (existing.is_trusted || !entry.is_trusted)
    &&& (existing.secondary_text.len() > 0 || entry.secondary_text.len() == 0)
}

/// Position of the first row with the device id, or the length.
pub open spec fn row_pos(c: Seq<DeviceEntryView>, id: Seq<char>) -> nat
    decreases c.len(),
{
    if c.len() == 0 {
        0
    } else if c[0].device_id == id {
        0
    } else {
        1 + row_pos(c.drop_first(), id)
    }
}

proof fn lemma_row_pos(c: Seq<DeviceEntryView>, id: Seq<char>, i: int)
    requires
        0 <= i <= c.len(),
        forall|j: int| 0 <= j < i ==> #[trigger] c[j].device_id != id,
        i == c.len() || c[i].device_id == id,
    ensures
        row_pos(c, id) == i,
    decreases c.len(),
{
    if c.len() > 0 && i > 0 {
        assert forall|j: int| 0 <= j < i - 1 implies #[trigger] c.drop_first()[j].device_id != id by {
            assert(c.drop_first()[j] == c[j + 1]);
        }
        lemma_row_pos(c.drop_first(), id, i - 1);
    }
}

/// Rows with the same device id collapsed into one, in order of first
/// appearance; a later row replaces the kept one unless `keep_existing`.
pub open spec fn collapse_by_id(s: Seq<DeviceEntryView>) -> Seq<DeviceEntryView>
    decreases s.len(),
{
    if s.len() == 0 {
        seq![]
    } else {
        let c = collapse_by_id(s.drop_last());
        let e = s.last();
        let i = row_pos(c, e.device_id);
        if i < c.len() {
            if keep_existing(c[i as int], e) {
                c
            } else {
                c.update(i as int, e)
            }
        } else {
            c.push(e)
        }
    }
}

/// Some trusted online row has this (trimmed) name.
pub open spec fn online_trusted_name(all: Seq<DeviceEntryView>, name: Seq<char>) -> bool {
    exists|j: int|
        0 <= j < all.len() && all[j].is_online && all[j].is_trusted && #[trigger] trim_spec(all[j].device_name) == name
}

/// An offline trusted row never seen, with no address, whose name an online
/// trusted row already shows.
pub open spec fn shadowed(e: DeviceEntryView, all: Seq<DeviceEntryView>) -> bool {
    &&& e.is_trusted
    &&& !e.is_online
    &&& e.status_kind == DeviceStatusKind::Offline
    &&& trim_spec(e.secondary_text).len() == 0
    &&& contains_spec(e.status_tooltip, "暂无记录"@)
    &&& trim_spec(e.device_name).len() > 0
    &&& online_trusted_name(all, trim_spec(e.device_name))
}

/// The rows of `s` that `all` does not shadow, in order.
pub open spec fn unshadowed(s: Seq<DeviceEntryView>, all: Seq<DeviceEntryView>) -> Seq<DeviceEntryView>
    decreases s.len(),
{
    if s.len() == 0 {
        seq![]
    } else if shadowed(s.last(), all) {
        unshadowed(s.drop_last(), all)
    } else {
        unshadowed(s.drop_last(), all).push(s.last())
    }
}

/// Order of the device list: by status rank, then name, then device id.
pub open spec fn device_le(a: DeviceEntryView, b: DeviceEntryView) -> bool {
    ||| status_rank(a.status_kind) < status_rank(b.status_kind)
    ||| (status_rank(a.status_kind) == status_rank(b.status_kind) && seq_lt(a.device_name, b.device_name))
    ||| (status_rank(a.status_kind) == status_rank(b.status_kind) && a.device_name == b.device_name
        && seq_le(a.device_id, b.device_id))
}

/// `out` lists the rows of `input` collapsed by device id, without shadowed
/// rows, ordered by status, name and device id.
pub open spec fn device_listing(input: Seq<DeviceEntryView>, out: Seq<DeviceEntryView>) -> bool {
    let c = collapse_by_id(input);
    &&& forall|i: int, j: int| 0 <= i < j < out.len() ==> device_le(#[trigger] out[i], #[trigger] out[j])
    &&& out.to_multiset() == unshadowed(c, c).to_multiset()
}

impl TotalPreorder for SettingsDeviceEntry {
    open spec fn le(a: Self, b: Self) -> bool {
        device_le(a@, b@)
    }

    proof fn lemma_total(a: Self, b: Self) {
        lemma_seq_lt_total(a.device_name@, b.device_name@);
        lemma_seq_lt_total(a.device_id@, b.device_id@);
    }

    proof fn lemma_trans(a: Self, b: Self, c: Self) {
        let (an, bn, cn) = (a.device_name@, b.device_name@, c.device_name@);
        let (ai, bi, ci) = (a.device_id@, b.device_id@, c.device_id@);
        if seq_lt(an, bn) && seq_lt(bn, cn) {
            lemma_seq_lt_trans(an, bn, cn);
        }
        if an == bn && bn == cn && seq_lt(ai, bi) && seq_lt(bi, ci) {
            lemma_seq_lt_trans(ai, bi, ci);
        }
    }

    fn le_exec(&self, other: &Self) -> (r: bool) {
        let ra = device_status_sort_rank(self.status_kind);
        let rb = device_status_sort_rank(other.status_kind);
        if ra != rb {
            return ra < rb;
        }
        let (n_lt, n_eq) = lex_le(self.device_name.as_str(), other.device_name.as_str());
        if n_lt {
            return true;
        }
        if !n_eq {
            return false;
        }
        let (i_lt, i_eq) = lex_le(self.device_id.as_str(), other.device_id.as_str());
        i_lt || i_eq
    }
}

fn find_row(rows: &Vec<SettingsDeviceEntry>, id: &str) -> (r: usize)
    ensures
        r == row_pos(device_views(rows@), id@),
{
    let ghost c = device_views(rows@);
    let mut i: usize = 0;
    while i < rows.len()
        invariant
            i <= rows@.len(),
            c == device_views(rows@),
            forall|j: int| 0 <= j < i ==> #[trigger] c[j].device_id != id@,
        decreases rows@.len() - i,
    {
        if str_eq(rows[i].device_id.as_str(), id) {
            proof {
                lemma_row_pos(c, id@, i as int);
            }
            return i;
        }
        i = i + 1;
    }
    proof {
        lemma_row_pos(c, id@, i as int);
    }
    i
}

fn keep_existing_exec(existing: &SettingsDeviceEntry, entry: &SettingsDeviceEntry) -> (r: bool)
    ensures
        r == keep_existing(existing@, entry@),
{
    device_status_sort_rank(existing.status_kind) <= device_status_sort_rank(entry.status_kind)
        && (existing.is_online || !entry.is_online)
        && (existing.is_trusted || !entry.is_trusted)
        && (!existing.secondary_text.as_str().is_empty() || entry.secondary_text.as_str().is_empty())
}

/// Drops the offline trusted rows that were never seen, have no address, and
/// whose name an online trusted row already shows.
pub fn collapse_shadowed_offline_device_entries(entries: Vec<SettingsDeviceEntry>) -> (r: Vec<SettingsDeviceEntry>)
    ensures
        device_views(r@) == unshadowed(device_views(entries@), device_views(entries@)),
{
    let ghost all = device_views(entries@);
    let mut names: Vec<String> = Vec::new();
    let mut i: usize = 0;
    while i < entries.len()
        invariant
            i <= entries@.len(),
            all == device_views(entries@),
            forall|x: Seq<char>| x.len() > 0 ==> (#[trigger] has_text(names@, x) <==> exists|j: int|
                0 <= j < i && all[j].is_online && all[j].is_trusted && #[trigger] trim_spec(all[j].device_name) == x),
        decreases entries@.len() - i,
    {
        let e = &entries[i];
        if e.is_online && e.is_trusted {
            let name = trim(e.device_name.as_str());
            if !name.as_str().is_empty() {
                let ghost before = names@;
                names.push(name);
                proof {
                    assert forall|x: Seq<char>| #[trigger] has_text(names@, x) <==> (has_text(before, x) || x == name@) by {
                        if has_text(before, x) {
                            let k = choose|k: int| 0 <= k < before.len() && before[k]@ == x;
                            assert(names@[k] == before[k]);
                        }
                        if x == name@ {
                            assert(names@[before.len() as int]@ == x);
                        }
                        if has_text(names@, x) {
                            let k = choose|k: int| 0 <= k < names@.len() && names@[k]@ == x;
                            if k < before.len() {
                                assert(before[k] == names@[k]);
                            }
                        }
                    }
                    assert forall|x: Seq<char>| x.len() > 0 implies (has_text(names@, x) <==> exists|j: int|
                        0 <= j < i + 1 && all[j].is_online && all[j].is_trusted && #[trigger] trim_spec(all[j].device_name) == x) by {
                        if x == name@ {
                            assert(trim_spec(all[i as int].device_name) == x);
                        }
                    }
                }
            }
        }
        i = i + 1;
    }
    let ghost names_view = names@;
    let tag = chars_of("暂无记录");
    let mut out: Vec<SettingsDeviceEntry> = Vec::new();
    let mut k: usize = 0;
    while k < entries.len()
        invariant
            k <= entries@.len(),
            all == device_views(entries@),
            names@ == names_view,
            tag@ == "暂无记录"@,
            forall|x: Seq<char>| x.len() > 0 ==> (#[trigger] has_text(names@, x) <==> online_trusted_name(all, x)),
            device_views(out@) == unshadowed(all.take(k as int), all),
        decreases entries@.len() - k,
    {
        let e = &entries[k];
        let name = trim(e.device_name.as_str());
        let detail = trim(e.secondary_text.as_str());
        let tip = chars_of(e.status_tooltip.as_str());
        let hidden = e.is_trusted && !e.is_online && e.status_kind == DeviceStatusKind::Offline
            && detail.as_str().is_empty() && contains_chars(tip.as_slice(), tag.as_slice())
            && !name.as_str().is_empty() && contains_text(&names, name.as_str());
        proof {
            assert(all.take(k + 1).drop_last() =~= all.take(k as int));
            assert(all.take(k + 1).last() == all[k as int]);
            assert(hidden == shadowed(all[k as int], all));
        }
        if !hidden {
            let ghost before = out@;
            out.push(e.clone());
            proof {
                assert(device_views(out@) =~= device_views(before).push(all[k as int]));
            }
        }
        k = k + 1;
    }
    proof {
        assert(all.take(k as int) =~= all);
    }
    out
}

proof fn lemma_collapse_unique(s: Seq<DeviceEntryView>)
    ensures
        forall|i: int, j: int| 0 <= i < j < collapse_by_id(s).len() ==>
            (#[trigger] collapse_by_id(s)[i]).device_id != (#[trigger] collapse_by_id(s)[j]).device_id,
    decreases s.len(),
{
    if s.len() > 0 {
        lemma_collapse_unique(s.drop_last());
        let c = collapse_by_id(s.drop_last());
        let e = s.last();
        let p = row_pos(c, e.device_id);
        lemma_row_pos_found(c, e.device_id);
        if p >= c.len() {
            assert forall|i: int| 0 <= i < c.len() implies #[trigger] c[i].device_id != e.device_id by {
                lemma_row_pos_absent(c, e.device_id, i);
            }
        }
    }
}

proof fn lemma_row_pos_found(c: Seq<DeviceEntryView>, id: Seq<char>)
    ensures
        row_pos(c, id) <= c.len(),
        row_pos(c, id) < c.len() ==> c[row_pos(c, id) as int].device_id == id,
    decreases c.len(),
{
    if c.len() > 0 && c[0].device_id != id {
        lemma_row_pos_found(c.drop_first(), id);
        if row_pos(c, id) < c.len() {
            assert(c[row_pos(c, id) as int] == c.drop_first()[row_pos(c.drop_first(), id) as int]);
        }
    }
}

proof fn lemma_row_pos_absent(c: Seq<DeviceEntryView>, id: Seq<char>, i: int)
    requires
        row_pos(c, id) >= c.len(),
        0 <= i < c.len(),
    ensures
        c[i].device_id != id,
    decreases c.len(),
{
    if i > 0 {
        assert(c.drop_first()[i - 1] == c[i]);
        lemma_row_pos_absent(c.drop_first(), id, i - 1);
    }
}

proof fn lemma_unshadowed_within(s: Seq<DeviceEntryView>, all: Seq<DeviceEntryView>)
    requires
        forall|i: int, j: int| 0 <= i < j < s.len() ==> (#[trigger] s[i]).device_id != (#[trigger] s[j]).device_id,
    ensures
        forall|x: DeviceEntryView| #[trigger] unshadowed(s, all).contains(x) ==> s.contains(x),
        forall|i: int, j: int| 0 <= i < j < unshadowed(s, all).len() ==> (#[trigger] unshadowed(s, all)[i]).device_id
            != (#[trigger] unshadowed(s, all)[j]).device_id,
    decreases s.len(),
{
    if s.len() > 0 {
        let t = s.drop_last();
        assert forall|i: int, j: int| 0 <= i < j < t.len() implies (#[trigger] t[i]).device_id != (#[trigger] t[j]).device_id by {
            assert(t[i] == s[i]);
            assert(t[j] == s[j]);
        }
        lemma_unshadowed_within(t, all);
        let u = unshadowed(t, all);
        assert forall|x: DeviceEntryView| #[trigger] u.contains(x) implies s.contains(x) by {
            let k = choose|k: int| 0 <= k < t.len() && t[k] == x;
            assert(s[k] == x);
        }
        if !shadowed(s.last(), all) {
            let v = u.push(s.last());
            assert forall|x: DeviceEntryView| #[trigger] v.contains(x) implies s.contains(x) by {
                let k = choose|k: int| 0 <= k < v.len() && v[k] == x;
                if k < u.len() {
                    assert(u[k] == x);
                    assert(u.contains(x));
                } else {
                    assert(s[s.len() - 1] == x);
                }
            }
            assert forall|i: int, j: int| 0 <= i < j < v.len() implies (#[trigger] v[i]).device_id != (#[trigger] v[j]).device_id by {
                if j == u.len() {
                    assert(v[i] == u[i]);
                    assert(u.contains(u[i]));
                    let k = choose|k: int| 0 <= k < t.len() && t[k] == u[i];
                    assert(s[k] == t[k]);
                } else {
                    assert(v[i] == u[i]);
                    assert(v[j] == u[j]);
                }
            }
        }
    }
}

/// In a device listing, no two rows have the same device id.
pub proof fn lemma_listing_unique_ids(input: Seq<DeviceEntryView>, out: Seq<DeviceEntryView>)
    requires
        device_listing(input, out),
    ensures
        forall|i: int, j: int| 0 <= i < j < out.len() ==> (#[trigger] out[i]).device_id != (#[trigger] out[j]).device_id,
{
    broadcast use vstd::seq_lib::group_to_multiset_ensures;

    let c = collapse_by_id(input);
    lemma_collapse_unique(input);
    lemma_unshadowed_within(c, c);
    let k = unshadowed(c, c);
    assert(k.no_duplicates()) by {
        assert forall|i: int, j: int| 0 <= i < k.len() && 0 <= j < k.len() && i != j implies k[i] != k[j] by {
            if i < j {
                assert(k[i].device_id != k[j].device_id);
            } else {
                assert(k[j].device_id != k[i].device_id);
            }
        }
    }
    k.lemma_multiset_has_no_duplicates();
    out.lemma_multiset_has_no_duplicates_conv();
    assert forall|i: int, j: int| 0 <= i < j < out.len() implies (#[trigger] out[i]).device_id != (#[trigger] out[j]).device_id by {
        assert(out[i] != out[j]);
        assert(out.contains(out[i]));
        assert(out.contains(out[j]));
        assert(out.to_multiset() == k.to_multiset());
        assert(out.to_multiset().count(out[i]) > 0);
        assert(out.to_multiset().count(out[j]) > 0);
        assert(k.to_multiset().count(out[i]) > 0);
        assert(k.to_multiset().count(out[j]) > 0);
        assert(k.contains(out[i]));
        assert(k.contains(out[j]));
        let a = choose|a: int| 0 <= a < k.len() && k[a] == out[i];
        let b = choose|b: int| 0 <= b < k.len() && k[b] == out[j];
        if a < b {
            assert(k[a].device_id != k[b].device_id);
        } else {
            assert(a != b);
            assert(k[b].device_id != k[a].device_id);
        }
    }
}

/// Collapses the rows of each device id into one, drops shadowed offline
/// rows and orders the list by status, name and device id.
pub fn collapse_duplicate_device_entries(entries: Vec<SettingsDeviceEntry>) -> (r: Vec<SettingsDeviceEntry>)
    ensures
        device_listing(device_views(entries@), device_views(r@)),
{
    let ghost input = device_views(entries@);
    let mut collapsed: Vec<SettingsDeviceEntry> = Vec::new();
    let mut i: usize = 0;
    while i < entries.len()
        invariant
            i <= entries@.len(),
            input == device_views(entries@),
            device_views(collapsed@) == collapse_by_id(input.take(i as int)),
        decreases entries@.len() - i,
    {
        proof {
            assert(input.take(i + 1).drop_last() =~= input.take(i as int));
            assert(input.take(i + 1).last() == input[i as int]);
        }
        let entry = entries[i].clone();
        let pos = find_row(&collapsed, entry.device_id.as_str());
        let ghost before = device_views(collapsed@);
        proof {
            lemma_row_pos_found(before, entry@.device_id);
        }
        if pos < collapsed.len() {
            if !keep_existing_exec(&collapsed[pos], &entry) {
                collapsed.set(pos, entry);
                proof {
                    assert(device_views(collapsed@) =~= before.update(pos as int, input[i as int]));
                }
            }
        } else {
            collapsed.push(entry);
            proof {
                assert(device_views(collapsed@) =~= before.push(input[i as int]));
            }
        }
        i = i + 1;
    }
    proof {
        assert(input.take(i as int) =~= input);
    }
    let kept = collapse_shadowed_offline_device_entries(collapsed);
    let ghost unsorted = kept@;
    let sorted = sort_vec(kept);
    proof {
        lemma_multiset_map(sorted@, unsorted, |e: SettingsDeviceEntry| e@);
        assert(device_views(sorted@) == sorted@.map_values(|e: SettingsDeviceEntry| e@));
        assert(device_views(unsorted) == unsorted.map_values(|e: SettingsDeviceEntry| e@));
        let out = device_views(sorted@);
        assert forall|a: int, b: int| 0 <= a < b < out.len() implies device_le(#[trigger] out[a], #[trigger] out[b]) by {
            assert(SettingsDeviceEntry::le(sorted@[a], sorted@[b]));
        }
    }
    sorted
}

/// The row of a discovered (online) peer at time `now`.
pub open spec fn online_row(
    p: PeerView,
    trusted: Seq<TrustedPeer>,
    last_seen: Seq<(String, i128)>,
    share: Seq<(String, bool)>,
    now: i128,
) -> DeviceEntryView {
    let is_trusted = p.fingerprint.len() > 0 && fingerprint_among(trusted, trusted.len() as int, p.fingerprint);
    let status = status_kind_spec(lookup_spec(share, p.device_id), true, is_trusted);
    let seen = match lookup_spec(last_seen, p.device_id) {
        Some(t) => t,
        None => p.last_seen,
    };
    DeviceEntryView {
        device_id: p.device_id,
        device_name: p.device_name,
        secondary_text: detail_text_spec(Some((p.address, p.port))),
        status_kind: status,
        is_online: true,
        is_trusted: is_trusted,
        status_tooltip: status_tooltip_spec(status, true, Some(seen), now),
    }
}

/// The row of a trusted peer that is not online, at time `now`.
pub open spec fn offline_row(
    t: TrustedPeerView,
    last_seen: Seq<(String, i128)>,
    share: Seq<(String, bool)>,
    now: i128,
) -> DeviceEntryView {
    let status = status_kind_spec(lookup_spec(share, t.device_id), false, true);
    DeviceEntryView {
        device_id: t.device_id,
        device_name: t.device_name,
        secondary_text: seq![],
        status_kind: status,
        is_online: false,
        is_trusted: true,
        status_tooltip: status_tooltip_spec(status, false, lookup_spec(last_seen, t.device_id), now),
    }
}

/// Rows built so far, with the device ids and non-empty fingerprints they cover.
pub ghost struct RowsState {
    pub rows: Seq<DeviceEntryView>,
    pub ids: Set<Seq<char>>,
    pub fingerprints: Set<Seq<char>>,
}

/// The rows of the discovered peers, with their ids and fingerprints.
pub open spec fn discovered_rows(
    ds: Seq<PeerView>,
    trusted: Seq<TrustedPeer>,
    last_seen: Seq<(String, i128)>,
    share: Seq<(String, bool)>,
    now: i128,
) -> RowsState {
    RowsState {
        rows: ds.map_values(|p: PeerView| online_row(p, trusted, last_seen, share, now)),
        ids: Set::new(|x: Seq<char>| exists|k: int| 0 <= k < ds.len() && ds[k].device_id == x),
        fingerprints: Set::new(
            |x: Seq<char>| x.len() > 0 && exists|k: int| 0 <= k < ds.len() && ds[k].fingerprint == x,
        ),
    }
}

/// Adds the row of a trusted peer unless its id or fingerprint is covered.
pub open spec fn add_trusted_row(
    st: RowsState,
    t: TrustedPeerView,
    last_seen: Seq<(String, i128)>,
    share: Seq<(String, bool)>,
    now: i128,
) -> RowsState {
    if st.ids.contains(t.device_id) || (t.fingerprint.len() > 0 && st.fingerprints.contains(t.fingerprint)) {
        st
    } else {
        RowsState {
            rows: st.rows.push(offline_row(t, last_seen, share, now)),
            ids: st.ids.insert(t.device_id),
            fingerprints: if t.fingerprint.len() > 0 {
                st.fingerprints.insert(t.fingerprint)
            } else {
                st.fingerprints
            },
        }
    }
}

/// Adds the rows of the trusted peers in order.
pub open spec fn trusted_rows(
    ts: Seq<TrustedPeerView>,
    st: RowsState,
    last_seen: Seq<(String, i128)>,
    share: Seq<(String, bool)>,
    now: i128,
) -> RowsState
    decreases ts.len(),
{
    if ts.len() == 0 {
        st
    } else {
        add_trusted_row(trusted_rows(ts.drop_last(), st, last_seen, share, now), ts.last(), last_seen, share, now)
    }
}

/// All rows before collapsing: the discovered peers, then the trusted peers
/// whose id and fingerprint no earlier row covers.
pub open spec fn listed_rows(
    trusted: Seq<TrustedPeer>,
    ds: Seq<PeerView>,
    last_seen: Seq<(String, i128)>,
    share: Seq<(String, bool)>,
    now: i128,
) -> Seq<DeviceEntryView> {
    trusted_rows(trusted_views(trusted), discovered_rows(ds, trusted, last_seen, share, now), last_seen, share, now).rows
}

/// Membership of a text after a push.
pub proof fn lemma_has_text_push(s: Seq<String>, v: String)
    ensures
        forall|x: Seq<char>| #[trigger] has_text(s.push(v), x) <==> (has_text(s, x) || x == v@),
{
    assert forall|x: Seq<char>| #[trigger] has_text(s.push(v), x) <==> (has_text(s, x) || x == v@) by {
        let t = s.push(v);
        if has_text(t, x) {
            let k = choose|k: int| 0 <= k < t.len() && t[k]@ == x;
            if k < s.len() {
                assert(s[k] == t[k]);
            }
        }
        if has_text(s, x) {
            let k = choose|k: int| 0 <= k < s.len() && s[k]@ == x;
            assert(t[k] == s[k]);
        }
        if x == v@ {
            assert(t[s.len() as int] == v);
        }
    }
}

/// The device rows of the preferences window at time `now` (Unix
/// nanoseconds): each discovered peer online, then each trusted peer not
/// already listed by id or fingerprint as offline, collapsed by device id,
/// without shadowed rows, ordered by status, name and device id.
pub fn device_entries(
    config: &AppConfig,
    discovered: &Vec<DiscoveredPeer>,
    device_last_seen: &Vec<(String, i128)>,
    remote_share_enabled: &Vec<(String, bool)>,
    now: i128,
) -> (r: Vec<SettingsDeviceEntry>)
    ensures
        device_listing(
            listed_rows(config.trusted_peers@, peer_views(discovered@), device_last_seen@, remote_share_enabled@, now),
            device_views(r@),
        ),
{
    let ghost trusted = config.trusted_peers@;
    let ghost ds = peer_views(discovered@);
    let ghost ls = device_last_seen@;
    let ghost sh = remote_share_enabled@;
    let fingerprints = trusted_fingerprint_set(config);
    let mut seen: Vec<String> = Vec::new();
    let mut seen_fps: Vec<String> = Vec::new();
    let mut rows: Vec<SettingsDeviceEntry> = Vec::new();
    let mut i: usize = 0;
    while i < discovered.len()
        invariant
            i <= discovered@.len(),
            ds == peer_views(discovered@),
            trusted == config.trusted_peers@,
            ls == device_last_seen@,
            sh == remote_share_enabled@,
            forall|x: Seq<char>| #[trigger] has_text(fingerprints@, x) <==> fingerprint_among(trusted, trusted.len() as int, x),
            device_views(rows@) == discovered_rows(ds.take(i as int), trusted, ls, sh, now).rows,
            forall|x: Seq<char>| #[trigger] has_text(seen@, x) <==> discovered_rows(ds.take(i as int), trusted, ls, sh, now).ids.contains(x),
            forall|x: Seq<char>| #[trigger] has_text(seen_fps@, x) <==> discovered_rows(ds.take(i as int), trusted, ls, sh, now).fingerprints.contains(x),
        decreases discovered@.len() - i,
    {
        let peer = &discovered[i];
        let is_trusted = discovered_peer_is_trusted(peer, &fingerprints);
        let seen_at = match lookup_device(device_last_seen, peer.device_id.as_str()) {
            Some(t) => t,
            None => peer.last_seen,
        };
        let status_kind = device_status_kind(remote_share_enabled, peer.device_id.as_str(), true, is_trusted);
        let row = SettingsDeviceEntry {
            device_id: peer.device_id.clone(),
            device_name: peer.device_name.clone(),
            secondary_text: device_detail_text(Some((peer.address.as_str(), peer.port))),
            status_kind,
            is_online: true,
            is_trusted,
            status_tooltip: device_status_tooltip_at(status_kind, true, Some(seen_at), now),
        };
        let ghost rows0 = rows@;
        let ghost seen0 = seen@;
        let ghost fps0 = seen_fps@;
        rows.push(row);
        seen.push(peer.device_id.clone());
        if !peer.fingerprint.as_str().is_empty() {
            seen_fps.push(peer.fingerprint.clone());
        }
        proof {
            let p = ds[i as int];
            assert(p == discovered@[i as int]@);
            let t0 = ds.take(i as int);
            let t1 = ds.take(i + 1);
            let before = discovered_rows(t0, trusted, ls, sh, now);
            let after = discovered_rows(t1, trusted, ls, sh, now);
            assert(ds.take(i + 1) =~= ds.take(i as int).push(p));
            assert(after.rows =~= before.rows.push(online_row(p, trusted, ls, sh, now)));
            assert(device_views(rows@) =~= device_views(rows0).push(online_row(p, trusted, ls, sh, now)));
            lemma_has_text_push(seen0, peer.device_id);
            assert forall|x: Seq<char>| #[trigger] has_text(seen@, x) <==> after.ids.contains(x) by {
                if x == p.device_id {
                    assert(t1[i as int].device_id == x);
                }
                if after.ids.contains(x) {
                    let k = choose|k: int| 0 <= k < i + 1 && t1[k].device_id == x;
                    if k < i {
                        assert(t0[k] == t1[k]);
                    }
                }
                if before.ids.contains(x) {
                    let k = choose|k: int| 0 <= k < i && t0[k].device_id == x;
                    assert(t0[k] == t1[k]);
                }
            }
            if p.fingerprint.len() > 0 {
                lemma_has_text_push(fps0, peer.fingerprint);
            }
            assert forall|x: Seq<char>| #[trigger] has_text(seen_fps@, x) <==> after.fingerprints.contains(x) by {
                if x == p.fingerprint && x.len() > 0 {
                    assert(t1[i as int].fingerprint == x);
                }
                if after.fingerprints.contains(x) {
                    let k = choose|k: int| 0 <= k < i + 1 && t1[k].fingerprint == x;
                    if k < i {
                        assert(t0[k] == t1[k]);
                    }
                }
                if before.fingerprints.contains(x) {
                    let k = choose|k: int| 0 <= k < i && t0[k].fingerprint == x;
                    assert(t0[k] == t1[k]);
                }
            }
        }
        i = i + 1;
    }
    proof {
        assert(ds.take(i as int) =~= ds);
    }
    let ghost st0 = discovered_rows(ds, trusted, ls, sh, now);
    let ghost ts = trusted_views(trusted);
    let peers = &config.trusted_peers;
    let mut j: usize = 0;
    while j < peers.len()
        invariant
            j <= peers@.len(),
            peers@ == trusted,
            ts == trusted_views(trusted),
            ls == device_last_seen@,
            sh == remote_share_enabled@,
            device_views(rows@) == trusted_rows(ts.take(j as int), st0, ls, sh, now).rows,
            forall|x: Seq<char>| #[trigger] has_text(seen@, x) <==> trusted_rows(ts.take(j as int), st0, ls, sh, now).ids.contains(x),
            forall|x: Seq<char>| #[trigger] has_text(seen_fps@, x) <==> trusted_rows(ts.take(j as int), st0, ls, sh, now).fingerprints.contains(x),
        decreases peers@.len() - j,
    {
        let peer = &peers[j];
        let ghost t = ts[j as int];
        let ghost before = trusted_rows(ts.take(j as int), st0, ls, sh, now);
        proof {
            assert(t == peers@[j as int]@);
            assert(ts.take(j + 1).drop_last() =~= ts.take(j as int));
            assert(ts.take(j + 1).last() == t);
        }
        let covered = contains_text(&seen, peer.device_id.as_str())
            || (!peer.fingerprint.as_str().is_empty() && contains_text(&seen_fps, peer.fingerprint.as_str()));
        if !covered {
            let status_kind = device_status_kind(remote_share_enabled, peer.device_id.as_str(), false, true);
            let last = lookup_device(device_last_seen, peer.device_id.as_str());
            let row = SettingsDeviceEntry {
                device_id: peer.device_id.clone(),
                device_name: peer.device_name.clone(),
                secondary_text: device_detail_text(None),
                status_kind,
                is_online: false,
                is_trusted: true,
                status_tooltip: device_status_tooltip_at(status_kind, false, last, now),
            };
            let ghost rows0 = rows@;
            let ghost seen0 = seen@;
            let ghost fps0 = seen_fps@;
            rows.push(row);
            seen.push(peer.device_id.clone());
            if !peer.fingerprint.as_str().is_empty() {
                seen_fps.push(peer.fingerprint.clone());
            }
            proof {
                assert(device_views(rows@) =~= device_views(rows0).push(offline_row(t, ls, sh, now)));
                lemma_has_text_push(seen0, peer.device_id);
                if t.fingerprint.len() > 0 {
                    lemma_has_text_push(fps0, peer.fingerprint);
                }
                let after = trusted_rows(ts.take(j + 1), st0, ls, sh, now);
                assert forall|x: Seq<char>| #[trigger] has_text(seen_fps@, x) <==> after.fingerprints.contains(x) by {
                }
            }
        }
        j = j + 1;
    }
    proof {
        assert(ts.take(j as int) =~= ts);
    }
    collapse_duplicate_device_entries(rows)
}

} // verus!
