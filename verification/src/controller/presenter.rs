//! Texts shown for history items: summaries, badges, tooltips and sizes.

use vstd::prelude::*;

use crate::model::{
    clone_opt_string, file_views, opt_view, search_blob_spec, ClipboardItem, ClipboardKind,
    ClipboardPayload, FileDescriptor, FileView, ItemView, PayloadView,
};
use crate::constants::{MAX_HISTORY_TOOLTIP_CHARS, MAX_HISTORY_TOOLTIP_LINES, MAX_REMOTE_HISTORY_TOOLTIP_CHARS, MAX_REMOTE_HISTORY_TOOLTIP_LINES};
use crate::controller::types::{EntryView, HistoryEntry, HistoryRow};
use crate::text::{
    char_pos, compare_chars, find_char, lemma_char_pos, lemma_seq_lt_asym, lemma_seq_lt_irreflexive,
    lemma_seq_lt_total, lemma_seq_lt_trans, seq_lt, trim, trim_char, trim_char_spec, LexOrder,
    char_rows, chars_of, decimal_chars, decimal_spec, extend_chars, extend_str, lines_spec,
    split_lines, string_of, take_chars, trim_chars, trim_spec, copy_chars, decimal_chars_wide, digit_spec,
};

verus! {

/// `truncate_inline`: the trimmed text cut to `max_chars` characters, with an
/// ellipsis when something was cut; empty when the text is blank or the limit 0.
pub open spec fn truncate_inline_spec(text: Seq<char>, max_chars: nat) -> Seq<char> {
    let t = trim_spec(text);
    if t.len() == 0 || max_chars == 0 {
        seq![]
    } else if t.len() > max_chars {
        t.take(max_chars as int).push('…')
    } else {
        t
    }
}

/// Cuts a text to a single-line label of at most `max_chars` characters plus an ellipsis.
pub fn truncate_inline(text: &str, max_chars: usize) -> (r: String)
    ensures
        r@ == truncate_inline_spec(text@, max_chars as nat),
{
    let v = chars_of(text);
    let t = trim_chars(v.as_slice());
    if t.len() == 0 || max_chars == 0 {
        return string_of(&[]);
    }
    let mut out = take_chars(t.as_slice(), max_chars);
    if t.len() > max_chars {
        out.push('…');
    }
    string_of(out.as_slice())
}

/// Badge-sized label (eight characters).
pub fn truncate_badge_label(text: &str) -> (r: String)
    ensures
        r@ == truncate_inline_spec(text@, 8),
{
    truncate_inline(text, 8)
}

/// Running state of the tooltip clipper.
pub ghost struct ClipState {
    pub clipped: Seq<char>,
    pub seen_lines: nat,
    pub omitted_lines: nat,
    pub truncated: bool,
}

/// One line of the tooltip clipper.
pub open spec fn clip_step(st: ClipState, line: Seq<char>, max_lines: nat, max_chars: nat) -> ClipState {
    if st.seen_lines >= max_lines {
        ClipState { omitted_lines: st.omitted_lines + 1, ..st }
    } else if st.clipped.len() > 0 && st.clipped.len() >= max_chars {
        ClipState { omitted_lines: st.omitted_lines + 1, truncated: true, ..st }
    } else {
        let c = if st.clipped.len() > 0 { st.clipped.push('\n') } else { st.clipped };
        if c.len() >= max_chars {
            ClipState { clipped: c, omitted_lines: st.omitted_lines + 1, truncated: true, ..st }
        } else {
            let remaining = (max_chars - c.len()) as nat;
            if line.len() <= remaining {
                ClipState { clipped: c + line, seen_lines: st.seen_lines + 1, ..st }
            } else {
                ClipState {
                    clipped: c + line.take(remaining - 1).push('…'),
                    seen_lines: st.seen_lines + 1,
                    truncated: true,
                    ..st
                }
            }
        }
    }
}

/// The clipper state after the given lines.
pub open spec fn clip_lines(lines: Seq<Seq<char>>, max_lines: nat, max_chars: nat) -> ClipState
    decreases lines.len(),
{
    if lines.len() == 0 {
        ClipState { clipped: seq![], seen_lines: 0, omitted_lines: 0, truncated: false }
    } else {
        clip_step(clip_lines(lines.drop_last(), max_lines, max_chars), lines.last(), max_lines, max_chars)
    }
}

/// The final notice appended by the clipper.
pub open spec fn clip_finish(st: ClipState) -> Seq<char> {
    let sep = if st.clipped.len() > 0 { seq!['\n'] } else { seq![] };
    if st.omitted_lines > 0 {
        st.clipped + sep + "……已省略 "@ + decimal_spec(st.omitted_lines) + " 行"@
    } else if st.truncated {
        st.clipped + sep + "……内容已截断"@
    } else {
        st.clipped
    }
}

/// `limit_tooltip_text_with_limits`: keeps at most `max_lines` lines and about
/// `max_chars` characters, and says how many lines were left out or that the
/// content was cut.
pub open spec fn limit_tooltip_spec(text: Seq<char>, max_lines: nat, max_chars: nat) -> Seq<char> {
    clip_finish(clip_lines(lines_spec(text), max_lines, max_chars))
}

/// Clips a text for display in a tooltip.
pub fn limit_tooltip_text_with_limits(text: &str, max_lines: usize, max_chars: usize) -> (r: String)
    ensures
        r@ == limit_tooltip_spec(text@, max_lines as nat, max_chars as nat),
{
    let chars = chars_of(text);
    let lines = split_lines(chars.as_slice());
    let mut clipped: Vec<char> = Vec::new();
    let mut seen: usize = 0;
    let mut omitted: usize = 0;
    let mut truncated = false;
    let mut i: usize = 0;
    while i < lines.len()
        invariant
            i <= lines.len(),
            char_rows(lines@) == lines_spec(text@),
            seen <= i,
            omitted <= i,
            ({
                let st = clip_lines(char_rows(lines@).take(i as int), max_lines as nat, max_chars as nat);
                st.clipped == clipped@ && st.seen_lines == seen && st.omitted_lines == omitted
                    && st.truncated == truncated
            }),
        decreases lines.len() - i,
    {
        proof {
            let rows = char_rows(lines@);
            assert(rows.take(i + 1).drop_last() =~= rows.take(i as int));
            assert(rows.take(i + 1).last() == lines@[i as int]@);
        }
        let line = &lines[i];
        if seen >= max_lines {
            omitted = omitted + 1;
        } else if clipped.len() > 0 && clipped.len() >= max_chars {
            omitted = omitted + 1;
            truncated = true;
        } else {
            if clipped.len() > 0 {
                clipped.push('\n');
            }
            if clipped.len() >= max_chars {
                omitted = omitted + 1;
                truncated = true;
            } else {
                let remaining = max_chars - clipped.len();
                if line.len() <= remaining {
                    extend_chars(&mut clipped, line.as_slice());
                } else {
                    let head = take_chars(line.as_slice(), remaining - 1);
                    extend_chars(&mut clipped, head.as_slice());
                    clipped.push('…');
                    truncated = true;
                }
                seen = seen + 1;
            }
        }
        i = i + 1;
    }
    proof {
        assert(char_rows(lines@).take(i as int) =~= char_rows(lines@));
    }
    if omitted > 0 {
        if clipped.len() > 0 {
            clipped.push('\n');
        }
        extend_str(&mut clipped, "……已省略 ");
        let digits = decimal_chars(omitted as u64);
        extend_chars(&mut clipped, digits.as_slice());
        extend_str(&mut clipped, " 行");
    } else if truncated {
        if clipped.len() > 0 {
            clipped.push('\n');
        }
        extend_str(&mut clipped, "……内容已截断");
    }
    string_of(clipped.as_slice())
}


/// Number of low bits a 64-bit value at least 2^53 loses when it is stored in
/// the 53-bit significand of an `f64`.
pub open spec fn f64_shift(b: nat) -> nat {
    if b >= 0x8000_0000_0000_0000 {
        11
    } else if b >= 0x4000_0000_0000_0000 {
        10
    } else if b >= 0x2000_0000_0000_0000 {
        9
    } else if b >= 0x1000_0000_0000_0000 {
        8
    } else if b >= 0x0800_0000_0000_0000 {
        7
    } else if b >= 0x0400_0000_0000_0000 {
        6
    } else if b >= 0x0200_0000_0000_0000 {
        5
    } else if b >= 0x0100_0000_0000_0000 {
        4
    } else if b >= 0x0080_0000_0000_0000 {
        3
    } else if b >= 0x0040_0000_0000_0000 {
        2
    } else {
        1
    }
}

/// 2 to the power `s`, for `s <= 11`.
pub open spec fn pow2_small(s: nat) -> nat {
    if s == 0 { 1 } else if s == 1 { 2 } else if s == 2 { 4 } else if s == 3 { 8 }
    else if s == 4 { 16 } else if s == 5 { 32 } else if s == 6 { 64 } else if s == 7 { 128 }
    else if s == 8 { 256 } else if s == 9 { 512 } else if s == 10 { 1024 } else { 2048 }
}

/// `n / d` rounded to the nearest integer, ties to even.
pub open spec fn round_half_even(n: nat, d: nat) -> nat {
    let q = n / d;
    let r = n % d;
    if 2 * r > d || (2 * r == d && q % 2 == 1) {
        q + 1
    } else {
        q
    }
}

/// The value `b as f64` takes: `b` rounded to 53 significant bits, ties to even.
pub open spec fn f64_nearest(b: nat) -> nat {
    if b < 0x20_0000_0000_0000 {
        b
    } else {
        let p = pow2_small(f64_shift(b));
        round_half_even(b, p) * p
    }
}

/// 1024 to the power `k`, for `k <= 4`.
pub open spec fn pow1024(k: nat) -> nat {
    if k == 0 {
        1
    } else if k == 1 {
        1024
    } else if k == 2 {
        1048576
    } else if k == 3 {
        1073741824
    } else {
        1099511627776
    }
}

/// 10 to the power `d`, for `d <= 2`.
pub open spec fn pow10(d: nat) -> nat {
    if d == 0 {
        1
    } else if d == 1 {
        10
    } else {
        100
    }
}

/// Index of the unit (B, KB, MB, GB, TB) a byte count is shown in.
pub open spec fn size_unit(n: nat) -> nat {
    if n >= pow1024(4) {
        4
    } else if n >= pow1024(3) {
        3
    } else if n >= pow1024(2) {
        2
    } else if n >= pow1024(1) {
        1
    } else {
        0
    }
}

pub open spec fn unit_label(k: nat) -> Seq<char> {
    if k == 1 {
        "KB"@
    } else if k == 2 {
        "MB"@
    } else if k == 3 {
        "GB"@
    } else {
        "TB"@
    }
}

/// Digits padded on the left with zeros to `width`.
pub open spec fn zero_pad(s: Seq<char>, width: nat) -> Seq<char> {
    if s.len() >= width {
        s
    } else {
        Seq::new((width - s.len()) as nat, |i: int| '0') + s
    }
}

/// The fixed-point number `q / 10^d` written with `d` decimals.
pub open spec fn fixed_decimal(q: nat, d: nat) -> Seq<char> {
    if d == 0 {
        decimal_spec(q)
    } else {
        decimal_spec(q / pow10(d)) + seq!['.'] + zero_pad(decimal_spec(q % pow10(d)), d)
    }
}

/// Human-readable size: bytes below 1 KB as an integer, otherwise the value in
/// the largest unit up to TB with 2, 1 or 0 decimals (below 10, below 100, at
/// least 100), computed from `bytes as f64` and rounded half to even.
pub open spec fn format_bytes_spec(bytes: u64) -> Seq<char> {
    let n = f64_nearest(bytes as nat);
    let k = size_unit(n);
    if k == 0 {
        decimal_spec(bytes as nat) + " B"@
    } else {
        let den = pow1024(k);
        let d: nat = if n >= 100 * den {
            0
        } else if n >= 10 * den {
            1
        } else {
            2
        };
        fixed_decimal(round_half_even(n * pow10(d), den), d) + " "@ + unit_label(k)
    }
}

fn round_half_even_exec(n: u128, d: u128) -> (r: u128)
    requires
        d > 0,
        n / d + 1 <= u128::MAX,
    ensures
        r == round_half_even(n as nat, d as nat),
{
    let q = n / d;
    let r = n % d;
    if (r > d - r) || (r == d - r && q % 2 == 1) {
        q + 1
    } else {
        q
    }
}

/// `bytes as f64`, as an exact integer.
fn f64_nearest_exec(bytes: u64) -> (n: u128)
    ensures
        n == f64_nearest(bytes as nat),
        n <= 0x1_0000_0000_0000_0000u128,
{
    if bytes < 0x20_0000_0000_0000u64 {
        return bytes as u128;
    }
    let p: u128 = if bytes >= 0x8000_0000_0000_0000u64 {
        2048
    } else if bytes >= 0x4000_0000_0000_0000u64 {
        1024
    } else if bytes >= 0x2000_0000_0000_0000u64 {
        512
    } else if bytes >= 0x1000_0000_0000_0000u64 {
        256
    } else if bytes >= 0x0800_0000_0000_0000u64 {
        128
    } else if bytes >= 0x0400_0000_0000_0000u64 {
        64
    } else if bytes >= 0x0200_0000_0000_0000u64 {
        32
    } else if bytes >= 0x0100_0000_0000_0000u64 {
        16
    } else if bytes >= 0x0080_0000_0000_0000u64 {
        8
    } else if bytes >= 0x0040_0000_0000_0000u64 {
        4
    } else {
        2
    };
    proof {
        assert(p == pow2_small(f64_shift(bytes as nat)));
    }
    let b = bytes as u128;
    proof {
        assert(b / p <= b) by (nonlinear_arith) requires p >= 1;
    }
    let rounded = round_half_even_exec(b, p);
    proof {
        assert(b / p * p <= b) by (nonlinear_arith) requires p >= 1;
        assert(rounded * p <= b + p) by (nonlinear_arith)
            requires rounded <= b / p + 1, p >= 1, b / p * p <= b;
    }
    rounded * p
}

/// Renders a byte count for people (see `format_bytes_spec`).
pub fn format_bytes(bytes: u64) -> (r: String)
    ensures
        r@ == format_bytes_spec(bytes),
{
    let n = f64_nearest_exec(bytes);
    let k: u64 = if n >= 1099511627776u128 {
        4
    } else if n >= 1073741824u128 {
        3
    } else if n >= 1048576u128 {
        2
    } else if n >= 1024u128 {
        1
    } else {
        0
    };
    if k == 0 {
        let mut v = decimal_chars(bytes);
        extend_str(&mut v, " B");
        return string_of(v.as_slice());
    }
    let den: u128 = if k == 1 {
        1024
    } else if k == 2 {
        1048576
    } else if k == 3 {
        1073741824
    } else {
        1099511627776
    };
    let d: u64 = if n >= 100 * den {
        0
    } else if n >= 10 * den {
        1
    } else {
        2
    };
    let scale: u128 = if d == 0 {
        1
    } else if d == 1 {
        10
    } else {
        100
    };
    proof {
        assert((n * scale) as u128 / den + 1 <= u128::MAX) by (nonlinear_arith)
            requires n <= 0x1_0000_0000_0000_0000u128, scale <= 100, den >= 1;
    }
    let q = round_half_even_exec(n * scale, den);
    let mut v: Vec<char> = Vec::new();
    if d == 0 {
        v = decimal_chars_wide(q);
    } else {
        let whole = decimal_chars_wide(q / scale);
        extend_chars(&mut v, whole.as_slice());
        v.push('.');
        let frac = q % scale;
        let fd = decimal_chars_wide(frac);
        if d == 2 && frac < 10 {
            v.push('0');
            proof {
                assert(fd@.len() == 1);
                assert(zero_pad(fd@, 2) =~= seq!['0'] + fd@);
            }
        } else {
            proof {
                if d == 2 {
                    assert(fd@ == decimal_spec(frac as nat / 10).push(digit_spec(frac as nat % 10)));
                    assert(decimal_spec(frac as nat / 10).len() == 1);
                }
            }
        }
        extend_chars(&mut v, fd.as_slice());
    }
    extend_str(&mut v, " ");
    let label = if k == 1 {
        "KB"
    } else if k == 2 {
        "MB"
    } else if k == 3 {
        "GB"
    } else {
        "TB"
    };
    extend_str(&mut v, label);
    string_of(v.as_slice())
}


/// One top-level entry (file or folder) of a file clipboard item.
pub ghost struct TopEntry {
    pub name: Seq<char>,
    pub display_path: Seq<char>,
    pub is_directory: bool,
    pub file_count: nat,
    pub total_bytes: u64,
}

/// A relative path as the tooltip reads it: trimmed, without outer slashes.
pub open spec fn clean_relative(rel: Seq<char>) -> Seq<char> {
    trim_char_spec(trim_spec(rel), '/')
}

/// Number of bytes UTF-8 uses for one character.
pub open spec fn utf8_width(c: char) -> nat {
    if (c as u32) < 0x80 {
        1
    } else if (c as u32) < 0x800 {
        2
    } else if (c as u32) < 0x10000 {
        3
    } else {
        4
    }
}

/// Length in bytes of the UTF-8 encoding (what `str::len` returns).
pub open spec fn byte_len(s: Seq<char>) -> nat
    decreases s.len(),
{
    if s.len() == 0 {
        0
    } else {
        byte_len(s.drop_last()) + utf8_width(s.last())
    }
}

pub open spec fn sat_add_u64(a: u64, b: u64) -> u64 {
    if a + b > u64::MAX { u64::MAX } else { (a + b) as u64 }
}

/// Adds one file to the top-level entries, keyed by name.
pub open spec fn add_file_entry(m: Map<Seq<char>, TopEntry>, f: FileView) -> Map<Seq<char>, TopEntry> {
    let rp = clean_relative(f.relative_path);
    if rp.len() == 0 {
        m
    } else {
        let top = rp.take(char_pos(rp, '/') as int);
        let nested = char_pos(rp, '/') < rp.len();
        let e = if m.contains_key(top) {
            m[top]
        } else {
            TopEntry { name: top, display_path: rp, is_directory: nested, file_count: 0, total_bytes: 0 }
        };
        m.insert(
            top,
            TopEntry {
                name: e.name,
                display_path: if byte_len(e.display_path) > byte_len(rp) { rp } else { e.display_path },
                is_directory: e.is_directory || nested,
                file_count: e.file_count + 1,
                total_bytes: sat_add_u64(e.total_bytes, f.size_bytes),
            },
        )
    }
}

/// The top-level entries of a list of files.
pub open spec fn top_entries(files: Seq<FileView>) -> Map<Seq<char>, TopEntry>
    decreases files.len(),
{
    if files.len() == 0 {
        Map::empty()
    } else {
        add_file_entry(top_entries(files.drop_last()), files.last())
    }
}

/// `es` lists the entries of `m` once each, ordered by name.
pub open spec fn lists_entries(es: Seq<TopEntry>, m: Map<Seq<char>, TopEntry>) -> bool {
    &&& forall|i: int, j: int| 0 <= i < j < es.len() ==> seq_lt(es[i].name, es[j].name)
    &&& forall|i: int| 0 <= i < es.len() ==> m.contains_key(#[trigger] es[i].name) && m[es[i].name] == es[i]
    &&& forall|k: Seq<char>| m.contains_key(k) ==> exists|i: int| 0 <= i < es.len() && (#[trigger] es[i].name) == k
}

pub open spec fn entry_line(e: TopEntry) -> Seq<char> {
    if e.is_directory {
        "文件夹 · "@ + e.name + " · "@ + decimal_spec(e.file_count) + " 个文件 · "@ + format_bytes_spec(e.total_bytes)
    } else {
        "文件 · "@ + e.display_path + " · "@ + format_bytes_spec(e.total_bytes)
    }
}

/// Each entry on a line of its own, each line preceded by a line feed.
pub open spec fn entry_lines(es: Seq<TopEntry>) -> Seq<char>
    decreases es.len(),
{
    if es.len() == 0 {
        seq![]
    } else {
        entry_lines(es.drop_last()) + seq!['\n'] + entry_line(es.last())
    }
}

/// The tooltip of a file item given its entries in name order.
pub open spec fn files_tooltip_render(es: Seq<TopEntry>) -> Seq<char> {
    if es.len() == 0 {
        "无文件内容"@
    } else if es.len() == 1 {
        let e = es[0];
        if e.is_directory {
            "文件夹\n名称: "@ + e.name + "\n包含文件: "@ + decimal_spec(e.file_count) + "\n总大小: "@
                + format_bytes_spec(e.total_bytes)
        } else {
            "文件\n名称: "@ + e.name + "\n路径: "@ + e.display_path + "\n大小: "@
                + format_bytes_spec(e.total_bytes)
        }
    } else {
        "共 "@ + decimal_spec(es.len()) + " 项"@ + entry_lines(es)
    }
}

/// Working record of one top-level entry.
struct EntryAcc {
    name: Vec<char>,
    display_path: Vec<char>,
    display_bytes: u128,
    is_directory: bool,
    file_count: usize,
    total_bytes: u64,
}

impl EntryAcc {
    spec fn view_entry(&self) -> TopEntry {
        TopEntry {
            name: self.name@,
            display_path: self.display_path@,
            is_directory: self.is_directory,
            file_count: self.file_count as nat,
            total_bytes: self.total_bytes,
        }
    }

    spec fn wf(&self) -> bool {
        self.display_bytes == byte_len(self.display_path@)
    }
}

spec fn acc_views(es: Seq<EntryAcc>) -> Seq<TopEntry> {
    es.map_values(|e: EntryAcc| e.view_entry())
}

/// Byte length of the UTF-8 encoding of a character sequence.
pub fn utf8_len(v: &[char]) -> (n: u128)
    ensures
        n == byte_len(v@),
{
    let mut n: u128 = 0;
    let mut i: usize = 0;
    while i < v.len()
        invariant
            i <= v.len(),
            n == byte_len(v@.take(i as int)),
            n <= 4 * i,
        decreases v.len() - i,
    {
        proof {
            assert(v@.take(i + 1).drop_last() =~= v@.take(i as int));
        }
        let u = v[i] as u32;
        let w: u128 = if u < 0x80 {
            1
        } else if u < 0x800 {
            2
        } else if u < 0x10000 {
            3
        } else {
            4
        };
        n = n + w;
        i = i + 1;
    }
    proof {
        assert(v@.take(i as int) =~= v@);
    }
    n
}

/// The entry list of a map is unique: at most one name-ordered listing exists.
pub proof fn lemma_listing_unique(a: Seq<TopEntry>, b: Seq<TopEntry>, m: Map<Seq<char>, TopEntry>)
    requires
        lists_entries(a, m),
        lists_entries(b, m),
    ensures
        a == b,
    decreases a.len(),
{
    if a.len() == 0 {
        if b.len() > 0 {
            assert(m.contains_key(b[0].name));
        }
        assert(a =~= b);
    } else {
        assert(m.contains_key(a[0].name));
        let j = choose|j: int| 0 <= j < b.len() && (#[trigger] b[j].name) == a[0].name;
        assert(m.contains_key(b[0].name));
        let i = choose|i: int| 0 <= i < a.len() && (#[trigger] a[i].name) == b[0].name;
        if j > 0 {
            assert(seq_lt(b[0].name, b[j].name));
            if i > 0 {
                assert(seq_lt(a[0].name, a[i].name));
                lemma_seq_lt_asym(a[0].name, b[0].name);
            } else {
                lemma_seq_lt_irreflexive(a[0].name);
            }
        }
        assert(j == 0);
        assert(a[0] == b[0]);
        let k = a[0].name;
        let m2 = m.remove(k);
        let a2 = a.drop_first();
        let b2 = b.drop_first();
        assert forall|x: int, y: int| 0 <= x < y < a2.len() implies seq_lt(a2[x].name, a2[y].name) by {
            assert(a2[x] == a[x + 1]);
            assert(a2[y] == a[y + 1]);
        }
        assert forall|x: int| 0 <= x < a2.len() implies m2.contains_key(#[trigger] a2[x].name)
            && m2[a2[x].name] == a2[x] by {
            assert(a2[x] == a[x + 1]);
            assert(seq_lt(a[0].name, a[x + 1].name));
            lemma_seq_lt_irreflexive(k);
        }
        assert forall|q: Seq<char>| m2.contains_key(q) implies exists|x: int|
            0 <= x < a2.len() && (#[trigger] a2[x].name) == q by {
            let x = choose|x: int| 0 <= x < a.len() && (#[trigger] a[x].name) == q;
            assert(x != 0);
            assert(a2[x - 1].name == q);
        }
        assert forall|x: int, y: int| 0 <= x < y < b2.len() implies seq_lt(b2[x].name, b2[y].name) by {
            assert(b2[x] == b[x + 1]);
            assert(b2[y] == b[y + 1]);
        }
        assert forall|x: int| 0 <= x < b2.len() implies m2.contains_key(#[trigger] b2[x].name)
            && m2[b2[x].name] == b2[x] by {
            assert(b2[x] == b[x + 1]);
            assert(seq_lt(b[0].name, b[x + 1].name));
            lemma_seq_lt_irreflexive(k);
        }
        assert forall|q: Seq<char>| m2.contains_key(q) implies exists|x: int|
            0 <= x < b2.len() && (#[trigger] b2[x].name) == q by {
            let x = choose|x: int| 0 <= x < b.len() && (#[trigger] b[x].name) == q;
            assert(x != 0);
            assert(b2[x - 1].name == q);
        }
        lemma_listing_unique(a2, b2, m2);
        assert(a =~= b) by {
            assert forall|x: int| 0 <= x < a.len() implies a[x] == b[x] by {
                if x > 0 {
                    assert(a[x] == a2[x - 1]);
                    assert(b[x] == b2[x - 1]);
                }
            }
        }
    }
}

/// The tooltip of a list of files (see `files_content_tooltip`).
pub open spec fn files_tooltip_spec(files: Seq<FileView>) -> Seq<char> {
    files_tooltip_render(choose|es: Seq<TopEntry>| lists_entries(es, top_entries(files)))
}

/// Finds `top` among entries sorted by name: its index, or where it belongs.
fn locate_entry(acc: &Vec<EntryAcc>, top: &[char]) -> (r: (usize, bool))
    requires
        forall|i: int, j: int| 0 <= i < j < acc@.len() ==> seq_lt(acc@[i].name@, acc@[j].name@),
    ensures
        r.0 <= acc@.len(),
        forall|i: int| 0 <= i < r.0 ==> seq_lt(acc@[i].name@, top@),
        r.1 ==> r.0 < acc@.len() && acc@[r.0 as int].name@ == top@,
        !r.1 ==> r.0 == acc@.len() || seq_lt(top@, acc@[r.0 as int].name@),
{
    let mut pos: usize = 0;
    while pos < acc.len()
        invariant
            pos <= acc@.len(),
            forall|i: int| 0 <= i < pos ==> seq_lt(acc@[i].name@, top@),
        decreases acc@.len() - pos,
    {
        let o = compare_chars(acc[pos].name.as_slice(), top);
        match o {
            LexOrder::Less => {
                pos = pos + 1;
            },
            LexOrder::Equal => {
                return (pos, true);
            },
            LexOrder::Greater => {
                proof {
                    lemma_seq_lt_total(acc@[pos as int].name@, top@);
                }
                return (pos, false);
            },
        }
    }
    (pos, false)
}

/// Appends the rendering of `n` to `v`.
fn push_decimal(v: &mut Vec<char>, n: u64)
    ensures
        final(v)@ == old(v)@ + decimal_spec(n as nat),
{
    let d = decimal_chars(n);
    extend_chars(v, d.as_slice());
}

/// Appends the rendering of a byte count to `v`.
fn push_bytes(v: &mut Vec<char>, n: u64)
    ensures
        final(v)@ == old(v)@ + format_bytes_spec(n),
{
    let s = format_bytes(n);
    extend_str(v, s.as_str());
}

/// Summary of the files of a file item: one entry per top-level name, folders
/// with their file count and total size, files with their path and size.
pub fn files_content_tooltip(files: &[FileDescriptor]) -> (r: String)
    ensures
        r@ == files_tooltip_spec(file_views(files@)),
{
    let mut acc: Vec<EntryAcc> = Vec::new();
    let mut idx: usize = 0;
    proof {
        assert(file_views(files@).take(0) =~= Seq::<FileView>::empty());
    }
    while idx < files.len()
        invariant
            idx <= files.len(),
            forall|i: int| 0 <= i < acc@.len() ==> (#[trigger] acc@[i]).wf(),
            forall|i: int| 0 <= i < acc@.len() ==> (#[trigger] acc@[i]).file_count <= idx,
            lists_entries(acc_views(acc@), top_entries(file_views(files@).take(idx as int))),
        decreases files.len() - idx,
    {
        let ghost before = file_views(files@).take(idx as int);
        let ghost m0 = top_entries(before);
        let ghost fv = files@[idx as int]@;
        proof {
            assert(file_views(files@).take(idx + 1).drop_last() =~= before);
            assert(file_views(files@).take(idx + 1).last() == fv);
        }
        let f = &files[idx];
        let raw = chars_of(f.relative_path.as_str());
        let trimmed = trim_chars(raw.as_slice());
        let rp = trim_char(trimmed.as_slice(), '/');
        proof {
            assert(rp@ == clean_relative(fv.relative_path));
        }
        if rp.len() > 0 {
            let cut = find_char(rp.as_slice(), '/');
            let top = take_chars(rp.as_slice(), cut);
            let nested = cut < rp.len();
            let rp_bytes = utf8_len(rp.as_slice());
            let ghost m1 = add_file_entry(m0, fv);
            let ghost old_acc = acc@;
            proof {
                assert forall|i: int, j: int| 0 <= i < j < acc@.len() implies seq_lt(
                    acc@[i].name@,
                    acc@[j].name@,
                ) by {
                    assert(acc_views(acc@)[i].name == acc@[i].name@);
                    assert(acc_views(acc@)[j].name == acc@[j].name@);
                }
            }
            let (pos, found) = locate_entry(&acc, top.as_slice());
            if found {
                let e = &acc[pos];
                let (dp, db) = if e.display_bytes > rp_bytes {
                    (copy_chars(rp.as_slice()), rp_bytes)
                } else {
                    (copy_chars(e.display_path.as_slice()), e.display_bytes)
                };
                let updated = EntryAcc {
                    name: copy_chars(e.name.as_slice()),
                    display_path: dp,
                    display_bytes: db,
                    is_directory: e.is_directory || nested,
                    file_count: e.file_count + 1,
                    total_bytes: e.total_bytes.saturating_add(f.size_bytes),
                };
                proof {
                    let views = acc_views(old_acc);
                    assert(views[pos as int].name == top@);
                    assert(m0.contains_key(top@));
                    assert(m0[top@] == views[pos as int]);
                    assert(m1 == m0.insert(top@, updated.view_entry()));
                }
                acc.set(pos, updated);
                proof {
                    let nv = acc_views(acc@);
                    let ov = acc_views(old_acc);
                    assert(nv =~= ov.update(pos as int, m1[top@]));
                    assert forall|i: int| 0 <= i < nv.len() implies m1.contains_key(
                        #[trigger] nv[i].name,
                    ) && m1[nv[i].name] == nv[i] by {
                        if i != pos {
                            assert(nv[i] == ov[i]);
                            if i < pos {
                                assert(seq_lt(ov[i].name, ov[pos as int].name));
                            } else {
                                assert(seq_lt(ov[pos as int].name, ov[i].name));
                            }
                            lemma_seq_lt_irreflexive(ov[i].name);
                        }
                    }
                    assert forall|k: Seq<char>| m1.contains_key(k) implies exists|i: int|
                        0 <= i < nv.len() && (#[trigger] nv[i].name) == k by {
                        if k == top@ {
                            assert(nv[pos as int].name == k);
                        } else {
                            let i = choose|i: int| 0 <= i < ov.len() && (#[trigger] ov[i].name) == k;
                            assert(nv[i].name == k);
                        }
                    }
                }
            } else {
                let fresh = EntryAcc {
                    name: copy_chars(top.as_slice()),
                    display_path: copy_chars(rp.as_slice()),
                    display_bytes: rp_bytes,
                    is_directory: nested,
                    file_count: 1,
                    total_bytes: 0u64.saturating_add(f.size_bytes),
                };
                proof {
                    let ov = acc_views(old_acc);
                    if m0.contains_key(top@) {
                        let i = choose|i: int| 0 <= i < ov.len() && (#[trigger] ov[i].name) == top@;
                        if i < pos {
                            lemma_seq_lt_irreflexive(top@);
                        } else {
                            if i > pos {
                                lemma_seq_lt_trans(top@, ov[pos as int].name, ov[i].name);
                            }
                            lemma_seq_lt_irreflexive(top@);
                        }
                    }
                    assert(m1 == m0.insert(top@, fresh.view_entry()));
                }
                acc.insert(pos, fresh);
                proof {
                    let nv = acc_views(acc@);
                    let ov = acc_views(old_acc);
                    ov.insert_ensures(pos as int, m1[top@]);
                    assert(nv =~= ov.insert(pos as int, m1[top@]));
                    assert forall|i: int, j: int| 0 <= i < j < nv.len() implies seq_lt(
                        nv[i].name,
                        nv[j].name,
                    ) by {
                        if j < pos {
                            assert(nv[i] == ov[i]);
                            assert(nv[j] == ov[j]);
                        } else if i < pos && j == pos {
                        } else if i < pos && j > pos {
                            assert(nv[j] == ov[j - 1]);
                        } else if i == pos {
                            assert(nv[j] == ov[j - 1]);
                            if j - 1 > pos {
                                lemma_seq_lt_trans(top@, ov[pos as int].name, ov[j - 1].name);
                            }
                        } else {
                            assert(nv[i] == ov[i - 1]);
                            assert(nv[j] == ov[j - 1]);
                        }
                    }
                    assert forall|i: int| 0 <= i < nv.len() implies m1.contains_key(
                        #[trigger] nv[i].name,
                    ) && m1[nv[i].name] == nv[i] by {
                        if i < pos {
                            assert(nv[i] == ov[i]);
                            lemma_seq_lt_irreflexive(top@);
                        } else if i > pos {
                            assert(nv[i] == ov[i - 1]);
                            if i - 1 > pos {
                                lemma_seq_lt_trans(top@, ov[pos as int].name, ov[i - 1].name);
                            }
                            lemma_seq_lt_irreflexive(top@);
                        }
                    }
                    assert forall|k: Seq<char>| m1.contains_key(k) implies exists|i: int|
                        0 <= i < nv.len() && (#[trigger] nv[i].name) == k by {
                        if k == top@ {
                            assert(nv[pos as int].name == k);
                        } else {
                            let i = choose|i: int| 0 <= i < ov.len() && (#[trigger] ov[i].name) == k;
                            if i < pos {
                                assert(nv[i].name == k);
                            } else {
                                assert(nv[i + 1].name == k);
                            }
                        }
                    }
                }
            }
        }
        idx = idx + 1;
    }
    proof {
        assert(file_views(files@).take(idx as int) =~= file_views(files@));
    }
    let ghost es = acc_views(acc@);
    proof {
        assert(lists_entries(es, top_entries(file_views(files@))));
    }
    let mut out: Vec<char> = Vec::new();
    if acc.len() == 0 {
        extend_str(&mut out, "无文件内容");
    } else if acc.len() == 1 {
        let e = &acc[0];
        if e.is_directory {
            extend_str(&mut out, "文件夹\n名称: ");
            extend_chars(&mut out, e.name.as_slice());
            extend_str(&mut out, "\n包含文件: ");
            push_decimal(&mut out, e.file_count as u64);
            extend_str(&mut out, "\n总大小: ");
            push_bytes(&mut out, e.total_bytes);
        } else {
            extend_str(&mut out, "文件\n名称: ");
            extend_chars(&mut out, e.name.as_slice());
            extend_str(&mut out, "\n路径: ");
            extend_chars(&mut out, e.display_path.as_slice());
            extend_str(&mut out, "\n大小: ");
            push_bytes(&mut out, e.total_bytes);
        }
        proof {
            assert(es[0] == acc@[0].view_entry());
        }
    } else {
        extend_str(&mut out, "共 ");
        push_decimal(&mut out, acc.len() as u64);
        extend_str(&mut out, " 项");
        let ghost head = out@;
        let mut i: usize = 0;
        while i < acc.len()
            invariant
                i <= acc@.len(),
                es == acc_views(acc@),
                forall|k: int| 0 <= k < acc@.len() ==> (#[trigger] acc@[k]).file_count <= files@.len(),
                out@ == head + entry_lines(es.take(i as int)),
            decreases acc@.len() - i,
        {
            proof {
                assert(es.take(i + 1).drop_last() =~= es.take(i as int));
                assert(es.take(i + 1).last() == acc@[i as int].view_entry());
            }
            let e = &acc[i];
            out.push('\n');
            if e.is_directory {
                extend_str(&mut out, "文件夹 · ");
                extend_chars(&mut out, e.name.as_slice());
                extend_str(&mut out, " · ");
                push_decimal(&mut out, e.file_count as u64);
                extend_str(&mut out, " 个文件 · ");
                push_bytes(&mut out, e.total_bytes);
            } else {
                extend_str(&mut out, "文件 · ");
                extend_chars(&mut out, e.display_path.as_slice());
                extend_str(&mut out, " · ");
                push_bytes(&mut out, e.total_bytes);
            }
            i = i + 1;
        }
        proof {
            assert(es.take(i as int) =~= es);
        }
    }
    proof {
        assert(out@ == files_tooltip_render(es));
        let c = choose|c: Seq<TopEntry>| lists_entries(c, top_entries(file_views(files@)));
        lemma_listing_unique(c, es, top_entries(file_views(files@)));
    }
    string_of(out.as_slice())
}


/// The first line whose trimmed form is not empty, trimmed.
pub open spec fn first_nonblank(lines: Seq<Seq<char>>) -> Option<Seq<char>>
    decreases lines.len(),
{
    if lines.len() == 0 {
        None
    } else if trim_spec(lines[0]).len() > 0 {
        Some(trim_spec(lines[0]))
    } else {
        first_nonblank(lines.drop_first())
    }
}

/// `item_summary_text`: the first non-blank line of a text, or the first path
/// and the file count of a file item, cut to 240 characters.
pub open spec fn item_summary_spec(item: ItemView) -> Seq<char> {
    match item.payload {
        PayloadView::Text(t) => match first_nonblank(lines_spec(t)) {
            Some(line) => truncate_inline_spec(line, 240),
            None => "空文本内容"@,
        },
        PayloadView::Files(fs) => {
            if fs.len() == 0 {
                "无文件内容"@
            } else if fs.len() == 1 {
                truncate_inline_spec("文件 · "@ + fs[0].relative_path, 240)
            } else {
                let lead = if trim_spec(fs[0].relative_path).len() > 0 { fs[0].relative_path } else { "文件"@ };
                truncate_inline_spec(decimal_spec(fs.len()) + " 个文件 · "@ + lead, 240)
            }
        },
    }
}

/// The trimmed source device name, when it is not blank.
pub open spec fn named_source(item: ItemView) -> Option<Seq<char>> {
    match item.source_device_name {
        Some(n) => if trim_spec(n).len() > 0 { Some(trim_spec(n)) } else { None },
        None => None,
    }
}

/// `item_source_badge_text`: "本机" for local items, otherwise the source
/// device's name cut to a badge, or "远端".
pub open spec fn source_badge_spec(item: ItemView) -> Seq<char> {
    if item.is_remote {
        match named_source(item) {
            Some(n) => truncate_inline_spec(n, 8),
            None => "远端"@,
        }
    } else {
        "本机"@
    }
}

/// `item_source_tooltip`: the source device's name, or "远端设备" / "本机".
pub open spec fn source_tooltip_spec(item: ItemView) -> Seq<char> {
    match named_source(item) {
        Some(n) => n,
        None => if item.is_remote { "远端设备"@ } else { "本机"@ },
    }
}

/// `item_detail_tooltip_with_limits`.
pub open spec fn detail_tooltip_spec(item: ItemView, max_lines: nat, max_chars: nat) -> Seq<char> {
    match item.payload {
        PayloadView::Text(t) => if trim_spec(t).len() == 0 {
            "空文本内容"@
        } else {
            limit_tooltip_spec(t, max_lines, max_chars)
        },
        PayloadView::Files(fs) => limit_tooltip_spec(files_tooltip_spec(fs), max_lines, max_chars),
    }
}

/// Finds the first non-blank line of a text.
fn first_nonblank_line(text: &str) -> (r: Option<Vec<char>>)
    ensures
        match r {
            Some(v) => first_nonblank(lines_spec(text@)) == Some(v@),
            None => first_nonblank(lines_spec(text@)) is None,
        },
{
    let chars = chars_of(text);
    let lines = split_lines(chars.as_slice());
    let mut i: usize = 0;
    proof {
        assert(char_rows(lines@).skip(0) =~= char_rows(lines@));
    }
    while i < lines.len()
        invariant
            i <= lines.len(),
            char_rows(lines@) == lines_spec(text@),
            first_nonblank(lines_spec(text@)) == first_nonblank(char_rows(lines@).skip(i as int)),
        decreases lines.len() - i,
    {
        proof {
            assert(char_rows(lines@).skip(i as int).drop_first() =~= char_rows(lines@).skip(i + 1));
            assert(char_rows(lines@).skip(i as int)[0] == lines@[i as int]@);
        }
        let t = trim_chars(lines[i].as_slice());
        if t.len() > 0 {
            return Some(t);
        }
        i = i + 1;
    }
    None
}

/// Summary line of a history item.
pub fn item_summary_text(item: &ClipboardItem) -> (r: String)
    ensures
        r@ == item_summary_spec(item@),
{
    match &item.payload {
        ClipboardPayload::Text(text) => match first_nonblank_line(text.as_str()) {
            Some(line) => {
                let s = string_of(line.as_slice());
                truncate_inline(s.as_str(), 240)
            },
            None => "空文本内容".to_string(),
        },
        ClipboardPayload::Files(files) => {
            proof {
                assert(file_views(files@).len() == files@.len());
            }
            if files.len() == 0 {
                return "无文件内容".to_string();
            }
            if files.len() == 1 {
                proof {
                    assert(file_views(files@)[0] == files@[0]@);
                }
                let mut v = chars_of("文件 · ");
                extend_str(&mut v, files[0].relative_path.as_str());
                let s = string_of(v.as_slice());
                return truncate_inline(s.as_str(), 240);
            }
            proof {
                assert(file_views(files@)[0] == files@[0]@);
            }
            let mut v = decimal_chars(files.len() as u64);
            extend_str(&mut v, " 个文件 · ");
            let lead = trim(files[0].relative_path.as_str());
            if lead.as_str().is_empty() {
                extend_str(&mut v, "文件");
            } else {
                extend_str(&mut v, files[0].relative_path.as_str());
            }
            let s = string_of(v.as_slice());
            truncate_inline(s.as_str(), 240)
        },
    }
}

/// The trimmed source device name when it is not blank.
fn named_source_exec(item: &ClipboardItem) -> (r: Option<String>)
    ensures
        opt_view(r) == named_source(item@),
{
    match &item.source_device_name {
        Some(n) => {
            let t = trim(n.as_str());
            if t.as_str().is_empty() {
                None
            } else {
                Some(t)
            }
        },
        None => None,
    }
}

/// Badge naming where a history item comes from.
pub fn item_source_badge_text(item: &ClipboardItem) -> (r: String)
    ensures
        r@ == source_badge_spec(item@),
{
    if item.is_remote {
        match named_source_exec(item) {
            Some(n) => truncate_badge_label(n.as_str()),
            None => "远端".to_string(),
        }
    } else {
        "本机".to_string()
    }
}

/// Tooltip naming where a history item comes from.
pub fn item_source_tooltip(item: &ClipboardItem) -> (r: String)
    ensures
        r@ == source_tooltip_spec(item@),
{
    match named_source_exec(item) {
        Some(n) => n,
        None => if item.is_remote {
            "远端设备".to_string()
        } else {
            "本机".to_string()
        },
    }
}

/// Detail tooltip of a history item within the given limits.
pub fn item_detail_tooltip_with_limits(item: &ClipboardItem, max_lines: usize, max_chars: usize) -> (r: String)
    ensures
        r@ == detail_tooltip_spec(item@, max_lines as nat, max_chars as nat),
{
    match &item.payload {
        ClipboardPayload::Text(text) => {
            let t = trim(text.as_str());
            if t.as_str().is_empty() {
                "空文本内容".to_string()
            } else {
                limit_tooltip_text_with_limits(text.as_str(), max_lines, max_chars)
            }
        },
        ClipboardPayload::Files(files) => {
            let tip = files_content_tooltip(files.as_slice());
            limit_tooltip_text_with_limits(tip.as_str(), max_lines, max_chars)
        },
    }
}

/// Detail tooltip of a local history item.
pub fn item_detail_tooltip(item: &ClipboardItem) -> (r: String)
    ensures
        r@ == detail_tooltip_spec(item@, MAX_HISTORY_TOOLTIP_LINES as nat, MAX_HISTORY_TOOLTIP_CHARS as nat),
{
    item_detail_tooltip_with_limits(item, MAX_HISTORY_TOOLTIP_LINES, MAX_HISTORY_TOOLTIP_CHARS)
}

/// Tooltip clipping with the limits of local history items.
pub fn limit_tooltip_text(text: &str) -> (r: String)
    ensures
        r@ == limit_tooltip_spec(text@, MAX_HISTORY_TOOLTIP_LINES as nat, MAX_HISTORY_TOOLTIP_CHARS as nat),
{
    limit_tooltip_text_with_limits(text, MAX_HISTORY_TOOLTIP_LINES, MAX_HISTORY_TOOLTIP_CHARS)
}

/// The cached entry of an item: presentation texts computed with the given
/// tooltip and search limits; remote entries are never pinned.
pub open spec fn entry_of(item: ItemView, max_lines: nat, max_chars: nat, blob_chars: nat, remote: bool) -> EntryView {
    EntryView {
        id: item.id,
        kind: item.kind,
        created_at: item.created_at,
        source_device_id: item.source_device_id,
        source_badge: source_badge_spec(item),
        source_tooltip: source_tooltip_spec(item),
        summary_text: item_summary_spec(item),
        detail_tooltip: detail_tooltip_spec(item, max_lines, max_chars),
        search_blob: crate::text::lowercase(search_blob_spec(item, blob_chars)),
        is_remote: if remote { true } else { item.is_remote },
        is_pinned: if remote { false } else { item.is_pinned },
    }
}

/// Cached entry of a local history item.
pub fn build_history_entry(item: &ClipboardItem) -> (e: HistoryEntry)
    ensures
        e@ == entry_of(item@, MAX_HISTORY_TOOLTIP_LINES as nat, MAX_HISTORY_TOOLTIP_CHARS as nat, 512, false),
{
    let blob = item.compact_search_blob(512);
    HistoryEntry {
        id: item.id,
        kind: item.kind.clone(),
        created_at: item.created_at,
        source_device_id: clone_opt_string(&item.source_device_id),
        source_badge: item_source_badge_text(item),
        source_tooltip: item_source_tooltip(item),
        summary_text: item_summary_text(item),
        detail_tooltip: item_detail_tooltip(item),
        search_blob: crate::text::to_lowercase(blob.as_str()),
        is_remote: item.is_remote,
        is_pinned: item.is_pinned,
    }
}

/// Cached entry of a remote history item (shorter tooltip and search text).
pub fn build_remote_history_entry(item: &ClipboardItem) -> (e: HistoryEntry)
    ensures
        e@ == entry_of(
            item@,
            MAX_REMOTE_HISTORY_TOOLTIP_LINES as nat,
            MAX_REMOTE_HISTORY_TOOLTIP_CHARS as nat,
            MAX_REMOTE_HISTORY_TOOLTIP_CHARS as nat,
            true,
        ),
{
    let blob = item.compact_search_blob(MAX_REMOTE_HISTORY_TOOLTIP_CHARS);
    HistoryEntry {
        id: item.id,
        kind: item.kind.clone(),
        created_at: item.created_at,
        source_device_id: clone_opt_string(&item.source_device_id),
        source_badge: item_source_badge_text(item),
        source_tooltip: item_source_tooltip(item),
        summary_text: item_summary_text(item),
        detail_tooltip: item_detail_tooltip_with_limits(
            item,
            MAX_REMOTE_HISTORY_TOOLTIP_LINES,
            MAX_REMOTE_HISTORY_TOOLTIP_CHARS,
        ),
        search_blob: crate::text::to_lowercase(blob.as_str()),
        is_remote: true,
        is_pinned: false,
    }
}

/// The kind label of a row: "text" or "files".
pub open spec fn kind_label(k: ClipboardKind) -> Seq<char> {
    match k {
        ClipboardKind::Text => "text"@,
        ClipboardKind::Files => "files"@,
    }
}

/// The row shown for a cached entry.
pub fn history_entry_to_row(entry: &HistoryEntry) -> (r: HistoryRow)
    ensures
        r.id == entry.id,
        r.kind@ == kind_label(entry.kind),
        r.source_badge@ == entry.source_badge@,
        r.source_tooltip@ == entry.source_tooltip@,
        r.summary_text@ == entry.summary_text@,
        r.detail_tooltip@ == entry.detail_tooltip@,
        r.is_remote == entry.is_remote,
        r.is_pinned == entry.is_pinned,
{
    HistoryRow {
        id: entry.id,
        kind: match entry.kind {
            ClipboardKind::Text => "text".to_string(),
            ClipboardKind::Files => "files".to_string(),
        },
        source_badge: entry.source_badge.clone(),
        source_tooltip: entry.source_tooltip.clone(),
        summary_text: entry.summary_text.clone(),
        detail_tooltip: entry.detail_tooltip.clone(),
        is_remote: entry.is_remote,
        is_pinned: entry.is_pinned,
    }
}

} // verus!
