//! Clipboard items, file descriptors and peer records.
//!
//! Identifiers are 128-bit UUID values and timestamps are Unix times in
//! nanoseconds, so that all logic over them is plain integer logic.

use vstd::prelude::*;

use crate::text::{chars_of, copy_chars, extend_chars, string_of, take_chars, trim_chars, trim_spec};

verus! {

/// What a clipboard item holds.
#[derive(Debug, PartialEq, Eq)]
pub enum ClipboardKind {
    Text,
    Files,
}

impl Clone for ClipboardKind {
    fn clone(&self) -> (r: Self)
        ensures
            r == *self,
    {
        match self {
            ClipboardKind::Text => ClipboardKind::Text,
            ClipboardKind::Files => ClipboardKind::Files,
        }
    }
}

/// One file of a file clipboard item.
#[derive(Debug, PartialEq, Eq)]
pub struct FileDescriptor {
    pub name: String,
    pub relative_path: String,
    pub size_bytes: u64,
    /// Where the file was copied from on the originating host.
    pub source_path: Option<String>,
    /// Where a copy of the file is stored on this host.
    pub local_path: Option<String>,
}

/// Clones an optional string.
pub fn clone_opt_string(o: &Option<String>) -> (r: Option<String>)
    ensures
        r == *o,
{
    match o {
        Some(s) => Some(s.clone()),
        None => None,
    }
}

impl Clone for FileDescriptor {
    fn clone(&self) -> (r: Self)
        ensures
            r == *self,
    {
        FileDescriptor {
            name: self.name.clone(),
            relative_path: self.relative_path.clone(),
            size_bytes: self.size_bytes,
            source_path: clone_opt_string(&self.source_path),
            local_path: clone_opt_string(&self.local_path),
        }
    }
}

/// Clones a vector of file descriptors.
pub fn clone_files(files: &Vec<FileDescriptor>) -> (r: Vec<FileDescriptor>)
    ensures
        r@ == files@,
{
    let mut out: Vec<FileDescriptor> = Vec::new();
    let mut i: usize = 0;
    while i < files.len()
        invariant
            i <= files.len(),
            out@ == files@.take(i as int),
        decreases files.len() - i,
    {
        out.push(files[i].clone());
        proof {
            assert(files@.take(i + 1) =~= files@.take(i as int).push(files@[i as int]));
        }
        i = i + 1;
    }
    proof {
        assert(files@.take(i as int) =~= files@);
    }
    out
}

/// The content of a clipboard item.
#[derive(Debug, PartialEq, Eq)]
pub enum ClipboardPayload {
    Text(String),
    Files(Vec<FileDescriptor>),
}

/// Abstract value of a file descriptor.
pub ghost struct FileView {
    pub name: Seq<char>,
    pub relative_path: Seq<char>,
    pub size_bytes: u64,
    pub source_path: Option<Seq<char>>,
    pub local_path: Option<Seq<char>>,
}

/// Abstract value of an optional string.
pub open spec fn opt_view(o: Option<String>) -> Option<Seq<char>> {
    match o {
        Some(s) => Some(s@),
        None => None,
    }
}

impl View for FileDescriptor {
    type V = FileView;

    open spec fn view(&self) -> FileView {
        FileView {
            name: self.name@,
            relative_path: self.relative_path@,
            size_bytes: self.size_bytes,
            source_path: opt_view(self.source_path),
            local_path: opt_view(self.local_path),
        }
    }
}

/// Abstract values of a sequence of file descriptors.
pub open spec fn file_views(files: Seq<FileDescriptor>) -> Seq<FileView> {
    files.map_values(|f: FileDescriptor| f@)
}

/// Abstract value of a clipboard payload.
pub ghost enum PayloadView {
    Text(Seq<char>),
    Files(Seq<FileView>),
}

impl View for ClipboardPayload {
    type V = PayloadView;

    open spec fn view(&self) -> PayloadView {
        match self {
            ClipboardPayload::Text(t) => PayloadView::Text(t@),
            ClipboardPayload::Files(f) => PayloadView::Files(file_views(f@)),
        }
    }
}

impl Clone for ClipboardPayload {
    fn clone(&self) -> (r: Self)
        ensures
            r@ == self@,
    {
        match self {
            ClipboardPayload::Text(t) => ClipboardPayload::Text(t.clone()),
            ClipboardPayload::Files(f) => {
                let c = clone_files(f);
                ClipboardPayload::Files(c)
            },
        }
    }
}

/// One clipboard history record.
#[derive(Debug, PartialEq, Eq)]
pub struct ClipboardItem {
    pub id: u128,
    pub kind: ClipboardKind,
    pub summary: String,
    pub signature: String,
    pub payload: ClipboardPayload,
    pub source_device_id: Option<String>,
    pub source_device_name: Option<String>,
    /// Unix time in nanoseconds.
    pub created_at: i128,
    pub is_remote: bool,
    pub is_pinned: bool,
}

/// Abstract value of a clipboard item.
pub ghost struct ItemView {
    pub id: u128,
    pub kind: ClipboardKind,
    pub summary: Seq<char>,
    pub signature: Seq<char>,
    pub payload: PayloadView,
    pub source_device_id: Option<Seq<char>>,
    pub source_device_name: Option<Seq<char>>,
    pub created_at: i128,
    pub is_remote: bool,
    pub is_pinned: bool,
}

impl View for ClipboardItem {
    type V = ItemView;

    open spec fn view(&self) -> ItemView {
        ItemView {
            id: self.id,
            kind: self.kind,
            summary: self.summary@,
            signature: self.signature@,
            payload: self.payload@,
            source_device_id: opt_view(self.source_device_id),
            source_device_name: opt_view(self.source_device_name),
            created_at: self.created_at,
            is_remote: self.is_remote,
            is_pinned: self.is_pinned,
        }
    }
}

/// Abstract values of a sequence of clipboard items.
pub open spec fn item_views(items: Seq<ClipboardItem>) -> Seq<ItemView> {
    items.map_values(|i: ClipboardItem| i@)
}

impl Clone for ClipboardItem {
    fn clone(&self) -> (r: Self)
        ensures
            r@ == self@,
    {
        ClipboardItem {
            id: self.id,
            kind: self.kind.clone(),
            summary: self.summary.clone(),
            signature: self.signature.clone(),
            payload: self.payload.clone(),
            source_device_id: clone_opt_string(&self.source_device_id),
            source_device_name: clone_opt_string(&self.source_device_name),
            created_at: self.created_at,
            is_remote: self.is_remote,
            is_pinned: self.is_pinned,
        }
    }
}

/// A peer whose certificate fingerprint the user has trusted.
#[derive(Debug, PartialEq, Eq)]
pub struct TrustedPeer {
    pub device_id: String,
    pub device_name: String,
    pub fingerprint: String,
}

/// Abstract value of a trusted peer record.
pub ghost struct TrustedPeerView {
    pub device_id: Seq<char>,
    pub device_name: Seq<char>,
    pub fingerprint: Seq<char>,
}

impl View for TrustedPeer {
    type V = TrustedPeerView;

    open spec fn view(&self) -> TrustedPeerView {
        TrustedPeerView {
            device_id: self.device_id@,
            device_name: self.device_name@,
            fingerprint: self.fingerprint@,
        }
    }
}

/// Abstract values of a sequence of trusted peers.
pub open spec fn trusted_views(peers: Seq<TrustedPeer>) -> Seq<TrustedPeerView> {
    peers.map_values(|p: TrustedPeer| p@)
}

impl Clone for TrustedPeer {
    fn clone(&self) -> (r: Self)
        ensures
            r == *self,
    {
        TrustedPeer {
            device_id: self.device_id.clone(),
            device_name: self.device_name.clone(),
            fingerprint: self.fingerprint.clone(),
        }
    }
}

/// A peer seen on the local network.
#[derive(Debug, PartialEq, Eq)]
pub struct DiscoveredPeer {
    pub device_id: String,
    pub device_name: String,
    pub host: String,
    pub address: String,
    pub port: u16,
    pub fingerprint: String,
    /// Unix time in nanoseconds of the last announcement.
    pub last_seen: i128,
}

/// Abstract value of a discovered peer.
pub ghost struct PeerView {
    pub device_id: Seq<char>,
    pub device_name: Seq<char>,
    pub host: Seq<char>,
    pub address: Seq<char>,
    pub port: u16,
    pub fingerprint: Seq<char>,
    pub last_seen: i128,
}

impl View for DiscoveredPeer {
    type V = PeerView;

    open spec fn view(&self) -> PeerView {
        PeerView {
            device_id: self.device_id@,
            device_name: self.device_name@,
            host: self.host@,
            address: self.address@,
            port: self.port,
            fingerprint: self.fingerprint@,
            last_seen: self.last_seen,
        }
    }
}

/// Abstract values of a sequence of discovered peers.
pub open spec fn peer_views(peers: Seq<DiscoveredPeer>) -> Seq<PeerView> {
    peers.map_values(|p: DiscoveredPeer| p@)
}

impl Clone for DiscoveredPeer {
    fn clone(&self) -> (r: Self)
        ensures
            r == *self,
    {
        DiscoveredPeer {
            device_id: self.device_id.clone(),
            device_name: self.device_name.clone(),
            host: self.host.clone(),
            address: self.address.clone(),
            port: self.port,
            fingerprint: self.fingerprint.clone(),
            last_seen: self.last_seen,
        }
    }
}


/// `push_limited`: appends `value` to `out` separated by a space, keeping the
/// result within `max_chars` characters; a cut value ends with an ellipsis.
pub open spec fn push_limited_spec(out: Seq<char>, value: Seq<char>, max_chars: nat) -> Seq<char> {
    if value.len() == 0 || out.len() >= max_chars {
        out
    } else {
        let o = if out.len() > 0 { out.push(' ') } else { out };
        let remaining = (max_chars - o.len()) as nat;
        if value.len() <= remaining {
            o + value
        } else {
            let t = o + value.take(remaining as int);
            (if t.len() > 0 { t.drop_last() } else { t }).push('…')
        }
    }
}

/// Appends a value within a character budget (see `push_limited_spec`).
pub fn push_limited(out: &mut Vec<char>, value: &[char], max_chars: usize)
    ensures
        final(out)@ == push_limited_spec(old(out)@, value@, max_chars as nat),
{
    if value.len() == 0 || out.len() >= max_chars {
        return;
    }
    if out.len() > 0 {
        out.push(' ');
    }
    let remaining = max_chars - out.len();
    if value.len() <= remaining {
        extend_chars(out, value);
    } else {
        let head = take_chars(value, remaining);
        extend_chars(out, head.as_slice());
        if out.len() > 0 {
            out.pop();
        }
        out.push('…');
    }
}

/// Search text of one file list: each trimmed relative path in turn.
pub open spec fn blob_files(out: Seq<char>, files: Seq<FileView>, limit: nat) -> Seq<char>
    decreases files.len(),
{
    if files.len() == 0 {
        out
    } else {
        push_limited_spec(blob_files(out, files.drop_last(), limit), trim_spec(files.last().relative_path), limit)
    }
}

/// `compact_search_blob`: the trimmed summary, then the trimmed text or the
/// trimmed relative paths, within `max(max_chars, 32)` characters.
pub open spec fn search_blob_spec(item: ItemView, max_chars: nat) -> Seq<char> {
    let limit = if max_chars >= 32 { max_chars } else { 32 };
    let head = push_limited_spec(seq![], trim_spec(item.summary), limit);
    match item.payload {
        PayloadView::Text(t) => if head.len() < limit {
            push_limited_spec(head, trim_spec(t), limit)
        } else {
            head
        },
        PayloadView::Files(fs) => blob_files(head, fs, limit),
    }
}

/// The search text of a text item holds its trimmed text after its trimmed
/// summary: the two joined by a space when they fit the budget
/// (`max(max_chars, 32)` characters), else the text cut to what is left and
/// ended by an ellipsis; with an empty summary the text alone.
pub proof fn lemma_text_search_blob(item: ItemView, max_chars: nat)
    ensures
        item.payload matches PayloadView::Text(t) ==> ({
            let limit: nat = if max_chars >= 32 { max_chars } else { 32 };
            let ts = trim_spec(item.summary);
            let tt = trim_spec(t);
            let blob = search_blob_spec(item, max_chars);
            &&& (ts.len() > 0 && tt.len() > 0 && ts.len() + 1 + tt.len() <= limit) ==> blob == ts + seq![' '] + tt
            &&& (ts.len() > 0 && tt.len() > 0 && ts.len() + 1 < limit && ts.len() + 1 + tt.len() > limit) ==> blob == ts
                + seq![' '] + tt.take(limit - ts.len() - 2) + seq!['…']
            &&& (ts.len() == 0 && tt.len() <= limit) ==> blob == tt
            &&& (tt.len() == 0 && ts.len() <= limit) ==> blob == ts
        }),
{
    if let PayloadView::Text(t) = item.payload {
        let limit: nat = if max_chars >= 32 { max_chars } else { 32 };
        let ts = trim_spec(item.summary);
        let tt = trim_spec(t);
        let head = push_limited_spec(seq![], ts, limit);
        if ts.len() > 0 && ts.len() <= limit {
            assert(head =~= ts);
        }
        if ts.len() == 0 {
            assert(head =~= Seq::<char>::empty());
            if tt.len() > 0 && tt.len() <= limit {
                assert(push_limited_spec(head, tt, limit) =~= tt);
            }
        }
        if ts.len() > 0 && tt.len() > 0 && ts.len() + 1 < limit && ts.len() + 1 + tt.len() > limit {
            let o = ts.push(' ');
            let remaining = (limit - o.len()) as nat;
            let cut = o + tt.take(remaining as int);
            assert(cut.drop_last() =~= ts + seq![' '] + tt.take(limit - ts.len() - 2));
        }
        if ts.len() > 0 && tt.len() > 0 && ts.len() + 1 + tt.len() <= limit {
            assert(ts.push(' ') + tt =~= ts + seq![' '] + tt);
        }
    }
}

/// The path a file is reached by: its local copy, else its source.
pub open spec fn file_path_text(f: FileView) -> Option<Seq<char>> {
    match f.local_path {
        Some(p) => Some(p),
        None => f.source_path,
    }
}

/// The paths of the files that have one, in order.
pub open spec fn reachable_paths(fs: Seq<FileView>) -> Seq<Seq<char>>
    decreases fs.len(),
{
    if fs.len() == 0 {
        seq![]
    } else {
        match file_path_text(fs.last()) {
            Some(p) => reachable_paths(fs.drop_last()).push(p),
            None => reachable_paths(fs.drop_last()),
        }
    }
}

/// Lines joined with newlines.
pub open spec fn join_lines(ps: Seq<Seq<char>>) -> Seq<char>
    decreases ps.len(),
{
    if ps.len() == 0 {
        seq![]
    } else if ps.len() == 1 {
        ps[0]
    } else {
        join_lines(ps.drop_last()) + seq!['\n'] + ps.last()
    }
}

/// The text an item puts on the clipboard: its text, or the paths of its
/// files one per line.
pub open spec fn clipboard_text_spec(item: ItemView) -> Seq<char> {
    match item.payload {
        PayloadView::Text(t) => t,
        PayloadView::Files(fs) => join_lines(reachable_paths(fs)),
    }
}

impl ClipboardItem {
    /// The text the item puts on the clipboard.
    pub fn as_clipboard_text(&self) -> (r: String)
        ensures
            r@ == clipboard_text_spec(self@),
    {
        match &self.payload {
            ClipboardPayload::Text(text) => text.clone(),
            ClipboardPayload::Files(files) => {
                let ghost fv = file_views(files@);
                let mut out: Vec<char> = Vec::new();
                let mut count: usize = 0;
                let mut i: usize = 0;
                while i < files.len()
                    invariant
                        i <= files.len(),
                        fv == file_views(files@),
                        count == reachable_paths(fv.take(i as int)).len(),
                        count <= i,
                        out@ == join_lines(reachable_paths(fv.take(i as int))),
                    decreases files.len() - i,
                {
                    proof {
                        assert(fv.take(i + 1).drop_last() =~= fv.take(i as int));
                        assert(fv.take(i + 1).last() == files@[i as int]@);
                    }
                    let path = match &files[i].local_path {
                        Some(p) => Some(p),
                        None => files[i].source_path.as_ref(),
                    };
                    match path {
                        Some(p) => {
                            let ghost before = reachable_paths(fv.take(i as int));
                            if count > 0 {
                                out.push('\n');
                            }
                            let pv = chars_of(p.as_str());
                            extend_chars(&mut out, pv.as_slice());
                            proof {
                                let after = before.push(p@);
                                assert(after.drop_last() =~= before);
                                if count == 0 {
                                    assert(out@ =~= after[0]);
                                } else {
                                    assert(out@ =~= join_lines(before) + seq!['\n'] + p@);
                                }
                            }
                            count = count + 1;
                        },
                        None => {},
                    }
                    i = i + 1;
                }
                proof {
                    assert(fv.take(i as int) =~= fv);
                }
                string_of(out.as_slice())
            },
        }
    }

    /// Compact text used to search the history.
    pub fn compact_search_blob(&self, max_chars: usize) -> (r: String)
        ensures
            r@ == search_blob_spec(self@, max_chars as nat),
    {
        let limit = if max_chars >= 32 { max_chars } else { 32 };
        let mut out: Vec<char> = Vec::new();
        let summary = chars_of(self.summary.as_str());
        let ts = trim_chars(summary.as_slice());
        push_limited(&mut out, ts.as_slice(), limit);
        match &self.payload {
            ClipboardPayload::Text(text) => {
                if out.len() < limit {
                    let tv = chars_of(text.as_str());
                    let tt = trim_chars(tv.as_slice());
                    push_limited(&mut out, tt.as_slice(), limit);
                }
            },
            ClipboardPayload::Files(files) => {
                let ghost head = out@;
                let mut i: usize = 0;
                while i < files.len()
                    invariant
                        i <= files.len(),
                        out@ == blob_files(head, file_views(files@).take(i as int), limit as nat),
                    decreases files.len() - i,
                {
                    proof {
                        assert(file_views(files@).take(i + 1).drop_last() =~= file_views(files@).take(i as int));
                    }
                    let pv = chars_of(files[i].relative_path.as_str());
                    let pt = trim_chars(pv.as_slice());
                    push_limited(&mut out, pt.as_slice(), limit);
                    i = i + 1;
                }
                proof {
                    assert(file_views(files@).take(i as int) =~= file_views(files@));
                }
            },
        }
        string_of(out.as_slice())
    }
}

} // verus!
