//! Request and response envelopes of the peer-to-peer transfer protocol, and
//! their validation.

use vstd::prelude::*;

use crate::error::{network_error, AppError, AppResult};
use crate::model::{
    clone_opt_string, file_views, opt_view, ClipboardItem, ClipboardKind, ClipboardPayload,
    FileDescriptor, FileView, ItemView, PayloadView,
};
use crate::text::{chars_of, decimal_spec, decimal_chars, extend_chars, extend_str, string_of, trim_spec, trim};

verus! {

/// Version identifier of the current transfer protocol.
pub const TRANSFER_PROTOCOL_VERSION: u8 = 4;

/// File metadata carried on the wire (no host-local paths).
#[derive(Debug)]
pub struct WireFile {
    pub name: String,
    pub relative_path: String,
    pub size_bytes: u64,
}

impl Clone for WireFile {
    fn clone(&self) -> (r: Self)
        ensures
            r == *self,
    {
        WireFile {
            name: self.name.clone(),
            relative_path: self.relative_path.clone(),
            size_bytes: self.size_bytes,
        }
    }
}

/// A clipboard item as carried on the wire.
#[derive(Debug)]
pub struct WireClipboardItem {
    pub id: u128,
    pub signature: String,
    pub kind: ClipboardKind,
    pub summary: String,
    pub text: Option<String>,
    pub files: Vec<WireFile>,
    pub source_device_id: Option<String>,
    pub source_device_name: Option<String>,
    pub created_at: i128,
}

/// Request variants of the transfer protocol.
#[derive(Debug)]
pub enum TransferRequestBody {
    PushClipboard { item: WireClipboardItem, include_files: bool },
    RemoveHistoryItems { item_ids: Vec<u128> },
    UpdateShareState { share_local_history: bool },
    RevokeTrust,
    FetchHistorySnapshot { limit: usize },
    FetchClipboardItem { item_id: u128 },
    FetchFiles { item_id: u128 },
}

/// Request envelope sent from a client peer.
#[derive(Debug)]
pub struct TransferRequest {
    pub protocol_version: u8,
    pub body: TransferRequestBody,
}

/// Response variants of the transfer protocol.
#[derive(Debug)]
pub enum TransferResponseBody {
    Ack,
    HistorySnapshot { items: Vec<WireClipboardItem> },
    ClipboardItem { item: WireClipboardItem, include_files: bool },
    Error { message: String },
}

/// Response envelope sent back on a request stream.
#[derive(Debug)]
pub struct TransferResponse {
    pub protocol_version: u8,
    pub body: TransferResponseBody,
}

/// The wire form of one file descriptor.
pub open spec fn wire_file_matches(w: WireFile, f: FileDescriptor) -> bool {
    w.name@ == f.name@ && w.relative_path@ == f.relative_path@ && w.size_bytes == f.size_bytes
}

/// `w` is the wire form of `item`: host paths dropped, text inline.
pub open spec fn wire_item_matches(w: WireClipboardItem, item: ClipboardItem) -> bool {
    &&& w.id == item.id
    &&& w.signature@ == item.signature@
    &&& w.kind == item.kind
    &&& w.summary@ == item.summary@
    &&& opt_view(w.source_device_id) == opt_view(item.source_device_id)
    &&& opt_view(w.source_device_name) == opt_view(item.source_device_name)
    &&& w.created_at == item.created_at
    &&& match item.payload {
        ClipboardPayload::Text(t) => opt_view(w.text) == Some(t@) && w.files@.len() == 0,
        ClipboardPayload::Files(fs) => {
            &&& w.text is None
            &&& w.files@.len() == fs@.len()
            &&& forall|i: int| 0 <= i < fs@.len() ==> wire_file_matches(#[trigger] w.files@[i], fs@[i])
        },
    }
}

/// The first problem `validate` reports for a wire item, if any.
pub open spec fn wire_item_problem(w: WireClipboardItem, include_files: bool) -> Option<Seq<char>> {
    match w.kind {
        ClipboardKind::Text => {
            if w.text is None {
                Some("Text clipboard payload is missing inline text."@)
            } else if w.files@.len() != 0 {
                Some("Text clipboard payload cannot contain file descriptors."@)
            } else if include_files {
                Some("Text clipboard payload cannot include streamed file bytes."@)
            } else {
                None
            }
        },
        ClipboardKind::Files => {
            if w.text is Some {
                Some("File clipboard payload cannot contain inline text."@)
            } else if w.files@.len() == 0 {
                Some("File clipboard payload is missing file descriptors."@)
            } else {
                None
            }
        },
    }
}

/// Message rejecting a protocol version.
pub open spec fn version_problem(v: u8) -> Option<Seq<char>> {
    if v != TRANSFER_PROTOCOL_VERSION {
        Some("Unsupported transfer protocol version "@ + decimal_spec(v as nat) + "."@)
    } else {
        None
    }
}

/// A result that is `Ok` exactly when there is no problem, and otherwise a
/// network error carrying the problem's message.
pub open spec fn reports(r: AppResult<()>, problem: Option<Seq<char>>) -> bool {
    match r {
        Ok(_) => problem is None,
        Err(e) => problem is Some && e.is_network(problem.unwrap()),
    }
}

/// The descriptor a wire file becomes on arrival, with an optional local copy.
pub open spec fn received_file(w: WireFile, local: Option<Seq<char>>) -> FileView {
    FileView {
        name: w.name@,
        relative_path: w.relative_path@,
        size_bytes: w.size_bytes,
        source_path: None,
        local_path: local,
    }
}

/// The item a wire item becomes on arrival, with the given payload.
pub open spec fn arrived_item(w: WireClipboardItem, payload: PayloadView) -> ItemView {
    ItemView {
        id: w.id,
        kind: w.kind,
        summary: w.summary@,
        signature: w.signature@,
        payload,
        source_device_id: opt_view(w.source_device_id),
        source_device_name: opt_view(w.source_device_name),
        created_at: w.created_at,
        is_remote: true,
        is_pinned: false,
    }
}

/// The metadata-only payload of a wire item.
pub open spec fn metadata_payload(w: WireClipboardItem) -> PayloadView {
    match w.kind {
        ClipboardKind::Text => PayloadView::Text(
            match w.text {
                Some(t) => t@,
                None => Seq::empty(),
            },
        ),
        ClipboardKind::Files => PayloadView::Files(
            w.files@.map_values(|f: WireFile| received_file(f, None)),
        ),
    }
}

/// An item whose kind agrees with its payload, with at least one file when
/// it is a file item.
pub open spec fn consistent_item(item: ItemView) -> bool {
    match item.payload {
        PayloadView::Text(_) => item.kind == ClipboardKind::Text,
        PayloadView::Files(fs) => item.kind == ClipboardKind::Files && fs.len() > 0,
    }
}

/// A file as a peer learns of it: without the sender's host paths.
pub open spec fn file_without_paths(f: FileView) -> FileView {
    FileView { source_path: None, local_path: None, ..f }
}

/// An item as a peer receives its metadata: remote, unpinned, and its files
/// without the sender's host paths.
pub open spec fn as_received(item: ItemView) -> ItemView {
    ItemView {
        payload: match item.payload {
            PayloadView::Text(t) => PayloadView::Text(t),
            PayloadView::Files(fs) => PayloadView::Files(fs.map_values(|f: FileView| file_without_paths(f))),
        },
        is_remote: true,
        is_pinned: false,
        ..item
    }
}

/// The wire form of a consistent item passes validation as metadata and
/// reads back as that item, received: remote, unpinned, host paths dropped.
pub proof fn lemma_wire_metadata_roundtrip(w: WireClipboardItem, item: ClipboardItem)
    requires
        wire_item_matches(w, item),
        consistent_item(item@),
    ensures
        wire_item_problem(w, false) is None,
        arrived_item(w, metadata_payload(w)) == as_received(item@),
{
    match item.payload {
        ClipboardPayload::Text(t) => {},
        ClipboardPayload::Files(fs) => {
            let got = w.files@.map_values(|f: WireFile| received_file(f, None));
            let want = file_views(fs@).map_values(|f: FileView| file_without_paths(f));
            assert(got =~= want) by {
                assert forall|i: int| 0 <= i < got.len() implies got[i] == want[i] by {
                    assert(wire_file_matches(w.files@[i], fs@[i]));
                }
            }
        },
    }
}

/// Message rejecting a mismatch between advertised and received files.
pub open spec fn file_count_problem(expected: nat, received: nat) -> Seq<char> {
    "File clipboard payload expected "@ + decimal_spec(expected) + " files, received "@
        + decimal_spec(received) + " files."@
}

/// Outcome of pairing a validated wire item with the files written locally.
pub open spec fn local_files_outcome(w: WireClipboardItem, local: Seq<String>) -> Result<
    PayloadView,
    Seq<char>,
> {
    match w.kind {
        ClipboardKind::Text => {
            if local.len() != 0 {
                Err("Text clipboard payload unexpectedly produced local files."@)
            } else {
                Ok(
                    PayloadView::Text(
                        match w.text {
                            Some(t) => t@,
                            None => Seq::empty(),
                        },
                    ),
                )
            }
        },
        ClipboardKind::Files => {
            if w.files@.len() != local.len() {
                Err(file_count_problem(w.files@.len(), local.len()))
            } else {
                Ok(
                    PayloadView::Files(
                        Seq::new(
                            w.files@.len(),
                            |i: int| received_file(w.files@[i], Some(local[i]@)),
                        ),
                    ),
                )
            }
        },
    }
}

/// Checks the protocol version of an envelope.
pub fn validate_protocol_version(protocol_version: u8) -> (r: AppResult<()>)
    ensures
        reports(r, version_problem(protocol_version)),
{
    if protocol_version != TRANSFER_PROTOCOL_VERSION {
        let mut msg = chars_of("Unsupported transfer protocol version ");
        let digits = decimal_chars(protocol_version as u64);
        extend_chars(&mut msg, digits.as_slice());
        extend_str(&mut msg, ".");
        return Err(AppError::Network(string_of(msg.as_slice())));
    }
    Ok(())
}

impl WireFile {
    /// The wire form of a local file descriptor.
    pub fn from_descriptor(f: &FileDescriptor) -> (r: WireFile)
        ensures
            wire_file_matches(r, *f),
    {
        WireFile { name: f.name.clone(), relative_path: f.relative_path.clone(), size_bytes: f.size_bytes }
    }
}

impl WireClipboardItem {
    /// The wire form of a clipboard item.
    pub fn from_item(item: &ClipboardItem) -> (r: WireClipboardItem)
        ensures
            wire_item_matches(r, *item),
    {
        let (text, files) = match &item.payload {
            ClipboardPayload::Text(text) => (Some(text.clone()), Vec::new()),
            ClipboardPayload::Files(fs) => {
                let mut out: Vec<WireFile> = Vec::new();
                let mut i: usize = 0;
                while i < fs.len()
                    invariant
                        i <= fs.len(),
                        out@.len() == i,
                        forall|k: int| 0 <= k < i ==> wire_file_matches(#[trigger] out@[k], fs@[k]),
                    decreases fs.len() - i,
                {
                    out.push(WireFile::from_descriptor(&fs[i]));
                    i = i + 1;
                }
                (None, out)
            },
        };
        WireClipboardItem {
            id: item.id,
            signature: item.signature.clone(),
            kind: item.kind.clone(),
            summary: item.summary.clone(),
            text,
            files,
            source_device_id: clone_opt_string(&item.source_device_id),
            source_device_name: clone_opt_string(&item.source_device_name),
            created_at: item.created_at,
        }
    }

    /// Checks that the payload fields agree with the declared kind.
    pub fn validate(&self, include_files: bool) -> (r: AppResult<()>)
        ensures
            reports(r, wire_item_problem(*self, include_files)),
    {
        match self.kind {
            ClipboardKind::Text => {
                if self.text.is_none() {
                    return Err(network_error("Text clipboard payload is missing inline text."));
                }
                if self.files.len() != 0 {
                    return Err(
                        network_error("Text clipboard payload cannot contain file descriptors."),
                    );
                }
                if include_files {
                    return Err(
                        network_error("Text clipboard payload cannot include streamed file bytes."),
                    );
                }
            },
            ClipboardKind::Files => {
                if self.text.is_some() {
                    return Err(network_error("File clipboard payload cannot contain inline text."));
                }
                if self.files.len() == 0 {
                    return Err(network_error("File clipboard payload is missing file descriptors."));
                }
            },
        }
        Ok(())
    }

    /// Turns a wire item into a remote history item that carries only metadata.
    pub fn into_metadata_item(self) -> (r: AppResult<ClipboardItem>)
        ensures
            match r {
                Ok(item) => wire_item_problem(self, false) is None && item@ == arrived_item(
                    self,
                    metadata_payload(self),
                ),
                Err(e) => wire_item_problem(self, false) is Some && e.is_network(
                    wire_item_problem(self, false).unwrap(),
                ),
            },
    {
        let checked = self.validate(false);
        match checked {
            Err(e) => { return Err(e); },
            Ok(_) => {},
        }
        let ghost w = self;
        let WireClipboardItem {
            id,
            signature,
            kind,
            summary,
            text,
            files,
            source_device_id,
            source_device_name,
            created_at,
        } = self;
        let payload = match kind {
            ClipboardKind::Text => ClipboardPayload::Text(
                match text {
                    Some(t) => t,
                    None => String::new(),
                },
            ),
            ClipboardKind::Files => {
                let mut out: Vec<FileDescriptor> = Vec::new();
                let mut i: usize = 0;
                while i < files.len()
                    invariant
                        i <= files.len(),
                        files == w.files,
                        out@.len() == i,
                        forall|k: int|
                            0 <= k < i ==> (#[trigger] out@[k])@ == received_file(files@[k], None),
                    decreases files.len() - i,
                {
                    let f = &files[i];
                    out.push(
                        FileDescriptor {
                            name: f.name.clone(),
                            relative_path: f.relative_path.clone(),
                            size_bytes: f.size_bytes,
                            source_path: None,
                            local_path: None,
                        },
                    );
                    i = i + 1;
                }
                proof {
                    assert(file_views(out@) =~= w.files@.map_values(
                        |f: WireFile| received_file(f, None),
                    ));
                }
                ClipboardPayload::Files(out)
            },
        };
        Ok(
            ClipboardItem {
                id,
                kind,
                summary,
                signature,
                payload,
                source_device_id,
                source_device_name,
                created_at,
                is_remote: true,
                is_pinned: false,
            },
        )
    }

    /// Turns a wire item whose file bytes were received into a clipboard item
    /// that points at the local copies, one per advertised file, in order.
    pub fn into_item_with_local_files(self, local_files: Vec<String>) -> (r: AppResult<
        ClipboardItem,
    >)
        ensures
            match r {
                Ok(item) => {
                    &&& wire_item_problem(self, true) is None
                    &&& local_files_outcome(self, local_files@) matches Ok(p)
                    &&& item@ == arrived_item(self, p)
                },
                Err(e) => match wire_item_problem(self, true) {
                    Some(m) => e.is_network(m),
                    None => local_files_outcome(self, local_files@) matches Err(m) && e.is_network(m),
                },
            },
    {
        let checked = self.validate(true);
        match checked {
            Err(e) => { return Err(e); },
            Ok(_) => {},
        }
        let ghost w = self;
        let WireClipboardItem {
            id,
            signature,
            kind,
            summary,
            text,
            files,
            source_device_id,
            source_device_name,
            created_at,
        } = self;
        let payload = match kind {
            ClipboardKind::Text => {
                if local_files.len() != 0 {
                    return Err(
                        network_error("Text clipboard payload unexpectedly produced local files."),
                    );
                }
                ClipboardPayload::Text(
                    match text {
                        Some(t) => t,
                        None => String::new(),
                    },
                )
            },
            ClipboardKind::Files => {
                if files.len() != local_files.len() {
                    let mut msg = chars_of("File clipboard payload expected ");
                    let a = decimal_chars(files.len() as u64);
                    extend_chars(&mut msg, a.as_slice());
                    extend_str(&mut msg, " files, received ");
                    let b = decimal_chars(local_files.len() as u64);
                    extend_chars(&mut msg, b.as_slice());
                    extend_str(&mut msg, " files.");
                    return Err(AppError::Network(string_of(msg.as_slice())));
                }
                let mut out: Vec<FileDescriptor> = Vec::new();
                let mut i: usize = 0;
                while i < files.len()
                    invariant
                        i <= files.len(),
                        files.len() == local_files.len(),
                        files == w.files,
                        out@.len() == i,
                        forall|k: int|
                            0 <= k < i ==> (#[trigger] out@[k])@ == received_file(
                                files@[k],
                                Some(local_files@[k]@),
                            ),
                    decreases files.len() - i,
                {
                    let f = &files[i];
                    out.push(
                        FileDescriptor {
                            name: f.name.clone(),
                            relative_path: f.relative_path.clone(),
                            size_bytes: f.size_bytes,
                            source_path: None,
                            local_path: Some(local_files[i].clone()),
                        },
                    );
                    i = i + 1;
                }
                proof {
                    assert(file_views(out@) =~= Seq::new(
                        w.files@.len(),
                        |k: int| received_file(w.files@[k], Some(local_files@[k]@)),
                    ));
                }
                ClipboardPayload::Files(out)
            },
        };
        Ok(
            ClipboardItem {
                id,
                kind,
                summary,
                signature,
                payload,
                source_device_id,
                source_device_name,
                created_at,
                is_remote: true,
                is_pinned: false,
            },
        )
    }
}

/// The first problem `TransferRequest::validate` reports, if any.
pub open spec fn request_problem(r: TransferRequest) -> Option<Seq<char>> {
    if r.protocol_version != TRANSFER_PROTOCOL_VERSION {
        version_problem(r.protocol_version)
    } else {
        match r.body {
            TransferRequestBody::PushClipboard { item, include_files } => wire_item_problem(
                item,
                include_files,
            ),
            TransferRequestBody::RemoveHistoryItems { item_ids } => {
                if item_ids@.len() == 0 {
                    Some("History removal request must include at least one item id."@)
                } else {
                    None
                }
            },
            TransferRequestBody::FetchHistorySnapshot { limit } => {
                if limit == 0 {
                    Some("History snapshot request limit must be greater than zero."@)
                } else {
                    None
                }
            },
            _ => None,
        }
    }
}

/// The first problem `TransferResponse::validate` reports, if any.
pub open spec fn response_problem(r: TransferResponse) -> Option<Seq<char>> {
    if r.protocol_version != TRANSFER_PROTOCOL_VERSION {
        version_problem(r.protocol_version)
    } else {
        match r.body {
            TransferResponseBody::Ack => None,
            TransferResponseBody::HistorySnapshot { items } => first_snapshot_problem(items@),
            TransferResponseBody::ClipboardItem { item, include_files } => wire_item_problem(
                item,
                include_files,
            ),
            TransferResponseBody::Error { message } => {
                if trim_spec(message@).len() == 0 {
                    Some("Transfer error response cannot be empty."@)
                } else {
                    None
                }
            },
        }
    }
}

/// The problem of the first invalid item of a history snapshot.
pub open spec fn first_snapshot_problem(items: Seq<WireClipboardItem>) -> Option<Seq<char>>
    decreases items.len(),
{
    if items.len() == 0 {
        None
    } else {
        match wire_item_problem(items[0], false) {
            Some(m) => Some(m),
            None => first_snapshot_problem(items.drop_first()),
        }
    }
}

impl TransferRequest {
    /// Live broadcast of a clipboard item; file bytes are fetched on demand later.
    pub fn push_clipboard(item: &ClipboardItem) -> (r: TransferRequest)
        ensures
            r.protocol_version == TRANSFER_PROTOCOL_VERSION,
            r.body matches TransferRequestBody::PushClipboard { item: w, include_files } && !include_files
                && wire_item_matches(w, *item),
    {
        TransferRequest {
            protocol_version: TRANSFER_PROTOCOL_VERSION,
            body: TransferRequestBody::PushClipboard {
                item: WireClipboardItem::from_item(item),
                include_files: false,
            },
        }
    }

    /// Asks for a history snapshot of at most `limit` items (at least one).
    pub fn fetch_history_snapshot(limit: usize) -> (r: TransferRequest)
        ensures
            r.protocol_version == TRANSFER_PROTOCOL_VERSION,
            r.body == (TransferRequestBody::FetchHistorySnapshot {
                limit: if limit >= 1 { limit } else { 1 },
            }),
    {
        TransferRequest {
            protocol_version: TRANSFER_PROTOCOL_VERSION,
            body: TransferRequestBody::FetchHistorySnapshot {
                limit: if limit >= 1 { limit } else { 1 },
            },
        }
    }

    /// Tells the peer that this device no longer trusts it.
    pub fn revoke_trust() -> (r: TransferRequest)
        ensures
            r.protocol_version == TRANSFER_PROTOCOL_VERSION,
            r.body == TransferRequestBody::RevokeTrust,
    {
        TransferRequest {
            protocol_version: TRANSFER_PROTOCOL_VERSION,
            body: TransferRequestBody::RevokeTrust,
        }
    }

    /// Announces the removal of history items.
    pub fn remove_history_items(item_ids: &[u128]) -> (r: TransferRequest)
        ensures
            r.protocol_version == TRANSFER_PROTOCOL_VERSION,
            r.body matches TransferRequestBody::RemoveHistoryItems { item_ids: ids } && ids@
                == item_ids@,
    {
        TransferRequest {
            protocol_version: TRANSFER_PROTOCOL_VERSION,
            body: TransferRequestBody::RemoveHistoryItems {
                item_ids: vstd::slice::slice_to_vec(item_ids),
            },
        }
    }

    /// Announces whether this device shares its history.
    pub fn update_share_state(share_local_history: bool) -> (r: TransferRequest)
        ensures
            r.protocol_version == TRANSFER_PROTOCOL_VERSION,
            r.body == (TransferRequestBody::UpdateShareState { share_local_history }),
    {
        TransferRequest {
            protocol_version: TRANSFER_PROTOCOL_VERSION,
            body: TransferRequestBody::UpdateShareState { share_local_history },
        }
    }

    /// Asks for the files of a history item.
    pub fn fetch_files(item_id: u128) -> (r: TransferRequest)
        ensures
            r.protocol_version == TRANSFER_PROTOCOL_VERSION,
            r.body == (TransferRequestBody::FetchFiles { item_id }),
    {
        TransferRequest {
            protocol_version: TRANSFER_PROTOCOL_VERSION,
            body: TransferRequestBody::FetchFiles { item_id },
        }
    }

    /// Asks for the full content of a history item.
    pub fn fetch_clipboard_item(item_id: u128) -> (r: TransferRequest)
        ensures
            r.protocol_version == TRANSFER_PROTOCOL_VERSION,
            r.body == (TransferRequestBody::FetchClipboardItem { item_id }),
    {
        TransferRequest {
            protocol_version: TRANSFER_PROTOCOL_VERSION,
            body: TransferRequestBody::FetchClipboardItem { item_id },
        }
    }

    /// Checks a received request.
    pub fn validate(&self) -> (r: AppResult<()>)
        ensures
            reports(r, request_problem(*self)),
    {
        let v = validate_protocol_version(self.protocol_version);
        match v {
            Err(e) => { return Err(e); },
            Ok(_) => {},
        }
        match &self.body {
            TransferRequestBody::PushClipboard { item, include_files } => item.validate(
                *include_files,
            ),
            TransferRequestBody::RemoveHistoryItems { item_ids } => {
                if item_ids.len() == 0 {
                    return Err(
                        network_error("History removal request must include at least one item id."),
                    );
                }
                Ok(())
            },
            TransferRequestBody::FetchHistorySnapshot { limit } => {
                if *limit == 0 {
                    return Err(
                        network_error("History snapshot request limit must be greater than zero."),
                    );
                }
                Ok(())
            },
            _ => Ok(()),
        }
    }
}

impl TransferResponse {
    /// Plain acknowledgement.
    pub fn ack() -> (r: TransferResponse)
        ensures
            r.protocol_version == TRANSFER_PROTOCOL_VERSION,
            r.body == TransferResponseBody::Ack,
    {
        TransferResponse { protocol_version: TRANSFER_PROTOCOL_VERSION, body: TransferResponseBody::Ack }
    }

    /// A history snapshot made of the wire forms of `items`, in order.
    pub fn history_snapshot(items: &[ClipboardItem]) -> (r: TransferResponse)
        ensures
            r.protocol_version == TRANSFER_PROTOCOL_VERSION,
            r.body matches TransferResponseBody::HistorySnapshot { items: ws } && ws@.len()
                == items@.len() && forall|i: int|
                0 <= i < items@.len() ==> wire_item_matches(#[trigger] ws@[i], items@[i]),
    {
        let mut out: Vec<WireClipboardItem> = Vec::new();
        let mut i: usize = 0;
        while i < items.len()
            invariant
                i <= items.len(),
                out@.len() == i,
                forall|k: int| 0 <= k < i ==> wire_item_matches(#[trigger] out@[k], items@[k]),
            decreases items.len() - i,
        {
            out.push(WireClipboardItem::from_item(&items[i]));
            i = i + 1;
        }
        TransferResponse {
            protocol_version: TRANSFER_PROTOCOL_VERSION,
            body: TransferResponseBody::HistorySnapshot { items: out },
        }
    }

    /// One clipboard item, optionally followed on the stream by its file bytes.
    pub fn clipboard_item(item: &ClipboardItem, include_files: bool) -> (r: TransferResponse)
        ensures
            r.protocol_version == TRANSFER_PROTOCOL_VERSION,
            r.body matches TransferResponseBody::ClipboardItem { item: w, include_files: f } && f
                == include_files && wire_item_matches(w, *item),
    {
        TransferResponse {
            protocol_version: TRANSFER_PROTOCOL_VERSION,
            body: TransferResponseBody::ClipboardItem {
                item: WireClipboardItem::from_item(item),
                include_files,
            },
        }
    }

    /// An error reply.
    pub fn error(message: String) -> (r: TransferResponse)
        ensures
            r.protocol_version == TRANSFER_PROTOCOL_VERSION,
            r.body == (TransferResponseBody::Error { message }),
    {
        TransferResponse {
            protocol_version: TRANSFER_PROTOCOL_VERSION,
            body: TransferResponseBody::Error { message },
        }
    }

    /// Checks a received response.
    #[verifier::loop_isolation(false)]
    pub fn validate(&self) -> (r: AppResult<()>)
        ensures
            reports(r, response_problem(*self)),
    {
        let v = validate_protocol_version(self.protocol_version);
        match v {
            Err(e) => { return Err(e); },
            Ok(_) => {},
        }
        match &self.body {
            TransferResponseBody::Ack => Ok(()),
            TransferResponseBody::HistorySnapshot { items } => {
                let mut i: usize = 0;
                proof {
                    assert(items@.skip(0) =~= items@);
                }
                while i < items.len()
                    invariant
                        i <= items.len(),
                        first_snapshot_problem(items@) == first_snapshot_problem(
                            items@.skip(i as int),
                        ),
                    decreases items.len() - i,
                {
                    proof {
                        assert(items@.skip(i as int).drop_first() =~= items@.skip(i + 1));
                        assert(items@.skip(i as int)[0] == items@[i as int]);
                    }
                    let c = items[i].validate(false);
                    match c {
                        Err(e) => {
                            proof {
                                assert(first_snapshot_problem(items@.skip(i as int))
                                    == wire_item_problem(items@[i as int], false));
                            }
                            return Err(e);
                        },
                        Ok(_) => {},
                    }
                    i = i + 1;
                }
                proof {
                    assert(items@.skip(i as int).len() == 0);
                }
                Ok(())
            },
            TransferResponseBody::ClipboardItem { item, include_files } => item.validate(
                *include_files,
            ),
            TransferResponseBody::Error { message } => {
                let t = trim(message.as_str());
                if t.as_str().is_empty() {
                    return Err(network_error("Transfer error response cannot be empty."));
                }
                Ok(())
            },
        }
    }
}

} // verus!
