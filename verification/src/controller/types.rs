//! Records the controller keeps and hands to the user interface.

use vstd::prelude::*;

use crate::model::{opt_view, ClipboardKind};

verus! {

/// What changed during one controller step.
#[derive(Debug, Default, Clone, Copy)]
pub struct TickOutcome {
    pub history_changed: bool,
    pub devices_changed: bool,
    pub status_changed: bool,
    pub transfer_changed: bool,
    pub paste_requested: bool,
}

impl TickOutcome {
    /// Whether the preferences window needs a refresh.
    pub fn preferences_changed(self) -> (r: bool)
        ensures
            r == (self.devices_changed || self.status_changed),
    {
        self.devices_changed || self.status_changed
    }

    /// Accumulates another outcome into this one (field-wise or).
    pub fn merge(&mut self, other: TickOutcome)
        ensures
            final(self).history_changed == (old(self).history_changed || other.history_changed),
            final(self).devices_changed == (old(self).devices_changed || other.devices_changed),
            final(self).status_changed == (old(self).status_changed || other.status_changed),
            final(self).transfer_changed == (old(self).transfer_changed || other.transfer_changed),
            final(self).paste_requested == (old(self).paste_requested || other.paste_requested),
    {
        self.history_changed = self.history_changed || other.history_changed;
        self.devices_changed = self.devices_changed || other.devices_changed;
        self.status_changed = self.status_changed || other.status_changed;
        self.transfer_changed = self.transfer_changed || other.transfer_changed;
        self.paste_requested = self.paste_requested || other.paste_requested;
    }

    /// Nothing changed.
    pub fn none() -> (r: TickOutcome)
        ensures
            !r.history_changed && !r.devices_changed && !r.status_changed && !r.transfer_changed
                && !r.paste_requested,
    {
        TickOutcome {
            history_changed: false,
            devices_changed: false,
            status_changed: false,
            transfer_changed: false,
            paste_requested: false,
        }
    }
}

/// One history entry as the controller caches it.
#[derive(Debug)]
pub struct HistoryEntry {
    pub id: u128,
    pub kind: ClipboardKind,
    pub created_at: i128,
    pub source_device_id: Option<String>,
    pub source_badge: String,
    pub source_tooltip: String,
    pub summary_text: String,
    pub detail_tooltip: String,
    pub search_blob: String,
    pub is_remote: bool,
    pub is_pinned: bool,
}

/// Abstract value of a history entry.
pub ghost struct EntryView {
    pub id: u128,
    pub kind: ClipboardKind,
    pub created_at: i128,
    pub source_device_id: Option<Seq<char>>,
    pub source_badge: Seq<char>,
    pub source_tooltip: Seq<char>,
    pub summary_text: Seq<char>,
    pub detail_tooltip: Seq<char>,
    pub search_blob: Seq<char>,
    pub is_remote: bool,
    pub is_pinned: bool,
}

impl View for HistoryEntry {
    type V = EntryView;

    open spec fn view(&self) -> EntryView {
        EntryView {
            id: self.id,
            kind: self.kind,
            created_at: self.created_at,
            source_device_id: opt_view(self.source_device_id),
            source_badge: self.source_badge@,
            source_tooltip: self.source_tooltip@,
            summary_text: self.summary_text@,
            detail_tooltip: self.detail_tooltip@,
            search_blob: self.search_blob@,
            is_remote: self.is_remote,
            is_pinned: self.is_pinned,
        }
    }
}

impl Clone for HistoryEntry {
    fn clone(&self) -> (r: Self)
        ensures
            r == *self,
    {
        HistoryEntry {
            id: self.id,
            kind: self.kind.clone(),
            created_at: self.created_at,
            source_device_id: crate::model::clone_opt_string(&self.source_device_id),
            source_badge: self.source_badge.clone(),
            source_tooltip: self.source_tooltip.clone(),
            summary_text: self.summary_text.clone(),
            detail_tooltip: self.detail_tooltip.clone(),
            search_blob: self.search_blob.clone(),
            is_remote: self.is_remote,
            is_pinned: self.is_pinned,
        }
    }
}

/// Abstract values of a sequence of history entries.
pub open spec fn entry_views(es: Seq<HistoryEntry>) -> Seq<EntryView> {
    es.map_values(|e: HistoryEntry| e@)
}

/// One row of the history list shown to the user.
#[derive(Debug)]
pub struct HistoryRow {
    pub id: u128,
    pub kind: String,
    pub source_badge: String,
    pub source_tooltip: String,
    pub summary_text: String,
    pub detail_tooltip: String,
    pub is_remote: bool,
    pub is_pinned: bool,
}

/// Scope of the history list: everything, this device, or one remote device.
#[derive(Debug, PartialEq, Eq)]
pub enum HistoryScope {
    All,
    Local,
    Device(String),
}

/// Connection and trust state of a device row.
#[derive(Debug, Clone, Copy, PartialEq, Eq, Structural)]
pub enum DeviceStatusKind {
    ConnectedTrusted,
    TrustedStandby,
    Offline,
    Untrusted,
}

/// One device row of the preferences window.
#[derive(Debug, PartialEq, Eq)]
pub struct SettingsDeviceEntry {
    pub device_id: String,
    pub device_name: String,
    pub secondary_text: String,
    pub status_kind: DeviceStatusKind,
    pub is_online: bool,
    pub is_trusted: bool,
    pub status_tooltip: String,
}

/// Abstract value of a device row.
pub ghost struct DeviceEntryView {
    pub device_id: Seq<char>,
    pub device_name: Seq<char>,
    pub secondary_text: Seq<char>,
    pub status_kind: DeviceStatusKind,
    pub is_online: bool,
    pub is_trusted: bool,
    pub status_tooltip: Seq<char>,
}

impl View for SettingsDeviceEntry {
    type V = DeviceEntryView;

    open spec fn view(&self) -> DeviceEntryView {
        DeviceEntryView {
            device_id: self.device_id@,
            device_name: self.device_name@,
            secondary_text: self.secondary_text@,
            status_kind: self.status_kind,
            is_online: self.is_online,
            is_trusted: self.is_trusted,
            status_tooltip: self.status_tooltip@,
        }
    }
}

impl Clone for SettingsDeviceEntry {
    fn clone(&self) -> (r: Self)
        ensures
            r == *self,
    {
        SettingsDeviceEntry {
            device_id: self.device_id.clone(),
            device_name: self.device_name.clone(),
            secondary_text: self.secondary_text.clone(),
            status_kind: self.status_kind,
            is_online: self.is_online,
            is_trusted: self.is_trusted,
            status_tooltip: self.status_tooltip.clone(),
        }
    }
}

/// Abstract values of a sequence of device rows.
pub open spec fn device_views(es: Seq<SettingsDeviceEntry>) -> Seq<DeviceEntryView> {
    es.map_values(|e: SettingsDeviceEntry| e@)
}

/// Preferences as the user edits them.
#[derive(Debug, PartialEq, Eq)]
pub struct SettingsUpdate {
    pub device_name: String,
    pub history_limit: usize,
    pub hotkey: String,
    pub launch_at_login: bool,
    pub share_local_history: bool,
    pub prefer_remote_latest_on_paste: bool,
    pub discovery_enabled: bool,
}

/// Everything the preferences window shows.
#[derive(Debug)]
pub struct SettingsSnapshot {
    pub device_name: String,
    pub history_limit: usize,
    pub hotkey: String,
    pub launch_at_login: bool,
    pub share_local_history: bool,
    pub prefer_remote_latest_on_paste: bool,
    pub discovery_enabled: bool,
    pub devices: Vec<SettingsDeviceEntry>,
    pub status: Option<String>,
}

/// One choice of the history scope menu.
#[derive(Debug, PartialEq, Eq)]
pub struct HistoryScopeOption {
    pub key: String,
    pub label: String,
}

/// Abstract value of a scope menu choice.
pub ghost struct ScopeOptionView {
    pub key: Seq<char>,
    pub label: Seq<char>,
}

impl View for HistoryScopeOption {
    type V = ScopeOptionView;

    open spec fn view(&self) -> ScopeOptionView {
        ScopeOptionView { key: self.key@, label: self.label@ }
    }
}

/// Abstract values of a sequence of scope menu choices.
pub open spec fn option_views(s: Seq<HistoryScopeOption>) -> Seq<ScopeOptionView> {
    s.map_values(|o: HistoryScopeOption| o@)
}

/// A trust request from another device awaiting the user's answer.
#[derive(Debug, PartialEq, Eq)]
pub struct PendingTrustRequest {
    pub request_id: u128,
    pub device_id: String,
    pub device_name: String,
    pub secondary_text: String,
    pub fingerprint: String,
}

/// Abstract value of a pending trust request.
pub ghost struct PendingTrustView {
    pub request_id: u128,
    pub device_id: Seq<char>,
    pub device_name: Seq<char>,
    pub secondary_text: Seq<char>,
    pub fingerprint: Seq<char>,
}

impl View for PendingTrustRequest {
    type V = PendingTrustView;

    open spec fn view(&self) -> PendingTrustView {
        PendingTrustView {
            request_id: self.request_id,
            device_id: self.device_id@,
            device_name: self.device_name@,
            secondary_text: self.secondary_text@,
            fingerprint: self.fingerprint@,
        }
    }
}

/// Abstract values of a sequence of pending trust requests.
pub open spec fn pending_views(s: Seq<PendingTrustRequest>) -> Seq<PendingTrustView> {
    s.map_values(|r: PendingTrustRequest| r@)
}

/// What activating a history item led to.
#[derive(Debug, Clone, Copy, PartialEq, Eq)]
pub enum HistoryActivation {
    Noop,
    ClipboardReady,
    PendingTransfer,
}

/// State of the file download in progress.
#[derive(Debug)]
pub struct ActiveTransferState {
    pub item_id: u128,
    pub source_device_name: String,
    pub summary: String,
    pub bytes_done: u64,
    pub bytes_total: u64,
}

} // verus!
