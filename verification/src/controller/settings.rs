//! Preferences: what the window shows, how an edit is cleaned up and checked,
//! the settings it leads to, and the status reported after saving.

use vstd::prelude::*;

use crate::config::{clone_peers, AppConfig, DEFAULT_HISTORY_POPUP_HOTKEY};
use crate::constants::MAX_HISTORY_LIMIT;
use crate::controller::devices::{device_entries, device_listing, listed_rows};
use crate::controller::types::{device_views, SettingsSnapshot, SettingsUpdate};
use crate::error::{invalid_config_error, AppError};
use crate::model::{peer_views, DiscoveredPeer};
use crate::text::{chars_of, char_is_control, extend_str, is_cc, string_of, trim, trim_spec};

verus! {

/// The hotkey in force: the configured one, or the default when it is blank.
pub open spec fn hotkey_spec(configured: Seq<char>) -> Seq<char> {
    if trim_spec(configured).len() == 0 {
        DEFAULT_HISTORY_POPUP_HOTKEY@
    } else {
        configured
    }
}

/// The history popup hotkey in force.
pub fn hotkey(config: &AppConfig) -> (r: &str)
    ensures
        r@ == hotkey_spec(config.hotkey@),
{
    let t = trim(config.hotkey.as_str());
    if t.as_str().is_empty() {
        DEFAULT_HISTORY_POPUP_HOTKEY
    } else {
        config.hotkey.as_str()
    }
}

/// The preferences as currently configured.
pub fn current_settings_update(config: &AppConfig) -> (r: SettingsUpdate)
    ensures
        r.device_name@ == config.device_name@,
        r.history_limit == config.history_limit,
        r.hotkey@ == hotkey_spec(config.hotkey@),
        r.launch_at_login == config.launch_at_login,
        r.share_local_history == config.share_local_history,
        r.prefer_remote_latest_on_paste == config.prefer_remote_latest_on_paste,
        r.discovery_enabled == config.discovery_enabled,
{
    SettingsUpdate {
        device_name: config.device_name.clone(),
        history_limit: config.history_limit,
        hotkey: hotkey(config).to_string(),
        launch_at_login: config.launch_at_login,
        share_local_history: config.share_local_history,
        prefer_remote_latest_on_paste: config.prefer_remote_latest_on_paste,
        discovery_enabled: config.discovery_enabled,
    }
}

/// The local device id and name.
pub fn local_device_identity(config: &AppConfig) -> (r: (String, String))
    ensures
        r.0@ == config.device_id@,
        r.1@ == config.device_name@,
{
    (config.device_id.clone(), config.device_name.clone())
}

/// Everything the preferences window shows at time `now`: the current
/// preferences, the device rows and the status line.
pub fn settings_snapshot_at(
    config: &AppConfig,
    status: &Option<String>,
    discovered: &Vec<DiscoveredPeer>,
    device_last_seen: &Vec<(String, i128)>,
    remote_share_enabled: &Vec<(String, bool)>,
    now: i128,
) -> (r: SettingsSnapshot)
    ensures
        r.device_name@ == config.device_name@,
        r.history_limit == config.history_limit,
        r.hotkey@ == hotkey_spec(config.hotkey@),
        r.launch_at_login == config.launch_at_login,
        r.share_local_history == config.share_local_history,
        r.prefer_remote_latest_on_paste == config.prefer_remote_latest_on_paste,
        r.discovery_enabled == config.discovery_enabled,
        r.status == *status,
        device_listing(
            listed_rows(config.trusted_peers@, peer_views(discovered@), device_last_seen@, remote_share_enabled@, now),
            device_views(r.devices@),
        ),
{
    let current = current_settings_update(config);
    SettingsSnapshot {
        device_name: current.device_name,
        history_limit: current.history_limit,
        hotkey: current.hotkey,
        launch_at_login: current.launch_at_login,
        share_local_history: current.share_local_history,
        prefer_remote_latest_on_paste: current.prefer_remote_latest_on_paste,
        discovery_enabled: current.discovery_enabled,
        devices: device_entries(config, discovered, device_last_seen, remote_share_enabled, now),
        status: crate::model::clone_opt_string(status),
    }
}

/// Everything the preferences window shows, with device times counted from
/// the clock.
pub fn settings_snapshot(
    config: &AppConfig,
    status: &Option<String>,
    discovered: &Vec<DiscoveredPeer>,
    device_last_seen: &Vec<(String, i128)>,
    remote_share_enabled: &Vec<(String, bool)>,
) -> (r: SettingsSnapshot)
    ensures
        r.device_name@ == config.device_name@,
        r.history_limit == config.history_limit,
        r.hotkey@ == hotkey_spec(config.hotkey@),
        r.launch_at_login == config.launch_at_login,
        r.share_local_history == config.share_local_history,
        r.prefer_remote_latest_on_paste == config.prefer_remote_latest_on_paste,
        r.discovery_enabled == config.discovery_enabled,
        r.status == *status,
        exists|now: i128|
            device_listing(
                #[trigger] listed_rows(config.trusted_peers@, peer_views(discovered@), device_last_seen@, remote_share_enabled@, now),
                device_views(r.devices@),
            ),
{
    let now = crate::ids::now_unix_nanos();
    settings_snapshot_at(config, status, discovered, device_last_seen, remote_share_enabled, now)
}

/// The device name an edit leads to: the trimmed name, or the current one
/// when the edit is blank.
pub open spec fn normalized_name(current: Seq<char>, edited: Seq<char>) -> Seq<char> {
    if trim_spec(edited).len() == 0 {
        current
    } else {
        trim_spec(edited)
    }
}

/// The history limit an edit leads to, clamped to `1..=MAX_HISTORY_LIMIT`.
pub open spec fn normalized_limit(edited: usize) -> usize {
    if edited < 1 {
        1
    } else if edited > MAX_HISTORY_LIMIT {
        MAX_HISTORY_LIMIT
    } else {
        edited
    }
}

/// The hotkey an edit leads to: trimmed, or the default when blank.
pub open spec fn normalized_hotkey(edited: Seq<char>) -> Seq<char> {
    if trim_spec(edited).len() == 0 {
        DEFAULT_HISTORY_POPUP_HOTKEY@
    } else {
        trim_spec(edited)
    }
}

/// Cleans up an edit: names and hotkey trimmed, blanks replaced, the limit clamped.
pub fn normalize_settings_update(config: &AppConfig, update: SettingsUpdate) -> (r: SettingsUpdate)
    ensures
        r.device_name@ == normalized_name(config.device_name@, update.device_name@),
        r.history_limit == normalized_limit(update.history_limit),
        r.hotkey@ == normalized_hotkey(update.hotkey@),
        r.launch_at_login == update.launch_at_login,
        r.share_local_history == update.share_local_history,
        r.prefer_remote_latest_on_paste == update.prefer_remote_latest_on_paste,
        r.discovery_enabled == update.discovery_enabled,
{
    let mut update = update;
    let name = trim(update.device_name.as_str());
    update.device_name = if name.as_str().is_empty() {
        config.device_name.clone()
    } else {
        name
    };
    update.history_limit = if update.history_limit < 1 {
        1
    } else if update.history_limit > MAX_HISTORY_LIMIT {
        MAX_HISTORY_LIMIT
    } else {
        update.history_limit
    };
    let key = trim(update.hotkey.as_str());
    update.hotkey = if key.as_str().is_empty() {
        DEFAULT_HISTORY_POPUP_HOTKEY.to_string()
    } else {
        key
    };
    update
}

/// The first problem of an edit, if any.
pub open spec fn settings_problem(
    device_name: Seq<char>,
    history_limit: usize,
    hotkey: Seq<char>,
) -> Option<Seq<char>> {
    let name = trim_spec(device_name);
    if name.len() == 0 {
        Some("Device name cannot be empty."@)
    } else if name.len() > 64 {
        Some("Device name must be at most 64 characters."@)
    } else if exists|i: int| 0 <= i < name.len() && is_cc(#[trigger] name[i]) {
        Some("Device name cannot contain control characters."@)
    } else if history_limit == 0 || history_limit > MAX_HISTORY_LIMIT {
        Some("History limit must be between 1 and 500."@)
    } else if trim_spec(hotkey).len() == 0 {
        Some("History popup hotkey cannot be empty."@)
    } else {
        None
    }
}

fn has_control(v: &[char]) -> (r: bool)
    ensures
        r == exists|i: int| 0 <= i < v@.len() && is_cc(#[trigger] v@[i]),
{
    let mut i: usize = 0;
    while i < v.len()
        invariant
            i <= v@.len(),
            forall|k: int| 0 <= k < i ==> !is_cc(#[trigger] v@[k]),
        decreases v@.len() - i,
    {
        if char_is_control(v[i]) {
            return true;
        }
        i = i + 1;
    }
    false
}

/// Checks an edit: a non-blank name of at most 64 characters without control
/// characters, a limit in `1..=MAX_HISTORY_LIMIT` and a non-blank hotkey.
pub fn validate_settings_update(update: &SettingsUpdate) -> (r: Result<(), AppError>)
    ensures
        match settings_problem(update.device_name@, update.history_limit, update.hotkey@) {
            None => r is Ok,
            Some(msg) => r matches Err(e) && e.is_invalid_config(msg),
        },
{
    let name = chars_of(trim(update.device_name.as_str()).as_str());
    if name.len() == 0 {
        return Err(invalid_config_error("Device name cannot be empty."));
    }
    if name.len() > 64 {
        return Err(invalid_config_error("Device name must be at most 64 characters."));
    }
    if has_control(name.as_slice()) {
        return Err(invalid_config_error("Device name cannot contain control characters."));
    }
    if update.history_limit == 0 || update.history_limit > MAX_HISTORY_LIMIT {
        return Err(invalid_config_error("History limit must be between 1 and 500."));
    }
    let key = trim(update.hotkey.as_str());
    if key.as_str().is_empty() {
        return Err(invalid_config_error("History popup hotkey cannot be empty."));
    }
    Ok(())
}

/// Settings an accepted edit leads to, and which preferences changed that
/// peers or the clipboard must hear about.
pub struct SettingsChange {
    pub next: AppConfig,
    pub share_local_history_changed: bool,
    pub paste_preference_changed: bool,
}

/// Cleans up and checks an edit; when it is accepted, the settings it leads
/// to (everything else unchanged) and what changed.
pub fn plan_settings_change(config: &AppConfig, update: SettingsUpdate) -> (r: Result<SettingsChange, AppError>)
    ensures
        ({
            let name = normalized_name(config.device_name@, update.device_name@);
            let limit = normalized_limit(update.history_limit);
            let key = normalized_hotkey(update.hotkey@);
            match settings_problem(name, limit, key) {
                Some(msg) => r matches Err(e) && e.is_invalid_config(msg),
                None => r matches Ok(c) && {
                    &&& c.next.device_id == config.device_id
                    &&& c.next.device_name@ == name
                    &&& c.next.listen_port == config.listen_port
                    &&& c.next.history_limit == limit
                    &&& c.next.launch_at_login == update.launch_at_login
                    &&& c.next.share_local_history == update.share_local_history
                    &&& c.next.prefer_remote_latest_on_paste == update.prefer_remote_latest_on_paste
                    &&& c.next.discovery_enabled == update.discovery_enabled
                    &&& c.next.hotkey@ == key
                    &&& c.next.trusted_peers@ == config.trusted_peers@
                    &&& c.share_local_history_changed == (config.share_local_history != update.share_local_history)
                    &&& c.paste_preference_changed == (config.prefer_remote_latest_on_paste
                        != update.prefer_remote_latest_on_paste)
                },
            }
        }),
{
    let update = normalize_settings_update(config, update);
    match validate_settings_update(&update) {
        Err(e) => Err(e),
        Ok(()) => {
            let share_changed = config.share_local_history != update.share_local_history;
            let paste_changed = config.prefer_remote_latest_on_paste != update.prefer_remote_latest_on_paste;
            let next = AppConfig {
                device_id: config.device_id.clone(),
                device_name: update.device_name,
                listen_port: config.listen_port,
                history_limit: update.history_limit,
                launch_at_login: update.launch_at_login,
                share_local_history: update.share_local_history,
                prefer_remote_latest_on_paste: update.prefer_remote_latest_on_paste,
                discovery_enabled: update.discovery_enabled,
                hotkey: update.hotkey,
                trusted_peers: clone_peers(&config.trusted_peers),
            };
            Ok(SettingsChange {
                next,
                share_local_history_changed: share_changed,
                paste_preference_changed: paste_changed,
            })
        },
    }
}

/// The note appended for a failed follow-up step, or nothing.
pub open spec fn failure_note(prefix: Seq<char>, error: Option<AppError>) -> Seq<char> {
    match error {
        Some(e) => prefix + e.message_spec(),
        None => seq![],
    }
}

/// The status after saving settings: saved, followed by a note for each
/// follow-up step that failed.
pub open spec fn settings_status_spec(
    runtime_error: Option<AppError>,
    prune_error: Option<AppError>,
    share_error: Option<AppError>,
    clipboard_error: Option<AppError>,
) -> Seq<char> {
    "设置已保存"@ + failure_note("，但后台网络服务更新失败: "@, runtime_error) + failure_note(
        "，但同步裁剪后的历史删除失败: "@,
        prune_error,
    ) + failure_note("，但同步共享状态失败: "@, share_error) + failure_note(
        "，但更新系统剪切板失败: "@,
        clipboard_error,
    )
}

fn push_failure(v: &mut Vec<char>, prefix: &str, error: &Option<AppError>)
    ensures
        final(v)@ == old(v)@ + failure_note(prefix@, *error),
{
    match error {
        Some(e) => {
            extend_str(v, prefix);
            let m = e.message();
            extend_str(v, m.as_str());
        },
        None => {
            proof {
                assert(old(v)@ + seq![] =~= old(v)@);
            }
        },
    }
}

/// The status line after saving settings, naming each follow-up step that failed.
pub fn settings_saved_status(
    runtime_error: Option<AppError>,
    prune_error: Option<AppError>,
    share_error: Option<AppError>,
    clipboard_error: Option<AppError>,
) -> (r: String)
    ensures
        r@ == settings_status_spec(runtime_error, prune_error, share_error, clipboard_error),
{
    let mut v = chars_of("设置已保存");
    push_failure(&mut v, "，但后台网络服务更新失败: ", &runtime_error);
    push_failure(&mut v, "，但同步裁剪后的历史删除失败: ", &prune_error);
    push_failure(&mut v, "，但同步共享状态失败: ", &share_error);
    push_failure(&mut v, "，但更新系统剪切板失败: ", &clipboard_error);
    string_of(v.as_slice())
}

} // verus!
