//! The decisions around a synchronisation that the application starts: how
//! a connection is noticed, which settings apply to a device, what it is
//! called, where its files are read from, and whether it is ejected after.

use vstd::prelude::*;

use crate::models::{DeviceInfo, DeviceInfoView, DeviceProfile, SyncConfig};
use crate::text::{chars_of, push_str, starts_with, starts_with_chars, string_from_chars};

verus! {

/// What a look at the connected devices means, compared with the last one.
#[derive(Debug, Clone, Copy, PartialEq, Eq, Structural)]
pub enum WatchEvent {
    /// A Kindle appeared.
    Connected,
    /// The Kindle went away.
    Disconnected,
    /// Nothing changed.
    Unchanged,
}

/// What a look at the connected devices means after the last one.
pub fn watch_transition(was_connected: bool, connected: bool) -> (r: WatchEvent)
    ensures
        r == (if connected && !was_connected {
            WatchEvent::Connected
        } else if !connected && was_connected {
            WatchEvent::Disconnected
        } else {
            WatchEvent::Unchanged
        }),
{
    if connected && !was_connected {
        WatchEvent::Connected
    } else if !connected && was_connected {
        WatchEvent::Disconnected
    } else {
        WatchEvent::Unchanged
    }
}

/// A detected device, marked as registered and given its profile's nickname
/// where it has a profile; otherwise as detected.
pub fn with_profile(info: DeviceInfo, profile: Option<&DeviceProfile>) -> (r: DeviceInfo)
    ensures
        match profile {
            Some(p) => r@ == (DeviceInfoView {
                is_registered: true,
                nickname: Some(p.nickname@),
                ..info@
            }),
            None => r@ == info@,
        },
{
    match profile {
        Some(p) => {
            let mut d = info;
            d.is_registered = true;
            d.nickname = Some(p.nickname.clone());
            d
        },
        None => info,
    }
}

/// The settings a device is synchronised with: its profile's where it has
/// one, else the global settings.
pub fn sync_config_for(profile: Option<&DeviceProfile>, global: SyncConfig) -> (r: SyncConfig)
    ensures
        match profile {
            Some(p) => {
                &&& r.vault_path@ == p.vault_path@
                &&& r.subfolder@ == p.subfolder@
                &&& r.sync_clippings == p.sync_clippings
                &&& r.sync_vocab == p.sync_vocab
                &&& r.sync_notebooks == p.sync_notebooks
                &&& r.auto_sync == p.auto_sync
                &&& r.auto_eject == p.auto_eject
            },
            None => r == global,
        },
{
    match profile {
        Some(p) => p.to_config(),
        None => global,
    }
}

/// Whether a newly connected device is synchronised at once: as its
/// profile says, else as the global settings say where they could be read,
/// else not.
pub fn auto_sync_enabled(profile: Option<&DeviceProfile>, global: Option<bool>) -> (r: bool)
    ensures
        r == (match profile {
            Some(p) => p.auto_sync,
            None => match global {
                Some(g) => g,
                None => false,
            },
        }),
{
    match profile {
        Some(p) => p.auto_sync,
        None => match global {
            Some(g) => g,
            None => false,
        },
    }
}

/// What a device is called in the history: its nickname, else its type.
pub fn device_display_name(info: &DeviceInfo) -> (r: String)
    ensures
        r@ == (match info.nickname {
            Some(n) => n@,
            None => info.device_type@,
        }),
{
    match &info.nickname {
        Some(n) => n.clone(),
        None => info.device_type.clone(),
    }
}

/// Whether a device's files can be read from its mount path after MTP
/// failed: the path is not a USB address and exists.
pub fn may_read_mount(mount_path: &str, exists: bool) -> (r: bool)
    ensures
        r == (!starts_with(mount_path@, "mtp://"@) && !starts_with(mount_path@, "usb://"@) && exists),
{
    let m = chars_of(mount_path);
    !starts_with_chars(m.as_slice(), chars_of("mtp://").as_slice()) && !starts_with_chars(
        m.as_slice(),
        chars_of("usb://").as_slice(),
    ) && exists
}

/// The error reported when copying from the device over MTP failed.
pub fn mtp_sync_error(cause: &str) -> (r: String)
    ensures
        r@ == "MTP同期エラー: "@ + cause@ + ". Kindle端末の画面ロック解除とUSB接続を確認してください。"@,
{
    let mut b = chars_of("MTP同期エラー: ");
    push_str(&mut b, cause);
    push_str(&mut b, ". Kindle端末の画面ロック解除とUSB接続を確認してください。");
    string_from_chars(b.as_slice())
}

/// The device name of a synchronisation from a folder the user chose.
pub const CUSTOM_FOLDER: &'static str = "Custom Folder";

/// Whether the device is ejected after a synchronisation: where the settings
/// ask for it, for a device mounted as a drive rather than reached over MTP
/// or chosen as a folder.
pub fn should_eject(auto_eject: bool, is_mtp: bool, device_name: &str) -> (r: bool)
    ensures
        r == (auto_eject && !is_mtp && device_name@ != CUSTOM_FOLDER@),
{
    auto_eject && !is_mtp && String::from_str(device_name) != String::from_str(CUSTOM_FOLDER)
}

/// The error when a synchronisation is asked for while one is running.
pub const SYNC_BUSY: &'static str = "現在同期を実行中です。完了までお待ちください。";

/// The error when no Kindle is found.
pub const DEVICE_NOT_FOUND: &'static str = "Kindle端末が見つかりませんでした。USB接続を確認してください。";

/// The error for a synchronisation from a path that does not exist:
/// `Source path '{path}' does not exist`.
pub fn missing_source_error(path: &str) -> (r: String)
    ensures
        r@ == "Source path '"@ + path@ + "' does not exist"@,
{
    let mut b = chars_of("Source path '");
    push_str(&mut b, path);
    push_str(&mut b, "' does not exist");
    string_from_chars(b.as_slice())
}

} // verus!
