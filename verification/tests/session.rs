use kindle_glean::models::{DeviceInfo, DeviceProfile, SyncConfig};
use kindle_glean::session::{
    auto_sync_enabled, device_display_name, may_read_mount, missing_source_error, mtp_sync_error, should_eject,
    sync_config_for, watch_transition, with_profile, WatchEvent,
};

fn device() -> DeviceInfo {
    DeviceInfo {
        device_id: "G1".to_string(),
        device_type: "Kindle Scribe (MTP)".to_string(),
        connection_mode: "MTP".to_string(),
        mount_path: "mtp://0x1949:0x9981".to_string(),
        has_clippings: true,
        has_vocab: true,
        has_notebooks: true,
        connected: true,
        status_message: None,
        is_registered: false,
        nickname: None,
    }
}

fn profile() -> DeviceProfile {
    DeviceProfile {
        device_id: "G1".to_string(),
        nickname: "書斎のKindle Scribe".to_string(),
        device_type: "Kindle Scribe (MTP)".to_string(),
        vault_path: "/test/vault1".to_string(),
        subfolder: "ScribeNotes".to_string(),
        sync_clippings: true,
        sync_vocab: false,
        sync_notebooks: true,
        auto_sync: false,
        auto_eject: true,
        created_at: "2026-09-22T00:00:00Z".to_string(),
        last_connected_at: "2026-09-22T00:00:00Z".to_string(),
    }
}

#[test]
fn connection_changes() {
    assert_eq!(watch_transition(false, true), WatchEvent::Connected);
    assert_eq!(watch_transition(true, false), WatchEvent::Disconnected);
    assert_eq!(watch_transition(true, true), WatchEvent::Unchanged);
    assert_eq!(watch_transition(false, false), WatchEvent::Unchanged);
}

#[test]
fn profiles_name_and_configure_devices() {
    let p = profile();
    let d = with_profile(device(), Some(&p));
    assert!(d.is_registered);
    assert_eq!(d.nickname, Some("書斎のKindle Scribe".to_string()));
    assert_eq!(device_display_name(&d), "書斎のKindle Scribe");
    let plain = with_profile(device(), None);
    assert!(!plain.is_registered);
    assert_eq!(device_display_name(&plain), "Kindle Scribe (MTP)");
    let global = SyncConfig {
        vault_path: "/g".to_string(),
        sync_clippings: true,
        sync_vocab: true,
        sync_notebooks: true,
        auto_sync: true,
        auto_eject: false,
        subfolder: String::new(),
    };
    let c = sync_config_for(Some(&p), global.clone());
    assert_eq!(c.vault_path, "/test/vault1");
    assert_eq!(c.subfolder, "ScribeNotes");
    assert!(!c.sync_vocab && c.auto_eject);
    assert_eq!(sync_config_for(None, global).vault_path, "/g");
    assert!(!auto_sync_enabled(Some(&p), Some(true)));
    assert!(auto_sync_enabled(None, Some(true)));
    assert!(!auto_sync_enabled(None, None));
}

#[test]
fn fallbacks_and_ejects() {
    assert!(!may_read_mount("mtp://0x1949:0x9981", true));
    assert!(!may_read_mount("usb://kindle-scribe", true));
    assert!(!may_read_mount("/Volumes/Kindle", false));
    assert!(may_read_mount("/Volumes/Kindle", true));
    assert_eq!(
        mtp_sync_error("busy"),
        "MTP同期エラー: busy. Kindle端末の画面ロック解除とUSB接続を確認してください。"
    );
    assert!(should_eject(true, false, "Kindle"));
    assert!(!should_eject(true, true, "Kindle"));
    assert!(!should_eject(true, false, "Custom Folder"));
    assert!(!should_eject(false, false, "Kindle"));
    assert_eq!(missing_source_error("/x"), "Source path '/x' does not exist");
}
