use kindle_glean::device::detector::{DeviceDetector, DiskProbe, DriveProbe, KindleDirectory, KindleLayout};
use kindle_glean::device::mtp::{MtpClient, MtpFileInfo, ScriptLine, Transfer, TransferAction};

fn layout() -> KindleLayout {
    KindleLayout {
        documents_clippings: false,
        root_clippings: false,
        system_vocab: false,
        root_vocab: false,
        dot_notebooks: false,
        plain_notebooks: false,
    }
}

fn dir(root: &str, layout: KindleLayout) -> KindleDirectory {
    KindleDirectory { root: root.to_string(), exists: true, layout, stored_id: None, volume_uuid: None }
}

#[test]
fn signatures_need_kindle_files() {
    let mut l = layout();
    assert!(!DeviceDetector::has_kindle_signatures(&dir("/t", l)));
    l.root_vocab = true;
    assert!(!DeviceDetector::has_kindle_signatures(&dir("/t", l)));
    l.root_clippings = true;
    assert!(!DeviceDetector::has_kindle_signatures(&dir("/t", l)));
    l.dot_notebooks = true;
    l.plain_notebooks = true;
    assert!(!DeviceDetector::has_kindle_signatures(&dir("/t", l)));
    l.root_clippings = false;
    l.dot_notebooks = false;
    l.plain_notebooks = false;
    l.system_vocab = true;
    assert!(DeviceDetector::has_kindle_signatures(&dir("/t", l)));
    l.system_vocab = false;
    l.documents_clippings = true;
    assert!(DeviceDetector::has_kindle_signatures(&dir("/t", l)));
    let info = DeviceDetector::inspect_kindle_directory(&dir("/t", l), "Kindle Paperwhite", "UMS").unwrap();
    assert_eq!(info.connection_mode, "UMS");
    assert_eq!(info.device_type, "Kindle Paperwhite");
    assert!(info.has_clippings);
    assert!(info.has_vocab);
    assert!(!info.has_notebooks);
    assert!(info.connected);
    assert_eq!(info.mount_path, "/t");
}

#[test]
fn notebooks_make_a_scribe() {
    let mut l = layout();
    l.dot_notebooks = true;
    let info = DeviceDetector::inspect_kindle_directory(&dir("/t", l), "Kindle Device", "UMS").unwrap();
    assert_eq!(info.device_type, "Kindle Scribe");
    assert!(info.has_notebooks);
    let info = DeviceDetector::inspect_kindle_directory(&dir("/t", l), "Kindle Scribe (MTP)", "MTP").unwrap();
    assert_eq!(info.device_type, "Kindle Scribe (MTP)");
}

#[test]
fn missing_directory_gives_nothing() {
    let mut d = dir("/t", layout());
    d.exists = false;
    assert!(DeviceDetector::inspect_kindle_directory(&d, "Kindle", "UMS").is_none());
}

#[test]
fn directory_ids() {
    let mut d = dir("/Volumes/Kindle", layout());
    assert_eq!(DeviceDetector::directory_id(&d), "kindle_62d4c861b3029f25");
    assert!(DeviceDetector::derives_new_id(&d));
    d.volume_uuid = Some("ABC-123".to_string());
    assert_eq!(DeviceDetector::directory_id(&d), "vol_ABC-123");
    d.stored_id = Some("  saved_id \n".to_string());
    assert_eq!(DeviceDetector::directory_id(&d), "saved_id");
    assert!(!DeviceDetector::derives_new_id(&d));
    d.stored_id = Some("   ".to_string());
    assert_eq!(DeviceDetector::directory_id(&d), "vol_ABC-123");
}

#[test]
fn layout_paths_in_order() {
    assert_eq!(
        DeviceDetector::layout_paths("/m"),
        vec![
            "/m/documents/My Clippings.txt",
            "/m/My Clippings.txt",
            "/m/system/vocabulary/vocab.db",
            "/m/vocab.db",
            "/m/.notebooks",
            "/m/notebooks",
        ]
    );
}

#[test]
fn windows_drives() {
    let letters = DeviceDetector::windows_drive_letters();
    assert_eq!(letters.len(), 24);
    assert_eq!(letters[0], 'D');
    assert_eq!(letters[22], 'Z');
    assert_eq!(letters[23], 'C');
    assert_eq!(DeviceDetector::drive_root('E'), "E:\\");
    let mut l = layout();
    l.system_vocab = true;
    let drives = vec![
        DriveProbe { letter: 'D', dir: dir("D:\\", layout()) },
        DriveProbe { letter: 'E', dir: dir("E:\\", l) },
    ];
    let info = DeviceDetector::scan_windows_drives(&drives).unwrap();
    assert_eq!(info.device_type, "Kindle (E:)");
    assert_eq!(info.mount_path, "E:\\");
    assert!(DeviceDetector::scan_windows_drives(&Vec::new()).is_none());
}

#[test]
fn disks_named_kindle() {
    assert!(DeviceDetector::is_kindle_named("KINDLE", "/x"));
    assert!(DeviceDetector::is_kindle_named("disk", "/Volumes/Kindle"));
    assert!(!DeviceDetector::is_kindle_named("Backup", "/Volumes/Backup"));
    let disks = vec![
        DiskProbe { name: "Backup".to_string(), dir: dir("/Volumes/Backup", layout()) },
        DiskProbe { name: "Kindle".to_string(), dir: dir("/Volumes/Kindle", layout()) },
    ];
    let info = DeviceDetector::scan_disks(&disks).unwrap();
    assert_eq!(info.device_type, "Kindle (Kindle)");
    assert_eq!(info.device_id, "kindle_62d4c861b3029f25");
}

#[test]
fn usb_ids() {
    assert!(DeviceDetector::usb_device_info(0x1234, 0x9981, None).is_none());
    let s = DeviceDetector::usb_device_info(0x1949, 0x9981, Some("G091ABC".to_string())).unwrap();
    assert_eq!(s.device_id, "G091ABC");
    assert_eq!(s.device_type, "Kindle Scribe (MTP)");
    assert_eq!(s.connection_mode, "MTP");
    assert_eq!(s.mount_path, "mtp://0x1949:0x9981");
    assert!(s.has_notebooks);
    let p = DeviceDetector::usb_device_info(0x1949, 0x0324, Some("  ".to_string())).unwrap();
    assert_eq!(p.device_id, "usb_kindle_1949_0324");
    assert_eq!(p.device_type, "Kindle Device (USB PID: 0x0324)");
    assert_eq!(p.connection_mode, "UMS");
    assert_eq!(p.mount_path, "usb://0x1949:0x0324");
    assert!(!p.has_notebooks);
}

#[test]
fn ioreg_text() {
    assert!(DeviceDetector::ioreg_device("nothing here").is_none());
    let text = "+-o Kindle Scribe@01100000\n  |   \"USB Serial Number\" = \"G091XYZ\"\n";
    let info = DeviceDetector::ioreg_device(text).unwrap();
    assert_eq!(info.device_id, "G091XYZ");
    assert_eq!(info.mount_path, "usb://kindle-scribe");
    let info = DeviceDetector::ioreg_device("vendor 1949 Amazon\n").unwrap();
    assert_eq!(info.device_id, "kindle_scribe_mtp");
}

#[test]
fn diskutil_text() {
    let text = "   Volume Name:              Kindle\n   Volume UUID:              1234-ABCD\n";
    assert_eq!(DeviceDetector::volume_uuid(text), Some("1234-ABCD".to_string()));
    assert_eq!(DeviceDetector::volume_uuid("   Volume UUID:   \n"), None);
}

#[test]
fn command_container_bytes() {
    let c = MtpClient::command_container(0x1007, 2, &[0x00010001, 0, 0]);
    assert_eq!(
        c,
        vec![24, 0, 0, 0, 1, 0, 0x07, 0x10, 2, 0, 0, 0, 1, 0, 1, 0, 0, 0, 0, 0, 0, 0, 0, 0]
    );
    assert_eq!(MtpClient::command_container(0x1002, 0, &[1]).len(), 16);
}

#[test]
fn mtp_strings() {
    let data = [3u8, b'a', 0, 0x42, 0x30, 0, 0, 9];
    let mut off = 0;
    assert_eq!(MtpClient::parse_string(&data, &mut off), "a\u{3042}");
    assert_eq!(off, 7);
    let mut off = 7;
    assert_eq!(MtpClient::parse_string(&data, &mut off), "");
    assert_eq!(off, 10);
    let mut off = 0;
    assert_eq!(MtpClient::parse_string(&[2u8, 0x00, 0xD8, 0, 0], &mut off), "\u{FFFD}");
    assert_eq!(off, 5);
    let mut off = 10;
    assert_eq!(MtpClient::parse_string(&data, &mut off), "");
    assert_eq!(off, 10);
    let mut off = 0;
    assert_eq!(MtpClient::parse_string(&[0u8], &mut off), "");
    assert_eq!(off, 1);
}

#[test]
fn object_info_dataset() {
    assert!(MtpClient::parse_object_info(5, &[0u8; 51]).is_none());
    let mut data = vec![0u8; 52];
    data[4] = 0x01;
    data[5] = 0x30;
    data[8] = 0x10;
    data[38] = 0x07;
    data.extend_from_slice(&[3, b'h', 0, b'i', 0, 0, 0]);
    let info = MtpClient::parse_object_info(5, &data).unwrap();
    assert_eq!(info.handle, 5);
    assert_eq!(info.filename, "hi");
    assert_eq!(info.size, 16);
    assert_eq!(info.parent_handle, 7);
    assert!(info.is_folder);
}

#[test]
fn counted_lists() {
    assert_eq!(MtpClient::parse_u32_list(&[2, 0, 0, 0, 1, 0, 0, 0, 2, 0, 0, 0]), vec![1, 2]);
    assert_eq!(MtpClient::parse_u32_list(&[3, 0, 0, 0, 1, 0, 0, 0, 2, 0]), vec![1]);
    assert_eq!(MtpClient::parse_u32_list(&[1, 0]), Vec::<u32>::new());
    assert_eq!(MtpClient::first_storage(&vec![]), 0x00010001);
    assert_eq!(MtpClient::first_storage(&vec![7, 8]), 7);
}

#[test]
fn transfer_state_machine() {
    let mut t = Transfer::new();
    assert!(matches!(t.on_packet(&[1, 2, 3]), TransferAction::ReadPacket));
    let mut data = vec![20, 0, 0, 0, 2, 0, 0x09, 0x10, 1, 0, 0, 0];
    data.extend_from_slice(&[1, 2, 3, 4]);
    match t.on_packet(&data) {
        TransferAction::ReadChunk(n) => assert_eq!(n, 4),
        _ => panic!("expected a chunk"),
    }
    assert_eq!(t.payload, vec![1, 2, 3, 4]);
    assert!(matches!(t.on_chunk(&[5, 6, 7, 8]), TransferAction::ReadPacket));
    assert_eq!(t.payload, vec![1, 2, 3, 4, 5, 6, 7, 8]);
    assert_eq!(t.remaining, 0);
    match t.on_packet(&[12, 0, 0, 0, 3, 0, 0x01, 0x20, 1, 0, 0, 0]) {
        TransferAction::Finished(code) => assert_eq!(code, 0x2001),
        _ => panic!("expected the response"),
    }
}

fn obj(handle: u32, name: &str, parent: u32) -> MtpFileInfo {
    MtpFileInfo { handle, filename: name.to_string(), size: 0, parent_handle: parent, is_folder: false }
}

#[test]
fn download_plan() {
    let objs = vec![
        obj(1, ".notebooks", 0),
        obj(2, "Work", 1),
        obj(3, "8eca-uuid", 2),
        obj(4, "nbk", 3),
        obj(5, "thumbnails", 1),
        obj(6, "8eca-uuid.png", 5),
        obj(7, "My Clippings.txt", 8),
        obj(8, "documents", 0),
        obj(9, "vocab.db", 0),
        obj(10, "templates", 1),
        obj(11, "t.nbk", 10),
        obj(12, "B0ABC", 1),
        obj(13, "x.nbk", 12),
        obj(14, "cover.jpg", 8),
        obj(15, "loose.nbk", 1),
    ];
    let plan = MtpClient::plan_downloads(&objs, "/c");
    assert_eq!(
        plan,
        vec![
            (4, "/c/.notebooks/Work/8eca-uuid.nbk".to_string()),
            (6, "/c/.notebooks/thumbnails/8eca-uuid.png".to_string()),
            (7, "/c/documents/My Clippings.txt".to_string()),
            (9, "/c/system/vocabulary/vocab.db".to_string()),
            (15, "/c/.notebooks/notebook_f.nbk".to_string()),
        ]
    );
}

#[test]
fn parent_cycles_end_the_walk() {
    let objs = vec![obj(1, ".notebooks", 2), obj(2, "a:b", 1), obj(3, "n.nbk", 2)];
    let plan = MtpClient::plan_downloads(&objs, "/c");
    assert_eq!(plan, vec![(3, "/c/.notebooks/a_b.nbk".to_string())]);
}

#[test]
fn script_lines() {
    match MtpClient::classify_script_line("  PROGRESS:clippings:取得中...:40:My Clippings.txt  ") {
        ScriptLine::Progress(p) => {
            assert_eq!(p.step, "clippings");
            assert_eq!(p.message, "取得中...");
            assert_eq!(p.percentage, 40);
            assert_eq!(p.current_item, Some("My Clippings.txt".to_string()));
        }
        _ => panic!("expected progress"),
    }
    match MtpClient::classify_script_line("PROGRESS:a:b:x:") {
        ScriptLine::Progress(p) => {
            assert_eq!(p.percentage, 50);
            assert_eq!(p.current_item, None);
        }
        _ => panic!("expected progress"),
    }
    assert!(matches!(MtpClient::classify_script_line("PROGRESS:a:b"), ScriptLine::Other));
    assert!(matches!(MtpClient::classify_script_line("DEBUG: x"), ScriptLine::Debug));
    match MtpClient::classify_script_line("ERROR:ERROR: 見つかりません ") {
        ScriptLine::Error(e) => assert_eq!(e, "見つかりません"),
        _ => panic!("expected an error"),
    }
    assert!(matches!(MtpClient::classify_script_line("SUCCESS:OK"), ScriptLine::Other));
}

#[test]
fn failure_details() {
    assert_eq!(MtpClient::failure_detail("last", "Kindle x"), "last");
    assert_eq!(
        MtpClient::failure_detail("", "+ CategoryInfo Kindle\n  Kindle not found  \n"),
        "Kindle not found"
    );
    assert_eq!(
        MtpClient::failure_detail("", "nothing"),
        "Kindle端末からデータを取得できませんでした。Kindle端末の画面ロックを解除してUSB接続を確認してください。"
    );
}

#[test]
fn download_progress_reports() {
    let p = MtpClient::download_progress(1, 4, "/c/documents/My Clippings.txt");
    assert_eq!(p.step, "downloading");
    assert_eq!(p.message, "ファイルを転送中 (2/4): My Clippings.txt");
    assert_eq!(p.percentage, 35);
    assert_eq!(p.current_item, Some("My Clippings.txt".to_string()));
    assert!(MtpClient::object_received(0x2001, &[]));
    assert!(MtpClient::object_received(0x2002, &[1]));
    assert!(!MtpClient::object_received(0x2009, &[]));
    assert_eq!(MtpClient::get_object_error(0x1f, 0x2009), "GetObject 0x0000001f failed with code 0x2009");
}
