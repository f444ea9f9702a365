//! Recognising a Kindle: by what its storage holds, by its USB ids, or by
//! what the system's USB registry reports, and naming it by a stable id.
//!
//! Looking at disks, files and the USB bus is left to the caller, which hands
//! over what it found.

use vstd::prelude::*;

use crate::digest::{sha256_hex, sha256_hex_of};
use crate::models::{opt_device_view, DeviceInfo, DeviceInfoView};
use crate::paths::{join_path, join_path_str};
use crate::pattern::{lowercase, to_lowercase};
use crate::text::{
    chars_of, contains, contains_seq, occurs_at, copy_range, find_char, find_from, hex_padded, lemma_find_from,
    lines, lines_from, next_line, push_chars, push_hex_padded, push_str, string_from_chars,
    strs_view, trim, trim_bounds, trim_char, trim_char_bounds,
};

verus! {

/// Recognises Kindles.
pub struct DeviceDetector;

/// Which of the paths of [`DeviceDetector::layout_paths`] exist under a
/// directory, in that order.
#[derive(Debug, Clone, Copy, PartialEq, Eq, Structural)]
pub struct KindleLayout {
    /// `documents/My Clippings.txt`
    pub documents_clippings: bool,
    /// `My Clippings.txt`
    pub root_clippings: bool,
    /// `system/vocabulary/vocab.db`
    pub system_vocab: bool,
    /// `vocab.db`
    pub root_vocab: bool,
    /// `.notebooks`
    pub dot_notebooks: bool,
    /// `notebooks`
    pub plain_notebooks: bool,
}

/// What was found at a directory that may be a Kindle's storage.
pub struct KindleDirectory {
    pub root: String,
    pub exists: bool,
    pub layout: KindleLayout,
    /// The content of `.kindle_sync_id` in the directory, where that is a
    /// readable file.
    pub stored_id: Option<String>,
    /// The UUID of the volume, where the system reports one.
    pub volume_uuid: Option<String>,
}

/// A drive letter and what was found at its root.
pub struct DriveProbe {
    pub letter: char,
    pub dir: KindleDirectory,
}

/// A mounted disk: its name and what was found at its mount point.
pub struct DiskProbe {
    pub name: String,
    pub dir: KindleDirectory,
}

/// The status shown for a Scribe found on USB.
pub const USB_MTP_STATUS: &'static str = "MTP接続中 (画面のロックを解除してファイルアクセスを許可してください)";

/// The status shown for another Kindle found on USB.
pub const USB_UMS_STATUS: &'static str = "USB接続中 (画面ロックを解除してドライブを認識させるか、「フォルダ選択同期」からKindleドライブを選択してください)";

/// The status shown for a Scribe that the USB registry reports.
pub const IOREG_STATUS: &'static str = "MTP接続中 (画面ロック解除でファイル同期可能)";

/// The paths under `root` that show what a Kindle holds.
pub open spec fn kindle_layout_paths(root: Seq<char>) -> Seq<Seq<char>> {
    seq![
        join_path(join_path(root, "documents"@), "My Clippings.txt"@),
        join_path(root, "My Clippings.txt"@),
        join_path(join_path(join_path(root, "system"@), "vocabulary"@), "vocab.db"@),
        join_path(root, "vocab.db"@),
        join_path(root, ".notebooks"@),
        join_path(root, "notebooks"@),
    ]
}

/// The directory holds one of a Kindle's signature files:
/// `documents/My Clippings.txt` or `system/vocabulary/vocab.db`.
pub open spec fn signatures(l: KindleLayout) -> bool {
    l.documents_clippings || l.system_vocab
}

/// A directory that shows a Kindle's signatures is inspected as a Kindle
/// that holds clippings or vocabulary, whatever it is called and however it
/// is connected.
pub proof fn lemma_signatures_inspected(d: KindleDirectory, device_type: Seq<char>, mode: Seq<char>)
    requires
        d.exists,
        signatures(d.layout),
    ensures
        inspected(d, device_type, mode) matches Some(i) && (i.has_clippings || i.has_vocab),
{
}

/// The stored id, trimmed, where it is not blank.
pub open spec fn stored_dir_id(stored: Option<Seq<char>>) -> Option<Seq<char>> {
    match stored {
        Some(c) => if trim(c).len() > 0 {
            Some(trim(c))
        } else {
            None
        },
        None => None,
    }
}

/// The id derived from the directory's path: `kindle_` and the first 16
/// hexadecimal digits of the SHA-256 of the path.
pub open spec fn derived_dir_id(root: Seq<char>) -> Seq<char> {
    "kindle_"@ + sha256_hex(vstd::utf8::encode_utf8(root)).take(16)
}

/// A directory's id: the stored one, else `vol_` and the volume's UUID, else
/// the one derived from its path.
pub open spec fn dir_id(d: KindleDirectory) -> Seq<char> {
    match stored_dir_id(d.stored_id.deep_view()) {
        Some(t) => t,
        None => match d.volume_uuid {
            Some(u) => "vol_"@ + u@,
            None => derived_dir_id(d.root@),
        },
    }
}

/// What a directory shows of the Kindle there; `None` where it does not exist.
/// A device with notebooks is a Scribe, whatever it was called.
pub open spec fn inspected(d: KindleDirectory, device_type: Seq<char>, mode: Seq<char>) -> Option<
    DeviceInfoView,
> {
    if !d.exists {
        None
    } else {
        let has_nb = d.layout.dot_notebooks || d.layout.plain_notebooks;
        Some(
            DeviceInfoView {
                device_id: dir_id(d),
                device_type: if has_nb && !contains(device_type, "Scribe"@) {
                    "Kindle Scribe"@
                } else {
                    device_type
                },
                connection_mode: mode,
                mount_path: d.root@,
                has_clippings: d.layout.documents_clippings || d.layout.root_clippings,
                has_vocab: d.layout.system_vocab || d.layout.root_vocab,
                has_notebooks: has_nb,
                connected: true,
                status_message: None,
                is_registered: false,
                nickname: None,
            },
        )
    }
}

/// The drive letters looked at, in order: `D` to `Z`, then `C`.
pub open spec fn drive_letters() -> Seq<char> {
    Seq::new(23, |i: int| (('D' as int) + i) as char).push('C')
}

/// `Kindle ({letter}:)`.
pub open spec fn drive_label(letter: char) -> Seq<char> {
    "Kindle ("@ + seq![letter] + ":)"@
}

/// The first drive, from index `i` on, that exists and shows a Kindle's signatures.
pub open spec fn scan_drives_from(ds: Seq<DriveProbe>, i: int) -> Option<DeviceInfoView>
    decreases ds.len() - i,
{
    if i < 0 || i >= ds.len() {
        None
    } else if ds[i].dir.exists && signatures(ds[i].dir.layout) && inspected(
        ds[i].dir,
        drive_label(ds[i].letter),
        "UMS"@,
    ) is Some {
        inspected(ds[i].dir, drive_label(ds[i].letter), "UMS"@)
    } else {
        scan_drives_from(ds, i + 1)
    }
}

/// A disk whose name or mount point holds `kindle`, in any case.
pub open spec fn kindle_named(name: Seq<char>, mount: Seq<char>) -> bool {
    contains(lowercase(name), "kindle"@) || contains(lowercase(mount), "kindle"@)
}

/// `Kindle ({name})`.
pub open spec fn disk_label(name: Seq<char>) -> Seq<char> {
    "Kindle ("@ + name + ")"@
}

/// The first disk, from index `i` on, that is named like a Kindle or shows a
/// Kindle's signatures, and exists.
pub open spec fn scan_disks_from(ds: Seq<DiskProbe>, i: int) -> Option<DeviceInfoView>
    decreases ds.len() - i,
{
    if i < 0 || i >= ds.len() {
        None
    } else if (kindle_named(ds[i].name@, ds[i].dir.root@) || signatures(ds[i].dir.layout))
        && inspected(ds[i].dir, disk_label(ds[i].name@), "UMS"@) is Some {
        inspected(ds[i].dir, disk_label(ds[i].name@), "UMS"@)
    } else {
        scan_disks_from(ds, i + 1)
    }
}

/// What a USB device with these ids shows: nothing unless its vendor is
/// Amazon (`0x1949`); a Scribe (`0x9981`) over MTP, any other Kindle as a USB
/// drive. It is named by its serial number where that is not blank.
pub open spec fn usb_info(vid: u16, pid: u16, serial: Option<Seq<char>>) -> Option<DeviceInfoView> {
    if vid != 0x1949 {
        None
    } else {
        let scribe = pid == 0x9981;
        let v4 = hex_padded(vid as nat, 4);
        let p4 = hex_padded(pid as nat, 4);
        Some(
            DeviceInfoView {
                device_id: match serial {
                    Some(s) => if trim(s).len() > 0 {
                        s
                    } else {
                        "usb_kindle_"@ + v4 + "_"@ + p4
                    },
                    None => "usb_kindle_"@ + v4 + "_"@ + p4,
                },
                device_type: if scribe {
                    "Kindle Scribe (MTP)"@
                } else {
                    "Kindle Device (USB PID: 0x"@ + p4 + ")"@
                },
                connection_mode: if scribe {
                    "MTP"@
                } else {
                    "UMS"@
                },
                mount_path: (if scribe {
                    "mtp://0x"@
                } else {
                    "usb://0x"@
                }) + v4 + ":0x"@ + p4,
                has_clippings: true,
                has_vocab: true,
                has_notebooks: scribe,
                connected: true,
                status_message: Some(
                    if scribe {
                        USB_MTP_STATUS@
                    } else {
                        USB_UMS_STATUS@
                    },
                ),
                is_registered: false,
                nickname: None,
            },
        )
    }
}

/// The serial number on the first line of `ls` that shows one.
pub open spec fn first_serial(ls: Seq<Seq<char>>) -> Option<Seq<char>>
    decreases ls.len(),
{
    if ls.len() == 0 {
        None
    } else {
        match serial_on_line(ls[0]) {
            Some(v) => Some(v),
            None => first_serial(ls.drop_first()),
        }
    }
}

/// The volume UUID on the first line of `ls` that shows one.
pub open spec fn first_uuid(ls: Seq<Seq<char>>) -> Option<Seq<char>>
    decreases ls.len(),
{
    if ls.len() == 0 {
        None
    } else {
        match uuid_on_line(ls[0]) {
            Some(v) => Some(v),
            None => first_uuid(ls.drop_first()),
        }
    }
}

/// The serial number on a line of the USB registry: the text after the first
/// `=`, trimmed of blanks and quotes, on a line that names the serial number.
pub open spec fn serial_on_line(line: Seq<char>) -> Option<Seq<char>> {
    if contains(line, "USB Serial Number"@) || contains(line, "kUSBSerialNumber"@) {
        match find_from(line, seq!['='], 0) {
            Some(i) => {
                let clean = trim(trim_char(trim(line.subrange(i + 1, line.len() as int)), '"'));
                if clean.len() > 0 {
                    Some(clean)
                } else {
                    None
                }
            },
            None => None,
        }
    } else {
        None
    }
}

/// What the USB registry's text shows: a Scribe where it names one, or
/// Amazon and its vendor id, named by the first serial number found.
pub open spec fn ioreg_info(text: Seq<char>) -> Option<DeviceInfoView> {
    if contains(text, "Kindle Scribe"@) || (contains(text, "1949"@) && contains(text, "Amazon"@)) {
        Some(
            DeviceInfoView {
                device_id: match first_serial(lines(text)) {
                    Some(s) => s,
                    None => "kindle_scribe_mtp"@,
                },
                device_type: "Kindle Scribe (MTP)"@,
                connection_mode: "MTP"@,
                mount_path: "usb://kindle-scribe"@,
                has_clippings: true,
                has_vocab: true,
                has_notebooks: true,
                connected: true,
                status_message: Some(IOREG_STATUS@),
                is_registered: false,
                nickname: None,
            },
        )
    } else {
        None
    }
}

/// The volume UUID on a line of `diskutil info`: the text after the first
/// `:`, trimmed, on a line that names the volume or partition UUID.
pub open spec fn uuid_on_line(line: Seq<char>) -> Option<Seq<char>> {
    if contains(line, "Volume UUID:"@) || contains(line, "Disk / Partition UUID:"@) {
        match find_from(line, seq![':'], 0) {
            Some(i) => {
                let t = trim(line.subrange(i + 1, line.len() as int));
                if t.len() > 0 {
                    Some(t)
                } else {
                    None
                }
            },
            None => None,
        }
    } else {
        None
    }
}

/// The trimmed text of `s`.
fn trimmed(s: &str) -> (r: Vec<char>)
    ensures
        r@ == trim(s@),
{
    let c = chars_of(s);
    let (a, z) = trim_bounds(c.as_slice(), 0, c.len());
    assert(c@.subrange(0, c@.len() as int) =~= c@);
    copy_range(c.as_slice(), a, z)
}

/// The text of `l` after its first `sep`, where it has one.
fn after_first(l: &[char], sep: char) -> (r: Option<Vec<char>>)
    ensures
        match find_from(l@, seq![sep], 0) {
            Some(i) => r matches Some(t) && t@ == l@.subrange(i + 1, l@.len() as int),
            None => r is None,
        },
{
    let n = l.len();
    match find_char(l, sep, 0) {
        Some(i) => {
            proof {
                lemma_find_from(l@, seq![sep], 0);
                assert(occurs_at(l@, seq![sep], i as int));
                assert(seq![sep].len() == 1);
                assert(i + 1 <= l@.len());
            }
            Some(copy_range(l, i + 1, n))
        },
        None => None,
    }
}

/// The serial number on a line of the USB registry.
fn serial_on_line_of(line: &[char]) -> (r: Option<Vec<char>>)
    ensures
        crate::text::opt_chars(r) == serial_on_line(line@),
{
    if !(contains_seq(line, chars_of("USB Serial Number").as_slice()) || contains_seq(
        line,
        chars_of("kUSBSerialNumber").as_slice(),
    )) {
        return None;
    }
    match after_first(line, '=') {
        Some(v) => {
            let (a, z) = trim_bounds(v.as_slice(), 0, v.len());
            assert(v@.subrange(0, v@.len() as int) =~= v@);
            let (b, y) = trim_char_bounds(v.as_slice(), a, z, '"');
            let (c, x) = trim_bounds(v.as_slice(), b, y);
            if c < x {
                Some(copy_range(v.as_slice(), c, x))
            } else {
                None
            }
        },
        None => None,
    }
}

/// The volume UUID on a line of `diskutil info`.
fn uuid_on_line_of(line: &[char]) -> (r: Option<Vec<char>>)
    ensures
        crate::text::opt_chars(r) == uuid_on_line(line@),
{
    if !(contains_seq(line, chars_of("Volume UUID:").as_slice()) || contains_seq(
        line,
        chars_of("Disk / Partition UUID:").as_slice(),
    )) {
        return None;
    }
    match after_first(line, ':') {
        Some(v) => {
            let (a, z) = trim_bounds(v.as_slice(), 0, v.len());
            assert(v@.subrange(0, v@.len() as int) =~= v@);
            if a < z {
                Some(copy_range(v.as_slice(), a, z))
            } else {
                None
            }
        },
        None => None,
    }
}

impl DeviceDetector {
    /// The paths whose existence a [`KindleLayout`] records, in its order.
    pub fn layout_paths(root: &str) -> (r: Vec<String>)
        ensures
            strs_view(r@) == kindle_layout_paths(root@),
    {
        let mut r: Vec<String> = Vec::new();
        let docs = join_path_str(root, "documents");
        r.push(join_path_str(docs.as_str(), "My Clippings.txt"));
        r.push(join_path_str(root, "My Clippings.txt"));
        let sys = join_path_str(root, "system");
        let voc = join_path_str(sys.as_str(), "vocabulary");
        r.push(join_path_str(voc.as_str(), "vocab.db"));
        r.push(join_path_str(root, "vocab.db"));
        r.push(join_path_str(root, ".notebooks"));
        r.push(join_path_str(root, "notebooks"));
        assert(strs_view(r@) =~= kindle_layout_paths(root@));
        r
    }

    /// Whether the directory exists and holds `documents/My Clippings.txt`
    /// or `system/vocabulary/vocab.db`.
    pub fn has_kindle_signatures(dir: &KindleDirectory) -> (r: bool)
        ensures
            r == (dir.exists && signatures(dir.layout)),
    {
        let l = &dir.layout;
        dir.exists && (l.documents_clippings || l.system_vocab)
    }

    /// The directory's id.
    pub fn directory_id(dir: &KindleDirectory) -> (r: String)
        ensures
            r@ == dir_id(*dir),
    {
        match &dir.stored_id {
            Some(c) => {
                let t = trimmed(c.as_str());
                if t.len() > 0 {
                    return string_from_chars(t.as_slice());
                }
            },
            None => {},
        }
        match &dir.volume_uuid {
            Some(u) => {
                let mut b = chars_of("vol_");
                push_str(&mut b, u.as_str());
                string_from_chars(b.as_slice())
            },
            None => {
                let hex = sha256_hex_of(dir.root.as_str().as_bytes());
                let mut b = chars_of("kindle_");
                push_chars(&mut b, copy_range(hex.as_slice(), 0, 16).as_slice());
                assert(b@ =~= derived_dir_id(dir.root@));
                string_from_chars(b.as_slice())
            },
        }
    }

    /// Whether the directory's id is derived from its path rather than read,
    /// so that it is worth storing in `.kindle_sync_id`.
    pub fn derives_new_id(dir: &KindleDirectory) -> (r: bool)
        ensures
            r == (stored_dir_id(dir.stored_id.deep_view()) is None && dir.volume_uuid is None),
    {
        let stored = match &dir.stored_id {
            Some(c) => trimmed(c.as_str()).len() > 0,
            None => false,
        };
        !stored && dir.volume_uuid.is_none()
    }

    /// What the directory shows of the Kindle there, reported as `device_type`
    /// connected by `connection_mode`; `None` where it does not exist.
    pub fn inspect_kindle_directory(
        dir: &KindleDirectory,
        device_type: &str,
        connection_mode: &str,
    ) -> (r: Option<DeviceInfo>)
        ensures
            opt_device_view(r) == inspected(*dir, device_type@, connection_mode@),
    {
        if !dir.exists {
            return None;
        }
        let l = &dir.layout;
        let has_notebooks = l.dot_notebooks || l.plain_notebooks;
        let actual_type = if has_notebooks && !contains_seq(
            chars_of(device_type).as_slice(),
            chars_of("Scribe").as_slice(),
        ) {
            String::from_str("Kindle Scribe")
        } else {
            String::from_str(device_type)
        };
        Some(
            DeviceInfo {
                device_id: Self::directory_id(dir),
                device_type: actual_type,
                connection_mode: String::from_str(connection_mode),
                mount_path: dir.root.clone(),
                has_clippings: l.documents_clippings || l.root_clippings,
                has_vocab: l.system_vocab || l.root_vocab,
                has_notebooks,
                connected: true,
                status_message: None,
                is_registered: false,
                nickname: None,
            },
        )
    }

    /// The drive letters to look at, in order: `D` to `Z`, then `C`.
    pub fn windows_drive_letters() -> (r: Vec<char>)
        ensures
            r@ == drive_letters(),
    {
        let mut r: Vec<char> = Vec::new();
        let mut i: u8 = 0;
        while i < 23
            invariant
                i <= 23,
                r@ == Seq::new(i as nat, |k: int| (('D' as int) + k) as char),
            decreases 23 - i,
        {
            let c = (68 + i) as char;
            r.push(c);
            i = i + 1;
            assert(r@ =~= Seq::new(i as nat, |k: int| (('D' as int) + k) as char));
        }
        r.push('C');
        r
    }

    /// The root of a drive: `{letter}:\`.
    pub fn drive_root(letter: char) -> (r: String)
        ensures
            r@ == seq![letter] + ":\\"@,
    {
        let mut b: Vec<char> = Vec::new();
        b.push(letter);
        push_str(&mut b, ":\\");
        string_from_chars(b.as_slice())
    }

    /// The first drive that exists and shows a Kindle's signatures, as a
    /// Kindle connected as a USB drive.
    pub fn scan_windows_drives(drives: &Vec<DriveProbe>) -> (r: Option<DeviceInfo>)
        ensures
            opt_device_view(r) == scan_drives_from(drives@, 0),
    {
        let mut i: usize = 0;
        while i < drives.len()
            invariant
                i <= drives@.len(),
                scan_drives_from(drives@, 0) == scan_drives_from(drives@, i as int),
            decreases drives@.len() - i,
        {
            let d = &drives[i];
            if d.dir.exists && Self::has_kindle_signatures(&d.dir) {
                let mut label = chars_of("Kindle (");
                label.push(d.letter);
                push_str(&mut label, ":)");
                assert(label@ =~= drive_label(d.letter));
                let label = string_from_chars(label.as_slice());
                match Self::inspect_kindle_directory(&d.dir, label.as_str(), "UMS") {
                    Some(info) => return Some(info),
                    None => {},
                }
            }
            i = i + 1;
        }
        None
    }

    /// Whether a disk's name or mount point holds `kindle`, in any case.
    pub fn is_kindle_named(disk_name: &str, mount: &str) -> (r: bool)
        ensures
            r == kindle_named(disk_name@, mount@),
    {
        let kindle = chars_of("kindle");
        let n = chars_of(to_lowercase(disk_name).as_str());
        let m = chars_of(to_lowercase(mount).as_str());
        contains_seq(n.as_slice(), kindle.as_slice()) || contains_seq(m.as_slice(), kindle.as_slice())
    }

    /// The first mounted disk that is named like a Kindle or shows a Kindle's
    /// signatures, as a Kindle connected as a USB drive.
    pub fn scan_disks(disks: &Vec<DiskProbe>) -> (r: Option<DeviceInfo>)
        ensures
            opt_device_view(r) == scan_disks_from(disks@, 0),
    {
        let mut i: usize = 0;
        while i < disks.len()
            invariant
                i <= disks@.len(),
                scan_disks_from(disks@, 0) == scan_disks_from(disks@, i as int),
            decreases disks@.len() - i,
        {
            let d = &disks[i];
            if Self::is_kindle_named(d.name.as_str(), d.dir.root.as_str())
                || Self::has_kindle_signatures(&d.dir) {
                let mut label = chars_of("Kindle (");
                push_str(&mut label, d.name.as_str());
                push_str(&mut label, ")");
                assert(label@ =~= disk_label(d.name@));
                let label = string_from_chars(label.as_slice());
                match Self::inspect_kindle_directory(&d.dir, label.as_str(), "UMS") {
                    Some(info) => return Some(info),
                    None => {},
                }
            }
            i = i + 1;
        }
        None
    }

    /// What a USB device with these vendor and product ids and, where it
    /// could be read, this serial number shows.
    pub fn usb_device_info(vid: u16, pid: u16, serial: Option<String>) -> (r: Option<DeviceInfo>)
        ensures
            opt_device_view(r) == usb_info(vid, pid, serial.deep_view()),
    {
        if vid != 0x1949 {
            return None;
        }
        let scribe = pid == 0x9981;
        let mut v4: Vec<char> = Vec::new();
        push_hex_padded(&mut v4, vid as u64, 4);
        let mut p4: Vec<char> = Vec::new();
        push_hex_padded(&mut p4, pid as u64, 4);
        let mut fallback = chars_of("usb_kindle_");
        push_chars(&mut fallback, v4.as_slice());
        push_str(&mut fallback, "_");
        push_chars(&mut fallback, p4.as_slice());
        let device_id = match serial {
            Some(s) => if trimmed(s.as_str()).len() > 0 {
                s
            } else {
                string_from_chars(fallback.as_slice())
            },
            None => string_from_chars(fallback.as_slice()),
        };
        let device_type = if scribe {
            String::from_str("Kindle Scribe (MTP)")
        } else {
            let mut t = chars_of("Kindle Device (USB PID: 0x");
            push_chars(&mut t, p4.as_slice());
            push_str(&mut t, ")");
            string_from_chars(t.as_slice())
        };
        let mut mount = if scribe {
            chars_of("mtp://0x")
        } else {
            chars_of("usb://0x")
        };
        push_chars(&mut mount, v4.as_slice());
        push_str(&mut mount, ":0x");
        push_chars(&mut mount, p4.as_slice());
        let r = DeviceInfo {
            device_id,
            device_type,
            connection_mode: if scribe {
                String::from_str("MTP")
            } else {
                String::from_str("UMS")
            },
            mount_path: string_from_chars(mount.as_slice()),
            has_clippings: true,
            has_vocab: true,
            has_notebooks: scribe,
            connected: true,
            status_message: Some(
                if scribe {
                    String::from_str(USB_MTP_STATUS)
                } else {
                    String::from_str(USB_UMS_STATUS)
                },
            ),
            is_registered: false,
            nickname: None,
        };
        assert(opt_device_view(Some(r)) =~= usb_info(vid, pid, serial.deep_view()));
        Some(r)
    }

    /// What the text of the system's USB registry (`ioreg`) shows.
    pub fn ioreg_device(text: &str) -> (r: Option<DeviceInfo>)
        ensures
            opt_device_view(r) == ioreg_info(text@),
    {
        let t = chars_of(text);
        let named = contains_seq(t.as_slice(), chars_of("Kindle Scribe").as_slice()) || (
        contains_seq(t.as_slice(), chars_of("1949").as_slice()) && contains_seq(
            t.as_slice(),
            chars_of("Amazon").as_slice(),
        ));
        if !named {
            return None;
        }
        let n = t.len();
        let mut found: Option<Vec<char>> = None;
        let mut pos: usize = 0;
        while pos < n
            invariant_except_break
                found is None,
                first_serial(lines(t@)) == first_serial(lines_from(t@, pos as int)),
            invariant
                n == t@.len(),
                pos <= n,
            ensures
                first_serial(lines(t@)) == crate::text::opt_chars(found),
            decreases n - pos,
        {
            let (end, next) = next_line(t.as_slice(), pos);
            let ghost line = t@.subrange(pos as int, end as int);
            let ghost tail = lines_from(t@, next as int);
            assert((seq![line] + tail)[0] == line);
            assert((seq![line] + tail).drop_first() =~= tail);
            let l = copy_range(t.as_slice(), pos, end);
            match serial_on_line_of(l.as_slice()) {
                Some(v) => {
                    found = Some(v);
                    break;
                },
                None => {},
            }
            pos = next;
        }
        let serial = match found {
            Some(v) => v,
            None => chars_of("kindle_scribe_mtp"),
        };
        Some(
            DeviceInfo {
                device_id: string_from_chars(serial.as_slice()),
                device_type: String::from_str("Kindle Scribe (MTP)"),
                connection_mode: String::from_str("MTP"),
                mount_path: String::from_str("usb://kindle-scribe"),
                has_clippings: true,
                has_vocab: true,
                has_notebooks: true,
                connected: true,
                status_message: Some(String::from_str(IOREG_STATUS)),
                is_registered: false,
                nickname: None,
            },
        )
    }

    /// The volume UUID that `diskutil info` reports, where it reports one.
    pub fn volume_uuid(text: &str) -> (r: Option<String>)
        ensures
            r.deep_view() == first_uuid(lines(text@)),
    {
        let t = chars_of(text);
        let n = t.len();
        let mut found: Option<Vec<char>> = None;
        let mut pos: usize = 0;
        while pos < n
            invariant_except_break
                found is None,
                first_uuid(lines(t@)) == first_uuid(lines_from(t@, pos as int)),
            invariant
                n == t@.len(),
                pos <= n,
            ensures
                first_uuid(lines(t@)) == crate::text::opt_chars(found),
            decreases n - pos,
        {
            let (end, next) = next_line(t.as_slice(), pos);
            let ghost line = t@.subrange(pos as int, end as int);
            let ghost tail = lines_from(t@, next as int);
            assert((seq![line] + tail)[0] == line);
            assert((seq![line] + tail).drop_first() =~= tail);
            let l = copy_range(t.as_slice(), pos, end);
            match uuid_on_line_of(l.as_slice()) {
                Some(v) => {
                    found = Some(v);
                    break;
                },
                None => {},
            }
            pos = next;
        }
        match found {
            Some(v) => Some(string_from_chars(v.as_slice())),
            None => None,
        }
    }
}

} // verus!
