//! The records that the parsers produce and the rest of the application passes around.

use vstd::prelude::*;

use crate::datetime::{DateTimeParts, UtcDateTime};

verus! {

#[derive(Debug, Clone, Copy, PartialEq, Eq, Structural)]
pub enum ClippingType {
    Highlight,
    Note,
    Bookmark,
}

impl ClippingType {
    /// The name that `Display` prints.
    pub open spec fn name(self) -> Seq<char> {
        match self {
            ClippingType::Highlight => "Highlight"@,
            ClippingType::Note => "Note"@,
            ClippingType::Bookmark => "Bookmark"@,
        }
    }

    pub fn as_str(&self) -> (r: &'static str)
        ensures
            r@ == self.name(),
    {
        match self {
            ClippingType::Highlight => "Highlight",
            ClippingType::Note => "Note",
            ClippingType::Bookmark => "Bookmark",
        }
    }

    /// The text that `Display` writes for this type.
    pub fn to_display_string(&self) -> (r: String)
        ensures
            r@ == self.name(),
    {
        String::from_str(self.as_str())
    }
}

/// The spec-level content of a [`Clipping`].
pub struct ClippingView {
    pub id: Seq<char>,
    pub book_title: Seq<char>,
    pub author: Option<Seq<char>>,
    pub clipping_type: ClippingType,
    pub location: Option<Seq<char>>,
    pub page: Option<u32>,
    pub created_at: Option<DateTimeParts>,
    pub content: Seq<char>,
}

/// One highlight, note or bookmark of `My Clippings.txt`.
#[derive(Debug, Clone)]
pub struct Clipping {
    /// Lowercase hex SHA-256 of title, location and content.
    pub id: String,
    pub book_title: String,
    pub author: Option<String>,
    pub clipping_type: ClippingType,
    pub location: Option<String>,
    pub page: Option<u32>,
    pub created_at: Option<UtcDateTime>,
    pub content: String,
}

pub open spec fn opt_date_view(d: Option<UtcDateTime>) -> Option<DateTimeParts> {
    match d {
        Some(t) => Some(t@),
        None => None,
    }
}

impl View for Clipping {
    type V = ClippingView;

    open spec fn view(&self) -> ClippingView {
        ClippingView {
            id: self.id@,
            book_title: self.book_title@,
            author: self.author.deep_view(),
            clipping_type: self.clipping_type,
            location: self.location.deep_view(),
            page: self.page,
            created_at: opt_date_view(self.created_at),
            content: self.content@,
        }
    }
}

} // verus!

verus! {

/// A word looked up in the Kindle dictionary, with the sentence it came from.
#[derive(Debug, Clone)]
pub struct VocabLookup {
    pub id: String,
    pub word: String,
    pub stem: Option<String>,
    pub lang: Option<String>,
    pub usage: Option<String>,
    pub book_title: Option<String>,
    pub book_author: Option<String>,
    /// Milliseconds since the Unix epoch.
    pub timestamp: i64,
}

/// The spec-level content of a [`VocabLookup`].
pub struct VocabView {
    pub id: Seq<char>,
    pub word: Seq<char>,
    pub stem: Option<Seq<char>>,
    pub lang: Option<Seq<char>>,
    pub usage: Option<Seq<char>>,
    pub book_title: Option<Seq<char>>,
    pub book_author: Option<Seq<char>>,
    pub timestamp: i64,
}

impl View for VocabLookup {
    type V = VocabView;

    open spec fn view(&self) -> VocabView {
        VocabView {
            id: self.id@,
            word: self.word@,
            stem: self.stem.deep_view(),
            lang: self.lang.deep_view(),
            usage: self.usage.deep_view(),
            book_title: self.book_title.deep_view(),
            book_author: self.book_author.deep_view(),
            timestamp: self.timestamp,
        }
    }
}

/// One page image of a Scribe notebook.
#[derive(Debug, Clone)]
pub struct NotebookPage {
    pub page_num: usize,
    pub image_data: Vec<u8>,
    pub image_filename: String,
}

/// The spec-level content of a [`NotebookPage`].
pub struct NotebookPageView {
    pub page_num: int,
    pub image_data: Seq<u8>,
    pub image_filename: Seq<char>,
}

impl View for NotebookPage {
    type V = NotebookPageView;

    open spec fn view(&self) -> NotebookPageView {
        NotebookPageView {
            page_num: self.page_num as int,
            image_data: self.image_data@,
            image_filename: self.image_filename@,
        }
    }
}

/// A Kindle Scribe notebook with its page images.
#[derive(Debug, Clone)]
pub struct Notebook {
    pub id: String,
    pub title: String,
    /// Lowercase hex SHA-256 of the notebook file.
    pub content_hash: String,
    /// Seconds since the Unix epoch.
    pub last_modified: i64,
    pub pages: Vec<NotebookPage>,
    pub relative_folder: Option<String>,
}

/// Where and what to synchronise.
#[derive(Debug, Clone)]
pub struct SyncConfig {
    pub vault_path: String,
    pub sync_clippings: bool,
    pub sync_vocab: bool,
    pub sync_notebooks: bool,
    pub auto_sync: bool,
    pub auto_eject: bool,
    /// Folder inside the vault, empty for none.
    pub subfolder: String,
}

/// The spec-level content of a [`SyncConfig`].
pub struct SyncConfigView {
    pub vault_path: Seq<char>,
    pub sync_clippings: bool,
    pub sync_vocab: bool,
    pub sync_notebooks: bool,
    pub auto_sync: bool,
    pub auto_eject: bool,
    pub subfolder: Seq<char>,
}

impl View for SyncConfig {
    type V = SyncConfigView;

    open spec fn view(&self) -> SyncConfigView {
        SyncConfigView {
            vault_path: self.vault_path@,
            sync_clippings: self.sync_clippings,
            sync_vocab: self.sync_vocab,
            sync_notebooks: self.sync_notebooks,
            auto_sync: self.auto_sync,
            auto_eject: self.auto_eject,
            subfolder: self.subfolder@,
        }
    }
}

impl SyncConfig {
    /// The default settings with the given vault: everything synchronised,
    /// automatic synchronisation on, automatic eject off, no subfolder.
    pub fn with_vault_path(vault_path: String) -> (r: SyncConfig)
        ensures
            r.vault_path == vault_path,
            r.sync_clippings && r.sync_vocab && r.sync_notebooks && r.auto_sync,
            !r.auto_eject,
            r.subfolder@.len() == 0,
    {
        SyncConfig {
            vault_path,
            sync_clippings: true,
            sync_vocab: true,
            sync_notebooks: true,
            auto_sync: true,
            auto_eject: false,
            subfolder: String::new(),
        }
    }

    /// The default settings for a user with these directories.
    pub fn default_in(dirs: &Option<crate::paths::UserDirs>) -> (r: SyncConfig)
        ensures
            r.vault_path@ == crate::paths::default_vault_path(*dirs),
            r.sync_clippings && r.sync_vocab && r.sync_notebooks && r.auto_sync,
            !r.auto_eject,
            r.subfolder@.len() == 0,
    {
        Self::with_vault_path(crate::paths::default_vault_path_in(dirs))
    }
}

impl Default for SyncConfig {
    /// The default settings, with the vault `KindleGlean` in the user's documents.
    fn default() -> (r: SyncConfig)
        ensures
            exists|dirs: Option<crate::paths::UserDirs>| r.vault_path@ == crate::paths::default_vault_path(dirs),
            r.sync_clippings && r.sync_vocab && r.sync_notebooks && r.auto_sync,
            !r.auto_eject,
            r.subfolder@.len() == 0,
    {
        let dirs = crate::paths::user_dirs();
        Self::default_in(&dirs)
    }
}

/// A synchronised notebook as the in-app viewer lists it.
#[derive(Debug, Clone)]
pub struct NotebookSummary {
    pub id: String,
    pub title: String,
    pub display_title: String,
    pub content_hash: String,
    pub last_modified: i64,
    pub synced_at: String,
    pub relative_folder: String,
    pub cover_image_path: Option<String>,
}

/// The outcome of one synchronisation.
#[derive(Debug, Clone)]
pub struct SyncStats {
    pub highlights_added: usize,
    pub notes_added: usize,
    pub vocab_added: usize,
    pub notebooks_added: usize,
    pub total_books_updated: usize,
    pub timestamp: String,
    pub device_name: String,
    pub success: bool,
    pub message: String,
}

impl Default for SyncStats {
    /// All counts zero, all texts empty, not successful.
    fn default() -> (r: SyncStats)
        ensures
            r.highlights_added == 0 && r.notes_added == 0 && r.vocab_added == 0,
            r.notebooks_added == 0 && r.total_books_updated == 0,
            r.timestamp@.len() == 0 && r.device_name@.len() == 0 && r.message@.len() == 0,
            !r.success,
    {
        SyncStats {
            highlights_added: 0,
            notes_added: 0,
            vocab_added: 0,
            notebooks_added: 0,
            total_books_updated: 0,
            timestamp: String::new(),
            device_name: String::new(),
            success: false,
            message: String::new(),
        }
    }
}

/// A Kindle found on USB or in a folder.
#[derive(Debug, Clone)]
pub struct DeviceInfo {
    /// Hardware serial number, volume id or folder id.
    pub device_id: String,
    pub device_type: String,
    /// "UMS", "MTP" or "Folder".
    pub connection_mode: String,
    pub mount_path: String,
    pub has_clippings: bool,
    pub has_vocab: bool,
    pub has_notebooks: bool,
    pub connected: bool,
    pub status_message: Option<String>,
    /// Whether a device profile exists for it.
    pub is_registered: bool,
    pub nickname: Option<String>,
}

/// The spec-level content of a [`DeviceInfo`].
pub struct DeviceInfoView {
    pub device_id: Seq<char>,
    pub device_type: Seq<char>,
    pub connection_mode: Seq<char>,
    pub mount_path: Seq<char>,
    pub has_clippings: bool,
    pub has_vocab: bool,
    pub has_notebooks: bool,
    pub connected: bool,
    pub status_message: Option<Seq<char>>,
    pub is_registered: bool,
    pub nickname: Option<Seq<char>>,
}

impl View for DeviceInfo {
    type V = DeviceInfoView;

    open spec fn view(&self) -> DeviceInfoView {
        DeviceInfoView {
            device_id: self.device_id@,
            device_type: self.device_type@,
            connection_mode: self.connection_mode@,
            mount_path: self.mount_path@,
            has_clippings: self.has_clippings,
            has_vocab: self.has_vocab,
            has_notebooks: self.has_notebooks,
            connected: self.connected,
            status_message: self.status_message.deep_view(),
            is_registered: self.is_registered,
            nickname: self.nickname.deep_view(),
        }
    }
}

pub open spec fn opt_device_view(o: Option<DeviceInfo>) -> Option<DeviceInfoView> {
    match o {
        Some(i) => Some(i@),
        None => None,
    }
}

/// The settings kept for one device.
#[derive(Debug, Clone)]
pub struct DeviceProfile {
    pub device_id: String,
    pub nickname: String,
    pub device_type: String,
    pub vault_path: String,
    pub subfolder: String,
    pub sync_clippings: bool,
    pub sync_vocab: bool,
    pub sync_notebooks: bool,
    pub auto_sync: bool,
    pub auto_eject: bool,
    pub created_at: String,
    pub last_connected_at: String,
}

impl DeviceProfile {
    /// The settings that a synchronisation of this device uses.
    pub fn to_config(&self) -> (r: SyncConfig)
        ensures
            r.vault_path@ == self.vault_path@,
            r.subfolder@ == self.subfolder@,
            r.sync_clippings == self.sync_clippings,
            r.sync_vocab == self.sync_vocab,
            r.sync_notebooks == self.sync_notebooks,
            r.auto_sync == self.auto_sync,
            r.auto_eject == self.auto_eject,
    {
        SyncConfig {
            vault_path: self.vault_path.clone(),
            subfolder: self.subfolder.clone(),
            sync_clippings: self.sync_clippings,
            sync_vocab: self.sync_vocab,
            sync_notebooks: self.sync_notebooks,
            auto_sync: self.auto_sync,
            auto_eject: self.auto_eject,
        }
    }
}

/// A progress report during a synchronisation.
#[derive(Debug, Clone)]
pub struct SyncProgress {
    pub step: String,
    pub message: String,
    pub percentage: u32,
    pub current_item: Option<String>,
}

/// How many items of each kind have been synchronised so far.
#[derive(Debug, Clone)]
pub struct SyncedCounts {
    pub highlights: usize,
    pub notes: usize,
    pub vocab: usize,
    pub notebooks: usize,
}

impl Default for SyncedCounts {
    /// All counts zero.
    fn default() -> (r: SyncedCounts)
        ensures
            r.highlights == 0 && r.notes == 0 && r.vocab == 0 && r.notebooks == 0,
    {
        SyncedCounts { highlights: 0, notes: 0, vocab: 0, notebooks: 0 }
    }
}

} // verus!
