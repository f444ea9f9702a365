use kindle_glean::models::{Clipping, ClippingType, SyncConfig, SyncStats};
use kindle_glean::records::{clipping_type_from_stored, config_entries, config_from_entries, notebook_summary};
use kindle_glean::sync::{
    clippings_candidates, count_types, group_by_book, is_notebook_file, needs_export, notebook_folder_of,
    pending, phase_progress, reexport_summary, sync_summary, SeenIds, SyncPhase,
};

fn clip(title: &str, author: Option<&str>, t: ClippingType, content: &str) -> Clipping {
    Clipping {
        id: format!("{}:{}", title, content),
        book_title: title.to_string(),
        author: author.map(|a| a.to_string()),
        clipping_type: t,
        location: None,
        page: None,
        created_at: None,
        content: content.to_string(),
    }
}

#[test]
fn clippings_grouped_by_book_in_first_order() {
    let cs = vec![
        clip("B", Some("b1"), ClippingType::Highlight, "1"),
        clip("A", None, ClippingType::Note, "2"),
        clip("B", Some("b2"), ClippingType::Note, "3"),
        clip("A", Some("a"), ClippingType::Bookmark, ""),
    ];
    let groups = group_by_book(&cs);
    assert_eq!(groups.len(), 2);
    assert_eq!(groups[0].title, "B");
    assert_eq!(groups[0].author, Some("b1".to_string()));
    assert_eq!(groups[0].members, vec![0, 2]);
    assert_eq!(groups[1].title, "A");
    assert_eq!(groups[1].author, None);
    assert_eq!(groups[1].members, vec![1, 3]);
    assert_eq!(count_types(&cs, &groups[0].members), (1, 1));
    assert_eq!(count_types(&cs, &groups[1].members), (0, 1));
}

#[test]
fn pending_members_follow_the_records() {
    let members = vec![0, 2, 5];
    assert_eq!(pending(&members, false, &vec![true, true, true]), vec![0, 2, 5]);
    assert_eq!(pending(&members, true, &vec![true, false, true]), vec![2]);
    assert_eq!(pending(&members, true, &vec![true, true, true]), Vec::<usize>::new());
    assert_eq!(pending(&members, true, &vec![true]), vec![2, 5]);
}

#[test]
fn summaries() {
    let mut stats = SyncStats::default();
    stats.highlights_added = 2;
    stats.notes_added = 1;
    stats.vocab_added = 10;
    stats.notebooks_added = 0;
    stats.total_books_updated = 3;
    assert_eq!(sync_summary(&stats), "同期完了: ハイライト 2件, メモ 1件, 語彙 10件, ノート 0件");
    assert_eq!(reexport_summary(&stats), "再出力完了: 書籍 3冊, 語彙 10件, ノート 0冊");
    let p = phase_progress(SyncPhase::Vocab);
    assert_eq!(p.step, "vocab");
    assert_eq!(p.percentage, 80);
    assert_eq!(p.current_item, Some("Kindle_Vocabulary.md".to_string()));
    assert_eq!(phase_progress(SyncPhase::Completed).message, "すべての同期が完了しました");
}

#[test]
fn notebook_files_and_folders() {
    assert!(is_notebook_file("/n/a.NBK"));
    assert!(is_notebook_file("/n/a.zip"));
    assert!(is_notebook_file("/n/x/nbk"));
    assert!(!is_notebook_file("/n/a.png"));
    assert_eq!(notebook_folder_of("/n/Work/a.nbk", "/n"), Some("Work".to_string()));
    assert_eq!(notebook_folder_of("/n/a.nbk", "/n"), None);
    assert_eq!(notebook_folder_of("/n/Work/uuid/nbk", "/n"), Some("Work".to_string()));
    assert_eq!(notebook_folder_of("/other/a.nbk", "/n"), None);
    assert!(needs_export(false, true, true));
    assert!(needs_export(true, false, true));
    assert!(needs_export(true, true, false));
    assert!(!needs_export(true, true, true));
    assert_eq!(clippings_candidates("/k"), vec!["/k/documents/My Clippings.txt", "/k/My Clippings.txt"]);
}

#[test]
fn seen_ids_like_a_set() {
    let mut seen = SeenIds::new();
    assert!(seen.insert("nbk:a"));
    assert!(seen.insert("nbk:b"));
    assert!(!seen.insert("nbk:a"));
    assert_eq!(seen.ids.len(), 2);
}

#[test]
fn settings_read_back() {
    let c = SyncConfig {
        vault_path: "/v".to_string(),
        sync_clippings: true,
        sync_vocab: false,
        sync_notebooks: true,
        auto_sync: false,
        auto_eject: true,
        subfolder: "Kindle".to_string(),
    };
    let rows = config_entries(&c);
    assert_eq!(rows[1], ("sync_clippings".to_string(), "true".to_string()));
    assert_eq!(rows[2], ("sync_vocab".to_string(), "false".to_string()));
    let defaults = SyncConfig {
        vault_path: "/d".to_string(),
        sync_clippings: false,
        sync_vocab: true,
        sync_notebooks: false,
        auto_sync: true,
        auto_eject: false,
        subfolder: String::new(),
    };
    let mut shuffled = rows.clone();
    shuffled.reverse();
    shuffled.insert(0, ("unknown".to_string(), "x".to_string()));
    let back = config_from_entries(&shuffled, defaults.clone());
    assert_eq!(back.vault_path, "/v");
    assert!(back.sync_clippings && !back.sync_vocab && back.sync_notebooks);
    assert!(!back.auto_sync && back.auto_eject);
    assert_eq!(back.subfolder, "Kindle");
    let partial = config_from_entries(&vec![("auto_sync".to_string(), "yes".to_string())], defaults);
    assert!(!partial.auto_sync);
    assert_eq!(partial.vault_path, "/d");
}

#[test]
fn stored_clipping_types() {
    for t in [ClippingType::Highlight, ClippingType::Note, ClippingType::Bookmark] {
        assert_eq!(clipping_type_from_stored(&t.to_display_string()), t);
    }
    assert_eq!(clipping_type_from_stored("NOTE"), ClippingType::Note);
    assert_eq!(clipping_type_from_stored("other"), ClippingType::Highlight);
}

#[test]
fn notebook_summaries() {
    let s = notebook_summary(
        "nbk:1".to_string(),
        "87e9358b-7c2b-34dc-b250-93aace5dd640".to_string(),
        "h".to_string(),
        5,
        "t".to_string(),
        Some(" Work ".to_string()),
    );
    assert_eq!(s.display_title, "ノート (87e9358b)");
    assert_eq!(s.relative_folder, "Notebooks/Work/87e9358b-7c2b-34dc-b250-93aace5dd640");
    assert_eq!(s.cover_image_path, None);
    let s = notebook_summary("i".to_string(), "a.b".to_string(), "h".to_string(), 0, "t".to_string(), Some("  ".to_string()));
    assert_eq!(s.display_title, "a.b");
    assert_eq!(s.relative_folder, "Notebooks/a_b");
}

use kindle_glean::models::VocabLookup;
use kindle_glean::sync::{sync_book, sync_vocab};

#[test]
fn book_sync_then_resync_adds_nothing() {
    let all = vec![
        clip("Book", Some("Ann"), ClippingType::Highlight, "first"),
        clip("Book", Some("Ann"), ClippingType::Note, "second"),
        clip("Book", Some("Ann"), ClippingType::Bookmark, ""),
    ];
    let members = vec![0usize, 1, 2];
    let first = sync_book(&all, &members, &vec![false, false, false], "Book", Some("Ann"), None, "t1");
    assert_eq!(first.added, 3);
    assert_eq!(first.written, vec![0, 1, 2]);
    assert_eq!((first.highlights, first.notes), (1, 1));
    assert!(first.text.starts_with("---\ntype: book-highlight\n"));
    // Every clipping is now recorded and the file exists.
    let second = sync_book(&all, &members, &vec![true, true, true], "Book", Some("Ann"), Some(&first.text), "t2");
    assert_eq!(second.added, 0);
    assert!(second.written.is_empty());
    assert_eq!(second.text, "");
    assert_eq!((second.highlights, second.notes), (0, 0));
}

#[test]
fn book_sync_writes_only_unrecorded() {
    let all = vec![
        clip("Book", None, ClippingType::Highlight, "old"),
        clip("Book", None, ClippingType::Highlight, "new"),
    ];
    let existing = "# Book\n\n> old\n— 位置: N/A | 追加日: Unknown\n\n";
    let r = sync_book(&all, &vec![0, 1], &vec![true, false], "Book", None, Some(existing), "t");
    assert_eq!(r.added, 1);
    assert_eq!(r.written, vec![1]);
    assert_eq!(r.text, "> new\n— 位置: N/A | 追加日: Unknown\n\n");
    assert_eq!((r.highlights, r.notes), (1, 0));
}

fn word(id: &str, w: &str) -> VocabLookup {
    VocabLookup {
        id: id.to_string(),
        word: w.to_string(),
        stem: None,
        lang: None,
        usage: None,
        book_title: None,
        book_author: None,
        timestamp: 0,
    }
}

#[test]
fn vocab_sync_then_resync_adds_nothing() {
    let ws = vec![word("1", "alpha"), word("2", "Beta"), word("3", "beta")];
    let first = sync_vocab(&ws, &vec![false, false, false], None, "t1");
    assert_eq!(first.added, 2);
    assert_eq!(first.written, vec![0, 1, 2]);
    assert!(first.text.contains("### alpha\n"));
    let second = sync_vocab(&ws, &vec![true, true, true], Some(&first.text), "t2");
    assert_eq!(second.added, 0);
    assert!(second.written.is_empty());
    assert_eq!(second.text, "");
}

#[test]
fn changed_notebook_is_written_once() {
    // Recorded with the old hash: the new content is written.
    assert!(needs_export(true, false, true));
    // Recorded with the new hash afterwards: not written again.
    assert!(!needs_export(true, true, true));
}
