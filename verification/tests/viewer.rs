use kindle_glean::models::{SyncConfig, NotebookSummary};
use kindle_glean::paths::resolve_path;
use kindle_glean::viewer::{
    choose_cover, choose_summary_dir, export_dir, export_file, image_data_url, is_notebook_dir_name,
    missing_file_message, notebook_page_files, page_number,
};

#[test]
fn test_sync_config_default_uses_document_dir() {
    let config = SyncConfig::default();
    assert!(!config.vault_path.is_empty());
    assert!(config.vault_path.contains("KindleGlean"));
}

#[test]
fn test_resolve_path_expansion() {
    let home = directories::UserDirs::new()
        .map(|u| u.home_dir().to_path_buf())
        .unwrap();

    assert_eq!(std::path::PathBuf::from(resolve_path("~")), home);
    assert_eq!(std::path::PathBuf::from(resolve_path("~/KindleGlean")), home.join("KindleGlean"));
    assert_eq!(std::path::PathBuf::from(resolve_path("~\\KindleGlean")), home.join("KindleGlean"));
    assert_eq!(std::path::PathBuf::from(resolve_path("/tmp/vault")), std::path::PathBuf::from("/tmp/vault"));
}

#[test]
fn pages_in_numeric_order() {
    let paths: Vec<String> = vec![
        "/n/page_10.svg", "/n/page_2.svg", "/n/cover.png", "/n/page_1.png", "/n/page_x.jpg", "/n/page_2.txt",
    ]
    .into_iter()
    .map(|s| s.to_string())
    .collect();
    assert_eq!(
        notebook_page_files(&paths),
        vec!["/n/page_x.jpg", "/n/page_1.png", "/n/page_2.svg", "/n/page_10.svg"]
    );
    assert_eq!(page_number("/n/page_12.svg"), 12);
    assert_eq!(page_number("/n/page_.svg"), 0);
    assert_eq!(page_number("/n/cover.svg"), 0);
}

#[test]
fn data_urls() {
    assert_eq!(image_data_url("/a/x.svg", b"<svg/>"), "data:image/svg+xml;base64,PHN2Zy8+");
    assert_eq!(image_data_url("/a/x.JPEG", b"ab"), "data:image/jpeg;base64,YWI=");
    assert_eq!(image_data_url("/a/x.bin", b"a"), "data:application/octet-stream;base64,YQ==");
    assert_eq!(image_data_url("/a/x.png", b""), "data:image/png;base64,");
    assert_eq!(missing_file_message("/a"), "ファイルが見つかりません: /a");
}

#[test]
fn covers() {
    assert_eq!(choose_cover("/d", &vec![false, false, false, false, false], None), None);
    assert_eq!(choose_cover("/d", &vec![false, true, true, false, false], None), Some("/d/page_1.png".to_string()));
    assert_eq!(
        choose_cover("/d", &vec![false, false, false, true, true], Some(120)),
        Some("/d/page_2.svg".to_string())
    );
    assert_eq!(
        choose_cover("/d", &vec![false, false, false, true, true], Some(900)),
        Some("/d/page_1.svg".to_string())
    );
    assert_eq!(
        choose_cover("/d", &vec![false, false, false, true, false], Some(120)),
        Some("/d/page_1.svg".to_string())
    );
}

#[test]
fn summary_dirs_and_exports() {
    let s = NotebookSummary {
        id: "nbk:a".to_string(),
        title: "a.b".to_string(),
        display_title: "a.b".to_string(),
        content_hash: "h".to_string(),
        last_modified: 0,
        synced_at: "t".to_string(),
        relative_folder: "Notebooks/W/a_b".to_string(),
        cover_image_path: None,
    };
    assert_eq!(choose_summary_dir("/v", &s, true, true), "/v/Notebooks/W/a_b");
    assert_eq!(choose_summary_dir("/v", &s, false, true), "/v/Notebooks/a_b");
    assert_eq!(choose_summary_dir("/v", &s, false, false), "/v/Notebooks/a.b");
    assert!(is_notebook_dir_name("a_b", "a.b"));
    assert!(is_notebook_dir_name("a.b", "a.b"));
    assert!(!is_notebook_dir_name("c", "a.b"));
    assert_eq!(export_dir("/t", Some("My Sample Notebook")), "/t/My Sample Notebook");
    assert_eq!(export_dir("/t", None), "/t");
    assert_eq!(export_file("/t/x", "/s/src_page_1.svg"), Some("/t/x/src_page_1.svg".to_string()));
}
