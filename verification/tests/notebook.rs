use kindle_glean::parsers::notebook::{
    ConvertedPage, ConverterOutput, DirImage, NotebookFile, NotebookParser,
};

fn file(path: &str, data: Vec<u8>) -> NotebookFile {
    NotebookFile {
        path: path.to_string(),
        data,
        last_modified: 0,
        converter: None,
        thumbnails: Vec::new(),
        candidates: Vec::new(),
    }
}

#[test]
fn test_parse_scribe_nbk_if_exists() {
    let nbk_path = std::path::Path::new("/var/folders/jg/2h1hm3cn57l94zntzvzdmj7m0000gn/T/kindle_scribe_cache/.notebooks/8eca449d-1d90-55e9-480c-28800b9cc8f7.nbk");
    if nbk_path.is_file() {
        // The notebook's bytes and its converted pages are read and produced by
        // the command-line program; a test here sees neither, so it only notes
        // that the sample is present.
        println!("sample notebook present at {}", nbk_path.display());
    }
}

#[test]
fn test_parse_extensionless_nbk_in_uuid_folder() {
    let path = "/tmp/test_scribe_nbk_uuid/87e9358b-7c2b-34dc-b250-93aace5dd640/nbk";
    let nb = NotebookParser::parse_file(&file(path, b"dummy content for testing".to_vec()));
    assert_eq!(nb.title, "87e9358b-7c2b-34dc-b250-93aace5dd640");
    assert_eq!(nb.id, "nbk:87e9358b-7c2b-34dc-b250-93aace5dd640");
    assert_eq!(nb.pages.len(), 1, "Should generate fallback page for dummy binary");
}

#[test]
fn notebook_title_and_hash_from_file() {
    let nb = NotebookParser::parse_file(&file("/k/.notebooks/アイデアメモ_2026-09.nbk", b"dummy content for testing".to_vec()));
    assert_eq!(nb.title, "アイデアメモ_2026-09");
    assert_eq!(nb.id, "nbk:アイデアメモ_2026-09");
    assert_eq!(
        nb.content_hash,
        "427fe305deb17a30272aa8fef6d596a34d9bab36a6fd2e74f3674ef43923b8ee"
    );
    assert_eq!(nb.relative_folder, None);
}

#[test]
fn placeholder_page_names_the_notebook() {
    let nb = NotebookParser::parse_file(&file("/k/.notebooks/Plan.nbk", b"not a zip".to_vec()));
    assert_eq!(nb.pages.len(), 1);
    assert_eq!(nb.pages[0].page_num, 1);
    assert_eq!(nb.pages[0].image_filename, "page_1.svg");
    let svg = String::from_utf8(nb.pages[0].image_data.clone()).unwrap();
    assert!(svg.starts_with("<svg xmlns=\"http://www.w3.org/2000/svg\""));
    assert!(svg.contains("ID: Plan</text>"));
    assert!(svg.ends_with("</svg>"));
}

#[test]
fn title_of_file_named_nbk_is_its_folder() {
    assert_eq!(NotebookParser::title("/a/b/NBK"), "b");
    assert_eq!(NotebookParser::title("/a/b/note.nbk"), "note");
    assert_eq!(NotebookParser::title(""), "Untitled Notebook");
    assert!(NotebookParser::is_nbk_file("/a/b/x.NBK"));
    assert!(NotebookParser::is_nbk_file("/a/b/nbk"));
    assert!(!NotebookParser::is_nbk_file("/a/b/x.zip"));
}

#[test]
fn converter_pages_are_taken_as_reported() {
    let mut f = file("/k/n.nbk", b"raw".to_vec());
    f.converter = Some(ConverterOutput {
        success: true,
        pages: vec![
            ConvertedPage { page_num: 1, filename: "page_1.svg".to_string(), data: Some(b"<svg>1</svg>".to_vec()) },
            ConvertedPage { page_num: 2, filename: "page_2.svg".to_string(), data: None },
            ConvertedPage { page_num: 3, filename: "page_3.svg".to_string(), data: Some(b"<svg>3</svg>".to_vec()) },
        ],
    });
    let nb = NotebookParser::parse_file(&f);
    assert_eq!(nb.pages.len(), 2);
    assert_eq!(nb.pages[0].page_num, 1);
    assert_eq!(nb.pages[1].page_num, 3);
    assert_eq!(nb.pages[1].image_filename, "page_3.svg");
    assert_eq!(nb.pages[1].image_data, b"<svg>3</svg>".to_vec());
}

#[test]
fn failed_converter_is_ignored() {
    let mut f = file("/k/n.nbk", b"raw".to_vec());
    f.converter = Some(ConverterOutput {
        success: false,
        pages: vec![ConvertedPage { page_num: 1, filename: "page_1.svg".to_string(), data: Some(b"x".to_vec()) }],
    });
    let nb = NotebookParser::parse_file(&f);
    assert_eq!(nb.pages.len(), 1);
    assert!(String::from_utf8(nb.pages[0].image_data.clone()).unwrap().contains("ID: n</text>"));
}

fn zip_bytes(entries: &[(&str, &[u8])]) -> Vec<u8> {
    let mut buf = std::io::Cursor::new(Vec::new());
    {
        let mut w = zip::ZipWriter::new(&mut buf);
        for (name, data) in entries {
            w.start_file(*name, zip::write::SimpleFileOptions::default()).unwrap();
            std::io::Write::write_all(&mut w, data).unwrap();
        }
        w.finish().unwrap();
    }
    buf.into_inner()
}

#[test]
fn zip_pages_are_numbered_in_entry_order() {
    let data = zip_bytes(&[
        ("b.svg", b"<svg>b</svg>"),
        ("meta.json", b"{}"),
        ("readme.txt", b"hi"),
        ("page_x.jpg", b"jpeg"),
        ("a.png", b"png"),
        ("c.jpg", b"skipped"),
    ]);
    let nb = NotebookParser::parse_file(&file("/k/book.zip", data));
    let names: Vec<&str> = nb.pages.iter().map(|p| p.image_filename.as_str()).collect();
    assert_eq!(names, vec!["page_1.svg", "page_2.jpg", "page_3.png"]);
    assert_eq!(nb.pages[0].image_data, b"<svg>b</svg>".to_vec());
    assert_eq!(nb.pages[2].page_num, 3);
}

#[test]
fn thumbnails_sorted_by_name_and_filtered() {
    let mut f = file("/k/.notebooks/ab-cd.nbk", b"raw".to_vec());
    f.thumbnails = vec![
        None,
        Some(vec![
            DirImage { name: "abcd_2.png".to_string(), data: Some(b"2".to_vec()) },
            DirImage { name: "other.png".to_string(), data: Some(b"x".to_vec()) },
            DirImage { name: "ab-cd_1.jpg".to_string(), data: Some(b"1".to_vec()) },
            DirImage { name: "ab-cd.txt".to_string(), data: Some(b"t".to_vec()) },
            DirImage { name: "abcd_3.png".to_string(), data: None },
        ]),
    ];
    let nb = NotebookParser::parse_file(&f);
    let names: Vec<&str> = nb.pages.iter().map(|p| p.image_filename.as_str()).collect();
    assert_eq!(names, vec!["page_1.jpg", "page_2.png"]);
    assert_eq!(nb.pages[0].image_data, b"1".to_vec());
    assert_eq!(nb.pages[1].image_data, b"2".to_vec());
}

#[test]
fn candidate_image_is_the_single_page() {
    let mut f = file("/k/.notebooks/Plan.nbk", b"raw".to_vec());
    f.candidates = vec![None, Some(b"jpg".to_vec()), Some(b"png".to_vec()), None];
    let nb = NotebookParser::parse_file(&f);
    assert_eq!(nb.pages.len(), 1);
    assert_eq!(nb.pages[0].image_filename, "page_1.jpg");
    assert_eq!(nb.pages[0].image_data, b"jpg".to_vec());
    assert_eq!(
        NotebookParser::candidate_paths("/k/.notebooks/Plan.nbk", "Plan"),
        vec![
            "/k/.notebooks/thumbnails/Plan.png",
            "/k/.notebooks/thumbnails/Plan.jpg",
            "/k/.notebooks/Plan.png",
            "/k/.notebooks/Plan.jpg",
        ]
    );
}

#[test]
fn thumbnail_search_dirs() {
    assert_eq!(
        NotebookParser::search_dirs("/k/.notebooks/x/n.nbk"),
        vec!["/k/.notebooks/x/thumbnails", "/k/.notebooks/thumbnails"]
    );
    assert!(NotebookParser::matches_thumbnail("ab-cd_1.png", "ab-cd"));
    assert!(NotebookParser::matches_thumbnail("abcd_1.jpg", "ab-cd"));
    assert!(!NotebookParser::matches_thumbnail("abcd_1.gif", "ab-cd"));
}

#[test]
fn folder_is_kept() {
    let nb = NotebookParser::parse_file_with_folder(&file("/k/x.nbk", Vec::new()), Some("Work".to_string()));
    assert_eq!(nb.relative_folder, Some("Work".to_string()));
    assert_eq!(nb.pages.len(), 1);
}
