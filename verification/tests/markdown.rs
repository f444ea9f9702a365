use kindle_glean::generator::markdown::MarkdownGenerator;

#[test]
fn test_sanitize_filename_multibyte() {
    // Japanese string longer than 100 characters to verify no UTF-8 char boundary panics
    let long_title = "これは非常に長い日本語の書籍タイトルのテストです。マルチバイト文字が境界にある場合にパニックが起きないかどうかを確実に検証するための長い文字列です。さらに文字を続けていきます。";
    let sanitized = MarkdownGenerator::sanitize_filename(long_title);
    assert!(sanitized.chars().count() <= 100);
    assert!(!sanitized.is_empty());
}

use kindle_glean::models::{Clipping, ClippingType, VocabLookup};

fn clip(t: ClippingType, content: &str, loc: &str) -> Clipping {
    Clipping {
        id: String::new(),
        book_title: "Book".to_string(),
        author: Some("Writer".to_string()),
        clipping_type: t,
        location: Some(loc.to_string()),
        page: None,
        created_at: None,
        content: content.to_string(),
    }
}

#[test]
fn book_entries_are_quoted() {
    let cs = vec![
        clip(ClippingType::Highlight, "line one\nline two", "1-2"),
        clip(ClippingType::Note, "a thought", "3"),
        clip(ClippingType::Bookmark, "", "4"),
    ];
    let (text, n) = MarkdownGenerator::render_book_clippings("Book", None, &cs, Some(""), "2024-01-01 00:00:00");
    assert_eq!(n, 3);
    assert_eq!(
        text,
        "> line one\n> line two\n— 位置: 1-2 | 追加日: Unknown\n\n\
         > 💡 **メモ:** a thought\n— 位置: 3 | 追加日: Unknown\n\n\
         🔖 **しおり:** 位置: 4 | 追加日: Unknown\n\n"
    );
}

#[test]
fn book_rerun_adds_nothing() {
    let cs = vec![
        clip(ClippingType::Highlight, "  first words \r\nmore", "10"),
        clip(ClippingType::Note, "my note", "11"),
    ];
    let (text, n) = MarkdownGenerator::render_book_clippings("A \"B\"", None, &cs, None, "2024-01-01 00:00:00");
    assert_eq!(n, 2);
    assert!(text.starts_with("---\ntype: book-highlight\ntitle: \"A \\\"B\\\"\"\nauthor: \"Unknown\"\n"));
    let (again, m) = MarkdownGenerator::render_book_clippings("A \"B\"", None, &cs, Some(&text), "2024-02-01 00:00:00");
    assert_eq!(m, 0);
    assert_eq!(again, "");
}

#[test]
fn book_skips_clippings_already_quoted() {
    let existing = "# Book\n\n> kept words\n— 位置: 1 | 追加日: Unknown\n\nplain line\n";
    let cs = vec![
        clip(ClippingType::Highlight, "kept words", "1"),
        clip(ClippingType::Highlight, "plain line", "2"),
        clip(ClippingType::Highlight, "new words", "3"),
    ];
    let (text, n) = MarkdownGenerator::render_book_clippings("Book", None, &cs, Some(existing), "now");
    assert_eq!(n, 1);
    assert_eq!(text, "> new words\n— 位置: 3 | 追加日: Unknown\n\n");
}

#[test]
fn vocabulary_rerun_adds_nothing() {
    let w = VocabLookup {
        id: "1".to_string(),
        word: "Serendipity".to_string(),
        stem: None,
        lang: None,
        usage: None,
        book_title: None,
        book_author: None,
        timestamp: 0,
    };
    let ws = vec![w];
    let (text, n) = MarkdownGenerator::render_vocabulary(&ws, None, "2024-01-01 00:00:00");
    assert_eq!(n, 1);
    assert!(text.contains("### Serendipity\n"));
    let (again, m) = MarkdownGenerator::render_vocabulary(&ws, Some(&text), "2024-03-01 00:00:00");
    assert_eq!(m, 0);
    assert_eq!(again, "");
}

#[test]
fn vocabulary_lookup_time_in_utc() {
    let mut w = VocabLookup {
        id: "1".to_string(),
        word: "epoch".to_string(),
        stem: None,
        lang: None,
        usage: None,
        book_title: None,
        book_author: None,
        timestamp: 1_700_000_000_000,
    };
    let (text, _) = MarkdownGenerator::render_vocabulary(&vec![w.clone()], Some(""), "now");
    assert!(text.contains("- **検索日時:** 2023-11-14 22:13\n"));
    w.timestamp = -1;
    let (text, _) = MarkdownGenerator::render_vocabulary(&vec![w], Some(""), "now");
    assert!(text.contains("- **検索日時:** 1969-12-31 23:59\n"));
}
