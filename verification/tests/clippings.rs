use kindle_glean::models::ClippingType;
use kindle_glean::parsers::clippings::ClippingsParser;

#[test]
fn test_parse_japanese_clipping() {
    let sample = r#"﻿クリーンアーキテクチャ (Robert C. Martin)
- あなたのハイライト (位置No. 245-247) | 作成日時: 2026年9月18日金曜日 21:30:15

アーキテクチャの目的は、求められるシステムを構築・保守するために必要な人材を最小限に抑えることである。
==========
クリーンアーキテクチャ (Robert C. Martin)
- あなたのメモ (位置No. 250) | 作成日時: 2026年9月18日金曜日 21:32:00

ここは重要な設計原則
=========="#;

    let clippings = ClippingsParser::parse_str(sample);
    assert_eq!(clippings.len(), 2);

    assert_eq!(clippings[0].book_title, "クリーンアーキテクチャ");
    assert_eq!(clippings[0].author, Some("Robert C. Martin".to_string()));
    assert_eq!(clippings[0].clipping_type, ClippingType::Highlight);
    assert_eq!(clippings[0].location, Some("245-247".to_string()));
    assert!(clippings[0].content.contains("アーキテクチャの目的"));
    assert!(clippings[0].created_at.is_some());

    assert_eq!(clippings[1].clipping_type, ClippingType::Note);
    assert_eq!(clippings[1].location, Some("250".to_string()));
    assert_eq!(clippings[1].content, "ここは重要な設計原則");
}

#[test]
fn test_parse_english_clipping() {
    let sample = r#"Thinking, Fast and Slow (Daniel Kahneman)
- Your Highlight on page 12 | location 180-181 | Added on Tuesday, September 15, 2026 8:43:10 PM

A reliable way to make people believe in falsehoods is frequent repetition.
==========
"#;

    let clippings = ClippingsParser::parse_str(sample);
    assert_eq!(clippings.len(), 1);
    assert_eq!(clippings[0].book_title, "Thinking, Fast and Slow");
    assert_eq!(clippings[0].author, Some("Daniel Kahneman".to_string()));
    assert_eq!(clippings[0].page, Some(12));
    assert_eq!(clippings[0].location, Some("180-181".to_string()));
    assert!(clippings[0].created_at.is_some());
}

#[test]
fn test_parse_scribe_actual_clipping() {
    let sample = r#"﻿言語化するための小説思考 (小川哲)
- 6ページ|位置No. 34-35のハイライト |作成日: 2026年5月4日月曜日 20:26:13

小説の技術的な側面とは、（誤解を恐れつつ小声で言うならば）「読者の動物的なバグを利用したハッキング技術」に近い。
==========
"#;
    let clippings = ClippingsParser::parse_str(sample);
    assert_eq!(clippings.len(), 1);
    assert_eq!(clippings[0].book_title, "言語化するための小説思考");
    assert_eq!(clippings[0].author, Some("小川哲".to_string()));
    assert_eq!(clippings[0].page, Some(6));
    assert_eq!(clippings[0].location, Some("34-35".to_string()));
    assert_eq!(clippings[0].clipping_type, ClippingType::Highlight);
    assert!(clippings[0].created_at.is_some());
}

#[test]
fn clipping_id_ignores_type_and_author() {
    let sample = "Book (One)\n- Your Highlight on Location 10 | Added on Monday, January 1, 2024 10:00:00 AM\n\nSame text\n==========\nBook (Two)\n- Your Note on Location 10 | Added on Tuesday, January 2, 2024 11:00:00 AM\n\nSame text\n==========\nBook (One)\n- Your Highlight on Location 11 | Added on Monday, January 1, 2024 10:00:00 AM\n\nSame text\n==========\n";
    let cs = ClippingsParser::parse_str(sample);
    assert_eq!(cs.len(), 3);
    assert_eq!(cs[0].clipping_type, ClippingType::Highlight);
    assert_eq!(cs[1].clipping_type, ClippingType::Note);
    assert_eq!(cs[0].id, cs[1].id);
    assert_ne!(cs[0].id, cs[2].id);
    assert_eq!(cs[0].id.len(), 64);
    assert!(cs[0].id.chars().all(|c| c.is_ascii_hexdigit() && !c.is_ascii_uppercase()));
}

#[test]
fn clippings_split_at_a_separator() {
    let a = "Book (One)\n- Your Highlight on Location 10 | Added on Monday, January 1, 2024 10:00:00 AM\n\nFirst\n";
    let b = "\nBook (One)\n- Your Note on Location 12 | Added on Monday, January 1, 2024 10:00:00 AM\n\nSecond\n";
    let joined = format!("{}=========={}", a, b);
    let all = ClippingsParser::parse_str(&joined);
    let pa = ClippingsParser::parse_str(a);
    let pb = ClippingsParser::parse_str(b);
    assert_eq!(all.len(), 2);
    assert_eq!(pa.len() + pb.len(), 2);
    assert_eq!(all[0].id, pa[0].id);
    assert_eq!(all[0].content, "First");
    assert_eq!(all[1].id, pb[0].id);
    assert_eq!(all[1].content, "Second");
}
