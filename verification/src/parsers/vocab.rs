//! Kindle vocabulary lookups as the device's `vocab.db` records them.
//!
//! Running the queries is left to the caller, which hands over each row.

use vstd::prelude::*;

use crate::models::VocabLookup;

verus! {

/// Reads the lookups of a Kindle's vocabulary database.
pub struct VocabParser;

impl VocabParser {
    /// A lookup from a row of the full query: the lookup's id, the word, its
    /// stem and language, the sentence it was looked up in, the book's title
    /// and authors, and when it was looked up.
    pub fn lookup_row(
        id: String,
        word: String,
        stem: Option<String>,
        lang: Option<String>,
        usage: Option<String>,
        book_title: Option<String>,
        book_author: Option<String>,
        timestamp: i64,
    ) -> (r: VocabLookup)
        ensures
            r.id == id && r.word == word && r.stem == stem && r.lang == lang,
            r.usage == usage && r.book_title == book_title && r.book_author == book_author,
            r.timestamp == timestamp,
    {
        VocabLookup { id, word, stem, lang, usage, book_title, book_author, timestamp }
    }

    /// A lookup from a row of the `WORDS` table, read where the database has
    /// no lookups table: the word alone, with no sentence and no book.
    pub fn word_row(
        id: String,
        word: String,
        stem: Option<String>,
        lang: Option<String>,
        timestamp: i64,
    ) -> (r: VocabLookup)
        ensures
            r.id == id && r.word == word && r.stem == stem && r.lang == lang,
            r.usage is None && r.book_title is None && r.book_author is None,
            r.timestamp == timestamp,
    {
        VocabLookup {
            id,
            word,
            stem,
            lang,
            usage: None,
            book_title: None,
            book_author: None,
            timestamp,
        }
    }
}

} // verus!
