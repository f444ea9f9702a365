//! The Markdown files of the vault: where they go and what is written to them.

use vstd::prelude::*;

use crate::datetime::{chrono_from_millis, format_minutes, from_timestamp_millis, minute_text, UtcDateTime};
use crate::models::{opt_date_view, Clipping, ClippingType, ClippingView, Notebook, NotebookPage, VocabLookup, VocabView};
use crate::paths::{join_path, join_path_chars, resolve_path_in, resolve_path_with, user_dirs, UserDirs};
use crate::pattern::{lowercase, to_lowercase};
use crate::text::{
    occurs_at,
    chars_eq, chars_of, copy_range, decimal_text, first_line, first_line_of, holds_seq, lines,
    lines_from, next_line, nonblank_trimmed, push_chars, push_decimal, push_str,
    replace_char, replace_char_seq, seqs_view, starts_with, starts_with_chars, string_from_chars,
    strip_prefix_all, trim,
    trim_bounds,
    trimmed_lines,
};

verus! {

/// Characters that may not stand in a file name, each replaced by `'_'`.
pub open spec fn is_reserved_char(c: char) -> bool {
    c == '/' || c == '\\' || c == '?' || c == '%' || c == '*' || c == ':' || c == '|' || c == '"'
        || c == '<' || c == '>' || c == '.' || c == '\0'
}

/// A file name made from `name`: reserved characters replaced by `'_'`, at
/// most 100 characters kept, and "Untitled" where nothing but blanks remain.
pub open spec fn sanitized_name(name: Seq<char>) -> Seq<char> {
    let kept = if name.len() > 100 {
        name.take(100)
    } else {
        name
    };
    let clean = Seq::new(
        kept.len(),
        |i: int|
            if is_reserved_char(kept[i]) {
                '_'
            } else {
                kept[i]
            },
    );
    if trim(clean).len() == 0 {
        "Untitled"@
    } else {
        clean
    }
}

/// A sanitised file name is never empty, holds at most 100 characters, and
/// holds none of the characters that a file name cannot hold.
pub proof fn lemma_sanitized_name(name: Seq<char>)
    ensures
        0 < sanitized_name(name).len() <= 100,
        forall|i: int| 0 <= i < sanitized_name(name).len() ==> !is_reserved_char(#[trigger] sanitized_name(name)[i]),
{
    reveal_strlit("Untitled");
    let kept = if name.len() > 100 {
        name.take(100)
    } else {
        name
    };
    let clean = Seq::new(
        kept.len(),
        |i: int|
            if is_reserved_char(kept[i]) {
                '_'
            } else {
                kept[i]
            },
    );
    if trim(clean).len() == 0 {
        assert(sanitized_name(name) == "Untitled"@);
    } else {
        assert(sanitized_name(name) == clean);
        assert(clean.len() > 0) by {
            if clean.len() == 0 {
                assert(clean =~= Seq::<char>::empty());
                assert(crate::text::trim_start(clean) =~= Seq::<char>::empty());
            }
        }
    }
}

pub open spec fn book_path(base: Seq<char>, title: Seq<char>) -> Seq<char> {
    join_path(join_path(base, "Books"@), sanitized_name(title) + ".md"@)
}

pub open spec fn vocab_path(base: Seq<char>) -> Seq<char> {
    join_path(join_path(base, "Vocabulary"@), "Kindle_Vocabulary.md"@)
}

/// The folder of a notebook: under `Notebooks`, inside its non-blank
/// relative folder (trimmed), named after the notebook.
pub open spec fn notebook_dir(base: Seq<char>, title: Seq<char>, rel: Option<Seq<char>>) -> Seq<
    char,
> {
    let root = join_path(base, "Notebooks"@);
    let dir = match rel {
        Some(r) => if trim(r).len() > 0 {
            join_path(root, trim(r))
        } else {
            root
        },
        None => root,
    };
    join_path(dir, sanitized_name(title))
}

pub open spec fn notebook_path(base: Seq<char>, title: Seq<char>, rel: Option<Seq<char>>) -> Seq<
    char,
> {
    join_path(notebook_dir(base, title, rel), sanitized_name(title) + ".md"@)
}

pub open spec fn opt_str(o: Option<&str>) -> Option<Seq<char>> {
    match o {
        Some(s) => Some(s@),
        None => None,
    }
}

/// Text inside double quotes in YAML front matter.
pub open spec fn escape_quotes(s: Seq<char>) -> Seq<char> {
    replace_char(s, '"', "\\\""@)
}

pub open spec fn date_text(d: Option<crate::datetime::DateTimeParts>) -> Seq<char> {
    match d {
        Some(t) => minute_text(t),
        None => "Unknown"@,
    }
}

pub open spec fn location_text(c: ClippingView) -> Seq<char> {
    "位置: "@ + match c.location {
        Some(l) => l,
        None => "N/A"@,
    }
}

/// The mark before the text of a highlight.
pub open spec fn quote_mark() -> Seq<char> {
    "> "@
}

/// The mark before the text of a note.
pub open spec fn note_mark() -> Seq<char> {
    "> 💡 **メモ:** "@
}

/// A clipping's text as a quote: each line break followed by `> `.
pub open spec fn quoted(content: Seq<char>) -> Seq<char> {
    replace_char(content, '\n', "\n> "@)
}

/// The line after a quoted clipping: its location and date.
pub open spec fn entry_footer(c: ClippingView) -> Seq<char> {
    "— "@ + location_text(c) + " | 追加日: "@ + date_text(c.created_at) + "\n\n"@
}

/// The Markdown of one clipping: a quote for a highlight, a marked quote for
/// a note, one line for a bookmark; each with its location and date.
pub open spec fn clipping_entry(c: ClippingView) -> Seq<char> {
    match c.clipping_type {
        ClippingType::Highlight => quote_mark() + quoted(c.content) + "\n"@ + entry_footer(c),
        ClippingType::Note => note_mark() + quoted(c.content) + "\n"@ + entry_footer(c),
        ClippingType::Bookmark => "🔖 **しおり:** "@ + location_text(c) + " | 追加日: "@
            + date_text(c.created_at) + "\n\n"@,
    }
}

/// The front matter and headings of a new book file.
pub open spec fn book_header(title: Seq<char>, author: Seq<char>, now: Seq<char>) -> Seq<char> {
    "---\n"@ + "type: book-highlight\n"@ + "title: \""@ + escape_quotes(title) + "\"\n"@
        + "author: \""@ + escape_quotes(author) + "\"\n"@ + "last_sync: \""@ + now + "\"\n"@
        + "tags:\n"@ + "  - kindle/highlights\n"@ + "---\n\n"@ + "# "@ + title + "\n\n"@
        + "## メタデータ\n"@ + "- 著者: "@ + author + "\n"@ + "- 最終同期: "@ + now + "\n\n"@
        + "## ハイライト・メモ一覧\n\n"@
}

/// What a trimmed line of a book file stands for: the line itself and, where
/// it is quoted, its text after the highlight's or the note's mark, trimmed.
pub open spec fn line_keys(l: Seq<char>) -> Seq<Seq<char>> {
    seq![l] + (if starts_with(l, quote_mark()) {
        seq![trim(l.skip(quote_mark().len() as int))]
    } else {
        seq![]
    }) + (if starts_with(l, note_mark()) {
        seq![trim(l.skip(note_mark().len() as int))]
    } else {
        seq![]
    })
}

/// What the trimmed lines `ls` of a book file stand for, line by line.
pub open spec fn snippet_keys(ls: Seq<Seq<char>>) -> Seq<Seq<char>>
    decreases ls.len(),
{
    if ls.len() == 0 {
        seq![]
    } else {
        snippet_keys(ls.drop_last()) + line_keys(ls.last())
    }
}

/// A clipping is left out of an existing book file that already holds the
/// first line of its content, trimmed: as a line of its own or quoted as a
/// highlight or a note.
pub open spec fn already_in_file(existing: Option<Seq<char>>, c: ClippingView) -> bool {
    match existing {
        Some(e) => first_line(c.content).len() > 0 && snippet_keys(
            nonblank_trimmed(lines(e)),
        ).contains(first_line(c.content)),
        None => false,
    }
}

/// The entries of the clippings that are not yet in the file, and how many.
pub open spec fn book_entries(cs: Seq<ClippingView>, existing: Option<Seq<char>>) -> (Seq<char>, nat)
    decreases cs.len(),
{
    if cs.len() == 0 {
        (seq![], 0)
    } else {
        let prev = book_entries(cs.drop_last(), existing);
        if already_in_file(existing, cs.last()) {
            prev
        } else {
            (prev.0 + clipping_entry(cs.last()), prev.1 + 1)
        }
    }
}

/// What is appended to a book file (`existing` is its content, `None` where
/// it does not exist yet), and how many clippings that adds. Nothing is
/// written where nothing is added; a new file starts with its header.
pub open spec fn book_update(
    title: Seq<char>,
    author: Option<Seq<char>>,
    cs: Seq<ClippingView>,
    existing: Option<Seq<char>>,
    now: Seq<char>,
) -> (Seq<char>, nat) {
    let e = book_entries(cs, existing);
    if e.1 == 0 {
        (seq![], 0)
    } else if existing is None {
        (
            book_header(
                title,
                match author {
                    Some(a) => a,
                    None => "Unknown"@,
                },
                now,
            ) + e.0,
            e.1,
        )
    } else {
        e
    }
}

/// The lower-cased words of the `### ` headings among `ls`.
pub open spec fn heading_words(ls: Seq<Seq<char>>) -> Seq<Seq<char>>
    decreases ls.len(),
{
    if ls.len() == 0 {
        seq![]
    } else {
        let l = ls[0];
        (if 4 <= l.len() && l.take(4) == "### "@ {
            seq![lowercase(trim(strip_prefix_all(l, "### "@)))]
        } else {
            seq![]
        }) + heading_words(ls.drop_first())
    }
}

pub open spec fn vocab_entry(w: VocabView) -> Seq<char> {
    "### "@ + w.word + "\n"@ + (match w.stem {
        Some(s) => if s != w.word {
            "- **原形:** `"@ + s + "`\n"@
        } else {
            seq![]
        },
        None => seq![],
    }) + (match w.book_title {
        Some(b) => "- **書籍:** [["@ + b + "]]\n"@,
        None => seq![],
    }) + "- **検索日時:** "@ + date_text(chrono_from_millis(w.timestamp)) + "\n"@ + (match w.usage {
        Some(u) => "> "@ + replace_char(u, '\n', " "@) + "\n"@,
        None => seq![],
    }) + "\n---\n\n"@
}

/// The entries of the words not yet known (case-insensitively), each word
/// at most once, how many, and the words known afterwards.
pub open spec fn vocab_entries(ws: Seq<VocabView>, known: Seq<Seq<char>>) -> (
    Seq<char>,
    nat,
    Seq<Seq<char>>,
)
    decreases ws.len(),
{
    if ws.len() == 0 {
        (seq![], 0, known)
    } else {
        let prev = vocab_entries(ws.drop_last(), known);
        let key = lowercase(ws.last().word);
        if prev.2.contains(key) {
            prev
        } else {
            (prev.0 + vocab_entry(ws.last()), prev.1 + 1, prev.2.push(key))
        }
    }
}

pub open spec fn vocab_header(now: Seq<char>) -> Seq<char> {
    "---\n"@ + "type: kindle-vocabulary\n"@ + "last_sync: \""@ + now + "\"\n"@ + "tags:\n"@
        + "  - kindle/vocabulary\n"@ + "---\n\n"@ + "# Kindle 語彙・単語ログ\n\n"@
}

/// What is appended to the vocabulary file, and how many words that adds.
pub open spec fn vocab_update(ws: Seq<VocabView>, existing: Option<Seq<char>>, now: Seq<char>) -> (
    Seq<char>,
    nat,
) {
    let known = match existing {
        Some(e) => heading_words(lines(e)),
        None => seq![],
    };
    let e = vocab_entries(ws, known);
    if e.1 == 0 {
        (seq![], 0)
    } else if existing is None {
        (vocab_header(now) + e.0, e.1)
    } else {
        (e.0, e.1)
    }
}

pub struct MarkdownGenerator {
    base_dir: String,
}

impl View for MarkdownGenerator {
    type V = Seq<char>;

    /// The folder under which the Markdown files go.
    closed spec fn view(&self) -> Seq<char> {
        self.base_dir@
    }
}

impl MarkdownGenerator {
    /// A generator writing under the vault (resolved against this user's
    /// directories) and, where it is not blank, the trimmed subfolder.
    pub fn new(vault_path: &str, subfolder: &str) -> (r: MarkdownGenerator)
        ensures
            exists|dirs: Option<UserDirs>| r@ == Self::base_for(vault_path@, subfolder@, dirs),
    {
        let dirs = user_dirs();
        Self::with_dirs(vault_path, subfolder, &dirs)
    }

    pub open spec fn base_for(vault: Seq<char>, sub: Seq<char>, dirs: Option<UserDirs>) -> Seq<char> {
        let resolved = resolve_path_in(vault, dirs);
        if trim(sub).len() == 0 {
            resolved
        } else {
            join_path(resolved, trim(sub))
        }
    }

    pub fn with_dirs(vault_path: &str, subfolder: &str, dirs: &Option<UserDirs>) -> (r:
        MarkdownGenerator)
        ensures
            r@ == Self::base_for(vault_path@, subfolder@, *dirs),
    {
        let resolved = resolve_path_with(vault_path, dirs);
        let sub = chars_of(subfolder);
        let (a, z) = trim_bounds(sub.as_slice(), 0, sub.len());
        assert(sub@.subrange(0, sub@.len() as int) =~= sub@);
        if a == z {
            MarkdownGenerator { base_dir: resolved }
        } else {
            let r = chars_of(resolved.as_str());
            let t = copy_range(sub.as_slice(), a, z);
            let j = join_path_chars(r.as_slice(), t.as_slice());
            MarkdownGenerator { base_dir: string_from_chars(j.as_slice()) }
        }
    }

    pub fn base_dir(&self) -> (r: &str)
        ensures
            r@ == self@,
    {
        self.base_dir.as_str()
    }

    pub fn sanitize_filename(name: &str) -> (r: String)
        ensures
            r@ == sanitized_name(name@),
    {
        let s = chars_of(name);
        let n: usize = if s.len() > 100 {
            100
        } else {
            s.len()
        };
        let ghost kept = if s@.len() > 100 {
            s@.take(100)
        } else {
            s@
        };
        let mut clean: Vec<char> = Vec::new();
        let mut i: usize = 0;
        while i < n
            invariant
                i <= n,
                n == kept.len(),
                kept.len() <= s@.len(),
                forall|k: int| 0 <= k < kept.len() ==> kept[k] == s@[k],
                clean@ == Seq::new(
                    i as nat,
                    |k: int|
                        if is_reserved_char(kept[k]) {
                            '_'
                        } else {
                            kept[k]
                        },
                ),
            decreases n - i,
        {
            let c = s[i];
            let reserved = c == '/' || c == '\\' || c == '?' || c == '%' || c == '*' || c == ':'
                || c == '|' || c == '"' || c == '<' || c == '>' || c == '.' || c == '\0';
            if reserved {
                clean.push('_');
            } else {
                clean.push(c);
            }
            i = i + 1;
            assert(clean@ =~= Seq::new(
                i as nat,
                |k: int|
                    if is_reserved_char(kept[k]) {
                        '_'
                    } else {
                        kept[k]
                    },
            ));
        }
        let (a, z) = trim_bounds(clean.as_slice(), 0, clean.len());
        assert(clean@.subrange(0, clean@.len() as int) =~= clean@);
        if a == z {
            String::from_str("Untitled")
        } else {
            string_from_chars(clean.as_slice())
        }
    }

    /// `name` sanitised, with `.md` appended.
    fn md_file_name(name: &str) -> (r: Vec<char>)
        ensures
            r@ == sanitized_name(name@) + ".md"@,
    {
        let safe = Self::sanitize_filename(name);
        let mut f = chars_of(safe.as_str());
        push_str(&mut f, ".md");
        f
    }

    fn join(base: &str, comp: &str) -> (r: Vec<char>)
        ensures
            r@ == join_path(base@, comp@),
    {
        let b = chars_of(base);
        let c = chars_of(comp);
        join_path_chars(b.as_slice(), c.as_slice())
    }

    pub fn get_book_path(&self, book_title: &str) -> (r: String)
        ensures
            r@ == book_path(self@, book_title@),
    {
        let dir = Self::join(self.base_dir.as_str(), "Books");
        let f = Self::md_file_name(book_title);
        string_from_chars(join_path_chars(dir.as_slice(), f.as_slice()).as_slice())
    }

    pub fn get_vocab_path(&self) -> (r: String)
        ensures
            r@ == vocab_path(self@),
    {
        let dir = Self::join(self.base_dir.as_str(), "Vocabulary");
        let f = chars_of("Kindle_Vocabulary.md");
        string_from_chars(join_path_chars(dir.as_slice(), f.as_slice()).as_slice())
    }

    pub fn get_notebook_dir(&self, notebook_title: &str, relative_folder: Option<&str>) -> (r:
        String)
        ensures
            r@ == notebook_dir(self@, notebook_title@, opt_str(relative_folder)),
    {
        let v = self.notebook_dir_chars(notebook_title, relative_folder);
        string_from_chars(v.as_slice())
    }

    fn notebook_dir_chars(&self, notebook_title: &str, relative_folder: Option<&str>) -> (r: Vec<
        char,
    >)
        ensures
            r@ == notebook_dir(self@, notebook_title@, opt_str(relative_folder)),
    {
        let root = Self::join(self.base_dir.as_str(), "Notebooks");
        let dir = match relative_folder {
            Some(rel) => {
                let rv = chars_of(rel);
                let (a, z) = trim_bounds(rv.as_slice(), 0, rv.len());
                assert(rv@.subrange(0, rv@.len() as int) =~= rv@);
                if a < z {
                    let t = copy_range(rv.as_slice(), a, z);
                    join_path_chars(root.as_slice(), t.as_slice())
                } else {
                    root
                }
            },
            None => root,
        };
        let safe = Self::sanitize_filename(notebook_title);
        let sv = chars_of(safe.as_str());
        join_path_chars(dir.as_slice(), sv.as_slice())
    }

    pub fn get_notebook_path(&self, notebook_title: &str, relative_folder: Option<&str>) -> (r:
        String)
        ensures
            r@ == notebook_path(self@, notebook_title@, opt_str(relative_folder)),
    {
        let dir = self.notebook_dir_chars(notebook_title, relative_folder);
        let f = Self::md_file_name(notebook_title);
        string_from_chars(join_path_chars(dir.as_slice(), f.as_slice()).as_slice())
    }
}


impl MarkdownGenerator {
    fn date_chars(d: &Option<UtcDateTime>) -> (r: Vec<char>)
        ensures
            r@ == date_text(opt_date_view(*d)),
    {
        match d {
            Some(t) => {
                let s = format_minutes(t, "%Y-%m-%d %H:%M");
                chars_of(s.as_str())
            },
            None => chars_of("Unknown"),
        }
    }

    fn clipping_entry_chars(c: &Clipping) -> (r: Vec<char>)
        ensures
            r@ == clipping_entry(c@),
    {
        let mut b: Vec<char> = Vec::new();
        let loc = match &c.location {
            Some(l) => chars_of(l.as_str()),
            None => chars_of("N/A"),
        };
        let date = Self::date_chars(&c.created_at);
        match c.clipping_type {
            ClippingType::Bookmark => {
                push_str(&mut b, "🔖 **しおり:** ");
            },
            _ => {
                match c.clipping_type {
                    ClippingType::Highlight => push_str(&mut b, "> "),
                    _ => push_str(&mut b, "> 💡 **メモ:** "),
                }
                let content = chars_of(c.content.as_str());
                let sep = chars_of("\n> ");
                let quoted = replace_char_seq(content.as_slice(), '\n', sep.as_slice());
                push_chars(&mut b, quoted.as_slice());
                push_str(&mut b, "\n");
                push_str(&mut b, "— ");
            },
        }
        push_str(&mut b, "位置: ");
        push_chars(&mut b, loc.as_slice());
        push_str(&mut b, " | 追加日: ");
        push_chars(&mut b, date.as_slice());
        push_str(&mut b, "\n\n");
        assert(b@ =~= clipping_entry(c@));
        b
    }

    /// What the trimmed lines `ls` of a book file stand for.
    fn line_keys_of(ls: &Vec<Vec<char>>) -> (r: Vec<Vec<char>>)
        ensures
            seqs_view(r@) == snippet_keys(seqs_view(ls@)),
    {
        let quote = chars_of("> ");
        let note = chars_of("> 💡 **メモ:** ");
        let mut r: Vec<Vec<char>> = Vec::new();
        let mut i: usize = 0;
        while i < ls.len()
            invariant
                i <= ls@.len(),
                quote@ == quote_mark(),
                note@ == note_mark(),
                seqs_view(r@) == snippet_keys(seqs_view(ls@).take(i as int)),
            decreases ls@.len() - i,
        {
            let l = &ls[i];
            let n = l.len();
            let ghost before = seqs_view(r@);
            let ghost ks = seqs_view(ls@).take(i + 1);
            assert(ks.drop_last() =~= seqs_view(ls@).take(i as int));
            assert(ks.last() == l@);
            assert(l@.subrange(0, n as int) =~= l@);
            r.push(copy_range(l.as_slice(), 0, n));
            let ghost k1 = before.push(l@);
            assert(seqs_view(r@) =~= k1);
            if starts_with_chars(l.as_slice(), quote.as_slice()) {
                let (a, z) = trim_bounds(l.as_slice(), quote.len(), n);
                assert(l@.subrange(quote@.len() as int, n as int) =~= l@.skip(quote@.len() as int));
                let ghost k2 = seqs_view(r@);
                r.push(copy_range(l.as_slice(), a, z));
                assert(seqs_view(r@) =~= k2.push(trim(l@.skip(quote_mark().len() as int))));
            }
            if starts_with_chars(l.as_slice(), note.as_slice()) {
                let (a, z) = trim_bounds(l.as_slice(), note.len(), n);
                assert(l@.subrange(note@.len() as int, n as int) =~= l@.skip(note@.len() as int));
                let ghost k3 = seqs_view(r@);
                r.push(copy_range(l.as_slice(), a, z));
                assert(seqs_view(r@) =~= k3.push(trim(l@.skip(note_mark().len() as int))));
            }
            assert(seqs_view(r@) =~= before + line_keys(l@));
            i = i + 1;
        }
        assert(seqs_view(ls@).take(i as int) =~= seqs_view(ls@));
        r
    }

    /// What `update_book_clippings` appends to the book file of `book_title`
    /// (whose content is `existing`, `None` where there is no file yet) and
    /// how many clippings it adds; `now` is the time of synchronisation.
    pub fn render_book_clippings(
        book_title: &str,
        author: Option<&str>,
        new_clippings: &[Clipping],
        existing: Option<&str>,
        now: &str,
    ) -> (r: (String, usize))
        ensures
            r.0@ == book_update(
                book_title@,
                opt_str(author),
                new_clippings@.map_values(|c: Clipping| c@),
                opt_str(existing),
                now@,
            ).0,
            r.1 == book_update(
                book_title@,
                opt_str(author),
                new_clippings@.map_values(|c: Clipping| c@),
                opt_str(existing),
                now@,
            ).1,
    {
        let ghost cs = new_clippings@.map_values(|c: Clipping| c@);
        let ghost ex = opt_str(existing);
        let snippets: Vec<Vec<char>> = match existing {
            Some(e) => {
                let ev = chars_of(e);
                Self::line_keys_of(&trimmed_lines(ev.as_slice()))
            },
            None => Vec::new(),
        };
        let mut entries: Vec<char> = Vec::new();
        let mut count: usize = 0;
        let mut i: usize = 0;
        while i < new_clippings.len()
            invariant
                i <= new_clippings@.len(),
                cs == new_clippings@.map_values(|c: Clipping| c@),
                ex == opt_str(existing),
                ex matches Some(e) ==> seqs_view(snippets@) == snippet_keys(
                    nonblank_trimmed(lines(e)),
                ),
                count <= i,
                (entries@, count as nat) == book_entries(cs.take(i as int), ex),
            decreases new_clippings@.len() - i,
        {
            let c = &new_clippings[i];
            assert(cs.take(i + 1).drop_last() =~= cs.take(i as int));
            assert(cs.take(i + 1).last() == c@);
            let content = chars_of(c.content.as_str());
            let first = first_line_of(content.as_slice());
            let skip = existing.is_some() && first.len() > 0 && holds_seq(&snippets, first.as_slice());
            if !skip {
                let e = Self::clipping_entry_chars(c);
                push_chars(&mut entries, e.as_slice());
                count = count + 1;
            }
            i = i + 1;
        }
        assert(cs.take(i as int) =~= cs);
        if count == 0 {
            return (String::new(), 0);
        }
        let mut out: Vec<char> = Vec::new();
        if existing.is_none() {
            let title = chars_of(book_title);
            let author_val = match author {
                Some(a) => chars_of(a),
                None => chars_of("Unknown"),
            };
            let quote_esc = chars_of("\\\"");
            let nowv = chars_of(now);
            push_str(&mut out, "---\n");
            push_str(&mut out, "type: book-highlight\n");
            push_str(&mut out, "title: \"");
            push_chars(&mut out, replace_char_seq(title.as_slice(), '"', quote_esc.as_slice()).as_slice());
            push_str(&mut out, "\"\n");
            push_str(&mut out, "author: \"");
            push_chars(&mut out, replace_char_seq(author_val.as_slice(), '"', quote_esc.as_slice()).as_slice());
            push_str(&mut out, "\"\n");
            push_str(&mut out, "last_sync: \"");
            push_chars(&mut out, nowv.as_slice());
            push_str(&mut out, "\"\n");
            push_str(&mut out, "tags:\n");
            push_str(&mut out, "  - kindle/highlights\n");
            push_str(&mut out, "---\n\n");
            push_str(&mut out, "# ");
            push_chars(&mut out, title.as_slice());
            push_str(&mut out, "\n\n");
            push_str(&mut out, "## メタデータ\n");
            push_str(&mut out, "- 著者: ");
            push_chars(&mut out, author_val.as_slice());
            push_str(&mut out, "\n");
            push_str(&mut out, "- 最終同期: ");
            push_chars(&mut out, nowv.as_slice());
            push_str(&mut out, "\n\n");
            push_str(&mut out, "## ハイライト・メモ一覧\n\n");
            assert(out@ =~= book_header(
                book_title@,
                match opt_str(author) {
                    Some(a) => a,
                    None => "Unknown"@,
                },
                now@,
            ));
        }
        push_chars(&mut out, entries.as_slice());
        (string_from_chars(out.as_slice()), count)
    }
}


impl MarkdownGenerator {
    /// `strip_prefix_all(s[lo..hi], "### ")`, as bounds.
    fn strip_heading_marks(s: &[char], lo: usize, hi: usize) -> (r: usize)
        requires
            lo <= hi <= s@.len(),
        ensures
            lo <= r <= hi,
            s@.subrange(r as int, hi as int) == strip_prefix_all(
                s@.subrange(lo as int, hi as int),
                "### "@,
            ),
    {
        let p = chars_of("### ");
        proof {
            reveal_strlit("### ");
        }
        let mut a = lo;
        loop
            invariant
                lo <= a <= hi <= s@.len(),
                p@ == "### "@,
                p@.len() == 4,
                strip_prefix_all(s@.subrange(lo as int, hi as int), p@) == strip_prefix_all(
                    s@.subrange(a as int, hi as int),
                    p@,
                ),
            decreases hi - a,
        {
            let ghost w = s@.subrange(a as int, hi as int);
            if hi - a >= 4 && chars_eq(copy_range(s, a, a + 4).as_slice(), p.as_slice()) {
                assert(w.take(4) =~= s@.subrange(a as int, a + 4));
                assert(w.skip(4) =~= s@.subrange(a + 4, hi as int));
                a = a + 4;
            } else {
                assert(hi - a >= 4 ==> w.take(4) =~= s@.subrange(a as int, a + 4));
                return a;
            }
        }
    }

    /// The lower-cased words of the `### ` headings of `s`.
    fn known_words(s: &[char]) -> (r: Vec<Vec<char>>)
        ensures
            seqs_view(r@) == heading_words(lines(s@)),
    {
        let n = s.len();
        let mut r: Vec<Vec<char>> = Vec::new();
        let mut pos: usize = 0;
        let p = chars_of("### ");
        proof {
            reveal_strlit("### ");
        }
        while pos < n
            invariant
                n == s@.len(),
                pos <= n,
                p@ == "### "@,
                p@.len() == 4,
                heading_words(lines_from(s@, 0)) == seqs_view(r@) + heading_words(
                    lines_from(s@, pos as int),
                ),
            decreases n - pos,
        {
            let (end, next) = next_line(s, pos);
            let ghost line = s@.subrange(pos as int, end as int);
            let ghost tail = lines_from(s@, next as int);
            assert((seq![line] + tail)[0] == line);
            assert((seq![line] + tail).drop_first() =~= tail);
            let ghost before = seqs_view(r@);
            let heading = end - pos >= 4 && chars_eq(copy_range(s, pos, pos + 4).as_slice(), p.as_slice());
            assert(end - pos >= 4 ==> line.take(4) =~= s@.subrange(pos as int, pos + 4));
            if heading {
                let a = Self::strip_heading_marks(s, pos, end);
                let (ta, tz) = trim_bounds(s, a, end);
                let word = string_from_chars(copy_range(s, ta, tz).as_slice());
                let lower = to_lowercase(word.as_str());
                let key = chars_of(lower.as_str());
                r.push(key);
                assert(seqs_view(r@) =~= before.push(key@));
                assert(before.push(key@) + heading_words(tail) =~= before + (seq![key@]
                    + heading_words(tail)));
            } else {
                assert(Seq::<Seq<char>>::empty() + heading_words(tail) =~= heading_words(tail));
            }
            pos = next;
        }
        assert(lines_from(s@, pos as int) =~= Seq::<Seq<char>>::empty());
        assert(seqs_view(r@) + Seq::<Seq<char>>::empty() =~= seqs_view(r@));
        r
    }

    fn millis_date_chars(ms: i64) -> (r: Vec<char>)
        ensures
            r@ == date_text(chrono_from_millis(ms)),
    {
        match from_timestamp_millis(ms) {
            Some(t) => match UtcDateTime::from_parts(t) {
                Some(d) => {
                    let s = format_minutes(&d, "%Y-%m-%d %H:%M");
                    chars_of(s.as_str())
                },
                None => chars_of("Unknown"),
            },
            None => chars_of("Unknown"),
        }
    }

    fn vocab_entry_chars(w: &VocabLookup) -> (r: Vec<char>)
        ensures
            r@ == vocab_entry(w@),
    {
        let mut b: Vec<char> = Vec::new();
        let word = chars_of(w.word.as_str());
        push_str(&mut b, "### ");
        push_chars(&mut b, word.as_slice());
        push_str(&mut b, "\n");
        let ghost after_word = b@;
        match &w.stem {
            Some(stem) => {
                let sv = chars_of(stem.as_str());
                if !chars_eq(sv.as_slice(), word.as_slice()) {
                    push_str(&mut b, "- **原形:** `");
                    push_chars(&mut b, sv.as_slice());
                    push_str(&mut b, "`\n");
                }
            },
            None => {},
        }
        match &w.book_title {
            Some(book) => {
                push_str(&mut b, "- **書籍:** [[");
                push_str(&mut b, book.as_str());
                push_str(&mut b, "]]\n");
            },
            None => {},
        }
        push_str(&mut b, "- **検索日時:** ");
        let date = Self::millis_date_chars(w.timestamp);
        push_chars(&mut b, date.as_slice());
        push_str(&mut b, "\n");
        match &w.usage {
            Some(u) => {
                let uv = chars_of(u.as_str());
                let sp = chars_of(" ");
                push_str(&mut b, "> ");
                push_chars(&mut b, replace_char_seq(uv.as_slice(), '\n', sp.as_slice()).as_slice());
                push_str(&mut b, "\n");
            },
            None => {},
        }
        push_str(&mut b, "\n---\n\n");
        assert(b@ =~= vocab_entry(w@));
        b
    }

    /// What `update_vocabulary` appends to the vocabulary file (whose content
    /// is `existing`, `None` where there is no file yet) and how many words it
    /// adds; `now` is the time of synchronisation.
    pub fn render_vocabulary(new_words: &[VocabLookup], existing: Option<&str>, now: &str) -> (r: (
        String,
        usize,
    ))
        ensures
            r.0@ == vocab_update(new_words@.map_values(|w: VocabLookup| w@), opt_str(existing), now@).0,
            r.1 == vocab_update(new_words@.map_values(|w: VocabLookup| w@), opt_str(existing), now@).1,
    {
        let ghost ws = new_words@.map_values(|w: VocabLookup| w@);
        let mut known: Vec<Vec<char>> = match existing {
            Some(e) => {
                let ev = chars_of(e);
                Self::known_words(ev.as_slice())
            },
            None => Vec::new(),
        };
        let ghost known0 = seqs_view(known@);
        assert(known0 == match opt_str(existing) {
            Some(e) => heading_words(lines(e)),
            None => Seq::<Seq<char>>::empty(),
        });
        let mut entries: Vec<char> = Vec::new();
        let mut count: usize = 0;
        let mut i: usize = 0;
        assert(ws.take(0) =~= Seq::<VocabView>::empty());
        while i < new_words.len()
            invariant
                i <= new_words@.len(),
                ws == new_words@.map_values(|w: VocabLookup| w@),
                count <= i,
                (entries@, count as nat, seqs_view(known@)) == vocab_entries(ws.take(i as int), known0),
            decreases new_words@.len() - i,
        {
            let w = &new_words[i];
            assert(ws.take(i + 1).drop_last() =~= ws.take(i as int));
            assert(ws.take(i + 1).last() == w@);
            let lower = to_lowercase(w.word.as_str());
            let key = chars_of(lower.as_str());
            if !holds_seq(&known, key.as_slice()) {
                let e = Self::vocab_entry_chars(w);
                push_chars(&mut entries, e.as_slice());
                count = count + 1;
                let ghost before = seqs_view(known@);
                known.push(key);
                assert(seqs_view(known@) =~= before.push(key@));
            }
            i = i + 1;
        }
        assert(ws.take(i as int) =~= ws);
        if count == 0 {
            return (String::new(), 0);
        }
        let mut out: Vec<char> = Vec::new();
        if existing.is_none() {
            push_str(&mut out, "---\n");
            push_str(&mut out, "type: kindle-vocabulary\n");
            push_str(&mut out, "last_sync: \"");
            push_str(&mut out, now);
            push_str(&mut out, "\"\n");
            push_str(&mut out, "tags:\n");
            push_str(&mut out, "  - kindle/vocabulary\n");
            push_str(&mut out, "---\n\n");
            push_str(&mut out, "# Kindle 語彙・単語ログ\n\n");
            assert(out@ =~= vocab_header(now@));
        }
        push_chars(&mut out, entries.as_slice());
        (string_from_chars(out.as_slice()), count)
    }
}


/// The number of bytes of `c` in UTF-8 (`char::len_utf8`).
pub open spec fn utf8_width(c: char) -> int {
    let u = c as u32;
    if u < 0x80 {
        1
    } else if u < 0x800 {
        2
    } else if u < 0x10000 {
        3
    } else {
        4
    }
}

/// The length of `t` in UTF-8, summed character by character.
pub open spec fn utf8_len(t: Seq<char>) -> int
    decreases t.len(),
{
    if t.len() == 0 {
        0
    } else {
        utf8_width(t[0]) + utf8_len(t.drop_first())
    }
}

proof fn lemma_utf8_len_nonneg(t: Seq<char>)
    ensures
        utf8_len(t) >= 0,
    decreases t.len(),
{
    if t.len() > 0 {
        lemma_utf8_len_nonneg(t.drop_first());
    }
}

/// The number of leading characters of `t` whose UTF-8 encoding is exactly
/// `n` bytes long, where `n` bytes end on a character boundary.
pub open spec fn chars_for_bytes(t: Seq<char>, n: int) -> Option<int>
    decreases t.len(),
{
    if n == 0 {
        Some(0)
    } else if t.len() == 0 || utf8_width(t[0]) > n {
        None
    } else {
        match chars_for_bytes(t.drop_first(), n - utf8_width(t[0])) {
            Some(k) => Some(k + 1),
            None => None,
        }
    }
}

/// A title 36 bytes long holding a `'-'`: the UUID that a Scribe gives a notebook.
pub open spec fn is_uuid_title(t: Seq<char>) -> bool {
    utf8_len(t) == 36 && t.contains('-')
}

/// The title to show: "ノート (first eight bytes)" for a UUID title, else the title.
/// Defined where those eight bytes end on a character boundary.
pub open spec fn display_title(t: Seq<char>) -> Seq<char> {
    if is_uuid_title(t) {
        match chars_for_bytes(t, 8) {
            Some(k) => "ノート ("@ + t.take(k) + ")"@,
            None => t,
        }
    } else {
        t
    }
}

/// The titles on which `display_title` is defined (elsewhere the byte slice would not be a `str`).
pub open spec fn display_title_ok(t: Seq<char>) -> bool {
    is_uuid_title(t) ==> chars_for_bytes(t, 8) is Some
}

pub open spec fn page_link(num: usize, file: Seq<char>) -> Seq<char> {
    "### ページ "@ + decimal_text(num as nat) + "\n"@ + "![ページ "@ + decimal_text(num as nat)
        + "](./"@ + file + ")\n"@ + "\n"@
}

pub open spec fn page_links(ps: Seq<NotebookPage>) -> Seq<char>
    decreases ps.len(),
{
    if ps.len() == 0 {
        seq![]
    } else {
        page_links(ps.drop_last()) + page_link(ps.last().page_num, ps.last().image_filename@)
    }
}

/// The Markdown file of a notebook: front matter, headings, and one
/// relative image link per page.
pub open spec fn notebook_markdown(id: Seq<char>, title: Seq<char>, pages: Seq<NotebookPage>, now: Seq<char>) -> Seq<char> {
    let d = display_title(title);
    "---\n"@ + "type: scribe-notebook\n"@ + "id: \""@ + id + "\"\n"@ + "title: \""@ + escape_quotes(d)
        + "\"\n"@ + "device_uuid: \""@ + title + "\"\n"@ + "pages: "@ + decimal_text(pages.len())
        + "\n"@ + "last_sync: \""@ + now + "\"\n"@ + "tags:\n"@ + "  - kindle/notebook\n"@ + "---\n\n"@
        + "# "@ + d + "\n\n"@ + "- **端末ノートID:** `"@ + title + "`\n"@ + "- **ページ数:** "@
        + decimal_text(pages.len()) + "\n"@ + "- **最終同期:** "@ + now + "\n\n"@
        + "> [!TIP] ノートのタイトルについて\n"@
        + "> このノートはお好みの名前にリネーム（変更）可能です。内部IDで管理されているため、今後の同期で上書きされることはありません。\n\n"@
        + "## ページ一覧\n\n"@ + page_links(pages)
}

impl MarkdownGenerator {
    pub fn utf8_width_of(c: char) -> (r: usize)
        ensures
            r == utf8_width(c),
    {
        let u = c as u32;
        if u < 0x80 {
            1
        } else if u < 0x800 {
            2
        } else if u < 0x10000 {
            3
        } else {
            4
        }
    }

    /// The UTF-8 length of `v`, or 37 where it exceeds 36.
    fn utf8_len_capped(v: &[char]) -> (r: usize)
        ensures
            r == 36 <==> utf8_len(v@) == 36,
    {
        let mut total: usize = 0;
        let mut i: usize = 0;
        assert(v@.skip(0) =~= v@);
        while i < v.len()
            invariant
                i <= v@.len(),
                total <= 40,
                utf8_len(v@) == total + utf8_len(v@.skip(i as int)),
            decreases v@.len() - i,
        {
            let ghost rest = v@.skip(i as int);
            assert(rest[0] == v@[i as int]);
            assert(rest.drop_first() =~= v@.skip(i + 1));
            total = total + Self::utf8_width_of(v[i]);
            i = i + 1;
            if total > 36 {
                proof {
                    lemma_utf8_len_nonneg(v@.skip(i as int));
                }
                return 37;
            }
        }
        assert(v@.skip(i as int) =~= Seq::<char>::empty());
        total
    }

    /// The title under which a notebook is shown.
    pub fn notebook_display_title(title: &str) -> (r: String)
        requires
            display_title_ok(title@),
        ensures
            r@ == display_title(title@),
    {
        let v = chars_of(title);
        let mut has_dash = false;
        let mut i: usize = 0;
        while i < v.len()
            invariant
                i <= v@.len(),
                has_dash == (exists|k: int| 0 <= k < i && v@[k] == '-'),
            decreases v@.len() - i,
        {
            if v[i] == '-' {
                has_dash = true;
            }
            i = i + 1;
        }
        assert(has_dash == v@.contains('-'));
        let blen = Self::utf8_len_capped(v.as_slice());
        if blen == 36 && has_dash {
            assert(is_uuid_title(title@));
            assert(v@.skip(0) =~= v@);
            let vlen = v.len();
            let mut k: usize = 0;
            let mut bytes: usize = 0;
            while bytes < 8
                invariant
                    k <= v@.len(),
                    vlen == v@.len(),
                    bytes <= 8,
                    chars_for_bytes(v@, 8) is Some,
                    chars_for_bytes(v@, 8) == match chars_for_bytes(v@.skip(k as int), 8 - bytes) {
                        Some(j) => Some(j + k),
                        None => None::<int>,
                    },
                decreases 8 - bytes,
            {
                let ghost rest = v@.skip(k as int);
                assert(k < v@.len());
                assert(k < vlen);
                assert(rest[0] == v@[k as int]);
                assert(rest.drop_first() =~= v@.skip(k + 1));
                let w = Self::utf8_width_of(v[k]);
                assert(w <= 8 - bytes);
                bytes = bytes + w;
                k = k + 1;
            }
            let mut out: Vec<char> = Vec::new();
            push_str(&mut out, "ノート (");
            push_chars(&mut out, copy_range(v.as_slice(), 0, k).as_slice());
            push_str(&mut out, ")");
            assert(v@.subrange(0, k as int) =~= v@.take(k as int));
            string_from_chars(out.as_slice())
        } else {
            String::from_str(title)
        }
    }

    /// The Markdown file that `save_notebook` writes for `notebook`.
    /// Appends the heading and image link of one page.
    fn push_page_link(b: &mut Vec<char>, num: usize, file: &str)
        ensures
            final(b)@ == old(b)@ + page_link(num, file@),
    {
        push_str(b, "### ページ ");
        push_decimal(b, num as u64);
        push_str(b, "\n");
        push_str(b, "![ページ ");
        push_decimal(b, num as u64);
        push_str(b, "](./");
        push_str(b, file);
        push_str(b, ")\n");
        push_str(b, "\n");
        assert(final(b)@ =~= old(b)@ + page_link(num, file@));
    }

    pub fn render_notebook(notebook: &Notebook, now: &str) -> (r: String)
        requires
            display_title_ok(notebook.title@),
        ensures
            r@ == notebook_markdown(notebook.id@, notebook.title@, notebook.pages@, now@),
    {
        let d = Self::notebook_display_title(notebook.title.as_str());
        let dv = chars_of(d.as_str());
        let quote_esc = chars_of("\\\"");
        let n = notebook.pages.len();
        let mut b: Vec<char> = Vec::new();
        push_str(&mut b, "---\n");
        push_str(&mut b, "type: scribe-notebook\n");
        push_str(&mut b, "id: \"");
        push_str(&mut b, notebook.id.as_str());
        push_str(&mut b, "\"\n");
        push_str(&mut b, "title: \"");
        push_chars(&mut b, replace_char_seq(dv.as_slice(), '"', quote_esc.as_slice()).as_slice());
        push_str(&mut b, "\"\n");
        push_str(&mut b, "device_uuid: \"");
        push_str(&mut b, notebook.title.as_str());
        push_str(&mut b, "\"\n");
        push_str(&mut b, "pages: ");
        push_decimal(&mut b, n as u64);
        push_str(&mut b, "\n");
        push_str(&mut b, "last_sync: \"");
        push_str(&mut b, now);
        push_str(&mut b, "\"\n");
        push_str(&mut b, "tags:\n");
        push_str(&mut b, "  - kindle/notebook\n");
        push_str(&mut b, "---\n\n");
        push_str(&mut b, "# ");
        push_chars(&mut b, dv.as_slice());
        push_str(&mut b, "\n\n");
        push_str(&mut b, "- **端末ノートID:** `");
        push_str(&mut b, notebook.title.as_str());
        push_str(&mut b, "`\n");
        push_str(&mut b, "- **ページ数:** ");
        push_decimal(&mut b, n as u64);
        push_str(&mut b, "\n");
        push_str(&mut b, "- **最終同期:** ");
        push_str(&mut b, now);
        push_str(&mut b, "\n\n");
        push_str(&mut b, "> [!TIP] ノートのタイトルについて\n");
        push_str(&mut b, "> このノートはお好みの名前にリネーム（変更）可能です。内部IDで管理されているため、今後の同期で上書きされることはありません。\n\n");
        push_str(&mut b, "## ページ一覧\n\n");
        let ghost head = b@;
        let mut i: usize = 0;
        while i < n
            invariant
                i <= n,
                n == notebook.pages@.len(),
                b@ == head + page_links(notebook.pages@.take(i as int)),
            decreases n - i,
        {
            let ghost ps = notebook.pages@.take(i + 1);
            assert(ps.drop_last() =~= notebook.pages@.take(i as int));
            let page = &notebook.pages[i];
            assert(ps.last() == *page);
            Self::push_page_link(&mut b, page.page_num, page.image_filename.as_str());
            i = i + 1;
        }
        assert(notebook.pages@.take(n as int) =~= notebook.pages@);
        string_from_chars(b.as_slice())
    }
}

/// A word that reads back from its own `### ` heading: it holds no line
/// break, has no surrounding blanks, and does not itself start with `### `.
pub open spec fn plain_word(w: Seq<char>) -> bool {
    &&& forall|k: int| 0 <= k < w.len() ==> w[k] != '\n'
    &&& trim(w) == w
    &&& !(4 <= w.len() && w.take(4) == "### "@)
}

proof fn lemma_heading_words_concat(x: Seq<Seq<char>>, y: Seq<Seq<char>>)
    ensures
        heading_words(x + y) == heading_words(x) + heading_words(y),
    decreases x.len(),
{
    if x.len() == 0 {
        assert(x + y =~= y);
        assert(Seq::<Seq<char>>::empty() + heading_words(y) =~= heading_words(y));
    } else {
        assert((x + y).drop_first() =~= x.drop_first() + y);
        assert((x + y)[0] == x[0]);
        lemma_heading_words_concat(x.drop_first(), y);
        let h = if 4 <= x[0].len() && x[0].take(4) == "### "@ {
            seq![lowercase(trim(strip_prefix_all(x[0], "### "@)))]
        } else {
            Seq::<Seq<char>>::empty()
        };
        assert(h + (heading_words(x.drop_first()) + heading_words(y)) =~= (h + heading_words(
            x.drop_first(),
        )) + heading_words(y));
    }
}

/// A `### ` heading of a plain word among the lines gives the word, in lower case.
proof fn lemma_heading_word_found(ls: Seq<Seq<char>>, w: Seq<char>, k: int)
    requires
        plain_word(w),
        0 <= k < ls.len(),
        ls[k] == "### "@ + w,
    ensures
        heading_words(ls).contains(lowercase(w)),
    decreases k,
{
    reveal_strlit("### ");
    if k == 0 {
        let l = ls[0];
        assert(l.take(4) =~= "### "@);
        assert(l.skip(4) =~= w);
        assert(strip_prefix_all(l, "### "@) == strip_prefix_all(w, "### "@));
        assert(strip_prefix_all(w, "### "@) == w);
        assert(heading_words(ls)[0] == lowercase(w));
    } else {
        assert(ls.drop_first()[k - 1] == ls[k]);
        lemma_heading_word_found(ls.drop_first(), w, k - 1);
        let rest = heading_words(ls.drop_first());
        let i = choose|i: int| 0 <= i < rest.len() && rest[i] == lowercase(w);
        let h = heading_words(ls).len() - rest.len();
        assert(heading_words(ls)[h + i] == lowercase(w));
    }
}

/// The first line of a word's entry is its `### ` heading.
proof fn lemma_entry_heading(w: VocabView)
    requires
        plain_word(w.word),
    ensures
        lines(vocab_entry(w)).len() > 0,
        lines(vocab_entry(w))[0] == "### "@ + w.word,
        vocab_entry(w).last() == '\n',
{
    reveal_strlit("### ");
    reveal_strlit("\n");
    reveal_strlit("\n---\n\n");
    let l = "### "@ + w.word;
    let rest = vocab_entry(w).skip(l.len() + 1int);
    assert(vocab_entry(w) =~= l + seq!['\n'] + rest);
    assert forall|k: int| 0 <= k < l.len() implies l[k] != '\n' by {
        if k >= 4 {
            assert(l[k] == w.word[k - 4]);
        }
    }
    if w.word.len() > 0 {
        assert(l.last() == w.word.last());
        crate::text::lemma_trim_end_shape(crate::text::trim_start(w.word));
        crate::text::lemma_trim_start_shape(w.word);
        assert(trim(w.word).last() == w.word.last());
    }
    crate::text::lemma_first_line_is(l, rest);
}

/// The entries of the words not yet known: they end with a line break, the
/// words known afterwards are those known before and one new word per entry,
/// every word given is known afterwards, and each newly known word has its
/// `### ` heading among the lines of the entries.
proof fn lemma_vocab_entries(ws: Seq<VocabView>, known: Seq<Seq<char>>)
    requires
        forall|i: int| 0 <= i < ws.len() ==> plain_word(#[trigger] ws[i].word),
    ensures
        vocab_entries(ws, known).0.len() == 0 || vocab_entries(ws, known).0.last() == '\n',
        vocab_entries(ws, known).2.len() == known.len() + vocab_entries(ws, known).1,
        vocab_entries(ws, known).2.take(known.len() as int) == known,
        forall|i: int| 0 <= i < ws.len() ==> vocab_entries(ws, known).2.contains(lowercase(#[trigger] ws[i].word)),
        forall|j: int|
            known.len() <= j < vocab_entries(ws, known).2.len() ==> exists|i: int|
                0 <= i < ws.len() && lowercase(ws[i].word) == #[trigger] vocab_entries(ws, known).2[j]
                    && lines(vocab_entries(ws, known).0).contains("### "@ + ws[i].word),
    decreases ws.len(),
{
    let e = vocab_entries(ws, known);
    if ws.len() == 0 {
        assert(known.take(known.len() as int) =~= known);
    } else {
        let init = ws.drop_last();
        assert forall|i: int| 0 <= i < init.len() implies plain_word(#[trigger] init[i].word) by {
            assert(init[i] == ws[i]);
        }
        lemma_vocab_entries(init, known);
        let prev = vocab_entries(init, known);
        let w = ws.last();
        let key = lowercase(w.word);
        assert(plain_word(ws[ws.len() - 1].word));
        if prev.2.contains(key) {
            assert(e == prev);
            assert forall|i: int| 0 <= i < ws.len() implies e.2.contains(lowercase(#[trigger] ws[i].word)) by {
                if i < init.len() {
                    assert(init[i] == ws[i]);
                }
            }
            assert forall|j: int| known.len() <= j < e.2.len() implies exists|i: int|
                0 <= i < ws.len() && lowercase(ws[i].word) == #[trigger] e.2[j] && lines(e.0).contains(
                    "### "@ + ws[i].word,
                ) by {
                let i = choose|i: int|
                    0 <= i < init.len() && lowercase(init[i].word) == #[trigger] prev.2[j] && lines(
                        prev.0,
                    ).contains("### "@ + init[i].word);
                assert(init[i] == ws[i]);
            }
        } else {
            let entry = vocab_entry(w);
            assert(e.0 == prev.0 + entry);
            assert(e.2 == prev.2.push(key));
            lemma_entry_heading(w);
            crate::text::lemma_lines_concat(prev.0, entry);
            let ls = lines(e.0);
            assert(ls == lines(prev.0) + lines(entry));
            assert(ls[lines(prev.0).len() as int] == "### "@ + w.word);
            assert(e.0.last() == entry.last());
            assert(e.2.take(known.len() as int) =~= prev.2.take(known.len() as int));
            assert forall|i: int| 0 <= i < ws.len() implies e.2.contains(lowercase(#[trigger] ws[i].word)) by {
                if i < init.len() {
                    assert(init[i] == ws[i]);
                    let j = choose|j: int| 0 <= j < prev.2.len() && prev.2[j] == lowercase(init[i].word);
                    assert(e.2[j] == prev.2[j]);
                } else {
                    assert(e.2[prev.2.len() as int] == key);
                }
            }
            assert forall|j: int| known.len() <= j < e.2.len() implies exists|i: int|
                0 <= i < ws.len() && lowercase(ws[i].word) == #[trigger] e.2[j] && lines(e.0).contains(
                    "### "@ + ws[i].word,
                ) by {
                if j < prev.2.len() {
                    let i = choose|i: int|
                        0 <= i < init.len() && lowercase(init[i].word) == #[trigger] prev.2[j] && lines(
                            prev.0,
                        ).contains("### "@ + init[i].word);
                    assert(init[i] == ws[i]);
                    assert(e.2[j] == prev.2[j]);
                    let m = choose|m: int| 0 <= m < lines(prev.0).len() && lines(prev.0)[m] == "### "@ + init[i].word;
                    assert(ls[m] == lines(prev.0)[m]);
                } else {
                    assert(e.2[j] == key);
                    assert(ws[ws.len() - 1] == w);
                    assert(ls.contains("### "@ + w.word));
                }
            }
        }
    }
}

/// Where every word is known already, the entries add nothing.
proof fn lemma_vocab_entries_known(ws: Seq<VocabView>, known: Seq<Seq<char>>)
    requires
        forall|i: int| 0 <= i < ws.len() ==> known.contains(lowercase(#[trigger] ws[i].word)),
    ensures
        vocab_entries(ws, known).1 == 0,
        vocab_entries(ws, known).2 == known,
    decreases ws.len(),
{
    if ws.len() > 0 {
        let init = ws.drop_last();
        assert forall|i: int| 0 <= i < init.len() implies known.contains(lowercase(#[trigger] init[i].word)) by {
            assert(init[i] == ws[i]);
        }
        lemma_vocab_entries_known(init, known);
        assert(known.contains(lowercase(ws[ws.len() - 1].word)));
    }
}

/// Rendering the same words again, at any later time, against the
/// vocabulary file as the first rendering left it adds no word and appends
/// nothing: every word rendered, or already there, has its `### ` heading in
/// the file. The words read back from their headings (no line breaks, no
/// surrounding blanks, no `### ` of their own), and an existing file ends
/// with a line break or is empty.
pub proof fn lemma_vocabulary_rerun(
    ws: Seq<VocabView>,
    existing: Option<Seq<char>>,
    now: Seq<char>,
    later: Seq<char>,
)
    requires
        forall|i: int| 0 <= i < ws.len() ==> plain_word(#[trigger] ws[i].word),
        existing matches Some(e) ==> e.len() == 0 || e.last() == '\n',
    ensures
        ({
            let (out, n) = vocab_update(ws, existing, now);
            let after = match existing {
                Some(e) => Some(e + out),
                None => if n > 0 {
                    Some(out)
                } else {
                    None
                },
            };
            vocab_update(ws, after, later) == (Seq::<char>::empty(), 0nat)
        }),
{
    let known0 = match existing {
        Some(e) => heading_words(lines(e)),
        None => Seq::<Seq<char>>::empty(),
    };
    lemma_vocab_entries(ws, known0);
    let e = vocab_entries(ws, known0);
    let (out, n) = vocab_update(ws, existing, now);
    let after = match existing {
        Some(x) => Some(x + out),
        None => if n > 0 {
            Some(out)
        } else {
            None
        },
    };
    match after {
        None => {
            if ws.len() > 0 {
                assert(e.2.contains(lowercase(ws[0].word)));
            }
            assert(ws.len() == 0);
        },
        Some(file) => {
            let known2 = heading_words(lines(file));
            let ent = heading_words(lines(e.0));
            assert forall|j: int| known0.len() <= j < e.2.len() implies ent.contains(#[trigger] e.2[j]) by {
                let i = choose|i: int|
                    0 <= i < ws.len() && lowercase(ws[i].word) == #[trigger] e.2[j] && lines(e.0).contains(
                        "### "@ + ws[i].word,
                    );
                let m = choose|m: int| 0 <= m < lines(e.0).len() && lines(e.0)[m] == "### "@ + ws[i].word;
                lemma_heading_word_found(lines(e.0), ws[i].word, m);
            }
            match existing {
                Some(x) => {
                    let added = if e.1 == 0 {
                        Seq::<char>::empty()
                    } else {
                        e.0
                    };
                    assert(out == added);
                    crate::text::lemma_lines_concat(x, added);
                    lemma_heading_words_concat(lines(x), lines(added));
                    assert(known2 == known0 + heading_words(lines(added)));
                    assert forall|i: int| 0 <= i < ws.len() implies known2.contains(lowercase(#[trigger] ws[i].word)) by {
                        let key = lowercase(ws[i].word);
                        let j = choose|j: int| 0 <= j < e.2.len() && e.2[j] == key;
                        if j < known0.len() {
                            assert(e.2.take(known0.len() as int)[j] == known0[j]);
                            assert(known2[j] == known0[j]);
                        } else {
                            assert(e.1 > 0);
                            assert(added == e.0);
                            let m = choose|m: int| 0 <= m < ent.len() && ent[m] == e.2[j];
                            assert(known2[known0.len() + m] == ent[m]);
                        }
                    }
                    lemma_vocab_entries_known(ws, known2);
                },
                None => {
                    reveal_strlit("---\n");
                    reveal_strlit("type: kindle-vocabulary\n");
                    reveal_strlit("last_sync: \"");
                    reveal_strlit("\"\n");
                    reveal_strlit("tags:\n");
                    reveal_strlit("  - kindle/vocabulary\n");
                    reveal_strlit("---\n\n");
                    reveal_strlit("# Kindle 語彙・単語ログ\n\n");
                    let header = vocab_header(now);
                    assert(header.last() == '\n');
                    assert(file == header + e.0);
                    crate::text::lemma_lines_concat(header, e.0);
                    lemma_heading_words_concat(lines(header), lines(e.0));
                    assert(known2 == heading_words(lines(header)) + ent);
                    assert forall|i: int| 0 <= i < ws.len() implies known2.contains(lowercase(#[trigger] ws[i].word)) by {
                        let key = lowercase(ws[i].word);
                        let j = choose|j: int| 0 <= j < e.2.len() && e.2[j] == key;
                        let m = choose|m: int| 0 <= m < ent.len() && ent[m] == e.2[j];
                        assert(known2[heading_words(lines(header)).len() + m] == ent[m]);
                    }
                    lemma_vocab_entries_known(ws, known2);
                },
            }
        },
    }
}

} // verus!

verus! {

/// The keys of two runs of trimmed lines, one after the other.
proof fn lemma_snippet_keys_concat(a: Seq<Seq<char>>, b: Seq<Seq<char>>)
    ensures
        snippet_keys(a + b) == snippet_keys(a) + snippet_keys(b),
    decreases b.len(),
{
    if b.len() == 0 {
        assert(a + b =~= a);
        assert(snippet_keys(a) + Seq::<Seq<char>>::empty() =~= snippet_keys(a));
    } else {
        assert((a + b).drop_last() =~= a + b.drop_last());
        assert((a + b).last() == b.last());
        lemma_snippet_keys_concat(a, b.drop_last());
        assert(snippet_keys(a) + snippet_keys(b.drop_last()) + line_keys(b.last()) =~= snippet_keys(a)
            + (snippet_keys(b.drop_last()) + line_keys(b.last())));
    }
}

/// The keys of the lines of `p + r`, where `p` is empty or ends with a line
/// break: those of `p`, then those of `r`.
proof fn lemma_text_keys_concat(p: Seq<char>, r: Seq<char>)
    requires
        p.len() == 0 || p.last() == '\n',
    ensures
        snippet_keys(nonblank_trimmed(lines(p + r))) == snippet_keys(nonblank_trimmed(lines(p)))
            + snippet_keys(nonblank_trimmed(lines(r))),
{
    crate::text::lemma_lines_concat(p, r);
    crate::text::lemma_nonblank_trimmed_concat(lines(p), lines(r));
    lemma_snippet_keys_concat(nonblank_trimmed(lines(p)), nonblank_trimmed(lines(r)));
}

/// A content whose first line is not blank: `raw`, its text up to the first
/// line break, whose trimmed form is that first line, and its quoted form:
/// `raw`, then nothing or a line break and more.
proof fn lemma_content_head(content: Seq<char>) -> (r: (Seq<char>, Seq<char>))
    requires
        first_line(content).len() > 0,
    ensures
        r.0.len() > 0,
        forall|k: int| 0 <= k < r.0.len() ==> r.0[k] != '\n',
        trim(r.0) == first_line(content),
        quoted(content) == r.0 + r.1,
        r.1.len() == 0 || r.1[0] == '\n',
{
    reveal_strlit("\n> ");
    crate::text::lemma_find_from(content, seq!['\n'], 0);
    let raw = match crate::text::find_from(content, seq!['\n'], 0) {
        Some(k) => content.take(k),
        None => content,
    };
    assert forall|k: int| 0 <= k < raw.len() implies raw[k] != '\n' by {
        assert(raw[k] == content[k]);
        assert(content.subrange(k, k + 1)[0] == content[k]);
        if content[k] == '\n' {
            assert(content.subrange(k, k + 1) =~= seq!['\n']);
            assert(occurs_at(content, seq!['\n'], k));
        }
    }
    let tail = match crate::text::find_from(content, seq!['\n'], 0) {
        Some(k) => {
            let more = content.skip(k + 1);
            assert(content.subrange(k, k + 1) =~= seq!['\n']);
            assert(content =~= raw + (seq!['\n'] + more));
            crate::text::lemma_first_line_cr(raw, more);
            assert(content =~= raw + seq!['\n'] + more);
            crate::text::lemma_trim_strip_cr(raw);
            crate::text::lemma_replace_char_concat(raw, seq!['\n'] + more, '\n', "\n> "@);
            crate::text::lemma_replace_char_concat(seq!['\n'], more, '\n', "\n> "@);
            crate::text::lemma_replace_char_absent(raw, '\n', "\n> "@);
            assert(replace_char(seq!['\n'], '\n', "\n> "@) =~= "\n> "@) by {
                assert(seq!['\n'].drop_last() =~= Seq::<char>::empty());
                assert(seq!['\n'].last() == '\n');
                assert(replace_char(Seq::<char>::empty(), '\n', "\n> "@) =~= Seq::<char>::empty());
                assert(replace_char(seq!['\n'], '\n', "\n> "@) == replace_char(
                    Seq::<char>::empty(),
                    '\n',
                    "\n> "@,
                ) + "\n> "@);
            }
            "\n> "@ + replace_char(more, '\n', "\n> "@)
        },
        None => {
            assert(content.len() > 0);
            crate::text::lemma_single_line(content);
            crate::text::lemma_replace_char_absent(content, '\n', "\n> "@);
            assert(raw + Seq::<char>::empty() =~= raw);
            Seq::<char>::empty()
        },
    };
    assert(raw.len() > 0) by {
        if raw.len() == 0 {
            assert(raw =~= Seq::<char>::empty());
            assert(trim(raw) =~= Seq::<char>::empty());
        }
    }
    (raw, tail)
}

/// The first line of `mark + raw + tail + "\n" + f`, where neither `mark`
/// nor `raw` holds a line break and `tail` is empty or starts with one.
proof fn lemma_marked_first_line(mark: Seq<char>, raw: Seq<char>, tail: Seq<char>, f: Seq<char>)
    requires
        forall|k: int| 0 <= k < mark.len() ==> mark[k] != '\n',
        forall|k: int| 0 <= k < raw.len() ==> raw[k] != '\n',
        raw.len() > 0,
        tail.len() == 0 || tail[0] == '\n',
    ensures
        lines(mark + (raw + tail) + seq!['\n'] + f).len() > 0,
        lines(mark + (raw + tail) + seq!['\n'] + f)[0] == mark + crate::text::strip_cr(raw),
{
    let head = mark + raw;
    let rest = if tail.len() == 0 {
        f
    } else {
        tail.skip(1) + seq!['\n'] + f
    };
    assert(mark + (raw + tail) + seq!['\n'] + f =~= head + seq!['\n'] + rest);
    assert forall|k: int| 0 <= k < head.len() implies head[k] != '\n' by {
        if k >= mark.len() {
            assert(head[k] == raw[k - mark.len()]);
        }
    }
    crate::text::lemma_first_line_cr(head, rest);
    assert(crate::text::strip_cr(head) =~= mark + crate::text::strip_cr(raw));
}

/// The first line of the entry of a highlight or a note, whose content's
/// first line is not blank: its mark, then `y`, whose trimmed form is the
/// content's first line.
proof fn lemma_entry_head(c: ClippingView) -> (y: Seq<char>)
    requires
        c.clipping_type != ClippingType::Bookmark,
        first_line(c.content).len() > 0,
    ensures
        lines(clipping_entry(c)).len() > 0,
        lines(clipping_entry(c))[0] == (if c.clipping_type == ClippingType::Highlight {
            quote_mark()
        } else {
            note_mark()
        }) + y,
        trim(y) == first_line(c.content),
        clipping_entry(c).last() == '\n',
{
    let mark = if c.clipping_type == ClippingType::Highlight {
        quote_mark()
    } else {
        note_mark()
    };
    assert forall|k: int| 0 <= k < mark.len() implies mark[k] != '\n' by {
        reveal_strlit("> ");
        reveal_strlit("> 💡 **メモ:** ");
    }
    reveal_strlit("\n");
    reveal_strlit("\n\n");
    let (raw, tail) = lemma_content_head(c.content);
    let f = entry_footer(c);
    assert(clipping_entry(c) == mark + (raw + tail) + seq!['\n'] + f);
    assert(f.last() == '\n');
    lemma_marked_first_line(mark, raw, tail, f);
    crate::text::lemma_trim_strip_cr(raw);
    crate::text::strip_cr(raw)
}

/// The entry of a highlight or a note, whose content's first line is not
/// blank, stands for that first line.
proof fn lemma_entry_key(c: ClippingView)
    requires
        c.clipping_type != ClippingType::Bookmark,
        first_line(c.content).len() > 0,
    ensures
        snippet_keys(nonblank_trimmed(lines(clipping_entry(c)))).contains(first_line(c.content)),
        clipping_entry(c).last() == '\n',
{
    reveal_strlit("> ");
    reveal_strlit("> 💡 **メモ:** ");
    let content = c.content;
    let mark = if c.clipping_type == ClippingType::Highlight {
        quote_mark()
    } else {
        note_mark()
    };
    let entry = clipping_entry(c);
    let y = lemma_entry_head(c);
    assert(mark[0] == '>');
    crate::text::lemma_trim_after_mark(mark, y);
    let t = trim(mark + y);
    assert(t == mark + crate::text::trim_end(y));
    assert(t.skip(mark.len() as int) =~= crate::text::trim_end(y));
    crate::text::lemma_trim_trim_end(y);
    assert(trim(t.skip(mark.len() as int)) == first_line(content));
    assert(t.subrange(0, mark.len() as int) =~= mark);
    assert(starts_with(t, mark));
    assert(line_keys(t).contains(first_line(content))) by {
        if c.clipping_type == ClippingType::Highlight {
            assert(line_keys(t)[1] == first_line(content));
        } else {
            assert(t.subrange(0, 2) =~= quote_mark());
            assert(line_keys(t)[2] == first_line(content));
        }
    }
    let ls = lines(entry);
    assert(ls[0] == mark + y);
    assert(ls =~= seq![ls[0]] + ls.drop_first());
    crate::text::lemma_nonblank_trimmed_concat(seq![ls[0]], ls.drop_first());
    assert(nonblank_trimmed(seq![ls[0]]) =~= seq![t]) by {
        assert(seq![ls[0]].drop_first() =~= Seq::<Seq<char>>::empty());
        assert(seq![ls[0]][0] == ls[0]);
        assert(trim(ls[0]) == t);
        assert(t.len() > 0);
        assert(nonblank_trimmed(Seq::<Seq<char>>::empty()) =~= Seq::<Seq<char>>::empty());
    }
    lemma_snippet_keys_concat(seq![t], nonblank_trimmed(ls.drop_first()));
    assert(snippet_keys(seq![t]) =~= line_keys(t)) by {
        assert(seq![t].drop_last() =~= Seq::<Seq<char>>::empty());
        assert(seq![t].last() == t);
        assert(snippet_keys(Seq::<Seq<char>>::empty()) =~= Seq::<Seq<char>>::empty());
        assert(Seq::<Seq<char>>::empty() + line_keys(t) =~= line_keys(t));
    }
    let all = snippet_keys(nonblank_trimmed(ls));
    let i = choose|i: int| 0 <= i < line_keys(t).len() && line_keys(t)[i] == first_line(content);
    assert(all[i] == line_keys(t)[i]);
}

/// The entries appended for `cs`: empty or ending with a line break, empty
/// where none is added, and each highlight or note of `cs` whose first line
/// is not blank is either in the file already or stood for by them.
proof fn lemma_book_entries(cs: Seq<ClippingView>, existing: Option<Seq<char>>)
    requires
        forall|i: int|
            0 <= i < cs.len() ==> (#[trigger] cs[i]).clipping_type != ClippingType::Bookmark
                && first_line(cs[i].content).len() > 0,
    ensures
        book_entries(cs, existing).0.len() == 0 || book_entries(cs, existing).0.last() == '\n',
        book_entries(cs, existing).1 == 0 ==> book_entries(cs, existing).0.len() == 0,
        forall|i: int|
            0 <= i < cs.len() ==> already_in_file(existing, #[trigger] cs[i]) || snippet_keys(
                nonblank_trimmed(lines(book_entries(cs, existing).0)),
            ).contains(first_line(cs[i].content)),
    decreases cs.len(),
{
    if cs.len() > 0 {
        let init = cs.drop_last();
        assert forall|i: int| 0 <= i < init.len() implies (#[trigger] init[i]).clipping_type
            != ClippingType::Bookmark && first_line(init[i].content).len() > 0 by {
            assert(init[i] == cs[i]);
        }
        lemma_book_entries(init, existing);
        let prev = book_entries(init, existing);
        let c = cs.last();
        assert(c == cs[cs.len() - 1]);
        if !already_in_file(existing, c) {
            let entry = clipping_entry(c);
            lemma_entry_key(c);
            lemma_text_keys_concat(prev.0, entry);
            let kp = snippet_keys(nonblank_trimmed(lines(prev.0)));
            let ke = snippet_keys(nonblank_trimmed(lines(entry)));
            let all = snippet_keys(nonblank_trimmed(lines(prev.0 + entry)));
            assert(all == kp + ke);
            assert((prev.0 + entry).last() == entry.last());
            assert forall|i: int| 0 <= i < cs.len() implies already_in_file(existing, #[trigger] cs[i])
                || all.contains(first_line(cs[i].content)) by {
                if i < init.len() {
                    assert(init[i] == cs[i]);
                    if !already_in_file(existing, cs[i]) {
                        let j = choose|j: int| 0 <= j < kp.len() && kp[j] == first_line(init[i].content);
                        assert(all[j] == kp[j]);
                    }
                } else {
                    let j = choose|j: int| 0 <= j < ke.len() && ke[j] == first_line(c.content);
                    assert(all[kp.len() + j] == ke[j]);
                }
            }
        } else {
            assert forall|i: int| 0 <= i < cs.len() implies already_in_file(existing, #[trigger] cs[i])
                || snippet_keys(nonblank_trimmed(lines(prev.0))).contains(first_line(cs[i].content)) by {
                if i < init.len() {
                    assert(init[i] == cs[i]);
                }
            }
        }
    }
}

/// Where every clipping is in the file already, nothing is added.
proof fn lemma_book_entries_known(cs: Seq<ClippingView>, existing: Option<Seq<char>>)
    requires
        forall|i: int| 0 <= i < cs.len() ==> already_in_file(existing, #[trigger] cs[i]),
    ensures
        book_entries(cs, existing) == (Seq::<char>::empty(), 0nat),
    decreases cs.len(),
{
    if cs.len() > 0 {
        let init = cs.drop_last();
        assert forall|i: int| 0 <= i < init.len() implies already_in_file(existing, #[trigger] init[i]) by {
            assert(init[i] == cs[i]);
        }
        lemma_book_entries_known(init, existing);
        assert(already_in_file(existing, cs[cs.len() - 1]));
    }
}

/// The book file after an update: as it was where nothing was added, else
/// with the appended text (the whole file where there was none).
pub open spec fn book_after(existing: Option<Seq<char>>, appended: (Seq<char>, nat)) -> Option<
    Seq<char>,
> {
    if appended.1 == 0 {
        existing
    } else {
        match existing {
            Some(e) => Some(e + appended.0),
            None => Some(appended.0),
        }
    }
}

/// Updating a book file again with the same clippings, at any later time,
/// against the file as the first update left it, adds no clipping and
/// appends nothing: each highlight or note is found in the file by the first
/// line of its content. This holds where each clipping is a highlight or a
/// note whose content's first line is not blank, and where an existing file
/// was empty or ended with a line break.
pub proof fn lemma_book_rerun(
    title: Seq<char>,
    author: Option<Seq<char>>,
    cs: Seq<ClippingView>,
    existing: Option<Seq<char>>,
    now: Seq<char>,
    later: Seq<char>,
)
    requires
        forall|i: int|
            0 <= i < cs.len() ==> (#[trigger] cs[i]).clipping_type != ClippingType::Bookmark
                && first_line(cs[i].content).len() > 0,
        existing matches Some(e) ==> e.len() == 0 || e.last() == '\n',
    ensures
        book_update(
            title,
            author,
            cs,
            book_after(existing, book_update(title, author, cs, existing, now)),
            later,
        ) == (Seq::<char>::empty(), 0nat),
{
    lemma_book_entries(cs, existing);
    let e = book_entries(cs, existing);
    let u = book_update(title, author, cs, existing, now);
    let after = book_after(existing, u);
    let ke = snippet_keys(nonblank_trimmed(lines(e.0)));
    if e.1 == 0 {
        assert(after == existing);
        assert(e.0 =~= Seq::<char>::empty());
        assert(lines(e.0) =~= Seq::<Seq<char>>::empty());
        assert(nonblank_trimmed(Seq::<Seq<char>>::empty()) =~= Seq::<Seq<char>>::empty());
        assert(snippet_keys(Seq::<Seq<char>>::empty()) =~= Seq::<Seq<char>>::empty());
        assert forall|i: int| 0 <= i < cs.len() implies already_in_file(after, #[trigger] cs[i]) by {
            assert(!ke.contains(first_line(cs[i].content)));
        }
        lemma_book_entries_known(cs, after);
    } else {
        let prefix = match existing {
            Some(x) => x,
            None => book_header(
                title,
                match author {
                    Some(a) => a,
                    None => "Unknown"@,
                },
                now,
            ),
        };
        if existing is None {
            reveal_strlit("## ハイライト・メモ一覧\n\n");
            assert(prefix.last() == '\n');
        }
        assert(after == Some(prefix + e.0));
        lemma_text_keys_concat(prefix, e.0);
        let kp = snippet_keys(nonblank_trimmed(lines(prefix)));
        let all = snippet_keys(nonblank_trimmed(lines(prefix + e.0)));
        assert(all == kp + ke);
        assert forall|i: int| 0 <= i < cs.len() implies already_in_file(after, #[trigger] cs[i]) by {
            let key = first_line(cs[i].content);
            if already_in_file(existing, cs[i]) {
                let j = choose|j: int| 0 <= j < kp.len() && kp[j] == key;
                assert(all[j] == kp[j]);
            } else {
                let j = choose|j: int| 0 <= j < ke.len() && ke[j] == key;
                assert(all[kp.len() + j] == ke[j]);
            }
        }
        lemma_book_entries_known(cs, after);
    }
}

} // verus!

verus! {

/// The entry of every clipping ends with where it is in the book (`N/A`
/// where that is not known) and the date it was made, to the minute, after
/// `追加日: ` (`Unknown` only where that date is not known).
pub proof fn lemma_entry_date(c: ClippingView)
    ensures
        ({
            let loc = match c.location {
                Some(l) => l,
                None => "N/A"@,
            };
            &&& c.created_at matches Some(t) ==> crate::text::ends_with(
                clipping_entry(c),
                "位置: "@ + loc + " | 追加日: "@ + minute_text(t) + "\n\n"@,
            )
            &&& c.created_at is None ==> crate::text::ends_with(
                clipping_entry(c),
                "位置: "@ + loc + " | 追加日: Unknown\n\n"@,
            )
        }),
{
    let tail = location_text(c) + " | 追加日: "@ + date_text(c.created_at) + "\n\n"@;
    let e = clipping_entry(c);
    let head = match c.clipping_type {
        ClippingType::Highlight => quote_mark() + quoted(c.content) + "\n"@ + "— "@,
        ClippingType::Note => note_mark() + quoted(c.content) + "\n"@ + "— "@,
        ClippingType::Bookmark => "🔖 **しおり:** "@,
    };
    assert(e =~= head + tail);
    assert(e.subrange(e.len() - tail.len(), e.len() as int) =~= tail);
    if c.created_at is None {
        let loc = match c.location {
            Some(l) => l,
            None => "N/A"@,
        };
        assert(" | 追加日: "@ + "Unknown"@ + "\n\n"@ =~= " | 追加日: Unknown\n\n"@) by {
            reveal_strlit(" | 追加日: ");
            reveal_strlit("Unknown");
            reveal_strlit("\n\n");
            reveal_strlit(" | 追加日: Unknown\n\n");
        }
        assert(tail =~= "位置: "@ + loc + (" | 追加日: "@ + "Unknown"@ + "\n\n"@));
        assert(tail =~= "位置: "@ + loc + " | 追加日: Unknown\n\n"@);
    }
}

/// The entry of a highlight or a note opens with its mark (`> ` for a
/// highlight, `> 💡 **メモ:** ` for a note) and the first line of its
/// content, as a line of its own.
pub proof fn lemma_entry_opens_with_content(c: ClippingView)
    requires
        c.clipping_type != ClippingType::Bookmark,
        first_line(c.content).len() > 0,
    ensures
        lines(clipping_entry(c)).len() > 0,
        exists|y: Seq<char>|
            trim(y) == first_line(c.content) && lines(clipping_entry(c))[0] == (if c.clipping_type
                == ClippingType::Highlight {
                "> "@
            } else {
                "> 💡 **メモ:** "@
            }) + y,
{
    let y = lemma_entry_head(c);
    assert(trim(y) == first_line(c.content));
}

/// The parts of a word's entry, in order: heading, stem line, book line,
/// date line, usage line, and the closing rule.
proof fn lemma_vocab_entry_parts(w: VocabView) -> (r: (Seq<char>, Seq<char>, Seq<char>, Seq<char>))
    ensures
        vocab_entry(w) == ("### "@ + w.word + "\n"@) + r.0 + r.1 + ("- **検索日時:** "@ + date_text(
            chrono_from_millis(w.timestamp),
        ) + "\n"@) + r.2 + r.3,
        r.0 == (match w.stem {
            Some(st) => if st != w.word {
                "- **原形:** `"@ + st + "`\n"@
            } else {
                seq![]
            },
            None => seq![],
        }),
        r.1 == (match w.book_title {
            Some(b) => "- **書籍:** [["@ + b + "]]\n"@,
            None => seq![],
        }),
        r.3 == "\n---\n\n"@,
{
    let stem = match w.stem {
        Some(st) => if st != w.word {
            "- **原形:** `"@ + st + "`\n"@
        } else {
            seq![]
        },
        None => seq![],
    };
    let book = match w.book_title {
        Some(b) => "- **書籍:** [["@ + b + "]]\n"@,
        None => seq![],
    };
    let usage = match w.usage {
        Some(u) => "> "@ + replace_char(u, '\n', " "@) + "\n"@,
        None => seq![],
    };
    (stem, book, usage, "\n---\n\n"@)
}

/// A word's entry opens with its `### ` heading line and holds, as a line of
/// its own, when the word was looked up, to the minute.
pub proof fn lemma_vocab_entry_date(w: VocabView)
    ensures
        crate::text::starts_with(vocab_entry(w), "### "@ + w.word + "\n"@),
        crate::text::contains(
            vocab_entry(w),
            "\n"@ + "- **検索日時:** "@ + date_text(chrono_from_millis(w.timestamp)) + "\n"@,
        ),
{
    let (stem, book, usage, close) = lemma_vocab_entry_parts(w);
    let h = "### "@ + w.word + "\n"@;
    let e = vocab_entry(w);
    assert(e.subrange(0, h.len() as int) =~= h);
    let pre = h + stem + book;
    assert(pre.len() > 0 && pre.last() == '\n') by {
        reveal_strlit("\n");
        reveal_strlit("`\n");
        reveal_strlit("]]\n");
    }
    let d = "- **検索日時:** "@ + date_text(chrono_from_millis(w.timestamp)) + "\n"@;
    let pat = "\n"@ + d;
    assert(pre.drop_last() + seq!['\n'] =~= pre);
    assert(e =~= pre.drop_last() + pat + (usage + close)) by {
        reveal_strlit("\n");
    }
    crate::text::lemma_contains_middle(pre.drop_last(), pat, usage + close);
    assert(pat =~= "\n"@ + "- **検索日時:** "@ + date_text(chrono_from_millis(w.timestamp)) + "\n"@);
}

/// A word's entry holds, as a line of its own, the book it was looked up in
/// where that is known, and its stem where that differs from the word.
pub proof fn lemma_vocab_entry_book_stem(w: VocabView)
    ensures
        w.book_title matches Some(b) ==> crate::text::contains(
            vocab_entry(w),
            "\n"@ + "- **書籍:** [["@ + b + "]]\n"@,
        ),
        w.stem matches Some(st) ==> st != w.word ==> crate::text::contains(
            vocab_entry(w),
            "\n"@ + "- **原形:** `"@ + st + "`\n"@,
        ),
{
    let (stem, book, usage, close) = lemma_vocab_entry_parts(w);
    let h = "### "@ + w.word + "\n"@;
    let d = "- **検索日時:** "@ + date_text(chrono_from_millis(w.timestamp)) + "\n"@;
    let e = vocab_entry(w);
    assert(h.len() > 0 && h.last() == '\n') by {
        reveal_strlit("\n");
    }
    assert(h.drop_last() + seq!['\n'] =~= h);
    if let Some(b) = w.book_title {
        let pre = h + stem;
        assert(pre.len() > 0 && pre.last() == '\n') by {
            reveal_strlit("`\n");
        }
        assert(pre.drop_last() + seq!['\n'] =~= pre);
        let pat = "\n"@ + book;
        assert(e =~= pre.drop_last() + pat + (d + usage + close)) by {
            reveal_strlit("\n");
        }
        crate::text::lemma_contains_middle(pre.drop_last(), pat, d + usage + close);
        assert(pat =~= "\n"@ + "- **書籍:** [["@ + b + "]]\n"@);
    }
    if let Some(st) = w.stem {
        if st != w.word {
            let pat = "\n"@ + stem;
            assert(e =~= h.drop_last() + pat + (book + d + usage + close)) by {
                reveal_strlit("\n");
            }
            crate::text::lemma_contains_middle(h.drop_last(), pat, book + d + usage + close);
            assert(pat =~= "\n"@ + "- **原形:** `"@ + st + "`\n"@);
        }
    }
}

/// A word's entry holds, where the word came with a usage sentence, that
/// sentence as a quoted line of its own, its line breaks turned to spaces.
pub proof fn lemma_vocab_usage_line(w: VocabView)
    ensures
        w.usage matches Some(u) ==> crate::text::contains(
            vocab_entry(w),
            "\n> "@ + replace_char(u, '\n', " "@) + "\n"@,
        ),
{
    if let Some(u) = w.usage {
        let line = "> "@ + replace_char(u, '\n', " "@) + "\n"@;
        let pre = "### "@ + w.word + "\n"@ + (match w.stem {
            Some(s) => if s != w.word {
                "- **原形:** `"@ + s + "`\n"@
            } else {
                seq![]
            },
            None => seq![],
        }) + (match w.book_title {
            Some(b) => "- **書籍:** [["@ + b + "]]\n"@,
            None => seq![],
        }) + "- **検索日時:** "@ + date_text(chrono_from_millis(w.timestamp));
        let post = "\n---\n\n"@;
        assert(vocab_entry(w) =~= pre + ("\n"@ + line) + post);
        assert("\n"@ + line =~= "\n> "@ + replace_char(u, '\n', " "@) + "\n"@) by {
            reveal_strlit("\n");
            reveal_strlit("> ");
            reveal_strlit("\n> ");
        }
        crate::text::lemma_contains_middle(pre, "\n"@ + line, post);
    }
}

/// The page links, split at page `i`: what comes before its link, the link,
/// and what follows.
proof fn lemma_page_links_split(ps: Seq<NotebookPage>, i: int) -> (r: (Seq<char>, Seq<char>))
    requires
        0 <= i < ps.len(),
    ensures
        page_links(ps) == r.0 + page_link(ps[i].page_num, ps[i].image_filename@) + r.1,
    decreases ps.len(),
{
    let init = ps.drop_last();
    let last = page_link(ps.last().page_num, ps.last().image_filename@);
    if i == ps.len() - 1 {
        assert(page_links(ps) =~= page_links(init) + last + Seq::<char>::empty());
        (page_links(init), Seq::<char>::empty())
    } else {
        assert(init[i] == ps[i]);
        let (a, b) = lemma_page_links_split(init, i);
        let link = page_link(ps[i].page_num, ps[i].image_filename@);
        assert(page_links(ps) =~= a + link + (b + last));
        (a, b + last)
    }
}

/// Every page of a notebook is shown in its Markdown: a line of its own
/// with the image link `![ページ n](./file)` to that page's image file.
#[verifier::rlimit(50)]
pub proof fn lemma_notebook_shows_pages(id: Seq<char>, title: Seq<char>, pages: Seq<NotebookPage>, now: Seq<char>)
    ensures
        forall|i: int|
            0 <= i < pages.len() ==> crate::text::contains(
                notebook_markdown(id, title, pages, now),
                "\n![ページ "@ + decimal_text(#[trigger] pages[i].page_num as nat) + "](./"@
                    + pages[i].image_filename@ + ")\n"@,
            ),
{
    assert forall|i: int| 0 <= i < pages.len() implies crate::text::contains(
        notebook_markdown(id, title, pages, now),
        "\n![ページ "@ + decimal_text(#[trigger] pages[i].page_num as nat) + "](./"@
            + pages[i].image_filename@ + ")\n"@,
    ) by {
        let (a, b) = lemma_page_links_split(pages, i);
        let n = decimal_text(pages[i].page_num as nat);
        let f = pages[i].image_filename@;
        let pat = "\n![ページ "@ + n + "](./"@ + f + ")\n"@;
        let md = notebook_markdown(id, title, pages, now);
        let head = md.subrange(0, md.len() - page_links(pages).len());
        assert(md =~= head + page_links(pages));
        assert("\n"@ + "![ページ "@ =~= "\n![ページ "@) by {
            reveal_strlit("\n");
            reveal_strlit("![ページ ");
            reveal_strlit("\n![ページ ");
        }
        let pre = head + a + "### ページ "@ + n;
        let post = "\n"@ + b;
        assert(page_link(pages[i].page_num, f) =~= "### ページ "@ + n + pat + "\n"@);
        assert(md =~= pre + pat + post);
        crate::text::lemma_contains_middle(pre, pat, post);
    }
}

} // verus!

verus! {

/// A new book file opens with its front matter, and holds the book's title
/// as its `# ` heading and its author on the `著者` line, each a line of its own.
pub proof fn lemma_book_header_names_book(title: Seq<char>, author: Seq<char>, now: Seq<char>)
    ensures
        crate::text::starts_with(book_header(title, author, now), "---\n"@ + "type: book-highlight\n"@),
        crate::text::contains(book_header(title, author, now), "\n"@ + "# "@ + title + "\n"@),
        crate::text::contains(book_header(title, author, now), "\n"@ + "- 著者: "@ + author + "\n"@),
{
    let h = book_header(title, author, now);
    let fm = "---\n"@ + "type: book-highlight\n"@;
    assert(h.subrange(0, fm.len() as int) =~= fm);
    let a = "---\n"@ + "type: book-highlight\n"@ + "title: \""@ + escape_quotes(title) + "\"\n"@
        + "author: \""@ + escape_quotes(author) + "\"\n"@ + "last_sync: \""@ + now + "\"\n"@
        + "tags:\n"@ + "  - kindle/highlights\n"@ + "---\n"@;
    let t = "# "@ + title + "\n"@;
    let b = "\n"@ + "## メタデータ\n"@;
    let au = "- 著者: "@ + author + "\n"@;
    let c = "- 最終同期: "@ + now + "\n\n"@ + "## ハイライト・メモ一覧\n\n"@;
    assert("---\n\n"@ =~= "---\n"@ + "\n"@) by {
        reveal_strlit("---\n\n");
        reveal_strlit("---\n");
        reveal_strlit("\n");
    }
    assert("\n\n"@ =~= "\n"@ + "\n"@) by {
        reveal_strlit("\n\n");
        reveal_strlit("\n");
    }
    assert(h =~= a + ("\n"@ + t) + b + au + c);
    crate::text::lemma_contains_middle(a, "\n"@ + t, b + au + c);
    assert(a + ("\n"@ + t) + b + au + c =~= a + ("\n"@ + t) + (b + au + c));
    assert(("\n"@ + t) =~= "\n"@ + "# "@ + title + "\n"@);
    let b2 = "\n"@ + "## メタデータ"@;
    assert("## メタデータ\n"@ =~= "## メタデータ"@ + "\n"@) by {
        reveal_strlit("## メタデータ\n");
        reveal_strlit("## メタデータ");
        reveal_strlit("\n");
    }
    assert(h =~= (a + "\n"@ + t + b2) + ("\n"@ + au) + c);
    crate::text::lemma_contains_middle(a + "\n"@ + t + b2, "\n"@ + au, c);
    assert(("\n"@ + au) =~= "\n"@ + "- 著者: "@ + author + "\n"@);
}

/// A notebook's Markdown states how many pages it has, in its front matter.
#[verifier::rlimit(50)]
pub proof fn lemma_notebook_page_count(id: Seq<char>, title: Seq<char>, pages: Seq<NotebookPage>, now: Seq<char>)
    ensures
        crate::text::contains(
            notebook_markdown(id, title, pages, now),
            "\n"@ + "pages: "@ + decimal_text(pages.len()) + "\n"@,
        ),
{
    let d = display_title(title);
    let a = "---\n"@ + "type: scribe-notebook\n"@ + "id: \""@ + id + "\"\n"@ + "title: \""@ + escape_quotes(d)
        + "\"\n"@ + "device_uuid: \""@ + title + "\""@;
    let pat = "\n"@ + "pages: "@ + decimal_text(pages.len()) + "\n"@;
    let md = notebook_markdown(id, title, pages, now);
    assert("\"\n"@ =~= "\""@ + "\n"@) by {
        reveal_strlit("\"\n");
        reveal_strlit("\"");
        reveal_strlit("\n");
    }
    let rest = "last_sync: \""@ + now + "\"\n"@ + "tags:\n"@ + "  - kindle/notebook\n"@ + "---\n\n"@
        + "# "@ + d + "\n\n"@ + "- **端末ノートID:** `"@ + title + "`\n"@ + "- **ページ数:** "@
        + decimal_text(pages.len()) + "\n"@ + "- **最終同期:** "@ + now + "\n\n"@
        + "> [!TIP] ノートのタイトルについて\n"@
        + "> このノートはお好みの名前にリネーム（変更）可能です。内部IDで管理されているため、今後の同期で上書きされることはありません。\n\n"@
        + "## ページ一覧\n\n"@ + page_links(pages);
    let front = a + ("\n"@ + "pages: "@ + decimal_text(pages.len()) + "\n"@);
    assert(md =~= front + rest);
    assert(front + rest =~= a + pat + rest);
    crate::text::lemma_contains_middle(a, pat, rest);
}

} // verus!

verus! {

/// The entries appended for `cs`, split at clipping `i` that is not in the
/// file: what comes before its entry, the entry, and what follows.
proof fn lemma_book_entries_split(cs: Seq<ClippingView>, existing: Option<Seq<char>>, i: int) -> (r: (
    Seq<char>,
    Seq<char>,
))
    requires
        0 <= i < cs.len(),
        !already_in_file(existing, cs[i]),
    ensures
        book_entries(cs, existing).0 == r.0 + clipping_entry(cs[i]) + r.1,
    decreases cs.len(),
{
    let init = cs.drop_last();
    let prev = book_entries(init, existing);
    if i == cs.len() - 1 {
        assert(cs.last() == cs[i]);
        assert(book_entries(cs, existing).0 =~= prev.0 + clipping_entry(cs[i]) + Seq::<char>::empty());
        (prev.0, Seq::<char>::empty())
    } else {
        assert(init[i] == cs[i]);
        let (a, b) = lemma_book_entries_split(init, existing, i);
        if already_in_file(existing, cs.last()) {
            (a, b)
        } else {
            assert(book_entries(cs, existing).0 =~= a + clipping_entry(cs[i]) + (b + clipping_entry(
                cs.last(),
            )));
            (a, b + clipping_entry(cs.last()))
        }
    }
}

/// Every clipping handed to a book update that the file does not hold
/// already has its entry in what is written.
pub proof fn lemma_book_update_writes_new(
    title: Seq<char>,
    author: Option<Seq<char>>,
    cs: Seq<ClippingView>,
    existing: Option<Seq<char>>,
    now: Seq<char>,
)
    ensures
        forall|i: int|
            0 <= i < cs.len() && !already_in_file(existing, #[trigger] cs[i]) ==> crate::text::contains(
                book_update(title, author, cs, existing, now).0,
                clipping_entry(cs[i]),
            ),
{
    assert forall|i: int|
        0 <= i < cs.len() && !already_in_file(existing, #[trigger] cs[i]) implies crate::text::contains(
        book_update(title, author, cs, existing, now).0,
        clipping_entry(cs[i]),
    ) by {
        let (a, b) = lemma_book_entries_split(cs, existing, i);
        let e = book_entries(cs, existing);
        assert(e.1 > 0) by {
            lemma_book_entries_count(cs, existing, i);
        }
        let pre = if existing is None {
            book_header(
                title,
                match author {
                    Some(x) => x,
                    None => "Unknown"@,
                },
                now,
            ) + a
        } else {
            a
        };
        assert(book_update(title, author, cs, existing, now).0 =~= pre + clipping_entry(cs[i]) + b);
        crate::text::lemma_contains_middle(pre, clipping_entry(cs[i]), b);
    }
}

/// A clipping that the file does not hold already is counted.
proof fn lemma_book_entries_count(cs: Seq<ClippingView>, existing: Option<Seq<char>>, i: int)
    requires
        0 <= i < cs.len(),
        !already_in_file(existing, cs[i]),
    ensures
        book_entries(cs, existing).1 > 0,
    decreases cs.len(),
{
    if i < cs.len() - 1 {
        assert(cs.drop_last()[i] == cs[i]);
        lemma_book_entries_count(cs.drop_last(), existing, i);
    } else {
        assert(cs.last() == cs[i]);
    }
}

} // verus!
