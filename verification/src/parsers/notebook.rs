//! Scribe notebooks: a notebook's title, id and content hash come from its
//! path and bytes; its page images come from the external converter, else
//! from the file read as a ZIP archive, else from thumbnails stored beside it,
//! else a placeholder page.
//!
//! Reading files and running the converter is left to the caller, which hands
//! over what it read in a [`NotebookFile`].

use vstd::prelude::*;
use vstd::slice::slice_to_vec;

use crate::digest::{sha256_hex, sha256_hex_of};
use crate::models::{Notebook, NotebookPage, NotebookPageView};
use crate::paths::{
    extension, file_name, file_stem, join_path, join_path_str, parent, path_extension,
    path_file_name, path_file_stem, path_parent,
};
use crate::pattern::{lowercase, to_lowercase};
use crate::text::{
    chars_of, contains, contains_seq, decimal_text, ends_with, ends_with_chars, push_chars,
    push_decimal, push_str, replace_char, replace_char_seq, starts_with, starts_with_chars,
    string_from_chars, strs_view, text_lt, text_lt_chars,
};

verus! {

/// Builds [`Notebook`]s from notebook files.
pub struct NotebookParser;

/// One page that the notebook converter reported: its number, the name of
/// the file it wrote and, where that file could be read, its bytes.
pub struct ConvertedPage {
    pub page_num: usize,
    pub filename: String,
    pub data: Option<Vec<u8>>,
}

/// The converter's report on a notebook.
pub struct ConverterOutput {
    pub success: bool,
    pub pages: Vec<ConvertedPage>,
}

/// A file in a thumbnails directory: its name and, where it was read, its bytes.
pub struct DirImage {
    pub name: String,
    pub data: Option<Vec<u8>>,
}

/// What was read for one notebook file.
pub struct NotebookFile {
    pub path: String,
    /// The bytes of the file.
    pub data: Vec<u8>,
    /// Modification time, in seconds since the Unix epoch (0 where unknown).
    pub last_modified: i64,
    /// The converter's report, where it ran and its report could be read.
    pub converter: Option<ConverterOutput>,
    /// The listing of each directory of [`NotebookParser::search_dirs`], in
    /// that order; `None` where it is not a readable directory.
    pub thumbnails: Vec<Option<Vec<DirImage>>>,
    /// The bytes of each file of [`NotebookParser::candidate_paths`], in that
    /// order; `None` where it is not a readable file.
    pub candidates: Vec<Option<Vec<u8>>>,
}

pub open spec fn opt_bytes(o: Option<Vec<u8>>) -> Option<Seq<u8>> {
    match o {
        Some(v) => Some(v@),
        None => None,
    }
}

impl View for ConvertedPage {
    type V = (usize, Seq<char>, Option<Seq<u8>>);

    open spec fn view(&self) -> (usize, Seq<char>, Option<Seq<u8>>) {
        (self.page_num, self.filename@, opt_bytes(self.data))
    }
}

impl View for DirImage {
    type V = (Seq<char>, Option<Seq<u8>>);

    open spec fn view(&self) -> (Seq<char>, Option<Seq<u8>>) {
        (self.name@, opt_bytes(self.data))
    }
}

pub open spec fn converted_view(ps: Seq<ConvertedPage>) -> Seq<(usize, Seq<char>, Option<Seq<u8>>)> {
    ps.map_values(|p: ConvertedPage| p@)
}

pub open spec fn images_view(es: Seq<DirImage>) -> Seq<(Seq<char>, Option<Seq<u8>>)> {
    es.map_values(|e: DirImage| e@)
}

pub open spec fn listing_view(o: Option<Vec<DirImage>>) -> Option<Seq<(Seq<char>, Option<Seq<u8>>)>> {
    match o {
        Some(es) => Some(images_view(es@)),
        None => None,
    }
}

pub open spec fn pages_view(ps: Seq<NotebookPage>) -> Seq<NotebookPageView> {
    ps.map_values(|p: NotebookPage| p@)
}

/// The spec-level content of a [`NotebookFile`].
pub struct NotebookFileView {
    pub path: Seq<char>,
    pub data: Seq<u8>,
    pub last_modified: i64,
    pub converter: Option<(bool, Seq<(usize, Seq<char>, Option<Seq<u8>>)>)>,
    pub thumbnails: Seq<Option<Seq<(Seq<char>, Option<Seq<u8>>)>>>,
    pub candidates: Seq<Option<Seq<u8>>>,
}

impl View for NotebookFile {
    type V = NotebookFileView;

    open spec fn view(&self) -> NotebookFileView {
        NotebookFileView {
            path: self.path@,
            data: self.data@,
            last_modified: self.last_modified,
            converter: match self.converter {
                Some(c) => Some((c.success, converted_view(c.pages@))),
                None => None,
            },
            thumbnails: self.thumbnails@.map_values(|o: Option<Vec<DirImage>>| listing_view(o)),
            candidates: self.candidates@.map_values(|o: Option<Vec<u8>>| opt_bytes(o)),
        }
    }
}

/// The file name of `path` in lower case, empty where it has none.
pub open spec fn lower_file_name(path: Seq<char>) -> Seq<char> {
    match path_file_name(path) {
        Some(n) => lowercase(n),
        None => seq![],
    }
}

/// The file stem of `path`, `Untitled Notebook` where it has none.
pub open spec fn raw_stem(path: Seq<char>) -> Seq<char> {
    match path_file_stem(path) {
        Some(s) => s,
        None => "Untitled Notebook"@,
    }
}

/// A notebook's title: the file stem, except for a file whose name or stem
/// is `nbk` in any case, which takes the name of its directory where there
/// is one.
pub open spec fn notebook_title(path: Seq<char>) -> Seq<char> {
    let stem = raw_stem(path);
    if lower_file_name(path) == "nbk"@ || lowercase(stem) == "nbk"@ {
        match path_parent(path) {
            Some(p) => match path_file_name(p) {
                Some(n) => n,
                None => stem,
            },
            None => stem,
        }
    } else {
        stem
    }
}

/// The file is a Scribe notebook file: its extension, or its whole name, is
/// `nbk` in any case.
pub open spec fn is_nbk(path: Seq<char>) -> bool {
    (match path_extension(path) {
        Some(e) => lowercase(e) == "nbk"@,
        None => false,
    }) || lower_file_name(path) == "nbk"@
}

/// The `thumbnails` directories beside the file and one level up, in that order.
pub open spec fn thumbnail_dirs(path: Seq<char>) -> Seq<Seq<char>> {
    match path_parent(path) {
        None => seq![],
        Some(p) => match path_parent(p) {
            None => seq![join_path(p, "thumbnails"@)],
            Some(g) => seq![join_path(p, "thumbnails"@), join_path(g, "thumbnails"@)],
        },
    }
}

/// The image files named after the notebook, looked at in this order when no
/// thumbnail directory gave a page.
pub open spec fn image_candidates(path: Seq<char>, title: Seq<char>) -> Seq<Seq<char>> {
    match path_parent(path) {
        None => seq![],
        Some(p) => {
            let t = join_path(p, "thumbnails"@);
            seq![
                join_path(t, title + ".png"@),
                join_path(t, title + ".jpg"@),
                join_path(p, title + ".png"@),
                join_path(p, title + ".jpg"@),
            ]
        },
    }
}

/// The file name of page `n` with extension `ext`: `page_{n}.{ext}`.
pub open spec fn page_name(n: int, ext: Seq<char>) -> Seq<char> {
    "page_"@ + decimal_text(n as nat) + "."@ + ext
}

pub open spec fn ext_or_png(e: Option<Seq<char>>) -> Seq<char> {
    match e {
        Some(x) => x,
        None => "png"@,
    }
}

/// What `zip::ZipArchive::new` and `ZipArchive::len` give for these bytes:
/// `None` where they are not a readable archive, else its number of entries.
pub uninterp spec fn zip_entry_count(data: Seq<u8>) -> Option<usize>;

/// What `ZipArchive::by_index` gives for entry `index` of the archive in
/// `data`: `None` where it cannot be opened, else its name and the bytes
/// that reading it to the end yielded.
pub uninterp spec fn zip_entry_at(data: Seq<u8>, index: usize) -> Option<(Seq<char>, Seq<u8>)>;

/// Calls `zip::ZipArchive::new` on the bytes and `ZipArchive::len`. Claimed:
/// the result is `zip_entry_count(data)`.
#[verifier::external_body]
fn zip_len(data: &[u8]) -> (r: Option<usize>)
    ensures
        r == zip_entry_count(data@),
{
    zip::ZipArchive::new(std::io::Cursor::new(data)).ok().map(|a| a.len())
}

/// Calls `zip::ZipArchive::new`, `ZipArchive::by_index`, `ZipFile::name` and
/// `Read::read_to_end`, whose error is ignored. Claimed: the result is
/// `zip_entry_at(data, index)`.
#[verifier::external_body]
fn zip_entry(data: &[u8], index: usize) -> (r: Option<(String, Vec<u8>)>)
    ensures
        r.deep_view() == zip_entry_at(data@, index),
{
    let mut archive = zip::ZipArchive::new(std::io::Cursor::new(data)).ok()?;
    let mut file = archive.by_index(index).ok()?;
    let name = file.name().to_string();
    let mut buf = Vec::new();
    let _ = std::io::Read::read_to_end(&mut file, &mut buf);
    Some((name, buf))
}

/// The entries that the ZIP fallback takes up: SVG, PNG and JSON files and
/// any whose name holds `page`.
pub open spec fn zip_selected(name: Seq<char>) -> bool {
    ends_with(name, ".svg"@) || ends_with(name, ".png"@) || ends_with(name, ".json"@) || contains(
        name,
        "page"@,
    )
}

/// The pages that ZIP entries give, in entry order and numbered from 1: each
/// taken-up SVG as `page_{n}.svg`, each taken-up PNG or JPEG as
/// `page_{n}.png` or `page_{n}.jpg`; other entries give none.
pub open spec fn zip_pages(entries: Seq<Option<(Seq<char>, Seq<u8>)>>) -> Seq<NotebookPageView>
    decreases entries.len(),
{
    if entries.len() == 0 {
        seq![]
    } else {
        let prev = zip_pages(entries.drop_last());
        let n = prev.len() + 1int;
        match entries.last() {
            Some((name, data)) => if zip_selected(name) && ends_with(name, ".svg"@) {
                prev.push(
                    NotebookPageView { page_num: n, image_data: data, image_filename: page_name(n, "svg"@) },
                )
            } else if zip_selected(name) && (ends_with(name, ".png"@) || ends_with(name, ".jpg"@)) {
                let ext = if ends_with(name, ".jpg"@) {
                    "jpg"@
                } else {
                    "png"@
                };
                prev.push(
                    NotebookPageView { page_num: n, image_data: data, image_filename: page_name(n, ext) },
                )
            } else {
                prev
            },
            None => prev,
        }
    }
}

/// The pages of the file read as a ZIP archive; none where it is not one.
pub open spec fn zip_archive_pages(data: Seq<u8>) -> Seq<NotebookPageView> {
    match zip_entry_count(data) {
        None => seq![],
        Some(n) => zip_pages(Seq::new(n as nat, |i: int| zip_entry_at(data, i as usize))),
    }
}

/// The notebook's title without its dashes (`str::replace('-', "")`).
pub open spec fn clean_title(title: Seq<char>) -> Seq<char> {
    replace_char(title, '-', seq![])
}

/// A thumbnail belongs to the notebook: a PNG or JPEG file whose name begins
/// with the title, or with the title without dashes where that is not empty.
pub open spec fn thumbnail_matches(name: Seq<char>, title: Seq<char>) -> bool {
    &&& ends_with(name, ".png"@) || ends_with(name, ".jpg"@)
    &&& starts_with(name, title) || (clean_title(title).len() > 0 && starts_with(
        name,
        clean_title(title),
    ))
}

/// `order` with `k` put after every index whose entry's name does not sort
/// after the name of entry `k`.
pub open spec fn insert_by_name(
    es: Seq<(Seq<char>, Option<Seq<u8>>)>,
    order: Seq<usize>,
    k: usize,
) -> Seq<usize>
    decreases order.len(),
{
    if order.len() == 0 {
        seq![k]
    } else if text_lt(es[k as int].0, es[order[0] as int].0) {
        seq![k] + order
    } else {
        seq![order[0]] + insert_by_name(es, order.drop_first(), k)
    }
}

/// The indices of the first `n` entries that belong to the notebook, sorted
/// by name; entries with equal names keep their order.
pub open spec fn matching_order(es: Seq<(Seq<char>, Option<Seq<u8>>)>, title: Seq<char>, n: nat) -> Seq<
    usize,
>
    decreases n,
{
    if n == 0 {
        seq![]
    } else {
        let prev = matching_order(es, title, (n - 1) as nat);
        if thumbnail_matches(es[n - 1].0, title) {
            insert_by_name(es, prev, (n - 1) as usize)
        } else {
            prev
        }
    }
}

/// The pages that the entries in `order` give, numbered from 1, each named
/// after the entry's extension (`png` where it has none); entries that could
/// not be read give none.
pub open spec fn dir_pages(es: Seq<(Seq<char>, Option<Seq<u8>>)>, order: Seq<usize>) -> Seq<
    NotebookPageView,
>
    decreases order.len(),
{
    if order.len() == 0 {
        seq![]
    } else {
        let prev = dir_pages(es, order.drop_last());
        let e = es[order.last() as int];
        match e.1 {
            Some(d) => {
                let n = prev.len() + 1int;
                prev.push(
                    NotebookPageView {
                        page_num: n,
                        image_data: d,
                        image_filename: page_name(n, ext_or_png(path_extension(e.0))),
                    },
                )
            },
            None => prev,
        }
    }
}

/// The pages of one thumbnail directory listing.
pub open spec fn listing_pages(es: Seq<(Seq<char>, Option<Seq<u8>>)>, title: Seq<char>) -> Seq<
    NotebookPageView,
> {
    dir_pages(es, matching_order(es, title, es.len()))
}

/// The pages of the first thumbnail directory that gives any.
pub open spec fn thumbnail_pages(
    dirs: Seq<Option<Seq<(Seq<char>, Option<Seq<u8>>)>>>,
    title: Seq<char>,
) -> Seq<NotebookPageView>
    decreases dirs.len(),
{
    if dirs.len() == 0 {
        seq![]
    } else {
        let here = match dirs[0] {
            Some(es) => listing_pages(es, title),
            None => seq![],
        };
        if here.len() > 0 {
            here
        } else {
            thumbnail_pages(dirs.drop_first(), title)
        }
    }
}

/// The first candidate image, from index `i` on, that could be read, as page 1.
pub open spec fn candidate_page_from(
    paths: Seq<Seq<char>>,
    found: Seq<Option<Seq<u8>>>,
    i: int,
) -> Option<NotebookPageView>
    decreases found.len() - i,
{
    if i < 0 || i >= found.len() || i >= paths.len() {
        None
    } else {
        match found[i] {
            Some(d) => Some(
                NotebookPageView {
                    page_num: 1,
                    image_data: d,
                    image_filename: page_name(1, ext_or_png(path_extension(paths[i]))),
                },
            ),
            None => candidate_page_from(paths, found, i + 1),
        }
    }
}

/// The pages that the converter's files give, in its order, with its numbers
/// and file names; files that could not be read give none.
pub open spec fn converted_pages(ps: Seq<(usize, Seq<char>, Option<Seq<u8>>)>) -> Seq<
    NotebookPageView,
>
    decreases ps.len(),
{
    if ps.len() == 0 {
        seq![]
    } else {
        let prev = converted_pages(ps.drop_last());
        let p = ps.last();
        match p.2 {
            Some(d) => prev.push(
                NotebookPageView { page_num: p.0 as int, image_data: d, image_filename: p.1 },
            ),
            None => prev,
        }
    }
}

/// The converter's pages, where it reported success and at least one page.
pub open spec fn converter_pages(c: Option<(bool, Seq<(usize, Seq<char>, Option<Seq<u8>>)>)>) -> Seq<
    NotebookPageView,
> {
    match c {
        Some((ok, ps)) => if ok && ps.len() > 0 {
            converted_pages(ps)
        } else {
            seq![]
        },
        None => seq![],
    }
}

/// The placeholder page's SVG text up to the notebook's title.
pub const PLACEHOLDER_HEAD: &'static str = r##"<svg xmlns="http://www.w3.org/2000/svg" viewBox="0 0 1404 1872" width="1404" height="1872">
  <rect width="100%" height="100%" fill="#f8fafc" stroke="#e2e8f0" stroke-width="2"/>
  <rect x="40" y="40" width="1324" height="1792" fill="#ffffff" rx="8" stroke="#cbd5e1" stroke-width="1"/>
  <text x="100" y="200" font-family="-apple-system, BlinkMacSystemFont, 'Segoe UI', sans-serif" font-size="36" font-weight="bold" fill="#1e293b">Kindle Scribe ノート</text>
  <text x="100" y="260" font-family="-apple-system, BlinkMacSystemFont, 'Segoe UI', sans-serif" font-size="20" fill="#64748b">ID: "##;

/// The placeholder page's SVG text after the notebook's title.
pub const PLACEHOLDER_TAIL: &'static str = r##"</text>
  <line x1="100" y1="300" x2="1304" y2="300" stroke="#e2e8f0" stroke-width="2"/>
  <text x="100" y="360" font-family="-apple-system, BlinkMacSystemFont, 'Segoe UI', sans-serif" font-size="22" fill="#334155">※ このノートは手書きストロークデータ（KDFバイナリ）として同期されました。</text>
  <text x="100" y="410" font-family="-apple-system, BlinkMacSystemFont, 'Segoe UI', sans-serif" font-size="18" fill="#64748b">Kindle Scribe 端末側で一度ノートを開いてページを更新するか、</text>
  <text x="100" y="450" font-family="-apple-system, BlinkMacSystemFont, 'Segoe UI', sans-serif" font-size="18" fill="#64748b">Kindleの「共有・メール送信」機能をご利用いただくことで、完全なPDFとして取り込むことも可能です。</text>
</svg>"##;

/// The page that stands in for a notebook whose pages could not be had: an
/// SVG that names the notebook, as `page_1.svg`.
pub open spec fn placeholder_page(title: Seq<char>) -> NotebookPageView {
    NotebookPageView {
        page_num: 1,
        image_data: vstd::utf8::encode_utf8(PLACEHOLDER_HEAD@ + title + PLACEHOLDER_TAIL@),
        image_filename: "page_1.svg"@,
    }
}

/// The pages of a notebook: the converter's, for a notebook file; else the
/// file's pages as a ZIP archive; else those of the first thumbnail directory
/// that has any; else the first candidate image; else the placeholder.
pub open spec fn notebook_pages(f: NotebookFileView) -> Seq<NotebookPageView> {
    let title = notebook_title(f.path);
    let conv = if is_nbk(f.path) {
        converter_pages(f.converter)
    } else {
        seq![]
    };
    if conv.len() > 0 {
        conv
    } else if zip_archive_pages(f.data).len() > 0 {
        zip_archive_pages(f.data)
    } else if thumbnail_pages(f.thumbnails, title).len() > 0 {
        thumbnail_pages(f.thumbnails, title)
    } else {
        match candidate_page_from(image_candidates(f.path, title), f.candidates, 0) {
            Some(p) => seq![p],
            None => seq![placeholder_page(title)],
        }
    }
}

proof fn lemma_pages_view_push(ps: Seq<NotebookPage>, p: NotebookPage)
    ensures
        pages_view(ps.push(p)) == pages_view(ps).push(p@),
{
    assert(pages_view(ps.push(p)) =~= pages_view(ps).push(p@));
}

/// `page_{n}.{ext}`.
fn page_file_name(n: usize, ext: &[char]) -> (r: String)
    ensures
        r@ == page_name(n as int, ext@),
{
    let mut b: Vec<char> = Vec::new();
    push_str(&mut b, "page_");
    push_decimal(&mut b, n as u64);
    push_str(&mut b, ".");
    push_chars(&mut b, ext);
    assert(b@ =~= page_name(n as int, ext@));
    string_from_chars(b.as_slice())
}

fn ext_or_png_of(e: Option<String>) -> (r: Vec<char>)
    ensures
        r@ == ext_or_png(e.deep_view()),
{
    match e {
        Some(x) => chars_of(x.as_str()),
        None => chars_of("png"),
    }
}

impl NotebookParser {
    /// The notebook's title for a file path.
    pub fn title(path: &str) -> (r: String)
        ensures
            r@ == notebook_title(path@),
    {
        let lower = match file_name(path) {
            Some(n) => to_lowercase(n.as_str()),
            None => String::new(),
        };
        let stem = match file_stem(path) {
            Some(s) => s,
            None => String::from_str("Untitled Notebook"),
        };
        let stem_lower = to_lowercase(stem.as_str());
        let nbk = String::from_str("nbk");
        if lower == nbk || stem_lower == nbk {
            match parent(path) {
                Some(p) => match file_name(p.as_str()) {
                    Some(n) => n,
                    None => stem,
                },
                None => stem,
            }
        } else {
            stem
        }
    }

    /// Whether the file is a Scribe notebook file, which the converter reads.
    pub fn is_nbk_file(path: &str) -> (r: bool)
        ensures
            r == is_nbk(path@),
    {
        let nbk = String::from_str("nbk");
        let by_ext = match extension(path) {
            Some(e) => to_lowercase(e.as_str()) == nbk,
            None => false,
        };
        let lower = match file_name(path) {
            Some(n) => to_lowercase(n.as_str()),
            None => String::new(),
        };
        by_ext || lower == nbk
    }

    /// The thumbnail directories to look in, in order.
    pub fn search_dirs(path: &str) -> (r: Vec<String>)
        ensures
            strs_view(r@) == thumbnail_dirs(path@),
    {
        let mut r: Vec<String> = Vec::new();
        match parent(path) {
            None => {},
            Some(p) => {
                r.push(join_path_str(p.as_str(), "thumbnails"));
                match parent(p.as_str()) {
                    None => {},
                    Some(g) => r.push(join_path_str(g.as_str(), "thumbnails")),
                }
            },
        }
        assert(strs_view(r@) =~= thumbnail_dirs(path@));
        r
    }

    /// The image files named after the notebook, in the order they are tried.
    pub fn candidate_paths(path: &str, title: &str) -> (r: Vec<String>)
        ensures
            strs_view(r@) == image_candidates(path@, title@),
    {
        let mut r: Vec<String> = Vec::new();
        match parent(path) {
            None => {},
            Some(p) => {
                let t = join_path_str(p.as_str(), "thumbnails");
                let mut png: Vec<char> = chars_of(title);
                push_str(&mut png, ".png");
                let png = string_from_chars(png.as_slice());
                let mut jpg: Vec<char> = chars_of(title);
                push_str(&mut jpg, ".jpg");
                let jpg = string_from_chars(jpg.as_slice());
                r.push(join_path_str(t.as_str(), png.as_str()));
                r.push(join_path_str(t.as_str(), jpg.as_str()));
                r.push(join_path_str(p.as_str(), png.as_str()));
                r.push(join_path_str(p.as_str(), jpg.as_str()));
            },
        }
        assert(strs_view(r@) =~= image_candidates(path@, title@));
        r
    }

    /// Whether a file in a thumbnail directory belongs to the notebook.
    pub fn matches_thumbnail(name: &str, title: &str) -> (r: bool)
        ensures
            r == thumbnail_matches(name@, title@),
    {
        let n = chars_of(name);
        let t = chars_of(title);
        let is_img = ends_with_chars(n.as_slice(), chars_of(".png").as_slice()) || ends_with_chars(
            n.as_slice(),
            chars_of(".jpg").as_slice(),
        );
        let empty: Vec<char> = Vec::new();
        let clean = replace_char_seq(t.as_slice(), '-', empty.as_slice());
        assert(empty@ =~= Seq::<char>::empty());
        let by_title = starts_with_chars(n.as_slice(), t.as_slice()) || (clean.len() > 0
            && starts_with_chars(n.as_slice(), clean.as_slice()));
        is_img && by_title
    }
}

/// The pages of the file read as a ZIP archive.
fn zip_archive_pages_of(data: &[u8]) -> (r: Vec<NotebookPage>)
    ensures
        pages_view(r@) == zip_archive_pages(data@),
{
    let n = match zip_len(data) {
        None => return Vec::new(),
        Some(n) => n,
    };
    let ghost entries = Seq::new(n as nat, |k: int| zip_entry_at(data@, k as usize));
    let svg = chars_of(".svg");
    let png = chars_of(".png");
    let jpg = chars_of(".jpg");
    let json = chars_of(".json");
    let page = chars_of("page");
    let mut pages: Vec<NotebookPage> = Vec::new();
    let mut i: usize = 0;
    assert(entries.take(0) =~= Seq::<Option<(Seq<char>, Seq<u8>)>>::empty());
    while i < n
        invariant
            i <= n,
            entries == Seq::new(n as nat, |k: int| zip_entry_at(data@, k as usize)),
            svg@ == ".svg"@,
            png@ == ".png"@,
            jpg@ == ".jpg"@,
            json@ == ".json"@,
            page@ == "page"@,
            pages@.len() <= i,
            pages_view(pages@) == zip_pages(entries.take(i as int)),
        decreases n - i,
    {
        let e = zip_entry(data, i);
        proof {
            assert(entries.take(i + 1).drop_last() =~= entries.take(i as int));
            assert(entries.take(i + 1).last() == zip_entry_at(data@, i));
        }
        match e {
            Some((name, bytes)) => {
                proof {
                    assert(bytes.deep_view() =~= bytes@);
                }
                let nm = chars_of(name.as_str());
                let is_svg = ends_with_chars(nm.as_slice(), svg.as_slice());
                let is_png = ends_with_chars(nm.as_slice(), png.as_slice());
                let is_jpg = ends_with_chars(nm.as_slice(), jpg.as_slice());
                let selected = is_svg || is_png || ends_with_chars(nm.as_slice(), json.as_slice())
                    || contains_seq(nm.as_slice(), page.as_slice());
                let num = pages.len() + 1;
                if selected && is_svg {
                    let f = page_file_name(num, chars_of("svg").as_slice());
                    let pg = NotebookPage { page_num: num, image_data: bytes, image_filename: f };
                    proof {
                        lemma_pages_view_push(pages@, pg);
                    }
                    pages.push(pg);
                } else if selected && (is_png || is_jpg) {
                    let ext = if is_jpg {
                        chars_of("jpg")
                    } else {
                        chars_of("png")
                    };
                    let f = page_file_name(num, ext.as_slice());
                    let pg = NotebookPage { page_num: num, image_data: bytes, image_filename: f };
                    proof {
                        lemma_pages_view_push(pages@, pg);
                    }
                    pages.push(pg);
                }
            },
            None => {},
        }
        i = i + 1;
    }
    assert(entries.take(n as int) =~= entries);
    pages
}

/// `insert_by_name` puts `k` at the first position whose entry sorts after it.
proof fn lemma_insert_by_name(
    es: Seq<(Seq<char>, Option<Seq<u8>>)>,
    order: Seq<usize>,
    k: usize,
    j: int,
)
    requires
        0 <= j <= order.len(),
        forall|m: int| 0 <= m < j ==> !text_lt(es[k as int].0, #[trigger] es[order[m] as int].0),
        j < order.len() ==> text_lt(es[k as int].0, es[order[j] as int].0),
    ensures
        insert_by_name(es, order, k) == order.take(j) + seq![k] + order.skip(j),
    decreases order.len(),
{
    if j == 0 {
        assert(order.take(0) + seq![k] + order.skip(0) =~= seq![k] + order);
    } else {
        assert(!text_lt(es[k as int].0, es[order[0] as int].0));
        let rest = order.drop_first();
        assert forall|m: int| 0 <= m < j - 1 implies !text_lt(
            es[k as int].0,
            #[trigger] es[rest[m] as int].0,
        ) by {
            assert(rest[m] == order[m + 1]);
        }
        if j - 1 < rest.len() {
            assert(rest[j - 1] == order[j]);
        }
        lemma_insert_by_name(es, rest, k, j - 1);
        assert(seq![order[0]] + (rest.take(j - 1) + seq![k] + rest.skip(j - 1)) =~= order.take(j)
            + seq![k] + order.skip(j));
    }
}

/// The pages of one thumbnail directory listing.
fn listing_pages_of(es: &Vec<DirImage>, title: &str) -> (r: Vec<NotebookPage>)
    ensures
        pages_view(r@) == listing_pages(images_view(es@), title@),
{
    let ghost ev = images_view(es@);
    let mut order: Vec<usize> = Vec::new();
    let mut k: usize = 0;
    while k < es.len()
        invariant
            k <= es@.len(),
            ev == images_view(es@),
            order@ == matching_order(ev, title@, k as nat),
            forall|m: int| 0 <= m < order@.len() ==> order@[m] < k,
        decreases es@.len() - k,
    {
        assert(ev[k as int] == es@[k as int]@);
        if NotebookParser::matches_thumbnail(es[k].name.as_str(), title) {
            let kn = chars_of(es[k].name.as_str());
            let mut j: usize = 0;
            while j < order.len()
                invariant
                    j <= order@.len(),
                    k < es@.len(),
                    ev == images_view(es@),
                    kn@ == ev[k as int].0,
                    forall|m: int| 0 <= m < order@.len() ==> order@[m] < k,
                    forall|m: int|
                        0 <= m < j ==> !text_lt(ev[k as int].0, #[trigger] ev[order@[m] as int].0),
                ensures
                    j <= order@.len(),
                    forall|m: int|
                        0 <= m < j ==> !text_lt(ev[k as int].0, #[trigger] ev[order@[m] as int].0),
                    j < order@.len() ==> text_lt(ev[k as int].0, ev[order@[j as int] as int].0),
                decreases order@.len() - j,
            {
                let o = order[j];
                assert(ev[o as int] == es@[o as int]@);
                let on = chars_of(es[o].name.as_str());
                if text_lt_chars(kn.as_slice(), on.as_slice()) {
                    break;
                }
                j = j + 1;
            }
            proof {
                lemma_insert_by_name(ev, order@, k, j as int);
            }
            let ghost before = order@;
            order.insert(j, k);
            assert(order@ =~= before.take(j as int) + seq![k] + before.skip(j as int));
            assert(((k + 1) - 1) as usize == k);
        } else {
            assert(((k + 1) - 1) as usize == k);
        }
        k = k + 1;
    }
    let mut pages: Vec<NotebookPage> = Vec::new();
    let mut i: usize = 0;
    assert(order@.take(0) =~= Seq::<usize>::empty());
    while i < order.len()
        invariant
            i <= order@.len(),
            ev == images_view(es@),
            forall|m: int| 0 <= m < order@.len() ==> order@[m] < es@.len(),
            pages@.len() <= i,
            pages_view(pages@) == dir_pages(ev, order@.take(i as int)),
        decreases order@.len() - i,
    {
        let o = order[i];
        proof {
            assert(order@.take(i + 1).drop_last() =~= order@.take(i as int));
            assert(ev[o as int] == es@[o as int]@);
        }
        match &es[o].data {
            Some(d) => {
                let num = pages.len() + 1;
                let ext = ext_or_png_of(extension(es[o].name.as_str()));
                let f = page_file_name(num, ext.as_slice());
                let pg = NotebookPage { page_num: num, image_data: slice_to_vec(d.as_slice()), image_filename: f };
                proof {
                    lemma_pages_view_push(pages@, pg);
                }
                pages.push(pg);
            },
            None => {},
        }
        i = i + 1;
    }
    assert(order@.take(order@.len() as int) =~= order@);
    pages
}

/// The pages of the first thumbnail directory that gives any.
fn thumbnail_pages_of(dirs: &Vec<Option<Vec<DirImage>>>, title: &str) -> (r: Vec<NotebookPage>)
    ensures
        pages_view(r@) == thumbnail_pages(
            dirs@.map_values(|o: Option<Vec<DirImage>>| listing_view(o)),
            title@,
        ),
{
    let ghost dv = dirs@.map_values(|o: Option<Vec<DirImage>>| listing_view(o));
    let mut i: usize = 0;
    assert(dv.skip(0) =~= dv);
    while i < dirs.len()
        invariant
            i <= dirs@.len(),
            dv == dirs@.map_values(|o: Option<Vec<DirImage>>| listing_view(o)),
            thumbnail_pages(dv, title@) == thumbnail_pages(dv.skip(i as int), title@),
        decreases dirs@.len() - i,
    {
        assert(dv.skip(i as int)[0] == listing_view(dirs@[i as int]));
        assert(dv.skip(i as int).drop_first() =~= dv.skip(i + 1));
        match &dirs[i] {
            Some(es) => {
                let ps = listing_pages_of(es, title);
                if ps.len() > 0 {
                    return ps;
                }
            },
            None => {},
        }
        i = i + 1;
    }
    Vec::new()
}

/// The first candidate image that could be read, as page 1.
fn candidate_page_of(paths: &Vec<String>, found: &Vec<Option<Vec<u8>>>) -> (r: Option<NotebookPage>)
    ensures
        match r {
            Some(p) => candidate_page_from(
                strs_view(paths@),
                found@.map_values(|o: Option<Vec<u8>>| opt_bytes(o)),
                0,
            ) == Some(p@),
            None => candidate_page_from(
                strs_view(paths@),
                found@.map_values(|o: Option<Vec<u8>>| opt_bytes(o)),
                0,
            ) is None,
        },
{
    let ghost pv = strs_view(paths@);
    let ghost fv = found@.map_values(|o: Option<Vec<u8>>| opt_bytes(o));
    let mut i: usize = 0;
    while i < found.len() && i < paths.len()
        invariant
            i <= found@.len(),
            pv == strs_view(paths@),
            fv == found@.map_values(|o: Option<Vec<u8>>| opt_bytes(o)),
            candidate_page_from(pv, fv, 0) == candidate_page_from(pv, fv, i as int),
        decreases found@.len() - i,
    {
        assert(fv[i as int] == opt_bytes(found@[i as int]));
        assert(pv[i as int] == paths@[i as int]@);
        match &found[i] {
            Some(d) => {
                let ext = ext_or_png_of(extension(paths[i].as_str()));
                let f = page_file_name(1, ext.as_slice());
                return Some(NotebookPage { page_num: 1, image_data: slice_to_vec(d.as_slice()), image_filename: f });
            },
            None => {},
        }
        i = i + 1;
    }
    None
}

/// The converter's pages, where it reported success and at least one page.
fn converter_pages_of(c: &Option<ConverterOutput>) -> (r: Vec<NotebookPage>)
    ensures
        pages_view(r@) == converter_pages(
            match *c {
                Some(c) => Some((c.success, converted_view(c.pages@))),
                None => None,
            },
        ),
{
    let out = match c {
        Some(out) => out,
        None => return Vec::new(),
    };
    if !out.success || out.pages.len() == 0 {
        return Vec::new();
    }
    let ghost cv = converted_view(out.pages@);
    let mut pages: Vec<NotebookPage> = Vec::new();
    let mut i: usize = 0;
    assert(cv.take(0) =~= Seq::<(usize, Seq<char>, Option<Seq<u8>>)>::empty());
    while i < out.pages.len()
        invariant
            i <= out.pages@.len(),
            cv == converted_view(out.pages@),
            pages_view(pages@) == converted_pages(cv.take(i as int)),
        decreases out.pages@.len() - i,
    {
        proof {
            assert(cv.take(i + 1).drop_last() =~= cv.take(i as int));
            assert(cv.take(i + 1).last() == out.pages@[i as int]@);
        }
        let p = &out.pages[i];
        match &p.data {
            Some(d) => {
                let pg = NotebookPage {
                    page_num: p.page_num,
                    image_data: slice_to_vec(d.as_slice()),
                    image_filename: p.filename.clone(),
                };
                proof {
                    lemma_pages_view_push(pages@, pg);
                }
                pages.push(pg);
            },
            None => {},
        }
        i = i + 1;
    }
    assert(cv.take(cv.len() as int) =~= cv);
    pages
}

/// The placeholder page for a notebook.
fn placeholder_page_of(title: &str) -> (r: NotebookPage)
    ensures
        r@ == placeholder_page(title@),
{
    let mut b: Vec<char> = Vec::new();
    push_str(&mut b, PLACEHOLDER_HEAD);
    push_str(&mut b, title);
    push_str(&mut b, PLACEHOLDER_TAIL);
    let svg = string_from_chars(b.as_slice());
    NotebookPage {
        page_num: 1,
        image_data: slice_to_vec(svg.as_str().as_bytes()),
        image_filename: String::from_str("page_1.svg"),
    }
}

impl NotebookParser {
    /// Builds the notebook that a file holds, filed under `relative_folder`.
    pub fn parse_file_with_folder(file: &NotebookFile, relative_folder: Option<String>) -> (nb:
        Notebook)
        ensures
            nb.title@ == notebook_title(file.path@),
            nb.id@ == "nbk:"@ + notebook_title(file.path@),
            nb.content_hash@ == sha256_hex(file.data@),
            nb.last_modified == file.last_modified,
            pages_view(nb.pages@) == notebook_pages(file@),
            nb.pages@.len() >= 1,
            nb.relative_folder == relative_folder,
    {
        let title = Self::title(file.path.as_str());
        let hash = sha256_hex_of(file.data.as_slice());
        let mut idb = chars_of("nbk:");
        push_str(&mut idb, title.as_str());
        let id = string_from_chars(idb.as_slice());
        let mut pages = if Self::is_nbk_file(file.path.as_str()) {
            converter_pages_of(&file.converter)
        } else {
            Vec::new()
        };
        if pages.len() == 0 {
            pages = zip_archive_pages_of(file.data.as_slice());
        }
        if pages.len() == 0 {
            pages = thumbnail_pages_of(&file.thumbnails, title.as_str());
        }
        if pages.len() == 0 {
            let paths = Self::candidate_paths(file.path.as_str(), title.as_str());
            let page = match candidate_page_of(&paths, &file.candidates) {
                Some(p) => p,
                None => placeholder_page_of(title.as_str()),
            };
            proof {
                lemma_pages_view_push(pages@, page);
            }
            pages.push(page);
        }
        Notebook {
            id,
            title,
            content_hash: string_from_chars(hash.as_slice()),
            last_modified: file.last_modified,
            pages,
            relative_folder,
        }
    }

    /// Builds the notebook that a file holds, filed under no folder.
    pub fn parse_file(file: &NotebookFile) -> (nb: Notebook)
        ensures
            nb.title@ == notebook_title(file.path@),
            nb.id@ == "nbk:"@ + notebook_title(file.path@),
            nb.content_hash@ == sha256_hex(file.data@),
            nb.last_modified == file.last_modified,
            pages_view(nb.pages@) == notebook_pages(file@),
            nb.pages@.len() >= 1,
            nb.relative_folder is None,
    {
        Self::parse_file_with_folder(file, None)
    }
}

/// The indices in `order` follow the names of their entries.
pub open spec fn sorted_by_name(es: Seq<(Seq<char>, Option<Seq<u8>>)>, order: Seq<usize>) -> bool {
    forall|a: int, b: int|
        0 <= a < b < order.len() ==> !text_lt(es[#[trigger] order[b] as int].0, es[#[trigger] order[a] as int].0)
}

proof fn lemma_insert_by_name_sorted(es: Seq<(Seq<char>, Option<Seq<u8>>)>, order: Seq<usize>, k: usize)
    requires
        sorted_by_name(es, order),
    ensures
        sorted_by_name(es, insert_by_name(es, order, k)),
        insert_by_name(es, order, k).len() == order.len() + 1,
        forall|i: int|
            0 <= i < insert_by_name(es, order, k).len() ==> #[trigger] insert_by_name(es, order, k)[i]
                == k || order.contains(insert_by_name(es, order, k)[i]),
    decreases order.len(),
{
    let ins = insert_by_name(es, order, k);
    if order.len() == 0 {
    } else if text_lt(es[k as int].0, es[order[0] as int].0) {
        assert forall|a: int, b: int| 0 <= a < b < ins.len() implies !text_lt(
            es[#[trigger] ins[b] as int].0,
            es[#[trigger] ins[a] as int].0,
        ) by {
            if a == 0 {
                assert(ins[b] == order[b - 1]);
                if text_lt(es[ins[b] as int].0, es[k as int].0) {
                    crate::text::lemma_text_lt_transitive(
                        es[ins[b] as int].0,
                        es[k as int].0,
                        es[order[0] as int].0,
                    );
                    if b - 1 > 0 {
                        assert(!text_lt(es[order[b - 1] as int].0, es[order[0] as int].0));
                    } else {
                        crate::text::lemma_text_lt_irreflexive(es[order[0] as int].0);
                    }
                }
            } else {
                assert(ins[a] == order[a - 1]);
                assert(ins[b] == order[b - 1]);
            }
        }
        assert forall|i: int| 0 <= i < ins.len() implies #[trigger] ins[i] == k || order.contains(ins[i]) by {
            if i > 0 {
                assert(ins[i] == order[i - 1]);
            }
        }
    } else {
        let rest = order.drop_first();
        assert(sorted_by_name(es, rest)) by {
            assert forall|a: int, b: int| 0 <= a < b < rest.len() implies !text_lt(
                es[#[trigger] rest[b] as int].0,
                es[#[trigger] rest[a] as int].0,
            ) by {
                assert(rest[a] == order[a + 1]);
                assert(rest[b] == order[b + 1]);
            }
        }
        lemma_insert_by_name_sorted(es, rest, k);
        let tail = insert_by_name(es, rest, k);
        assert(ins == seq![order[0]] + tail);
        assert forall|i: int| 0 <= i < tail.len() implies !text_lt(
            es[#[trigger] tail[i] as int].0,
            es[order[0] as int].0,
        ) by {
            if tail[i] != k {
                assert(rest.contains(tail[i]));
                let m = choose|m: int| 0 <= m < rest.len() && rest[m] == tail[i];
                assert(rest[m] == order[m + 1]);
            }
        }
        assert forall|a: int, b: int| 0 <= a < b < ins.len() implies !text_lt(
            es[#[trigger] ins[b] as int].0,
            es[#[trigger] ins[a] as int].0,
        ) by {
            if a == 0 {
                assert(ins[b] == tail[b - 1]);
            } else {
                assert(ins[a] == tail[a - 1]);
                assert(ins[b] == tail[b - 1]);
            }
        }
        assert forall|i: int| 0 <= i < ins.len() implies #[trigger] ins[i] == k || order.contains(ins[i]) by {
            if i == 0 {
                assert(order[0] == ins[0]);
            } else {
                assert(ins[i] == tail[i - 1]);
                if tail[i - 1] != k {
                    let m = choose|m: int| 0 <= m < rest.len() && rest[m] == tail[i - 1];
                    assert(order[m + 1] == ins[i]);
                }
            }
        }
    }
}

/// The thumbnails of a directory are taken in the order of their names.
pub proof fn lemma_thumbnails_in_name_order(
    es: Seq<(Seq<char>, Option<Seq<u8>>)>,
    title: Seq<char>,
    n: nat,
)
    ensures
        sorted_by_name(es, matching_order(es, title, n)),
    decreases n,
{
    if n > 0 {
        lemma_thumbnails_in_name_order(es, title, (n - 1) as nat);
        if thumbnail_matches(es[n - 1].0, title) {
            lemma_insert_by_name_sorted(es, matching_order(es, title, (n - 1) as nat), (n - 1) as usize);
        }
    }
}

} // verus!
