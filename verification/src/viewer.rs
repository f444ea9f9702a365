//! What the in-app viewer shows of the vault: a notebook's page images in
//! page order, its cover, images as data URLs, and where exported pages go.
//!
//! Listing directories and reading files is left to the caller.

use vstd::prelude::*;

use crate::generator::markdown::{sanitized_name, MarkdownGenerator};
use crate::models::NotebookSummary;
use crate::paths::{extension, file_name, file_stem, join_path, join_path_str, path_extension, path_file_name, path_file_stem};
use crate::pattern::{lowercase, to_lowercase};
use crate::text::{
    chars_of, copy_range, ends_with, ends_with_chars, parse_usize, parse_usize_chars, push_str, starts_with, starts_with_chars, string_from_chars, strs_view,
};

verus! {

/// The character of the standard Base64 alphabet for `v < 64`.
pub open spec fn b64_char(v: int) -> char {
    if v < 26 {
        (65 + v) as char
    } else if v < 52 {
        (97 + v - 26) as char
    } else if v < 62 {
        (48 + v - 52) as char
    } else if v == 62 {
        '+'
    } else {
        '/'
    }
}

/// Standard Base64 (RFC 4648, with padding): each three bytes become four
/// characters, and a final one or two bytes are padded with `=`.
pub open spec fn base64_encode(b: Seq<u8>) -> Seq<char>
    decreases b.len(),
{
    if b.len() == 0 {
        seq![]
    } else if b.len() == 1 {
        let x = b[0] as int;
        seq![b64_char(x / 4), b64_char((x % 4) * 16), '=', '=']
    } else if b.len() == 2 {
        let x = b[0] as int;
        let y = b[1] as int;
        seq![b64_char(x / 4), b64_char((x % 4) * 16 + y / 16), b64_char((y % 16) * 4), '=']
    } else {
        let x = b[0] as int;
        let y = b[1] as int;
        let z = b[2] as int;
        seq![
            b64_char(x / 4),
            b64_char((x % 4) * 16 + y / 16),
            b64_char((y % 16) * 4 + z / 64),
            b64_char(z % 64),
        ] + base64_encode(b.subrange(3, b.len() as int))
    }
}

/// Calls `base64::Engine::encode` with the `STANDARD` engine. Claimed: the
/// result is `base64_encode(data)`, the standard alphabet with padding.
#[verifier::external_body]
fn base64_standard(data: &[u8]) -> (r: String)
    ensures
        r@ == base64_encode(data@),
{
    base64::Engine::encode(&base64::engine::general_purpose::STANDARD, data)
}

/// The lower-cased extension of `path`, empty where it has none.
pub open spec fn lower_extension(path: Seq<char>) -> Seq<char> {
    match path_extension(path) {
        Some(e) => lowercase(e),
        None => seq![],
    }
}

/// The media type of an image by its lower-cased extension.
pub open spec fn mime_for(ext: Seq<char>) -> Seq<char> {
    if ext == "png"@ {
        "image/png"@
    } else if ext == "jpg"@ || ext == "jpeg"@ {
        "image/jpeg"@
    } else if ext == "svg"@ {
        "image/svg+xml"@
    } else if ext == "webp"@ {
        "image/webp"@
    } else {
        "application/octet-stream"@
    }
}

/// The data URL of an image file with these bytes.
pub open spec fn data_url(path: Seq<char>, bytes: Seq<u8>) -> Seq<char> {
    "data:"@ + mime_for(lower_extension(path)) + ";base64,"@ + base64_encode(bytes)
}

/// The lower-cased extension of `path`.
fn lower_extension_of(path: &str) -> (r: String)
    ensures
        r@ == lower_extension(path@),
{
    match extension(path) {
        Some(e) => to_lowercase(e.as_str()),
        None => String::new(),
    }
}

/// The data URL under which the viewer shows an image file's bytes.
pub fn image_data_url(path: &str, bytes: &[u8]) -> (r: String)
    ensures
        r@ == data_url(path@, bytes@),
{
    let ext = lower_extension_of(path);
    let mime = if ext == String::from_str("png") {
        "image/png"
    } else if ext == String::from_str("jpg") || ext == String::from_str("jpeg") {
        "image/jpeg"
    } else if ext == String::from_str("svg") {
        "image/svg+xml"
    } else if ext == String::from_str("webp") {
        "image/webp"
    } else {
        "application/octet-stream"
    };
    let mut b = chars_of("data:");
    push_str(&mut b, mime);
    push_str(&mut b, ";base64,");
    push_str(&mut b, base64_standard(bytes).as_str());
    string_from_chars(b.as_slice())
}

/// The error for an image that is not a file: `ファイルが見つかりません: {path}`.
pub fn missing_file_message(path: &str) -> (r: String)
    ensures
        r@ == "ファイルが見つかりません: "@ + path@,
{
    let mut b = chars_of("ファイルが見つかりません: ");
    push_str(&mut b, path);
    string_from_chars(b.as_slice())
}

/// A page image of a notebook: `page_` followed by anything, as PNG, JPEG or SVG.
pub open spec fn is_page_file_name(name: Seq<char>) -> bool {
    starts_with(name, "page_"@) && (ends_with(name, ".png"@) || ends_with(name, ".jpg"@) || ends_with(
        name,
        ".svg"@,
    ))
}

/// The name of the file at `path`, empty where it has none.
pub open spec fn name_of(path: Seq<char>) -> Seq<char> {
    match path_file_name(path) {
        Some(n) => n,
        None => seq![],
    }
}

/// The page number of a page image: the number after `page_` in its stem,
/// 0 where there is none.
pub open spec fn page_key(path: Seq<char>) -> usize {
    match path_file_stem(path) {
        Some(st) => if starts_with(st, "page_"@) {
            match parse_usize(st.subrange(5, st.len() as int)) {
                Some(n) => n,
                None => 0,
            }
        } else {
            0
        },
        None => 0,
    }
}

/// `order` with `k` put after every index whose key is not above that of `k`.
pub open spec fn insert_by_key(keys: Seq<usize>, order: Seq<int>, k: int) -> Seq<int>
    decreases order.len(),
{
    if order.len() == 0 {
        seq![k]
    } else if keys[k] < keys[order[0]] {
        seq![k] + order
    } else {
        seq![order[0]] + insert_by_key(keys, order.drop_first(), k)
    }
}

/// The indices of the page images among the first `n` paths, by page number;
/// images with equal numbers keep their order.
pub open spec fn page_order(paths: Seq<Seq<char>>, n: nat) -> Seq<int>
    decreases n,
{
    if n == 0 {
        seq![]
    } else {
        let prev = page_order(paths, (n - 1) as nat);
        if is_page_file_name(name_of(paths[n - 1])) {
            insert_by_key(paths.map_values(|p: Seq<char>| page_key(p)), prev, n - 1)
        } else {
            prev
        }
    }
}

/// The page images among `paths`, in page order.
pub open spec fn page_files(paths: Seq<Seq<char>>) -> Seq<Seq<char>> {
    page_order(paths, paths.len()).map_values(|i: int| paths[i])
}

/// The page number of a page image.
pub fn page_number(path: &str) -> (r: usize)
    ensures
        r == page_key(path@),
{
    match file_stem(path) {
        Some(st) => {
            let c = chars_of(st.as_str());
            if starts_with_chars(c.as_slice(), chars_of("page_").as_slice()) {
                proof {
                    reveal_strlit("page_");
                }
                let rest = copy_range(c.as_slice(), 5, c.len());
                match parse_usize_chars(rest.as_slice()) {
                    Some(n) => n,
                    None => 0,
                }
            } else {
                0
            }
        },
        None => 0,
    }
}

fn is_page_file(path: &str) -> (r: bool)
    ensures
        r == is_page_file_name(name_of(path@)),
{
    let name = match file_name(path) {
        Some(n) => chars_of(n.as_str()),
        None => Vec::new(),
    };
    starts_with_chars(name.as_slice(), chars_of("page_").as_slice()) && (ends_with_chars(
        name.as_slice(),
        chars_of(".png").as_slice(),
    ) || ends_with_chars(name.as_slice(), chars_of(".jpg").as_slice()) || ends_with_chars(
        name.as_slice(),
        chars_of(".svg").as_slice(),
    ))
}

/// `insert_by_key` puts `k` at the first position whose key is above its own.
proof fn lemma_insert_by_key(keys: Seq<usize>, order: Seq<int>, k: int, j: int)
    requires
        0 <= j <= order.len(),
        forall|m: int| 0 <= m < j ==> !(keys[k] < #[trigger] keys[order[m]]),
        j < order.len() ==> keys[k] < keys[order[j]],
    ensures
        insert_by_key(keys, order, k) == order.take(j) + seq![k] + order.skip(j),
    decreases order.len(),
{
    if j == 0 {
        assert(order.take(0) + seq![k] + order.skip(0) =~= seq![k] + order);
    } else {
        let rest = order.drop_first();
        assert forall|m: int| 0 <= m < j - 1 implies !(keys[k] < #[trigger] keys[rest[m]]) by {
            assert(rest[m] == order[m + 1]);
        }
        if j - 1 < rest.len() {
            assert(rest[j - 1] == order[j]);
        }
        lemma_insert_by_key(keys, rest, k, j - 1);
        assert(seq![order[0]] + (rest.take(j - 1) + seq![k] + rest.skip(j - 1)) =~= order.take(j)
            + seq![k] + order.skip(j));
    }
}

/// The page images among `paths`, in page order (`page_2` before `page_10`).
pub fn notebook_page_files(paths: &Vec<String>) -> (r: Vec<String>)
    ensures
        strs_view(r@) == page_files(strs_view(paths@)),
{
    let ghost pv = strs_view(paths@);
    let ghost keys = pv.map_values(|p: Seq<char>| page_key(p));
    let n = paths.len();
    let mut key_list: Vec<usize> = Vec::new();
    let mut order: Vec<usize> = Vec::new();
    let mut k: usize = 0;
    while k < n
        invariant
            n == paths@.len(),
            k <= n,
            pv == strs_view(paths@),
            keys == pv.map_values(|p: Seq<char>| page_key(p)),
            key_list@.len() == k,
            forall|m: int| 0 <= m < k ==> key_list@[m] == keys[m],
            order@.map_values(|x: usize| x as int) == page_order(pv, k as nat),
            forall|m: int| 0 <= m < order@.len() ==> order@[m] < k,
        decreases n - k,
    {
        assert(pv[k as int] == paths@[k as int]@);
        let key = page_number(paths[k].as_str());
        key_list.push(key);
        let ghost ov = order@.map_values(|x: usize| x as int);
        if is_page_file(paths[k].as_str()) {
            let mut j: usize = 0;
            while j < order.len()
                invariant
                    j <= order@.len(),
                    k < n,
                    key_list@.len() == k + 1,
                    forall|m: int| 0 <= m <= k ==> key_list@[m] == keys[m],
                    forall|m: int| 0 <= m < order@.len() ==> order@[m] < k,
                    ov == order@.map_values(|x: usize| x as int),
                    forall|m: int| 0 <= m < j ==> !(keys[k as int] < #[trigger] keys[ov[m]]),
                ensures
                    j <= order@.len(),
                    forall|m: int| 0 <= m < j ==> !(keys[k as int] < #[trigger] keys[ov[m]]),
                    j < order@.len() ==> keys[k as int] < keys[ov[j as int]],
                decreases order@.len() - j,
            {
                let o = order[j];
                assert(ov[j as int] == o as int);
                if key_list[k] < key_list[o] {
                    break;
                }
                j = j + 1;
            }
            proof {
                lemma_insert_by_key(keys, ov, k as int, j as int);
            }
            order.insert(j, k);
            assert(order@.map_values(|x: usize| x as int) =~= ov.take(j as int) + seq![k as int] + ov.skip(
                j as int,
            ));
            assert(((k + 1) - 1) as usize == k);
        }
        k = k + 1;
    }
    let mut r: Vec<String> = Vec::new();
    let mut i: usize = 0;
    let ghost ov = order@.map_values(|x: usize| x as int);
    while i < order.len()
        invariant
            i <= order@.len(),
            n == paths@.len(),
            pv == strs_view(paths@),
            ov == order@.map_values(|x: usize| x as int),
            ov == page_order(pv, n as nat),
            forall|m: int| 0 <= m < order@.len() ==> order@[m] < n,
            strs_view(r@) == ov.take(i as int).map_values(|x: int| pv[x]),
        decreases order@.len() - i,
    {
        let o = order[i];
        assert(pv[o as int] == paths@[o as int]@);
        let ghost before = strs_view(r@);
        r.push(paths[o].clone());
        assert(strs_view(r@) =~= before.push(pv[o as int]));
        assert(ov.take(i + 1).map_values(|x: int| pv[x]) =~= ov.take(i as int).map_values(|x: int| pv[x]).push(pv[o as int]));
        i = i + 1;
    }
    assert(ov.take(i as int) =~= ov);
    r
}

/// The indices in `order` have non-decreasing keys.
pub open spec fn sorted_by_key(keys: Seq<usize>, order: Seq<int>) -> bool {
    forall|a: int, b: int| 0 <= a < b < order.len() ==> keys[#[trigger] order[a]] <= keys[#[trigger] order[b]]
}

proof fn lemma_insert_sorted(keys: Seq<usize>, order: Seq<int>, k: int)
    requires
        sorted_by_key(keys, order),
    ensures
        sorted_by_key(keys, insert_by_key(keys, order, k)),
        insert_by_key(keys, order, k).len() == order.len() + 1,
        forall|i: int|
            0 <= i < insert_by_key(keys, order, k).len() ==> #[trigger] insert_by_key(keys, order, k)[i]
                == k || order.contains(insert_by_key(keys, order, k)[i]),
    decreases order.len(),
{
    let ins = insert_by_key(keys, order, k);
    if order.len() == 0 {
    } else if keys[k] < keys[order[0]] {
        assert forall|a: int, b: int| 0 <= a < b < ins.len() implies keys[#[trigger] ins[a]]
            <= keys[#[trigger] ins[b]] by {
            if a == 0 {
                assert(ins[b] == order[b - 1]);
                if b - 1 > 0 {
                    assert(keys[order[0]] <= keys[order[b - 1]]);
                }
            } else {
                assert(ins[a] == order[a - 1]);
                assert(ins[b] == order[b - 1]);
            }
        }
        assert forall|i: int| 0 <= i < ins.len() implies #[trigger] ins[i] == k || order.contains(
            ins[i],
        ) by {
            if i > 0 {
                assert(ins[i] == order[i - 1]);
            }
        }
    } else {
        let rest = order.drop_first();
        assert(sorted_by_key(keys, rest)) by {
            assert forall|a: int, b: int| 0 <= a < b < rest.len() implies keys[#[trigger] rest[a]]
                <= keys[#[trigger] rest[b]] by {
                assert(rest[a] == order[a + 1]);
                assert(rest[b] == order[b + 1]);
            }
        }
        lemma_insert_sorted(keys, rest, k);
        let tail = insert_by_key(keys, rest, k);
        assert(ins == seq![order[0]] + tail);
        assert forall|i: int| 0 <= i < tail.len() implies keys[order[0]] <= keys[#[trigger] tail[i]] by {
            if tail[i] != k {
                assert(rest.contains(tail[i]));
                let m = choose|m: int| 0 <= m < rest.len() && rest[m] == tail[i];
                assert(rest[m] == order[m + 1]);
            }
        }
        assert forall|a: int, b: int| 0 <= a < b < ins.len() implies keys[#[trigger] ins[a]]
            <= keys[#[trigger] ins[b]] by {
            if a == 0 {
                assert(ins[b] == tail[b - 1]);
            } else {
                assert(ins[a] == tail[a - 1]);
                assert(ins[b] == tail[b - 1]);
            }
        }
        assert forall|i: int| 0 <= i < ins.len() implies #[trigger] ins[i] == k || order.contains(
            ins[i],
        ) by {
            if i == 0 {
                assert(order[0] == ins[0]);
            } else {
                assert(ins[i] == tail[i - 1]);
                if tail[i - 1] != k {
                    let m = choose|m: int| 0 <= m < rest.len() && rest[m] == tail[i - 1];
                    assert(order[m + 1] == ins[i]);
                }
            }
        }
    }
}

/// A notebook's page images are listed in order of their page numbers.
pub proof fn lemma_page_files_in_page_order(paths: Seq<Seq<char>>, n: nat)
    ensures
        sorted_by_key(paths.map_values(|p: Seq<char>| page_key(p)), page_order(paths, n)),
    decreases n,
{
    if n > 0 {
        lemma_page_files_in_page_order(paths, (n - 1) as nat);
        if is_page_file_name(name_of(paths[n - 1])) {
            lemma_insert_sorted(
                paths.map_values(|p: Seq<char>| page_key(p)),
                page_order(paths, (n - 1) as nat),
                n - 1,
            );
        }
    }
}

/// The files in a notebook's folder that may serve as its cover, in the order tried.
pub open spec fn cover_paths(dir: Seq<char>) -> Seq<Seq<char>> {
    seq![
        join_path(dir, "thumbnail.png"@),
        join_path(dir, "page_1.png"@),
        join_path(dir, "page_1.jpg"@),
        join_path(dir, "page_1.svg"@),
        join_path(dir, "page_2.svg"@),
    ]
}

/// The cover among the candidates of [`cover_paths`] from `i` on: the first
/// that is a file, except that a first page SVG under 500 bytes (a nearly
/// blank page) gives way to the second page where that is a file.
pub open spec fn cover_from(dir: Seq<char>, is_file: Seq<bool>, page1_size: Option<u64>, i: int) -> Option<
    Seq<char>,
>
    decreases 5 - i,
{
    if i < 0 || i >= 5 || i >= is_file.len() {
        None
    } else if is_file[i] {
        if i == 3 && is_file.len() > 4 && is_file[4] && (match page1_size {
            Some(sz) => sz < 500,
            None => false,
        }) {
            Some(cover_paths(dir)[4])
        } else {
            Some(cover_paths(dir)[i])
        }
    } else {
        cover_from(dir, is_file, page1_size, i + 1)
    }
}

/// The candidate covers of the notebook in `dir`, in the order tried.
pub fn cover_candidates(dir: &str) -> (r: Vec<String>)
    ensures
        strs_view(r@) == cover_paths(dir@),
{
    let mut r: Vec<String> = Vec::new();
    r.push(join_path_str(dir, "thumbnail.png"));
    r.push(join_path_str(dir, "page_1.png"));
    r.push(join_path_str(dir, "page_1.jpg"));
    r.push(join_path_str(dir, "page_1.svg"));
    r.push(join_path_str(dir, "page_2.svg"));
    assert(strs_view(r@) =~= cover_paths(dir@));
    r
}

/// The cover of the notebook in `dir`, given which candidates are files and
/// the size of the first page SVG where it could be read.
pub fn choose_cover(dir: &str, is_file: &Vec<bool>, page1_size: Option<u64>) -> (r: Option<String>)
    ensures
        r.deep_view() == cover_from(dir@, is_file@, page1_size, 0),
{
    let cands = cover_candidates(dir);
    assert(cands@.len() == strs_view(cands@).len());
    let mut i: usize = 0;
    while i < 5 && i < is_file.len()
        invariant
            i <= 5,
            strs_view(cands@) == cover_paths(dir@),
            cands@.len() == 5,
            cover_from(dir@, is_file@, page1_size, 0) == cover_from(dir@, is_file@, page1_size, i as int),
        decreases 5 - i,
    {
        if is_file[i] {
            let small = match page1_size {
                Some(sz) => sz < 500,
                None => false,
            };
            if i == 3 && is_file.len() > 4 && is_file[4] && small {
                assert(strs_view(cands@)[4] == cands@[4]@);
                return Some(cands[4].clone());
            }
            assert(strs_view(cands@)[i as int] == cands@[i as int]@);
            return Some(cands[i].clone());
        }
        i = i + 1;
    }
    None
}

/// The folder of a synchronised notebook's pages: its recorded folder under
/// the base where that is a directory, else its sanitised title under
/// `Notebooks` where that is one, else its title under `Notebooks`.
pub open spec fn summary_dir(base: Seq<char>, rel: Seq<char>, title: Seq<char>, rel_is_dir: bool, safe_is_dir: bool) -> Seq<
    char,
> {
    let root = join_path(base, "Notebooks"@);
    if rel_is_dir {
        join_path(base, rel)
    } else if safe_is_dir {
        join_path(root, sanitized_name(title))
    } else {
        join_path(root, title)
    }
}

/// The directories to test for a synchronised notebook's pages: its recorded
/// folder under the base, then its sanitised title under `Notebooks`.
pub fn summary_dir_candidates(base: &str, summary: &NotebookSummary) -> (r: (String, String))
    ensures
        r.0@ == join_path(base@, summary.relative_folder@),
        r.1@ == join_path(join_path(base@, "Notebooks"@), sanitized_name(summary.title@)),
{
    let root = join_path_str(base, "Notebooks");
    let safe = MarkdownGenerator::sanitize_filename(summary.title.as_str());
    (join_path_str(base, summary.relative_folder.as_str()), join_path_str(root.as_str(), safe.as_str()))
}

/// The folder of a synchronised notebook's pages, given which candidate directories exist.
pub fn choose_summary_dir(base: &str, summary: &NotebookSummary, rel_is_dir: bool, safe_is_dir: bool) -> (r:
    String)
    ensures
        r@ == summary_dir(base@, summary.relative_folder@, summary.title@, rel_is_dir, safe_is_dir),
{
    let (rel, safe) = summary_dir_candidates(base, summary);
    if rel_is_dir {
        rel
    } else if safe_is_dir {
        safe
    } else {
        let root = join_path_str(base, "Notebooks");
        join_path_str(root.as_str(), summary.title.as_str())
    }
}

/// The directories to test for a notebook's pages by its title: its
/// sanitised title, then its title, under `Notebooks`.
pub fn page_dir_candidates(base: &str, title: &str) -> (r: Vec<String>)
    ensures
        strs_view(r@) == seq![
            join_path(join_path(base@, "Notebooks"@), sanitized_name(title@)),
            join_path(join_path(base@, "Notebooks"@), title@),
        ],
{
    let root = join_path_str(base, "Notebooks");
    let safe = MarkdownGenerator::sanitize_filename(title);
    let mut r: Vec<String> = Vec::new();
    r.push(join_path_str(root.as_str(), safe.as_str()));
    r.push(join_path_str(root.as_str(), title));
    assert(strs_view(r@) =~= seq![
        join_path(join_path(base@, "Notebooks"@), sanitized_name(title@)),
        join_path(join_path(base@, "Notebooks"@), title@),
    ]);
    r
}

/// Whether a directory found deeper under `Notebooks` holds a notebook's
/// pages: its name is the notebook's title or sanitised title.
pub fn is_notebook_dir_name(name: &str, title: &str) -> (r: bool)
    ensures
        r == (name@ == sanitized_name(title@) || name@ == title@),
{
    let safe = MarkdownGenerator::sanitize_filename(title);
    let n = String::from_str(name);
    n == safe || n == String::from_str(title)
}

/// Where exported pages go: a folder named after `folder_name`, sanitised,
/// under the target, or the target itself.
pub fn export_dir(target_dir: &str, folder_name: Option<&str>) -> (r: String)
    ensures
        r@ == (match folder_name {
            Some(sub) => join_path(target_dir@, sanitized_name(sub@)),
            None => target_dir@,
        }),
{
    match folder_name {
        Some(sub) => {
            let safe = MarkdownGenerator::sanitize_filename(sub);
            join_path_str(target_dir, safe.as_str())
        },
        None => String::from_str(target_dir),
    }
}

/// Where an exported page is copied to: its file name in `dest_dir`.
pub fn export_file(dest_dir: &str, src: &str) -> (r: Option<String>)
    ensures
        r.deep_view() == (match path_file_name(src@) {
            Some(n) => Some(join_path(dest_dir@, n)),
            None => None,
        }),
{
    match file_name(src) {
        Some(n) => Some(join_path_str(dest_dir, n.as_str())),
        None => None,
    }
}

/// The error when the export target does not exist.
pub const EXPORT_TARGET_MISSING: &'static str = "保存先ディレクトリが存在しません";

} // verus!
