//! File-system paths as text, joined the way `Path::join` joins them where
//! `'/'` is the separator, and the user's home and documents directories.

use vstd::prelude::*;

use crate::text::{chars_of, copy_range, push_chars, string_from_chars, trim, trim_bounds};

verus! {

/// `Path::join` with `'/'` as separator: an absolute `comp` replaces `base`;
/// otherwise a separator is inserted unless `base` is empty or already ends in one.
pub open spec fn join_path(base: Seq<char>, comp: Seq<char>) -> Seq<char> {
    if comp.len() > 0 && comp[0] == '/' {
        comp
    } else if base.len() > 0 && base.last() != '/' {
        base + seq!['/'] + comp
    } else {
        base + comp
    }
}

pub fn join_path_chars(base: &[char], comp: &[char]) -> (r: Vec<char>)
    ensures
        r@ == join_path(base@, comp@),
{
    if comp.len() > 0 && comp[0] == '/' {
        return copy_range(comp, 0, comp.len());
    }
    let mut r = copy_range(base, 0, base.len());
    if base.len() > 0 && base[base.len() - 1] != '/' {
        r.push('/');
    }
    push_chars(&mut r, comp);
    r
}

/// `Path::new(base).join(comp)` as text.
pub fn join_path_str(base: &str, comp: &str) -> (r: String)
    ensures
        r@ == join_path(base@, comp@),
{
    let b = chars_of(base);
    let c = chars_of(comp);
    let r = join_path_chars(b.as_slice(), c.as_slice());
    string_from_chars(r.as_slice())
}

/// The user's home directory and, where there is one, documents directory.
#[derive(Debug, Clone)]
pub struct UserDirs {
    pub home: String,
    pub documents: Option<String>,
}

/// Calls `directories::UserDirs::new`. What it finds depends on the
/// environment of the process, so nothing is claimed of the result.
#[verifier::external_body]
pub(crate) fn user_dirs() -> Option<UserDirs> {
    directories::UserDirs::new().map(
        |u| UserDirs {
            home: u.home_dir().to_string_lossy().to_string(),
            documents: u.document_dir().map(|d| d.to_string_lossy().to_string()),
        },
    )
}

/// The default vault: `KindleGlean` in the documents directory, else in
/// `Documents` under home, else relative to the working directory.
pub open spec fn default_vault_path(dirs: Option<UserDirs>) -> Seq<char> {
    match dirs {
        Some(d) => match d.documents {
            Some(doc) => join_path(doc@, "KindleGlean"@),
            None => join_path(join_path(d.home@, "Documents"@), "KindleGlean"@),
        },
        None => "KindleGlean"@,
    }
}

pub fn default_vault_path_in(dirs: &Option<UserDirs>) -> (r: String)
    ensures
        r@ == default_vault_path(*dirs),
{
    match dirs {
        Some(d) => match &d.documents {
            Some(doc) => join_path_str(doc.as_str(), "KindleGlean"),
            None => {
                let docs = join_path_str(d.home.as_str(), "Documents");
                join_path_str(docs.as_str(), "KindleGlean")
            },
        },
        None => String::from_str("KindleGlean"),
    }
}

/// Where a configured vault path points: the default vault when blank, home
/// for `~`, a path under home for `~/..` or `~\..`, else the trimmed path.
pub open spec fn resolve_path_in(path: Seq<char>, dirs: Option<UserDirs>) -> Seq<char> {
    let t = trim(path);
    if t.len() == 0 {
        default_vault_path(dirs)
    } else if t == seq!['~'] {
        match dirs {
            Some(d) => d.home@,
            None => t,
        }
    } else if t.len() >= 2 && t[0] == '~' && (t[1] == '/' || t[1] == '\\') {
        match dirs {
            Some(d) => join_path(d.home@, t.subrange(2, t.len() as int)),
            None => t,
        }
    } else {
        t
    }
}

pub fn resolve_path_with(path: &str, dirs: &Option<UserDirs>) -> (r: String)
    ensures
        r@ == resolve_path_in(path@, *dirs),
{
    let p = chars_of(path);
    let (a, z) = trim_bounds(p.as_slice(), 0, p.len());
    assert(p@.subrange(0, p@.len() as int) =~= p@);
    let t = copy_range(p.as_slice(), a, z);
    if t.len() == 0 {
        return default_vault_path_in(dirs);
    }
    if t.len() == 1 && t[0] == '~' {
        assert(t@ =~= seq!['~']);
        return match dirs {
            Some(d) => d.home.clone(),
            None => string_from_chars(t.as_slice()),
        };
    }
    assert(t@ != seq!['~'] ==> t@.len() != 1 || t@[0] != '~');
    if t.len() >= 2 && t[0] == '~' && (t[1] == '/' || t[1] == '\\') {
        return match dirs {
            Some(d) => {
                let h = chars_of(d.home.as_str());
                let rest = copy_range(t.as_slice(), 2, t.len());
                let j = join_path_chars(h.as_slice(), rest.as_slice());
                string_from_chars(j.as_slice())
            },
            None => string_from_chars(t.as_slice()),
        };
    }
    string_from_chars(t.as_slice())
}

/// Resolves a configured path against the home directory of this process.
pub fn resolve_path(path: &str) -> (r: String)
    ensures
        exists|dirs: Option<UserDirs>| r@ == resolve_path_in(path@, dirs),
        trim(path@).len() > 0 && trim(path@)[0] != '~' ==> r@ == trim(path@),
{
    let dirs = user_dirs();
    resolve_path_with(path, &dirs)
}


/// What `Path::file_name` yields for a path, read lossily as text.
pub uninterp spec fn path_file_name(p: Seq<char>) -> Option<Seq<char>>;

/// What `Path::file_stem` yields for a path, read lossily as text.
pub uninterp spec fn path_file_stem(p: Seq<char>) -> Option<Seq<char>>;

/// What `Path::extension` yields for a path, read lossily as text.
pub uninterp spec fn path_extension(p: Seq<char>) -> Option<Seq<char>>;

/// What `Path::parent` yields for a path.
pub uninterp spec fn path_parent(p: Seq<char>) -> Option<Seq<char>>;

/// Calls `Path::file_name`. Claimed: the result is `path_file_name(p)`.
#[verifier::external_body]
pub(crate) fn file_name(p: &str) -> (r: Option<String>)
    ensures
        r.deep_view() == path_file_name(p@),
{
    std::path::Path::new(p).file_name().map(|s| s.to_string_lossy().to_string())
}

/// Calls `Path::file_stem`. Claimed: the result is `path_file_stem(p)`.
#[verifier::external_body]
pub(crate) fn file_stem(p: &str) -> (r: Option<String>)
    ensures
        r.deep_view() == path_file_stem(p@),
{
    std::path::Path::new(p).file_stem().map(|s| s.to_string_lossy().to_string())
}

/// Calls `Path::extension`. Claimed: the result is `path_extension(p)`.
#[verifier::external_body]
pub(crate) fn extension(p: &str) -> (r: Option<String>)
    ensures
        r.deep_view() == path_extension(p@),
{
    std::path::Path::new(p).extension().map(|s| s.to_string_lossy().to_string())
}

/// Calls `Path::parent`. Claimed: the result is `path_parent(p)`.
#[verifier::external_body]
pub(crate) fn parent(p: &str) -> (r: Option<String>)
    ensures
        r.deep_view() == path_parent(p@),
{
    std::path::Path::new(p).parent().map(|s| s.to_string_lossy().to_string())
}

/// What `Path::strip_prefix` yields for a path and a base, read lossily as text.
pub uninterp spec fn path_strip_prefix(p: Seq<char>, base: Seq<char>) -> Option<Seq<char>>;

/// Calls `Path::strip_prefix`. Claimed: the result is `path_strip_prefix(p, base)`.
#[verifier::external_body]
pub(crate) fn strip_prefix(p: &str, base: &str) -> (r: Option<String>)
    ensures
        r.deep_view() == path_strip_prefix(p@, base@),
{
    std::path::Path::new(p).strip_prefix(base).ok().map(|r| r.to_string_lossy().to_string())
}

} // verus!
