//! Regular-expression matching and case folding, as `regex` and `std` do them.

use vstd::prelude::*;

verus! {

/// What `regex::Regex::new(pattern)` followed by `captures(text)` yields:
/// `None` where the pattern does not compile, otherwise the capture groups of
/// the leftmost-first match (if there is one), each group's text where that
/// group took part in the match.
pub uninterp spec fn regex_captures(pattern: Seq<char>, text: Seq<char>) -> Option<
    Option<Seq<Option<Seq<char>>>>,
>;

/// Calls `regex::Regex::new` and `Regex::captures`. Claimed: the result is
/// `regex_captures` of the arguments.
#[verifier::external_body]
pub(crate) fn captures(pattern: &str, text: &str) -> (r: Option<Option<Vec<Option<String>>>>)
    ensures
        r.deep_view() == regex_captures(pattern@, text@),
{
    match regex::Regex::new(pattern) {
        Err(_) => None,
        Ok(re) => Some(
            re.captures(text).map(
                |c| c.iter().map(|m| m.map(|m| m.as_str().to_string())).collect(),
            ),
        ),
    }
}

/// Group `i` of a capture list, where it took part in the match (`Captures::get`).
pub open spec fn group(caps: Seq<Option<Seq<char>>>, i: int) -> Option<Seq<char>> {
    if 0 <= i < caps.len() {
        caps[i]
    } else {
        None
    }
}

pub fn get_group(caps: &Vec<Option<String>>, i: usize) -> (r: Option<Vec<char>>)
    ensures
        crate::text::opt_chars(r) == group(caps.deep_view(), i as int),
{
    if i < caps.len() {
        match &caps[i] {
            Some(s) => Some(crate::text::chars_of(s.as_str())),
            None => None,
        }
    } else {
        None
    }
}

/// What `str::to_lowercase` yields.
pub uninterp spec fn lowercase(s: Seq<char>) -> Seq<char>;

/// Text made only of ASCII characters.
pub open spec fn is_ascii_text(s: Seq<char>) -> bool {
    forall|i: int| 0 <= i < s.len() ==> (s[i] as u32) < 128
}

/// An ASCII character in lower case: `A` to `Z` become `a` to `z`.
pub open spec fn ascii_lower(c: char) -> char {
    if 65 <= (c as u32) <= 90 {
        ((c as u32) + 32) as char
    } else {
        c
    }
}

/// Calls `str::to_lowercase`. Claimed: the result is `lowercase(s)`, and on
/// ASCII text, where the Unicode lower-case mapping is the ASCII one, each
/// letter `A` to `Z` becomes `a` to `z` and every other character stays.
#[verifier::external_body]
pub(crate) fn to_lowercase(s: &str) -> (r: String)
    ensures
        r@ == lowercase(s@),
        is_ascii_text(s@) ==> r@ == s@.map_values(|c: char| ascii_lower(c)),
{
    s.to_lowercase()
}

} // verus!
