//! The parser of `My Clippings.txt`, in its Japanese and English forms.

use vstd::prelude::*;
use vstd::utf8::encode_utf8;

use crate::datetime::{chrono_parse, parse_date_time, valid_parts, DateTimeParts, UtcDateTime};
use crate::digest::{sha256_hex, sha256_hex_of};
use crate::models::{opt_date_view, Clipping, ClippingType, ClippingView};
use crate::pattern::{captures, get_group, group, lowercase, regex_captures, to_lowercase};
use crate::text::{
    chars_of, contains, contains_seq, copy_range, find, find_char, find_from, join, occurs_at,
    last_index_of, lemma_find_from, lemma_last_index_of, lines, lines_from, parse_i32,
    parse_i32_chars, parse_u32, parse_u32_chars, push_chars, push_str, replace_char,
    replace_char_seq, rfind_char, split, split_from, string_from_chars, strip_cr, seqs_view, opt_chars, trim,
    trim_bounds, trim_char, trim_char_bounds, lemma_split_joined,
};

verus! {

/// The separator line between two clippings.
pub const SEPARATOR: &'static str = "==========";

/// The page number: "page 12" or "6ページ".
pub const PAGE_PATTERN: &'static str = "(?i)(?:page\\s*([0-9]+)|([0-9]+)\\s*ページ)";

/// The location: "location 180-181", "位置No. 245-247" or "位置 250".
pub const LOCATION_PATTERN: &'static str = "(?i)(?:location|位置No\\.?|位置)\\s*([0-9]+(?:\\s*-\\s*[0-9]+)?)";

/// The Japanese creation date: "2026年9月18日金曜日 21:30:15".
pub const JP_DATE_PATTERN: &'static str = "(\\d{4})年(\\d{1,2})月(\\d{1,2})日(?:[^\\d\\s]+)?\\s+(\\d{1,2}):(\\d{2}):(\\d{2})";

/// The lines of a block, each with `'\r'` trimmed from both ends, blank ones left out.
pub open spec fn clean_lines(ls: Seq<Seq<char>>) -> Seq<Seq<char>>
    decreases ls.len(),
{
    if ls.len() == 0 {
        seq![]
    } else {
        let l = trim_char(ls[0], '\r');
        if trim(l).len() == 0 {
            clean_lines(ls.drop_first())
        } else {
            seq![l] + clean_lines(ls.drop_first())
        }
    }
}

/// Title and author of a line "Title (Author)": the last parenthesised part is
/// the author, where a non-empty title stands before it.
pub open spec fn title_author(line: Seq<char>) -> (Seq<char>, Option<Seq<char>>) {
    match last_index_of(line, '(') {
        Some(o) => match last_index_of(line, ')') {
            Some(c) => {
                let title = trim(line.subrange(0, o));
                let author = trim(line.subrange(o + 1, c));
                if c > o && title.len() > 0 {
                    (
                        title,
                        if author.len() == 0 {
                            None
                        } else {
                            Some(author)
                        },
                    )
                } else {
                    (line, None)
                }
            },
            None => (line, None),
        },
        None => (line, None),
    }
}

/// The kind of clipping that the metadata line names, in English or
/// Japanese; a highlight where it names none.
pub open spec fn clipping_type_of(line: Seq<char>) -> ClippingType {
    let lower = lowercase(line);
    if contains(lower, "highlight"@) || contains(line, "ハイライト"@) {
        ClippingType::Highlight
    } else if contains(lower, "note"@) || contains(line, "メモ"@) {
        ClippingType::Note
    } else if contains(lower, "bookmark"@) || contains(line, "しおり"@) {
        ClippingType::Bookmark
    } else {
        ClippingType::Highlight
    }
}

/// Group `i` of a match, or else group `j`.
pub open spec fn group_or(caps: Seq<Option<Seq<char>>>, i: int, j: int) -> Option<Seq<char>> {
    if group(caps, i) is Some {
        group(caps, i)
    } else {
        group(caps, j)
    }
}

pub open spec fn page_of(line: Seq<char>) -> Option<u32> {
    match regex_captures(PAGE_PATTERN@, line) {
        Some(Some(caps)) => match group_or(caps, 1, 2) {
            Some(t) => parse_u32(t),
            None => None,
        },
        _ => None,
    }
}

/// The location range, with spaces removed.
pub open spec fn location_of(line: Seq<char>) -> Option<Seq<char>> {
    match regex_captures(LOCATION_PATTERN@, line) {
        Some(Some(caps)) => match group(caps, 1) {
            Some(t) => Some(replace_char(t, ' ', seq![])),
            None => None,
        },
        _ => None,
    }
}

pub open spec fn opt_u32(g: Option<Seq<char>>) -> Option<u32> {
    match g {
        Some(t) => parse_u32(t),
        None => None,
    }
}

pub open spec fn opt_i32(g: Option<Seq<char>>) -> Option<i32> {
    match g {
        Some(t) => parse_i32(t),
        None => None,
    }
}

/// The date of a match of the Japanese date pattern, where all six numbers
/// parse and form a valid date-time.
pub open spec fn jp_date(caps: Seq<Option<Seq<char>>>) -> Option<DateTimeParts> {
    match (
        opt_i32(group(caps, 1)),
        opt_u32(group(caps, 2)),
        opt_u32(group(caps, 3)),
        opt_u32(group(caps, 4)),
        opt_u32(group(caps, 5)),
        opt_u32(group(caps, 6)),
    ) {
        (Some(y), Some(mo), Some(d), Some(h), Some(mi), Some(s)) => {
            if valid_parts((y, mo, d, h, mi, s)) {
                Some((y, mo, d, h, mi, s))
            } else {
                None
            }
        },
        _ => None,
    }
}

/// The text after the first "Added on ", or else after the first "on ", trimmed.
pub open spec fn english_date_text(line: Seq<char>) -> Option<Seq<char>> {
    match find_from(line, "Added on "@, 0) {
        Some(i) => Some(trim(line.subrange(i + "Added on "@.len(), line.len() as int))),
        None => match find_from(line, "on "@, 0) {
            Some(i) => Some(trim(line.subrange(i + "on "@.len(), line.len() as int))),
            None => None,
        },
    }
}

/// The first of the English date formats that parses the text.
pub open spec fn english_formats(d: Seq<char>) -> Option<DateTimeParts> {
    if chrono_parse(d, "%A, %B %d, %Y %I:%M:%S %p"@) is Some {
        chrono_parse(d, "%A, %B %d, %Y %I:%M:%S %p"@)
    } else if chrono_parse(d, "%B %d, %Y %I:%M:%S %p"@) is Some {
        chrono_parse(d, "%B %d, %Y %I:%M:%S %p"@)
    } else if chrono_parse(d, "%A, %d %B %Y %H:%M:%S"@) is Some {
        chrono_parse(d, "%A, %d %B %Y %H:%M:%S"@)
    } else if chrono_parse(d, "%d %B %Y %H:%M:%S"@) is Some {
        chrono_parse(d, "%d %B %Y %H:%M:%S"@)
    } else {
        chrono_parse(d, "%Y-%m-%d %H:%M:%S"@)
    }
}

/// The creation date: the Japanese pattern where it matches, else an English one.
pub open spec fn date_of(line: Seq<char>) -> Option<DateTimeParts> {
    match regex_captures(JP_DATE_PATTERN@, line) {
        Some(Some(caps)) => jp_date(caps),
        _ => match english_date_text(line) {
            Some(d) => if d.len() > 0 {
                english_formats(d)
            } else {
                None
            },
            None => None,
        },
    }
}

/// The text that identifies a clipping: title, location and content,
/// separated by colons.
pub open spec fn id_source(title: Seq<char>, location: Option<Seq<char>>, content: Seq<char>) -> Seq<
    char,
> {
    trim(title) + seq![':'] + (match location {
        Some(l) => l,
        None => seq![],
    }) + seq![':'] + trim(content)
}

/// The id of a clipping: the SHA-256 of its `id_source` in UTF-8, in hex.
pub open spec fn clipping_id(title: Seq<char>, location: Option<Seq<char>>, content: Seq<char>) -> Seq<
    char,
> {
    sha256_hex(encode_utf8(id_source(title, location, content)))
}

/// The clipping that a block between two separators describes: a title line,
/// a metadata line and the content. A block of fewer than two non-blank lines,
/// or one with empty content that is not a bookmark, describes none.
pub open spec fn parse_block(block: Seq<char>) -> Option<ClippingView> {
    let ls = clean_lines(lines(block));
    if ls.len() < 2 {
        None
    } else {
        let title_line = trim(ls[0]);
        let meta_line = trim(ls[1]);
        let body = if ls.len() > 2 {
            trim(join(ls.subrange(2, ls.len() as int), seq!['\n']))
        } else {
            seq![]
        };
        let ta = title_author(title_line);
        let t = clipping_type_of(meta_line);
        let location = location_of(meta_line);
        if body.len() == 0 && t != ClippingType::Bookmark {
            None
        } else {
            Some(
                ClippingView {
                    id: clipping_id(ta.0, location, body),
                    book_title: ta.0,
                    author: ta.1,
                    clipping_type: t,
                    location: location,
                    page: page_of(meta_line),
                    created_at: date_of(meta_line),
                    content: body,
                },
            )
        }
    }
}

pub open spec fn parse_blocks(bs: Seq<Seq<char>>) -> Seq<ClippingView>
    decreases bs.len(),
{
    if bs.len() == 0 {
        seq![]
    } else {
        (match parse_block(bs[0]) {
            Some(c) => seq![c],
            None => seq![],
        }) + parse_blocks(bs.drop_first())
    }
}

/// `s` without a leading byte-order mark.
pub open spec fn strip_bom(s: Seq<char>) -> Seq<char> {
    if s.len() > 0 && s[0] == '\u{feff}' {
        s.drop_first()
    } else {
        s
    }
}

/// All clippings of a `My Clippings.txt`, in file order.
pub open spec fn parse_clippings(content: Seq<char>) -> Seq<ClippingView> {
    parse_blocks(split(strip_bom(content), SEPARATOR@))
}

/// What makes a clipping's id: clippings whose trimmed titles, locations
/// and trimmed contents agree get the same id, whatever else differs (type,
/// author, page, date).
pub proof fn lemma_clipping_id_determined(
    t1: Seq<char>,
    l1: Option<Seq<char>>,
    c1: Seq<char>,
    t2: Seq<char>,
    l2: Option<Seq<char>>,
    c2: Seq<char>,
)
    requires
        trim(t1) == trim(t2),
        l1 == l2,
        trim(c1) == trim(c2),
    ensures
        clipping_id(t1, l1, c1) == clipping_id(t2, l2, c2),
{
    assert(id_source(t1, l1, c1) =~= id_source(t2, l2, c2));
}

/// Every clipping read from a file carries the id of its own title,
/// location and content, and only bookmarks may have empty content.
pub proof fn lemma_parsed_clippings(content: Seq<char>)
    ensures
        forall|i: int|
            0 <= i < parse_clippings(content).len() ==> {
                let c = #[trigger] parse_clippings(content)[i];
                &&& c.id == clipping_id(c.book_title, c.location, c.content)
                &&& (c.clipping_type != ClippingType::Bookmark ==> c.content.len() > 0)
            },
{
    lemma_parsed_blocks(split(strip_bom(content), SEPARATOR@));
}

/// The clippings of two runs of blocks, one after the other.
proof fn lemma_parse_blocks_concat(x: Seq<Seq<char>>, y: Seq<Seq<char>>)
    ensures
        parse_blocks(x + y) == parse_blocks(x) + parse_blocks(y),
    decreases x.len(),
{
    if x.len() == 0 {
        assert(x + y =~= y);
        assert(Seq::<ClippingView>::empty() + parse_blocks(y) =~= parse_blocks(y));
    } else {
        assert((x + y)[0] == x[0]);
        assert((x + y).drop_first() =~= x.drop_first() + y);
        lemma_parse_blocks_concat(x.drop_first(), y);
        let h = match parse_block(x[0]) {
            Some(c) => seq![c],
            None => Seq::<ClippingView>::empty(),
        };
        assert(h + (parse_blocks(x.drop_first()) + parse_blocks(y)) =~= (h + parse_blocks(
            x.drop_first(),
        )) + parse_blocks(y));
    }
}

/// Two clippings texts joined by a separator give the clippings of the first
/// and then those of the second, where the first does not end with `'='`
/// and the second does not start with a byte order mark.
pub proof fn lemma_parse_joined(a: Seq<char>, b: Seq<char>)
    requires
        a.len() == 0 || a.last() != '=',
        b.len() == 0 || b[0] != '\u{feff}',
    ensures
        parse_clippings(a + SEPARATOR@ + b) == parse_clippings(a) + parse_clippings(b),
{
    reveal_strlit("==========");
    let sep = SEPARATOR@;
    assert(sep.len() == 10);
    assert(sep[0] == '=');
    let a0 = strip_bom(a);
    assert(strip_bom(a + sep + b) =~= a0 + sep + b);
    assert(strip_bom(b) == b);
    assert(a0.len() == 0 || a0.last() == a.last());
    lemma_split_joined(a0, sep, b, 0);
    lemma_parse_blocks_concat(split(a0, sep), split(b, sep));
}

proof fn lemma_parsed_blocks(bs: Seq<Seq<char>>)
    ensures
        forall|i: int|
            0 <= i < parse_blocks(bs).len() ==> {
                let c = #[trigger] parse_blocks(bs)[i];
                &&& c.id == clipping_id(c.book_title, c.location, c.content)
                &&& (c.clipping_type != ClippingType::Bookmark ==> c.content.len() > 0)
            },
    decreases bs.len(),
{
    if bs.len() > 0 {
        lemma_parsed_blocks(bs.drop_first());
        let head = match parse_block(bs[0]) {
            Some(c) => seq![c],
            None => Seq::<ClippingView>::empty(),
        };
        let tail = parse_blocks(bs.drop_first());
        assert(parse_blocks(bs) == head + tail);
        assert forall|i: int| 0 <= i < parse_blocks(bs).len() implies {
            let c = #[trigger] parse_blocks(bs)[i];
            &&& c.id == clipping_id(c.book_title, c.location, c.content)
            &&& (c.clipping_type != ClippingType::Bookmark ==> c.content.len() > 0)
        } by {
            if i < head.len() {
                assert(parse_blocks(bs)[i] == head[i]);
            } else {
                assert(parse_blocks(bs)[i] == tail[i - head.len()]);
            }
        }
    }
}

pub struct ClippingsParser;

impl ClippingsParser {
    /// Parses the text of a `My Clippings.txt`.
    pub fn parse_str(content: &str) -> (r: Vec<Clipping>)
        ensures
            r@.map_values(|c: Clipping| c@) == parse_clippings(content@),
    {
        let all = chars_of(content);
        let start: usize = if all.len() > 0 && all[0] == '\u{feff}' {
            1
        } else {
            0
        };
        let s = copy_range(&all, start, all.len());
        assert(s@ =~= strip_bom(content@));
        let sep = chars_of(SEPARATOR);
        proof {
            reveal_strlit("==========");
        }
        assert(sep@.len() == 10);
        let mut out: Vec<Clipping> = Vec::new();
        let mut pos: usize = 0;
        loop
            invariant_except_break
                parse_blocks(split_from(s@, sep@, 0)) == out@.map_values(|c: Clipping| c@)
                    + parse_blocks(split_from(s@, sep@, pos as int)),
            invariant
                pos <= s@.len(),
                sep@ == SEPARATOR@,
                sep@.len() == 10,
            ensures
                parse_blocks(split_from(s@, sep@, 0)) == out@.map_values(|c: Clipping| c@),
            decreases s@.len() - pos,
        {
            let ghost rest = split_from(s@, sep@, pos as int);
            let f = find(&s, &sep, pos);
            proof {
                lemma_find_from(s@, sep@, pos as int);
            }
            let (end, last) = match f {
                Some(i) => {
                    assert(find_from(s@, sep@, pos as int) == Some(i as int));
                    assert(occurs_at(s@, sep@, i as int));
                    assert(i + 10 <= s.len());
                    (i, false)
                },
                None => (s.len(), true),
            };
            let piece = copy_range(&s, pos, end);
            let ghost next: int = if last {
                s@.len() as int + 1
            } else {
                end + 10
            };
            assert(rest == seq![piece@] + (if last {
                seq![]
            } else {
                split_from(s@, sep@, next)
            }));
            let ghost tail = if last {
                Seq::<Seq<char>>::empty()
            } else {
                split_from(s@, sep@, next)
            };
            assert((seq![piece@] + tail)[0] == piece@);
            assert((seq![piece@] + tail).drop_first() =~= tail);
            let ghost before = out@.map_values(|c: Clipping| c@);
            match Self::parse_block_chars(&piece) {
                Some(c) => {
                    out.push(c);
                    assert(out@.map_values(|c: Clipping| c@) =~= before.push(c@));
                },
                None => {},
            }
            if last {
                assert(parse_blocks(tail) =~= Seq::<ClippingView>::empty());
                break ;
            }
            assert(end + 10 <= s.len());
            pos = end + 10;
        }
        out
    }

    /// Parses one block of text between separators.
    fn parse_block_chars(b: &[char]) -> (r: Option<Clipping>)
        ensures
            match r {
                Some(c) => parse_block(b@) == Some(c@),
                None => parse_block(b@) is None,
            },
    {
        let ls = Self::block_lines(b);
        if ls.len() < 2 {
            return None;
        }
        let ghost lv = seqs_view(ls@);
        assert(lv[0] == ls[0]@ && lv[1] == ls[1]@);
        let (a0, z0) = trim_bounds(ls[0].as_slice(), 0, ls[0].len());
        let title_line = copy_range(ls[0].as_slice(), a0, z0);
        assert(ls[0]@.subrange(0, ls[0]@.len() as int) =~= ls[0]@);
        let (a1, z1) = trim_bounds(ls[1].as_slice(), 0, ls[1].len());
        let meta_line = copy_range(ls[1].as_slice(), a1, z1);
        assert(ls[1]@.subrange(0, ls[1]@.len() as int) =~= ls[1]@);
        let body = if ls.len() > 2 {
            let joined = Self::join_lines(&ls, 2);
            let (a, z) = trim_bounds(joined.as_slice(), 0, joined.len());
            assert(joined@.subrange(0, joined@.len() as int) =~= joined@);
            copy_range(joined.as_slice(), a, z)
        } else {
            Vec::new()
        };
        let (title, author) = Self::title_author_chars(title_line.as_slice());
        let t = Self::clipping_type_chars(meta_line.as_slice());
        let location = Self::location_chars(meta_line.as_slice());
        if body.len() == 0 && t != ClippingType::Bookmark {
            return None;
        }
        let page = Self::page_chars(meta_line.as_slice());
        let created_at = Self::date_chars(meta_line.as_slice());
        let id = Self::generate_id(title.as_slice(), &location, body.as_slice());
        Some(
            Clipping {
                id: id,
                book_title: string_from_chars(title.as_slice()),
                author: match author {
                    Some(a) => Some(string_from_chars(a.as_slice())),
                    None => None,
                },
                clipping_type: t,
                location: match location {
                    Some(l) => Some(string_from_chars(l.as_slice())),
                    None => None,
                },
                page: page,
                created_at: created_at,
                content: string_from_chars(body.as_slice()),
            },
        )
    }

    /// The lines of a block, `'\r'`-trimmed, blank ones left out.
    fn block_lines(b: &[char]) -> (r: Vec<Vec<char>>)
        ensures
            seqs_view(r@) == clean_lines(lines(b@)),
    {
        let n = b.len();
        let mut r: Vec<Vec<char>> = Vec::new();
        let mut pos: usize = 0;
        while pos < n
            invariant
                n == b@.len(),
                pos <= n,
                clean_lines(lines_from(b@, 0)) == seqs_view(r@) + clean_lines(
                    lines_from(b@, pos as int),
                ),
            decreases n - pos,
        {
            let ghost rest = lines_from(b@, pos as int);
            let f = find_char(b, '\n', pos);
            proof {
                lemma_find_from(b@, seq!['\n'], pos as int);
            }
            let (end, next) = match f {
                Some(i) => (i, i + 1),
                None => (n, n),
            };
            let hi = if f.is_some() && end > pos && b[end - 1] == '\r' {
                end - 1
            } else {
                end
            };
            let ghost line = if f.is_some() {
                strip_cr(b@.subrange(pos as int, end as int))
            } else {
                b@.subrange(pos as int, n as int)
            };
            assert(line =~= b@.subrange(pos as int, hi as int));
            assert(lines_from(b@, n as int) =~= Seq::<Seq<char>>::empty());
            assert(rest == seq![line] + lines_from(b@, next as int));
            assert((seq![line] + lines_from(b@, next as int))[0] == line);
            assert((seq![line] + lines_from(b@, next as int)).drop_first() =~= lines_from(
                b@,
                next as int,
            ));
            let (a, z) = trim_char_bounds(b, pos, hi, '\r');
            let (ta, tz) = trim_bounds(b, a, z);
            let ghost before = seqs_view(r@);
            if ta < tz {
                let l = copy_range(b, a, z);
                r.push(l);
                assert(seqs_view(r@) =~= before.push(l@));
                assert(before.push(l@) + clean_lines(lines_from(b@, next as int)) =~= before + (
                seq![l@] + clean_lines(lines_from(b@, next as int))));
            } else {
                assert(b@.subrange(ta as int, tz as int).len() == 0);
            }
            pos = next;
        }
        assert(lines_from(b@, pos as int) =~= Seq::<Seq<char>>::empty());
        assert(seqs_view(r@) + Seq::<Seq<char>>::empty() =~= seqs_view(r@));
        r
    }

    /// `ls[from..].join("\n")`.
    fn join_lines(ls: &Vec<Vec<char>>, from: usize) -> (r: Vec<char>)
        requires
            from < ls@.len(),
        ensures
            r@ == join(seqs_view(ls@).subrange(from as int, ls@.len() as int), seq!['\n']),
    {
        let ghost lv = seqs_view(ls@);
        let mut r: Vec<char> = Vec::new();
        let mut k = from;
        while k < ls.len()
            invariant
                from <= k <= ls@.len(),
                from < ls@.len(),
                lv == seqs_view(ls@),
                k > from ==> r@ == join(lv.subrange(from as int, k as int), seq!['\n']),
                k == from ==> r@.len() == 0,
            decreases ls@.len() - k,
        {
            let ghost sub = lv.subrange(from as int, k + 1);
            assert(sub.drop_last() =~= lv.subrange(from as int, k as int));
            assert(sub.last() == ls[k as int]@);
            if k > from {
                r.push('\n');
            }
            push_chars(&mut r, ls[k].as_slice());
            if k == from {
                assert(r@ =~= ls[k as int]@);
            } else {
                assert(r@ =~= join(sub.drop_last(), seq!['\n']) + seq!['\n'] + sub.last());
            }
            k = k + 1;
        }
        r
    }

    /// Title and author of a title line.
    pub fn parse_title_author(line: &str) -> (r: (String, Option<String>))
        ensures
            r.0@ == title_author(line@).0,
            r.1.deep_view() == title_author(line@).1,
    {
        let v = chars_of(line);
        let (t, a) = Self::title_author_chars(v.as_slice());
        (
            string_from_chars(t.as_slice()),
            match a {
                Some(x) => Some(string_from_chars(x.as_slice())),
                None => None,
            },
        )
    }

    fn title_author_chars(line: &[char]) -> (r: (Vec<char>, Option<Vec<char>>))
        ensures
            r.0@ == title_author(line@).0,
            opt_chars(r.1) == title_author(line@).1,
    {
        proof {
            lemma_last_index_of(line@, '(');
            lemma_last_index_of(line@, ')');
        }
        let whole = copy_range(line, 0, line.len());
        assert(line@.subrange(0, line@.len() as int) =~= line@);
        match rfind_char(line, '(') {
            Some(o) => match rfind_char(line, ')') {
                Some(c) => {
                    if c > o {
                        let (ta, tz) = trim_bounds(line, 0, o);
                        if ta < tz {
                            let (aa, az) = trim_bounds(line, o + 1, c);
                            let title = copy_range(line, ta, tz);
                            let author = if aa < az {
                                Some(copy_range(line, aa, az))
                            } else {
                                None
                            };
                            return (title, author);
                        }
                    }
                    (whole, None)
                },
                None => (whole, None),
            },
            None => (whole, None),
        }
    }

    fn clipping_type_chars(line: &[char]) -> (r: ClippingType)
        ensures
            r == clipping_type_of(line@),
    {
        let line_str = string_from_chars(line);
        let lower_str = to_lowercase(line_str.as_str());
        let lower = chars_of(lower_str.as_str());
        if contains_seq(&lower, &chars_of("highlight")) || contains_seq(line, &chars_of("ハイライト")) {
            ClippingType::Highlight
        } else if contains_seq(&lower, &chars_of("note")) || contains_seq(line, &chars_of("メモ")) {
            ClippingType::Note
        } else if contains_seq(&lower, &chars_of("bookmark")) || contains_seq(line, &chars_of("しおり")) {
            ClippingType::Bookmark
        } else {
            ClippingType::Highlight
        }
    }

    fn page_chars(line: &[char]) -> (r: Option<u32>)
        ensures
            r == page_of(line@),
    {
        let line_str = string_from_chars(line);
        match captures(PAGE_PATTERN, line_str.as_str()) {
            Some(Some(caps)) => {
                let g1 = get_group(&caps, 1);
                let g = match g1 {
                    Some(t) => Some(t),
                    None => get_group(&caps, 2),
                };
                match g {
                    Some(t) => parse_u32_chars(t.as_slice()),
                    None => None,
                }
            },
            _ => None,
        }
    }

    fn location_chars(line: &[char]) -> (r: Option<Vec<char>>)
        ensures
            opt_chars(r) == location_of(line@),
    {
        let line_str = string_from_chars(line);
        match captures(LOCATION_PATTERN, line_str.as_str()) {
            Some(Some(caps)) => match get_group(&caps, 1) {
                Some(t) => {
                    let empty: Vec<char> = Vec::new();
                    Some(replace_char_seq(t.as_slice(), ' ', empty.as_slice()))
                },
                None => None,
            },
            _ => None,
        }
    }

    fn group_u32(caps: &Vec<Option<String>>, i: usize) -> (r: Option<u32>)
        ensures
            r == opt_u32(group(caps.deep_view(), i as int)),
    {
        match get_group(caps, i) {
            Some(t) => parse_u32_chars(t.as_slice()),
            None => None,
        }
    }

    fn date_chars(line: &[char]) -> (r: Option<UtcDateTime>)
        ensures
            opt_date_view(r) == date_of(line@),
    {
        let line_str = string_from_chars(line);
        match captures(JP_DATE_PATTERN, line_str.as_str()) {
            Some(Some(caps)) => {
                let y = match get_group(&caps, 1) {
                    Some(t) => parse_i32_chars(t.as_slice()),
                    None => None,
                };
                let mo = Self::group_u32(&caps, 2);
                let d = Self::group_u32(&caps, 3);
                let h = Self::group_u32(&caps, 4);
                let mi = Self::group_u32(&caps, 5);
                let s = Self::group_u32(&caps, 6);
                match (y, mo, d, h, mi, s) {
                    (Some(y), Some(mo), Some(d), Some(h), Some(mi), Some(s)) => UtcDateTime::new(
                        y,
                        mo,
                        d,
                        h,
                        mi,
                        s,
                    ),
                    _ => None,
                }
            },
            _ => Self::english_date(line),
        }
    }

    fn english_date(line: &[char]) -> (r: Option<UtcDateTime>)
        ensures
            opt_date_view(r) == match english_date_text(line@) {
                Some(d) => if d.len() > 0 {
                    english_formats(d)
                } else {
                    None
                },
                None => None,
            },
    {
        let p1 = chars_of("Added on ");
        let p2 = chars_of("on ");
        let n = line.len();
        proof {
            lemma_find_from(line@, p1@, 0);
            lemma_find_from(line@, p2@, 0);
        }
        let from = match find(line, &p1, 0) {
            Some(i) => {
                assert(find_from(line@, p1@, 0) == Some(i as int));
                assert(occurs_at(line@, p1@, i as int));
                assert(i + p1@.len() <= n);
                i + p1.len()
            },
            None => match find(line, &p2, 0) {
                Some(i) => {
                    assert(find_from(line@, p2@, 0) == Some(i as int));
                    i + p2.len()
                },
                None => {
                    return None;
                },
            },
        };
        let (a, z) = trim_bounds(line, from, line.len());
        if a == z {
            return None;
        }
        let d = string_from_chars(copy_range(line, a, z).as_slice());
        let parsed = match parse_date_time(d.as_str(), "%A, %B %d, %Y %I:%M:%S %p") {
            Some(t) => Some(t),
            None => match parse_date_time(d.as_str(), "%B %d, %Y %I:%M:%S %p") {
                Some(t) => Some(t),
                None => match parse_date_time(d.as_str(), "%A, %d %B %Y %H:%M:%S") {
                    Some(t) => Some(t),
                    None => match parse_date_time(d.as_str(), "%d %B %Y %H:%M:%S") {
                        Some(t) => Some(t),
                        None => parse_date_time(d.as_str(), "%Y-%m-%d %H:%M:%S"),
                    },
                },
            },
        };
        match parsed {
            Some(t) => UtcDateTime::from_parts(t),
            None => None,
        }
    }

    /// The id of a clipping: SHA-256, in lowercase hex, of the trimmed title,
    /// the location and the trimmed content, joined by ':'.
    fn generate_id(title: &[char], location: &Option<Vec<char>>, content: &[char]) -> (r: String)
        ensures
            r@ == clipping_id(title@, opt_chars(*location), content@),
    {
        let mut src: Vec<char> = Vec::new();
        let (a, z) = trim_bounds(title, 0, title.len());
        assert(title@.subrange(0, title@.len() as int) =~= title@);
        push_chars(&mut src, copy_range(title, a, z).as_slice());
        src.push(':');
        match location {
            Some(l) => push_chars(&mut src, l.as_slice()),
            None => {},
        }
        src.push(':');
        let (ca, cz) = trim_bounds(content, 0, content.len());
        assert(content@.subrange(0, content@.len() as int) =~= content@);
        push_chars(&mut src, copy_range(content, ca, cz).as_slice());
        assert(src@ =~= id_source(title@, opt_chars(*location), content@));
        let s = string_from_chars(src.as_slice());
        let hex = sha256_hex_of(s.as_str().as_bytes());
        string_from_chars(hex.as_slice())
    }
}

} // verus!

verus! {

/// The author is the last parenthesised part of a title line: where the line
/// is `pre(a)` and `a` holds no parenthesis, the title is `pre` trimmed,
/// whatever parentheses it holds itself, and the author `a` trimmed (none
/// where it is blank), provided the title is not blank.
pub proof fn lemma_author_in_last_parentheses(pre: Seq<char>, a: Seq<char>)
    requires
        trim(pre).len() > 0,
        forall|k: int| 0 <= k < a.len() ==> a[k] != '(' && a[k] != ')',
    ensures
        title_author(pre + seq!['('] + a + seq![')']) == (
            trim(pre),
            if trim(a).len() == 0 {
                None
            } else {
                Some(trim(a))
            },
        ),
{
    let line = pre + seq!['('] + a + seq![')'];
    let o = pre.len() as int;
    let c = line.len() - 1;
    assert forall|j: int| o < j < line.len() implies line[j] != '(' by {
        if j < c {
            assert(line[j] == a[j - o - 1]);
        }
    }
    crate::text::lemma_last_index_at(line, '(', o);
    assert forall|j: int| c < j < line.len() implies line[j] != ')' by {}
    crate::text::lemma_last_index_at(line, ')', c);
    assert(line.subrange(0, o) =~= pre);
    assert(line.subrange(o + 1, c) =~= a);
}

/// A metadata line that names a bookmark (`bookmark` in any case, or
/// `しおり`) and neither a highlight nor a note gives a bookmark; and a block
/// of a title line and such a metadata line, with no content, gives exactly
/// one clipping: that bookmark, with empty content, of the book the title line
/// names, at the location the metadata line gives.
pub proof fn lemma_bookmark_kept(title: Seq<char>, meta: Seq<char>)
    requires
        forall|k: int| 0 <= k < title.len() ==> title[k] != '\n' && title[k] != '\r',
        forall|k: int| 0 <= k < meta.len() ==> meta[k] != '\n' && meta[k] != '\r',
        trim(title).len() > 0,
        title[0] != '\u{feff}',
        trim(meta) == meta,
        meta.len() > 0,
        contains(lowercase(meta), "bookmark"@) || contains(meta, "しおり"@),
        !contains(lowercase(meta), "highlight"@),
        !contains(meta, "ハイライト"@),
        !contains(lowercase(meta), "note"@),
        !contains(meta, "メモ"@),
        !contains(title + seq!['\n'] + meta + seq!['\n'], SEPARATOR@),
    ensures
        clipping_type_of(meta) == ClippingType::Bookmark,
        ({
            let cs = parse_clippings(title + seq!['\n'] + meta + seq!['\n']);
            &&& cs.len() == 1
            &&& cs[0].clipping_type == ClippingType::Bookmark
            &&& cs[0].content.len() == 0
            &&& cs[0].book_title == title_author(trim(title)).0
            &&& cs[0].location == location_of(meta)
        }),
{
    let s = title + seq!['\n'] + meta + seq!['\n'];
    let sep = SEPARATOR@;
    reveal_strlit("==========");
    assert(strip_bom(s) == s);
    lemma_find_from(s, sep, 0);
    if find_from(s, sep, 0) is Some {
        assert(contains(s, sep));
    }
    assert(split(s, sep) =~= seq![s.subrange(0, s.len() as int)]);
    assert(s.subrange(0, s.len() as int) =~= s);
    let p = title + seq!['\n'];
    crate::text::lemma_one_line(title);
    crate::text::lemma_one_line(meta);
    crate::text::lemma_lines_concat(p, meta + seq!['\n']);
    assert(s =~= p + (meta + seq!['\n']));
    let ls = lines(s);
    assert(ls =~= seq![title, meta]);
    assert(trim_char(title, '\r') == title) by {
        assert(crate::text::trim_char_start(title, '\r') == title);
        assert(crate::text::trim_char_end(title, '\r') == title);
    }
    assert(trim_char(meta, '\r') == meta) by {
        assert(crate::text::trim_char_start(meta, '\r') == meta);
        assert(crate::text::trim_char_end(meta, '\r') == meta);
    }
    assert(ls.drop_first() =~= seq![meta]);
    assert(seq![meta].drop_first() =~= Seq::<Seq<char>>::empty());
    assert(clean_lines(seq![meta]) =~= seq![meta]) by {
        assert(seq![meta][0] == meta);
        assert(trim(meta).len() > 0);
        assert(clean_lines(Seq::<Seq<char>>::empty()) =~= Seq::<Seq<char>>::empty());
    }
    assert(clean_lines(ls) =~= seq![title, meta]);
    assert(seq![s][0] == s);
    assert(seq![s].drop_first() =~= Seq::<Seq<char>>::empty());
    assert(parse_blocks(Seq::<Seq<char>>::empty()) =~= Seq::<ClippingView>::empty());
    assert(parse_blocks(seq![s]) == (match parse_block(s) {
        Some(c) => seq![c],
        None => Seq::<ClippingView>::empty(),
    }) + parse_blocks(Seq::<Seq<char>>::empty()));
    assert(seq![s].drop_first() =~= Seq::<Seq<char>>::empty());
}

} // verus!

verus! {

/// The kind a metadata line names: a highlight wherever it says so
/// (`highlight` in any case, or `ハイライト`); else a note wherever it says so
/// (`note` in any case, or `メモ`); else a bookmark wherever it says so; and a
/// highlight where it names none.
pub proof fn lemma_clipping_type_words(meta: Seq<char>)
    ensures
        contains(lowercase(meta), "highlight"@) || contains(meta, "ハイライト"@) ==> clipping_type_of(meta)
            == ClippingType::Highlight,
        !(contains(lowercase(meta), "highlight"@) || contains(meta, "ハイライト"@)) && (contains(
            lowercase(meta),
            "note"@,
        ) || contains(meta, "メモ"@)) ==> clipping_type_of(meta) == ClippingType::Note,
        !(contains(lowercase(meta), "highlight"@) || contains(meta, "ハイライト"@)) && !(contains(
            lowercase(meta),
            "note"@,
        ) || contains(meta, "メモ"@)) && (contains(lowercase(meta), "bookmark"@) || contains(
            meta,
            "しおり"@,
        )) ==> clipping_type_of(meta) == ClippingType::Bookmark,
        !(contains(lowercase(meta), "highlight"@) || contains(meta, "ハイライト"@)) && !(contains(
            lowercase(meta),
            "note"@,
        ) || contains(meta, "メモ"@)) && !(contains(lowercase(meta), "bookmark"@) || contains(
            meta,
            "しおり"@,
        )) ==> clipping_type_of(meta) == ClippingType::Highlight,
{
}

/// A title line without a parenthesis names the book and no author.
pub proof fn lemma_title_without_author(line: Seq<char>)
    requires
        forall|k: int| 0 <= k < line.len() ==> line[k] != '(',
    ensures
        title_author(line) == (line, Option::<Seq<char>>::None),
{
    crate::text::lemma_last_index_of(line, '(');
}

/// A block of a title line, a metadata line and one line of content gives
/// exactly one clipping: of the kind the metadata line names, at the location
/// it gives, of the book and author the title line names, with the content
/// line, trimmed, as its content, and with the id of that title, location and
/// content.
pub proof fn lemma_one_clipping(title: Seq<char>, meta: Seq<char>, body: Seq<char>)
    requires
        forall|k: int| 0 <= k < title.len() ==> title[k] != '\n' && title[k] != '\r',
        forall|k: int| 0 <= k < meta.len() ==> meta[k] != '\n' && meta[k] != '\r',
        forall|k: int| 0 <= k < body.len() ==> body[k] != '\n' && body[k] != '\r',
        trim(title).len() > 0,
        title[0] != '\u{feff}',
        trim(meta) == meta,
        meta.len() > 0,
        trim(body).len() > 0,
        !contains(title + seq!['\n'] + meta + seq!['\n'] + body + seq!['\n'], SEPARATOR@),
    ensures
        ({
            let cs = parse_clippings(title + seq!['\n'] + meta + seq!['\n'] + body + seq!['\n']);
            let ta = title_author(trim(title));
            &&& cs.len() == 1
            &&& cs[0].clipping_type == clipping_type_of(meta)
            &&& cs[0].content == trim(body)
            &&& cs[0].book_title == ta.0
            &&& cs[0].author == ta.1
            &&& cs[0].location == location_of(meta)
            &&& cs[0].id == clipping_id(ta.0, location_of(meta), trim(body))
        }),
{
    let s = title + seq!['\n'] + meta + seq!['\n'] + body + seq!['\n'];
    let sep = SEPARATOR@;
    reveal_strlit("==========");
    assert(strip_bom(s) == s);
    lemma_find_from(s, sep, 0);
    if find_from(s, sep, 0) is Some {
        assert(contains(s, sep));
    }
    assert(split(s, sep) =~= seq![s.subrange(0, s.len() as int)]);
    assert(s.subrange(0, s.len() as int) =~= s);
    let p = title + seq!['\n'];
    let q = meta + seq!['\n'];
    let r = body + seq!['\n'];
    crate::text::lemma_one_line(title);
    crate::text::lemma_one_line(meta);
    crate::text::lemma_one_line(body);
    crate::text::lemma_lines_concat(q, r);
    crate::text::lemma_lines_concat(p, q + r);
    assert(s =~= p + (q + r));
    let ls = lines(s);
    assert(ls =~= seq![title, meta, body]);
    assert(trim_char(title, '\r') == title) by {
        assert(crate::text::trim_char_start(title, '\r') == title);
        assert(crate::text::trim_char_end(title, '\r') == title);
    }
    assert(trim_char(meta, '\r') == meta) by {
        assert(crate::text::trim_char_start(meta, '\r') == meta);
        assert(crate::text::trim_char_end(meta, '\r') == meta);
    }
    assert(trim_char(body, '\r') == body) by {
        assert(crate::text::trim_char_start(body, '\r') == body);
        assert(crate::text::trim_char_end(body, '\r') == body);
    }
    assert(clean_lines(seq![body]) =~= seq![body]) by {
        assert(seq![body][0] == body);
        assert(seq![body].drop_first() =~= Seq::<Seq<char>>::empty());
        assert(clean_lines(Seq::<Seq<char>>::empty()) =~= Seq::<Seq<char>>::empty());
    }
    assert(seq![meta, body].drop_first() =~= seq![body]);
    assert(clean_lines(seq![meta, body]) =~= seq![meta, body]) by {
        assert(seq![meta, body][0] == meta);
        assert(trim(meta).len() > 0);
    }
    assert(ls.drop_first() =~= seq![meta, body]);
    let cl = clean_lines(ls);
    assert(cl =~= seq![title, meta, body]);
    assert(cl.subrange(2, 3) =~= seq![body]);
    assert(join(seq![body], seq!['\n']) == body) by {
        reveal_with_fuel(join, 3);
        assert(seq![body].drop_first() =~= Seq::<Seq<char>>::empty());
        assert(seq![body].drop_last() =~= Seq::<Seq<char>>::empty());
    }
    assert(seq![s][0] == s);
    assert(seq![s].drop_first() =~= Seq::<Seq<char>>::empty());
    assert(parse_blocks(Seq::<Seq<char>>::empty()) =~= Seq::<ClippingView>::empty());
    assert(parse_blocks(seq![s]) == (match parse_block(s) {
        Some(c) => seq![c],
        None => Seq::<ClippingView>::empty(),
    }) + parse_blocks(Seq::<Seq<char>>::empty()));
}

} // verus!
