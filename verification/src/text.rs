//! Character-level text operations over `Seq<char>`, each stated as the
//! recursive definition that the corresponding `str` method documents.

use vstd::prelude::*;

verus! {

/// The Unicode `White_Space` property, which `char::is_whitespace` and
/// `str::trim` use.
pub open spec fn is_ws(c: char) -> bool {
    let u = c as u32;
    ||| 0x09 <= u <= 0x0d
    ||| u == 0x20
    ||| u == 0x85
    ||| u == 0xa0
    ||| u == 0x1680
    ||| 0x2000 <= u <= 0x200a
    ||| u == 0x2028
    ||| u == 0x2029
    ||| u == 0x202f
    ||| u == 0x205f
    ||| u == 0x3000
}

pub fn is_whitespace(c: char) -> (r: bool)
    ensures
        r == is_ws(c),
{
    let u = c as u32;
    (0x09 <= u && u <= 0x0d) || u == 0x20 || u == 0x85 || u == 0xa0 || u == 0x1680 || (0x2000
        <= u && u <= 0x200a) || u == 0x2028 || u == 0x2029 || u == 0x202f || u == 0x205f || u
        == 0x3000
}

/// `s` with leading whitespace removed.
pub open spec fn trim_start(s: Seq<char>) -> Seq<char>
    decreases s.len(),
{
    if s.len() > 0 && is_ws(s[0]) {
        trim_start(s.drop_first())
    } else {
        s
    }
}

/// `s` with trailing whitespace removed.
pub open spec fn trim_end(s: Seq<char>) -> Seq<char>
    decreases s.len(),
{
    if s.len() > 0 && is_ws(s.last()) {
        trim_end(s.drop_last())
    } else {
        s
    }
}

/// `str::trim`: leading and trailing whitespace removed.
pub open spec fn trim(s: Seq<char>) -> Seq<char> {
    trim_end(trim_start(s))
}

/// Copies a `str` into a vector of its characters.
pub fn chars_of(s: &str) -> (v: Vec<char>)
    ensures
        v@ == s@,
{
    let mut v: Vec<char> = Vec::new();
    broadcast use vstd::string::group_string_axioms;
    for c in it: s.chars()
        invariant
            it.seq() == s@,
            v@ == it.seq().take(it.index() as int),
    {
        v.push(c);
    }
    v
}

} // verus!

verus! {

/// Restates `trim_start` on a suffix window one step further in.
proof fn lemma_trim_start_step(s: Seq<char>, a: int, hi: int)
    requires
        0 <= a < hi <= s.len(),
    ensures
        is_ws(s[a]) ==> trim_start(s.subrange(a, hi)) == trim_start(s.subrange(a + 1, hi)),
        !is_ws(s[a]) ==> trim_start(s.subrange(a, hi)) == s.subrange(a, hi),
{
    assert(s.subrange(a, hi).drop_first() =~= s.subrange(a + 1, hi));
}

proof fn lemma_trim_end_step(s: Seq<char>, lo: int, b: int)
    requires
        0 <= lo < b <= s.len(),
    ensures
        is_ws(s[b - 1]) ==> trim_end(s.subrange(lo, b)) == trim_end(s.subrange(lo, b - 1)),
        !is_ws(s[b - 1]) ==> trim_end(s.subrange(lo, b)) == s.subrange(lo, b),
{
    assert(s.subrange(lo, b).drop_last() =~= s.subrange(lo, b - 1));
}

/// The bounds of `trim(s[lo..hi])` inside `s`.
pub fn trim_bounds(s: &[char], lo: usize, hi: usize) -> (r: (usize, usize))
    requires
        lo <= hi <= s@.len(),
    ensures
        lo <= r.0 <= r.1 <= hi,
        s@.subrange(r.0 as int, r.1 as int) == trim(s@.subrange(lo as int, hi as int)),
{
    let mut a = lo;
    while a < hi && is_whitespace(s[a])
        invariant
            lo <= a <= hi <= s@.len(),
            trim_start(s@.subrange(lo as int, hi as int)) == trim_start(
                s@.subrange(a as int, hi as int),
            ),
        decreases hi - a,
    {
        proof {
            lemma_trim_start_step(s@, a as int, hi as int);
        }
        a = a + 1;
    }
    proof {
        if a < hi {
            lemma_trim_start_step(s@, a as int, hi as int);
        } else {
            assert(s@.subrange(a as int, hi as int).len() == 0);
        }
    }
    let mut b = hi;
    while b > a && is_whitespace(s[b - 1])
        invariant
            lo <= a <= b <= hi <= s@.len(),
            trim(s@.subrange(lo as int, hi as int)) == trim_end(s@.subrange(a as int, b as int)),
        decreases b - a,
    {
        proof {
            lemma_trim_end_step(s@, a as int, b as int);
        }
        b = b - 1;
    }
    proof {
        if a < b {
            lemma_trim_end_step(s@, a as int, b as int);
        } else {
            assert(s@.subrange(a as int, b as int).len() == 0);
        }
    }
    (a, b)
}

/// `pat` occurs in `s` at index `i`.
pub open spec fn occurs_at(s: Seq<char>, pat: Seq<char>, i: int) -> bool {
    0 <= i && i + pat.len() <= s.len() && s.subrange(i, i + pat.len()) == pat
}

/// The first index at or after `i` where `pat` occurs in `s`, scanning left to right.
pub open spec fn find_from(s: Seq<char>, pat: Seq<char>, i: int) -> Option<int>
    decreases s.len() + 1 - i,
{
    if i < 0 || i + pat.len() > s.len() {
        None
    } else if occurs_at(s, pat, i) {
        Some(i)
    } else {
        find_from(s, pat, i + 1)
    }
}

/// `pat` occurs somewhere in `s` (`str::contains`).
pub open spec fn contains(s: Seq<char>, pat: Seq<char>) -> bool {
    exists|i: int| occurs_at(s, pat, i)
}

pub proof fn lemma_find_from(s: Seq<char>, pat: Seq<char>, i: int)
    requires
        0 <= i,
    ensures
        find_from(s, pat, i) matches Some(j) ==> i <= j && occurs_at(s, pat, j) && (forall|k: int|
            i <= k < j ==> !occurs_at(s, pat, k)),
        find_from(s, pat, i) is None ==> forall|k: int| i <= k ==> !occurs_at(s, pat, k),
    decreases s.len() + 1 - i,
{
    if i + pat.len() > s.len() {
    } else if occurs_at(s, pat, i) {
    } else {
        lemma_find_from(s, pat, i + 1);
    }
}

/// Searches `s` for `pat` from index `from`.
pub fn find(s: &[char], pat: &[char], from: usize) -> (r: Option<usize>)
    ensures
        r matches Some(j) ==> find_from(s@, pat@, from as int) == Some(j as int),
        r is None ==> find_from(s@, pat@, from as int) is None,
{
    let n = s.len();
    let m = pat.len();
    let mut i = from;
    while i <= n && m <= n - i
        invariant
            n == s@.len(),
            m == pat@.len(),
            from <= i,
            find_from(s@, pat@, from as int) == find_from(s@, pat@, i as int),
        decreases n + 1 - i,
    {
        let mut k: usize = 0;
        let mut same = true;
        while k < m
            invariant
                n == s@.len(),
                m == pat@.len(),
                i + m <= n,
                k <= m,
                same == (forall|t: int| 0 <= t < k ==> s@[i + t] == pat@[t]),
            decreases m - k,
        {
            if s[i + k] != pat[k] {
                same = false;
            }
            k = k + 1;
        }
        if same {
            assert(s@.subrange(i as int, i + m) =~= pat@);
            return Some(i);
        }
        assert(!occurs_at(s@, pat@, i as int)) by {
            if s@.subrange(i as int, i + m) == pat@ {
                assert forall|t: int| 0 <= t < m implies s@[i + t] == pat@[t] by {
                    assert(s@.subrange(i as int, i + m)[t] == s@[i + t]);
                }
            }
        }
        i = i + 1;
    }
    None
}

/// `str::contains` on character sequences.
pub fn contains_seq(s: &[char], pat: &[char]) -> (r: bool)
    ensures
        r == contains(s@, pat@),
{
    proof {
        lemma_find_from(s@, pat@, 0);
    }
    match find(s, pat, 0) {
        Some(_) => true,
        None => false,
    }
}

} // verus!

verus! {

/// `str::split` by a non-empty separator, from index `pos`: the pieces
/// between successive leftmost non-overlapping occurrences of `sep`.
pub open spec fn split_from(s: Seq<char>, sep: Seq<char>, pos: int) -> Seq<Seq<char>>
    recommends
        sep.len() > 0,
    decreases s.len() + 1 - pos,
{
    if pos < 0 || pos > s.len() || sep.len() == 0 {
        seq![s.subrange(pos, s.len() as int)]
    } else {
        match find_from(s, sep, pos) {
            Some(i) => {
                proof {
                    lemma_find_from(s, sep, pos);
                }
                seq![s.subrange(pos, i)] + split_from(s, sep, i + sep.len())
            },
            None => seq![s.subrange(pos, s.len() as int)],
        }
    }
}

/// `str::split(sep)`.
pub open spec fn split(s: Seq<char>, sep: Seq<char>) -> Seq<Seq<char>> {
    split_from(s, sep, 0)
}

/// A line as `str::lines` yields it: a final `'\r'` goes with the `'\n'` that ends the line.
pub open spec fn strip_cr(l: Seq<char>) -> Seq<char> {
    if l.len() > 0 && l.last() == '\r' {
        l.drop_last()
    } else {
        l
    }
}

/// `str::lines` of `s[pos..]`: split at `'\n'`, a trailing `"\r"` dropped
/// before each `'\n'`, and no empty line after a final `'\n'`.
pub open spec fn lines_from(s: Seq<char>, pos: int) -> Seq<Seq<char>>
    decreases s.len() + 1 - pos,
{
    if pos < 0 || pos >= s.len() {
        seq![]
    } else {
        match find_from(s, seq!['\n'], pos) {
            Some(i) => {
                proof {
                    lemma_find_from(s, seq!['\n'], pos);
                }
                seq![strip_cr(s.subrange(pos, i))] + lines_from(s, i + 1)
            },
            None => seq![s.subrange(pos, s.len() as int)],
        }
    }
}

/// `str::lines`.
pub open spec fn lines(s: Seq<char>) -> Seq<Seq<char>> {
    lines_from(s, 0)
}

/// `s` with every leading `c` removed.
pub open spec fn trim_char_start(s: Seq<char>, c: char) -> Seq<char>
    decreases s.len(),
{
    if s.len() > 0 && s[0] == c {
        trim_char_start(s.drop_first(), c)
    } else {
        s
    }
}

/// `s` with every trailing `c` removed.
pub open spec fn trim_char_end(s: Seq<char>, c: char) -> Seq<char>
    decreases s.len(),
{
    if s.len() > 0 && s.last() == c {
        trim_char_end(s.drop_last(), c)
    } else {
        s
    }
}

/// `str::trim_matches(c)`.
pub open spec fn trim_char(s: Seq<char>, c: char) -> Seq<char> {
    trim_char_end(trim_char_start(s, c), c)
}

/// `str::rfind(c)`: the index of the last `c` in `s`.
pub open spec fn last_index_of(s: Seq<char>, c: char) -> Option<int>
    decreases s.len(),
{
    if s.len() == 0 {
        None
    } else if s.last() == c {
        Some(s.len() - 1)
    } else {
        last_index_of(s.drop_last(), c)
    }
}

/// `s` with every `c` replaced by `rep` (`str::replace`).
pub open spec fn replace_char(s: Seq<char>, c: char, rep: Seq<char>) -> Seq<char>
    decreases s.len(),
{
    if s.len() == 0 {
        seq![]
    } else {
        replace_char(s.drop_last(), c, rep) + (if s.last() == c {
            rep
        } else {
            seq![s.last()]
        })
    }
}

/// `ls.join(sep)`.
pub open spec fn join(ls: Seq<Seq<char>>, sep: Seq<char>) -> Seq<char>
    decreases ls.len(),
{
    if ls.len() == 0 {
        seq![]
    } else if ls.len() == 1 {
        ls[0]
    } else {
        join(ls.drop_last(), sep) + sep + ls.last()
    }
}

/// Copies `s[lo..hi]`.
pub fn copy_range(s: &[char], lo: usize, hi: usize) -> (r: Vec<char>)
    requires
        lo <= hi <= s@.len(),
    ensures
        r@ == s@.subrange(lo as int, hi as int),
{
    let mut r: Vec<char> = Vec::new();
    let mut i = lo;
    while i < hi
        invariant
            lo <= i <= hi <= s@.len(),
            r@ == s@.subrange(lo as int, i as int),
        decreases hi - i,
    {
        r.push(s[i]);
        i = i + 1;
        assert(r@ =~= s@.subrange(lo as int, i as int));
    }
    r
}

/// Appends the characters of `t` to `buf`.
pub fn push_str(buf: &mut Vec<char>, t: &str)
    ensures
        final(buf)@ == old(buf)@ + t@,
{
    let v = chars_of(t);
    push_chars(buf, &v);
}

/// Appends `t` to `buf`.
pub fn push_chars(buf: &mut Vec<char>, t: &[char])
    ensures
        final(buf)@ == old(buf)@ + t@,
{
    let ghost start = buf@;
    let mut i: usize = 0;
    while i < t.len()
        invariant
            i <= t@.len(),
            buf@ == start + t@.take(i as int),
        decreases t@.len() - i,
    {
        buf.push(t[i]);
        i = i + 1;
        assert(buf@ =~= start + t@.take(i as int));
    }
    assert(t@.take(i as int) =~= t@);
}

/// The bounds of `trim_char(s[lo..hi], c)` inside `s`.
pub fn trim_char_bounds(s: &[char], lo: usize, hi: usize, c: char) -> (r: (usize, usize))
    requires
        lo <= hi <= s@.len(),
    ensures
        lo <= r.0 <= r.1 <= hi,
        s@.subrange(r.0 as int, r.1 as int) == trim_char(s@.subrange(lo as int, hi as int), c),
{
    let mut a = lo;
    while a < hi && s[a] == c
        invariant
            lo <= a <= hi <= s@.len(),
            trim_char_start(s@.subrange(lo as int, hi as int), c) == trim_char_start(
                s@.subrange(a as int, hi as int),
                c,
            ),
        decreases hi - a,
    {
        assert(s@.subrange(a as int, hi as int).drop_first() =~= s@.subrange(a + 1, hi as int));
        a = a + 1;
    }
    if a < hi {
        assert(s@.subrange(a as int, hi as int).drop_first() =~= s@.subrange(a + 1, hi as int));
    }
    let mut b = hi;
    while b > a && s[b - 1] == c
        invariant
            lo <= a <= b <= hi <= s@.len(),
            trim_char(s@.subrange(lo as int, hi as int), c) == trim_char_end(
                s@.subrange(a as int, b as int),
                c,
            ),
        decreases b - a,
    {
        assert(s@.subrange(a as int, b as int).drop_last() =~= s@.subrange(a as int, b - 1));
        b = b - 1;
    }
    if a < b {
        assert(s@.subrange(a as int, b as int).drop_last() =~= s@.subrange(a as int, b - 1));
    }
    (a, b)
}

/// `str::rfind(c)`.
pub fn rfind_char(s: &[char], c: char) -> (r: Option<usize>)
    ensures
        r matches Some(i) ==> last_index_of(s@, c) == Some(i as int),
        r is None ==> last_index_of(s@, c) is None,
{
    let mut i = s.len();
    assert(s@.take(i as int) =~= s@);
    while i > 0
        invariant
            i <= s@.len(),
            last_index_of(s@, c) == last_index_of(s@.take(i as int), c),
        decreases i,
    {
        assert(s@.take(i as int).drop_last() =~= s@.take(i - 1));
        if s[i - 1] == c {
            return Some(i - 1);
        }
        i = i - 1;
    }
    None
}

/// `str::replace(c, rep)`.
pub fn replace_char_seq(s: &[char], c: char, rep: &[char]) -> (r: Vec<char>)
    ensures
        r@ == replace_char(s@, c, rep@),
{
    let mut r: Vec<char> = Vec::new();
    let mut i: usize = 0;
    while i < s.len()
        invariant
            i <= s@.len(),
            r@ == replace_char(s@.take(i as int), c, rep@),
        decreases s@.len() - i,
    {
        assert(s@.take(i + 1).drop_last() =~= s@.take(i as int));
        if s[i] == c {
            push_chars(&mut r, rep);
        } else {
            r.push(s[i]);
        }
        i = i + 1;
    }
    assert(s@.take(i as int) =~= s@);
    r
}

/// Builds a `String` holding exactly the characters `v` (`FromIterator<char>`).
#[verifier::external_body]
pub(crate) fn string_from_chars(v: &[char]) -> (s: String)
    ensures
        s@ == v@,
{
    v.iter().collect()
}

} // verus!

verus! {

pub open spec fn is_digit(c: char) -> bool {
    '0' <= c <= '9'
}

pub open spec fn digit_value(c: char) -> int {
    c as int - '0' as int
}

pub open spec fn all_digits(s: Seq<char>) -> bool {
    forall|i: int| 0 <= i < s.len() ==> is_digit(#[trigger] s[i])
}

/// The value of a string of decimal digits.
pub open spec fn decimal_value(s: Seq<char>) -> int
    decreases s.len(),
{
    if s.len() == 0 {
        0
    } else {
        decimal_value(s.drop_last()) * 10 + digit_value(s.last())
    }
}

/// `s` without one leading `+` (or, where `minus` allows it, `-`).
pub open spec fn unsigned_part(s: Seq<char>, minus: bool) -> Seq<char> {
    if s.len() > 0 && (s[0] == '+' || (minus && s[0] == '-')) {
        s.drop_first()
    } else {
        s
    }
}

/// `u32::from_str`: an optional `+` and at least one ASCII digit, within range.
pub open spec fn parse_u32(s: Seq<char>) -> Option<u32> {
    let t = unsigned_part(s, false);
    if t.len() > 0 && all_digits(t) && decimal_value(t) <= u32::MAX {
        Some(decimal_value(t) as u32)
    } else {
        None
    }
}

/// `i32::from_str`: an optional sign and at least one ASCII digit, within range.
pub open spec fn parse_i32(s: Seq<char>) -> Option<i32> {
    let neg = s.len() > 0 && s[0] == '-';
    let t = unsigned_part(s, true);
    if t.len() > 0 && all_digits(t) {
        if neg && decimal_value(t) <= 0x8000_0000 {
            Some((-decimal_value(t)) as i32)
        } else if !neg && decimal_value(t) <= 0x7fff_ffff {
            Some(decimal_value(t) as i32)
        } else {
            None
        }
    } else {
        None
    }
}

proof fn lemma_decimal_prefix(s: Seq<char>, k: int)
    requires
        all_digits(s),
        0 <= k <= s.len(),
    ensures
        0 <= decimal_value(s.take(k)) <= decimal_value(s),
    decreases s.len(),
{
    if s.len() > 0 {
        let p = s.drop_last();
        assert(all_digits(p)) by {
            assert forall|i: int| 0 <= i < p.len() implies is_digit(#[trigger] p[i]) by {
                assert(p[i] == s[i]);
            }
        }
        assert(is_digit(s[s.len() - 1]));
        if k == s.len() {
            assert(s.take(k) =~= s);
            lemma_decimal_prefix(p, 0);
            assert(s.take(0) =~= p.take(0));
        } else {
            lemma_decimal_prefix(p, k);
            assert(s.take(k) =~= p.take(k));
        }
        lemma_decimal_prefix(p, p.len() as int);
        assert(p.take(p.len() as int) =~= p);
    } else {
        assert(s.take(k) =~= s);
    }
}

pub fn is_ascii_digit(c: char) -> (r: bool)
    ensures
        r == is_digit(c),
{
    '0' <= c && c <= '9'
}

/// The value of the digits `s[lo..hi]` when that range is a non-empty run of
/// ASCII digits whose value is at most `max`.
pub fn digits_value(s: &[char], lo: usize, hi: usize, max: u64) -> (r: Option<u64>)
    requires
        lo <= hi <= s@.len(),
    ensures
        r is Some <==> ({
            let t = s@.subrange(lo as int, hi as int);
            t.len() > 0 && all_digits(t) && decimal_value(t) <= max
        }),
        r matches Some(v) ==> v == decimal_value(s@.subrange(lo as int, hi as int)),
{
    let ghost t = s@.subrange(lo as int, hi as int);
    if lo == hi {
        return None;
    }
    let mut acc: u64 = 0;
    let mut i = lo;
    while i < hi
        invariant
            lo <= i <= hi <= s@.len(),
            t == s@.subrange(lo as int, hi as int),
            all_digits(t.take(i - lo)),
            acc == decimal_value(t.take(i - lo)),
            acc <= max,
        decreases hi - i,
    {
        let c = s[i];
        if !is_ascii_digit(c) {
            assert(t[i - lo] == c);
            return None;
        }
        let ghost k = i - lo;
        assert(t.take(k + 1).drop_last() =~= t.take(k));
        assert(t.take(k + 1).last() == c);
        let d = (c as u32 - '0' as u32) as u64;
        let too_big = d > max || acc > (max - d) / 10;
        assert(all_digits(t.take(k + 1))) by {
            assert forall|j: int| 0 <= j < k + 1 implies is_digit(#[trigger] t.take(k + 1)[j]) by {
                if j < k {
                    assert(t.take(k + 1)[j] == t.take(k)[j]);
                }
            }
        }
        if too_big {
            assert(acc * 10 + d > max) by (nonlinear_arith)
                requires
                    d > max || acc > (max - d) / 10,
                    d <= 9,
            ;
            proof {
                if all_digits(t) {
                    lemma_decimal_prefix(t, k + 1);
                }
            }
            return None;
        }
        assert(acc * 10 + d <= max) by (nonlinear_arith)
            requires
                d <= max,
                acc <= (max - d) / 10,
        ;
        acc = acc * 10 + d;
        i = i + 1;
    }
    assert(t.take(hi - lo) =~= t);
    Some(acc)
}

/// `u32::from_str` on characters.
pub fn parse_u32_chars(s: &[char]) -> (r: Option<u32>)
    ensures
        r == parse_u32(s@),
{
    let start: usize = if s.len() > 0 && s[0] == '+' {
        1
    } else {
        0
    };
    assert(unsigned_part(s@, false) =~= s@.subrange(start as int, s@.len() as int));
    match digits_value(s, start, s.len(), 0xffff_ffff) {
        Some(v) => Some(v as u32),
        None => None,
    }
}

/// `i32::from_str` on characters.
pub fn parse_i32_chars(s: &[char]) -> (r: Option<i32>)
    ensures
        r == parse_i32(s@),
{
    let neg = s.len() > 0 && s[0] == '-';
    let start: usize = if s.len() > 0 && (s[0] == '+' || s[0] == '-') {
        1
    } else {
        0
    };
    assert(unsigned_part(s@, true) =~= s@.subrange(start as int, s@.len() as int));
    let limit: u64 = if neg {
        0x8000_0000
    } else {
        0x7fff_ffff
    };
    match digits_value(s, start, s.len(), limit) {
        Some(v) => {
            if neg {
                Some((0 - (v as i64)) as i32)
            } else {
                Some(v as i32)
            }
        },
        None => None,
    }
}

pub open spec fn digit_char(d: int) -> char {
    (d + '0' as int) as char
}

/// Decimal notation of `n`, without leading zeros.
pub open spec fn decimal_text(n: nat) -> Seq<char>
    decreases n,
{
    if n < 10 {
        seq![digit_char(n as int)]
    } else {
        decimal_text(n / 10) + seq![digit_char((n % 10) as int)]
    }
}

/// `n` in two decimal digits, zero-padded (`{:02}`), for `n < 100`.
pub open spec fn two_digits(n: nat) -> Seq<char> {
    seq![digit_char(n as int / 10), digit_char(n as int % 10)]
}

pub fn digit_to_char(d: u64) -> (c: char)
    requires
        d < 10,
    ensures
        c == digit_char(d as int),
{
    let b = (d as u8) + 48;
    b as char
}

/// Appends the decimal notation of `n` to `buf`.
pub fn push_decimal(buf: &mut Vec<char>, n: u64)
    ensures
        final(buf)@ == old(buf)@ + decimal_text(n as nat),
    decreases n,
{
    if n >= 10 {
        push_decimal(buf, n / 10);
    }
    buf.push(digit_to_char(n % 10));
}

/// Appends `n` as two zero-padded decimal digits to `buf`.
pub fn push_two_digits(buf: &mut Vec<char>, n: u64)
    requires
        n < 100,
    ensures
        final(buf)@ == old(buf)@ + two_digits(n as nat),
{
    buf.push(digit_to_char(n / 10));
    buf.push(digit_to_char(n % 10));
}

/// The lowercase hexadecimal digit for `v < 16`.
pub open spec fn hex_digit(v: int) -> char {
    if v < 10 {
        (v + '0' as int) as char
    } else {
        (v - 10 + 'a' as int) as char
    }
}

/// Lowercase hexadecimal text of a byte string, two digits per byte (`{:x}` on a digest).
pub open spec fn hex_text(bytes: Seq<u8>) -> Seq<char>
    decreases bytes.len(),
{
    if bytes.len() == 0 {
        seq![]
    } else {
        hex_text(bytes.drop_last()) + seq![
            hex_digit(bytes.last() as int / 16),
            hex_digit(bytes.last() as int % 16),
        ]
    }
}

pub fn hex_digit_char(v: u8) -> (c: char)
    requires
        v < 16,
    ensures
        c == hex_digit(v as int),
{
    if v < 10 {
        (v + 48) as char
    } else {
        (v - 10 + 97) as char
    }
}

/// Lowercase hexadecimal text of `bytes`.
pub fn to_hex(bytes: &[u8]) -> (r: Vec<char>)
    ensures
        r@ == hex_text(bytes@),
{
    let mut r: Vec<char> = Vec::new();
    let mut i: usize = 0;
    while i < bytes.len()
        invariant
            i <= bytes@.len(),
            r@ == hex_text(bytes@.take(i as int)),
        decreases bytes@.len() - i,
    {
        assert(bytes@.take(i + 1).drop_last() =~= bytes@.take(i as int));
        let b = bytes[i];
        r.push(hex_digit_char(b / 16));
        r.push(hex_digit_char(b % 16));
        i = i + 1;
    }
    assert(bytes@.take(i as int) =~= bytes@);
    r
}

} // verus!

verus! {

pub proof fn lemma_hex_text_len(b: Seq<u8>)
    ensures
        hex_text(b).len() == 2 * b.len(),
    decreases b.len(),
{
    if b.len() > 0 {
        lemma_hex_text_len(b.drop_last());
    }
}

} // verus!

verus! {

/// `find_from` for a single character.
pub fn find_char(s: &[char], c: char, from: usize) -> (r: Option<usize>)
    ensures
        r matches Some(j) ==> find_from(s@, seq![c], from as int) == Some(j as int),
        r is None ==> find_from(s@, seq![c], from as int) is None,
{
    let n = s.len();
    let mut i = from;
    while i < n
        invariant
            n == s@.len(),
            from <= i,
            find_from(s@, seq![c], from as int) == find_from(s@, seq![c], i as int),
        decreases n - i,
    {
        assert(occurs_at(s@, seq![c], i as int) <==> s@[i as int] == c) by {
            if s@[i as int] == c {
                assert(s@.subrange(i as int, i + 1) =~= seq![c]);
            }
            if s@.subrange(i as int, i + 1) == seq![c] {
                assert(s@.subrange(i as int, i + 1)[0] == s@[i as int]);
            }
        }
        if s[i] == c {
            return Some(i);
        }
        i = i + 1;
    }
    None
}

pub proof fn lemma_last_index_of(s: Seq<char>, c: char)
    ensures
        last_index_of(s, c) matches Some(i) ==> 0 <= i < s.len() && s[i] == c,
    decreases s.len(),
{
    if s.len() > 0 && s.last() != c {
        lemma_last_index_of(s.drop_last(), c);
    }
}

/// Compares two character sequences.
pub fn chars_eq(a: &[char], b: &[char]) -> (r: bool)
    ensures
        r == (a@ == b@),
{
    if a.len() != b.len() {
        return false;
    }
    let mut i: usize = 0;
    while i < a.len()
        invariant
            a@.len() == b@.len(),
            i <= a@.len(),
            forall|k: int| 0 <= k < i ==> a@[k] == b@[k],
        decreases a@.len() - i,
    {
        if a[i] != b[i] {
            return false;
        }
        i = i + 1;
    }
    assert(a@ =~= b@);
    true
}

} // verus!

verus! {

/// The character sequences held by a vector of character vectors.
pub open spec fn seqs_view(v: Seq<Vec<char>>) -> Seq<Seq<char>> {
    v.map_values(|x: Vec<char>| x@)
}

/// The characters held by an optional character vector.
pub open spec fn opt_chars(o: Option<Vec<char>>) -> Option<Seq<char>> {
    match o {
        Some(v) => Some(v@),
        None => None,
    }
}

} // verus!

verus! {

/// The trimmed lines of a text that are not blank.
pub open spec fn nonblank_trimmed(ls: Seq<Seq<char>>) -> Seq<Seq<char>>
    decreases ls.len(),
{
    if ls.len() == 0 {
        seq![]
    } else {
        (if trim(ls[0]).len() == 0 {
            seq![]
        } else {
            seq![trim(ls[0])]
        }) + nonblank_trimmed(ls.drop_first())
    }
}

/// The bounds of the line of `s` that starts at `pos < s.len()`, and where the next one starts.
pub fn next_line(s: &[char], pos: usize) -> (r: (usize, usize))
    requires
        pos < s@.len(),
    ensures
        pos <= r.0 <= r.1 <= s@.len(),
        pos < r.1,
        lines_from(s@, pos as int) == seq![s@.subrange(pos as int, r.0 as int)] + lines_from(
            s@,
            r.1 as int,
        ),
{
    let n = s.len();
    let f = find_char(s, '\n', pos);
    proof {
        lemma_find_from(s@, seq!['\n'], pos as int);
    }
    match f {
        Some(i) => {
            assert(occurs_at(s@, seq!['\n'], i as int));
            assert(i + 1 <= n);
            let hi = if i > pos && s[i - 1] == '\r' {
                i - 1
            } else {
                i
            };
            assert(strip_cr(s@.subrange(pos as int, i as int)) =~= s@.subrange(
                pos as int,
                hi as int,
            ));
            (hi, i + 1)
        },
        None => {
            assert(lines_from(s@, n as int) =~= Seq::<Seq<char>>::empty());
            assert(seq![s@.subrange(pos as int, n as int)] + lines_from(s@, n as int) =~= seq![
                s@.subrange(pos as int, n as int),
            ]);
            (n, n)
        },
    }
}

/// The non-blank lines of `s`, each trimmed.
pub fn trimmed_lines(s: &[char]) -> (r: Vec<Vec<char>>)
    ensures
        seqs_view(r@) == nonblank_trimmed(lines(s@)),
{
    let n = s.len();
    let mut r: Vec<Vec<char>> = Vec::new();
    let mut pos: usize = 0;
    while pos < n
        invariant
            n == s@.len(),
            pos <= n,
            nonblank_trimmed(lines_from(s@, 0)) == seqs_view(r@) + nonblank_trimmed(
                lines_from(s@, pos as int),
            ),
        decreases n - pos,
    {
        let (end, next) = next_line(s, pos);
        let ghost line = s@.subrange(pos as int, end as int);
        let ghost tail = lines_from(s@, next as int);
        assert((seq![line] + tail)[0] == line);
        assert((seq![line] + tail).drop_first() =~= tail);
        let (a, z) = trim_bounds(s, pos, end);
        let ghost before = seqs_view(r@);
        if a < z {
            let l = copy_range(s, a, z);
            r.push(l);
            assert(seqs_view(r@) =~= before.push(l@));
            assert(before.push(l@) + nonblank_trimmed(tail) =~= before + (seq![l@]
                + nonblank_trimmed(tail)));
        } else {
            assert(trim(line).len() == 0);
            assert(Seq::<Seq<char>>::empty() + nonblank_trimmed(tail) =~= nonblank_trimmed(tail));
        }
        pos = next;
    }
    assert(lines_from(s@, pos as int) =~= Seq::<Seq<char>>::empty());
    assert(seqs_view(r@) + Seq::<Seq<char>>::empty() =~= seqs_view(r@));
    r
}

/// The first line of `s`, trimmed; empty where `s` has no line.
pub open spec fn first_line(s: Seq<char>) -> Seq<char> {
    if lines(s).len() > 0 {
        trim(lines(s)[0])
    } else {
        seq![]
    }
}

pub fn first_line_of(s: &[char]) -> (r: Vec<char>)
    ensures
        r@ == first_line(s@),
{
    if s.len() == 0 {
        assert(lines(s@) =~= Seq::<Seq<char>>::empty());
        return Vec::new();
    }
    let (end, next) = next_line(s, 0);
    let (a, z) = trim_bounds(s, 0, end);
    copy_range(s, a, z)
}

/// `v` holds `x`.
pub fn holds_seq(v: &Vec<Vec<char>>, x: &[char]) -> (r: bool)
    ensures
        r == seqs_view(v@).contains(x@),
{
    let mut i: usize = 0;
    while i < v.len()
        invariant
            i <= v@.len(),
            forall|k: int| 0 <= k < i ==> v@[k]@ != x@,
        decreases v@.len() - i,
    {
        if chars_eq(v[i].as_slice(), x) {
            assert(seqs_view(v@)[i as int] == x@);
            return true;
        }
        i = i + 1;
    }
    assert forall|k: int| 0 <= k < seqs_view(v@).len() implies seqs_view(v@)[k] != x@ by {
        assert(seqs_view(v@)[k] == v@[k]@);
    }
    false
}

/// `s` begins with `p` (`str::starts_with`).
pub open spec fn starts_with(s: Seq<char>, p: Seq<char>) -> bool {
    p.len() <= s.len() && s.subrange(0, p.len() as int) == p
}

/// `s` ends with `p` (`str::ends_with`).
pub open spec fn ends_with(s: Seq<char>, p: Seq<char>) -> bool {
    p.len() <= s.len() && s.subrange(s.len() - p.len(), s.len() as int) == p
}

pub fn starts_with_chars(s: &[char], p: &[char]) -> (r: bool)
    ensures
        r == starts_with(s@, p@),
{
    if p.len() > s.len() {
        return false;
    }
    let mut i: usize = 0;
    while i < p.len()
        invariant
            p@.len() <= s@.len(),
            i <= p@.len(),
            forall|k: int| 0 <= k < i ==> s@[k] == p@[k],
        decreases p@.len() - i,
    {
        if s[i] != p[i] {
            assert(s@.subrange(0, p@.len() as int)[i as int] != p@[i as int]);
            return false;
        }
        i = i + 1;
    }
    assert(s@.subrange(0, p@.len() as int) =~= p@);
    true
}

pub fn ends_with_chars(s: &[char], p: &[char]) -> (r: bool)
    ensures
        r == ends_with(s@, p@),
{
    if p.len() > s.len() {
        return false;
    }
    let off = s.len() - p.len();
    let mut i: usize = 0;
    while i < p.len()
        invariant
            p@.len() <= s@.len(),
            off == s@.len() - p@.len(),
            s@.len() == s.len(),
            i <= p@.len(),
            forall|k: int| 0 <= k < i ==> s@[off + k] == p@[k],
        decreases p@.len() - i,
    {
        if s[off + i] != p[i] {
            assert(s@.subrange(off as int, s@.len() as int)[i as int] != p@[i as int]);
            return false;
        }
        i = i + 1;
    }
    assert(s@.subrange(off as int, s@.len() as int) =~= p@);
    true
}

/// `a` sorts strictly before `b`, comparing character by character by code
/// point, a proper prefix first (the order of `str` and of UTF-8 bytes).
pub open spec fn text_lt(a: Seq<char>, b: Seq<char>) -> bool
    decreases a.len(),
{
    if a.len() == 0 {
        b.len() > 0
    } else if b.len() == 0 {
        false
    } else if a[0] != b[0] {
        (a[0] as u32) < (b[0] as u32)
    } else {
        text_lt(a.drop_first(), b.drop_first())
    }
}

proof fn lemma_text_lt_skip(a: Seq<char>, b: Seq<char>, i: int)
    requires
        0 <= i <= a.len(),
        i <= b.len(),
        a.take(i) == b.take(i),
    ensures
        text_lt(a, b) == text_lt(a.skip(i), b.skip(i)),
    decreases i,
{
    if i > 0 {
        assert(a[0] == a.take(i)[0]);
        assert(b[0] == b.take(i)[0]);
        assert(a.drop_first().take(i - 1) =~= a.take(i).drop_first());
        assert(b.drop_first().take(i - 1) =~= b.take(i).drop_first());
        lemma_text_lt_skip(a.drop_first(), b.drop_first(), i - 1);
        assert(a.drop_first().skip(i - 1) =~= a.skip(i));
        assert(b.drop_first().skip(i - 1) =~= b.skip(i));
    } else {
        assert(a.skip(0) =~= a);
        assert(b.skip(0) =~= b);
    }
}

pub fn text_lt_chars(a: &[char], b: &[char]) -> (r: bool)
    ensures
        r == text_lt(a@, b@),
{
    let mut i: usize = 0;
    while i < a.len() && i < b.len() && a[i] == b[i]
        invariant
            i <= a@.len(),
            i <= b@.len(),
            a@.take(i as int) == b@.take(i as int),
        decreases a@.len() - i,
    {
        assert(a@.take(i + 1) =~= a@.take(i as int).push(a@[i as int]));
        assert(b@.take(i + 1) =~= b@.take(i as int).push(b@[i as int]));
        i = i + 1;
    }
    proof {
        lemma_text_lt_skip(a@, b@, i as int);
    }
    if i == a.len() {
        i < b.len()
    } else if i == b.len() {
        false
    } else {
        (a[i] as u32) < (b[i] as u32)
    }
}

/// `{:x}`: lowercase hexadecimal notation of `n`, without leading zeros.
pub open spec fn hex_min(n: nat) -> Seq<char>
    decreases n,
{
    if n < 16 {
        seq![hex_digit(n as int)]
    } else {
        hex_min(n / 16) + seq![hex_digit((n % 16) as int)]
    }
}

/// `{:0w$x}`: `hex_min(n)` padded with zeros on the left to `width` characters.
pub open spec fn hex_padded(n: nat, width: nat) -> Seq<char> {
    let t = hex_min(n);
    if t.len() >= width {
        t
    } else {
        Seq::new((width - t.len()) as nat, |i: int| '0') + t
    }
}

/// Appends `hex_min(n)` to `buf`.
pub fn push_hex(buf: &mut Vec<char>, n: u64)
    ensures
        final(buf)@ == old(buf)@ + hex_min(n as nat),
    decreases n,
{
    if n >= 16 {
        push_hex(buf, n / 16);
    }
    buf.push(hex_digit_char((n % 16) as u8));
}

/// Appends `hex_padded(n, width)` to `buf`.
pub fn push_hex_padded(buf: &mut Vec<char>, n: u64, width: usize)
    ensures
        final(buf)@ == old(buf)@ + hex_padded(n as nat, width as nat),
{
    let mut digits: Vec<char> = Vec::new();
    push_hex(&mut digits, n);
    assert(digits@ =~= hex_min(n as nat));
    let ghost start = buf@;
    if digits.len() < width {
        let pad = width - digits.len();
        let mut i: usize = 0;
        while i < pad
            invariant
                i <= pad,
                buf@ == start + Seq::new(i as nat, |k: int| '0'),
            decreases pad - i,
        {
            buf.push('0');
            i = i + 1;
            assert(buf@ =~= start + Seq::new(i as nat, |k: int| '0'));
        }
    }
    push_chars(buf, digits.as_slice());
    assert(buf@ =~= start + hex_padded(n as nat, width as nat));
}

/// The texts held by a sequence of strings.
pub open spec fn strs_view(v: Seq<String>) -> Seq<Seq<char>> {
    v.map_values(|s: String| s@)
}

/// `s` without every leading repetition of `p` (`str::trim_start_matches`).
pub open spec fn strip_prefix_all(s: Seq<char>, p: Seq<char>) -> Seq<char>
    decreases s.len(),
{
    if p.len() > 0 && p.len() <= s.len() && s.take(p.len() as int) == p {
        strip_prefix_all(s.skip(p.len() as int), p)
    } else {
        s
    }
}

/// The bounds of `strip_prefix_all(s[lo..hi], p)` inside `s` (`str::trim_start_matches`).
pub fn strip_prefix_all_bounds(s: &[char], lo: usize, hi: usize, p: &[char]) -> (r: usize)
    requires
        lo <= hi <= s@.len(),
    ensures
        lo <= r <= hi,
        s@.subrange(r as int, hi as int) == strip_prefix_all(s@.subrange(lo as int, hi as int), p@),
{
    let m = p.len();
    if m == 0 {
        return lo;
    }
    let mut a = lo;
    loop
        invariant
            lo <= a <= hi <= s@.len(),
            m == p@.len(),
            m > 0,
            strip_prefix_all(s@.subrange(lo as int, hi as int), p@) == strip_prefix_all(
                s@.subrange(a as int, hi as int),
                p@,
            ),
        decreases hi - a,
    {
        let ghost w = s@.subrange(a as int, hi as int);
        if hi - a >= m && chars_eq(copy_range(s, a, a + m).as_slice(), p) {
            assert(w.take(m as int) =~= s@.subrange(a as int, a + m));
            assert(w.skip(m as int) =~= s@.subrange(a + m, hi as int));
            a = a + m;
        } else {
            assert(hi - a >= m ==> w.take(m as int) =~= s@.subrange(a as int, a + m));
            return a;
        }
    }
}

/// `s.splitn(n, c)`: the pieces of `s` between its first `n - 1` occurrences
/// of `c`, the last piece holding the rest.
pub open spec fn splitn_char(s: Seq<char>, n: nat, c: char) -> Seq<Seq<char>>
    decreases n,
{
    if n <= 1 {
        seq![s]
    } else {
        match find_from(s, seq![c], 0) {
            Some(i) => seq![s.subrange(0, i)] + splitn_char(s.subrange(i + 1, s.len() as int), (n - 1) as nat, c),
            None => seq![s],
        }
    }
}

/// `s.splitn(n, c)` on characters.
pub fn splitn_chars(s: &[char], n: usize, c: char) -> (r: Vec<Vec<char>>)
    ensures
        seqs_view(r@) == splitn_char(s@, n as nat, c),
    decreases n,
{
    let len = s.len();
    if n <= 1 {
        let mut r: Vec<Vec<char>> = Vec::new();
        r.push(copy_range(s, 0, len));
        assert(s@.subrange(0, len as int) =~= s@);
        assert(seqs_view(r@) =~= seq![s@]);
        return r;
    }
    match find_char(s, c, 0) {
        Some(i) => {
            proof {
                lemma_find_from(s@, seq![c], 0);
                assert(occurs_at(s@, seq![c], i as int));
                assert(seq![c].len() == 1);
            }
            let head = copy_range(s, 0, i);
            let rest = copy_range(s, i + 1, len);
            let tail = splitn_chars(rest.as_slice(), n - 1, c);
            let mut r: Vec<Vec<char>> = Vec::new();
            r.push(head);
            let mut k: usize = 0;
            while k < tail.len()
                invariant
                    k <= tail@.len(),
                    seqs_view(r@) == seq![head@] + seqs_view(tail@).take(k as int),
                decreases tail@.len() - k,
            {
                let piece = copy_range(tail[k].as_slice(), 0, tail[k].len());
                assert(tail@[k as int]@.subrange(0, tail@[k as int]@.len() as int) =~= tail@[k as int]@);
                assert(seqs_view(tail@)[k as int] == piece@);
                let ghost before = seqs_view(r@);
                r.push(piece);
                assert(seqs_view(r@) =~= before.push(piece@));
                assert(seqs_view(tail@).take(k + 1) =~= seqs_view(tail@).take(k as int).push(piece@));
                k = k + 1;
                assert(seqs_view(r@) =~= seq![head@] + seqs_view(tail@).take(k as int));
            }
            assert(seqs_view(tail@).take(k as int) =~= seqs_view(tail@));
            r
        },
        None => {
            let mut r: Vec<Vec<char>> = Vec::new();
            r.push(copy_range(s, 0, len));
            assert(s@.subrange(0, len as int) =~= s@);
            assert(seqs_view(r@) =~= seq![s@]);
            r
        },
    }
}

/// `usize::from_str`: an optional `+` and at least one ASCII digit, within range.
pub open spec fn parse_usize(s: Seq<char>) -> Option<usize> {
    let t = unsigned_part(s, false);
    if t.len() > 0 && all_digits(t) && decimal_value(t) <= usize::MAX {
        Some(decimal_value(t) as usize)
    } else {
        None
    }
}

/// `usize::from_str` on characters.
pub fn parse_usize_chars(s: &[char]) -> (r: Option<usize>)
    ensures
        r == parse_usize(s@),
{
    let start: usize = if s.len() > 0 && s[0] == '+' {
        1
    } else {
        0
    };
    assert(unsigned_part(s@, false) =~= s@.subrange(start as int, s@.len() as int));
    match digits_value(s, start, s.len(), usize::MAX as u64) {
        Some(v) => Some(v as usize),
        None => None,
    }
}

/// `find_from` on `p + r` from inside `r` finds what it finds in `r`, shifted.
pub proof fn lemma_find_from_shift(p: Seq<char>, r: Seq<char>, pat: Seq<char>, k: int)
    requires
        0 <= k,
    ensures
        match find_from(r, pat, k) {
            Some(i) => find_from(p + r, pat, p.len() + k) == Some(i + p.len()),
            None => find_from(p + r, pat, p.len() + k) is None,
        },
    decreases r.len() + 1 - k,
{
    let s = p + r;
    if k + pat.len() <= r.len() {
        assert(s.subrange(p.len() + k, p.len() + k + pat.len()) =~= r.subrange(k, k + pat.len()));
        if !occurs_at(r, pat, k) {
            lemma_find_from_shift(p, r, pat, k + 1);
        }
    }
}

/// The lines of `p + r` from inside `r` are those of `r`.
pub proof fn lemma_lines_shift(p: Seq<char>, r: Seq<char>, k: int)
    requires
        0 <= k,
    ensures
        lines_from(p + r, p.len() + k) == lines_from(r, k),
    decreases r.len() + 1 - k,
{
    let s = p + r;
    if k < r.len() {
        lemma_find_from_shift(p, r, seq!['\n'], k);
        match find_from(r, seq!['\n'], k) {
            Some(i) => {
                lemma_find_from(r, seq!['\n'], k);
                assert(s.subrange(p.len() + k, i + p.len()) =~= r.subrange(k, i));
                lemma_lines_shift(p, r, i + 1);
                assert(p.len() + (i + 1) == i + p.len() + 1);
            },
            None => {
                assert(s.subrange(p.len() + k, s.len() as int) =~= r.subrange(k, r.len() as int));
            },
        }
    }
}

/// Inside a text that ends with a line break, the next line break from a
/// position inside it is found inside it, whatever follows.
proof fn lemma_find_newline_within(p: Seq<char>, r: Seq<char>, pos: int)
    requires
        0 <= pos < p.len(),
        p.last() == '\n',
    ensures
        find_from(p + r, seq!['\n'], pos) == find_from(p, seq!['\n'], pos),
        find_from(p, seq!['\n'], pos) matches Some(i) && i < p.len(),
    decreases p.len() - pos,
{
    let s = p + r;
    assert(s.subrange(pos, pos + 1) =~= p.subrange(pos, pos + 1));
    if p[pos] == '\n' {
        assert(p.subrange(pos, pos + 1) =~= seq!['\n']);
    } else {
        assert(p.subrange(pos, pos + 1)[0] != '\n');
        assert(p.subrange(pos, pos + 1) != seq!['\n']);
        if pos + 1 == p.len() {
            assert(p[pos] == p.last());
        }
        lemma_find_newline_within(p, r, pos + 1);
    }
}

/// The lines of `p + r` from a line start inside `p`, where `p` is empty or
/// ends with a line break, are those of `p` from there followed by those of `r`.
proof fn lemma_lines_prefix(p: Seq<char>, r: Seq<char>, pos: int)
    requires
        0 <= pos <= p.len(),
        p.len() == 0 || p.last() == '\n',
    ensures
        lines_from(p + r, pos) == lines_from(p, pos) + lines_from(r, 0),
    decreases p.len() - pos,
{
    let s = p + r;
    if pos == p.len() {
        lemma_lines_shift(p, r, 0);
        assert(lines_from(p, pos) =~= Seq::<Seq<char>>::empty());
        assert(Seq::<Seq<char>>::empty() + lines_from(r, 0) =~= lines_from(r, 0));
    } else {
        lemma_find_newline_within(p, r, pos);
        let i = find_from(p, seq!['\n'], pos)->Some_0;
        lemma_find_from(p, seq!['\n'], pos);
        assert(s.subrange(pos, i) =~= p.subrange(pos, i));
        lemma_lines_prefix(p, r, i + 1);
        assert(lines_from(s, pos) == seq![strip_cr(p.subrange(pos, i))] + lines_from(s, i + 1));
        assert(lines_from(p, pos) == seq![strip_cr(p.subrange(pos, i))] + lines_from(p, i + 1));
        assert(seq![strip_cr(p.subrange(pos, i))] + (lines_from(p, i + 1) + lines_from(r, 0)) =~= (seq![
            strip_cr(p.subrange(pos, i)),
        ] + lines_from(p, i + 1)) + lines_from(r, 0));
    }
}

/// The lines of `p + r`, where `p` is empty or ends with a line break, are
/// the lines of `p` followed by those of `r`.
pub proof fn lemma_lines_concat(p: Seq<char>, r: Seq<char>)
    requires
        p.len() == 0 || p.last() == '\n',
    ensures
        lines(p + r) == lines(p) + lines(r),
{
    lemma_lines_prefix(p, r, 0);
}

/// `find_from` gives the first occurrence.
proof fn lemma_find_first(s: Seq<char>, pat: Seq<char>, i: int, j: int)
    requires
        0 <= i <= j,
        occurs_at(s, pat, j),
        forall|k: int| i <= k < j ==> !occurs_at(s, pat, k),
    ensures
        find_from(s, pat, i) == Some(j),
    decreases j - i,
{
    if i < j {
        lemma_find_first(s, pat, i + 1, j);
    }
}

/// The first line of `l`, a line break and anything else, is `l` itself,
/// where `l` holds no line break and does not end with a carriage return.
pub proof fn lemma_first_line_is(l: Seq<char>, rest: Seq<char>)
    requires
        forall|k: int| 0 <= k < l.len() ==> l[k] != '\n',
        l.len() == 0 || l.last() != '\r',
    ensures
        lines(l + seq!['\n'] + rest).len() > 0,
        lines(l + seq!['\n'] + rest)[0] == l,
{
    let s = l + seq!['\n'] + rest;
    assert(s.subrange(l.len() as int, l.len() + 1int) =~= seq!['\n']);
    assert forall|k: int| 0 <= k < l.len() implies !occurs_at(s, seq!['\n'], k) by {
        assert(s.subrange(k, k + 1)[0] == l[k]);
    }
    lemma_find_first(s, seq!['\n'], 0, l.len() as int);
    assert(s.subrange(0, l.len() as int) =~= l);
}

/// The order of texts is transitive.
pub proof fn lemma_text_lt_transitive(a: Seq<char>, b: Seq<char>, c: Seq<char>)
    requires
        text_lt(a, b),
        text_lt(b, c),
    ensures
        text_lt(a, c),
    decreases a.len(),
{
    if a.len() > 0 && b.len() > 0 && c.len() > 0 && a[0] == b[0] && b[0] == c[0] {
        lemma_text_lt_transitive(a.drop_first(), b.drop_first(), c.drop_first());
    }
}

/// No text sorts before itself.
pub proof fn lemma_text_lt_irreflexive(a: Seq<char>)
    ensures
        !text_lt(a, a),
    decreases a.len(),
{
    if a.len() > 0 {
        lemma_text_lt_irreflexive(a.drop_first());
    }
}

} // verus!

verus! {

/// `trim_start(s)` is what follows the leading whitespace of `s`.
pub proof fn lemma_trim_start_shape(s: Seq<char>)
    ensures
        trim_start(s).len() <= s.len(),
        trim_start(s) == s.skip(s.len() - trim_start(s).len()),
        forall|k: int| 0 <= k < s.len() - trim_start(s).len() ==> is_ws(s[k]),
        trim_start(s).len() > 0 ==> !is_ws(trim_start(s)[0]),
    decreases s.len(),
{
    if s.len() > 0 && is_ws(s[0]) {
        let d = s.drop_first();
        lemma_trim_start_shape(d);
        let t = trim_start(s);
        assert forall|k: int| 0 <= k < s.len() - t.len() implies is_ws(s[k]) by {
            if k > 0 {
                assert(s[k] == d[k - 1]);
            }
        }
        assert(s.skip(s.len() - t.len()) =~= d.skip(d.len() - t.len()));
    } else {
        assert(s.skip(0) =~= s);
    }
}

/// `trim_end(s)` is what precedes the trailing whitespace of `s`.
pub proof fn lemma_trim_end_shape(s: Seq<char>)
    ensures
        trim_end(s).len() <= s.len(),
        trim_end(s) == s.take(trim_end(s).len() as int),
        forall|k: int| trim_end(s).len() <= k < s.len() ==> is_ws(s[k]),
        trim_end(s).len() > 0 ==> !is_ws(trim_end(s).last()),
    decreases s.len(),
{
    if s.len() > 0 && is_ws(s.last()) {
        let d = s.drop_last();
        lemma_trim_end_shape(d);
        let t = trim_end(s);
        assert forall|k: int| t.len() <= k < s.len() implies is_ws(s[k]) by {
            if k < s.len() - 1 {
                assert(s[k] == d[k]);
            }
        }
        assert(s.take(t.len() as int) =~= d.take(t.len() as int));
    } else {
        assert(s.take(s.len() as int) =~= s);
    }
}

/// `trim_start` stops at the first character that is not whitespace.
pub proof fn lemma_trim_start_at(s: Seq<char>, a: int)
    requires
        0 <= a < s.len(),
        !is_ws(s[a]),
        forall|k: int| 0 <= k < a ==> is_ws(s[k]),
    ensures
        trim_start(s) == s.skip(a),
    decreases a,
{
    if a > 0 {
        let d = s.drop_first();
        assert forall|k: int| 0 <= k < a - 1 implies is_ws(d[k]) by {
            assert(d[k] == s[k + 1]);
        }
        lemma_trim_start_at(d, a - 1);
        assert(d.skip(a - 1) =~= s.skip(a));
    } else {
        assert(s.skip(0) =~= s);
    }
}

/// `trim_end` stops at the last character that is not whitespace.
pub proof fn lemma_trim_end_at(s: Seq<char>, b: int)
    requires
        0 < b <= s.len(),
        !is_ws(s[b - 1]),
        forall|k: int| b <= k < s.len() ==> is_ws(s[k]),
    ensures
        trim_end(s) == s.take(b),
    decreases s.len() - b,
{
    if b < s.len() {
        let d = s.drop_last();
        assert(is_ws(s[s.len() - 1]));
        assert forall|k: int| b <= k < d.len() implies is_ws(d[k]) by {
            assert(d[k] == s[k]);
        }
        lemma_trim_end_at(d, b);
        assert(d.take(b) =~= s.take(b));
    } else {
        assert(s.take(b) =~= s);
    }
}

/// Trimming what `trim_end` left is trimming the whole.
pub proof fn lemma_trim_trim_end(s: Seq<char>)
    ensures
        trim(trim_end(s)) == trim(s),
{
    lemma_trim_end_shape(s);
    lemma_trim_start_shape(s);
    let e = trim_end(s).len() as int;
    let ts = trim_start(s);
    let a = s.len() - ts.len();
    if e == 0 {
        assert(trim_end(s) =~= Seq::<char>::empty());
        if ts.len() > 0 {
            assert(ts[0] == s[a]);
        }
        assert(ts.len() == 0);
    } else {
        assert(s[e - 1] == trim_end(s).last());
        assert(a <= e - 1) by {
            if a > e - 1 {
                assert(is_ws(s[e - 1]));
            }
        }
        let t = s.take(e);
        assert forall|k: int| 0 <= k < a implies is_ws(t[k]) by {
            assert(t[k] == s[k]);
        }
        if !is_ws(s[a]) {
            assert(t[a] == s[a]);
            lemma_trim_start_at(t, a);
            let m = t.skip(a);
            assert(m[e - a - 1] == s[e - 1]);
            lemma_trim_end_at(m, e - a);
            assert(m.take(e - a) =~= m);
            let n = s.skip(a);
            assert(n[e - a - 1] == s[e - 1]);
            assert forall|k: int| e - a <= k < n.len() implies is_ws(n[k]) by {
                assert(n[k] == s[k + a]);
            }
            lemma_trim_end_at(n, e - a);
            assert(n.take(e - a) =~= m);
        } else {
            assert(ts.len() > 0) by {
                if ts.len() == 0 {
                    assert(is_ws(s[e - 1]));
                }
            }
            assert(ts[0] == s[a]);
        }
    }
}

/// Trimming ignores a final carriage return.
pub proof fn lemma_trim_strip_cr(s: Seq<char>)
    ensures
        trim_end(strip_cr(s)) == trim_end(s),
        trim(strip_cr(s)) == trim(s),
{
    lemma_trim_trim_end(s);
    lemma_trim_trim_end(strip_cr(s));
}

/// `trim` of a text that starts with a character other than whitespace and
/// holds more than whitespace after `p`: `p` and `y` without its trailing
/// whitespace.
pub proof fn lemma_trim_after_mark(p: Seq<char>, y: Seq<char>)
    requires
        p.len() > 0,
        !is_ws(p[0]),
        trim(y).len() > 0,
    ensures
        trim(p + y) == p + trim_end(y),
{
    let s = p + y;
    assert(s[0] == p[0]);
    assert(trim_start(s) == s);
    lemma_trim_trim_end(y);
    lemma_trim_end_shape(y);
    let e = trim_end(y).len() as int;
    assert(e > 0) by {
        if e == 0 {
            assert(trim_end(y) =~= Seq::<char>::empty());
            lemma_trim_start_shape(Seq::<char>::empty());
            assert(trim_start(Seq::<char>::empty()) =~= Seq::<char>::empty());
        }
    }
    assert(s[p.len() + e - 1] == y[e - 1]);
    assert(y[e - 1] == trim_end(y).last());
    assert forall|k: int| p.len() + e <= k < s.len() implies is_ws(s[k]) by {
        assert(s[k] == y[k - p.len()]);
    }
    lemma_trim_end_at(s, p.len() + e);
    assert(s.take(p.len() + e) =~= p + trim_end(y));
}

/// The first line of `l`, a line break and anything else is `l` without a
/// final carriage return, where `l` holds no line break.
pub proof fn lemma_first_line_cr(l: Seq<char>, rest: Seq<char>)
    requires
        forall|k: int| 0 <= k < l.len() ==> l[k] != '\n',
    ensures
        lines(l + seq!['\n'] + rest).len() > 0,
        lines(l + seq!['\n'] + rest)[0] == strip_cr(l),
{
    let s = l + seq!['\n'] + rest;
    assert(s.subrange(l.len() as int, l.len() + 1int) =~= seq!['\n']);
    assert forall|k: int| 0 <= k < l.len() implies !occurs_at(s, seq!['\n'], k) by {
        assert(s.subrange(k, k + 1)[0] == l[k]);
    }
    lemma_find_first(s, seq!['\n'], 0, l.len() as int);
    assert(s.subrange(0, l.len() as int) =~= l);
}

/// The lines of a text without a line break: the text itself, where it is not empty.
pub proof fn lemma_single_line(l: Seq<char>)
    requires
        l.len() > 0,
        forall|k: int| 0 <= k < l.len() ==> l[k] != '\n',
    ensures
        lines(l) == seq![l],
{
    lemma_find_from(l, seq!['\n'], 0);
    if find_from(l, seq!['\n'], 0) is Some {
        let j = find_from(l, seq!['\n'], 0)->Some_0;
        assert(l.subrange(j, j + 1)[0] == l[j]);
    }
    assert(l.subrange(0, l.len() as int) =~= l);
}

/// `replace_char` of a concatenation is the concatenation of the replacements.
pub proof fn lemma_replace_char_concat(a: Seq<char>, b: Seq<char>, c: char, rep: Seq<char>)
    ensures
        replace_char(a + b, c, rep) == replace_char(a, c, rep) + replace_char(b, c, rep),
    decreases b.len(),
{
    if b.len() == 0 {
        assert(a + b =~= a);
        assert(replace_char(b, c, rep) =~= Seq::<char>::empty());
        assert(replace_char(a, c, rep) + Seq::<char>::empty() =~= replace_char(a, c, rep));
    } else {
        assert((a + b).drop_last() =~= a + b.drop_last());
        assert((a + b).last() == b.last());
        lemma_replace_char_concat(a, b.drop_last(), c, rep);
        let tail = if b.last() == c {
            rep
        } else {
            seq![b.last()]
        };
        assert(replace_char(a, c, rep) + replace_char(b.drop_last(), c, rep) + tail =~= replace_char(
            a,
            c,
            rep,
        ) + (replace_char(b.drop_last(), c, rep) + tail));
    }
}

/// `replace_char` leaves a text without `c` as it is.
pub proof fn lemma_replace_char_absent(a: Seq<char>, c: char, rep: Seq<char>)
    requires
        forall|k: int| 0 <= k < a.len() ==> a[k] != c,
    ensures
        replace_char(a, c, rep) == a,
    decreases a.len(),
{
    if a.len() > 0 {
        lemma_replace_char_absent(a.drop_last(), c, rep);
        assert(a.drop_last().push(a.last()) =~= a);
        assert(a.drop_last() + seq![a.last()] =~= a);
    }
}

/// The non-blank trimmed lines of two runs of lines, one after the other.
pub proof fn lemma_nonblank_trimmed_concat(a: Seq<Seq<char>>, b: Seq<Seq<char>>)
    ensures
        nonblank_trimmed(a + b) == nonblank_trimmed(a) + nonblank_trimmed(b),
    decreases a.len(),
{
    if a.len() == 0 {
        assert(a + b =~= b);
        assert(Seq::<Seq<char>>::empty() + nonblank_trimmed(b) =~= nonblank_trimmed(b));
    } else {
        assert((a + b)[0] == a[0]);
        assert((a + b).drop_first() =~= a.drop_first() + b);
        lemma_nonblank_trimmed_concat(a.drop_first(), b);
        let h = if trim(a[0]).len() == 0 {
            Seq::<Seq<char>>::empty()
        } else {
            seq![trim(a[0])]
        };
        assert(h + (nonblank_trimmed(a.drop_first()) + nonblank_trimmed(b)) =~= (h
            + nonblank_trimmed(a.drop_first())) + nonblank_trimmed(b));
    }
}

} // verus!

verus! {

/// `split_from` on `p + r` from inside `r` splits as `r` does.
pub proof fn lemma_split_shift(p: Seq<char>, r: Seq<char>, sep: Seq<char>, k: int)
    requires
        0 <= k <= r.len(),
        sep.len() > 0,
    ensures
        split_from(p + r, sep, p.len() + k) == split_from(r, sep, k),
    decreases r.len() + 1 - k,
{
    let s = p + r;
    lemma_find_from_shift(p, r, sep, k);
    match find_from(r, sep, k) {
        Some(i) => {
            lemma_find_from(r, sep, k);
            assert(s.subrange(p.len() + k, i + p.len()) =~= r.subrange(k, i));
            lemma_split_shift(p, r, sep, i + sep.len());
            assert(p.len() + (i + sep.len()) == i + p.len() + sep.len());
        },
        None => {
            assert(s.subrange(p.len() + k, s.len() as int) =~= r.subrange(k, r.len() as int));
        },
    }
}

/// Splitting `a`, a separator made of one repeated character, and `b`, where
/// `a` does not end with that character: the pieces of `a` from `pos` on,
/// then those of `b`.
pub proof fn lemma_split_joined(a: Seq<char>, sep: Seq<char>, b: Seq<char>, pos: int)
    requires
        0 <= pos <= a.len(),
        sep.len() > 0,
        forall|j: int| 0 <= j < sep.len() ==> #[trigger] sep[j] == sep[0],
        a.len() == 0 || a.last() != sep[0],
    ensures
        split_from(a + sep + b, sep, pos) == split_from(a, sep, pos) + split_from(b, sep, 0),
    decreases a.len() - pos,
{
    let s = a + sep + b;
    lemma_find_from(a, sep, pos);
    // Where the separator occurs in `a`, it occurs in `s`; nothing else
    // occurs in `s` before the end of `a`.
    assert forall|k: int| pos <= k < a.len() && !occurs_at(a, sep, k) implies !occurs_at(s, sep, k) by {
        if occurs_at(s, sep, k) {
            if k + sep.len() <= a.len() {
                assert(s.subrange(k, k + sep.len()) =~= a.subrange(k, k + sep.len()));
            } else {
                assert(s[a.len() - 1] == s.subrange(k, k + sep.len())[a.len() - 1 - k]);
                assert(s[a.len() - 1] == a.last());
            }
        }
    }
    match find_from(a, sep, pos) {
        Some(i) => {
            assert(s.subrange(i, i + sep.len()) =~= a.subrange(i, i + sep.len()));
            lemma_find_first(s, sep, pos, i);
            assert(s.subrange(pos, i) =~= a.subrange(pos, i));
            lemma_split_joined(a, sep, b, i + sep.len());
            assert(seq![a.subrange(pos, i)] + split_from(a, sep, i + sep.len()) + split_from(b, sep, 0)
                =~= seq![a.subrange(pos, i)] + (split_from(a, sep, i + sep.len()) + split_from(
                b,
                sep,
                0,
            )));
        },
        None => {
            assert(s.subrange(a.len() as int, (a.len() + sep.len()) as int) =~= sep);
            lemma_find_first(s, sep, pos, a.len() as int);
            assert(s.subrange(pos, a.len() as int) =~= a.subrange(pos, a.len() as int));
            assert(s =~= (a + sep) + b);
            lemma_split_shift(a + sep, b, sep, 0);
        },
    }
}

} // verus!

verus! {

/// A text that holds `pat` between two others contains it.
pub proof fn lemma_contains_middle(pre: Seq<char>, pat: Seq<char>, post: Seq<char>)
    ensures
        contains(pre + pat + post, pat),
{
    let s = pre + pat + post;
    assert(s.subrange(pre.len() as int, (pre.len() + pat.len()) as int) =~= pat);
    assert(occurs_at(s, pat, pre.len() as int));
}

/// The last `c` of `s` is at `k` where `s[k]` is `c` and none follows.
pub proof fn lemma_last_index_at(s: Seq<char>, c: char, k: int)
    requires
        0 <= k < s.len(),
        s[k] == c,
        forall|j: int| k < j < s.len() ==> s[j] != c,
    ensures
        last_index_of(s, c) == Some(k),
    decreases s.len(),
{
    if k < s.len() - 1 {
        let d = s.drop_last();
        assert forall|j: int| k < j < d.len() implies d[j] != c by {
            assert(d[j] == s[j]);
        }
        lemma_last_index_at(d, c, k);
    }
}

/// The lines of a line and a line break: that line alone, where it holds no
/// line break and does not end with a carriage return.
pub proof fn lemma_one_line(l: Seq<char>)
    requires
        forall|k: int| 0 <= k < l.len() ==> l[k] != '\n',
        l.len() == 0 || l.last() != '\r',
    ensures
        lines(l + seq!['\n']) == seq![l],
{
    let s = l + seq!['\n'];
    lemma_first_line_cr(l, Seq::<char>::empty());
    assert(l + seq!['\n'] + Seq::<char>::empty() =~= s);
    assert(s.subrange(l.len() as int, l.len() + 1int) =~= seq!['\n']);
    assert forall|k: int| 0 <= k < l.len() implies !occurs_at(s, seq!['\n'], k) by {
        assert(s.subrange(k, k + 1)[0] == l[k]);
    }
    lemma_find_first(s, seq!['\n'], 0, l.len() as int);
    assert(lines_from(s, l.len() + 1int) =~= Seq::<Seq<char>>::empty());
    assert(s.subrange(0, l.len() as int) =~= l);
}

} // verus!
