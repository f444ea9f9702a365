//! The decisions of a synchronisation: how clippings are grouped by book,
//! which items still need writing, how results are counted and reported,
//! and which notebook files are exported and filed where.
//!
//! Reading the device and the database, and writing the vault, is left to
//! the caller.

use vstd::prelude::*;

use crate::generator::markdown::{book_after, book_update, opt_str, vocab_update, MarkdownGenerator};
use crate::models::{Clipping, ClippingType, ClippingView, SyncProgress, SyncStats, VocabLookup, VocabView};
use crate::pattern::{lowercase, to_lowercase};
use crate::parsers::notebook::lower_file_name;
use crate::paths::{
    extension, file_name, join_path, join_path_str, parent, path_extension, path_parent,
    path_strip_prefix, strip_prefix,
};
use crate::text::{chars_of, decimal_text, push_decimal, push_str, string_from_chars, strs_view};

verus! {

/// The clippings of one book: its title, the author of its first clipping,
/// and the positions of its clippings in the list, in order.
pub struct BookGroup {
    pub title: String,
    pub author: Option<String>,
    pub members: Vec<usize>,
}

pub open spec fn clippings_view(cs: Seq<Clipping>) -> Seq<ClippingView> {
    cs.map_values(|c: Clipping| c@)
}

pub open spec fn group_view(g: BookGroup) -> (Seq<char>, Option<Seq<char>>, Seq<int>) {
    (g.title@, g.author.deep_view(), g.members@.map_values(|i: usize| i as int))
}

pub open spec fn groups_view(gs: Seq<BookGroup>) -> Seq<(Seq<char>, Option<Seq<char>>, Seq<int>)> {
    gs.map_values(|g: BookGroup| group_view(g))
}

/// The position of the group titled `t`, searching from `k` on.
pub open spec fn group_slot(g: Seq<(Seq<char>, Option<Seq<char>>, Seq<int>)>, t: Seq<char>, k: int) -> Option<
    int,
>
    decreases g.len() - k,
{
    if k < 0 || k >= g.len() {
        None
    } else if g[k].0 == t {
        Some(k)
    } else {
        group_slot(g, t, k + 1)
    }
}

/// The first `n` clippings grouped by book title: groups in the order their
/// titles first occur, each with the author of its first clipping and the
/// positions of its clippings in order.
pub open spec fn group_books(cs: Seq<ClippingView>, n: nat) -> Seq<(Seq<char>, Option<Seq<char>>, Seq<int>)>
    decreases n,
{
    if n == 0 {
        seq![]
    } else {
        let g = group_books(cs, (n - 1) as nat);
        let c = cs[n - 1];
        match group_slot(g, c.book_title, 0) {
            Some(k) => g.update(k, (g[k].0, g[k].1, g[k].2.push(n - 1))),
            None => g.push((c.book_title, c.author, seq![n - 1])),
        }
    }
}

fn find_group(groups: &Vec<BookGroup>, title: &String) -> (r: Option<usize>)
    ensures
        match r {
            Some(k) => k < groups@.len() && group_slot(groups_view(groups@), title@, 0) == Some(
                k as int,
            ),
            None => group_slot(groups_view(groups@), title@, 0) is None,
        },
{
    let ghost gv = groups_view(groups@);
    let mut k: usize = 0;
    while k < groups.len()
        invariant
            k <= groups@.len(),
            gv == groups_view(groups@),
            group_slot(gv, title@, 0) == group_slot(gv, title@, k as int),
        decreases groups@.len() - k,
    {
        assert(gv[k as int] == group_view(groups@[k as int]));
        if groups[k].title == *title {
            return Some(k);
        }
        k = k + 1;
    }
    None
}

fn copy_indices(v: &Vec<usize>) -> (r: Vec<usize>)
    ensures
        r@ == v@,
{
    let mut r: Vec<usize> = Vec::new();
    let mut i: usize = 0;
    while i < v.len()
        invariant
            i <= v@.len(),
            r@ == v@.take(i as int),
        decreases v@.len() - i,
    {
        r.push(v[i]);
        i = i + 1;
        assert(r@ =~= v@.take(i as int));
    }
    assert(v@.take(i as int) =~= v@);
    r
}

/// Groups clippings by book title, in the order the titles first occur.
pub fn group_by_book(clippings: &Vec<Clipping>) -> (r: Vec<BookGroup>)
    ensures
        groups_view(r@) == group_books(clippings_view(clippings@), clippings@.len()),
{
    let ghost cv = clippings_view(clippings@);
    let mut groups: Vec<BookGroup> = Vec::new();
    let mut i: usize = 0;
    assert(groups_view(groups@) =~= Seq::<(Seq<char>, Option<Seq<char>>, Seq<int>)>::empty());
    while i < clippings.len()
        invariant
            i <= clippings@.len(),
            cv == clippings_view(clippings@),
            groups_view(groups@) == group_books(cv, i as nat),
        decreases clippings@.len() - i,
    {
        let c = &clippings[i];
        assert(cv[i as int] == c@);
        let ghost before = groups_view(groups@);
        match find_group(&groups, &c.book_title) {
            Some(k) => {
                let mut m = copy_indices(&groups[k].members);
                m.push(i);
                let g = BookGroup { title: groups[k].title.clone(), author: groups[k].author.clone(), members: m };
                assert(group_view(g) == (before[k as int].0, before[k as int].1, before[k as int].2.push(i as int))) by {
                    assert(before[k as int] == group_view(groups@[k as int]));
                    assert(g.members@.map_values(|x: usize| x as int) =~= groups@[k as int].members@.map_values(|x: usize| x as int).push(i as int));
                    assert(g.author.deep_view() == groups@[k as int].author.deep_view()) by {
                        match groups@[k as int].author {
                            Some(a) => {},
                            None => {},
                        }
                    }
                }
                groups.set(k, g);
                assert(groups_view(groups@) =~= before.update(k as int, group_view(g)));
            },
            None => {
                let mut m: Vec<usize> = Vec::new();
                m.push(i);
                let g = BookGroup { title: c.book_title.clone(), author: c.author.clone(), members: m };
                assert(group_view(g) == (c@.book_title, c@.author, seq![i as int])) by {
                    assert(g.members@.map_values(|x: usize| x as int) =~= seq![i as int]);
                    assert(g.author.deep_view() == c.author.deep_view()) by {
                        match c.author {
                            Some(a) => {},
                            None => {},
                        }
                    }
                }
                groups.push(g);
                assert(groups_view(groups@) =~= before.push(group_view(g)));
            },
        }
        i = i + 1;
    }
    groups
}

proof fn lemma_group_slot(g: Seq<(Seq<char>, Option<Seq<char>>, Seq<int>)>, t: Seq<char>, k: int)
    requires
        0 <= k,
    ensures
        group_slot(g, t, k) matches Some(j) ==> k <= j < g.len() && g[j].0 == t,
        group_slot(g, t, k) is None ==> forall|j: int| k <= j < g.len() ==> g[j].0 != t,
    decreases g.len() - k,
{
    if k < g.len() && g[k].0 != t {
        lemma_group_slot(g, t, k + 1);
    }
}

/// Grouping by book puts every clipping into exactly one group, the one of
/// its title: the groups' titles differ, each group holds, in increasing
/// order, positions of clippings with its title, every clipping's position
/// is in the group of its title, and a group's author is that of its first
/// clipping.
pub proof fn lemma_group_books(cs: Seq<ClippingView>, n: nat)
    requires
        n <= cs.len(),
    ensures
        forall|a: int, b: int|
            0 <= a < b < group_books(cs, n).len() ==> #[trigger] group_books(cs, n)[a].0
                != #[trigger] group_books(cs, n)[b].0,
        forall|k: int, j: int|
            0 <= k < group_books(cs, n).len() && 0 <= j < group_books(cs, n)[k].2.len() ==> {
                let m = #[trigger] group_books(cs, n)[k].2[j];
                0 <= m < n && cs[m].book_title == group_books(cs, n)[k].0
            },
        forall|k: int, j1: int, j2: int|
            0 <= k < group_books(cs, n).len() && 0 <= j1 < j2 < group_books(cs, n)[k].2.len()
                ==> #[trigger] group_books(cs, n)[k].2[j1] < #[trigger] group_books(cs, n)[k].2[j2],
        forall|i: int|
            #![trigger cs[i]]
            0 <= i < n ==> exists|k: int|
                0 <= k < group_books(cs, n).len() && #[trigger] group_books(cs, n)[k].0
                    == cs[i].book_title && group_books(cs, n)[k].2.contains(i),
        forall|k: int|
            0 <= k < group_books(cs, n).len() ==> #[trigger] group_books(cs, n)[k].2.len() > 0
                && group_books(cs, n)[k].1 == cs[group_books(cs, n)[k].2[0]].author,
    decreases n,
{
    if n > 0 {
        lemma_group_books(cs, (n - 1) as nat);
        let g = group_books(cs, (n - 1) as nat);
        let c = cs[n - 1];
        lemma_group_slot(g, c.book_title, 0);
        let r = group_books(cs, n);
        match group_slot(g, c.book_title, 0) {
            Some(s) => {
                assert(r == g.update(s, (g[s].0, g[s].1, g[s].2.push(n - 1))));
                assert forall|i: int| #![trigger cs[i]] 0 <= i < n implies exists|k: int|
                    0 <= k < r.len() && #[trigger] r[k].0 == cs[i].book_title && r[k].2.contains(i) by {
                    if i == n - 1 {
                        assert(r[s].2[r[s].2.len() - 1] == i);
                        assert(r[s].0 == cs[i].book_title);
                    } else {
                        let k = choose|k: int|
                            0 <= k < g.len() && #[trigger] g[k].0 == cs[i].book_title && g[k].2.contains(i);
                        let j = choose|j: int| 0 <= j < g[k].2.len() && g[k].2[j] == i;
                        assert(r[k].2[j] == i);
                        assert(r[k].0 == cs[i].book_title);
                    }
                }
                assert forall|k: int, j1: int, j2: int|
                    0 <= k < r.len() && 0 <= j1 < j2 < r[k].2.len() implies #[trigger] r[k].2[j1]
                    < #[trigger] r[k].2[j2] by {
                    if k == s && j2 == r[k].2.len() - 1 {
                        assert(g[k].2[j1] < n - 1);
                    }
                }
            },
            None => {
                assert(r == g.push((c.book_title, c.author, seq![n - 1])));
                assert forall|i: int| #![trigger cs[i]] 0 <= i < n implies exists|k: int|
                    0 <= k < r.len() && #[trigger] r[k].0 == cs[i].book_title && r[k].2.contains(i) by {
                    if i == n - 1 {
                        assert(r[g.len() as int].2[0] == i);
                        assert(r[g.len() as int].0 == cs[i].book_title);
                    } else {
                        let k = choose|k: int|
                            0 <= k < g.len() && #[trigger] g[k].0 == cs[i].book_title && g[k].2.contains(i);
                        let j = choose|j: int| 0 <= j < g[k].2.len() && g[k].2[j] == i;
                        assert(r[k].2[j] == i);
                        assert(r[k].0 == cs[i].book_title);
                    }
                }
            },
        }
    }
}

/// The members still to write: all of them where the book's file does not
/// exist yet, else those not yet recorded as synchronised (`synced[j]` for
/// member `j`).
pub open spec fn pending_members(members: Seq<usize>, file_exists: bool, synced: Seq<bool>) -> Seq<usize>
    decreases members.len(),
{
    if !file_exists {
        members
    } else if members.len() == 0 {
        seq![]
    } else {
        let prev = pending_members(members.drop_last(), file_exists, synced);
        if members.len() - 1 < synced.len() && synced[members.len() - 1] {
            prev
        } else {
            prev.push(members.last())
        }
    }
}

/// The members of a book that still need writing. Where a lookup of the
/// synchronised state failed, the caller passes `false` for it.
pub fn pending(members: &Vec<usize>, file_exists: bool, synced: &Vec<bool>) -> (r: Vec<usize>)
    ensures
        r@ == pending_members(members@, file_exists, synced@),
{
    if !file_exists {
        return copy_indices(members);
    }
    let mut r: Vec<usize> = Vec::new();
    let mut j: usize = 0;
    assert(members@.take(0) =~= Seq::<usize>::empty());
    while j < members.len()
        invariant
            j <= members@.len(),
            file_exists,
            r@ == pending_members(members@.take(j as int), file_exists, synced@),
        decreases members@.len() - j,
    {
        assert(members@.take(j + 1).drop_last() =~= members@.take(j as int));
        if !(j < synced.len() && synced[j]) {
            r.push(members[j]);
        }
        j = j + 1;
    }
    assert(members@.take(j as int) =~= members@);
    r
}

/// How many of the clippings at positions `idx` are of type `t`.
pub open spec fn count_of_type(cs: Seq<ClippingView>, idx: Seq<usize>, t: ClippingType) -> nat
    decreases idx.len(),
{
    if idx.len() == 0 {
        0
    } else {
        count_of_type(cs, idx.drop_last(), t) + (if cs[idx.last() as int].clipping_type == t {
            1nat
        } else {
            0nat
        })
    }
}

/// How many of the clippings at positions `idx` are highlights and how many notes.
pub fn count_types(clippings: &Vec<Clipping>, idx: &Vec<usize>) -> (r: (usize, usize))
    requires
        forall|j: int| 0 <= j < idx@.len() ==> idx@[j] < clippings@.len(),
    ensures
        r.0 == count_of_type(clippings_view(clippings@), idx@, ClippingType::Highlight),
        r.1 == count_of_type(clippings_view(clippings@), idx@, ClippingType::Note),
{
    let ghost cv = clippings_view(clippings@);
    let mut h: usize = 0;
    let mut n: usize = 0;
    let mut j: usize = 0;
    while j < idx.len()
        invariant
            j <= idx@.len(),
            cv == clippings_view(clippings@),
            forall|m: int| 0 <= m < idx@.len() ==> idx@[m] < clippings@.len(),
            h == count_of_type(cv, idx@.take(j as int), ClippingType::Highlight),
            n == count_of_type(cv, idx@.take(j as int), ClippingType::Note),
            h <= j,
            n <= j,
        decreases idx@.len() - j,
    {
        assert(idx@.take(j + 1).drop_last() =~= idx@.take(j as int));
        let k = idx[j];
        assert(cv[k as int] == clippings@[k as int]@);
        match clippings[k].clipping_type {
            ClippingType::Highlight => {
                h = h + 1;
            },
            ClippingType::Note => {
                n = n + 1;
            },
            ClippingType::Bookmark => {},
        }
        j = j + 1;
    }
    assert(idx@.take(j as int) =~= idx@);
    (h, n)
}

/// The summary of a synchronisation.
pub open spec fn sync_message(h: nat, n: nat, v: nat, nb: nat) -> Seq<char> {
    "同期完了: ハイライト "@ + decimal_text(h) + "件, メモ "@ + decimal_text(n) + "件, 語彙 "@
        + decimal_text(v) + "件, ノート "@ + decimal_text(nb) + "件"@
}

/// The summary of a re-export of the whole library.
pub open spec fn reexport_message(books: nat, v: nat, nb: nat) -> Seq<char> {
    "再出力完了: 書籍 "@ + decimal_text(books) + "冊, 語彙 "@ + decimal_text(v) + "件, ノート "@
        + decimal_text(nb) + "冊"@
}

/// The summary of a synchronisation with these results.
pub fn sync_summary(stats: &SyncStats) -> (r: String)
    ensures
        r@ == sync_message(
            stats.highlights_added as nat,
            stats.notes_added as nat,
            stats.vocab_added as nat,
            stats.notebooks_added as nat,
        ),
{
    let mut b = chars_of("同期完了: ハイライト ");
    push_decimal(&mut b, stats.highlights_added as u64);
    push_str(&mut b, "件, メモ ");
    push_decimal(&mut b, stats.notes_added as u64);
    push_str(&mut b, "件, 語彙 ");
    push_decimal(&mut b, stats.vocab_added as u64);
    push_str(&mut b, "件, ノート ");
    push_decimal(&mut b, stats.notebooks_added as u64);
    push_str(&mut b, "件");
    string_from_chars(b.as_slice())
}

/// The summary of a re-export with these results.
pub fn reexport_summary(stats: &SyncStats) -> (r: String)
    ensures
        r@ == reexport_message(
            stats.total_books_updated as nat,
            stats.vocab_added as nat,
            stats.notebooks_added as nat,
        ),
{
    let mut b = chars_of("再出力完了: 書籍 ");
    push_decimal(&mut b, stats.total_books_updated as u64);
    push_str(&mut b, "冊, 語彙 ");
    push_decimal(&mut b, stats.vocab_added as u64);
    push_str(&mut b, "件, ノート ");
    push_decimal(&mut b, stats.notebooks_added as u64);
    push_str(&mut b, "冊");
    string_from_chars(b.as_slice())
}

/// The steps of a synchronisation or re-export that the user is told of.
#[derive(Debug, Clone, Copy, PartialEq, Eq, Structural)]
pub enum SyncPhase {
    Clippings,
    Vocab,
    Notebooks,
    Completed,
    ReexportClippings,
    ReexportVocab,
    ReexportNotebooks,
    ReexportCompleted,
    Checking,
}

/// The step name, message, percentage and item reported for a phase.
pub open spec fn phase_report(p: SyncPhase) -> (Seq<char>, Seq<char>, u32, Option<Seq<char>>) {
    match p {
        SyncPhase::Clippings => ("clippings"@, "ハイライト・読書メモをMarkdownに変換中..."@, 70, Some("My Clippings.txt"@)),
        SyncPhase::Vocab => ("vocab"@, "単語帳・語彙データを更新中..."@, 80, Some("Kindle_Vocabulary.md"@)),
        SyncPhase::Notebooks => ("notebooks"@, "Scribe手書きノートを処理中..."@, 90, None),
        SyncPhase::Completed => ("completed"@, "すべての同期が完了しました"@, 100, None),
        SyncPhase::ReexportClippings => ("clippings"@, "ハイライト・メモを再出力中..."@, 30, None),
        SyncPhase::ReexportVocab => ("vocab"@, "単語帳・語彙データを再出力中..."@, 60, None),
        SyncPhase::ReexportNotebooks => ("notebooks"@, "Scribeノートを再出力中..."@, 85, None),
        SyncPhase::ReexportCompleted => ("completed"@, "再出力が完了しました"@, 100, None),
        SyncPhase::Checking => ("checking"@, "同期対象フォルダを確認中..."@, 20, None),
    }
}

fn report(step: &str, message: &str, percentage: u32, item: Option<&str>) -> (r: SyncProgress)
    ensures
        r.step@ == step@,
        r.message@ == message@,
        r.percentage == percentage,
        r.current_item.deep_view() == (match item {
            Some(i) => Some(i@),
            None => None,
        }),
{
    SyncProgress {
        step: String::from_str(step),
        message: String::from_str(message),
        percentage,
        current_item: match item {
            Some(i) => Some(String::from_str(i)),
            None => None,
        },
    }
}

/// The progress report for a phase.
pub fn phase_progress(p: SyncPhase) -> (r: SyncProgress)
    ensures
        (r.step@, r.message@, r.percentage, r.current_item.deep_view()) == phase_report(p),
{
    match p {
        SyncPhase::Clippings => report("clippings", "ハイライト・読書メモをMarkdownに変換中...", 70, Some("My Clippings.txt")),
        SyncPhase::Vocab => report("vocab", "単語帳・語彙データを更新中...", 80, Some("Kindle_Vocabulary.md")),
        SyncPhase::Notebooks => report("notebooks", "Scribe手書きノートを処理中...", 90, None),
        SyncPhase::Completed => report("completed", "すべての同期が完了しました", 100, None),
        SyncPhase::ReexportClippings => report("clippings", "ハイライト・メモを再出力中...", 30, None),
        SyncPhase::ReexportVocab => report("vocab", "単語帳・語彙データを再出力中...", 60, None),
        SyncPhase::ReexportNotebooks => report("notebooks", "Scribeノートを再出力中...", 85, None),
        SyncPhase::ReexportCompleted => report("completed", "再出力が完了しました", 100, None),
        SyncPhase::Checking => report("checking", "同期対象フォルダを確認中...", 20, None),
    }
}

/// The places where a Kindle keeps its clippings, in the order looked at.
pub open spec fn clippings_sources(base: Seq<char>) -> Seq<Seq<char>> {
    seq![join_path(base, "documents/My Clippings.txt"@), join_path(base, "My Clippings.txt"@)]
}

/// The places where a Kindle keeps its vocabulary database, in the order looked at.
pub open spec fn vocab_sources(base: Seq<char>) -> Seq<Seq<char>> {
    seq![join_path(base, "system/vocabulary/vocab.db"@), join_path(base, "vocab.db"@)]
}

/// The places where a Scribe keeps its notebooks, in the order looked at.
pub open spec fn notebook_sources(base: Seq<char>) -> Seq<Seq<char>> {
    seq![join_path(base, ".notebooks"@), join_path(base, "notebooks"@)]
}

/// Where to look for the clippings file under `base`, in order.
pub fn clippings_candidates(base: &str) -> (r: Vec<String>)
    ensures
        strs_view(r@) == clippings_sources(base@),
{
    let mut r: Vec<String> = Vec::new();
    r.push(join_path_str(base, "documents/My Clippings.txt"));
    r.push(join_path_str(base, "My Clippings.txt"));
    assert(strs_view(r@) =~= clippings_sources(base@));
    r
}

/// Where to look for the vocabulary database under `base`, in order.
pub fn vocab_candidates(base: &str) -> (r: Vec<String>)
    ensures
        strs_view(r@) == vocab_sources(base@),
{
    let mut r: Vec<String> = Vec::new();
    r.push(join_path_str(base, "system/vocabulary/vocab.db"));
    r.push(join_path_str(base, "vocab.db"));
    assert(strs_view(r@) =~= vocab_sources(base@));
    r
}

/// Where to look for the notebooks folder under `base`, in order.
pub fn notebook_dir_candidates(base: &str) -> (r: Vec<String>)
    ensures
        strs_view(r@) == notebook_sources(base@),
{
    let mut r: Vec<String> = Vec::new();
    r.push(join_path_str(base, ".notebooks"));
    r.push(join_path_str(base, "notebooks"));
    assert(strs_view(r@) =~= notebook_sources(base@));
    r
}

/// A file that holds a notebook: its extension is `nbk` or `zip`, or its
/// name is `nbk`, in any case.
pub open spec fn notebook_file(path: Seq<char>) -> bool {
    let ext = match path_extension(path) {
        Some(e) => lowercase(e),
        None => seq![],
    };
    ext == "nbk"@ || ext == "zip"@ || lower_file_name(path) == "nbk"@
}

/// The folder, relative to the notebooks folder `root`, that a notebook file
/// is filed under: its directory, or for a file named `nbk` the directory
/// above, where that lies inside `root` and is not `root` itself.
pub open spec fn notebook_folder(path: Seq<char>, root: Seq<char>) -> Option<Seq<char>> {
    let folder = if lower_file_name(path) == "nbk"@ {
        match path_parent(path) {
            Some(p) => path_parent(p),
            None => None,
        }
    } else {
        path_parent(path)
    };
    match folder {
        Some(f) => match path_strip_prefix(f, root) {
            Some(rel) => if rel.len() > 0 {
                Some(rel)
            } else {
                None
            },
            None => None,
        },
        None => None,
    }
}

/// Whether a file holds a notebook.
pub fn is_notebook_file(path: &str) -> (r: bool)
    ensures
        r == notebook_file(path@),
{
    let ext = match extension(path) {
        Some(e) => to_lowercase(e.as_str()),
        None => String::new(),
    };
    let name = match file_name(path) {
        Some(n) => to_lowercase(n.as_str()),
        None => String::new(),
    };
    ext == String::from_str("nbk") || ext == String::from_str("zip") || name == String::from_str("nbk")
}

/// The folder, relative to the notebooks folder `root`, that a notebook file
/// is filed under.
pub fn notebook_folder_of(path: &str, root: &str) -> (r: Option<String>)
    ensures
        r.deep_view() == notebook_folder(path@, root@),
{
    let name = match file_name(path) {
        Some(n) => to_lowercase(n.as_str()),
        None => String::new(),
    };
    let folder = if name == String::from_str("nbk") {
        match parent(path) {
            Some(p) => parent(p.as_str()),
            None => None,
        }
    } else {
        parent(path)
    };
    match folder {
        Some(f) => match strip_prefix(f.as_str(), root) {
            Some(rel) => {
                if chars_of(rel.as_str()).len() > 0 {
                    Some(rel)
                } else {
                    None
                }
            },
            None => None,
        },
        None => None,
    }
}

/// A notebook is written again where its Markdown is missing, its content
/// changed since it was last recorded, or its last page image is missing.
pub open spec fn export_needed(markdown_exists: bool, synced: bool, last_page_exists: bool) -> bool {
    !markdown_exists || !synced || !last_page_exists
}

/// Whether a notebook is written again.
pub fn needs_export(markdown_exists: bool, synced: bool, last_page_exists: bool) -> (r: bool)
    ensures
        r == export_needed(markdown_exists, synced, last_page_exists),
{
    !markdown_exists || !synced || !last_page_exists
}

/// The ids of the notebooks handled so far in one pass.
pub struct SeenIds {
    pub ids: Vec<String>,
}

impl SeenIds {
    pub fn new() -> (r: SeenIds)
        ensures
            r.ids@.len() == 0,
    {
        SeenIds { ids: Vec::new() }
    }

    /// Records `id`; whether it had not been recorded before.
    pub fn insert(&mut self, id: &str) -> (r: bool)
        ensures
            r == !strs_view(old(self).ids@).contains(id@),
            strs_view(final(self).ids@) == (if r {
                strs_view(old(self).ids@).push(id@)
            } else {
                strs_view(old(self).ids@)
            }),
    {
        let ghost before = strs_view(self.ids@);
        let key = String::from_str(id);
        let mut i: usize = 0;
        while i < self.ids.len()
            invariant
                i <= self.ids@.len(),
                before == strs_view(self.ids@),
                key@ == id@,
                forall|k: int| 0 <= k < i ==> before[k] != id@,
            decreases self.ids@.len() - i,
        {
            assert(before[i as int] == self.ids@[i as int]@);
            if self.ids[i] == key {
                assert(before[i as int] == id@);
                return false;
            }
            i = i + 1;
        }
        self.ids.push(key);
        assert(strs_view(self.ids@) =~= before.push(id@));
        true
    }
}

/// What a synchronisation writes of a book: everything where its file does
/// not exist yet, nothing where the file exists and all of its clippings are
/// recorded as synchronised, and otherwise those not recorded, in order.
pub proof fn lemma_pending_members(members: Seq<usize>, file_exists: bool, synced: Seq<bool>)
    ensures
        !file_exists ==> pending_members(members, file_exists, synced) == members,
        file_exists && synced.len() >= members.len() && (forall|j: int| 0 <= j < members.len() ==> #[trigger] synced[j])
            ==> pending_members(members, file_exists, synced).len() == 0,
        forall|k: int|
            0 <= k < pending_members(members, file_exists, synced).len() ==> members.contains(
                #[trigger] pending_members(members, file_exists, synced)[k],
            ),
    decreases members.len(),
{
    if file_exists && members.len() > 0 {
        lemma_pending_members(members.drop_last(), file_exists, synced);
        let prev = pending_members(members.drop_last(), file_exists, synced);
        let r = pending_members(members, file_exists, synced);
        assert forall|k: int| 0 <= k < r.len() implies members.contains(#[trigger] r[k]) by {
            if k < prev.len() {
                assert(r[k] == prev[k]);
                let m = choose|m: int| 0 <= m < members.drop_last().len() && members.drop_last()[m] == prev[k];
                assert(members[m] == r[k]);
            } else {
                assert(r[k] == members.last());
                assert(members[members.len() - 1] == r[k]);
            }
        }
    } else if !file_exists {
        assert forall|k: int| 0 <= k < members.len() implies members.contains(#[trigger] members[k]) by {}
    }
}

} // verus!

verus! {

/// The clippings at positions `idx`, in that order.
pub open spec fn pick(cs: Seq<ClippingView>, idx: Seq<usize>) -> Seq<ClippingView> {
    idx.map_values(|i: usize| cs[i as int])
}

/// The words at positions `idx`, in that order.
pub open spec fn pick_words(ws: Seq<VocabView>, idx: Seq<usize>) -> Seq<VocabView> {
    idx.map_values(|i: usize| ws[i as int])
}

/// The positions `0..n`.
pub open spec fn positions(n: nat) -> Seq<usize> {
    Seq::new(n, |i: int| i as usize)
}

/// One book's part of a synchronisation, from its clippings `members`, the
/// recorded state of each (`synced`), and the book file's content
/// (`existing`): the text appended to the file, how many clippings it adds,
/// the positions then recorded as synchronised, and how many of those are
/// highlights and notes. Nothing is recorded or counted where nothing is
/// added.
pub open spec fn book_sync_of(
    cs: Seq<ClippingView>,
    members: Seq<usize>,
    synced: Seq<bool>,
    title: Seq<char>,
    author: Option<Seq<char>>,
    existing: Option<Seq<char>>,
    now: Seq<char>,
) -> (Seq<char>, nat, Seq<usize>, nat, nat) {
    let p = pending_members(members, existing is Some, synced);
    let u = book_update(title, author, pick(cs, p), existing, now);
    if u.1 == 0 {
        (seq![], 0, seq![], 0, 0)
    } else {
        (u.0, u.1, p, count_of_type(cs, p, ClippingType::Highlight), count_of_type(cs, p, ClippingType::Note))
    }
}

/// What one book's part of a synchronisation writes, records and counts.
pub struct BookSync {
    /// Appended to the book file, or the whole new file.
    pub text: String,
    /// How many clippings the text adds.
    pub added: usize,
    /// The positions of the clippings to record as synchronised.
    pub written: Vec<usize>,
    pub highlights: usize,
    pub notes: usize,
}

/// The vocabulary's part of a synchronisation, from the words, the recorded
/// state of each and the vocabulary file's content: the text appended, how
/// many words it adds, and the positions then recorded as synchronised
/// (every word handed to the update, added or found in the file already).
pub open spec fn vocab_sync_of(ws: Seq<VocabView>, synced: Seq<bool>, existing: Option<Seq<char>>, now: Seq<char>) -> (
    Seq<char>,
    nat,
    Seq<usize>,
) {
    let p = pending_members(positions(ws.len()), existing is Some, synced);
    let u = vocab_update(pick_words(ws, p), existing, now);
    (u.0, u.1, p)
}

/// What the vocabulary's part of a synchronisation writes and records.
pub struct VocabSync {
    pub text: String,
    pub added: usize,
    pub written: Vec<usize>,
}

fn copy_opt_string(o: &Option<String>) -> (r: Option<String>)
    ensures
        r.deep_view() == o.deep_view(),
{
    match o {
        Some(s) => Some(s.clone()),
        None => None,
    }
}

fn copy_clipping(c: &Clipping) -> (r: Clipping)
    ensures
        r@ == c@,
{
    Clipping {
        id: c.id.clone(),
        book_title: c.book_title.clone(),
        author: copy_opt_string(&c.author),
        clipping_type: c.clipping_type,
        location: copy_opt_string(&c.location),
        page: c.page,
        created_at: c.created_at,
        content: c.content.clone(),
    }
}

fn copy_word(w: &VocabLookup) -> (r: VocabLookup)
    ensures
        r@ == w@,
{
    VocabLookup {
        id: w.id.clone(),
        word: w.word.clone(),
        stem: copy_opt_string(&w.stem),
        lang: copy_opt_string(&w.lang),
        usage: copy_opt_string(&w.usage),
        book_title: copy_opt_string(&w.book_title),
        book_author: copy_opt_string(&w.book_author),
        timestamp: w.timestamp,
    }
}

/// One book's part of a synchronisation: its pending clippings are rendered
/// against the book file, and, where any is added, recorded and counted.
pub fn sync_book(
    clippings: &Vec<Clipping>,
    members: &Vec<usize>,
    synced: &Vec<bool>,
    title: &str,
    author: Option<&str>,
    existing: Option<&str>,
    now: &str,
) -> (r: BookSync)
    requires
        forall|j: int| 0 <= j < members@.len() ==> members@[j] < clippings@.len(),
    ensures
        (r.text@, r.added as nat, r.written@, r.highlights as nat, r.notes as nat) == book_sync_of(
            clippings_view(clippings@),
            members@,
            synced@,
            title@,
            opt_str(author),
            opt_str(existing),
            now@,
        ),
{
    let ghost cv = clippings_view(clippings@);
    let p = pending(members, existing.is_some(), synced);
    proof {
        lemma_pending_members(members@, existing.is_some(), synced@);
    }
    assert forall|j: int| 0 <= j < p@.len() implies p@[j] < clippings@.len() by {
        assert(members@.contains(p@[j]));
    }
    let mut list: Vec<Clipping> = Vec::new();
    let mut i: usize = 0;
    while i < p.len()
        invariant
            i <= p@.len(),
            cv == clippings_view(clippings@),
            forall|j: int| 0 <= j < p@.len() ==> p@[j] < clippings@.len(),
            list@.map_values(|c: Clipping| c@) == pick(cv, p@.take(i as int)),
        decreases p@.len() - i,
    {
        let c = copy_clipping(&clippings[p[i]]);
        let ghost before = list@.map_values(|c: Clipping| c@);
        list.push(c);
        assert(list@.map_values(|c: Clipping| c@) =~= before.push(c@));
        assert(pick(cv, p@.take(i + 1)) =~= pick(cv, p@.take(i as int)).push(cv[p@[i as int] as int]));
        i = i + 1;
    }
    assert(p@.take(i as int) =~= p@);
    let (text, added) = MarkdownGenerator::render_book_clippings(title, author, list.as_slice(), existing, now);
    if added == 0 {
        return BookSync { text: String::new(), added: 0, written: Vec::new(), highlights: 0, notes: 0 };
    }
    let (h, n) = count_types(clippings, &p);
    BookSync { text, added, written: p, highlights: h, notes: n }
}

/// The vocabulary's part of a synchronisation: the pending words are
/// rendered against the vocabulary file, and all of them recorded.
pub fn sync_vocab(words: &Vec<VocabLookup>, synced: &Vec<bool>, existing: Option<&str>, now: &str) -> (r: VocabSync)
    ensures
        (r.text@, r.added as nat, r.written@) == vocab_sync_of(
            words@.map_values(|w: VocabLookup| w@),
            synced@,
            opt_str(existing),
            now@,
        ),
{
    let ghost wv = words@.map_values(|w: VocabLookup| w@);
    let mut all: Vec<usize> = Vec::new();
    let mut k: usize = 0;
    while k < words.len()
        invariant
            k <= words@.len(),
            all@ == positions(k as nat),
        decreases words@.len() - k,
    {
        all.push(k);
        k = k + 1;
        assert(all@ =~= positions(k as nat));
    }
    let p = pending(&all, existing.is_some(), synced);
    proof {
        lemma_pending_members(all@, existing.is_some(), synced@);
    }
    assert forall|j: int| 0 <= j < p@.len() implies p@[j] < words@.len() by {
        assert(all@.contains(p@[j]));
    }
    let mut list: Vec<VocabLookup> = Vec::new();
    let mut i: usize = 0;
    while i < p.len()
        invariant
            i <= p@.len(),
            wv == words@.map_values(|w: VocabLookup| w@),
            forall|j: int| 0 <= j < p@.len() ==> p@[j] < words@.len(),
            list@.map_values(|w: VocabLookup| w@) == pick_words(wv, p@.take(i as int)),
        decreases p@.len() - i,
    {
        let w = copy_word(&words[p[i]]);
        let ghost before = list@.map_values(|w: VocabLookup| w@);
        list.push(w);
        assert(list@.map_values(|w: VocabLookup| w@) =~= before.push(w@));
        assert(pick_words(wv, p@.take(i + 1)) =~= pick_words(wv, p@.take(i as int)).push(wv[p@[i as int] as int]));
        i = i + 1;
    }
    assert(p@.take(i as int) =~= p@);
    let (text, added) = MarkdownGenerator::render_vocabulary(list.as_slice(), existing, now);
    VocabSync { text, added, written: p }
}

} // verus!

verus! {

/// Whether each member's clipping has its id among the recorded ones.
pub open spec fn recorded_flags(cs: Seq<ClippingView>, members: Seq<usize>, ids: Set<Seq<char>>) -> Seq<bool> {
    Seq::new(members.len(), |j: int| ids.contains(cs[members[j] as int].id))
}

/// The ids of the clippings at positions `idx`.
pub open spec fn ids_at(cs: Seq<ClippingView>, idx: Seq<usize>) -> Set<Seq<char>> {
    Set::new(|id: Seq<char>| exists|k: int| 0 <= k < idx.len() && cs[idx[k] as int].id == id)
}

/// One book's part of a synchronisation as a change of state: from the book
/// file (`None` where it does not exist) and the ids recorded as
/// synchronised, to the book file and the recorded ids afterwards, with how
/// many clippings, highlights and notes were added.
pub open spec fn book_pass(
    cs: Seq<ClippingView>,
    members: Seq<usize>,
    title: Seq<char>,
    author: Option<Seq<char>>,
    file: Option<Seq<char>>,
    ids: Set<Seq<char>>,
    now: Seq<char>,
) -> (Option<Seq<char>>, Set<Seq<char>>, nat, nat, nat) {
    let r = book_sync_of(cs, members, recorded_flags(cs, members, ids), title, author, file, now);
    (book_after(file, (r.0, r.1)), ids.union(ids_at(cs, r.2)), r.1, r.3, r.4)
}

/// Whether each word has its id among the recorded ones.
pub open spec fn recorded_word_flags(ws: Seq<VocabView>, ids: Set<Seq<char>>) -> Seq<bool> {
    Seq::new(ws.len(), |j: int| ids.contains(ws[j].id))
}

/// The ids of the words at positions `idx`.
pub open spec fn word_ids_at(ws: Seq<VocabView>, idx: Seq<usize>) -> Set<Seq<char>> {
    Set::new(|id: Seq<char>| exists|k: int| 0 <= k < idx.len() && ws[idx[k] as int].id == id)
}

/// The vocabulary's part of a synchronisation as a change of state: the
/// vocabulary file and the recorded ids afterwards, and how many words were
/// added.
pub open spec fn vocab_pass(ws: Seq<VocabView>, file: Option<Seq<char>>, ids: Set<Seq<char>>, now: Seq<char>) -> (
    Option<Seq<char>>,
    Set<Seq<char>>,
    nat,
) {
    let r = vocab_sync_of(ws, recorded_word_flags(ws, ids), file, now);
    (book_after(file, (r.0, r.1)), ids.union(word_ids_at(ws, r.2)), r.1)
}

/// Whether a notebook is recorded with this content hash.
pub open spec fn notebook_recorded(records: Map<Seq<char>, Seq<char>>, id: Seq<char>, hash: Seq<char>) -> bool {
    records.contains_key(id) && records[id] == hash
}

/// One notebook's part of a synchronisation as a change of state: the
/// recorded hashes afterwards, and whether the notebook was written (its
/// Markdown and page images then exist).
pub open spec fn notebook_pass(
    records: Map<Seq<char>, Seq<char>>,
    id: Seq<char>,
    hash: Seq<char>,
    markdown_exists: bool,
    last_page_exists: bool,
) -> (Map<Seq<char>, Seq<char>>, bool) {
    if export_needed(markdown_exists, notebook_recorded(records, id, hash), last_page_exists) {
        (records.insert(id, hash), true)
    } else {
        (records, false)
    }
}

/// A member that is not recorded is pending where the book file exists.
proof fn lemma_unrecorded_pending(members: Seq<usize>, synced: Seq<bool>, j: int)
    requires
        0 <= j < members.len(),
        !(j < synced.len() && synced[j]),
    ensures
        pending_members(members, true, synced).contains(members[j]),
    decreases members.len(),
{
    let prev = pending_members(members.drop_last(), true, synced);
    let r = pending_members(members, true, synced);
    if j == members.len() - 1 {
        assert(r == prev.push(members.last()));
        assert(r[prev.len() as int] == members[j]);
    } else {
        assert(members.drop_last()[j] == members[j]);
        lemma_unrecorded_pending(members.drop_last(), synced, j);
        let k = choose|k: int| 0 <= k < prev.len() && prev[k] == members[j];
        if members.len() - 1 < synced.len() && synced[members.len() - 1] {
            assert(r == prev);
        } else {
            assert(r[k] == prev[k]);
        }
    }
}

/// Nothing is pending where every member is recorded and the file exists.
proof fn lemma_all_recorded(members: Seq<usize>, synced: Seq<bool>)
    requires
        synced.len() >= members.len(),
        forall|j: int| 0 <= j < members.len() ==> #[trigger] synced[j],
    ensures
        pending_members(members, true, synced) == Seq::<usize>::empty(),
{
    lemma_pending_members(members, true, synced);
    assert(pending_members(members, true, synced) =~= Seq::<usize>::empty());
}

/// After a pass, every member whose flag was down is among the pending ones,
/// so every member is recorded or pending.
proof fn lemma_members_covered(members: Seq<usize>, file_exists: bool, synced: Seq<bool>, j: int)
    requires
        0 <= j < members.len(),
        synced.len() == members.len(),
    ensures
        synced[j] || pending_members(members, file_exists, synced).contains(members[j]),
{
    if file_exists {
        if !synced[j] {
            lemma_unrecorded_pending(members, synced, j);
        }
    } else {
        assert(pending_members(members, file_exists, synced)[j] == members[j]);
    }
}

/// A second synchronisation of a book with nothing changed adds nothing:
/// run again, at any later time, on the book file and the recorded ids that
/// the first one left, it leaves both as they are and adds no clipping,
/// highlight or note.
pub proof fn lemma_book_resync(
    cs: Seq<ClippingView>,
    members: Seq<usize>,
    title: Seq<char>,
    author: Option<Seq<char>>,
    file: Option<Seq<char>>,
    ids: Set<Seq<char>>,
    now: Seq<char>,
    later: Seq<char>,
)
    requires
        forall|j: int| 0 <= j < members.len() ==> #[trigger] members[j] < cs.len(),
    ensures
        ({
            let first = book_pass(cs, members, title, author, file, ids, now);
            book_pass(cs, members, title, author, first.0, first.1, later) == (first.0, first.1, 0nat, 0nat, 0nat)
        }),
{
    let flags = recorded_flags(cs, members, ids);
    let r = book_sync_of(cs, members, flags, title, author, file, now);
    let first = book_pass(cs, members, title, author, file, ids, now);
    let p = pending_members(members, file is Some, flags);
    assert(ids_at(cs, Seq::<usize>::empty()) =~= Set::<Seq<char>>::empty());
    if r.1 == 0 {
        assert(first.0 == file);
        assert(first.1 =~= ids);
        let u2 = book_update(title, author, pick(cs, p), file, later);
        let u1 = book_update(title, author, pick(cs, p), file, now);
        assert(u2.1 == u1.1);
    } else {
        let ids2 = first.1;
        assert(first.0 is Some);
        let flags2 = recorded_flags(cs, members, ids2);
        assert forall|j: int| 0 <= j < members.len() implies #[trigger] flags2[j] by {
            lemma_members_covered(members, file is Some, flags, j);
            let id = cs[members[j] as int].id;
            if !flags[j] {
                let k = choose|k: int| 0 <= k < p.len() && p[k] == members[j];
                assert(r.2 == p);
                assert(ids_at(cs, p).contains(id));
            }
        }
        lemma_all_recorded(members, flags2);
        let p2 = pending_members(members, true, flags2);
        assert(pick(cs, p2) =~= Seq::<ClippingView>::empty());
        assert(crate::generator::markdown::book_entries(Seq::<ClippingView>::empty(), first.0) == (
            Seq::<char>::empty(),
            0nat,
        ));
        assert(ids2.union(ids_at(cs, Seq::<usize>::empty())) =~= ids2);
    }
}

/// Words not yet known all add an entry to a new vocabulary file: at least one.
proof fn lemma_new_vocab_adds(ws: Seq<VocabView>)
    requires
        ws.len() > 0,
    ensures
        crate::generator::markdown::vocab_entries(ws, Seq::<Seq<char>>::empty()).1 > 0,
    decreases ws.len(),
{
    let init = ws.drop_last();
    if init.len() > 0 {
        lemma_new_vocab_adds(init);
    } else {
        assert(crate::generator::markdown::vocab_entries(init, Seq::<Seq<char>>::empty()).2 =~= Seq::<
            Seq<char>,
        >::empty());
    }
}

/// A second synchronisation of the vocabulary with nothing changed adds
/// nothing: run again, at any later time, on the vocabulary file and the
/// recorded ids that the first one left, it leaves both as they are and adds
/// no word.
pub proof fn lemma_vocab_resync(ws: Seq<VocabView>, file: Option<Seq<char>>, ids: Set<Seq<char>>, now: Seq<char>, later: Seq<char>)
    requires
        ws.len() <= usize::MAX,
    ensures
        ({
            let first = vocab_pass(ws, file, ids, now);
            vocab_pass(ws, first.0, first.1, later) == (first.0, first.1, 0nat)
        }),
{
    let members = positions(ws.len());
    let flags = recorded_word_flags(ws, ids);
    let p = pending_members(members, file is Some, flags);
    let r = vocab_sync_of(ws, flags, file, now);
    let first = vocab_pass(ws, file, ids, now);
    assert(word_ids_at(ws, Seq::<usize>::empty()) =~= Set::<Seq<char>>::empty());
    assert(pick_words(ws, Seq::<usize>::empty()) =~= Seq::<VocabView>::empty());
    assert(crate::generator::markdown::vocab_entries(Seq::<VocabView>::empty(), Seq::<Seq<char>>::empty()).1 == 0);
    if p.len() == 0 {
        assert(p =~= Seq::<usize>::empty());
        assert(r.1 == 0);
        assert(first.0 == file);
        assert(first.1 =~= ids);
    } else {
        let ids2 = first.1;
        if file is None {
            assert(p == members);
            assert(pick_words(ws, p).len() > 0);
            lemma_new_vocab_adds(pick_words(ws, p));
        }
        assert(first.0 is Some);
        let flags2 = recorded_word_flags(ws, ids2);
        assert forall|j: int| 0 <= j < members.len() implies #[trigger] flags2[j] by {
            lemma_members_covered(members, file is Some, flags, j);
            assert(members[j] as int == j);
            if !flags[j] {
                let k = choose|k: int| 0 <= k < p.len() && p[k] == members[j];
                assert(word_ids_at(ws, p).contains(ws[j].id));
            }
        }
        lemma_all_recorded(members, flags2);
        let p2 = pending_members(members, true, flags2);
        assert(pick_words(ws, p2) =~= Seq::<VocabView>::empty());
        assert(ids2.union(word_ids_at(ws, Seq::<usize>::empty())) =~= ids2);
    }
}

/// A notebook is written once per content: run again with the same content
/// on the state that a pass left, nothing is written; and where its content
/// then changes, it is written once, and not again after that.
pub proof fn lemma_notebook_export_once(
    records: Map<Seq<char>, Seq<char>>,
    id: Seq<char>,
    hash: Seq<char>,
    markdown_exists: bool,
    last_page_exists: bool,
    new_hash: Seq<char>,
)
    ensures
        ({
            let first = notebook_pass(records, id, hash, markdown_exists, last_page_exists);
            let md1 = markdown_exists || first.1;
            let page1 = last_page_exists || first.1;
            let again = notebook_pass(first.0, id, hash, md1, page1);
            let changed = notebook_pass(first.0, id, new_hash, md1, page1);
            &&& !again.1
            &&& again.0 == first.0
            &&& new_hash != hash ==> changed.1 && !notebook_pass(changed.0, id, new_hash, true, true).1
        }),
{
}

/// Within one pass a notebook id is handled once: after it is recorded, a
/// second `SeenIds::insert` of it finds it.
pub proof fn lemma_seen_once(ids: Seq<Seq<char>>, id: Seq<char>)
    ensures
        (if ids.contains(id) {
            ids
        } else {
            ids.push(id)
        }).contains(id),
{
    if !ids.contains(id) {
        assert(ids.push(id)[ids.len() as int] == id);
    }
}

} // verus!
