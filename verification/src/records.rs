//! How the application's records are stored in its database and read back:
//! settings as key/value rows, clipping types as their names, notebook
//! summaries from their rows.
//!
//! Running the queries is left to the caller.

use vstd::prelude::*;

use crate::generator::markdown::{display_title, display_title_ok, sanitized_name, MarkdownGenerator};
use crate::models::{ClippingType, NotebookSummary, SyncConfig, SyncConfigView};
use crate::pattern::{is_ascii_text, lowercase, to_lowercase};
use crate::text::{chars_of, copy_range, push_chars, push_str, string_from_chars, trim, trim_bounds};

verus! {

/// The keys under which the settings are stored, in the order they are written.
pub open spec fn config_keys() -> Seq<Seq<char>> {
    seq![
        "vault_path"@,
        "sync_clippings"@,
        "sync_vocab"@,
        "sync_notebooks"@,
        "auto_sync"@,
        "auto_eject"@,
        "subfolder"@,
    ]
}

/// `bool::to_string`.
pub open spec fn bool_text(b: bool) -> Seq<char> {
    if b {
        "true"@
    } else {
        "false"@
    }
}

/// The rows that store a configuration.
pub open spec fn config_rows(c: SyncConfigView) -> Seq<(Seq<char>, Seq<char>)> {
    seq![
        ("vault_path"@, c.vault_path),
        ("sync_clippings"@, bool_text(c.sync_clippings)),
        ("sync_vocab"@, bool_text(c.sync_vocab)),
        ("sync_notebooks"@, bool_text(c.sync_notebooks)),
        ("auto_sync"@, bool_text(c.auto_sync)),
        ("auto_eject"@, bool_text(c.auto_eject)),
        ("subfolder"@, c.subfolder),
    ]
}

/// The value of the last row with this key.
pub open spec fn last_value(rows: Seq<(Seq<char>, Seq<char>)>, key: Seq<char>) -> Option<Seq<char>>
    decreases rows.len(),
{
    if rows.len() == 0 {
        None
    } else if rows.last().0 == key {
        Some(rows.last().1)
    } else {
        last_value(rows.drop_last(), key)
    }
}

pub open spec fn text_or(v: Option<Seq<char>>, d: Seq<char>) -> Seq<char> {
    match v {
        Some(x) => x,
        None => d,
    }
}

pub open spec fn flag_or(v: Option<Seq<char>>, d: bool) -> bool {
    match v {
        Some(x) => x == "true"@,
        None => d,
    }
}

/// The configuration that rows give: each setting takes the value of the
/// last row with its key (a flag is on where that value is `true`), and the
/// default where there is none; other keys are ignored.
pub open spec fn config_from_rows(rows: Seq<(Seq<char>, Seq<char>)>, d: SyncConfigView) -> SyncConfigView {
    SyncConfigView {
        vault_path: text_or(last_value(rows, "vault_path"@), d.vault_path),
        sync_clippings: flag_or(last_value(rows, "sync_clippings"@), d.sync_clippings),
        sync_vocab: flag_or(last_value(rows, "sync_vocab"@), d.sync_vocab),
        sync_notebooks: flag_or(last_value(rows, "sync_notebooks"@), d.sync_notebooks),
        auto_sync: flag_or(last_value(rows, "auto_sync"@), d.auto_sync),
        auto_eject: flag_or(last_value(rows, "auto_eject"@), d.auto_eject),
        subfolder: text_or(last_value(rows, "subfolder"@), d.subfolder),
    }
}

pub open spec fn rows_view(rows: Seq<(String, String)>) -> Seq<(Seq<char>, Seq<char>)> {
    rows.map_values(|r: (String, String)| (r.0@, r.1@))
}

fn bool_string(b: bool) -> (r: String)
    ensures
        r@ == bool_text(b),
{
    if b {
        String::from_str("true")
    } else {
        String::from_str("false")
    }
}

/// The rows that store `config`.
pub fn config_entries(config: &SyncConfig) -> (r: Vec<(String, String)>)
    ensures
        rows_view(r@) == config_rows(config@),
{
    let mut r: Vec<(String, String)> = Vec::new();
    r.push((String::from_str("vault_path"), config.vault_path.clone()));
    r.push((String::from_str("sync_clippings"), bool_string(config.sync_clippings)));
    r.push((String::from_str("sync_vocab"), bool_string(config.sync_vocab)));
    r.push((String::from_str("sync_notebooks"), bool_string(config.sync_notebooks)));
    r.push((String::from_str("auto_sync"), bool_string(config.auto_sync)));
    r.push((String::from_str("auto_eject"), bool_string(config.auto_eject)));
    r.push((String::from_str("subfolder"), config.subfolder.clone()));
    assert(rows_view(r@) =~= config_rows(config@));
    r
}

/// The keys of the settings differ from one another.
proof fn lemma_config_keys_distinct()
    ensures
        forall|a: int, b: int| 0 <= a < b < 7 ==> #[trigger] config_keys()[a] != #[trigger] config_keys()[b],
{
    reveal_strlit("vault_path");
    reveal_strlit("sync_clippings");
    reveal_strlit("sync_vocab");
    reveal_strlit("sync_notebooks");
    reveal_strlit("auto_sync");
    reveal_strlit("auto_eject");
    reveal_strlit("subfolder");
    assert("vault_path"@ != "sync_clippings"@) by {
        assert("vault_path"@.len() != "sync_clippings"@.len());
    }
    assert("vault_path"@ != "sync_vocab"@) by {
        assert("vault_path"@[0] != "sync_vocab"@[0]);
    }
    assert("vault_path"@ != "sync_notebooks"@) by {
        assert("vault_path"@.len() != "sync_notebooks"@.len());
    }
    assert("vault_path"@ != "auto_sync"@) by {
        assert("vault_path"@.len() != "auto_sync"@.len());
    }
    assert("vault_path"@ != "auto_eject"@) by {
        assert("vault_path"@[0] != "auto_eject"@[0]);
    }
    assert("vault_path"@ != "subfolder"@) by {
        assert("vault_path"@.len() != "subfolder"@.len());
    }
    assert("sync_clippings"@ != "sync_vocab"@) by {
        assert("sync_clippings"@.len() != "sync_vocab"@.len());
    }
    assert("sync_clippings"@ != "sync_notebooks"@) by {
        assert("sync_clippings"@[5] != "sync_notebooks"@[5]);
    }
    assert("sync_clippings"@ != "auto_sync"@) by {
        assert("sync_clippings"@.len() != "auto_sync"@.len());
    }
    assert("sync_clippings"@ != "auto_eject"@) by {
        assert("sync_clippings"@.len() != "auto_eject"@.len());
    }
    assert("sync_clippings"@ != "subfolder"@) by {
        assert("sync_clippings"@.len() != "subfolder"@.len());
    }
    assert("sync_vocab"@ != "sync_notebooks"@) by {
        assert("sync_vocab"@.len() != "sync_notebooks"@.len());
    }
    assert("sync_vocab"@ != "auto_sync"@) by {
        assert("sync_vocab"@.len() != "auto_sync"@.len());
    }
    assert("sync_vocab"@ != "auto_eject"@) by {
        assert("sync_vocab"@[0] != "auto_eject"@[0]);
    }
    assert("sync_vocab"@ != "subfolder"@) by {
        assert("sync_vocab"@.len() != "subfolder"@.len());
    }
    assert("sync_notebooks"@ != "auto_sync"@) by {
        assert("sync_notebooks"@.len() != "auto_sync"@.len());
    }
    assert("sync_notebooks"@ != "auto_eject"@) by {
        assert("sync_notebooks"@.len() != "auto_eject"@.len());
    }
    assert("sync_notebooks"@ != "subfolder"@) by {
        assert("sync_notebooks"@.len() != "subfolder"@.len());
    }
    assert("auto_sync"@ != "auto_eject"@) by {
        assert("auto_sync"@.len() != "auto_eject"@.len());
    }
    assert("auto_sync"@ != "subfolder"@) by {
        assert("auto_sync"@[0] != "subfolder"@[0]);
    }
    assert("auto_eject"@ != "subfolder"@) by {
        assert("auto_eject"@.len() != "subfolder"@.len());
    }
}

/// The configuration that rows read from the settings table give, over `defaults`.
pub fn config_from_entries(rows: &Vec<(String, String)>, defaults: SyncConfig) -> (r: SyncConfig)
    ensures
        r@ == config_from_rows(rows_view(rows@), defaults@),
{
    let ghost rv = rows_view(rows@);
    let mut c = defaults;
    let ghost d = defaults@;
    let vault_path = String::from_str("vault_path");
    let sync_clippings = String::from_str("sync_clippings");
    let sync_vocab = String::from_str("sync_vocab");
    let sync_notebooks = String::from_str("sync_notebooks");
    let auto_sync = String::from_str("auto_sync");
    let auto_eject = String::from_str("auto_eject");
    let subfolder = String::from_str("subfolder");
    let true_text = String::from_str("true");
    let mut i: usize = 0;
    assert(rv.take(0) =~= Seq::<(Seq<char>, Seq<char>)>::empty());
    while i < rows.len()
        invariant
            i <= rows@.len(),
            rv == rows_view(rows@),
            vault_path@ == "vault_path"@,
            sync_clippings@ == "sync_clippings"@,
            sync_vocab@ == "sync_vocab"@,
            sync_notebooks@ == "sync_notebooks"@,
            auto_sync@ == "auto_sync"@,
            auto_eject@ == "auto_eject"@,
            subfolder@ == "subfolder"@,
            true_text@ == "true"@,
            c@ == config_from_rows(rv.take(i as int), d),
        decreases rows@.len() - i,
    {
        proof {
            lemma_config_keys_distinct();
            assert(config_keys()[0] == "vault_path"@);
            assert(config_keys()[1] == "sync_clippings"@);
            assert(config_keys()[2] == "sync_vocab"@);
            assert(config_keys()[3] == "sync_notebooks"@);
            assert(config_keys()[4] == "auto_sync"@);
            assert(config_keys()[5] == "auto_eject"@);
            assert(config_keys()[6] == "subfolder"@);
        }
        let ghost prev = rv.take(i as int);
        let ghost cur = rv.take(i + 1);
        assert(cur.drop_last() =~= prev);
        assert(cur.last() == (rows@[i as int].0@, rows@[i as int].1@));
        let (k, v) = (&rows[i].0, &rows[i].1);
        if *k == vault_path {
            c.vault_path = v.clone();
        } else if *k == sync_clippings {
            c.sync_clippings = *v == true_text;
        } else if *k == sync_vocab {
            c.sync_vocab = *v == true_text;
        } else if *k == sync_notebooks {
            c.sync_notebooks = *v == true_text;
        } else if *k == auto_sync {
            c.auto_sync = *v == true_text;
        } else if *k == auto_eject {
            c.auto_eject = *v == true_text;
        } else if *k == subfolder {
            c.subfolder = v.clone();
        }
        i = i + 1;
    }
    assert(rv.take(i as int) =~= rv);
    c
}

/// Settings read back from the rows that stored them are the settings that
/// were stored, in whatever order the rows come back and whatever else the
/// table holds: all that counts is that the last row for each setting's key
/// holds the value stored for it.
pub proof fn lemma_config_read_back(
    rows: Seq<(Seq<char>, Seq<char>)>,
    c: SyncConfigView,
    d: SyncConfigView,
)
    requires
        forall|k: int|
            0 <= k < 7 ==> last_value(rows, #[trigger] config_rows(c)[k].0) == Some(
                config_rows(c)[k].1,
            ),
    ensures
        config_from_rows(rows, d) == c,
{
    assert(config_rows(c)[0].0 == "vault_path"@);
    assert(config_rows(c)[1].0 == "sync_clippings"@);
    assert(config_rows(c)[2].0 == "sync_vocab"@);
    assert(config_rows(c)[3].0 == "sync_notebooks"@);
    assert(config_rows(c)[4].0 == "auto_sync"@);
    assert(config_rows(c)[5].0 == "auto_eject"@);
    assert(config_rows(c)[6].0 == "subfolder"@);
    reveal_strlit("true");
    reveal_strlit("false");
    assert(last_value(rows, "vault_path"@) == Some(c.vault_path));
    assert(last_value(rows, "sync_clippings"@) == Some(bool_text(c.sync_clippings)));
    assert(last_value(rows, "sync_vocab"@) == Some(bool_text(c.sync_vocab)));
    assert(last_value(rows, "sync_notebooks"@) == Some(bool_text(c.sync_notebooks)));
    assert(last_value(rows, "auto_sync"@) == Some(bool_text(c.auto_sync)));
    assert(last_value(rows, "auto_eject"@) == Some(bool_text(c.auto_eject)));
    assert(last_value(rows, "subfolder"@) == Some(c.subfolder));
    assert("false"@ != "true"@) by {
        assert("false"@.len() != "true"@.len());
    }
}

/// Settings read back from exactly the rows that stored them are the
/// settings that were stored.
pub proof fn lemma_config_round_trip(c: SyncConfigView, d: SyncConfigView)
    ensures
        config_from_rows(config_rows(c), d) == c,
{
    lemma_config_keys_distinct();
    let rows = config_rows(c);
    assert(config_keys()[0] == "vault_path"@);
    assert(config_keys()[1] == "sync_clippings"@);
    assert(config_keys()[2] == "sync_vocab"@);
    assert(config_keys()[3] == "sync_notebooks"@);
    assert(config_keys()[4] == "auto_sync"@);
    assert(config_keys()[5] == "auto_eject"@);
    assert(config_keys()[6] == "subfolder"@);
    reveal_with_fuel(last_value, 8);
    assert(rows.drop_last() =~= rows.take(6));
    assert(rows.take(6).drop_last() =~= rows.take(5));
    assert(rows.take(5).drop_last() =~= rows.take(4));
    assert(rows.take(4).drop_last() =~= rows.take(3));
    assert(rows.take(3).drop_last() =~= rows.take(2));
    assert(rows.take(2).drop_last() =~= rows.take(1));
    assert(rows.take(1).drop_last() =~= rows.take(0));
    lemma_config_read_back(rows, c, d);
}

/// The clipping type that a stored type name gives: `note` and `bookmark`,
/// in any case, name those types; anything else is a highlight.
pub open spec fn stored_type(lower: Seq<char>) -> ClippingType {
    if lower == "note"@ {
        ClippingType::Note
    } else if lower == "bookmark"@ {
        ClippingType::Bookmark
    } else {
        ClippingType::Highlight
    }
}

/// The clipping type that a stored type name gives. A type's own name reads
/// back as that type.
pub fn clipping_type_from_stored(name: &str) -> (r: ClippingType)
    ensures
        r == stored_type(lowercase(name@)),
        forall|t: ClippingType| name@ == t.name() ==> r == t,
{
    let lower = to_lowercase(name);
    proof {
        reveal_strlit("Highlight");
        reveal_strlit("Note");
        reveal_strlit("Bookmark");
        reveal_strlit("note");
        reveal_strlit("bookmark");
        if name@ == "Note"@ {
            assert(is_ascii_text(name@));
            assert(lower@ =~= "note"@);
        }
        if name@ == "Bookmark"@ {
            assert(is_ascii_text(name@));
            assert(lower@ =~= "bookmark"@);
        }
        if name@ == "Highlight"@ {
            assert(is_ascii_text(name@));
            assert(lower@.len() == 9);
            assert(lower@ != "note"@);
            assert(lower@ != "bookmark"@);
        }
    }
    if lower == String::from_str("note") {
        ClippingType::Note
    } else if lower == String::from_str("bookmark") {
        ClippingType::Bookmark
    } else {
        ClippingType::Highlight
    }
}

/// Where a synchronised notebook's pages are, relative to the vault's base:
/// `Notebooks/{folder}/{safe title}`, or `Notebooks/{safe title}` where the
/// folder is missing or blank.
pub open spec fn summary_folder(title: Seq<char>, folder: Option<Seq<char>>) -> Seq<char> {
    match folder {
        Some(f) => if trim(f).len() > 0 {
            "Notebooks/"@ + trim(f) + "/"@ + sanitized_name(title)
        } else {
            "Notebooks/"@ + sanitized_name(title)
        },
        None => "Notebooks/"@ + sanitized_name(title),
    }
}

/// The summary of a synchronised notebook from its stored row, as the
/// in-app viewer lists it, with no cover yet.
pub fn notebook_summary(
    id: String,
    title: String,
    content_hash: String,
    last_modified: i64,
    synced_at: String,
    relative_folder: Option<String>,
) -> (r: NotebookSummary)
    requires
        display_title_ok(title@),
    ensures
        r.id == id,
        r.title == title,
        r.display_title@ == display_title(title@),
        r.content_hash == content_hash,
        r.last_modified == last_modified,
        r.synced_at == synced_at,
        r.relative_folder@ == summary_folder(title@, relative_folder.deep_view()),
        r.cover_image_path is None,
{
    let display = MarkdownGenerator::notebook_display_title(title.as_str());
    let safe = MarkdownGenerator::sanitize_filename(title.as_str());
    let mut folder = chars_of("Notebooks/");
    match &relative_folder {
        Some(rf) => {
            let f = chars_of(rf.as_str());
            let (a, z) = trim_bounds(f.as_slice(), 0, f.len());
            assert(f@.subrange(0, f@.len() as int) =~= f@);
            if a < z {
                push_chars(&mut folder, copy_range(f.as_slice(), a, z).as_slice());
                push_str(&mut folder, "/");
            }
        },
        None => {},
    }
    push_str(&mut folder, safe.as_str());
    NotebookSummary {
        id,
        title,
        display_title: display,
        content_hash,
        last_modified,
        synced_at,
        relative_folder: string_from_chars(folder.as_slice()),
        cover_image_path: None,
    }
}

} // verus!
