//! Undo journals: where a journal is stored, and its paths made absolute
//! before it is written.
use vstd::prelude::*;
use crate::models::{JournalEntry, JournalEntryView, OperationJournal, entries_view};
use crate::paths::{FsPath, PathView, join_path, parse_path, with_file_name_of, file_stem_of};
use crate::text::{concat, push_str};

verus! {

pub open spec fn hex_digit(d: nat) -> char {
    if d < 10 {
        (('0' as u32) + d) as char
    } else {
        (('a' as u32) + d - 10) as char
    }
}

/// The `k`-th hexadecimal digit (most significant first) of a 128-bit id.
pub open spec fn id_nibble(id: u128, k: int) -> nat {
    ((id >> ((4 * (31 - k)) as u128)) & 0xFu128) as nat
}

/// Number of hex digits before text position `i` of the hyphenated form.
pub open spec fn digits_before(i: int) -> int {
    if i < 8 {
        i
    } else if i < 13 {
        i - 1
    } else if i < 18 {
        i - 2
    } else if i < 23 {
        i - 3
    } else {
        i - 4
    }
}

/// The hyphenated lower-case form of a UUID: `8-4-4-4-12` hex digits.
pub open spec fn uuid_text(id: u128) -> Seq<char> {
    Seq::new(
        36,
        |i: int|
            if i == 8 || i == 13 || i == 18 || i == 23 {
                '-'
            } else {
                hex_digit(id_nibble(id, digits_before(i)))
            },
    )
}

/// `uuid::Uuid::from_u128(id).to_string()`: the hyphenated lower-case form.
#[verifier::external_body]
pub(crate) fn uuid_to_text(id: u128) -> (r: String)
    ensures
        r@ == uuid_text(id),
{
    uuid::Uuid::from_u128(id).to_string()
}

/// What `uuid::Uuid::parse_str` gives for a text, as a number.
pub uninterp spec fn parsed_uuid(text: Seq<char>) -> Option<u128>;

/// `uuid::Uuid::parse_str(text)` as a number. The crate accepts the
/// hyphenated form (also braced, or after `urn:uuid:`) and the plain
/// 32-digit form, in either letter case; the hyphenated lower-case text of
/// an id gives back that id.
#[verifier::external_body]
pub(crate) fn parse_uuid(text: &str) -> (r: Option<u128>)
    ensures
        r == parsed_uuid(text@),
        forall|id: u128| uuid_text(id) == text@ ==> r == Some(id),
{
    uuid::Uuid::parse_str(text).ok().map(|u| u.as_u128())
}

/// The file that holds the journal `id` in `dir`: `<id>.journal.json`.
pub open spec fn journal_path_of(dir: PathView, id: u128) -> PathView {
    join_path(dir, parse_path(uuid_text(id) + ".journal.json"@))
}

/// The file that holds the journal `id` in `dir`.
pub fn journal_path(dir: &FsPath, id: u128) -> (r: FsPath)
    ensures
        r@ == journal_path_of(dir@, id),
{
    let name = concat(uuid_to_text(id).as_str(), ".journal.json");
    dir.join_text(name.as_str())
}

/// `Path::with_extension`: the file name's stem with a new extension (the
/// path unchanged when it has no file name).
pub open spec fn with_extension_of(p: PathView, ext: Seq<char>) -> PathView {
    match file_stem_of(p) {
        Some(stem) => with_file_name_of(
            p,
            if ext.len() == 0 {
                stem
            } else {
                stem + "."@ + ext
            },
        ),
        None => p,
    }
}

/// `Path::with_extension`.
pub fn with_extension(p: &FsPath, ext: &str) -> (r: FsPath)
    ensures
        r@ == with_extension_of(p@, ext@),
{
    match p.file_stem() {
        Some(stem) => {
            let n = crate::text::char_count(ext);
            if n == 0 {
                p.with_file_name(stem.as_str())
            } else {
                let mut name = concat(stem.as_str(), ".");
                push_str(&mut name, ext);
                p.with_file_name(name.as_str())
            }
        },
        None => p.duplicate(),
    }
}

/// The temporary file a journal is first written to, next to its target.
pub fn journal_temp_path(target: &FsPath) -> (r: FsPath)
    ensures
        r@ == with_extension_of(target@, "journal.json.tmp"@),
{
    with_extension(target, "journal.json.tmp")
}

/// A path made absolute against the working directory `cwd`.
pub open spec fn absolute_of(path: PathView, cwd: PathView) -> PathView {
    if path.rooted {
        path
    } else {
        join_path(cwd, path)
    }
}

/// A path made absolute against the working directory `cwd`.
pub fn make_absolute(path: &FsPath, cwd: &FsPath) -> (r: FsPath)
    ensures
        r@ == absolute_of(path@, cwd@),
{
    if path.is_absolute() {
        path.duplicate()
    } else {
        cwd.join(path)
    }
}

pub open spec fn absolute_entry(e: JournalEntryView, cwd: PathView) -> JournalEntryView {
    JournalEntryView { operation_id: e.operation_id, from: absolute_of(e.from, cwd), to: absolute_of(e.to, cwd) }
}

/// The journal with its root and every recorded path made absolute.
pub fn normalize_journal_paths(journal: &OperationJournal, cwd: &FsPath) -> (r: OperationJournal)
    ensures
        r.id == journal.id,
        r.created_at == journal.created_at,
        r.root@ == absolute_of(journal.root@, cwd@),
        entries_view(r.entries@) == entries_view(journal.entries@).map_values(
            |e: JournalEntryView| absolute_entry(e, cwd@),
        ),
{
    let mut entries: Vec<JournalEntry> = Vec::new();
    let mut i: usize = 0;
    while i < journal.entries.len()
        invariant
            i <= journal.entries.len(),
            entries_view(entries@) == entries_view(journal.entries@).take(i as int).map_values(
                |e: JournalEntryView| absolute_entry(e, cwd@),
            ),
        decreases journal.entries.len() - i,
    {
        let e = &journal.entries[i];
        let ghost before = entries@;
        entries.push(
            JournalEntry {
                operation_id: e.operation_id,
                from: make_absolute(&e.from, cwd),
                to: make_absolute(&e.to, cwd),
            },
        );
        proof {
            assert(entries_view(journal.entries@).take(i + 1) =~= entries_view(journal.entries@).take(
                i as int,
            ).push(e@));
            assert(entries_view(entries@) =~= entries_view(before).push(absolute_entry(e@, cwd@)));
            assert(entries_view(journal.entries@).take(i + 1).map_values(
                |e: JournalEntryView| absolute_entry(e, cwd@),
            ) =~= entries_view(journal.entries@).take(i as int).map_values(
                |e: JournalEntryView| absolute_entry(e, cwd@),
            ).push(absolute_entry(e@, cwd@)));
        }
        i += 1;
    }
    assert(entries_view(journal.entries@).take(journal.entries.len() as int) =~= entries_view(
        journal.entries@,
    ));
    OperationJournal {
        id: journal.id,
        created_at: journal.created_at,
        root: make_absolute(&journal.root, cwd),
        entries,
    }
}

/// Law: every path of a normalized journal is absolute, provided the
/// working directory is.
pub proof fn law_normalized_paths_are_absolute(e: JournalEntryView, root: PathView, cwd: PathView)
    requires
        cwd.rooted,
    ensures
        absolute_of(root, cwd).rooted,
        absolute_entry(e, cwd).from.rooted,
        absolute_entry(e, cwd).to.rooted,
{
}

} // verus!
