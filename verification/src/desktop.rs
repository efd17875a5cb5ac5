//! The desktop app's own decisions: which typed paths it accepts, whether a
//! planned or recorded path stays below its root, when a watched folder is
//! due, and what a watched-folder run changes in the saved state.
//!
//! What is on disk reaches these checks through the same `present` and
//! `resolve` probes as the core's containment checks.
use vstd::prelude::*;
use crate::safety::{reported_free, reported_taken};
use crate::containment::{
    AncestorCheck, ancestors_stay_inside, check_ancestors, contained, refused_at, refused_somewhere,
    resolve_failed, resolves_inside, resolves_to,
};
use crate::models::{
    AppStateData, JournalEntryView, OperationJournal, Preset, PresetView, PreviewResult, Rule,
    RuleView, StateView, Timestamp, WatchView, earlier, is_earlier, WatchedFolder, copy_rules,
    entries_view, operations_view, presets_view, rules_view,
};
use crate::paths::{
    FsPath, PathView, extension_of, file_name_of, join_path, parent_of, parse_path, strip_prefix_of,
};
use crate::text::{
    chars_of, concat, copy_string, decimal, decimal_text, ends_with, ends_with_exec,
    eq_ignore_case, eq_ignore_case_exec, owned, push_str, trim, trim_text,
};
use crate::journal::{journal_path, journal_path_of, parse_uuid, parsed_uuid, uuid_text, uuid_to_text};

verus! {

pub open spec fn root_message() -> Seq<char> {
    "Choose an existing folder."@
}

pub open spec fn unresolved_root_message(m: Seq<char>) -> Seq<char> {
    "Could not resolve the selected folder: "@ + m
}

/// The probe answered `answer` for a path with these components.
pub open spec fn probe_answered<E: Fn(&FsPath) -> bool>(probe: E, p: PathView, answer: bool) -> bool {
    exists|a: FsPath| a@ == p && #[trigger] probe.ensures((&a,), answer)
}

/// The folder the user typed, trimmed, must exist and be a folder; it is
/// then resolved to its canonical form.
pub fn validated_root<E, D, R>(raw: &str, present: &E, is_folder: &D, resolve: &R) -> (r: Result<
    FsPath,
    String,
>) where
    E: Fn(&FsPath) -> bool,
    D: Fn(&FsPath) -> bool,
    R: Fn(&FsPath) -> std::result::Result<FsPath, String>,

    requires
        forall|p: &FsPath| present.requires((p,)),
        forall|p: &FsPath| is_folder.requires((p,)),
        forall|p: &FsPath| resolve.requires((p,)),
    ensures
        trim(raw@).len() == 0 ==> (r matches Err(m) && m@ == root_message()),
        r matches Ok(c) ==> {
            &&& probe_answered(*present, parse_path(trim(raw@)), true)
            &&& probe_answered(*is_folder, parse_path(trim(raw@)), true)
            &&& resolves_to(*resolve, parse_path(trim(raw@)), c@)
        },
        r matches Err(m) && m@ == root_message() ==> trim(raw@).len() == 0 || probe_answered(
            *present,
            parse_path(trim(raw@)),
            false,
        ) || probe_answered(*is_folder, parse_path(trim(raw@)), false),
        r matches Err(m) ==> m@ == root_message() || exists|e: Seq<char>|
            m@ == unresolved_root_message(e) && resolve_failed(*resolve, parse_path(trim(raw@)), e)
                && probe_answered(*present, parse_path(trim(raw@)), true) && probe_answered(
                *is_folder,
                parse_path(trim(raw@)),
                true,
            ),
{
    let trimmed = trim_text(raw);
    let path = FsPath::parse(trimmed.as_str());
    if trimmed.as_str().unicode_len() == 0 {
        return Err(owned("Choose an existing folder."));
    }
    let exists = present(&path);
    proof {
        assert(present.ensures((&path,), exists));
        assert(probe_answered(*present, path@, exists));
    }
    if !exists {
        return Err(owned("Choose an existing folder."));
    }
    let folder = is_folder(&path);
    proof {
        assert(is_folder.ensures((&path,), folder));
        assert(probe_answered(*is_folder, path@, folder));
    }
    if !folder {
        return Err(owned("Choose an existing folder."));
    }
    match resolve(&path) {
        Ok(c) => {
            proof {
                assert(resolve.ensures((&path,), Ok(c)));
                assert(resolves_to(*resolve, path@, c@));
            }
            Ok(c)
        },
        Err(m) => {
            let message = concat("Could not resolve the selected folder: ", m.as_str());
            proof {
                assert(resolve.ensures((&path,), Err(m)));
                assert(resolve_failed(*resolve, path@, m@));
                assert(message@ == unresolved_root_message(m@));
                reveal_strlit("Choose an existing folder.");
                reveal_strlit("Could not resolve the selected folder: ");
                assert(message@.len() != root_message().len());
            }
            Err(message)
        },
    }
}

/// The path's extension is `json`, in any letter case.
pub open spec fn json_extension(p: PathView) -> bool {
    extension_of(p) matches Some(e) && eq_ignore_case(e, "json"@)
}

/// Whether the path's extension is `json`, in any letter case.
pub fn has_json_extension(path: &FsPath) -> (r: bool)
    ensures
        r == json_extension(path@),
{
    match path.extension() {
        Some(e) => {
            let a = chars_of(e.as_str());
            let b = chars_of("json");
            eq_ignore_case_exec(&a, &b)
        },
        None => false,
    }
}

/// A settings file path the app accepts before looking at the disk: not
/// blank, absolute, with a `.json` extension.
pub open spec fn json_candidate(raw: Seq<char>) -> bool {
    trim(raw).len() > 0 && parse_path(trim(raw)).rooted && json_extension(parse_path(trim(raw)))
}

fn json_path_candidate(raw: &str, message: &str) -> (r: Result<FsPath, String>)
    ensures
        r is Ok <==> json_candidate(raw@),
        r matches Ok(p) ==> p@ == parse_path(trim(raw@)),
        r matches Err(m) ==> m@ == message@,
{
    let trimmed = trim_text(raw);
    let path = FsPath::parse(trimmed.as_str());
    if trimmed.as_str().unicode_len() == 0 || !path.is_absolute() || !has_json_extension(&path) {
        return Err(owned(message));
    }
    Ok(path)
}

pub open spec fn import_message() -> Seq<char> {
    "Choose an absolute .json settings file."@
}

pub open spec fn export_message() -> Seq<char> {
    "Choose an absolute .json export path."@
}

/// The settings file to import, as typed; the disk is asked next whether it
/// is a regular file.
pub fn import_path_candidate(raw: &str) -> (r: Result<FsPath, String>)
    ensures
        r is Ok <==> json_candidate(raw@),
        r matches Ok(p) ==> p@ == parse_path(trim(raw@)),
        r matches Err(m) ==> m@ == import_message(),
{
    json_path_candidate(raw, "Choose an absolute .json settings file.")
}

/// The file to export the settings to, as typed; the disk is asked next
/// whether it is a regular file and its folder exists.
pub fn export_path_candidate(raw: &str) -> (r: Result<FsPath, String>)
    ensures
        r is Ok <==> json_candidate(raw@),
        r matches Ok(p) ==> p@ == parse_path(trim(raw@)),
        r matches Err(m) ==> m@ == export_message(),
{
    json_path_candidate(raw, "Choose an absolute .json export path.")
}

pub open spec fn export_name_message() -> Seq<char> {
    "The selected export filename is invalid."@
}

/// The export file placed in its resolved folder: the folder joined with
/// the chosen file name.
pub fn export_target(resolved_parent: &FsPath, path: &FsPath) -> (r: Result<FsPath, String>)
    ensures
        r is Ok <==> file_name_of(path@) is Some,
        r matches Ok(t) ==> t@ == join_path(
            resolved_parent@,
            parse_path(file_name_of(path@).unwrap()),
        ),
        r matches Err(m) ==> m@ == export_name_message(),
{
    match path.file_name() {
        Some(name) => Ok(resolved_parent.join_text(name.as_str())),
        None => Err(owned("The selected export filename is invalid.")),
    }
}

/// A planned or recorded path is safe for the app when, with `must_exist`,
/// it resolves below the root, and otherwise when it lies below the root,
/// names no parent component, and every existing folder above it resolves
/// below the root.
pub fn safe_operation_path<E, R>(
    root: &FsPath,
    path: &FsPath,
    must_exist: bool,
    present: &E,
    resolve: &R,
) -> (r: bool) where
    E: Fn(&FsPath) -> bool,
    R: Fn(&FsPath) -> std::result::Result<FsPath, String>,

    requires
        forall|p: &FsPath| present.requires((p,)),
        forall|p: &FsPath| resolve.requires((p,)),
    ensures
        must_exist && r ==> resolves_inside(*resolve, path@, root@),
        must_exist && !r ==> refused_at(*resolve, path@, root@),
        !must_exist && r ==> contained(path@, root@) && ancestors_stay_inside(
            *present,
            *resolve,
            root@,
            strip_prefix_of(path@, root@)->0,
        ),
        !must_exist && !contained(path@, root@) ==> !r,
        !must_exist && !r ==> !contained(path@, root@) || refused_somewhere(*resolve, root@),
{
    if must_exist {
        return match resolve(path) {
            Ok(candidate) => {
                let inside = candidate.starts_with(root);
                proof {
                    assert(resolve.ensures((path,), Ok(candidate)));
                    assert(resolves_to(*resolve, path@, candidate@));
                }
                inside
            },
            Err(m) => {
                proof {
                    assert(resolve.ensures((path,), Err(m)));
                    assert(resolve_failed(*resolve, path@, m@));
                }
                false
            },
        };
    }
    let relative = match path.strip_prefix(root) {
        None => return false,
        Some(rel) => rel,
    };
    if relative.escapes() {
        return false;
    }
    match check_ancestors(root, &relative, present, resolve) {
        AncestorCheck::Inside(_) => true,
        _ => false,
    }
}

/// A path `safe_operation_path` refuses below `root`: with `must_exist`,
/// one the probe could not resolve or resolved outside `root`; otherwise
/// one not below `root` (or naming a parent component), or on whose way the
/// probe refused a folder.
pub open spec fn operation_path_refused<R: Fn(&FsPath) -> std::result::Result<FsPath, String>>(
    resolve: R,
    root: PathView,
    p: PathView,
    must_exist: bool,
) -> bool {
    if must_exist {
        refused_at(resolve, p, root)
    } else {
        !contained(p, root) || refused_somewhere(resolve, root)
    }
}

pub open spec fn escaped_plan_message() -> Seq<char> {
    "A planned operation escaped the selected root and was blocked."@
}

/// Before executing: every source must resolve below the root and every
/// destination must be a safe path below it.
pub fn check_planned_operations<E, R>(
    root: &FsPath,
    preview: &PreviewResult,
    present: &E,
    resolve: &R,
) -> (r: Result<(), String>) where
    E: Fn(&FsPath) -> bool,
    R: Fn(&FsPath) -> std::result::Result<FsPath, String>,

    requires
        forall|p: &FsPath| present.requires((p,)),
        forall|p: &FsPath| resolve.requires((p,)),
    ensures
        r is Ok ==> forall|i: int|
            0 <= i < preview.operations.len() ==> resolves_inside(
                *resolve,
                (#[trigger] operations_view(preview.operations@)[i]).source,
                root@,
            ) && contained(operations_view(preview.operations@)[i].destination, root@)
                && ancestors_stay_inside(
                *present,
                *resolve,
                root@,
                strip_prefix_of(operations_view(preview.operations@)[i].destination, root@)->0,
            ),
        (exists|i: int|
            0 <= i < preview.operations.len() && !contained(
                (#[trigger] operations_view(preview.operations@)[i]).destination,
                root@,
            )) ==> r is Err,
        r matches Err(m) ==> m@ == escaped_plan_message(),
        preview.operations.len() == 0 ==> r is Ok,
        r is Err ==> exists|i: int|
            0 <= i < preview.operations.len() && (operation_path_refused(
                *resolve,
                root@,
                (#[trigger] operations_view(preview.operations@)[i]).source,
                true,
            ) || operation_path_refused(*resolve, root@, operations_view(preview.operations@)[i].destination, false)),
{
    let mut i: usize = 0;
    while i < preview.operations.len()
        invariant
            i <= preview.operations.len(),
            forall|p: &FsPath| present.requires((p,)),
            forall|p: &FsPath| resolve.requires((p,)),
            forall|j: int|
                0 <= j < i ==> resolves_inside(
                    *resolve,
                    (#[trigger] operations_view(preview.operations@)[j]).source,
                    root@,
                ) && contained(operations_view(preview.operations@)[j].destination, root@)
                    && ancestors_stay_inside(
                    *present,
                    *resolve,
                    root@,
                    strip_prefix_of(operations_view(preview.operations@)[j].destination, root@)->0,
                ),
        decreases preview.operations.len() - i,
    {
        let op = &preview.operations[i];
        assert(operations_view(preview.operations@)[i as int] == op@);
        if !safe_operation_path(root, &op.source, true, present, resolve) || !safe_operation_path(
            root,
            &op.destination,
            false,
            present,
            resolve,
        ) {
            return Err(owned("A planned operation escaped the selected root and was blocked."));
        }
        i += 1;
    }
    Ok(())
}

pub open spec fn escaped_journal_message() -> Seq<char> {
    "The undo journal contains a path outside its recorded root and was blocked."@
}

/// Before undoing: every recorded path must be a safe path below the
/// journal's (already resolved) root.
pub fn check_journal_paths<E, R>(
    root: &FsPath,
    journal: &OperationJournal,
    present: &E,
    resolve: &R,
) -> (r: Result<(), String>) where
    E: Fn(&FsPath) -> bool,
    R: Fn(&FsPath) -> std::result::Result<FsPath, String>,

    requires
        forall|p: &FsPath| present.requires((p,)),
        forall|p: &FsPath| resolve.requires((p,)),
    ensures
        r is Ok ==> forall|i: int|
            0 <= i < journal.entries.len() ==> contained(
                (#[trigger] entries_view(journal.entries@)[i]).to,
                root@,
            ) && contained(entries_view(journal.entries@)[i].from, root@) && ancestors_stay_inside(
                *present,
                *resolve,
                root@,
                strip_prefix_of(entries_view(journal.entries@)[i].to, root@)->0,
            ) && ancestors_stay_inside(
                *present,
                *resolve,
                root@,
                strip_prefix_of(entries_view(journal.entries@)[i].from, root@)->0,
            ),
        (exists|i: int|
            0 <= i < journal.entries.len() && (!contained(
                (#[trigger] entries_view(journal.entries@)[i]).to,
                root@,
            ) || !contained(entries_view(journal.entries@)[i].from, root@))) ==> r is Err,
        r matches Err(m) ==> m@ == escaped_journal_message(),
        journal.entries.len() == 0 ==> r is Ok,
        r is Err ==> exists|i: int|
            0 <= i < journal.entries.len() && (operation_path_refused(
                *resolve,
                root@,
                (#[trigger] entries_view(journal.entries@)[i]).to,
                false,
            ) || operation_path_refused(*resolve, root@, entries_view(journal.entries@)[i].from, false)),
{
    let mut i: usize = 0;
    while i < journal.entries.len()
        invariant
            i <= journal.entries.len(),
            forall|p: &FsPath| present.requires((p,)),
            forall|p: &FsPath| resolve.requires((p,)),
            forall|j: int|
                0 <= j < i ==> contained((#[trigger] entries_view(journal.entries@)[j]).to, root@)
                    && contained(entries_view(journal.entries@)[j].from, root@) && ancestors_stay_inside(
                    *present,
                    *resolve,
                    root@,
                    strip_prefix_of(entries_view(journal.entries@)[j].to, root@)->0,
                ) && ancestors_stay_inside(
                    *present,
                    *resolve,
                    root@,
                    strip_prefix_of(entries_view(journal.entries@)[j].from, root@)->0,
                ),
        decreases journal.entries.len() - i,
    {
        let entry = &journal.entries[i];
        assert(entries_view(journal.entries@)[i as int] == entry@);
        if !safe_operation_path(root, &entry.to, false, present, resolve) || !safe_operation_path(
            root,
            &entry.from,
            false,
            present,
            resolve,
        ) {
            return Err(
                owned("The undo journal contains a path outside its recorded root and was blocked."),
            );
        }
        i += 1;
    }
    Ok(())
}

/// A watched folder is due when it is enabled, its interval is at least five
/// minutes, and it never ran or its interval has passed since it last ran.
pub open spec fn watch_due(w: WatchView, now: Timestamp) -> bool {
    &&& w.enabled
    &&& w.interval_minutes >= 5
    &&& match w.last_run_at {
        None => true,
        Some(t) => {
            let due = t.secs + 60 * w.interval_minutes;
            now.secs > due || (now.secs == due && now.nanos >= t.nanos)
        },
    }
}

/// Whether the watched folder is due at `now`.
pub fn watch_is_due(watch: &WatchedFolder, now: Timestamp) -> (r: bool)
    ensures
        r == watch_due(watch@, now),
{
    if !watch.enabled || watch.interval_minutes < 5 {
        return false;
    }
    match watch.last_run_at {
        None => true,
        Some(t) => {
            let due: i128 = t.secs as i128 + 60 * (watch.interval_minutes as i128);
            let current: i128 = now.secs as i128;
            current > due || (current == due && now.nanos >= t.nanos)
        },
    }
}

/// The rules of the last preset with the given identifier (the presets are
/// looked up by identifier, a later one replacing an earlier one); none
/// when there is no such preset or no identifier.
pub open spec fn preset_rules_of(presets: Seq<PresetView>, id: u128) -> Seq<RuleView>
    decreases presets.len(),
{
    if presets.len() == 0 {
        Seq::empty()
    } else if presets.last().id == id {
        presets.last().rules
    } else {
        preset_rules_of(presets.drop_last(), id)
    }
}

pub open spec fn watch_rules(presets: Seq<PresetView>, preset_id: Option<u128>) -> Seq<RuleView> {
    match preset_id {
        Some(id) => preset_rules_of(presets, id),
        None => Seq::empty(),
    }
}

/// The rules a watched folder runs with.
pub fn rules_for_watch(presets: &Vec<Preset>, preset_id: Option<u128>) -> (r: Vec<Rule>)
    ensures
        rules_view(r@) == watch_rules(presets_view(presets@), preset_id),
{
    let id = match preset_id {
        None => {
            let r: Vec<Rule> = Vec::new();
            assert(rules_view(r@) =~= Seq::<RuleView>::empty());
            return r;
        },
        Some(id) => id,
    };
    let ghost all = presets_view(presets@);
    let mut n: usize = presets.len();
    assert(all.take(n as int) =~= all);
    while n > 0
        invariant
            n <= presets.len(),
            preset_id == Some(id),
            all == presets_view(presets@),
            preset_rules_of(all, id) == preset_rules_of(all.take(n as int), id),
        decreases n,
    {
        let p = &presets[n - 1];
        assert(all.take(n as int).last() == p@);
        assert(all.take(n as int).drop_last() =~= all.take(n - 1));
        if p.id == id {
            return copy_rules(&p.rules);
        }
        n -= 1;
    }
    let r: Vec<Rule> = Vec::new();
    assert(rules_view(r@) =~= Seq::<RuleView>::empty());
    r
}

/// How many undo-history identifiers the app keeps.
pub open spec fn kept_journal_ids() -> nat {
    20
}

/// A watched folder that ran at `now`: its last run is `now`, and the
/// run's journal is the newest of the undo history.
pub fn note_watch_run(state: &mut AppStateData, index: usize, journal_id: u128, now: Timestamp)
    requires
        index < old(state).watched_folders.len(),
    ensures
        final(state)@ == (StateView {
            watched_folders: old(state)@.watched_folders.update(
                index as int,
                WatchView { last_run_at: Some(now), ..old(state)@.watched_folders[index as int] },
            ),
            recent_journal_ids: old(state)@.recent_journal_ids.insert(0, journal_id),
            ..old(state)@
        }),
{
    let w = &state.watched_folders[index];
    let updated = WatchedFolder {
        id: w.id,
        path: copy_string(&w.path),
        preset_id: w.preset_id,
        interval_minutes: w.interval_minutes,
        enabled: w.enabled,
        last_run_at: Some(now),
    };
    let ghost before = state@;
    state.watched_folders.set(index, updated);
    state.recent_journal_ids.insert(0, journal_id);
    proof {
        assert(state@.watched_folders =~= before.watched_folders.update(index as int, updated@));
    }
}

/// After the watched folders ran: only the newest 20 undo-history
/// identifiers are kept.
pub fn keep_recent_journals(state: &mut AppStateData)
    ensures
        final(state)@ == (StateView {
            recent_journal_ids: if old(state)@.recent_journal_ids.len() <= kept_journal_ids() {
                old(state)@.recent_journal_ids
            } else {
                old(state)@.recent_journal_ids.take(kept_journal_ids() as int)
            },
            ..old(state)@
        }),
{
    let ghost before = state@;
    state.recent_journal_ids.truncate(20);
    proof {
        if before.recent_journal_ids.len() > 20 {
            assert(state@.recent_journal_ids =~= before.recent_journal_ids.take(20));
        } else {
            assert(state@.recent_journal_ids =~= before.recent_journal_ids);
        }
    }
}

/// A watched folder that was checked at `now` and needed no change: its
/// last run is `now`; the undo history is unchanged.
pub fn note_watch_check(state: &mut AppStateData, index: usize, now: Timestamp)
    requires
        index < old(state).watched_folders.len(),
    ensures
        final(state)@ == (StateView {
            watched_folders: old(state)@.watched_folders.update(
                index as int,
                WatchView { last_run_at: Some(now), ..old(state)@.watched_folders[index as int] },
            ),
            ..old(state)@
        }),
{
    let w = &state.watched_folders[index];
    let updated = WatchedFolder {
        id: w.id,
        path: copy_string(&w.path),
        preset_id: w.preset_id,
        interval_minutes: w.interval_minutes,
        enabled: w.enabled,
        last_run_at: Some(now),
    };
    let ghost before = state@;
    state.watched_folders.set(index, updated);
    proof {
        assert(state@.watched_folders =~= before.watched_folders.update(index as int, updated@));
    }
}

pub open spec fn already_organized_message() -> Seq<char> {
    "A watched folder is already organized."@
}

pub open spec fn uninspected_message() -> Seq<char> {
    "A watched folder needed no changes, but some entries could not be inspected."@
}

/// What a due watch does once its preview is made.
#[derive(Clone, Debug, PartialEq, Eq)]
pub enum WatchDecision {
    /// Carry out the planned moves.
    Execute,
    /// Nothing to move: record the check, with this message, and write no
    /// journal.
    NoChange(String),
}

/// A due watch executes only a preview that plans a move; otherwise the
/// folder was already organized, or needed no change while some entries
/// could not be inspected.
pub fn watch_decision(preview: &PreviewResult) -> (r: WatchDecision)
    ensures
        r is Execute <==> preview.operations.len() > 0,
        r matches WatchDecision::NoChange(m) ==> m@ == if preview.recoverable_errors.len() == 0 {
            already_organized_message()
        } else {
            uninspected_message()
        },
{
    if preview.operations.len() > 0 {
        WatchDecision::Execute
    } else if preview.recoverable_errors.len() == 0 {
        WatchDecision::NoChange(owned("A watched folder is already organized."))
    } else {
        WatchDecision::NoChange(
            owned("A watched folder needed no changes, but some entries could not be inspected."),
        )
    }
}

/// The largest settings file, in bytes, that the app reads or imports: 16 MiB.
pub open spec fn max_state_bytes() -> nat {
    16 * 1024 * 1024
}

/// Whether a settings file of `bytes` bytes is within the supported size.
pub fn state_size_allowed(bytes: u64) -> (r: bool)
    ensures
        r == (bytes <= max_state_bytes()),
{
    bytes <= 16 * 1024 * 1024
}

/// What the app found at a log path before writing to it.
#[derive(Clone, Copy, Debug, PartialEq, Eq, Structural)]
pub enum LogEntry {
    /// Nothing is there.
    Missing,
    /// Its metadata could not be read.
    Unreadable,
    /// A link, a folder or another kind of entry.
    NotAFile,
    /// A regular file of this many bytes.
    File(u64),
}

/// What to do with the operation log before appending a record.
#[derive(Clone, Copy, Debug, PartialEq, Eq, Structural)]
pub enum LogAction {
    /// Append to it as it is (creating it when missing).
    Append,
    /// Move it aside as the previous segment, then start a new one.
    Rotate,
    /// Write nothing: it is not a regular file the app can trust.
    Refuse,
}

/// The operation log is appended to while under `max_bytes`, rotated once
/// it reaches them, and never written through a link or a non-file.
pub open spec fn log_action_for(entry: LogEntry, max_bytes: u64) -> LogAction {
    match entry {
        LogEntry::Missing => LogAction::Append,
        LogEntry::Unreadable => LogAction::Refuse,
        LogEntry::NotAFile => LogAction::Refuse,
        LogEntry::File(len) => if len < max_bytes {
            LogAction::Append
        } else {
            LogAction::Rotate
        },
    }
}

/// What to do with the operation log before appending a record.
pub fn operation_log_action(entry: LogEntry, max_bytes: u64) -> (r: LogAction)
    ensures
        r == log_action_for(entry, max_bytes),
{
    match entry {
        LogEntry::Missing => LogAction::Append,
        LogEntry::Unreadable => LogAction::Refuse,
        LogEntry::NotAFile => LogAction::Refuse,
        LogEntry::File(len) => if len < max_bytes {
            LogAction::Append
        } else {
            LogAction::Rotate
        },
    }
}

/// A rotation may replace the previous segment only when nothing is there
/// or it is a regular file; a link or anything else stops the rotation.
pub fn previous_segment_replaceable(previous: LogEntry) -> (r: bool)
    ensures
        r == (previous is Missing || previous is File),
{
    match previous {
        LogEntry::Missing => true,
        LogEntry::File(_) => true,
        _ => false,
    }
}

pub open spec fn watch_done_message(completed: nat) -> Seq<char> {
    "A watched folder completed "@ + decimal(completed) + " change(s)."@
}

/// The message for a watched folder whose run completed `completed` moves.
pub fn watch_done_text(completed: usize) -> (r: String)
    ensures
        r@ == watch_done_message(completed as nat),
{
    let mut r = concat("A watched folder completed ", decimal_text(completed).as_str());
    push_str(&mut r, " change(s).");
    r
}


/// Whether a file name is that of an undo journal.
pub fn is_journal_file_name(name: &str) -> (r: bool)
    ensures
        r == ends_with(name@, ".journal.json"@),
{
    let a = chars_of(name);
    let b = chars_of(".journal.json");
    ends_with_exec(&a, &b)
}

/// How many entries are counted.
pub open spec fn count_true(b: Seq<bool>) -> nat
    decreases b.len(),
{
    if b.len() == 0 {
        0
    } else {
        count_true(b.drop_last()) + if b.last() {
            1nat
        } else {
            0nat
        }
    }
}

/// `counted[k]` says whether entry `k` can still be undone, as the probe
/// answered: its moved file is there and its original path is free.
pub open spec fn undo_answers<E: Fn(&FsPath) -> bool>(
    entries: Seq<JournalEntryView>,
    counted: Seq<bool>,
    present: E,
) -> bool {
    &&& counted.len() == entries.len()
    &&& forall|k: int|
        0 <= k < entries.len() ==> (#[trigger] counted[k] ==> reported_taken(present, entries[k].to)
            && reported_free(present, entries[k].from)) && (!counted[k] ==> reported_free(
            present,
            entries[k].to,
        ) || reported_taken(present, entries[k].from))
}

/// How many of a journal's moves can still be undone: the moved file is
/// there and its original path is free, as the `present` probe answers.
pub fn available_to_undo<E: Fn(&FsPath) -> bool>(journal: &OperationJournal, present: &E) -> (r:
    usize)
    requires
        forall|p: &FsPath| present.requires((p,)),
    ensures
        exists|counted: Seq<bool>|
            undo_answers(entries_view(journal.entries@), counted, *present) && r == count_true(
                counted,
            ),
{
    let ghost entries = entries_view(journal.entries@);
    let ghost mut counted: Seq<bool> = Seq::empty();
    let mut count: usize = 0;
    let mut i: usize = 0;
    while i < journal.entries.len()
        invariant
            i <= journal.entries.len(),
            entries == entries_view(journal.entries@),
            count <= i,
            forall|p: &FsPath| present.requires((p,)),
            undo_answers(entries.take(i as int), counted, *present),
            count == count_true(counted),
        decreases journal.entries.len() - i,
    {
        let entry = &journal.entries[i];
        assert(entries[i as int] == entry@);
        let there = present(&entry.to);
        let free = !present(&entry.from);
        let counts = there && free;
        proof {
            let before = counted;
            counted = counted.push(counts);
            assert(counted.drop_last() =~= before);
            if counts {
                assert(present.ensures((&entry.to,), true));
                assert(present.ensures((&entry.from,), false));
                assert(reported_taken(*present, entry.to@));
                assert(reported_free(*present, entry.from@));
            } else if !there {
                assert(present.ensures((&entry.to,), false));
                assert(reported_free(*present, entry.to@));
            } else {
                assert(present.ensures((&entry.from,), true));
                assert(reported_taken(*present, entry.from@));
            }
            let t = entries.take(i + 1);
            assert forall|k: int| 0 <= k < t.len() implies (#[trigger] counted[k] ==> reported_taken(
                *present,
                t[k].to,
            ) && reported_free(*present, t[k].from)) && (!counted[k] ==> reported_free(
                *present,
                t[k].to,
            ) || reported_taken(*present, t[k].from)) by {
                if k < i {
                    assert(counted[k] == before[k]);
                    assert(t[k] == entries.take(i as int)[k]);
                }
            }
        }
        if counts {
            count += 1;
        }
        i += 1;
    }
    assert(entries.take(journal.entries.len() as int) =~= entries);
    count
}

/// What the undo history shows of one journal.
#[derive(Clone, Debug, PartialEq, Eq)]
pub struct JournalSummary {
    pub id: u128,
    pub created_at: Timestamp,
    pub root: FsPath,
    pub entry_count: usize,
    pub available_to_undo: usize,
}

pub struct SummaryView {
    pub id: u128,
    pub created_at: Timestamp,
    pub root: PathView,
    pub entry_count: usize,
    pub available_to_undo: usize,
}

impl View for JournalSummary {
    type V = SummaryView;

    open spec fn view(&self) -> SummaryView {
        SummaryView {
            id: self.id,
            created_at: self.created_at,
            root: self.root@,
            entry_count: self.entry_count,
            available_to_undo: self.available_to_undo,
        }
    }
}

pub open spec fn summaries_view(v: Seq<JournalSummary>) -> Seq<SummaryView> {
    v.map_values(|x: JournalSummary| x@)
}

/// The summary of a journal, with the number of its moves that can still
/// be undone.
pub fn summarize_journal(journal: &OperationJournal, available: usize) -> (r: JournalSummary)
    ensures
        r.id == journal.id,
        r.created_at == journal.created_at,
        r.root@ == journal.root@,
        r.entry_count == journal.entries.len(),
        r.available_to_undo == available,
{
    JournalSummary {
        id: journal.id,
        created_at: journal.created_at,
        root: journal.root.duplicate(),
        entry_count: journal.entries.len(),
        available_to_undo: available,
    }
}

/// `x` placed into a list that is newest first: after every entry that is
/// not older than it, before the older ones.
pub open spec fn insert_newest(sorted: Seq<SummaryView>, x: SummaryView) -> Seq<SummaryView>
    decreases sorted.len(),
{
    if sorted.len() == 0 {
        seq![x]
    } else if earlier(sorted.last().created_at, x.created_at) {
        insert_newest(sorted.drop_last(), x).push(sorted.last())
    } else {
        sorted.push(x)
    }
}

/// The summaries newest first; those created at the same time keep their
/// order (a stable sort by creation time, descending).
pub open spec fn newest_first(s: Seq<SummaryView>) -> Seq<SummaryView>
    decreases s.len(),
{
    if s.len() == 0 {
        Seq::empty()
    } else {
        insert_newest(newest_first(s.drop_last()), s.last())
    }
}

/// How many journals the undo history lists.
pub open spec fn listed_journals() -> nat {
    100
}

/// The undo history: the 100 newest journals, newest first.
pub open spec fn journal_history(s: Seq<SummaryView>) -> Seq<SummaryView> {
    let sorted = newest_first(s);
    if sorted.len() <= listed_journals() {
        sorted
    } else {
        sorted.take(listed_journals() as int)
    }
}

/// Newest first: no entry is older than one after it.
pub open spec fn is_newest_first(s: Seq<SummaryView>) -> bool {
    forall|i: int, j: int| 0 <= i < j < s.len() ==> !earlier(s[i].created_at, s[j].created_at)
}

proof fn lemma_insert_at(s: Seq<SummaryView>, x: SummaryView, pos: int)
    requires
        0 <= pos <= s.len(),
        forall|k: int| pos <= k < s.len() ==> earlier(#[trigger] s[k].created_at, x.created_at),
        pos == 0 || !earlier(s[pos - 1].created_at, x.created_at),
    ensures
        insert_newest(s, x) == s.insert(pos, x),
    decreases s.len(),
{
    if s.len() == 0 {
        assert(s.insert(pos, x) =~= seq![x]);
    } else if pos == s.len() {
        assert(s.insert(pos, x) =~= s.push(x));
    } else {
        let d = s.drop_last();
        assert(earlier(s[s.len() - 1].created_at, x.created_at));
        assert forall|k: int| pos <= k < d.len() implies earlier(#[trigger] d[k].created_at, x.created_at) by {
            assert(d[k] == s[k]);
        }
        if pos > 0 {
            assert(d[pos - 1] == s[pos - 1]);
        }
        lemma_insert_at(d, x, pos);
        assert(d.insert(pos, x).push(s.last()) =~= s.insert(pos, x));
    }
}

proof fn lemma_insert_keeps_order(s: Seq<SummaryView>, x: SummaryView)
    requires
        is_newest_first(s),
    ensures
        is_newest_first(insert_newest(s, x)),
        insert_newest(s, x).len() == s.len() + 1,
        forall|k: int|
            0 <= k < insert_newest(s, x).len() ==> #[trigger] insert_newest(s, x)[k] == x || s.contains(
                insert_newest(s, x)[k],
            ),
    decreases s.len(),
{
    if s.len() > 0 {
        let d = s.drop_last();
        assert(is_newest_first(d));
        if earlier(s.last().created_at, x.created_at) {
            lemma_insert_keeps_order(d, x);
            let t = insert_newest(d, x);
            assert forall|k: int| 0 <= k < t.len() implies !earlier(
                #[trigger] t[k].created_at,
                s.last().created_at,
            ) by {
                if t[k] != x {
                    assert(d.contains(t[k]));
                    let m = choose|m: int| 0 <= m < d.len() && d[m] == t[k];
                    assert(s[m] == d[m]);
                }
            }
            assert forall|k: int| 0 <= k < d.len() implies #[trigger] s.contains(d[k]) by {
                assert(s[k] == d[k]);
            }
        } else {
            assert forall|k: int| 0 <= k < s.len() implies !earlier(
                #[trigger] s[k].created_at,
                x.created_at,
            ) by {
                if k < s.len() - 1 {
                    assert(!earlier(s[k].created_at, s.last().created_at));
                }
            }
            assert forall|k: int| 0 <= k < s.len() implies #[trigger] s.contains(s.push(x)[k]) by {
                assert(s.push(x)[k] == s[k]);
            }
        }
    }
}

/// Law: the undo history lists newest first, and at most 100 journals.
pub proof fn law_history_is_newest_first(s: Seq<SummaryView>)
    ensures
        is_newest_first(journal_history(s)),
        journal_history(s).len() == if s.len() <= listed_journals() {
            s.len()
        } else {
            listed_journals()
        },
{
    lemma_newest_first_sorted(s);
}

proof fn lemma_newest_first_sorted(s: Seq<SummaryView>)
    ensures
        is_newest_first(newest_first(s)),
        newest_first(s).len() == s.len(),
    decreases s.len(),
{
    if s.len() > 0 {
        lemma_newest_first_sorted(s.drop_last());
        lemma_insert_keeps_order(newest_first(s.drop_last()), s.last());
    }
}

/// The undo history: the 100 newest journals, newest first.
pub fn newest_journals(summaries: &Vec<JournalSummary>) -> (r: Vec<JournalSummary>)
    ensures
        summaries_view(r@) == journal_history(summaries_view(summaries@)),
{
    let ghost all = summaries_view(summaries@);
    let mut sorted: Vec<JournalSummary> = Vec::new();
    let mut i: usize = 0;
    assert(all.take(0) =~= Seq::<SummaryView>::empty());
    while i < summaries.len()
        invariant
            i <= summaries.len(),
            all == summaries_view(summaries@),
            summaries_view(sorted@) == newest_first(all.take(i as int)),
        decreases summaries.len() - i,
    {
        let x = &summaries[i];
        assert(all[i as int] == x@);
        let mut pos: usize = sorted.len();
        while pos > 0 && is_earlier(sorted[pos - 1].created_at, x.created_at)
            invariant
                pos <= sorted.len(),
                forall|k: int|
                    pos <= k < sorted.len() ==> earlier(
                        #[trigger] summaries_view(sorted@)[k].created_at,
                        x.created_at,
                    ),
            decreases pos,
        {
            assert(summaries_view(sorted@)[pos - 1] == sorted@[pos - 1]@);
            pos -= 1;
        }
        proof {
            if pos > 0 {
                assert(summaries_view(sorted@)[pos - 1] == sorted@[pos - 1]@);
            }
            lemma_insert_at(summaries_view(sorted@), x@, pos as int);
            assert(all.take(i + 1).drop_last() =~= all.take(i as int));
            assert(all.take(i + 1).last() == x@);
        }
        let ghost before = sorted@;
        let copy = JournalSummary {
            id: x.id,
            created_at: x.created_at,
            root: x.root.duplicate(),
            entry_count: x.entry_count,
            available_to_undo: x.available_to_undo,
        };
        sorted.insert(pos, copy);
        proof {
            assert(summaries_view(sorted@) =~= summaries_view(before).insert(pos as int, x@));
        }
        i += 1;
    }
    assert(all.take(summaries.len() as int) =~= all);
    let ghost full = sorted@;
    sorted.truncate(100);
    proof {
        if full.len() > 100 {
            assert(summaries_view(sorted@) =~= summaries_view(full).take(100));
        } else {
            assert(summaries_view(sorted@) =~= summaries_view(full));
        }
    }
    sorted
}

pub open spec fn no_parent_message() -> Seq<char> {
    "The data path has no parent directory."@
}

/// The name used for a data file that has no name of its own.
pub open spec fn fallback_data_name() -> Seq<char> {
    "sortsmith.json"@
}

/// Where an atomic write of `path` first writes (`.<name>.<nonce>.tmp`) and
/// where it keeps the old file meanwhile (`.<name>.<nonce>.bak`), both in
/// the file's folder; `<name>` is the file's name, or `sortsmith.json`.
pub open spec fn staging_name(path: PathView, nonce: u128, ending: Seq<char>) -> Seq<char> {
    let name = match file_name_of(path) {
        Some(n) => n,
        None => fallback_data_name(),
    };
    "."@ + name + "."@ + uuid_text(nonce) + ending
}

/// The temporary and backup files of an atomic write of `path`.
pub fn staging_paths(path: &FsPath, nonce: u128) -> (r: Result<(FsPath, FsPath), String>)
    ensures
        r is Ok <==> parent_of(path@) is Some,
        r matches Ok((temp, backup)) ==> temp@ == join_path(
            parent_of(path@).unwrap(),
            parse_path(staging_name(path@, nonce, ".tmp"@)),
        ) && backup@ == join_path(
            parent_of(path@).unwrap(),
            parse_path(staging_name(path@, nonce, ".bak"@)),
        ),
        r matches Err(m) ==> m@ == no_parent_message(),
{
    let parent = match path.parent() {
        Some(p) => p,
        None => return Err(owned("The data path has no parent directory.")),
    };
    let name = match path.file_name() {
        Some(n) => n,
        None => owned("sortsmith.json"),
    };
    let mut stem = concat(".", name.as_str());
    push_str(&mut stem, ".");
    push_str(&mut stem, uuid_to_text(nonce).as_str());
    let mut temp = copy_string(&stem);
    push_str(&mut temp, ".tmp");
    let mut backup = stem;
    push_str(&mut backup, ".bak");
    Ok((parent.join_text(temp.as_str()), parent.join_text(backup.as_str())))
}


pub open spec fn invalid_journal_id_message() -> Seq<char> {
    "Invalid journal identifier."@
}

/// The journal file an undo request names: the identifier must parse as a
/// UUID; the file is `<id>.journal.json` in `dir`.
pub fn journal_file_for(dir: &FsPath, journal_id: &str) -> (r: Result<FsPath, String>)
    ensures
        r is Ok <==> parsed_uuid(journal_id@) is Some,
        r matches Ok(p) ==> p@ == journal_path_of(dir@, parsed_uuid(journal_id@)->0),
        r matches Err(m) ==> m@ == invalid_journal_id_message(),
{
    match parse_uuid(journal_id) {
        Some(id) => Ok(journal_path(dir, id)),
        None => Err(owned("Invalid journal identifier.")),
    }
}

} // verus!
