use sortsmith_core::desktop::{
    available_to_undo, check_journal_paths, check_planned_operations, export_path_candidate,
    export_target, has_json_extension, import_path_candidate, is_journal_file_name, journal_file_for,
    keep_recent_journals, newest_journals, note_watch_run, operation_log_action,
    previous_segment_replaceable, rules_for_watch, safe_operation_path,
    staging_paths, state_size_allowed, summarize_journal, validated_root, watch_decision,
    watch_done_text, watch_is_due, JournalSummary, LogAction, LogEntry, WatchDecision,
};
use sortsmith_core::models::{
    AppStateData, JournalEntry, OperationJournal, PlannedOperation, PreviewResult, Timestamp,
    WatchedFolder,
};
use sortsmith_core::paths::FsPath;
use sortsmith_core::presets::default_presets;

fn p(text: &str) -> FsPath {
    FsPath::parse(text)
}

fn t(secs: i64) -> Timestamp {
    Timestamp { secs, nanos: 0 }
}

/// A disk with the given existing paths; `/root/link` resolves to `/elsewhere`.
fn disk(existing: Vec<&'static str>) -> (impl Fn(&FsPath) -> bool, impl Fn(&FsPath) -> Result<FsPath, String>) {
    let paths: Vec<FsPath> = existing.iter().map(|s| p(s)).collect();
    let paths2 = paths.clone();
    let present = move |q: &FsPath| paths.iter().any(|x| x == q);
    let resolve = move |q: &FsPath| {
        if !paths2.iter().any(|x| x == q) {
            return Err("No such file or directory (os error 2)".to_string());
        }
        if q.starts_with(&p("/root/link")) {
            let rest = q.strip_prefix(&p("/root/link")).unwrap();
            Ok(p("/elsewhere").join(&rest))
        } else {
            Ok(q.clone())
        }
    };
    (present, resolve)
}

#[test]
fn validated_root_trims_and_resolves() {
    let (present, resolve) = disk(vec!["/root"]);
    let is_folder = |q: &FsPath| q == &p("/root");
    assert_eq!(validated_root("  /root \n", &present, &is_folder, &resolve).unwrap(), p("/root"));
    assert_eq!(validated_root("   ", &present, &is_folder, &resolve).unwrap_err(), "Choose an existing folder.");
    assert_eq!(validated_root("/missing", &present, &is_folder, &resolve).unwrap_err(), "Choose an existing folder.");
}

#[test]
fn json_paths_must_be_absolute_json_files() {
    assert!(has_json_extension(&p("/a/settings.JSON")));
    assert!(!has_json_extension(&p("/a/settings.json.bak")));
    assert!(!has_json_extension(&p("/a/settings")));
    assert_eq!(import_path_candidate(" /a/settings.json ").unwrap(), p("/a/settings.json"));
    assert_eq!(import_path_candidate("settings.json").unwrap_err(), "Choose an absolute .json settings file.");
    assert_eq!(export_path_candidate("/a/settings.txt").unwrap_err(), "Choose an absolute .json export path.");
    assert_eq!(export_target(&p("/real/a"), &p("/a/settings.json")).unwrap(), p("/real/a/settings.json"));
}

#[test]
fn operation_paths_must_stay_below_root() {
    let (present, resolve) = disk(vec!["/root", "/root/note.txt", "/root/Text", "/root/link"]);
    let root = p("/root");
    assert!(safe_operation_path(&root, &p("/root/note.txt"), true, &present, &resolve));
    assert!(!safe_operation_path(&root, &p("/root/gone.txt"), true, &present, &resolve));
    assert!(safe_operation_path(&root, &p("/root/Text/note.txt"), false, &present, &resolve));
    assert!(safe_operation_path(&root, &p("/root/New/Deeper/note.txt"), false, &present, &resolve));
    assert!(!safe_operation_path(&root, &p("/other/note.txt"), false, &present, &resolve));
    assert!(!safe_operation_path(&root, &p("/root/../etc/passwd"), false, &present, &resolve));
    assert!(!safe_operation_path(&root, &p("/root/link/note.txt"), false, &present, &resolve));
}

fn op(source: &str, destination: &str) -> PlannedOperation {
    PlannedOperation { id: 1, source: p(source), destination: p(destination), rule_id: 2, rule_name: "Text".into(), size: 5 }
}

#[test]
fn planned_operations_are_checked_before_execution() {
    let (present, resolve) = disk(vec!["/root", "/root/note.txt"]);
    let mut preview = PreviewResult { operations: vec![op("/root/note.txt", "/root/Text/note.txt")], scanned_files: 1, ignored_files: 0, recoverable_errors: vec![] };
    assert!(check_planned_operations(&p("/root"), &preview, &present, &resolve).is_ok());
    preview.operations[0].destination = p("/outside/escaped.txt");
    assert_eq!(
        check_planned_operations(&p("/root"), &preview, &present, &resolve).unwrap_err(),
        "A planned operation escaped the selected root and was blocked."
    );
}

#[test]
fn journal_paths_are_checked_before_undo() {
    let (present, resolve) = disk(vec!["/root", "/root/Text", "/root/Text/note.txt"]);
    let mut journal = OperationJournal {
        id: 9,
        created_at: t(0),
        root: p("/root"),
        entries: vec![JournalEntry { operation_id: 1, from: p("/root/note.txt"), to: p("/root/Text/note.txt") }],
    };
    assert!(check_journal_paths(&p("/root"), &journal, &present, &resolve).is_ok());
    assert_eq!(available_to_undo(&journal, &present), 1);
    journal.entries[0].from = p("/secret/note.txt");
    assert_eq!(
        check_journal_paths(&p("/root"), &journal, &present, &resolve).unwrap_err(),
        "The undo journal contains a path outside its recorded root and was blocked."
    );
}

fn folder(last: Option<Timestamp>, interval: u32, enabled: bool) -> WatchedFolder {
    WatchedFolder { id: 1, path: "/root".into(), preset_id: Some(default_presets()[0].id), interval_minutes: interval, enabled, last_run_at: last }
}

#[test]
fn watches_run_when_their_interval_has_passed() {
    assert!(watch_is_due(&folder(None, 5, true), t(0)));
    assert!(!watch_is_due(&folder(None, 5, false), t(0)));
    assert!(!watch_is_due(&folder(None, 4, true), t(0)));
    assert!(!watch_is_due(&folder(Some(t(1_000)), 15, true), t(1_899)));
    assert!(watch_is_due(&folder(Some(t(1_000)), 15, true), t(1_900)));
    let late = Timestamp { secs: 1_900, nanos: 5 };
    assert!(!watch_is_due(&folder(Some(late), 15, true), Timestamp { secs: 2_800, nanos: 4 }));
}

#[test]
fn watch_rules_come_from_the_referenced_preset() {
    let presets = default_presets();
    let rules = rules_for_watch(&presets, Some(presets[2].id));
    assert_eq!(rules.len(), 3);
    assert_eq!(rules[0].name, "Source code");
    assert!(rules_for_watch(&presets, Some(42)).is_empty());
    assert!(rules_for_watch(&presets, None).is_empty());
}

#[test]
fn a_watch_run_is_recorded_in_the_state() {
    let mut state = AppStateData::default();
    state.watched_folders = vec![folder(None, 15, true)];
    state.recent_journal_ids = (0..20u128).collect();
    note_watch_run(&mut state, 0, 77, t(500));
    assert_eq!(state.watched_folders[0].last_run_at, Some(t(500)));
    assert_eq!(state.recent_journal_ids[0], 77);
    assert_eq!(state.recent_journal_ids.len(), 21);
    keep_recent_journals(&mut state);
    assert_eq!(state.recent_journal_ids.len(), 20);
    assert_eq!(state.recent_journal_ids[19], 18);
    assert_eq!(watch_done_text(12), "A watched folder completed 12 change(s).");
}

fn summary(id: u128, secs: i64) -> JournalSummary {
    JournalSummary { id, created_at: t(secs), root: p("/root"), entry_count: 1, available_to_undo: 0 }
}

#[test]
fn undo_history_lists_newest_first() {
    assert!(is_journal_file_name("3f1c.journal.json"));
    assert!(!is_journal_file_name("3f1c.journal.json.tmp"));
    let list = vec![summary(1, 10), summary(2, 30), summary(3, 20), summary(4, 30)];
    let sorted = newest_journals(&list);
    assert_eq!(sorted.iter().map(|s| s.id).collect::<Vec<_>>(), vec![2, 4, 3, 1]);
    let many = (0..150).map(|i| summary(i as u128, i)).collect::<Vec<_>>();
    let kept = newest_journals(&many);
    assert_eq!(kept.len(), 100);
    assert_eq!(kept[0].id, 149);
    assert_eq!(kept[99].id, 50);
    let journal = OperationJournal { id: 5, created_at: t(7), root: p("/r"), entries: vec![] };
    let s = summarize_journal(&journal, 0);
    assert_eq!((s.id, s.entry_count, s.available_to_undo), (5, 0, 0));
}

#[test]
fn staging_files_sit_next_to_the_target() {
    let (temp, backup) = staging_paths(&p("/data/state.json"), 0x0123_4567_89ab_4cde_8f01_23456789abcd).unwrap();
    assert_eq!(temp, p("/data/.state.json.01234567-89ab-4cde-8f01-23456789abcd.tmp"));
    assert_eq!(backup, p("/data/.state.json.01234567-89ab-4cde-8f01-23456789abcd.bak"));
    assert_eq!(staging_paths(&p(""), 1).unwrap_err(), "The data path has no parent directory.");
}

#[test]
fn undo_requests_name_a_journal_file() {
    let dir = p("/data/journals");
    assert_eq!(
        journal_file_for(&dir, "6BA7B810-9DAD-11D1-80B4-00C04FD430C8").unwrap(),
        p("/data/journals/6ba7b810-9dad-11d1-80b4-00c04fd430c8.journal.json")
    );
    assert_eq!(journal_file_for(&dir, "../../etc/passwd").unwrap_err(), "Invalid journal identifier.");
}

#[test]
fn watch_runs_only_previews_that_plan_moves() {
    let empty = PreviewResult { operations: vec![], scanned_files: 2, ignored_files: 2, recoverable_errors: vec![] };
    assert_eq!(watch_decision(&empty), WatchDecision::NoChange("A watched folder is already organized.".into()));
    let partial = PreviewResult { recoverable_errors: vec!["A folder entry could not be read.".into()], ..empty.clone() };
    assert_eq!(
        watch_decision(&partial),
        WatchDecision::NoChange("A watched folder needed no changes, but some entries could not be inspected.".into())
    );
}

#[test]
fn settings_size_limit_is_sixteen_mebibytes() {
    assert!(state_size_allowed(16 * 1024 * 1024));
    assert!(!state_size_allowed(16 * 1024 * 1024 + 1));
    assert!(state_size_allowed(0));
}

#[test]
fn operation_log_rotates_at_its_limit_and_refuses_links() {
    let max = 5 * 1024 * 1024;
    assert_eq!(operation_log_action(LogEntry::Missing, max), LogAction::Append);
    assert_eq!(operation_log_action(LogEntry::File(max - 1), max), LogAction::Append);
    assert_eq!(operation_log_action(LogEntry::File(max), max), LogAction::Rotate);
    assert_eq!(operation_log_action(LogEntry::NotAFile, max), LogAction::Refuse);
    assert_eq!(operation_log_action(LogEntry::Unreadable, max), LogAction::Refuse);
    assert!(previous_segment_replaceable(LogEntry::Missing));
    assert!(previous_segment_replaceable(LogEntry::File(3)));
    assert!(!previous_segment_replaceable(LogEntry::NotAFile));
    assert!(!previous_segment_replaceable(LogEntry::Unreadable));
}
