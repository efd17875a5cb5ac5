use sortsmith_core::containment::{validate_journal_paths, validate_preview_paths};
use sortsmith_core::engine::{preview_organization, WalkItem};
use sortsmith_core::error::SortSmithError;
use sortsmith_core::execution::{ExecutionRun, ExecutionStep, StepOutcome, UndoRun};
use sortsmith_core::models::{
    ExecutionReport, JournalEntry, OperationJournal, PreviewResult, Rule, RuleAction,
    RuleCriterion, ScanOptions, Timestamp,
};
use sortsmith_core::paths::FsPath;
use sortsmith_core::scan_cache::{preview_organization_cached, ScanCache, ScanCacheStats};
use std::cell::RefCell;

fn p(text: &str) -> FsPath {
    FsPath::parse(text)
}

/// An in-memory disk: files with their contents and modification times,
/// and folders.
struct Disk {
    files: RefCell<Vec<(FsPath, String, i64)>>,
    folders: RefCell<Vec<FsPath>>,
}

impl Disk {
    fn new(root: &str) -> Disk {
        Disk { files: RefCell::new(vec![]), folders: RefCell::new(vec![p(root)]) }
    }

    fn write(&self, path: &str, content: &str) {
        let path = p(path);
        let mut files = self.files.borrow_mut();
        files.retain(|(q, _, _)| q != &path);
        files.push((path, content.to_string(), 1_000));
    }

    fn remove(&self, path: &str) {
        self.files.borrow_mut().retain(|(q, _, _)| q != &p(path));
    }

    fn read(&self, path: &str) -> Option<String> {
        self.files.borrow().iter().find(|(q, _, _)| q == &p(path)).map(|(_, c, _)| c.clone())
    }

    fn has(&self, path: &FsPath) -> bool {
        self.files.borrow().iter().any(|(q, _, _)| q == path || q.starts_with(path))
            || self.folders.borrow().iter().any(|q| q == path || q.starts_with(path))
    }

    fn rename(&self, from: &FsPath, to: &FsPath) -> bool {
        let mut files = self.files.borrow_mut();
        match files.iter_mut().find(|(q, _, _)| q == from) {
            Some(entry) => {
                entry.0 = to.clone();
                true
            }
            None => false,
        }
    }

    /// The files below `root`, in path order; only its direct children
    /// unless `recursive`.
    fn walk(&self, root: &FsPath, recursive: bool) -> Vec<(FsPath, u64, i64)> {
        let depth = root.names.len() + 1;
        let mut found: Vec<(FsPath, u64, i64)> = self
            .files
            .borrow()
            .iter()
            .filter(|(q, _, _)| q.starts_with(root) && (recursive || q.names.len() == depth))
            .map(|(q, c, m)| (q.clone(), c.len() as u64, *m))
            .collect();
        found.sort_by_key(|(q, _, _)| q.to_text());
        found
    }
}

fn now() -> Timestamp {
    Timestamp { secs: 2_000_000, nanos: 0 }
}

fn items(disk: &Disk, root: &FsPath, recursive: bool) -> Vec<WalkItem> {
    disk.walk(root, recursive)
        .into_iter()
        .map(|(path, size, modified)| WalkItem::File { path, size, modified_at: Some(Timestamp { secs: modified, nanos: 0 }) })
        .collect()
}

fn preview(disk: &Disk, root: &FsPath, rules: &Vec<Rule>, options: &ScanOptions) -> Result<PreviewResult, SortSmithError> {
    let occupied = |q: &FsPath| disk.has(q);
    let resolve = |q: &FsPath| if disk.has(q) { Ok(q.clone()) } else { Err("not found".to_string()) };
    preview_organization(root, rules, options, &items(disk, root, options.recursive), &occupied, &resolve, &now)
}

fn preview_cached(disk: &Disk, root: &FsPath, rules: &Vec<Rule>, options: &ScanOptions, cache: &mut ScanCache) -> PreviewResult {
    let occupied = |q: &FsPath| disk.has(q);
    let resolve = |q: &FsPath| if disk.has(q) { Ok(q.clone()) } else { Err("not found".to_string()) };
    preview_organization_cached(root, rules, options, &items(disk, root, options.recursive), cache, &occupied, &resolve, &now).unwrap()
}

fn execute(disk: &Disk, root: &FsPath, preview: &PreviewResult) -> ExecutionReport {
    let cwd = p("/work");
    let occupied = |q: &FsPath| disk.has(q);
    let (mut run, mut step) = ExecutionRun::start(root, preview, &cwd, &now);
    loop {
        let outcome = match &step {
            ExecutionStep::Finished => break,
            ExecutionStep::CreateFolder(folder) => {
                disk.folders.borrow_mut().push(folder.clone());
                StepOutcome::Done
            }
            ExecutionStep::MoveFile { from, to } => {
                if disk.has(to) {
                    StepOutcome::AlreadyExists("File exists (os error 17)".into())
                } else if disk.rename(from, to) {
                    StepOutcome::Done
                } else {
                    StepOutcome::Failed("No such file or directory (os error 2)".into())
                }
            }
            ExecutionStep::SaveJournal => StepOutcome::Done,
        };
        step = run.advance(outcome, &occupied);
    }
    run.finish()
}

fn undo(disk: &Disk, journal: OperationJournal) -> ExecutionReport {
    let occupied = |q: &FsPath| disk.has(q);
    let (mut run, mut step) = UndoRun::start(journal, &occupied);
    loop {
        let outcome = match &step {
            ExecutionStep::Finished => break,
            ExecutionStep::CreateFolder(_) => StepOutcome::Done,
            ExecutionStep::MoveFile { from, to } => {
                if disk.has(to) {
                    StepOutcome::AlreadyExists("File exists (os error 17)".into())
                } else if disk.rename(from, to) {
                    StepOutcome::Done
                } else {
                    StepOutcome::Failed("No such file or directory (os error 2)".into())
                }
            }
            ExecutionStep::SaveJournal => StepOutcome::Done,
        };
        step = run.advance(outcome, &occupied);
    }
    run.finish()
}

fn extension_rule(name: &str, destination: &str) -> Rule {
    Rule {
        id: 3,
        name: name.into(),
        enabled: true,
        match_all: true,
        criteria: vec![RuleCriterion::Extension { values: vec!["txt".into()] }],
        action: RuleAction::MoveTo { subdirectory: destination.into() },
    }
}

fn txt_rule() -> Rule {
    extension_rule("Text", "Text")
}

#[test]
fn previews_executes_and_undoes() {
    let disk = Disk::new("/root");
    disk.write("/root/note.txt", "hello");
    let root = p("/root");
    let preview = preview(&disk, &root, &vec![txt_rule()], &ScanOptions::default()).unwrap();
    assert_eq!(preview.operations.len(), 1);
    let report = execute(&disk, &root, &preview);
    assert_eq!(report.completed, 1);
    assert_eq!(disk.read("/root/Text/note.txt"), Some("hello".into()));
    let undone = undo(&disk, report.journal);
    assert_eq!(undone.completed, 1);
    assert_eq!(disk.read("/root/note.txt"), Some("hello".into()));
}

#[test]
fn post_preview_destination_collision_is_never_overwritten() {
    let disk = Disk::new("/root");
    disk.write("/root/note.txt", "source");
    let root = p("/root");
    let preview = preview(&disk, &root, &vec![txt_rule()], &ScanOptions::default()).unwrap();
    assert_eq!(preview.operations.len(), 1);
    disk.write("/root/Text/note.txt", "newer");
    let report = execute(&disk, &root, &preview);
    assert_eq!(report.completed, 1);
    assert_eq!(disk.read("/root/Text/note.txt"), Some("newer".into()));
    assert_eq!(disk.read("/root/Text/note (1).txt"), Some("source".into()));
}

#[test]
fn relative_root_execution_produces_an_undoable_absolute_journal() {
    let disk = Disk::new("rel");
    disk.write("rel/note.txt", "hello");
    let root = p("rel");
    let preview = preview(&disk, &root, &vec![txt_rule()], &ScanOptions::default()).unwrap();
    let report = execute(&disk, &p("/work/rel"), &preview);
    assert!(report.journal.root.is_absolute());
    assert_eq!(report.journal.entries[0].from, p("/work/rel/note.txt"));
    assert_eq!(report.journal.entries[0].to, p("/work/rel/Text/note.txt"));
}

#[test]
fn rejects_invalid_rules_before_scanning() {
    let mut invalid = txt_rule();
    invalid.action = RuleAction::MoveTo { subdirectory: "../outside".into() };
    let disk = Disk::new("/root");
    disk.write("/root/note.txt", "hello");
    assert!(preview(&disk, &p("/root"), &vec![invalid], &ScanOptions::default()).is_err());
}

#[test]
fn forged_preview_cannot_move_outside_root() {
    let disk = Disk::new("/root");
    disk.write("/root/note.txt", "hello");
    let root = p("/root");
    let mut preview = preview(&disk, &root, &vec![txt_rule()], &ScanOptions::default()).unwrap();
    preview.operations[0].destination = p("/journals/escaped.txt");
    let present = |q: &FsPath| disk.has(q);
    let resolve = |q: &FsPath| if disk.has(q) { Ok(q.clone()) } else { Err("not found".to_string()) };
    match validate_preview_paths(&root, &preview, &present, &resolve) {
        Err(SortSmithError::UnsafeDestination(d)) => assert_eq!(d, p("/journals/escaped.txt")),
        other => panic!("unexpected {:?}", other),
    }
    assert!(disk.read("/root/note.txt").is_some());
}

#[test]
fn preview_reserves_duplicate_destinations() {
    let disk = Disk::new("/root");
    disk.write("/root/first/note.txt", "one");
    disk.write("/root/second/note.txt", "two");
    let options = ScanOptions { recursive: true, include_hidden: false, follow_links: false, max_depth: Some(8) };
    let preview = preview(&disk, &p("/root"), &vec![txt_rule()], &options).unwrap();
    assert_eq!(preview.operations.len(), 2);
    assert_ne!(preview.operations[0].destination, preview.operations[1].destination);
    let names = preview.operations.iter().map(|o| o.destination.file_name().unwrap()).collect::<Vec<_>>();
    assert!(names.contains(&"note.txt".to_string()));
    assert!(names.contains(&"note (1).txt".to_string()));
}

#[test]
fn forged_journal_cannot_undo_outside_recorded_root() {
    let disk = Disk::new("/root");
    disk.folders.borrow_mut().push(p("/outside"));
    disk.write("/outside/moved.txt", "secret");
    let journal = OperationJournal {
        id: 1,
        created_at: now(),
        root: p("/root"),
        entries: vec![JournalEntry { operation_id: 2, from: p("/outside/secret.txt"), to: p("/outside/moved.txt") }],
    };
    let present = |q: &FsPath| disk.has(q);
    let resolve = |q: &FsPath| if disk.has(q) { Ok(q.clone()) } else { Err("not found".to_string()) };
    assert!(validate_journal_paths(&journal, &present, &resolve).is_err());
    assert!(disk.read("/outside/moved.txt").is_some());
}

#[test]
fn execution_gives_up_after_eight_taken_destinations() {
    let disk = Disk::new("/root");
    disk.write("/root/note.txt", "hello");
    let root = p("/root");
    let preview = preview(&disk, &root, &vec![txt_rule()], &ScanOptions::default()).unwrap();
    let occupied = |_: &FsPath| false;
    let (mut run, mut step) = ExecutionRun::start(&root, &preview, &p("/work"), &now);
    let mut moves = 0;
    loop {
        let outcome = match &step {
            ExecutionStep::Finished => break,
            ExecutionStep::MoveFile { .. } => {
                moves += 1;
                StepOutcome::AlreadyExists("File exists".into())
            }
            _ => StepOutcome::Done,
        };
        step = run.advance(outcome, &occupied);
    }
    let report = run.finish();
    assert_eq!(moves, 8);
    assert_eq!(report.completed, 0);
    assert_eq!(report.errors, vec!["Could not find a collision-free destination after several retries.".to_string()]);
}

#[test]
fn failed_journal_write_stops_the_run() {
    let disk = Disk::new("/root");
    disk.write("/root/a.txt", "a");
    disk.write("/root/b.txt", "b");
    let root = p("/root");
    let preview = preview(&disk, &root, &vec![txt_rule()], &ScanOptions::default()).unwrap();
    let occupied = |q: &FsPath| disk.has(q);
    let (mut run, mut step) = ExecutionRun::start(&root, &preview, &p("/work"), &now);
    let mut saves = 0;
    loop {
        let outcome = match &step {
            ExecutionStep::Finished => break,
            ExecutionStep::SaveJournal => {
                saves += 1;
                if saves == 1 { StepOutcome::Done } else { StepOutcome::Failed("disk full".into()) }
            }
            ExecutionStep::MoveFile { from, to } => {
                disk.rename(from, to);
                StepOutcome::Done
            }
            _ => StepOutcome::Done,
        };
        step = run.advance(outcome, &occupied);
    }
    let report = run.finish();
    assert_eq!(report.completed, 1);
    assert_eq!(report.errors, vec!["A completed move could not be durably recorded in the undo journal: disk full".to_string()]);
    assert!(disk.read("/root/b.txt").is_some());
}

#[test]
fn undo_skips_missing_and_occupied_entries() {
    let disk = Disk::new("/root");
    disk.write("/root/Text/a.txt", "a");
    disk.write("/root/b.txt", "new b");
    disk.write("/root/Text/b.txt", "b");
    let journal = OperationJournal {
        id: 1,
        created_at: now(),
        root: p("/root"),
        entries: vec![
            JournalEntry { operation_id: 1, from: p("/root/a.txt"), to: p("/root/Text/a.txt") },
            JournalEntry { operation_id: 2, from: p("/root/b.txt"), to: p("/root/Text/b.txt") },
            JournalEntry { operation_id: 3, from: p("/root/c.txt"), to: p("/root/Text/c.txt") },
        ],
    };
    let report = undo(&disk, journal);
    assert_eq!(report.completed, 1);
    assert_eq!(
        report.errors,
        vec![
            "A moved file is missing; skipped during undo.".to_string(),
            "Original path is occupied; skipped during undo.".to_string(),
        ]
    );
    assert_eq!(disk.read("/root/a.txt"), Some("a".into()));
    assert_eq!(disk.read("/root/b.txt"), Some("new b".into()));
}

#[test]
fn cached_and_uncached_plans_make_the_same_decisions() {
    let disk = Disk::new("/root");
    disk.write("/root/note.txt", "hello");
    disk.write("/root/ignored.bin", "binary");
    let root = p("/root");
    let rules = vec![extension_rule("Text", "Text")];
    let options = ScanOptions::default();
    let uncached = preview(&disk, &root, &rules, &options).unwrap();
    let mut cache = ScanCache::default();
    let cached = preview_cached(&disk, &root, &rules, &options, &mut cache);
    assert_eq!(uncached.scanned_files, cached.scanned_files);
    assert_eq!(uncached.ignored_files, cached.ignored_files);
    assert_eq!(uncached.recoverable_errors, cached.recoverable_errors);
    assert_eq!(uncached.operations.len(), cached.operations.len());
    for (left, right) in uncached.operations.iter().zip(&cached.operations) {
        assert_eq!(left.source, right.source);
        assert_eq!(left.destination, right.destination);
        assert_eq!(left.rule_id, right.rule_id);
        assert_eq!(left.rule_name, right.rule_name);
        assert_eq!(left.size, right.size);
    }
}

#[test]
fn reuses_unchanged_file_descriptions() {
    let disk = Disk::new("/root");
    disk.write("/root/note.txt", "hello");
    let root = p("/root");
    let rules = vec![extension_rule("Text", "Text")];
    let mut cache = ScanCache::default();
    let first = preview_cached(&disk, &root, &rules, &ScanOptions::default(), &mut cache);
    assert_eq!(first.operations.len(), 1);
    assert_eq!(cache.stats(), ScanCacheStats { reused_files: 0, rescanned_files: 1, revalidated_time_sensitive_files: 0, cached_entries: 1 });
    let second = preview_cached(&disk, &root, &rules, &ScanOptions::default(), &mut cache);
    assert_eq!(second.operations.len(), 1);
    assert_eq!(first.operations[0].source, second.operations[0].source);
    assert_eq!(first.operations[0].destination, second.operations[0].destination);
    assert_eq!(cache.stats(), ScanCacheStats { reused_files: 1, rescanned_files: 0, revalidated_time_sensitive_files: 0, cached_entries: 1 });
}

#[test]
fn collision_resolution_is_recomputed_on_cache_hit() {
    let disk = Disk::new("/root");
    disk.write("/root/note.txt", "hello");
    let root = p("/root");
    let rules = vec![extension_rule("Text", "Text")];
    let mut cache = ScanCache::default();
    let first = preview_cached(&disk, &root, &rules, &ScanOptions::default(), &mut cache);
    let occupied = first.operations[0].destination.clone();
    disk.write(&occupied.to_text(), "existing destination");
    let second = preview_cached(&disk, &root, &rules, &ScanOptions::default(), &mut cache);
    assert_eq!(cache.stats().reused_files, 1);
    assert_ne!(second.operations[0].destination, occupied);
    assert!(!disk.has(&second.operations[0].destination));
}

#[test]
fn cached_preview_reserves_duplicate_destinations() {
    let disk = Disk::new("/root");
    disk.write("/root/first/note.txt", "first");
    disk.write("/root/second/note.txt", "second");
    let rules = vec![extension_rule("Text", "Text")];
    let mut cache = ScanCache::default();
    let options = ScanOptions { recursive: true, max_depth: Some(3), ..ScanOptions::default() };
    let preview = preview_cached(&disk, &p("/root"), &rules, &options, &mut cache);
    assert_eq!(preview.operations.len(), 2);
    assert_ne!(preview.operations[0].destination, preview.operations[1].destination);
}

#[test]
fn rule_changes_reset_cache_scope() {
    let disk = Disk::new("/root");
    disk.write("/root/note.txt", "hello");
    let root = p("/root");
    let mut cache = ScanCache::default();
    preview_cached(&disk, &root, &vec![extension_rule("Text", "Text")], &ScanOptions::default(), &mut cache);
    let second = preview_cached(&disk, &root, &vec![extension_rule("Docs", "Documents")], &ScanOptions::default(), &mut cache);
    assert_eq!(cache.stats().reused_files, 0);
    assert_eq!(cache.stats().rescanned_files, 1);
    assert!(second.operations[0].destination.starts_with(&p("/root/Documents")));
    assert_eq!(second.operations[0].destination.file_name().unwrap(), "note.txt");
}

#[test]
fn changed_files_are_rescanned() {
    let disk = Disk::new("/root");
    disk.write("/root/note.txt", "hello");
    let root = p("/root");
    let rules = vec![extension_rule("Text", "Text")];
    let mut cache = ScanCache::default();
    preview_cached(&disk, &root, &rules, &ScanOptions::default(), &mut cache);
    disk.write("/root/note.txt", "hello world with a different size");
    preview_cached(&disk, &root, &rules, &ScanOptions::default(), &mut cache);
    assert_eq!(cache.stats().reused_files, 0);
    assert_eq!(cache.stats().rescanned_files, 1);
}

#[test]
fn deleted_files_are_pruned() {
    let disk = Disk::new("/root");
    disk.write("/root/first.txt", "one");
    disk.write("/root/second.txt", "two");
    let root = p("/root");
    let rules = vec![extension_rule("Text", "Text")];
    let mut cache = ScanCache::default();
    preview_cached(&disk, &root, &rules, &ScanOptions::default(), &mut cache);
    assert_eq!(cache.stats().cached_entries, 2);
    disk.remove("/root/second.txt");
    preview_cached(&disk, &root, &rules, &ScanOptions::default(), &mut cache);
    assert_eq!(cache.stats().cached_entries, 1);
    assert_eq!(cache.stats().reused_files, 1);
}

#[test]
fn clear_forces_full_rescan() {
    let disk = Disk::new("/root");
    disk.write("/root/note.txt", "hello");
    let root = p("/root");
    let rules = vec![extension_rule("Text", "Text")];
    let mut cache = ScanCache::default();
    preview_cached(&disk, &root, &rules, &ScanOptions::default(), &mut cache);
    cache.clear();
    preview_cached(&disk, &root, &rules, &ScanOptions::default(), &mut cache);
    assert_eq!(cache.stats().reused_files, 0);
    assert_eq!(cache.stats().rescanned_files, 1);
}

#[test]
fn time_sensitive_rules_revalidate_reused_files() {
    let disk = Disk::new("/root");
    disk.write("/root/note.txt", "hello");
    let root = p("/root");
    let rules = vec![Rule {
        id: 4,
        name: "Older files".into(),
        enabled: true,
        match_all: true,
        criteria: vec![RuleCriterion::ModifiedOlderThanDays { days: 0 }],
        action: RuleAction::MoveTo { subdirectory: "Older".into() },
    }];
    let mut cache = ScanCache::default();
    preview_cached(&disk, &root, &rules, &ScanOptions::default(), &mut cache);
    preview_cached(&disk, &root, &rules, &ScanOptions::default(), &mut cache);
    assert_eq!(cache.stats().reused_files, 1);
    assert_eq!(cache.stats().revalidated_time_sensitive_files, 1);
}

#[test]
fn unreadable_entries_become_messages() {
    let occupied = |_: &FsPath| false;
    let resolve = |q: &FsPath| Ok(q.clone());
    let walked = vec![
        WalkItem::Unreadable { kind: Some("permission denied".into()) },
        WalkItem::FileWithoutMetadata { path: p("/root/a.txt"), message: "denied".into(), kind: None },
    ];
    let result = preview_organization(&p("/root"), &vec![txt_rule()], &ScanOptions::default(), &walked, &occupied, &resolve, &now).unwrap();
    assert_eq!(result.scanned_files, 1);
    assert_eq!(
        result.recoverable_errors,
        vec!["A folder entry could not be read: permission denied".to_string(), "I/O error at /root/a.txt: denied".to_string()]
    );
    let mut cache = ScanCache::default();
    let cached = preview_organization_cached(&p("/root"), &vec![txt_rule()], &ScanOptions::default(), &walked, &mut cache, &occupied, &resolve, &now).unwrap();
    assert_eq!(cached.recoverable_errors[1], "A folder entry could not be read.");
}

#[test]
fn preview_skips_file_symlink_that_resolves_outside_root() {
    let occupied = |_: &FsPath| false;
    let resolve = |q: &FsPath| if q == &p("/root/linked.txt") { Ok(p("/outside/note.txt")) } else { Ok(q.clone()) };
    let walked = vec![WalkItem::File { path: p("/root/linked.txt"), size: 6, modified_at: None }];
    let options = ScanOptions { recursive: false, include_hidden: false, follow_links: true, max_depth: Some(8) };
    let preview = preview_organization(&p("/root"), &vec![txt_rule()], &options, &walked, &occupied, &resolve, &now).unwrap();
    assert!(preview.operations.is_empty());
    assert_eq!(preview.ignored_files, 1);
    assert!(preview.recoverable_errors.iter().any(|error| error.contains("symbolic link")));
}

#[test]
fn unresolvable_root_is_an_io_error() {
    let occupied = |_: &FsPath| false;
    let resolve = |_: &FsPath| Err::<FsPath, String>("gone".to_string());
    match preview_organization(&p("/root"), &vec![txt_rule()], &ScanOptions::default(), &vec![], &occupied, &resolve, &now) {
        Err(SortSmithError::Io { path, message }) => {
            assert_eq!(path, p("/root"));
            assert_eq!(message, "gone");
        }
        other => panic!("unexpected {:?}", other),
    }
}

#[test]
fn main_branch_ignores_external_file_symlinks() {
    let occupied = |_: &FsPath| false;
    let resolve = |q: &FsPath| if q == &p("/root/linked.txt") { Ok(p("/outside/secret.txt")) } else { Ok(q.clone()) };
    let walked = vec![WalkItem::File { path: p("/root/linked.txt"), size: 6, modified_at: None }];
    let options = ScanOptions { recursive: false, include_hidden: false, follow_links: true, max_depth: Some(8) };
    let mut rule = txt_rule();
    rule.name = "Text files".into();
    let preview = preview_organization(&p("/root"), &vec![rule], &options, &walked, &occupied, &resolve, &now).unwrap();
    assert!(preview.operations.is_empty());
    assert_eq!(preview.ignored_files, 1);
    assert!(preview.recoverable_errors.iter().any(|error| error.contains("symbolic link")));
}

#[test]
fn preview_records_destination_rule_and_size() {
    let disk = Disk::new("/root");
    disk.write("/root/note.txt", "hello");
    let preview = preview(&disk, &p("/root"), &vec![txt_rule()], &ScanOptions::default()).unwrap();
    assert_eq!(preview.operations.len(), 1);
    let op = &preview.operations[0];
    assert_eq!(op.source, p("/root/note.txt"));
    assert_eq!(op.destination, p("/root/Text/note.txt"));
    assert_eq!(op.rule_id, 3);
    assert_eq!(op.rule_name, "Text");
    assert_eq!(op.size, 5);
    assert_eq!((preview.scanned_files, preview.ignored_files), (1, 0));
    assert!(preview.recoverable_errors.is_empty());
    assert_eq!(disk.read("/root/note.txt"), Some("hello".into()));
}

#[test]
fn first_enabled_matching_rule_decides() {
    let disk = Disk::new("/root");
    disk.write("/root/note.txt", "hello");
    let mut disabled = extension_rule("Off", "Off");
    disabled.enabled = false;
    disabled.id = 1;
    let mut second = extension_rule("Later", "Later");
    second.id = 7;
    let rules = vec![disabled, extension_rule("Text", "Text"), second];
    let preview = preview(&disk, &p("/root"), &rules, &ScanOptions::default()).unwrap();
    assert_eq!(preview.operations.len(), 1);
    assert_eq!(preview.operations[0].rule_name, "Text");
    assert_eq!(preview.operations[0].destination, p("/root/Text/note.txt"));
}

#[test]
fn planned_moves_never_stay_in_place() {
    let disk = Disk::new("/root");
    disk.write("/root/Text/note.txt", "already sorted");
    disk.write("/root/other.txt", "to sort");
    let options = ScanOptions { recursive: true, include_hidden: false, follow_links: false, max_depth: Some(8) };
    let preview = preview(&disk, &p("/root"), &vec![txt_rule()], &options).unwrap();
    assert_eq!(preview.scanned_files, 2);
    for op in &preview.operations {
        assert_ne!(op.source, op.destination);
        assert!(!disk.has(&op.destination));
    }
}

#[test]
fn first_cached_preview_rescans_every_file() {
    let disk = Disk::new("/root");
    disk.write("/root/a.txt", "a");
    disk.write("/root/b.txt", "bb");
    disk.write("/root/c.bin", "ccc");
    let root = p("/root");
    let rules = vec![txt_rule()];
    let mut cache = ScanCache::default();
    preview_cached(&disk, &root, &rules, &ScanOptions::default(), &mut cache);
    assert_eq!(cache.stats(), ScanCacheStats { reused_files: 0, rescanned_files: 3, revalidated_time_sensitive_files: 0, cached_entries: 3 });
    preview_cached(&disk, &root, &rules, &ScanOptions::default(), &mut cache);
    assert_eq!(cache.stats(), ScanCacheStats { reused_files: 3, rescanned_files: 0, revalidated_time_sensitive_files: 0, cached_entries: 3 });
}

#[test]
fn journal_is_written_before_any_move() {
    let disk = Disk::new("/root");
    disk.write("/root/a.txt", "a");
    let root = p("/root");
    let preview = preview(&disk, &root, &vec![txt_rule()], &ScanOptions::default()).unwrap();
    let occupied = |q: &FsPath| disk.has(q);
    let (mut run, step) = ExecutionRun::start(&root, &preview, &p("/work"), &now);
    assert_eq!(step, ExecutionStep::SaveJournal);
    let next = run.advance(StepOutcome::Failed("read-only".into()), &occupied);
    assert_eq!(next, ExecutionStep::Finished);
    let report = run.finish();
    assert_eq!(report.completed, 0);
    assert_eq!(report.errors, vec!["The undo journal could not be written before any file was moved: read-only".to_string()]);
    assert_eq!(disk.read("/root/a.txt"), Some("a".into()));
}

#[test]
fn empty_preview_only_writes_the_journal() {
    let preview = PreviewResult { operations: vec![], scanned_files: 0, ignored_files: 0, recoverable_errors: vec![] };
    let occupied = |_: &FsPath| false;
    let (mut run, step) = ExecutionRun::start(&p("/root"), &preview, &p("/work"), &now);
    assert_eq!(step, ExecutionStep::SaveJournal);
    assert_eq!(run.advance(StepOutcome::Done, &occupied), ExecutionStep::Finished);
    assert_eq!(run.finish().completed, 0);
}

#[test]
fn forged_preview_under_an_escaping_folder_link_is_refused() {
    let disk = Disk::new("/root");
    disk.write("/root/note.txt", "hello");
    disk.folders.borrow_mut().push(p("/root/Link"));
    let root = p("/root");
    let mut preview = preview(&disk, &root, &vec![txt_rule()], &ScanOptions::default()).unwrap();
    preview.operations[0].destination = p("/root/Link/inner/note.txt");
    let present = |q: &FsPath| disk.has(q);
    let resolve = |q: &FsPath| {
        if q == &p("/root/Link") {
            Ok(p("/elsewhere"))
        } else if disk.has(q) {
            Ok(q.clone())
        } else {
            Err("not found".to_string())
        }
    };
    match validate_preview_paths(&root, &preview, &present, &resolve) {
        Err(SortSmithError::UnsafeDestination(d)) => assert_eq!(d, p("/root/Link/inner/note.txt")),
        other => panic!("unexpected {:?}", other),
    }
    preview.operations[0].destination = p("/root/Kept/inner/note.txt");
    assert!(validate_preview_paths(&root, &preview, &present, &resolve).is_ok());
}
