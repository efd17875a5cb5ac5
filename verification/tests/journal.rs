use sortsmith_core::journal::{
    journal_path, journal_temp_path, make_absolute, normalize_journal_paths, with_extension,
};
use sortsmith_core::models::{JournalEntry, OperationJournal, Timestamp};
use sortsmith_core::paths::FsPath;

fn p(text: &str) -> FsPath {
    FsPath::parse(text)
}

#[test]
fn journal_file_is_named_after_its_id() {
    let id = 0x6ba7b810_9dad_11d1_80b4_00c04fd430c8u128;
    assert_eq!(journal_path(&p("/data/journals"), id), p("/data/journals/6ba7b810-9dad-11d1-80b4-00c04fd430c8.journal.json"));
}

#[test]
fn journal_temp_file_sits_beside_its_target() {
    let target = journal_path(&p("/data"), 1);
    let temp = journal_temp_path(&target);
    assert_eq!(temp, p("/data/00000000-0000-0000-0000-000000000001.journal.journal.json.tmp"));
    assert_ne!(temp, target);
    assert_eq!(temp.parent(), target.parent());
}

#[test]
fn with_extension_replaces_the_last_extension() {
    assert_eq!(with_extension(&p("/a/b.txt"), "md"), p("/a/b.md"));
    assert_eq!(with_extension(&p("/a/b"), "md"), p("/a/b.md"));
    assert_eq!(with_extension(&p("/a/b.tar.gz"), ""), p("/a/b.tar"));
    assert_eq!(with_extension(&p("/"), "md"), p("/"));
}

#[test]
fn relative_journal_paths_are_stored_as_absolute_paths() {
    let journal = OperationJournal {
        id: 3,
        created_at: Timestamp { secs: 5, nanos: 6 },
        root: p("/tmp/root"),
        entries: vec![JournalEntry { operation_id: 4, from: p("relative-before.txt"), to: p("relative-after.txt") }],
    };
    let stored = normalize_journal_paths(&journal, &p("/home/user"));
    assert!(stored.root.is_absolute());
    assert!(stored.entries[0].from.is_absolute());
    assert!(stored.entries[0].to.is_absolute());
    assert_eq!(stored.entries[0].from, p("/home/user/relative-before.txt"));
    assert_eq!(stored.root, p("/tmp/root"));
    assert_eq!((stored.id, stored.created_at, stored.entries[0].operation_id), (3, Timestamp { secs: 5, nanos: 6 }, 4));
    assert_eq!(make_absolute(&p("./x"), &p("/w")), p("/w/x"));
}
