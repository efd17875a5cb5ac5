use sortsmith_core::engine::{
    admit_entry, describe_file_from_metadata, entry_resolves_outside_root, entry_within_root,
    is_hidden, walk_error_text,
};
use sortsmith_core::error::SortSmithError;
use sortsmith_core::models::{ScanOptions, Timestamp};
use sortsmith_core::paths::FsPath;

fn p(text: &str) -> FsPath {
    FsPath::parse(text)
}

fn resolve(q: &FsPath) -> Result<FsPath, String> {
    if q == &p("/root/link") {
        Ok(p("/outside/target"))
    } else if q == &p("/root/broken") {
        Err("No such file or directory (os error 2)".into())
    } else {
        Ok(q.clone())
    }
}

#[test]
fn hidden_entries_are_skipped_unless_requested() {
    let root = p("/root");
    assert!(is_hidden(&p("/root/.cache"), ".cache", &root));
    assert!(!is_hidden(&root, ".root", &root));
    assert!(!is_hidden(&p("/root/notes"), "notes", &root));
    let options = ScanOptions::default();
    assert!(!admit_entry(&options, true, None));
    let with_hidden = ScanOptions { include_hidden: true, ..options };
    assert!(admit_entry(&with_hidden, true, None));
    let following = ScanOptions { follow_links: true, ..options };
    assert!(!admit_entry(&following, false, Some(true)));
    assert!(admit_entry(&following, false, None));
    assert!(admit_entry(&options, false, Some(true)));
}

#[test]
fn entry_checks_use_the_resolved_path() {
    let root = p("/root");
    assert_eq!(entry_resolves_outside_root(false, &p("/root/link"), &root, &resolve), Some(false));
    assert_eq!(entry_resolves_outside_root(true, &p("/root/link"), &root, &resolve), Some(true));
    assert_eq!(entry_resolves_outside_root(true, &p("/root/broken"), &root, &resolve), None);
    assert!(!entry_within_root(&p("/root/link"), &root, &resolve));
    assert!(entry_within_root(&p("/root/file.txt"), &root, &resolve));
}

#[test]
fn walk_errors_are_redacted() {
    assert_eq!(walk_error_text(Some("permission denied")), "A folder entry could not be read: permission denied");
    assert_eq!(walk_error_text(None), "A folder entry could not be read.");
}

#[test]
fn files_are_described_from_their_metadata() {
    let file = describe_file_from_metadata(&p("/root"), &p("/root/Docs/Report.PDF"), 42, Some(Timestamp { secs: 9, nanos: 0 }));
    assert_eq!(file.extension, Some("pdf".to_string()));
    assert_eq!(file.relative_path, p("Docs/Report.PDF"));
    assert_eq!(file.mime, Some("application/pdf".to_string()));
    assert_eq!(file.size, 42);
    let plain = describe_file_from_metadata(&p("/root"), &p("/root/notes"), 1, None);
    assert_eq!(plain.mime, None);
    assert_eq!(plain.extension, None);
}

#[test]
fn errors_render_as_text() {
    let e = SortSmithError::UnsafeDestination(p("/x/../y"));
    assert_eq!(e.to_text(), "unsafe destination path: /x/../y");
    let io = SortSmithError::Io { path: p("/r"), message: "denied".into() };
    assert_eq!(io.to_text(), "I/O error at /r: denied");
}
