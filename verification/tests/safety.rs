use sortsmith_core::error::SortSmithError;
use sortsmith_core::paths::FsPath;
use sortsmith_core::safety::{
    collision_safe_path, collision_safe_path_with_reserved, contains_invalid_filename_character,
    is_windows_reserved_name, safe_subdirectory, validate_filename, validate_filename_fragment,
};

fn path(text: &str) -> FsPath {
    FsPath::parse(text)
}

#[test]
fn rejects_windows_unsafe_characters() {
    assert!(validate_filename("bad:name.txt", "file").is_err());
}

#[test]
fn rejects_windows_reserved_names() {
    assert!(validate_filename("CON.txt", "file").is_err());
}

#[test]
fn rejects_overlong_utf8_or_utf16_names() {
    assert!(validate_filename(&"a".repeat(256), "file").is_err());
    assert!(validate_filename(&"😀".repeat(256), "file").is_err());
}

#[test]
fn collision_helper_preserves_extension() {
    let root = path("/tmp/sortsmith-root");
    let existing = root.join_text("note.txt");
    let occupied = |p: &FsPath| p.same_as(&existing);
    let result = collision_safe_path(&existing, &occupied);
    assert_eq!(result, Some(root.join_text("note (1).txt")));
}

#[test]
fn free_path_is_kept_by_collision_search() {
    let p = path("/tmp/root/note.txt");
    let occupied = |_: &FsPath| false;
    assert_eq!(collision_safe_path(&p, &occupied), Some(p.clone()));
}

#[test]
fn collision_search_skips_reserved_and_taken_alternatives() {
    let p = path("/tmp/root/note.txt");
    let taken = path("/tmp/root/note (1).txt");
    let reserved = vec![p.clone(), path("/tmp/root/note (2).txt")];
    let occupied = |q: &FsPath| q.same_as(&taken);
    let result = collision_safe_path_with_reserved(&p, &reserved, &occupied);
    assert_eq!(result, Some(path("/tmp/root/note (3).txt")));
}

#[test]
fn collision_search_without_extension_numbers_the_name() {
    let p = path("/tmp/root/README");
    let occupied = |q: &FsPath| q.same_as(&p);
    assert_eq!(collision_safe_path(&p, &occupied), Some(path("/tmp/root/README (1)")));
}

#[test]
fn collision_search_never_returns_an_occupied_path() {
    let p = path("/tmp/root/note.txt");
    let occupied = |_: &FsPath| true;
    assert_eq!(collision_safe_path(&p, &occupied), None);
    let reserved = vec![p.clone()];
    let all_but_last = |q: &FsPath| !q.same_as(&path("/tmp/root/note (100000).txt"));
    assert_eq!(
        collision_safe_path_with_reserved(&p, &reserved, &all_but_last),
        Some(path("/tmp/root/note (100000).txt"))
    );
}

#[test]
fn accepts_portable_filenames() {
    assert!(validate_filename("file_report-2024.txt", "generated filename").is_ok());
    assert!(validate_filename(&"a".repeat(255), "file").is_ok());
}

#[test]
fn rejects_trailing_space_or_period() {
    assert!(validate_filename("name.", "file").is_err());
    assert!(validate_filename("name ", "file").is_err());
}

#[test]
fn rejects_reserved_component_names() {
    assert!(validate_filename("", "file").is_err());
    assert!(validate_filename(".", "file").is_err());
    assert!(validate_filename("..", "file").is_err());
}

#[test]
fn filename_error_messages_name_the_label() {
    match validate_filename("bad:name.txt", "file") {
        Err(SortSmithError::InvalidRule(m)) => {
            assert_eq!(m, "file contains a character that is unsafe in a cross-platform filename")
        }
        other => panic!("unexpected {:?}", other),
    }
    match validate_filename("LPT3.log", "renamed file") {
        Err(SortSmithError::InvalidRule(m)) => {
            assert_eq!(m, "renamed file uses a Windows-reserved device name")
        }
        other => panic!("unexpected {:?}", other),
    }
    match validate_filename(&"b".repeat(300), "file") {
        Err(SortSmithError::InvalidRule(m)) => assert_eq!(m, "file is too long for a portable filename"),
        other => panic!("unexpected {:?}", other),
    }
}

#[test]
fn fragment_must_not_be_blank_or_unsafe() {
    assert!(validate_filename_fragment("sorted-", "rename prefix").is_ok());
    match validate_filename_fragment("   ", "rename prefix") {
        Err(SortSmithError::InvalidRule(m)) => assert_eq!(m, "rename prefix cannot be empty"),
        other => panic!("unexpected {:?}", other),
    }
    assert!(validate_filename_fragment("a/b", "rename prefix").is_err());
}

#[test]
fn detects_invalid_characters_and_device_names() {
    assert!(contains_invalid_filename_character("a|b"));
    assert!(contains_invalid_filename_character("tab\there"));
    assert!(!contains_invalid_filename_character("plain name.txt"));
    assert!(is_windows_reserved_name("com1.txt"));
    assert!(is_windows_reserved_name("dir/nul"));
    assert!(!is_windows_reserved_name("console.txt"));
    assert!(!is_windows_reserved_name("COM0"));
}

#[test]
fn safe_relative_subdirectories_remain_below_root() {
    let root = path("sortsmith-property-root");
    let destination = safe_subdirectory(&root, "Media/Images").unwrap();
    assert!(destination.starts_with(&root));
    assert_ne!(destination, root);
    assert_eq!(destination, path("sortsmith-property-root/Media/Images"));
}

#[test]
fn parent_traversal_is_always_rejected() {
    let root = path("root");
    assert!(safe_subdirectory(&root, "..").is_err());
    assert!(safe_subdirectory(&root, "../x").is_err());
    assert!(safe_subdirectory(&root, "a/../../b").is_err());
    assert!(safe_subdirectory(&root, "/etc").is_err());
    match safe_subdirectory(&root, "") {
        Err(SortSmithError::UnsafeDestination(p)) => assert!(p.is_empty()),
        other => panic!("unexpected {:?}", other),
    }
}

#[test]
fn rejects_superscript_device_names() {
    for name in ["COM¹.txt", "LPT²", "com³.log", "lpt¹"] {
        match validate_filename(name, "file") {
            Err(SortSmithError::InvalidRule(message)) => {
                assert_eq!(message, "file uses a Windows-reserved device name");
            }
            other => panic!("{name} was not refused: {other:?}"),
        }
    }
    assert!(is_windows_reserved_name("dir/COM²"));
    assert!(!is_windows_reserved_name("COM⁴.txt"));
    assert!(validate_filename("COM⁴.txt", "file").is_ok());
}

#[test]
fn collision_names_fit_portable_limits() {
    let dir = path("/tmp/root");
    let long = dir.join_text(&("a".repeat(251) + ".txt"));
    let occupied = |q: &FsPath| q.same_as(&long);
    let result = collision_safe_path(&long, &occupied).unwrap();
    let name = result.file_name().unwrap();
    assert_ne!(result, long);
    assert_eq!(name, "a".repeat(247) + " (1).txt");
    assert!(name.len() <= 255 && name.encode_utf16().count() <= 255);
    assert!(validate_filename(&name, "file").is_ok());
}

#[test]
fn collision_names_are_cut_at_whole_characters() {
    let dir = path("/tmp/root");
    let wide = dir.join_text(&("😀".repeat(62) + ".txt"));
    let occupied = |q: &FsPath| q.same_as(&wide);
    let name = collision_safe_path(&wide, &occupied).unwrap().file_name().unwrap();
    assert_eq!(name, "😀".repeat(61) + " (1).txt");
    assert!(name.len() <= 255 && name.encode_utf16().count() <= 255);
}

#[test]
fn short_collision_names_keep_their_stem() {
    let p = path("/tmp/root/short name.md");
    let occupied = |q: &FsPath| q.same_as(&p);
    assert_eq!(collision_safe_path(&p, &occupied), Some(path("/tmp/root/short name (1).md")));
}
