use sortsmith_core::paths::FsPath;
use sortsmith_core::text::trim_text;

fn p(text: &str) -> FsPath {
    FsPath::parse(text)
}

#[test]
fn paths_compare_by_components() {
    assert_eq!(p("/a//b/./c/"), p("/a/b/c"));
    assert_eq!(p("./a").to_text(), "./a");
    assert!(p("/a/b").starts_with(&p("/a")));
    assert!(!p("/ab").starts_with(&p("/a")));
    assert_eq!(p("/a/b/c.txt").strip_prefix(&p("/a")), Some(p("b/c.txt")));
    assert_eq!(p("/a").strip_prefix(&p("/b")), None);
}

#[test]
fn file_names_stems_and_extensions() {
    let file = p("/a/archive.tar.gz");
    assert_eq!(file.file_name(), Some("archive.tar.gz".to_string()));
    assert_eq!(file.file_stem(), Some("archive.tar".to_string()));
    assert_eq!(file.extension(), Some("gz".to_string()));
    assert_eq!(p("/a/.hidden").extension(), None);
    assert_eq!(p("/a/..").file_name(), None);
    assert_eq!(file.parent(), Some(p("/a")));
    assert_eq!(file.with_file_name("x.txt"), p("/a/x.txt"));
}

#[test]
fn escaping_components_are_detected() {
    assert!(p("a/../b").escapes());
    assert!(p("/a").escapes());
    assert!(!p("a/b").escapes());
}

#[test]
fn trim_removes_surrounding_white_space() {
    assert_eq!(trim_text("  a b \n"), "a b");
    assert_eq!(trim_text("\t"), "");
}
