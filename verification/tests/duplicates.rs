use sortsmith_core::duplicates::{group_duplicates, hash_file, size_candidates, HashedFile, SizedFile};
use sortsmith_core::paths::FsPath;

fn p(text: &str) -> FsPath {
    FsPath::parse(text)
}

#[test]
fn finds_equal_content_without_deleting() {
    let files = vec![
        SizedFile { path: p("/r/a.bin"), size: 4 },
        SizedFile { path: p("/r/b.bin"), size: 4 },
        SizedFile { path: p("/r/c.bin"), size: 9 },
    ];
    let candidates = size_candidates(&files);
    assert_eq!(candidates.len(), 2);
    let hashed = vec![
        hash_file(&SizedFile { path: p("/r/a.bin"), size: 4 }, b"same"),
        hash_file(&SizedFile { path: p("/r/b.bin"), size: 4 }, b"same"),
    ];
    let groups = group_duplicates(&hashed);
    assert_eq!(groups.len(), 1);
    assert_eq!(groups[0].files.len(), 2);
    assert_eq!(groups[0].files[0].path, p("/r/a.bin"));
    assert_eq!(files.len(), 3);
}

#[test]
fn content_hash_is_blake3_hex() {
    let file = SizedFile { path: p("/r/empty"), size: 0 };
    assert_eq!(hash_file(&file, b"").hash, "af1349b9f5f9a1a6a0404dea36dcc9499bcb25c9adc112b7cc9a93cae41f3262");
    assert_eq!(hash_file(&file, b"abc").hash.len(), 64);
    assert_ne!(hash_file(&file, b"same").hash, hash_file(&file, b"different").hash);
}

#[test]
fn groups_are_ordered_by_size_then_hash() {
    let hashed = vec![
        HashedFile { path: p("/r/1"), size: 1, hash: "bb".into() },
        HashedFile { path: p("/r/2"), size: 5, hash: "zz".into() },
        HashedFile { path: p("/r/3"), size: 1, hash: "bb".into() },
        HashedFile { path: p("/r/4"), size: 5, hash: "zz".into() },
        HashedFile { path: p("/r/5"), size: 1, hash: "aa".into() },
        HashedFile { path: p("/r/6"), size: 1, hash: "aa".into() },
        HashedFile { path: p("/r/7"), size: 1, hash: "cc".into() },
    ];
    let groups = group_duplicates(&hashed);
    let keys = groups.iter().map(|g| (g.size, g.hash.clone(), g.files.len())).collect::<Vec<_>>();
    assert_eq!(keys, vec![(5, "zz".to_string(), 2), (1, "aa".to_string(), 2), (1, "bb".to_string(), 2)]);
    assert_eq!(groups[2].files[1].path, p("/r/3"));
}

#[test]
fn hashing_keeps_path_and_size() {
    let file = SizedFile { path: p("/r/a.bin"), size: 4 };
    let hashed = hash_file(&file, b"same");
    assert_eq!(hashed.path, p("/r/a.bin"));
    assert_eq!(hashed.size, 4);
    assert_eq!(hashed.hash, hash_file(&file, b"same").hash);
}
