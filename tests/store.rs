use standalone_assets::codec::compression_level;
use standalone_assets::store::{Assets, EmbeddedAssets, EmbeddedAssetsError, WalkEntry};

fn file(path: &str, contents: &[u8]) -> WalkEntry {
    WalkEntry::File { path: path.to_string(), contents: contents.to_vec() }
}

fn dir(path: &str) -> WalkEntry {
    WalkEntry::Directory { path: path.to_string() }
}

fn scenario() -> Vec<WalkEntry> {
    vec![
        dir("/src/site"),
        file("/src/site/a.txt", b"hello"),
        dir("/src/site/sub"),
        file("/src/site/sub/b.txt", b"world"),
    ]
}

#[test]
fn scenario_has_exactly_two_keys() {
    let store = EmbeddedAssets::new("/src/site", scenario(), -5).unwrap();
    let mut keys: Vec<String> = store.into_entries().into_iter().map(|r| r.0).collect();
    keys.sort();
    assert_eq!(keys, vec!["/a.txt".to_string(), "/sub/b.txt".to_string()]);
}

#[test]
fn scenario_lookups() {
    let store = EmbeddedAssets::new("/src/site", scenario(), -5).unwrap();
    assert_eq!(store.get("/a.txt").unwrap(), Some(b"hello".to_vec()));
    assert_eq!(store.get("sub/b.txt").unwrap(), Some(b"world".to_vec()));
    assert_eq!(store.get("sub\\b.txt").unwrap(), Some(b"world".to_vec()));
    assert_eq!(store.get("/missing.txt").unwrap(), None);
}

#[test]
fn round_trip_at_release_level() {
    let level = compression_level(Some("release"));
    let big: Vec<u8> = (0..5000u32).map(|i| (i % 7) as u8).collect();
    let entries = vec![file("/r/x.bin", &big), file("/r/empty", b""), file("/r/d/y", b"y")];
    let store = EmbeddedAssets::new("/r", entries, level).unwrap();
    assert_eq!(store.get("/x.bin").unwrap(), Some(big));
    assert_eq!(store.get("/empty").unwrap(), Some(Vec::new()));
    assert_eq!(store.get("d/y").unwrap(), Some(b"y".to_vec()));
}

#[test]
fn payloads_are_stored_compressed() {
    let data = vec![b'a'; 4096];
    let store = EmbeddedAssets::new("/r", vec![file("/r/a", &data)], 3).unwrap();
    let rows = store.into_entries();
    assert_eq!(rows.len(), 1);
    assert_eq!(rows[0].0, "/a");
    assert_eq!(rows[0].1, "/r/a");
    assert_ne!(rows[0].2, data);
    assert!(rows[0].2.len() < data.len());
}

#[test]
fn two_files_with_one_key_fail_the_build() {
    let entries = vec![file("/r/a/b", b"first"), file("/r/a\\b", b"second")];
    match EmbeddedAssets::new("/r", entries, -5) {
        Err(EmbeddedAssetsError::DuplicateKey { key, path }) => {
            assert_eq!(key, "/a/b");
            assert_eq!(path, "/r/a\\b");
        },
        other => panic!("unexpected {:?}", other.map(|_| ())),
    }
}

#[test]
fn relative_root_does_not_match_absolute_path() {
    match EmbeddedAssets::new("d", vec![file("/d/x", b"x")], -5) {
        Err(EmbeddedAssetsError::PrefixInvalid { prefix, path }) => {
            assert_eq!(prefix, "d");
            assert_eq!(path, "/d/x");
        },
        other => panic!("unexpected {:?}", other.map(|_| ())),
    }
    let store = EmbeddedAssets::new("d", vec![file("d/x", b"x")], -5).unwrap();
    assert_eq!(store.get("/x").unwrap(), Some(b"x".to_vec()));
}

#[test]
fn dot_components_do_not_move_files_outside_the_root() {
    let store = EmbeddedAssets::new("/d/.", vec![file("/d/x", b"1"), file("/d/./y/./z", b"2")], -5).unwrap();
    assert_eq!(store.get("/x").unwrap(), Some(b"1".to_vec()));
    assert_eq!(store.get("/y/z").unwrap(), Some(b"2".to_vec()));
    let store = EmbeddedAssets::new("./d", vec![file("./d/x", b"3")], -5).unwrap();
    assert_eq!(store.get("/x").unwrap(), Some(b"3".to_vec()));
}

#[test]
fn parent_components_are_compared_as_they_are() {
    let store = EmbeddedAssets::new("/d/../e", vec![file("/d/../e/f", b"4")], -5).unwrap();
    assert_eq!(store.get("/f").unwrap(), Some(b"4".to_vec()));
    assert!(matches!(
        EmbeddedAssets::new("/e", vec![file("/d/../e/f", b"4")], -5),
        Err(EmbeddedAssetsError::PrefixInvalid { .. })
    ));
}

#[test]
fn root_directory_keys_whole_paths() {
    let store = EmbeddedAssets::new("/", vec![file("/etc/x", b"1")], -5).unwrap();
    assert_eq!(store.get("/etc/x").unwrap(), Some(b"1".to_vec()));
}

#[test]
fn compression_levels() {
    assert_eq!(compression_level(Some("release")), 22);
    assert_eq!(compression_level(Some("debug")), -5);
    assert_eq!(compression_level(None), -5);
}

#[test]
fn unreadable_file_fails_the_build() {
    let entries = vec![
        file("/r/a", b"a"),
        WalkEntry::Unreadable { path: "/r/b".to_string(), cause: "denied".to_string() },
        WalkEntry::Failed { cause: "later".to_string() },
    ];
    match EmbeddedAssets::new("/r", entries, -5) {
        Err(EmbeddedAssetsError::AssetRead { path, cause }) => {
            assert_eq!(path, "/r/b");
            assert_eq!(cause, "denied");
        },
        other => panic!("unexpected {:?}", other.map(|_| ())),
    }
}

#[test]
fn walk_failure_fails_the_build() {
    let entries = vec![WalkEntry::Failed { cause: "loop".to_string() }];
    match EmbeddedAssets::new("/r", entries, -5) {
        Err(EmbeddedAssetsError::Walkdir { path, cause }) => {
            assert_eq!(path, "/r");
            assert_eq!(cause, "loop");
        },
        other => panic!("unexpected {:?}", other.map(|_| ())),
    }
}

#[test]
fn file_outside_root_is_refused() {
    let entries = vec![file("/r/a", b"a"), file("/rx/b", b"b")];
    match EmbeddedAssets::new("/r", entries, -5) {
        Err(EmbeddedAssetsError::PrefixInvalid { prefix, path }) => {
            assert_eq!(prefix, "/r");
            assert_eq!(path, "/rx/b");
        },
        other => panic!("unexpected {:?}", other.map(|_| ())),
    }
}

#[test]
fn corrupt_payload_is_an_error() {
    let store = EmbeddedAssets::from_entries(vec![(
        "/bad".to_string(),
        "/r/bad".to_string(),
        vec![1, 2, 3],
    )]);
    assert!(matches!(store.get("/bad"), Err(EmbeddedAssetsError::AssetDecode { .. })));
    assert_eq!(store.get("/other").unwrap(), None);
}

#[test]
fn rows_round_trip_through_from_entries() {
    let store = EmbeddedAssets::new("/src/site", scenario(), -5).unwrap();
    let rebuilt = EmbeddedAssets::from_entries(store.into_entries());
    assert_eq!(rebuilt.get("/a.txt").unwrap(), Some(b"hello".to_vec()));
    assert_eq!(rebuilt.get("/sub/b.txt").unwrap(), Some(b"world".to_vec()));
}
