use standalone_assets::key::AssetKey;

fn key(p: &str) -> String {
    String::from(AssetKey::from(p))
}

#[test]
fn relative_path_gets_a_root() {
    assert_eq!(key("sub/b.txt"), "/sub/b.txt");
}

#[test]
fn absolute_path_is_kept() {
    assert_eq!(key("/sub/b.txt"), "/sub/b.txt");
}

#[test]
fn backslash_separators_give_the_same_key() {
    assert_eq!(key("sub\\b.txt"), key("sub/b.txt"));
    assert_eq!(key("\\sub\\b.txt"), "/sub/b.txt");
}

#[test]
fn root_alone_is_slash() {
    assert_eq!(key("/"), "/");
    assert_eq!(key(""), "/");
    assert_eq!(key("\\"), "/");
}

#[test]
fn trailing_separator_is_dropped() {
    assert_eq!(key("sub/dir/"), "/sub/dir");
}

#[test]
fn repeated_separators_collapse() {
    assert_eq!(key("//sub///b.txt"), "/sub/b.txt");
}

#[test]
fn dot_components_are_kept() {
    assert_eq!(key("./a/../b"), "/./a/../b");
}

#[test]
fn normalizing_twice_is_normalizing_once() {
    for p in ["sub/b.txt", "a\\b\\", "", "/", "x//y/./z/..", "C:\\dir\\f.js"] {
        let once = key(p);
        assert_eq!(key(&once), once);
        assert!(once.starts_with('/'));
    }
}

#[test]
fn drive_prefix_becomes_a_component() {
    assert_eq!(key("C:\\dir\\f.js"), "/C:/dir/f.js");
}

#[test]
fn as_str_gives_the_key() {
    assert_eq!(AssetKey::from("a.txt").as_str(), "/a.txt");
}
