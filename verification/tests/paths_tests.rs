use promptree::{extract_file_name, normalize_path};

#[test]
fn normalize_backslashes() {
    assert_eq!(normalize_path("a\\b\\c.txt"), "a/b/c.txt");
}

#[test]
fn normalize_collapses_and_strips() {
    assert_eq!(normalize_path("/a//b/"), "a/b");
    assert_eq!(normalize_path("a//b"), "a/b");
    assert_eq!(normalize_path("///"), "");
    assert_eq!(normalize_path(""), "");
}

#[test]
fn normalize_volume_prefix() {
    assert_eq!(normalize_path("C:\\Users\\me\\f.txt"), "Users/me/f.txt");
    assert_eq!(normalize_path("c:/x"), "x");
}

#[test]
fn normalize_plain_path_unchanged() {
    assert_eq!(normalize_path("src/lib.rs"), "src/lib.rs");
}

#[test]
fn file_name_last_segment() {
    assert_eq!(extract_file_name("a/b/c.txt"), "c.txt");
    assert_eq!(extract_file_name("a/b/"), "b");
    assert_eq!(extract_file_name("README"), "README");
}

#[test]
fn file_name_degenerate() {
    assert_eq!(extract_file_name("/"), "/");
    assert_eq!(extract_file_name(""), "");
}

#[test]
fn normalize_is_idempotent() {
    for p in ["/a:b", "a:b", "/x:/y", "C:\\Users\\me", "a//b/", "x//", "c:"] {
        let once = normalize_path(p);
        let twice = normalize_path(&once);
        assert_eq!(once, twice, "input {:?}", p);
    }
}

#[test]
fn normalize_keeps_inner_colon() {
    assert_eq!(normalize_path("/a:b"), "a:b");
    assert_eq!(normalize_path("a:b"), "a:b");
}
