use promptree::IgnoreMatcher;
use promptree::{filter_files, FileMetadata, FilterOptions};

fn meta(path: &str, size: u32) -> FileMetadata {
    FileMetadata { path: path.to_string(), size }
}

fn kept(metadata: Vec<FileMetadata>, gitignore: &str, options: &FilterOptions) -> Vec<String> {
    filter_files(&metadata, gitignore, options)
        .ok()
        .expect("gitignore should build")
        .paths
}

#[test]
fn gitignore_directory_pattern() {
    let ms = vec![meta("root/build/a.txt", 10), meta("root/buildx/a.txt", 10)];
    let paths = kept(ms, "build/", &FilterOptions::default());
    assert_eq!(paths, vec!["root/buildx/a.txt".to_string()]);
}

#[test]
fn gitignore_negation_overrides() {
    let ms = vec![meta("root/important.log", 5), meta("root/debug.log", 5)];
    let paths = kept(ms, "*.log\n!important.log", &FilterOptions::default());
    assert_eq!(paths, vec!["root/important.log".to_string()]);
}

#[test]
fn gitignore_anchored_and_doublestar() {
    let ms = vec![
        meta("root/docs/gen/x.txt", 1),
        meta("root/other/docs/keep.txt", 1),
        meta("root/top.txt", 1),
    ];
    let paths = kept(ms, "/docs/**", &FilterOptions::default());
    assert_eq!(
        paths,
        vec!["root/other/docs/keep.txt".to_string(), "root/top.txt".to_string()]
    );
}

#[test]
fn gitignore_invalid_line_skipped() {
    // a line ending in a lone backslash is not a parsable glob and is
    // dropped and reported; the next line still applies
    let ms = vec![meta("root/debug.log", 5), meta("root/a.txt", 5)];
    let fr = filter_files(&ms, "bad\\\n*.log", &FilterOptions::default())
        .ok()
        .expect("gitignore should build");
    assert_eq!(fr.paths, vec!["root/a.txt".to_string()]);
    assert_eq!(fr.skipped_lines, vec![1]);
}

#[test]
fn well_formed_lines_report_nothing_skipped() {
    let ms = vec![meta("root/a.txt", 5)];
    let fr = filter_files(&ms, "# comment\n\n*.log", &FilterOptions::default())
        .ok()
        .expect("gitignore should build");
    assert_eq!(fr.paths, vec!["root/a.txt".to_string()]);
    assert!(fr.skipped_lines.is_empty());
}

#[test]
fn git_dir_always_excluded() {
    let ms = vec![meta("root/.git/config", 1), meta("root/.git", 1), meta("root/a.txt", 1)];
    let paths = kept(ms, "", &FilterOptions::default());
    assert_eq!(paths, vec!["root/a.txt".to_string()]);
}

#[test]
fn empty_relative_path_dropped() {
    let ms = vec![meta("root/", 0), meta("root/a.txt", 1)];
    let paths = kept(ms, "", &FilterOptions::default());
    assert_eq!(paths, vec!["root/a.txt".to_string()]);
}

#[test]
fn size_limit_excludes_large_file() {
    let big = 3 * 1024 * 1024;
    let ms = vec![meta("root/big.txt", big), meta("root/small.txt", 100)];
    let paths = kept(ms, "", &FilterOptions::default());
    assert_eq!(paths, vec!["root/small.txt".to_string()]);
    // the limit holds whatever the other options say
    let mut o = FilterOptions::default();
    o.text_only = false;
    o.include_patterns = vec!["big".to_string()];
    let paths2 = kept(vec![meta("root/big.txt", big)], "", &o);
    assert!(paths2.is_empty());
}

#[test]
fn text_only_drops_binary_extension() {
    let ms = vec![meta("root/img.png", 10), meta("root/a.rs", 10)];
    let paths = kept(ms, "", &FilterOptions::default());
    assert_eq!(paths, vec!["root/a.rs".to_string()]);
    let mut o = FilterOptions::default();
    o.text_only = false;
    let paths2 = kept(vec![meta("root/img.png", 10)], "", &o);
    assert_eq!(paths2, vec!["root/img.png".to_string()]);
}

#[test]
fn include_and_exclude_substrings() {
    let mut o = FilterOptions::default();
    o.include_patterns = vec!["src".to_string()];
    let ms = vec![meta("root/src/a.rs", 1), meta("root/doc/b.md", 1)];
    assert_eq!(kept(ms, "", &o), vec!["root/src/a.rs".to_string()]);

    let mut o2 = FilterOptions::default();
    o2.exclude_patterns = vec!["test".to_string()];
    let ms2 = vec![meta("root/src/a.rs", 1), meta("root/src/a_test.rs", 1)];
    assert_eq!(kept(ms2, "", &o2), vec!["root/src/a.rs".to_string()]);
}

#[test]
fn order_of_kept_paths_is_input_order() {
    let ms = vec![meta("root/b.txt", 1), meta("root/a.txt", 1), meta("root/c.txt", 1)];
    let paths = kept(ms, "", &FilterOptions::default());
    assert_eq!(
        paths,
        vec!["root/b.txt".to_string(), "root/a.txt".to_string(), "root/c.txt".to_string()]
    );
}

#[test]
fn matcher_answers_directly() {
    let (m, skipped) = IgnoreMatcher::from_text("*.log\n!keep.log\nbuild/").expect("should build");
    assert!(skipped.is_empty());
    assert!(m.is_ignored("debug.log", false));
    assert!(!m.is_ignored("keep.log", false));
    assert!(m.is_ignored("build", true));
    assert!(m.is_ignored("build/deep/file.txt", false));
    assert!(!m.is_ignored("src/main.rs", false));
}

#[test]
fn include_patterns_match_relative_path() {
    // the substring patterns are matched against the root-relative path,
    // so the stripped root folder's name does not match
    let mut o = FilterOptions::default();
    o.include_patterns = vec!["root".to_string()];
    let ms = vec![meta("root/a.txt", 1)];
    assert!(kept(ms, "", &o).is_empty());
}
