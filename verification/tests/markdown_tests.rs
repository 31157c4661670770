use promptree::{detect_language, merge_files_to_markdown, FileInput, MarkdownOptions};

fn file_input(path: &str, content: &str) -> FileInput {
    FileInput { path: path.to_string(), content: content.to_string() }
}

#[test]
fn language_from_extension() {
    assert_eq!(detect_language("a/b.rs"), "rust");
    assert_eq!(detect_language("x.tsx"), "tsx");
    assert_eq!(detect_language("x.yml"), "yaml");
    assert_eq!(detect_language("x.cc"), "cpp");
    assert_eq!(detect_language("x.unknown"), "");
}

#[test]
fn language_is_case_sensitive_with_makefile_fallback() {
    assert_eq!(detect_language("x.RS"), "");
    assert_eq!(detect_language("sub/Makefile"), "makefile");
    assert_eq!(detect_language("GNUmakefile"), "makefile");
}

#[test]
fn merge_with_headers() {
    let files = vec![file_input("a.rs", "fn main() {}\n"), file_input("b.txt", " hi ")];
    let out = merge_files_to_markdown(&files, &MarkdownOptions::default());
    assert_eq!(
        out,
        "#### File: `a.rs`\n```rust\nfn main() {}\n```\n\n#### File: `b.txt`\n```\nhi\n```"
    );
}

#[test]
fn merge_without_headers() {
    let files = vec![file_input("a.py", "print(1)")];
    let opts = MarkdownOptions { include_path_headers: false };
    let out = merge_files_to_markdown(&files, &opts);
    assert_eq!(out, "```python\nprint(1)\n```");
}

#[test]
fn merge_empty_input() {
    let out = merge_files_to_markdown(&vec![], &MarkdownOptions::default());
    assert_eq!(out, "");
}
