use promptree::{
    aggregate, order, process_files, recalculate_counts, FileInput, FileNode, ProcessingOptions,
    Tokenizer,
};

fn file_input(path: &str, content: &str) -> FileInput {
    FileInput { path: path.to_string(), content: content.to_string() }
}

fn file_node(path: &str, size: u64, tokens: Option<u32>) -> FileNode {
    FileNode {
        path: path.to_string(),
        name: path.rsplit('/').next().unwrap().to_string(),
        is_dir: false,
        token_count: tokens,
        children: vec![],
        size: Some(size),
    }
}

fn dir_node(path: &str, children: Vec<FileNode>) -> FileNode {
    FileNode {
        path: path.to_string(),
        name: path.rsplit('/').next().unwrap().to_string(),
        is_dir: true,
        token_count: Some(0),
        children,
        size: Some(0),
    }
}

fn assert_tree_eq(a: &FileNode, b: &FileNode) {
    assert_eq!(a.path, b.path);
    assert_eq!(a.name, b.name);
    assert_eq!(a.is_dir, b.is_dir);
    assert_eq!(a.token_count, b.token_count);
    assert_eq!(a.size, b.size);
    assert_eq!(a.children.len(), b.children.len(), "children of {}", a.path);
    for (ca, cb) in a.children.iter().zip(b.children.iter()) {
        assert_tree_eq(ca, cb);
    }
}

fn assert_forest_eq(a: &[FileNode], b: &[FileNode]) {
    assert_eq!(a.len(), b.len());
    for (x, y) in a.iter().zip(b.iter()) {
        assert_tree_eq(x, y);
    }
}

#[test]
fn end_to_end_two_roots() {
    let tok = Tokenizer::cl100k().expect("tokenizer should load");
    let files = vec![
        file_input("src/a.js", "x"),
        file_input("src/b.js", "yy"),
        file_input("README", "hi"),
    ];
    let r = process_files(&files, &ProcessingOptions::default(), &tok).expect("should process");
    assert_eq!(r.total_files, 3);
    assert_eq!(r.total_size, 5);
    assert_eq!(r.total_tokens, 3);
    assert_eq!(r.file_tree.len(), 2);
    // directories come before files
    let src = &r.file_tree[0];
    assert_eq!(src.path, "src");
    assert!(src.is_dir);
    assert_eq!(src.size, Some(3));
    assert_eq!(src.token_count, Some(2));
    assert_eq!(src.children.len(), 2);
    assert_eq!(src.children[0].name, "a.js");
    assert_eq!(src.children[0].size, Some(1));
    assert_eq!(src.children[0].token_count, Some(1));
    assert_eq!(src.children[1].name, "b.js");
    assert_eq!(src.children[1].size, Some(2));
    assert_eq!(src.children[1].token_count, Some(1));
    let readme = &r.file_tree[1];
    assert_eq!(readme.path, "README");
    assert!(!readme.is_dir);
    assert_eq!(readme.size, Some(2));
    assert_eq!(readme.token_count, Some(1));
}

#[test]
fn token_counts_are_real() {
    let tok = Tokenizer::cl100k().expect("tokenizer should load");
    let files = vec![file_input("a.txt", "the quick brown fox jumps over the lazy dog")];
    let r = process_files(&files, &ProcessingOptions::default(), &tok).expect("should process");
    // several words can never come back as zero or one token
    assert!(r.total_tokens > 1);
}

#[test]
fn tokens_off_leaves_counts_absent() {
    let tok = Tokenizer::cl100k().expect("tokenizer should load");
    let files = vec![file_input("d/a.txt", "hello")];
    let opts = ProcessingOptions { hide_empty_folders: true, show_token_count: false };
    let r = process_files(&files, &opts, &tok).expect("should process");
    assert_eq!(r.total_tokens, 0);
    assert_eq!(r.file_tree[0].token_count, None);
    assert_eq!(r.file_tree[0].children[0].token_count, None);
}

#[test]
fn duplicate_normalized_paths_last_wins_in_tree() {
    let tok = Tokenizer::cl100k().expect("tokenizer should load");
    let files = vec![file_input("d/a.txt", "first"), file_input("d//a.txt", "second!")];
    let r = process_files(&files, &ProcessingOptions::default(), &tok).expect("should process");
    // the totals still count both files
    assert_eq!(r.total_files, 2);
    assert_eq!(r.total_size, 12);
    // the tree keeps the later file
    let d = &r.file_tree[0];
    assert_eq!(d.children.len(), 1);
    assert_eq!(d.children[0].size, Some(7));
}

#[test]
fn empty_normalized_path_skipped() {
    let tok = Tokenizer::cl100k().expect("tokenizer should load");
    let files = vec![file_input("///", "junk"), file_input("a.txt", "ok")];
    let r = process_files(&files, &ProcessingOptions::default(), &tok).expect("should process");
    assert_eq!(r.total_files, 1);
    assert_eq!(r.total_size, 2);
    assert_eq!(r.file_tree.len(), 1);
    assert_eq!(r.skipped_paths, vec!["///".to_string()]);
}

#[test]
fn aggregation_is_idempotent() {
    let tree = vec![
        dir_node(
            "a",
            vec![file_node("a/x.txt", 10, Some(3)), dir_node("a/b", vec![file_node(
                "a/b/y.txt",
                7,
                Some(2),
            )])],
        ),
        file_node("top.txt", 5, Some(1)),
    ];
    let opts = ProcessingOptions::default();
    let once = aggregate(tree, &opts);
    let mirror: Vec<FileNode> = once
        .iter()
        .map(|n| clone_node(n))
        .collect();
    let twice = aggregate(once, &opts);
    assert_forest_eq(&mirror, &twice);
}

fn clone_node(n: &FileNode) -> FileNode {
    FileNode {
        path: n.path.clone(),
        name: n.name.clone(),
        is_dir: n.is_dir,
        token_count: n.token_count,
        children: n.children.iter().map(clone_node).collect(),
        size: n.size,
    }
}

#[test]
fn aggregation_sums_sizes_and_tokens() {
    let tree = vec![dir_node(
        "a",
        vec![file_node("a/x.txt", 10, Some(3)), dir_node("a/b", vec![file_node(
            "a/b/y.txt",
            7,
            Some(2),
        )])],
    )];
    let out = aggregate(tree, &ProcessingOptions::default());
    assert_eq!(out[0].size, Some(17));
    assert_eq!(out[0].token_count, Some(5));
    assert_eq!(out[0].children[1].size, Some(7));
}

#[test]
fn empty_folder_pruned_or_kept() {
    let make = || {
        vec![dir_node("empty", vec![]), file_node("f.txt", 3, Some(1))]
    };
    let hide = ProcessingOptions { hide_empty_folders: true, show_token_count: true };
    let keep = ProcessingOptions { hide_empty_folders: false, show_token_count: true };
    let pruned = aggregate(make(), &hide);
    assert_eq!(pruned.len(), 1);
    assert_eq!(pruned[0].path, "f.txt");
    let kept = aggregate(make(), &keep);
    assert_eq!(kept.len(), 2);
    assert_eq!(kept[0].path, "empty");
    assert!(kept[0].children.is_empty());
}

#[test]
fn cascading_empty_folders_pruned() {
    let tree = vec![dir_node("a", vec![dir_node("a/b", vec![])]), file_node("f.txt", 1, Some(1))];
    let hide = ProcessingOptions { hide_empty_folders: true, show_token_count: true };
    let out = aggregate(tree, &hide);
    assert_eq!(out.len(), 1);
    assert_eq!(out[0].path, "f.txt");
}

#[test]
fn deterministic_display_order() {
    let nodes = vec![
        file_node("Zebra.txt", 1, None),
        dir_node("apple", vec![]),
        file_node("Apple.txt", 1, None),
    ];
    let out = order(nodes);
    assert_eq!(out[0].name, "apple");
    assert!(out[0].is_dir);
    assert_eq!(out[1].name, "Apple.txt");
    assert_eq!(out[2].name, "Zebra.txt");
}

#[test]
fn order_lowercases_across_cases() {
    // lowercase folding decides: raw code points would put the capital
    // first
    let nodes = vec![file_node("B.txt", 1, None), file_node("a.txt", 1, None)];
    let out = order(nodes);
    assert_eq!(out[0].name, "a.txt");
    assert_eq!(out[1].name, "B.txt");
}

#[test]
fn order_is_stable_for_ties() {
    let nodes = vec![file_node("B.txt", 1, None), file_node("b.TXT", 2, None)];
    let out = order(nodes);
    assert_eq!(out[0].name, "B.txt");
    assert_eq!(out[1].name, "b.TXT");
}

#[test]
fn recalculate_resums_and_clears() {
    let tree = vec![dir_node(
        "a",
        vec![file_node("a/x.txt", 10, Some(3)), file_node("a/y.txt", 4, Some(2))],
    )];
    let on = ProcessingOptions { hide_empty_folders: true, show_token_count: true };
    let out = recalculate_counts(tree, &on);
    assert_eq!(out[0].size, Some(14));
    assert_eq!(out[0].token_count, Some(5));
    // turning counting off leaves the leaves alone but clears the
    // directory's count to absent, not zero
    let off = ProcessingOptions { hide_empty_folders: true, show_token_count: false };
    let out2 = recalculate_counts(out, &off);
    assert_eq!(out2[0].token_count, None);
    assert_eq!(out2[0].children[0].token_count, Some(3));
}

#[test]
fn recalculate_keeps_structure() {
    let tree = vec![dir_node("lone", vec![])];
    let off = ProcessingOptions { hide_empty_folders: true, show_token_count: false };
    // recalculation never prunes, whatever the hiding switch says
    let out = recalculate_counts(tree, &off);
    assert_eq!(out.len(), 1);
    assert_eq!(out[0].size, Some(0));
}
