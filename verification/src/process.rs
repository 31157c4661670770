use vstd::prelude::*;

use crate::aggregate::{aggregate, spec_aggregate_roots, ProcessingOptions};
use crate::node::{
    forest_leaf_size_sum, forest_leaf_token_sum, forest_view, leaf_size_sum, leaf_token_sum,
    node_view, FileNode, NodeView,
};
use crate::order::{order, spec_order_forest};
use crate::paths::{normalize_path, spec_normalize};
use crate::strutil::{lemma_split_len, spec_split, str_split};
use crate::tokenizer::{token_count_of, token_count_ok, Tokenizer};
use crate::treebuild::{insert_node, lemma_fresh_preserved, lemma_insert_sums_eq, lemma_insert_has_prefixes, lemma_insert_keeps_nodes, lemma_insert_names_unique, lemma_insert_sums_le, spec_fresh, spec_has_node, spec_insert, spec_names_unique, spec_seg_prefix};

verus! {

/// A retained file with its content.
pub struct FileInput {
    pub path: String,
    pub content: String,
}

/// The built tree, its totals, and the raw paths that were skipped for
/// normalizing to nothing.
pub struct ProcessingResult {
    pub file_tree: Vec<FileNode>,
    pub total_tokens: u32,
    pub total_files: u32,
    pub total_size: u64,
    pub skipped_paths: Vec<String>,
}

/// How processing can fail as a whole.
#[derive(Debug)]
pub enum ProcessError {
    /// The tokenizer failed on a file's content.
    Tokenizer,
    /// A total outgrew its counter.
    Overflow,
}

// ---------- the intended totals ----------

/// The byte length of a text, as `str::len` reports it.
pub open spec fn spec_byte_len(s: Seq<char>) -> int {
    (vstd::utf8::encode_utf8(s).len() as usize) as int
}

/// A file is placed in the tree when its path does not normalize to
/// nothing.
pub open spec fn spec_placed(f: FileInput) -> bool {
    spec_normalize(f.path@).len() > 0
}

pub open spec fn spec_total_size(files: Seq<FileInput>) -> int
    decreases files.len(),
{
    if files.len() == 0 {
        0
    } else {
        spec_total_size(files.drop_last()) + if spec_placed(files.last()) {
            spec_byte_len(files.last().content@)
        } else {
            0
        }
    }
}

pub open spec fn spec_total_tokens(files: Seq<FileInput>) -> int
    decreases files.len(),
{
    if files.len() == 0 {
        0
    } else {
        spec_total_tokens(files.drop_last()) + if spec_placed(files.last()) {
            token_count_of(files.last().content@) as int
        } else {
            0
        }
    }
}

pub open spec fn spec_placed_count(files: Seq<FileInput>) -> int
    decreases files.len(),
{
    if files.len() == 0 {
        0
    } else {
        spec_placed_count(files.drop_last()) + if spec_placed(files.last()) {
            1int
        } else {
            0
        }
    }
}

/// The totals fit their counters.
pub open spec fn spec_bounds_ok(files: Seq<FileInput>, show: bool) -> bool {
    &&& spec_total_size(files) <= u64::MAX
    &&& spec_placed_count(files) <= u32::MAX
    &&& (show ==> spec_total_tokens(files) <= u32::MAX)
}

/// Every placed file's content is one the tokenizer handles.
pub open spec fn spec_all_tokens_ok(files: Seq<FileInput>) -> bool {
    forall|i: int|
        0 <= i < files.len() && spec_placed(#[trigger] files[i]) ==> token_count_ok(
            files[i].content@,
        )
}

/// The raw paths of the files skipped for normalizing to nothing, in
/// input order.
pub open spec fn spec_skipped_paths(files: Seq<FileInput>) -> Seq<Seq<char>>
    decreases files.len(),
{
    if files.len() == 0 {
        Seq::empty()
    } else {
        spec_skipped_paths(files.drop_last()) + (if spec_placed(files.last()) {
            Seq::<Seq<char>>::empty()
        } else {
            seq![files.last().path@]
        })
    }
}

proof fn lemma_totals_prefix_le(files: Seq<FileInput>, j: int)
    requires
        0 <= j <= files.len(),
    ensures
        spec_total_size(files.take(j)) <= spec_total_size(files),
        spec_total_tokens(files.take(j)) <= spec_total_tokens(files),
        spec_placed_count(files.take(j)) <= spec_placed_count(files),
    decreases files.len() - j,
{
    if j == files.len() {
        assert(files.take(j) =~= files);
    } else {
        lemma_totals_prefix_le(files, j + 1);
        assert(files.take(j + 1).drop_last() =~= files.take(j));
        assert(files.take(j + 1).last() == files[j]);
    }
}

// ---------- the intended tree ----------

/// The leaf a file becomes.
pub open spec fn spec_leaf(f: FileInput, show: bool) -> NodeView {
    let p = spec_normalize(f.path@);
    NodeView {
        path: p,
        name: spec_split(p, '/').last(),
        is_dir: false,
        token_count: if show {
            Some(token_count_of(f.content@) as u32)
        } else {
            None
        },
        children: Seq::empty(),
        size: Some(spec_byte_len(f.content@) as u64),
    }
}

/// The forest the builder grows: files placed left to right, files whose
/// path normalizes to nothing skipped.
pub open spec fn spec_build(files: Seq<FileInput>, show: bool) -> Seq<NodeView>
    decreases files.len(),
{
    if files.len() == 0 {
        Seq::empty()
    } else {
        let prev = spec_build(files.drop_last(), show);
        let f = files.last();
        if spec_placed(f) {
            spec_insert(
                prev,
                Seq::empty(),
                spec_split(spec_normalize(f.path@), '/'),
                spec_leaf(f, show),
                show,
            )
        } else {
            prev
        }
    }
}

/// The whole pipeline: build, aggregate with optional pruning, order.
pub open spec fn spec_process_forest(files: Seq<FileInput>, show: bool, prune: bool) -> Seq<
    NodeView,
> {
    spec_order_forest(spec_aggregate_roots(spec_build(files, show), show, prune))
}

// ---------- the round trip ----------

proof fn lemma_totals_nonneg(files: Seq<FileInput>)
    ensures
        spec_total_size(files) >= 0,
        spec_total_tokens(files) >= 0,
        spec_placed_count(files) >= 0,
    decreases files.len(),
{
    if files.len() > 0 {
        lemma_totals_nonneg(files.drop_last());
    }
}

/// The segment list a file's path normalizes and splits to.
pub open spec fn spec_segs(f: FileInput) -> Seq<Seq<char>> {
    spec_split(spec_normalize(f.path@), '/')
}

/// No two placed files share a normalized path, and none lies at or
/// under another's path.
pub open spec fn spec_no_collisions(files: Seq<FileInput>) -> bool {
    forall|i: int, j: int|
        0 <= i < files.len() && 0 <= j < files.len() && i != j && spec_placed(files[i])
            && spec_placed(files[j]) ==> !spec_seg_prefix(
            spec_segs(#[trigger] files[i]),
            spec_segs(#[trigger] files[j]),
        )
}

proof fn lemma_build_fresh(files: Seq<FileInput>, show: bool, q: Seq<Seq<char>>)
    requires
        q.len() >= 1,
        forall|i: int|
            0 <= i < files.len() && spec_placed(#[trigger] files[i]) ==> !spec_seg_prefix(
                spec_segs(files[i]),
                q,
            ) && !spec_seg_prefix(q, spec_segs(files[i])),
    ensures
        spec_fresh(spec_build(files, show), q),
    decreases files.len(),
{
    if files.len() == 0 {
        assert(spec_fresh(Seq::empty(), q));
    } else {
        let rest = files.drop_last();
        assert forall|i: int|
            0 <= i < rest.len() && spec_placed(#[trigger] rest[i]) implies !spec_seg_prefix(
            spec_segs(rest[i]),
            q,
        ) && !spec_seg_prefix(q, spec_segs(rest[i])) by {
            assert(rest[i] == files[i]);
        }
        lemma_build_fresh(rest, show, q);
        let f = files.last();
        if spec_placed(f) {
            lemma_split_len(spec_normalize(f.path@), '/');
            assert(spec_leaf(f, show).name == spec_segs(f).last());
            assert(files[files.len() - 1] == f);
            lemma_fresh_preserved(
                spec_build(rest, show),
                Seq::empty(),
                spec_segs(f),
                spec_leaf(f, show),
                show,
                q,
            );
        }
    }
}

proof fn lemma_build_sums(files: Seq<FileInput>, show: bool)
    requires
        spec_no_collisions(files),
        show ==> spec_total_tokens(files) <= u32::MAX,
    ensures
        forest_leaf_size_sum(spec_build(files, show)) == spec_total_size(files),
        show ==> forest_leaf_token_sum(spec_build(files, show)) == spec_total_tokens(files),
    decreases files.len(),
{
    if files.len() > 0 {
        let rest = files.drop_last();
        let f = files.last();
        assert forall|i: int, j: int|
            0 <= i < rest.len() && 0 <= j < rest.len() && i != j && spec_placed(rest[i])
                && spec_placed(rest[j]) implies !spec_seg_prefix(
            spec_segs(#[trigger] rest[i]),
            spec_segs(#[trigger] rest[j]),
        ) by {
            assert(rest[i] == files[i] && rest[j] == files[j]);
        }
        if show {
            lemma_totals_nonneg(rest);
            assert(spec_placed(f) ==> token_count_of(f.content@) as int <= spec_total_tokens(
                files,
            ));
        }
        lemma_build_sums(rest, show);
        if spec_placed(f) {
            assert forall|i: int|
                0 <= i < rest.len() && spec_placed(#[trigger] rest[i]) implies !spec_seg_prefix(
                spec_segs(rest[i]),
                spec_segs(f),
            ) && !spec_seg_prefix(spec_segs(f), spec_segs(rest[i])) by {
                assert(rest[i] == files[i]);
                assert(f == files[files.len() - 1]);
            }
            lemma_split_len(spec_normalize(f.path@), '/');
            lemma_build_fresh(rest, show, spec_segs(f));
            lemma_insert_sums_eq(
                spec_build(rest, show),
                Seq::empty(),
                spec_segs(f),
                spec_leaf(f, show),
                show,
            );
            assert(leaf_size_sum(spec_leaf(f, show)) == spec_byte_len(f.content@));
            if show {
                lemma_totals_nonneg(rest);
                assert(token_count_of(f.content@) <= u32::MAX);
                assert(leaf_token_sum(spec_leaf(f, show)) == token_count_of(f.content@) as int);
            }
        }
    }
}

/// What the builder grows has one node per path: sibling names are
/// pairwise distinct at every level.
pub proof fn lemma_build_names_unique(files: Seq<FileInput>, show: bool)
    ensures
        spec_names_unique(spec_build(files, show)),
    decreases files.len(),
{
    if files.len() > 0 {
        lemma_build_names_unique(files.drop_last(), show);
        let f = files.last();
        if spec_placed(f) {
            lemma_split_len(spec_normalize(f.path@), '/');
            lemma_insert_names_unique(
                spec_build(files.drop_last(), show),
                Seq::empty(),
                spec_segs(f),
                spec_leaf(f, show),
                show,
            );
        }
    }
}

/// Every implied ancestor of every placed file becomes a node of the
/// built forest: descending any initial run of the file's segment names
/// finds one.
pub proof fn lemma_build_ancestors(files: Seq<FileInput>, show: bool)
    requires
        spec_no_collisions(files),
    ensures
        forall|i: int, j: int|
            0 <= i < files.len() && spec_placed(files[i]) && 0 <= j <= spec_segs(files[i]).len()
                ==> spec_has_node(
                spec_build(files, show),
                #[trigger] spec_segs(files[i]).take(j),
            ),
    decreases files.len(),
{
    if files.len() > 0 {
        let rest = files.drop_last();
        let f = files.last();
        let prev = spec_build(rest, show);
        assert forall|i: int, j: int|
            0 <= i < rest.len() && 0 <= j < rest.len() && i != j && spec_placed(rest[i])
                && spec_placed(rest[j]) implies !spec_seg_prefix(
            spec_segs(#[trigger] rest[i]),
            spec_segs(#[trigger] rest[j]),
        ) by {
            assert(rest[i] == files[i] && rest[j] == files[j]);
        }
        lemma_build_ancestors(rest, show);
        if spec_placed(f) {
            lemma_split_len(spec_normalize(f.path@), '/');
            assert forall|i: int|
                0 <= i < rest.len() && spec_placed(#[trigger] rest[i]) implies !spec_seg_prefix(
                spec_segs(rest[i]),
                spec_segs(f),
            ) && !spec_seg_prefix(spec_segs(f), spec_segs(rest[i])) by {
                assert(rest[i] == files[i]);
                assert(f == files[files.len() - 1]);
            }
            lemma_build_fresh(rest, show, spec_segs(f));
            assert(spec_leaf(f, show).name == spec_segs(f).last());
            assert forall|i: int, j: int|
                0 <= i < files.len() && spec_placed(files[i]) && 0 <= j <= spec_segs(
                    files[i],
                ).len() implies spec_has_node(
                spec_build(files, show),
                #[trigger] spec_segs(files[i]).take(j),
            ) by {
                if i == files.len() - 1 {
                    assert(files[i] == f);
                    lemma_insert_has_prefixes(
                        prev,
                        Seq::empty(),
                        spec_segs(f),
                        spec_leaf(f, show),
                        show,
                        j,
                    );
                } else {
                    assert(rest[i] == files[i]);
                    assert(spec_has_node(prev, spec_segs(rest[i]).take(j)));
                    lemma_insert_keeps_nodes(
                        prev,
                        Seq::empty(),
                        spec_segs(f),
                        spec_leaf(f, show),
                        show,
                        spec_segs(files[i]).take(j),
                    );
                }
            }
        } else {
            assert forall|i: int, j: int|
                0 <= i < files.len() && spec_placed(files[i]) && 0 <= j <= spec_segs(
                    files[i],
                ).len() implies spec_has_node(
                spec_build(files, show),
                #[trigger] spec_segs(files[i]).take(j),
            ) by {
                assert(i < rest.len());
                assert(rest[i] == files[i]);
                assert(spec_has_node(prev, spec_segs(rest[i]).take(j)));
            }
        }
    }
}

/// With hiding on, the tree the pipeline yields holds no empty
/// directory: not among its roots and not anywhere below them.
pub proof fn lemma_processed_no_empty_dirs(files: Seq<FileInput>, show: bool)
    ensures
        forall|i: int|
            0 <= i < spec_process_forest(files, show, true).len()
                ==> crate::aggregate::spec_keep_child(
                #[trigger] spec_process_forest(files, show, true)[i],
            ) && crate::aggregate::spec_no_empty_subdirs(
                spec_process_forest(files, show, true)[i],
            ),
{
    crate::aggregate::lemma_hidden_empty_dirs_absent(spec_build(files, show), show);
    crate::order::lemma_order_forest_keeps_no_empty(
        spec_aggregate_roots(spec_build(files, show), show, true),
    );
}

/// The round trip: with no normalized-path collisions among the placed
/// files, the processed tree's leaf sizes sum to the size total, and,
/// when token counting is on and the counts fit, its leaf token counts
/// sum to the token total.
pub proof fn lemma_round_trip(files: Seq<FileInput>, show: bool, prune: bool)
    requires
        spec_no_collisions(files),
        show ==> spec_total_tokens(files) <= u32::MAX,
    ensures
        forest_leaf_size_sum(spec_process_forest(files, show, prune)) == spec_total_size(files),
        show ==> forest_leaf_token_sum(spec_process_forest(files, show, prune))
            == spec_total_tokens(files),
{
    lemma_build_sums(files, show);
    crate::aggregate::lemma_agg_forest_props(spec_build(files, show), show, prune);
    crate::order::lemma_order_forest_sums(
        spec_aggregate_roots(spec_build(files, show), show, prune),
    );
}

// ---------- the entry point ----------

/// Build the annotated tree for a batch of files: normalize paths, take
/// byte sizes and (when asked) token counts, grow the minimal directory
/// tree, aggregate it bottom-up, and order it for display.
pub fn process_files(
    files: &Vec<FileInput>,
    options: &ProcessingOptions,
    tokenizer: &Tokenizer,
) -> (r: Result<ProcessingResult, ProcessError>)
    ensures
        r is Ok == (spec_bounds_ok(files@, options.show_token_count) && (
        options.show_token_count ==> spec_all_tokens_ok(files@))),
        r matches Ok(pr) ==> {
            &&& pr.total_size as int == spec_total_size(files@)
            &&& pr.total_files as int == spec_placed_count(files@)
            &&& (options.show_token_count ==> pr.total_tokens as int == spec_total_tokens(files@))
            &&& (!options.show_token_count ==> pr.total_tokens == 0)
            &&& pr.skipped_paths.deep_view() == spec_skipped_paths(files@)
            &&& forest_view(pr.file_tree@) == spec_process_forest(
                files@,
                options.show_token_count,
                options.hide_empty_folders,
            )
        },
        r matches Err(e) ==> (e is Overflow ==> !spec_bounds_ok(
            files@,
            options.show_token_count,
        )),
        r matches Err(e) ==> (e is Tokenizer ==> options.show_token_count && !spec_all_tokens_ok(
            files@,
        )),
{
    let show = options.show_token_count;
    let mut forest: Vec<FileNode> = Vec::new();
    let mut skipped: Vec<String> = Vec::new();
    let mut total_size: u64 = 0;
    let mut total_tokens: u32 = 0;
    let mut total_files: u32 = 0;
    let mut i: usize = 0;
    proof {
        assert(files@.take(0) =~= Seq::<FileInput>::empty());
        assert(forest_view(forest@) =~= Seq::<NodeView>::empty());
        assert(skipped.deep_view() =~= Seq::<Seq<char>>::empty());
    }
    while i < files.len()
        invariant
            show == options.show_token_count,
            i <= files@.len(),
            forest_view(forest@) == spec_build(files@.take(i as int), show),
            total_size as int == spec_total_size(files@.take(i as int)),
            total_files as int == spec_placed_count(files@.take(i as int)),
            show ==> total_tokens as int == spec_total_tokens(files@.take(i as int)),
            !show ==> total_tokens == 0,
            forest_leaf_size_sum(forest_view(forest@)) <= total_size as int,
            show ==> forest_leaf_token_sum(forest_view(forest@)) <= total_tokens as int,
            skipped.deep_view() == spec_skipped_paths(files@.take(i as int)),
            show ==> forall|j: int|
                0 <= j < i && spec_placed(#[trigger] files@[j]) ==> token_count_ok(
                    files@[j].content@,
                ),
        decreases files@.len() - i,
    {
        proof {
            assert(files@.take(i + 1).drop_last() =~= files@.take(i as int));
            assert(files@.take(i + 1).last() == files@[i as int]);
        }
        let raw = files[i].path.as_str();
        let norm = normalize_path(raw);
        if norm.as_str().unicode_len() == 0 {
            let ghost sk0 = skipped.deep_view();
            skipped.push(files[i].path.clone());
            proof {
                assert(!spec_placed(files@[i as int]));
                assert(skipped.deep_view() =~= sk0.push(files@[i as int].path@));
                assert(sk0.push(files@[i as int].path@) =~= sk0 + seq![files@[i as int].path@]);
            }
        } else {
            proof {
                assert(spec_placed(files@[i as int]));
            }
            let csize: usize = files[i].content.as_str().len();
            proof {
                assert(csize as int == spec_byte_len(files@[i as int].content@));
            }
            let tok: usize = if show {
                match tokenizer.token_count(files[i].content.as_str()) {
                    Some(c) => c,
                    None => {
                        proof {
                            assert(!token_count_ok(files@[i as int].content@));
                            assert(!spec_all_tokens_ok(files@));
                        }
                        return Err(ProcessError::Tokenizer);
                    },
                }
            } else {
                0
            };
            proof {
                if show {
                    assert(tok as int == token_count_of(files@[i as int].content@) as int);
                }
            }
            // the byte total
            if csize as u64 > u64::MAX - total_size {
                proof {
                    lemma_totals_prefix_le(files@, i + 1);
                }
                return Err(ProcessError::Overflow);
            }
            total_size = total_size + (csize as u64);
            // the token total
            if show {
                if tok as u64 > (u32::MAX as u64) - (total_tokens as u64) {
                    proof {
                        lemma_totals_prefix_le(files@, i + 1);
                    }
                    return Err(ProcessError::Overflow);
                }
                total_tokens = total_tokens + (tok as u32);
            }
            // the file count
            if total_files == u32::MAX {
                proof {
                    lemma_totals_prefix_le(files@, i + 1);
                }
                return Err(ProcessError::Overflow);
            }
            total_files = total_files + 1;
            // place the leaf
            let segs = str_split(norm.as_str(), '/');
            proof {
                lemma_split_len(norm@, '/');
            }
            let lastidx = segs.len() - 1;
            let leafname = segs[lastidx].clone();
            let ghost normview = norm@;
            let leaf = FileNode {
                path: norm,
                name: leafname,
                is_dir: false,
                token_count: if show {
                    Some(tok as u32)
                } else {
                    None
                },
                children: Vec::new(),
                size: Some(csize as u64),
            };
            proof {
                assert(leaf@.children =~= Seq::<NodeView>::empty());
                assert(segs.deep_view()[lastidx as int] == spec_split(normview, '/').last());
                assert(leaf@ =~= spec_leaf(files@[i as int], show));
            }
            let ghost fv0 = forest_view(forest@);
            forest = insert_node(forest, "", &segs, 0, leaf, show);
            proof {
                reveal_strlit("");
                assert(""@ =~= Seq::<char>::empty());
                assert(segs.deep_view().skip(0) =~= segs.deep_view());
                assert(forest_view(forest@) == spec_insert(
                    fv0,
                    Seq::empty(),
                    spec_split(normview, '/'),
                    spec_leaf(files@[i as int], show),
                    show,
                ));
                lemma_insert_sums_le(
                    fv0,
                    Seq::empty(),
                    spec_split(normview, '/'),
                    spec_leaf(files@[i as int], show),
                    show,
                );
                assert(leaf_size_sum(spec_leaf(files@[i as int], show)) == csize as int);
                if show {
                    assert(leaf_token_sum(spec_leaf(files@[i as int], show)) == tok as int);
                }
                assert(skipped.deep_view() + Seq::<Seq<char>>::empty() =~= skipped.deep_view());
            }
        }
        i = i + 1;
    }
    proof {
        assert(files@.take(files@.len() as int) =~= files@);
    }
    let tree0 = aggregate(forest, options);
    let tree = order(tree0);
    Ok(
        ProcessingResult {
            file_tree: tree,
            total_tokens,
            total_files,
            total_size,
            skipped_paths: skipped,
        },
    )
}

} // verus!
