use vstd::prelude::*;

use crate::node::{
    forest_leaf_size_sum, forest_leaf_token_sum, forest_view, leaf_size_sum, leaf_token_sum,
    lemma_forest_sum_push, lemma_forest_sum_split, lemma_forest_sums_nonneg, lemma_sums_nonneg,
    node_size_val, node_token_val, node_view, FileNode, NodeView,
};

verus! {

/// The switches of tree processing.
pub struct ProcessingOptions {
    pub hide_empty_folders: bool,
    pub show_token_count: bool,
}

impl Default for ProcessingOptions {
    /// Empty folders hidden and token counts shown.
    fn default() -> (r: Self)
        ensures
            r.hide_empty_folders == true,
            r.show_token_count == true,
    {
        ProcessingOptions { hide_empty_folders: true, show_token_count: true }
    }
}

// ---------- pruning ----------

/// A child survives pruning when it is a file or a non-empty directory.
pub open spec fn spec_keep_child(c: NodeView) -> bool {
    !c.is_dir || c.children.len() > 0
}

/// The children that survive pruning, in order.
pub open spec fn spec_prune(s: Seq<NodeView>) -> Seq<NodeView>
    decreases s.len(),
{
    if s.len() == 0 {
        s
    } else {
        (if spec_keep_child(s[0]) {
            seq![s[0]]
        } else {
            Seq::empty()
        }) + spec_prune(s.drop_first())
    }
}

proof fn lemma_prune_all_kept(s: Seq<NodeView>)
    requires
        forall|j: int| 0 <= j < s.len() ==> spec_keep_child(#[trigger] s[j]),
    ensures
        spec_prune(s) == s,
    decreases s.len(),
{
    if s.len() > 0 {
        lemma_prune_all_kept(s.drop_first());
        assert(seq![s[0]] + s.drop_first() =~= s);
    }
}

// ---------- sums of the stored fields over a forest ----------

pub open spec fn forest_size_field_sum(s: Seq<NodeView>) -> int
    decreases s.len(),
{
    if s.len() == 0 {
        0
    } else {
        node_size_val(s[0]) + forest_size_field_sum(s.drop_first())
    }
}

pub open spec fn forest_token_field_sum(s: Seq<NodeView>) -> int
    decreases s.len(),
{
    if s.len() == 0 {
        0
    } else {
        node_token_val(s[0]) + forest_token_field_sum(s.drop_first())
    }
}

proof fn lemma_field_sum_push(s: Seq<NodeView>, x: NodeView)
    ensures
        forest_size_field_sum(s.push(x)) == forest_size_field_sum(s) + node_size_val(x),
        forest_token_field_sum(s.push(x)) == forest_token_field_sum(s) + node_token_val(x),
    decreases s.len(),
{
    if s.len() == 0 {
        assert(s.push(x)[0] == x);
        assert(s.push(x).drop_first() =~= Seq::<NodeView>::empty());
        assert(forest_size_field_sum(s.push(x)) == node_size_val(x) + forest_size_field_sum(
            Seq::<NodeView>::empty(),
        ));
        assert(forest_token_field_sum(s.push(x)) == node_token_val(x) + forest_token_field_sum(
            Seq::<NodeView>::empty(),
        ));
    } else {
        lemma_field_sum_push(s.drop_first(), x);
        assert(s.push(x).drop_first() =~= s.drop_first().push(x));
        assert(s.push(x)[0] == s[0]);
        assert(forest_size_field_sum(s.push(x)) == node_size_val(s[0]) + forest_size_field_sum(
            s.drop_first().push(x),
        ));
        assert(forest_token_field_sum(s.push(x)) == node_token_val(s[0]) + forest_token_field_sum(
            s.drop_first().push(x),
        ));
    }
}

// ---------- the aggregation fold ----------

/// One post-order aggregation step: a file is returned unchanged; a
/// directory aggregates its children, prunes empty subdirectories when
/// asked to, and then takes its own size and token totals from the
/// surviving children.
pub open spec fn spec_agg_node(n: NodeView, show: bool, prune: bool) -> NodeView
    decreases n,
{
    if !n.is_dir {
        n
    } else {
        let cs0 = spec_agg_forest(n.children, show, prune);
        let cs = if prune {
            spec_prune(cs0)
        } else {
            cs0
        };
        NodeView {
            children: cs,
            size: Some(forest_size_field_sum(cs) as u64),
            token_count: if show {
                Some(forest_token_field_sum(cs) as u32)
            } else {
                None
            },
            ..n
        }
    }
}

pub open spec fn spec_agg_forest(s: Seq<NodeView>, show: bool, prune: bool) -> Seq<NodeView>
    decreases s,
{
    Seq::new(
        s.len(),
        |i: int|
            if 0 <= i < s.len() {
                spec_agg_node(s[i], show, prune)
            } else {
                s[i]
            },
    )
}

/// Aggregation over the roots: each root aggregated, and empty root
/// directories dropped when pruning is asked for.
pub open spec fn spec_aggregate_roots(s: Seq<NodeView>, show: bool, prune: bool) -> Seq<NodeView> {
    let cs0 = spec_agg_forest(s, show, prune);
    if prune {
        spec_prune(cs0)
    } else {
        cs0
    }
}

// ---------- well-pruned trees ----------

/// Below a directory no empty directory survives.
pub open spec fn spec_no_empty_subdirs(n: NodeView) -> bool
    decreases n,
{
    if n.is_dir {
        forall|j: int|
            0 <= j < n.children.len() ==> spec_keep_child(#[trigger] n.children[j])
                && spec_no_empty_subdirs(n.children[j])
    } else {
        true
    }
}

/// Same tree shape: equal paths, names and kinds, with matching children.
pub open spec fn spec_same_shape(a: NodeView, b: NodeView) -> bool
    decreases a,
{
    a.path == b.path && a.name == b.name && a.is_dir == b.is_dir && a.children.len()
        == b.children.len() && (forall|j: int|
        0 <= j < a.children.len() ==> spec_same_shape(
            #[trigger] a.children[j],
            b.children[j],
        ))
}

proof fn lemma_same_shape_refl(n: NodeView)
    ensures
        spec_same_shape(n, n),
    decreases n,
{
    assert forall|j: int| 0 <= j < n.children.len() implies spec_same_shape(
        #[trigger] n.children[j],
        n.children[j],
    ) by {
        lemma_same_shape_refl(n.children[j]);
    }
}

// ---------- what aggregation establishes ----------

pub proof fn lemma_agg_props(n: NodeView, show: bool, prune: bool)
    ensures
        spec_agg_node(n, show, prune).path == n.path,
        spec_agg_node(n, show, prune).name == n.name,
        spec_agg_node(n, show, prune).is_dir == n.is_dir,
        !n.is_dir ==> spec_agg_node(n, show, prune) == n,
        leaf_size_sum(spec_agg_node(n, show, prune)) == leaf_size_sum(n),
        leaf_token_sum(spec_agg_node(n, show, prune)) == leaf_token_sum(n),
        leaf_size_sum(n) <= u64::MAX ==> node_size_val(spec_agg_node(n, show, prune))
            == leaf_size_sum(n),
        show && leaf_token_sum(n) <= u32::MAX ==> node_token_val(spec_agg_node(n, show, prune))
            == leaf_token_sum(n),
        n.is_dir && !show ==> spec_agg_node(n, show, prune).token_count is None,
        prune ==> spec_no_empty_subdirs(spec_agg_node(n, show, prune)),
        !prune ==> spec_same_shape(n, spec_agg_node(n, show, prune)),
    decreases n,
{
    if !n.is_dir {
        lemma_same_shape_refl(n);
    } else {
        lemma_agg_forest_props(n.children, show, prune);
        let m = spec_agg_node(n, show, prune);
        let cs0 = spec_agg_forest(n.children, show, prune);
        let cs = if prune {
            spec_prune(cs0)
        } else {
            cs0
        };
        lemma_sums_nonneg(n);
        lemma_forest_sums_nonneg(cs);
        assert(leaf_size_sum(m) == forest_leaf_size_sum(cs));
        assert(leaf_token_sum(m) == forest_leaf_token_sum(cs));
        if leaf_size_sum(n) <= u64::MAX {
            assert(node_size_val(m) == forest_size_field_sum(cs) as u64 as int);
            assert(forest_size_field_sum(cs) == forest_leaf_size_sum(n.children));
        }
        if show && leaf_token_sum(n) <= u32::MAX {
            assert(forest_token_field_sum(cs) == forest_leaf_token_sum(n.children));
        }
        if prune {
            assert forall|j: int| 0 <= j < m.children.len() implies spec_keep_child(
                #[trigger] m.children[j],
            ) && spec_no_empty_subdirs(m.children[j]) by {
                lemma_prune_member(cs0, j);
            }
        }
        if !prune {
            assert forall|j: int| 0 <= j < n.children.len() implies spec_same_shape(
                #[trigger] n.children[j],
                m.children[j],
            ) by {
                assert(m.children[j] == spec_agg_node(n.children[j], show, prune));
                lemma_agg_props(n.children[j], show, prune);
            }
            assert(m.children.len() == n.children.len());
            assert(spec_same_shape(n, m));
        }
    }
}

/// Every survivor of pruning was kept by the predicate and keeps its
/// place among the survivors.
proof fn lemma_prune_member(s: Seq<NodeView>, j: int)
    requires
        0 <= j < spec_prune(s).len(),
        forall|k: int|
            0 <= k < s.len() ==> spec_no_empty_subdirs(#[trigger] s[k]),
    ensures
        spec_keep_child(spec_prune(s)[j]),
        spec_no_empty_subdirs(spec_prune(s)[j]),
    decreases s.len(),
{
    if s.len() > 0 {
        if spec_keep_child(s[0]) {
            if j == 0 {
                assert(spec_prune(s)[0] == s[0]);
            } else {
                assert(spec_prune(s)[j] == spec_prune(s.drop_first())[j - 1]);
                lemma_prune_member(s.drop_first(), j - 1);
            }
        } else {
            assert(spec_prune(s)[j] == spec_prune(s.drop_first())[j]);
            lemma_prune_member(s.drop_first(), j);
        }
    }
}

pub proof fn lemma_agg_forest_props(s: Seq<NodeView>, show: bool, prune: bool)
    ensures
        forest_leaf_size_sum(spec_agg_forest(s, show, prune)) == forest_leaf_size_sum(s),
        forest_leaf_token_sum(spec_agg_forest(s, show, prune)) == forest_leaf_token_sum(s),
        forest_leaf_size_sum(spec_prune(spec_agg_forest(s, show, prune)))
            == forest_leaf_size_sum(s),
        forest_leaf_token_sum(spec_prune(spec_agg_forest(s, show, prune)))
            == forest_leaf_token_sum(s),
        forest_leaf_size_sum(s) <= u64::MAX ==> forest_size_field_sum(
            spec_agg_forest(s, show, prune),
        ) == forest_leaf_size_sum(s) && forest_size_field_sum(
            spec_prune(spec_agg_forest(s, show, prune)),
        ) == forest_leaf_size_sum(s),
        show && forest_leaf_token_sum(s) <= u32::MAX ==> forest_token_field_sum(
            spec_agg_forest(s, show, prune),
        ) == forest_leaf_token_sum(s) && forest_token_field_sum(
            spec_prune(spec_agg_forest(s, show, prune)),
        ) == forest_leaf_token_sum(s),
        forall|k: int|
            0 <= k < spec_agg_forest(s, show, prune).len() && prune ==> spec_no_empty_subdirs(
                #[trigger] spec_agg_forest(s, show, prune)[k],
            ),
    decreases s,
{
    let ms = spec_agg_forest(s, show, prune);
    if s.len() == 0 {
        assert(ms =~= Seq::<NodeView>::empty());
    } else {
        lemma_agg_props(s[0], show, prune);
        lemma_agg_forest_props(s.drop_first(), show, prune);
        let mrest = spec_agg_forest(s.drop_first(), show, prune);
        assert(ms.drop_first() =~= mrest);
        assert(ms[0] == spec_agg_node(s[0], show, prune));
        lemma_sums_nonneg(s[0]);
        lemma_forest_sums_nonneg(s.drop_first());
        // leaf sums over the aggregated forest
        assert(forest_leaf_size_sum(ms) == leaf_size_sum(ms[0]) + forest_leaf_size_sum(mrest));
        assert(forest_leaf_token_sum(ms) == leaf_token_sum(ms[0]) + forest_leaf_token_sum(mrest));
        // leaf sums over the pruned forest
        let m0 = ms[0];
        if spec_keep_child(m0) {
            assert(spec_prune(ms) =~= seq![m0] + spec_prune(mrest));
            lemma_sum_cons(m0, spec_prune(mrest));
        } else {
            // a dropped child is an aggregated directory with no
            // children left, so all of its sums are zero
            assert(spec_prune(ms) =~= Seq::<NodeView>::empty() + spec_prune(mrest));
            assert(spec_prune(ms) =~= spec_prune(mrest));
            assert(m0.is_dir && m0.children.len() == 0);
            assert(leaf_size_sum(m0) == forest_leaf_size_sum(m0.children));
            assert(m0.children =~= Seq::<NodeView>::empty());
            assert(leaf_size_sum(m0) == 0);
            assert(leaf_token_sum(m0) == 0);
        }
        if forest_leaf_size_sum(s) <= u64::MAX {
            assert(leaf_size_sum(s[0]) <= u64::MAX && forest_leaf_size_sum(s.drop_first())
                <= u64::MAX);
        }
        if show && forest_leaf_token_sum(s) <= u32::MAX {
            assert(leaf_token_sum(s[0]) <= u32::MAX && forest_leaf_token_sum(s.drop_first())
                <= u32::MAX);
        }
        if prune {
            assert forall|k: int| 0 <= k < ms.len() implies spec_no_empty_subdirs(ms[k]) by {
                if k > 0 {
                    assert(ms[k] == mrest[k - 1]);
                }
            }
        }
    }
}

/// A member's leaf sums are bounded by the forest's.
pub proof fn lemma_forest_member_le(s: Seq<NodeView>, k: int)
    requires
        0 <= k < s.len(),
    ensures
        leaf_size_sum(s[k]) <= forest_leaf_size_sum(s),
        leaf_token_sum(s[k]) <= forest_leaf_token_sum(s),
        0 <= leaf_size_sum(s[k]),
        0 <= leaf_token_sum(s[k]),
{
    lemma_forest_sum_split(s, k);
    assert(s.skip(k)[0] == s[k]);
    assert(s.skip(k).drop_first() =~= s.skip(k + 1));
    lemma_forest_sums_nonneg(s.take(k));
    lemma_forest_sums_nonneg(s.skip(k + 1));
    lemma_sums_nonneg(s[k]);
}

// ---------- runtime aggregation ----------

fn agg_node(n: FileNode, show: bool, prune: bool) -> (r: FileNode)
    requires
        leaf_size_sum(n@) <= u64::MAX,
        show ==> leaf_token_sum(n@) <= u32::MAX,
    ensures
        r@ == spec_agg_node(n@, show, prune),
    decreases n,
{
    if !n.is_dir {
        return n;
    }
    let ghost n0 = n;
    let FileNode { path, name, is_dir, token_count: _, children, size: _ } = n;
    let ghost cv = n0@.children;
    let mut rest: Vec<FileNode> = children;
    let ghost orig: Seq<FileNode> = rest@;
    let mut done: Vec<FileNode> = Vec::new();
    while rest.len() > 0
        invariant
            n == n0,
            n0.is_dir,
            orig == n0.children@,
            cv == n0@.children,
            leaf_size_sum(n0@) <= u64::MAX,
            show ==> leaf_token_sum(n0@) <= u32::MAX,
            done@.len() + rest@.len() == orig.len(),
            rest@ == orig.skip(done@.len() as int),
            forall|j: int|
                0 <= j < done@.len() ==> #[trigger] done@[j]@ == spec_agg_node(cv[j], show, prune),
        decreases rest@.len(),
    {
        let ghost k = done@.len() as int;
        let c = rest.remove(0);
        proof {
            broadcast use vstd::std_specs::vec::group_vec_axioms;

            assert(c == orig[k]);
            assert(decreases_to!(n0 => n0.children));
            assert(decreases_to!(n0.children => n0.children@));
            assert(decreases_to!(n0.children@ => n0.children@[k]));
            assert(decreases_to!(n0 => c));
            assert(rest@ =~= orig.skip(k + 1));
            assert(cv[k] == c@);
            assert(leaf_size_sum(n0@) == forest_leaf_size_sum(cv));
            if show {
                assert(leaf_token_sum(n0@) == forest_leaf_token_sum(cv));
            }
            lemma_forest_member_le(cv, k);
        }
        let c2 = agg_node(c, show, prune);
        done.push(c2);
    }
    let ghost cs0 = spec_agg_forest(cv, show, prune);
    proof {
        assert(forall|j: int| 0 <= j < cv.len() ==> #[trigger] done@[j]@ == cs0[j]);
    }
    let mut all = done;
    let ghost allorig = all@;
    let mut kept: Vec<FileNode> = Vec::new();
    let mut sz: u64 = 0;
    let mut tk: u32 = 0;
    let ghost mut kvs: Seq<NodeView> = Seq::empty();
    proof {
        assert(cs0.skip(0) =~= cs0);
        if prune {
            assert(kvs + spec_prune(cs0) =~= spec_prune(cs0));
        } else {
            assert(kvs + cs0 =~= cs0);
        }
        assert(cv.take(0) =~= Seq::<NodeView>::empty());
    }
    while all.len() > 0
        invariant
            n == n0,
            n0.is_dir,
            cv == n0@.children,
            leaf_size_sum(n0@) <= u64::MAX,
            show ==> leaf_token_sum(n0@) <= u32::MAX,
            cs0 == spec_agg_forest(cv, show, prune),
            allorig.len() == cv.len(),
            forall|j: int| 0 <= j < cv.len() ==> #[trigger] allorig[j]@ == cs0[j],
            all@.len() <= allorig.len(),
            all@ == allorig.skip(allorig.len() - all@.len()),
            kvs.len() == kept@.len(),
            forall|j: int| 0 <= j < kvs.len() ==> #[trigger] kept@[j]@ == kvs[j],
            prune ==> spec_prune(cs0) == kvs + spec_prune(
                cs0.skip(allorig.len() - all@.len()),
            ),
            !prune ==> cs0 == kvs + cs0.skip(allorig.len() - all@.len()),
            sz as int == forest_size_field_sum(kvs),
            sz as int == forest_leaf_size_sum(cv.take(allorig.len() - all@.len())),
            show ==> tk as int == forest_token_field_sum(kvs),
            show ==> tk as int == forest_leaf_token_sum(cv.take(allorig.len() - all@.len())),
            !show ==> tk == 0,
        decreases all@.len(),
    {
        let ghost jj = allorig.len() - all@.len();
        let c = all.remove(0);
        proof {
            assert(c == allorig[jj]);
            assert(c@ == cs0[jj]);
            assert(all@ =~= allorig.skip(jj + 1));
            assert(cs0[jj] == spec_agg_node(cv[jj], show, prune));
            lemma_forest_member_le(cv, jj);
            assert(leaf_size_sum(n0@) == forest_leaf_size_sum(cv));
            if show {
                assert(leaf_token_sum(n0@) == forest_leaf_token_sum(cv));
            }
            lemma_agg_props(cv[jj], show, prune);
            assert(node_size_val(c@) == leaf_size_sum(cv[jj]));
            if show {
                assert(node_token_val(c@) == leaf_token_sum(cv[jj]));
            }
            assert(cv.take(jj + 1).drop_last() =~= cv.take(jj));
            assert(cv.take(jj + 1).last() == cv[jj]);
            lemma_forest_sum_push(cv.take(jj), cv[jj]);
            assert(cv.take(jj + 1) =~= cv.take(jj).push(cv[jj]));
            lemma_forest_sum_split(cv, jj + 1);
            lemma_forest_sums_nonneg(cv.skip(jj + 1));
            lemma_forest_sums_nonneg(cv.take(jj));
            assert(cs0.skip(jj)[0] == cs0[jj]);
            assert(cs0.skip(jj).drop_first() =~= cs0.skip(jj + 1));
        }
        let drop_it = prune && c.is_dir && c.children.len() == 0;
        if !drop_it {
            let v: u64 = match c.size {
                Some(s) => s,
                None => 0,
            };
            proof {
                assert(v as int == node_size_val(c@));
                assert(sz as int + v as int == forest_leaf_size_sum(cv.take(jj + 1)));
                assert(forest_leaf_size_sum(cv.take(jj + 1)) <= forest_leaf_size_sum(cv));
            }
            sz = sz + v;
            if show {
                let tv: u32 = match c.token_count {
                    Some(t) => t,
                    None => 0,
                };
                proof {
                    assert(tv as int == node_token_val(c@));
                    assert(tk as int + tv as int == forest_leaf_token_sum(cv.take(jj + 1)));
                    assert(forest_leaf_token_sum(cv.take(jj + 1)) <= forest_leaf_token_sum(cv));
                }
                tk = tk + tv;
            }
            proof {
                let ghost kvs0 = kvs;
                kvs = kvs.push(cs0[jj]);
                lemma_field_sum_push(kvs0, cs0[jj]);
                if prune {
                    assert(spec_keep_child(cs0[jj]));
                    assert(spec_prune(cs0.skip(jj)) == seq![cs0[jj]] + spec_prune(
                        cs0.skip(jj + 1),
                    ));
                    assert(kvs0 + (seq![cs0[jj]] + spec_prune(cs0.skip(jj + 1))) =~= kvs0.push(
                        cs0[jj],
                    ) + spec_prune(cs0.skip(jj + 1)));
                } else {
                    assert(kvs0 + cs0.skip(jj) =~= kvs0.push(cs0[jj]) + cs0.skip(jj + 1));
                }
                if !show {
                    assert(forest_leaf_token_sum(cv.take(jj)) == forest_leaf_token_sum(
                        cv.take(jj),
                    ));
                }
            }
            kept.push(c);
        } else {
            proof {
                // the dropped child is an aggregated directory with no
                // children, so every sum it carries is zero
                assert(c@.children =~= Seq::<NodeView>::empty());
                assert(leaf_size_sum(cs0[jj]) == 0);
                assert(node_size_val(c@) == 0);
                assert(leaf_size_sum(cv[jj]) == 0);
                if show {
                    assert(leaf_token_sum(cv[jj]) == 0);
                }
                assert(!spec_keep_child(cs0[jj]));
                assert(spec_prune(cs0.skip(jj)) == Seq::<NodeView>::empty() + spec_prune(
                    cs0.skip(jj + 1),
                ));
                assert(Seq::<NodeView>::empty() + spec_prune(cs0.skip(jj + 1)) =~= spec_prune(
                    cs0.skip(jj + 1),
                ));
            }
        }
    }
    proof {
        assert(cs0.skip(allorig.len() as int) =~= Seq::<NodeView>::empty());
        if prune {
            assert(kvs + spec_prune(Seq::<NodeView>::empty()) =~= kvs);
        } else {
            assert(kvs + Seq::<NodeView>::empty() =~= kvs);
        }
        assert(cv.take(cv.len() as int) =~= cv);
    }
    let r = FileNode {
        path,
        name,
        is_dir,
        token_count: if show {
            Some(tk)
        } else {
            None
        },
        children: kept,
        size: Some(sz),
    };
    proof {
        let m = spec_agg_node(n0@, show, prune);
        let cs = if prune {
            spec_prune(cs0)
        } else {
            cs0
        };
        assert(kvs == cs);
        assert forall|i: int| 0 <= i < kvs.len() implies r@.children[i] == kvs[i] by {
            assert(r@.children[i] == node_view(r.children@[i]));
            assert(kept@[i]@ == kvs[i]);
        }
        assert(r@.children =~= kvs);
        lemma_agg_forest_props(cv, show, prune);
        lemma_forest_sums_nonneg(cv);
        assert(r@.size == m.size);
        assert(r@.token_count == m.token_count);
        assert(r@ =~= m);
    }
    r
}

/// Aggregate each root bottom-up and, when hiding is on, drop root
/// directories that come out empty.
pub fn aggregate(nodes: Vec<FileNode>, options: &ProcessingOptions) -> (r: Vec<FileNode>)
    requires
        forest_leaf_size_sum(forest_view(nodes@)) <= u64::MAX,
        options.show_token_count ==> forest_leaf_token_sum(forest_view(nodes@)) <= u32::MAX,
    ensures
        forest_view(r@) == spec_aggregate_roots(
            forest_view(nodes@),
            options.show_token_count,
            options.hide_empty_folders,
        ),
{
    let holder = FileNode {
        path: String::new(),
        name: String::new(),
        is_dir: true,
        token_count: None,
        children: nodes,
        size: None,
    };
    proof {
        assert(holder@.children =~= forest_view(holder.children@));
        assert(leaf_size_sum(holder@) == forest_leaf_size_sum(holder@.children));
    }
    let folded = agg_node(holder, options.show_token_count, options.hide_empty_folders);
    let r = folded.children;
    proof {
        assert(forest_view(r@) =~= folded@.children);
    }
    r
}

/// Re-run the aggregation fold over an existing tree without pruning or
/// re-tokenizing: a leaf's stored values are ground truth and directory
/// totals are recomputed from them; with token counting off, directory
/// token counts become absent.
pub fn recalculate_counts(tree: Vec<FileNode>, options: &ProcessingOptions) -> (r: Vec<FileNode>)
    requires
        forest_leaf_size_sum(forest_view(tree@)) <= u64::MAX,
        options.show_token_count ==> forest_leaf_token_sum(forest_view(tree@)) <= u32::MAX,
    ensures
        forest_view(r@) == spec_agg_forest(forest_view(tree@), options.show_token_count, false),
{
    let holder = FileNode {
        path: String::new(),
        name: String::new(),
        is_dir: true,
        token_count: None,
        children: tree,
        size: None,
    };
    proof {
        assert(holder@.children =~= forest_view(holder.children@));
        assert(leaf_size_sum(holder@) == forest_leaf_size_sum(holder@.children));
    }
    let folded = agg_node(holder, options.show_token_count, false);
    let r = folded.children;
    proof {
        assert(forest_view(r@) =~= folded@.children);
    }
    r
}

// ---------- laws ----------

proof fn lemma_prune_kept(s: Seq<NodeView>, j: int)
    requires
        0 <= j < spec_prune(s).len(),
    ensures
        spec_keep_child(spec_prune(s)[j]),
        exists|k: int| 0 <= k < s.len() && spec_prune(s)[j] == #[trigger] s[k],
    decreases s.len(),
{
    if s.len() > 0 {
        if spec_keep_child(s[0]) {
            if j == 0 {
                assert(spec_prune(s)[0] == s[0]);
            } else {
                assert(spec_prune(s)[j] == spec_prune(s.drop_first())[j - 1]);
                lemma_prune_kept(s.drop_first(), j - 1);
                let k = choose|k: int|
                    0 <= k < s.drop_first().len() && spec_prune(s.drop_first())[j - 1]
                        == #[trigger] s.drop_first()[k];
                assert(spec_prune(s)[j] == s[k + 1]);
            }
        } else {
            assert(spec_prune(s)[j] == spec_prune(s.drop_first())[j]);
            lemma_prune_kept(s.drop_first(), j);
            let k = choose|k: int|
                0 <= k < s.drop_first().len() && spec_prune(s.drop_first())[j]
                    == #[trigger] s.drop_first()[k];
            assert(spec_prune(s)[j] == s[k + 1]);
        }
    }
}

/// Aggregating an already aggregated subtree reproduces it exactly.
pub proof fn lemma_agg_idempotent(n: NodeView, show: bool, prune: bool)
    ensures
        spec_agg_node(spec_agg_node(n, show, prune), show, prune) == spec_agg_node(n, show, prune),
    decreases n,
{
    if n.is_dir {
        let m = spec_agg_node(n, show, prune);
        let cs0 = spec_agg_forest(n.children, show, prune);
        let cs = if prune {
            spec_prune(cs0)
        } else {
            cs0
        };
        assert forall|j: int| 0 <= j < cs.len() implies spec_agg_node(#[trigger] cs[j], show, prune)
            == cs[j] by {
            if prune {
                lemma_prune_kept(cs0, j);
                let k = choose|k: int| 0 <= k < cs0.len() && cs[j] == #[trigger] cs0[k];
                assert(cs0[k] == spec_agg_node(n.children[k], show, prune));
                lemma_agg_idempotent(n.children[k], show, prune);
            } else {
                assert(cs[j] == spec_agg_node(n.children[j], show, prune));
                lemma_agg_idempotent(n.children[j], show, prune);
            }
        }
        assert(spec_agg_forest(cs, show, prune) =~= cs);
        if prune {
            assert forall|j: int| 0 <= j < cs.len() implies spec_keep_child(#[trigger] cs[j]) by {
                lemma_prune_kept(cs0, j);
            }
            lemma_prune_all_kept(cs);
        }
        assert(spec_agg_node(m, show, prune) =~= m);
    }
}

/// Aggregating the whole forest twice yields the same roots, sizes and
/// token counts as aggregating it once.
pub proof fn lemma_aggregate_roots_idempotent(s: Seq<NodeView>, show: bool, prune: bool)
    ensures
        spec_aggregate_roots(spec_aggregate_roots(s, show, prune), show, prune)
            == spec_aggregate_roots(s, show, prune),
{
    let cs0 = spec_agg_forest(s, show, prune);
    let ms = spec_aggregate_roots(s, show, prune);
    assert forall|j: int| 0 <= j < ms.len() implies spec_agg_node(#[trigger] ms[j], show, prune)
        == ms[j] by {
        if prune {
            lemma_prune_kept(cs0, j);
            let k = choose|k: int| 0 <= k < cs0.len() && ms[j] == #[trigger] cs0[k];
            assert(cs0[k] == spec_agg_node(s[k], show, prune));
            lemma_agg_idempotent(s[k], show, prune);
        } else {
            assert(ms[j] == spec_agg_node(s[j], show, prune));
            lemma_agg_idempotent(s[j], show, prune);
        }
    }
    assert(spec_agg_forest(ms, show, prune) =~= ms);
    if prune {
        assert forall|j: int| 0 <= j < ms.len() implies spec_keep_child(#[trigger] ms[j]) by {
            lemma_prune_kept(cs0, j);
        }
        lemma_prune_all_kept(ms);
    }
}

/// With hiding on, no empty directory survives aggregation, at the roots
/// or anywhere below them.
pub proof fn lemma_hidden_empty_dirs_absent(s: Seq<NodeView>, show: bool)
    ensures
        forall|i: int|
            0 <= i < spec_aggregate_roots(s, show, true).len() ==> spec_keep_child(
                #[trigger] spec_aggregate_roots(s, show, true)[i],
            ) && spec_no_empty_subdirs(spec_aggregate_roots(s, show, true)[i]),
{
    let cs0 = spec_agg_forest(s, show, true);
    lemma_agg_forest_props(s, show, true);
    assert forall|i: int| 0 <= i < spec_aggregate_roots(s, show, true).len() implies spec_keep_child(
        #[trigger] spec_aggregate_roots(s, show, true)[i],
    ) && spec_no_empty_subdirs(spec_aggregate_roots(s, show, true)[i]) by {
        lemma_prune_member(cs0, i);
    }
}

/// With hiding off, aggregation keeps the tree's shape: as many roots as
/// before, each with the same paths, names and kinds throughout.
pub proof fn lemma_unhidden_keeps_shape(s: Seq<NodeView>, show: bool)
    ensures
        spec_aggregate_roots(s, show, false).len() == s.len(),
        forall|i: int|
            0 <= i < s.len() ==> spec_same_shape(
                #[trigger] s[i],
                spec_aggregate_roots(s, show, false)[i],
            ),
{
    assert forall|i: int| 0 <= i < s.len() implies spec_same_shape(
        #[trigger] s[i],
        spec_aggregate_roots(s, show, false)[i],
    ) by {
        assert(spec_aggregate_roots(s, show, false)[i] == spec_agg_node(s[i], show, false));
        lemma_agg_props(s[i], show, false);
    }
}

/// Field and leaf sums of a forest extend over a front element.
proof fn lemma_sum_cons(x: NodeView, s: Seq<NodeView>)
    ensures
        forest_leaf_size_sum(seq![x] + s) == leaf_size_sum(x) + forest_leaf_size_sum(s),
        forest_leaf_token_sum(seq![x] + s) == leaf_token_sum(x) + forest_leaf_token_sum(s),
        forest_size_field_sum(seq![x] + s) == node_size_val(x) + forest_size_field_sum(s),
        forest_token_field_sum(seq![x] + s) == node_token_val(x) + forest_token_field_sum(s),
{
    let t = seq![x] + s;
    assert(t[0] == x);
    assert(t.drop_first() =~= s);
}

} // verus!
