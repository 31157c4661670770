use vstd::prelude::*;

use crate::node::{
    forest_leaf_size_sum, forest_leaf_token_sum, forest_view, leaf_size_sum, leaf_token_sum,
    lemma_forest_sum_push, lemma_forest_sum_update, lemma_forest_sums_nonneg, lemma_sums_nonneg,
    node_size_val, node_view, FileNode, NodeView,
};
use crate::strutil::str_eq;

verus! {

/// The first child with this name, or `-1`.
pub open spec fn spec_find_child(s: Seq<NodeView>, name: Seq<char>) -> int
    decreases s.len(),
{
    if s.len() == 0 {
        -1
    } else if s[0].name == name {
        0
    } else {
        let r = spec_find_child(s.drop_first(), name);
        if r < 0 {
            -1
        } else {
            r + 1
        }
    }
}

proof fn lemma_find_child_props(s: Seq<NodeView>, name: Seq<char>)
    ensures
        spec_find_child(s, name) == -1 ==> forall|k: int| 0 <= k < s.len() ==> (#[trigger] s[k]).name != name,
        spec_find_child(s, name) != -1 ==> {
            let r = spec_find_child(s, name);
            &&& 0 <= r < s.len()
            &&& s[r].name == name
            &&& forall|k: int| 0 <= k < r ==> (#[trigger] s[k]).name != name
        },
    decreases s.len(),
{
    if s.len() > 0 && s[0].name != name {
        lemma_find_child_props(s.drop_first(), name);
        let rr = spec_find_child(s.drop_first(), name);
        if rr == -1 {
            assert forall|k: int| 0 <= k < s.len() implies (#[trigger] s[k]).name != name by {
                if k > 0 {
                    assert(s[k] == s.drop_first()[k - 1]);
                }
            }
        } else {
            assert(s[rr + 1] == s.drop_first()[rr]);
            assert forall|k: int| 0 <= k < rr + 1 implies (#[trigger] s[k]).name != name by {
                if k > 0 {
                    assert(s[k] == s.drop_first()[k - 1]);
                }
            }
        }
    }
}

/// The path of the child named `seg` under `prefix`.
pub open spec fn spec_child_path(prefix: Seq<char>, seg: Seq<char>) -> Seq<char> {
    if prefix.len() == 0 {
        seg
    } else {
        prefix + seq!['/'] + seg
    }
}

/// Place one file leaf at the path spelled by `segs`, descending by
/// segment name, synthesizing missing directories, and letting the last
/// file placed at a path win.
pub open spec fn spec_insert(
    forest: Seq<NodeView>,
    prefix: Seq<char>,
    segs: Seq<Seq<char>>,
    leaf: NodeView,
    show: bool,
) -> Seq<NodeView>
    decreases segs.len(),
{
    if segs.len() == 0 {
        forest
    } else {
        let name = segs[0];
        let full = spec_child_path(prefix, name);
        let i = spec_find_child(forest, name);
        if segs.len() == 1 {
            if i >= 0 {
                forest.update(i, leaf)
            } else {
                forest.push(leaf)
            }
        } else {
            if i >= 0 {
                forest.update(
                    i,
                    NodeView {
                        children: spec_insert(forest[i].children, full, segs.drop_first(), leaf, show),
                        ..forest[i]
                    },
                )
            } else {
                forest.push(
                    NodeView {
                        path: full,
                        name: name,
                        is_dir: true,
                        token_count: if show {
                            Some(0u32)
                        } else {
                            None
                        },
                        children: spec_insert(Seq::empty(), full, segs.drop_first(), leaf, show),
                        size: Some(0u64),
                    },
                )
            }
        }
    }
}

/// Placing a leaf raises the forest's leaf sums by at most the leaf's
/// own values.
pub proof fn lemma_insert_sums_le(
    forest: Seq<NodeView>,
    prefix: Seq<char>,
    segs: Seq<Seq<char>>,
    leaf: NodeView,
    show: bool,
)
    ensures
        forest_leaf_size_sum(spec_insert(forest, prefix, segs, leaf, show))
            <= forest_leaf_size_sum(forest) + leaf_size_sum(leaf),
        forest_leaf_token_sum(spec_insert(forest, prefix, segs, leaf, show))
            <= forest_leaf_token_sum(forest) + leaf_token_sum(leaf),
    decreases segs.len(),
{
    lemma_sums_nonneg(leaf);
    if segs.len() == 0 {
    } else {
        let name = segs[0];
        let full = spec_child_path(prefix, name);
        let i = spec_find_child(forest, name);
        lemma_find_child_props(forest, name);
        if segs.len() == 1 {
            if i >= 0 {
                lemma_forest_sum_update(forest, i, leaf);
                lemma_sums_nonneg(forest[i]);
            } else {
                lemma_forest_sum_push(forest, leaf);
            }
        } else {
            if i >= 0 {
                let m = NodeView {
                    children: spec_insert(forest[i].children, full, segs.drop_first(), leaf, show),
                    ..forest[i]
                };
                lemma_insert_sums_le(forest[i].children, full, segs.drop_first(), leaf, show);
                lemma_forest_sum_update(forest, i, m);
                lemma_sums_nonneg(forest[i]);
                lemma_sums_nonneg(m);
            } else {
                let d = NodeView {
                    path: full,
                    name: name,
                    is_dir: true,
                    token_count: if show {
                        Some(0u32)
                    } else {
                        None
                    },
                    children: spec_insert(Seq::empty(), full, segs.drop_first(), leaf, show),
                    size: Some(0u64),
                };
                lemma_insert_sums_le(Seq::empty(), full, segs.drop_first(), leaf, show);
                lemma_forest_sum_push(forest, d);
                assert(forest_leaf_size_sum(Seq::<NodeView>::empty()) == 0);
            }
        }
    }
}

// ---------- fresh paths ----------

/// One segment list is an initial run of another.
pub open spec fn spec_seg_prefix(a: Seq<Seq<char>>, b: Seq<Seq<char>>) -> bool {
    a.len() <= b.len() && a == b.take(a.len() as int)
}

/// Placing a file at `segs` touches no file node on the way down and
/// finds no node at its end.
pub open spec fn spec_fresh(forest: Seq<NodeView>, segs: Seq<Seq<char>>) -> bool
    decreases segs.len(),
{
    if segs.len() == 0 {
        true
    } else {
        let i = spec_find_child(forest, segs[0]);
        if segs.len() == 1 {
            i == -1
        } else {
            i == -1 || (forest[i].is_dir && spec_fresh(forest[i].children, segs.drop_first()))
        }
    }
}

proof fn lemma_fresh_empty(segs: Seq<Seq<char>>)
    ensures
        spec_fresh(Seq::empty(), segs),
{
}

/// Placing a leaf on a fresh path raises the leaf sums by exactly the
/// leaf's values.
pub proof fn lemma_insert_sums_eq(
    forest: Seq<NodeView>,
    prefix: Seq<char>,
    segs: Seq<Seq<char>>,
    leaf: NodeView,
    show: bool,
)
    requires
        segs.len() >= 1,
        spec_fresh(forest, segs),
    ensures
        forest_leaf_size_sum(spec_insert(forest, prefix, segs, leaf, show))
            == forest_leaf_size_sum(forest) + leaf_size_sum(leaf),
        forest_leaf_token_sum(spec_insert(forest, prefix, segs, leaf, show))
            == forest_leaf_token_sum(forest) + leaf_token_sum(leaf),
    decreases segs.len(),
{
    let name = segs[0];
    let full = spec_child_path(prefix, name);
    let i = spec_find_child(forest, name);
    lemma_find_child_props(forest, name);
    if segs.len() == 1 {
        lemma_forest_sum_push(forest, leaf);
    } else {
        if i >= 0 {
            let m = NodeView {
                children: spec_insert(forest[i].children, full, segs.drop_first(), leaf, show),
                ..forest[i]
            };
            lemma_insert_sums_eq(forest[i].children, full, segs.drop_first(), leaf, show);
            lemma_forest_sum_update(forest, i, m);
            assert(leaf_size_sum(m) == leaf_size_sum(forest[i]) + leaf_size_sum(leaf));
            assert(leaf_token_sum(m) == leaf_token_sum(forest[i]) + leaf_token_sum(leaf));
        } else {
            let d = NodeView {
                path: full,
                name: name,
                is_dir: true,
                token_count: if show {
                    Some(0u32)
                } else {
                    None
                },
                children: spec_insert(Seq::empty(), full, segs.drop_first(), leaf, show),
                size: Some(0u64),
            };
            lemma_fresh_empty(segs.drop_first());
            lemma_insert_sums_eq(Seq::empty(), full, segs.drop_first(), leaf, show);
            lemma_forest_sum_push(forest, d);
            assert(forest_leaf_size_sum(Seq::<NodeView>::empty()) == 0);
            assert(leaf_size_sum(d) == leaf_size_sum(leaf));
            assert(leaf_token_sum(d) == leaf_token_sum(leaf));
        }
    }
}

/// Lookup by name sees only the names.
proof fn lemma_find_same_names(f1: Seq<NodeView>, f2: Seq<NodeView>, name: Seq<char>)
    requires
        f1.len() == f2.len(),
        forall|k: int| 0 <= k < f1.len() ==> (#[trigger] f1[k]).name == f2[k].name,
    ensures
        spec_find_child(f1, name) == spec_find_child(f2, name),
    decreases f1.len(),
{
    if f1.len() > 0 {
        assert(f1[0].name == f2[0].name);
        lemma_find_same_names(f1.drop_first(), f2.drop_first(), name);
        assert forall|k: int| 0 <= k < f1.drop_first().len() implies (#[trigger] f1.drop_first()[k]).name
            == f2.drop_first()[k].name by {
            assert(f1[k + 1].name == f2[k + 1].name);
        }
    }
}

proof fn lemma_find_push(f: Seq<NodeView>, x: NodeView, name: Seq<char>)
    ensures
        spec_find_child(f, name) >= 0 ==> spec_find_child(f.push(x), name) == spec_find_child(
            f,
            name,
        ) && f.push(x)[spec_find_child(f, name)] == f[spec_find_child(f, name)],
        spec_find_child(f, name) == -1 && x.name != name ==> spec_find_child(f.push(x), name)
            == -1,
        spec_find_child(f, name) == -1 && x.name == name ==> spec_find_child(f.push(x), name)
            == f.len(),
    decreases f.len(),
{
    if f.len() == 0 {
        assert(f.push(x)[0] == x);
        assert(f.push(x).drop_first() =~= Seq::<NodeView>::empty());
        assert(spec_find_child(Seq::<NodeView>::empty(), name) == -1);
    } else {
        lemma_find_push(f.drop_first(), x, name);
        assert(f.push(x)[0] == f[0]);
        assert(f.push(x).drop_first() =~= f.drop_first().push(x));
        if f[0].name != name {
            lemma_find_child_props(f.drop_first(), name);
            let r = spec_find_child(f.drop_first(), name);
            if r >= 0 {
                assert(spec_find_child(f, name) == r + 1);
                assert(spec_find_child(f.drop_first().push(x), name) == r);
                assert(spec_find_child(f.push(x), name) == r + 1);
                assert(f.push(x)[r + 1] == f.drop_first().push(x)[r]);
                assert(f.drop_first().push(x)[r] == f.drop_first()[r]);
                assert(f.drop_first()[r] == f[r + 1]);
            } else {
                assert(spec_find_child(f, name) == -1);
                if x.name == name {
                    assert(spec_find_child(f.drop_first().push(x), name) == f.drop_first().len());
                    assert(spec_find_child(f.push(x), name) == f.len());
                } else {
                    assert(spec_find_child(f.drop_first().push(x), name) == -1);
                    assert(spec_find_child(f.push(x), name) == -1);
                }
            }
        }
    }
}

/// An insertion elsewhere does not spoil a fresh path: the two segment
/// lists must merely not be initial runs of one another.
pub proof fn lemma_fresh_preserved(
    forest: Seq<NodeView>,
    prefix: Seq<char>,
    p: Seq<Seq<char>>,
    leaf: NodeView,
    show: bool,
    q: Seq<Seq<char>>,
)
    requires
        p.len() >= 1,
        q.len() >= 1,
        leaf.name == p.last(),
        spec_fresh(forest, q),
        !spec_seg_prefix(p, q),
        !spec_seg_prefix(q, p),
    ensures
        spec_fresh(spec_insert(forest, prefix, p, leaf, show), q),
    decreases p.len(),
{
    let name = p[0];
    let full = spec_child_path(prefix, name);
    let ip = spec_find_child(forest, name);
    let iq = spec_find_child(forest, q[0]);
    lemma_find_child_props(forest, name);
    lemma_find_child_props(forest, q[0]);
    let f2 = spec_insert(forest, prefix, p, leaf, show);
    if p.len() == 1 {
        // the head names must differ, else one list runs into the other
        if q[0] == p[0] {
            assert(p == q.take(1int));
            assert(spec_seg_prefix(p, q));
        }
        assert(q[0] != p[0]);
        if ip >= 0 {
            assert(leaf.name == p[0]);
            assert forall|k: int| 0 <= k < forest.len() implies (#[trigger] forest[k]).name
                == f2[k].name by {}
            lemma_find_same_names(forest, f2, q[0]);
            if iq >= 0 {
                assert(f2[iq] == forest[iq]);
            }
        } else {
            lemma_find_push(forest, leaf, q[0]);
            if iq >= 0 {
                assert(f2[iq] == forest[iq]);
            }
        }
    } else {
        if q[0] != p[0] {
            if ip >= 0 {
                let m = NodeView {
                    children: spec_insert(forest[ip].children, full, p.drop_first(), leaf, show),
                    ..forest[ip]
                };
                assert forall|k: int| 0 <= k < forest.len() implies (#[trigger] forest[k]).name
                    == f2[k].name by {}
                lemma_find_same_names(forest, f2, q[0]);
                if iq >= 0 {
                    assert(iq != ip);
                    assert(f2[iq] == forest[iq]);
                }
            } else {
                let d = NodeView {
                    path: full,
                    name: name,
                    is_dir: true,
                    token_count: if show {
                        Some(0u32)
                    } else {
                        None
                    },
                    children: spec_insert(Seq::empty(), full, p.drop_first(), leaf, show),
                    size: Some(0u64),
                };
                lemma_find_push(forest, d, q[0]);
                if iq >= 0 {
                    assert(f2[iq] == forest[iq]);
                }
            }
        } else {
            // shared head: the lists diverge further down
            if q.len() == 1 {
                assert(q == p.take(1int));
                assert(spec_seg_prefix(q, p));
            }
            assert(q.len() >= 2);
            assert(!spec_seg_prefix(p.drop_first(), q.drop_first())) by {
                if spec_seg_prefix(p.drop_first(), q.drop_first()) {
                    assert(p =~= seq![p[0]] + p.drop_first());
                    assert(q.take(p.len() as int) =~= seq![q[0]] + q.drop_first().take(
                        p.len() - 1,
                    ));
                    assert(spec_seg_prefix(p, q));
                }
            }
            assert(!spec_seg_prefix(q.drop_first(), p.drop_first())) by {
                if spec_seg_prefix(q.drop_first(), p.drop_first()) {
                    assert(q =~= seq![q[0]] + q.drop_first());
                    assert(p.take(q.len() as int) =~= seq![p[0]] + p.drop_first().take(
                        q.len() - 1,
                    ));
                    assert(spec_seg_prefix(q, p));
                }
            }
            assert(leaf.name == p.drop_first().last());
            if ip == -1 {
                let d = NodeView {
                    path: full,
                    name: name,
                    is_dir: true,
                    token_count: if show {
                        Some(0u32)
                    } else {
                        None
                    },
                    children: spec_insert(Seq::empty(), full, p.drop_first(), leaf, show),
                    size: Some(0u64),
                };
                lemma_find_push(forest, d, q[0]);
                assert(spec_find_child(f2, q[0]) == forest.len());
                assert(f2[forest.len() as int] == d);
                lemma_fresh_empty(q.drop_first());
                lemma_fresh_preserved(
                    Seq::empty(),
                    full,
                    p.drop_first(),
                    leaf,
                    show,
                    q.drop_first(),
                );
            } else {
                let m = NodeView {
                    children: spec_insert(forest[ip].children, full, p.drop_first(), leaf, show),
                    ..forest[ip]
                };
                assert forall|k: int| 0 <= k < forest.len() implies (#[trigger] forest[k]).name
                    == f2[k].name by {}
                lemma_find_same_names(forest, f2, q[0]);
                assert(iq == ip);
                assert(forest[ip].is_dir && spec_fresh(forest[ip].children, q.drop_first()));
                lemma_fresh_preserved(
                    forest[ip].children,
                    full,
                    p.drop_first(),
                    leaf,
                    show,
                    q.drop_first(),
                );
                assert(f2[ip] == m);
            }
        }
    }
}

// ---------- every implied ancestor becomes a node ----------

/// A node is reachable by descending the segment names of `q`.
pub open spec fn spec_has_node(forest: Seq<NodeView>, q: Seq<Seq<char>>) -> bool
    decreases q.len(),
{
    if q.len() == 0 {
        true
    } else {
        let i = spec_find_child(forest, q[0]);
        i >= 0 && spec_has_node(forest[i].children, q.drop_first())
    }
}

/// Placing a leaf makes every prefix of its path reachable.
pub proof fn lemma_insert_has_prefixes(
    forest: Seq<NodeView>,
    prefix: Seq<char>,
    segs: Seq<Seq<char>>,
    leaf: NodeView,
    show: bool,
    j: int,
)
    requires
        segs.len() >= 1,
        leaf.name == segs.last(),
        0 <= j <= segs.len(),
    ensures
        spec_has_node(spec_insert(forest, prefix, segs, leaf, show), segs.take(j)),
    decreases segs.len(), j,
{
    if j > 0 {
        let name = segs[0];
        let full = spec_child_path(prefix, name);
        let i = spec_find_child(forest, name);
        lemma_find_child_props(forest, name);
        let f2 = spec_insert(forest, prefix, segs, leaf, show);
        let q = segs.take(j);
        assert(q[0] == name);
        assert(q.drop_first() =~= segs.drop_first().take(j - 1));
        if segs.len() == 1 {
            assert(leaf.name == name);
            assert(q.drop_first().len() == 0);
            if i >= 0 {
                assert(forest[i].name == name);
                assert(spec_find_child(f2, name) == i) by {
                    assert forall|k: int| 0 <= k < forest.len() implies (#[trigger] forest[k]).name
                        == f2[k].name by {}
                    lemma_find_same_names(forest, f2, name);
                }
                assert(spec_has_node(f2[i].children, q.drop_first()));
                assert(spec_has_node(f2, q));
            } else {
                lemma_find_push(forest, leaf, name);
                assert(spec_find_child(f2, name) == forest.len());
                assert(spec_has_node(f2[forest.len() as int].children, q.drop_first()));
                assert(spec_has_node(f2, q));
            }
        } else {
            assert(leaf.name == segs.drop_first().last());
            lemma_insert_has_prefixes(
                if i >= 0 {
                    forest[i].children
                } else {
                    Seq::empty()
                },
                full,
                segs.drop_first(),
                leaf,
                show,
                j - 1,
            );
            if i >= 0 {
                assert(spec_find_child(f2, name) == i) by {
                    assert forall|k: int| 0 <= k < forest.len() implies (#[trigger] forest[k]).name
                        == f2[k].name by {}
                    lemma_find_same_names(forest, f2, name);
                }
                assert(f2[i].children == spec_insert(
                    forest[i].children,
                    full,
                    segs.drop_first(),
                    leaf,
                    show,
                ));
                assert(spec_has_node(f2[i].children, q.drop_first()));
                assert(spec_has_node(f2, q));
            } else {
                let d = NodeView {
                    path: full,
                    name: name,
                    is_dir: true,
                    token_count: if show {
                        Some(0u32)
                    } else {
                        None
                    },
                    children: spec_insert(Seq::empty(), full, segs.drop_first(), leaf, show),
                    size: Some(0u64),
                };
                lemma_find_push(forest, d, name);
                assert(spec_find_child(f2, name) == forest.len());
                assert(f2[forest.len() as int] == d);
                assert(spec_has_node(f2[forest.len() as int].children, q.drop_first()));
                assert(spec_has_node(f2, q));
            }
        }
    }
}

/// Placing a leaf on a fresh path makes nothing unreachable.
pub proof fn lemma_insert_keeps_nodes(
    forest: Seq<NodeView>,
    prefix: Seq<char>,
    segs: Seq<Seq<char>>,
    leaf: NodeView,
    show: bool,
    q: Seq<Seq<char>>,
)
    requires
        segs.len() >= 1,
        spec_fresh(forest, segs),
        spec_has_node(forest, q),
    ensures
        spec_has_node(spec_insert(forest, prefix, segs, leaf, show), q),
    decreases q.len(),
{
    if q.len() > 0 {
        let name = segs[0];
        let full = spec_child_path(prefix, name);
        let i = spec_find_child(forest, name);
        let iq = spec_find_child(forest, q[0]);
        lemma_find_child_props(forest, name);
        lemma_find_child_props(forest, q[0]);
        let f2 = spec_insert(forest, prefix, segs, leaf, show);
        if segs.len() == 1 {
            // the terminal spot is fresh, so the insertion only pushes
            assert(i == -1);
            lemma_find_push(forest, leaf, q[0]);
            if leaf.name != q[0] {
                assert(spec_find_child(f2, q[0]) == iq);
                assert(f2[iq] == forest[iq]);
            } else {
                if iq >= 0 {
                    assert(spec_find_child(f2, q[0]) == iq);
                    assert(f2[iq] == forest[iq]);
                }
            }
        } else {
            if i == -1 {
                let d = NodeView {
                    path: full,
                    name: name,
                    is_dir: true,
                    token_count: if show {
                        Some(0u32)
                    } else {
                        None
                    },
                    children: spec_insert(Seq::empty(), full, segs.drop_first(), leaf, show),
                    size: Some(0u64),
                };
                lemma_find_push(forest, d, q[0]);
                if q[0] != name {
                    assert(spec_find_child(f2, q[0]) == iq);
                    assert(f2[iq] == forest[iq]);
                } else {
                    // a reachable node named like the fresh prefix would
                    // have been found
                    assert(iq == -1);
                    assert(spec_has_node(forest, q) == false);
                }
            } else {
                let m = NodeView {
                    children: spec_insert(forest[i].children, full, segs.drop_first(), leaf, show),
                    ..forest[i]
                };
                assert forall|k: int| 0 <= k < forest.len() implies (#[trigger] forest[k]).name
                    == f2[k].name by {}
                lemma_find_same_names(forest, f2, q[0]);
                if q[0] != name {
                    assert(iq != i);
                    assert(f2[iq] == forest[iq]);
                } else {
                    assert(iq == i);
                    assert(f2[i] == m);
                    assert(forest[i].is_dir && spec_fresh(forest[i].children, segs.drop_first()));
                    lemma_insert_keeps_nodes(
                        forest[i].children,
                        full,
                        segs.drop_first(),
                        leaf,
                        show,
                        q.drop_first(),
                    );
                }
            }
        }
    }
}

// ---------- the tree keeps one node per path ----------

/// Sibling names are pairwise distinct, here and all the way down: the
/// tree form of path uniqueness, since a node's path is spelled by the
/// segment names on the way to it.
pub open spec fn spec_names_unique(forest: Seq<NodeView>) -> bool
    decreases forest,
{
    (forall|i: int, j: int|
        0 <= i < j < forest.len() ==> (#[trigger] forest[i]).name != (#[trigger] forest[j]).name)
        && (forall|i: int|
        0 <= i < forest.len() ==> spec_names_unique((#[trigger] forest[i]).children))
}

/// Placing a leaf with no children of its own keeps sibling names
/// distinct everywhere.
pub proof fn lemma_insert_names_unique(
    forest: Seq<NodeView>,
    prefix: Seq<char>,
    segs: Seq<Seq<char>>,
    leaf: NodeView,
    show: bool,
)
    requires
        segs.len() >= 1,
        leaf.name == segs.last(),
        leaf.children.len() == 0,
        spec_names_unique(forest),
    ensures
        spec_names_unique(spec_insert(forest, prefix, segs, leaf, show)),
    decreases segs.len(),
{
    let name = segs[0];
    let full = spec_child_path(prefix, name);
    let i = spec_find_child(forest, name);
    lemma_find_child_props(forest, name);
    let f2 = spec_insert(forest, prefix, segs, leaf, show);
    assert(spec_names_unique(leaf.children));
    if segs.len() == 1 {
        if i >= 0 {
            assert(leaf.name == name);
            assert forall|a: int, b: int| 0 <= a < b < f2.len() implies (#[trigger] f2[a]).name
                != (#[trigger] f2[b]).name by {
                assert(f2[a].name == forest[a].name);
                assert(f2[b].name == forest[b].name);
            }
        } else {
            assert forall|a: int, b: int| 0 <= a < b < f2.len() implies (#[trigger] f2[a]).name
                != (#[trigger] f2[b]).name by {
                if b == forest.len() {
                    assert(f2[a] == forest[a]);
                    assert(f2[b] == leaf);
                } else {
                    assert(f2[a] == forest[a]);
                    assert(f2[b] == forest[b]);
                }
            }
        }
    } else {
        assert(leaf.name == segs.drop_first().last());
        if i >= 0 {
            let m = NodeView {
                children: spec_insert(forest[i].children, full, segs.drop_first(), leaf, show),
                ..forest[i]
            };
            lemma_insert_names_unique(forest[i].children, full, segs.drop_first(), leaf, show);
            assert forall|a: int, b: int| 0 <= a < b < f2.len() implies (#[trigger] f2[a]).name
                != (#[trigger] f2[b]).name by {
                assert(f2[a].name == forest[a].name);
                assert(f2[b].name == forest[b].name);
            }
            assert forall|a: int| 0 <= a < f2.len() implies spec_names_unique(
                (#[trigger] f2[a]).children,
            ) by {
                if a != i {
                    assert(f2[a] == forest[a]);
                }
            }
        } else {
            lemma_insert_names_unique(Seq::empty(), full, segs.drop_first(), leaf, show);
            let d = NodeView {
                path: full,
                name: name,
                is_dir: true,
                token_count: if show {
                    Some(0u32)
                } else {
                    None
                },
                children: spec_insert(Seq::empty(), full, segs.drop_first(), leaf, show),
                size: Some(0u64),
            };
            assert forall|a: int, b: int| 0 <= a < b < f2.len() implies (#[trigger] f2[a]).name
                != (#[trigger] f2[b]).name by {
                if b == forest.len() {
                    assert(f2[a] == forest[a]);
                    assert(f2[b] == d);
                } else {
                    assert(f2[a] == forest[a]);
                    assert(f2[b] == forest[b]);
                }
            }
            assert forall|a: int| 0 <= a < f2.len() implies spec_names_unique(
                (#[trigger] f2[a]).children,
            ) by {
                if a < forest.len() {
                    assert(f2[a] == forest[a]);
                } else {
                    assert(f2[a] == d);
                }
            }
        }
    }
}

// ---------- runtime insertion ----------

fn find_child(forest: &Vec<FileNode>, name: &str) -> (r: Option<usize>)
    ensures
        r matches Some(i) ==> spec_find_child(forest_view(forest@), name@) == i && i < forest@.len(),
        r is None ==> spec_find_child(forest_view(forest@), name@) == -1,
{
    let ghost fv = forest_view(forest@);
    let mut j: usize = 0;
    while j < forest.len()
        invariant
            fv == forest_view(forest@),
            j <= forest@.len(),
            forall|k: int| 0 <= k < j ==> (#[trigger] fv[k]).name != name@,
        decreases forest@.len() - j,
    {
        if str_eq(forest[j].name.as_str(), name) {
            proof {
                assert(fv[j as int].name == name@);
                lemma_find_child_props(fv, name@);
            }
            return Some(j);
        }
        proof {
            assert(fv[j as int] == forest@[j as int]@);
        }
        j = j + 1;
    }
    proof {
        lemma_find_child_props(fv, name@);
    }
    None
}

/// Place a leaf below `forest` at the segments of `segs` from `k` on.
pub fn insert_node(
    forest: Vec<FileNode>,
    prefix: &str,
    segs: &Vec<String>,
    k: usize,
    leaf: FileNode,
    show: bool,
) -> (r: Vec<FileNode>)
    requires
        k < segs@.len(),
    ensures
        forest_view(r@) == spec_insert(
            forest_view(forest@),
            prefix@,
            segs.deep_view().skip(k as int),
            leaf@,
            show,
        ),
    decreases segs@.len() - k,
{
    let ghost fv = forest_view(forest@);
    let ghost tail = segs.deep_view().skip(k as int);
    let name: &str = segs[k].as_str();
    proof {
        assert(tail[0] == segs.deep_view()[k as int]);
        assert(name@ == tail[0]);
        assert(tail.drop_first() =~= segs.deep_view().skip(k + 1));
    }
    let found = find_child(&forest, name);
    let slen = segs.len();
    let last = k + 1 == slen;
    if last {
        let mut out = forest;
        match found {
            Some(i) => {
                proof {
                    lemma_find_child_props(fv, name@);
                }
                let ghost before = out@;
                out.set(i, leaf);
                proof {
                    assert forall|t: int| 0 <= t < out@.len() implies forest_view(out@)[t]
                        == fv.update(i as int, leaf@)[t] by {
                        assert(forest_view(out@)[t] == node_view(out@[t]));
                    }
                    assert(forest_view(out@) =~= fv.update(i as int, leaf@));
                }
            },
            None => {
                let ghost before = out@;
                out.push(leaf);
                proof {
                    assert forall|t: int| 0 <= t < out@.len() implies forest_view(out@)[t]
                        == fv.push(leaf@)[t] by {
                        assert(forest_view(out@)[t] == node_view(out@[t]));
                        if t < before.len() {
                            assert(out@[t] == before[t]);
                        }
                    }
                    assert(forest_view(out@) =~= fv.push(leaf@));
                }
            },
        }
        out
    } else {
        // the path of the child this segment names
        let full: String = if prefix.unicode_len() == 0 {
            let f = segs[k].clone();
            proof {
                assert(prefix@.len() == 0);
                assert(f@ == spec_child_path(prefix@, name@));
            }
            f
        } else {
            let mut f = prefix.to_owned();
            f.append("/");
            f.append(name);
            proof {
                reveal_strlit("/");
                assert("/"@ =~= seq!['/']);
                assert(f@ == spec_child_path(prefix@, name@));
            }
            f
        };
        let mut out = forest;
        match found {
            Some(i) => {
                proof {
                    lemma_find_child_props(fv, name@);
                }
                let c = out.remove(i);
                let FileNode { path, name: cname, is_dir, token_count, children, size } = c;
                let ghost cview = c@;
                let ghost cchildren = children@;
                let sub = insert_node(children, full.as_str(), segs, k + 1, leaf, show);
                let newc = FileNode { path, name: cname, is_dir, token_count, children: sub, size };
                proof {
                    assert(cview.children =~= forest_view(cchildren));
                    assert(newc@.children =~= forest_view(sub@));
                    assert(newc@ =~= NodeView {
                        children: spec_insert(cview.children, full@, tail.drop_first(), leaf@, show),
                        ..cview
                    });
                }
                out.insert(i, newc);
                proof {
                    let target = fv.update(
                        i as int,
                        NodeView {
                            children: spec_insert(
                                fv[i as int].children,
                                full@,
                                tail.drop_first(),
                                leaf@,
                                show,
                            ),
                            ..fv[i as int]
                        },
                    );
                    assert(cview == fv[i as int]);
                    assert forall|t: int| 0 <= t < out@.len() implies forest_view(out@)[t]
                        == target[t] by {
                        assert(forest_view(out@)[t] == node_view(out@[t]));
                    }
                    assert(forest_view(out@) =~= target);
                }
            },
            None => {
                let sub = insert_node(Vec::new(), full.as_str(), segs, k + 1, leaf, show);
                let newc = FileNode {
                    path: full,
                    name: segs[k].clone(),
                    is_dir: true,
                    token_count: if show {
                        Some(0u32)
                    } else {
                        None
                    },
                    children: sub,
                    size: Some(0u64),
                };
                let ghost before = out@;
                out.push(newc);
                proof {
                    let d = NodeView {
                        path: spec_child_path(prefix@, name@),
                        name: name@,
                        is_dir: true,
                        token_count: if show {
                            Some(0u32)
                        } else {
                            None
                        },
                        children: spec_insert(Seq::empty(), spec_child_path(prefix@, name@), tail.drop_first(), leaf@, show),
                        size: Some(0u64),
                    };
                    assert(forest_view(Seq::<FileNode>::empty()) =~= Seq::<NodeView>::empty());
                    assert(newc@.children =~= forest_view(sub@));
                    assert(newc@ =~= d);
                    assert forall|t: int| 0 <= t < out@.len() implies forest_view(out@)[t]
                        == fv.push(d)[t] by {
                        assert(forest_view(out@)[t] == node_view(out@[t]));
                        if t < before.len() {
                            assert(out@[t] == before[t]);
                        }
                    }
                    assert(forest_view(out@) =~= fv.push(d));
                }
            },
        }
        out
    }
}

} // verus!
