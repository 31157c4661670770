use vstd::prelude::*;

verus! {

/// One node of the directory tree: a file leaf or a directory.
pub struct FileNode {
    pub path: String,
    pub name: String,
    pub is_dir: bool,
    pub token_count: Option<u32>,
    pub children: Vec<FileNode>,
    pub size: Option<u64>,
}

/// Mathematical model of a `FileNode`: strings become character sequences
/// and the child vector becomes a sequence of models.
#[verifier::ext_equal]
pub struct NodeView {
    pub path: Seq<char>,
    pub name: Seq<char>,
    pub is_dir: bool,
    pub token_count: Option<u32>,
    pub children: Seq<NodeView>,
    pub size: Option<u64>,
}

pub open spec fn node_view(n: FileNode) -> NodeView
    decreases n,
{
    NodeView {
        path: n.path@,
        name: n.name@,
        is_dir: n.is_dir,
        token_count: n.token_count,
        children: Seq::new(
            n.children@.len(),
            |i: int|
                if 0 <= i < n.children@.len() {
                    node_view(n.children@[i])
                } else {
                    NodeView {
                        path: Seq::empty(),
                        name: Seq::empty(),
                        is_dir: false,
                        token_count: None,
                        children: Seq::empty(),
                        size: None,
                    }
                },
        ),
        size: n.size,
    }
}

pub open spec fn forest_view(s: Seq<FileNode>) -> Seq<NodeView> {
    Seq::new(s.len(), |i: int| node_view(s[i]))
}

impl View for FileNode {
    type V = NodeView;

    open spec fn view(&self) -> NodeView {
        node_view(*self)
    }
}

// ---------- stored values ----------

/// The byte size a node reports, with an absent field counting as zero.
pub open spec fn node_size_val(n: NodeView) -> int {
    match n.size {
        Some(s) => s as int,
        None => 0,
    }
}

/// The token count a node reports, with an absent field counting as zero.
pub open spec fn node_token_val(n: NodeView) -> int {
    match n.token_count {
        Some(t) => t as int,
        None => 0,
    }
}

// ---------- sums over file leaves ----------

/// Sum of the stored sizes of the file leaves of a subtree; what a
/// directory stores does not count, only its files do.
pub open spec fn leaf_size_sum(n: NodeView) -> int
    decreases n,
{
    if !n.is_dir {
        node_size_val(n)
    } else {
        forest_leaf_size_sum(n.children)
    }
}

pub open spec fn forest_leaf_size_sum(s: Seq<NodeView>) -> int
    decreases s,
{
    if s.len() == 0 {
        0
    } else {
        leaf_size_sum(s[0]) + forest_leaf_size_sum(s.drop_first())
    }
}

/// Sum of the stored token counts of the file leaves of a subtree.
pub open spec fn leaf_token_sum(n: NodeView) -> int
    decreases n,
{
    if !n.is_dir {
        node_token_val(n)
    } else {
        forest_leaf_token_sum(n.children)
    }
}

pub open spec fn forest_leaf_token_sum(s: Seq<NodeView>) -> int
    decreases s,
{
    if s.len() == 0 {
        0
    } else {
        leaf_token_sum(s[0]) + forest_leaf_token_sum(s.drop_first())
    }
}

// ---------- basic facts about the sums ----------

pub proof fn lemma_sums_nonneg(n: NodeView)
    ensures
        leaf_size_sum(n) >= 0,
        leaf_token_sum(n) >= 0,
    decreases n,
{
    if n.is_dir {
        lemma_forest_sums_nonneg(n.children);
    }
}

pub proof fn lemma_forest_sums_nonneg(s: Seq<NodeView>)
    ensures
        forest_leaf_size_sum(s) >= 0,
        forest_leaf_token_sum(s) >= 0,
    decreases s,
{
    if s.len() > 0 {
        lemma_sums_nonneg(s[0]);
        lemma_forest_sums_nonneg(s.drop_first());
    }
}

/// The forest sums split at any point.
pub proof fn lemma_forest_sum_split(s: Seq<NodeView>, i: int)
    requires
        0 <= i <= s.len(),
    ensures
        forest_leaf_size_sum(s) == forest_leaf_size_sum(s.take(i)) + forest_leaf_size_sum(
            s.skip(i),
        ),
        forest_leaf_token_sum(s) == forest_leaf_token_sum(s.take(i)) + forest_leaf_token_sum(
            s.skip(i),
        ),
    decreases i,
{
    if i == 0 {
        assert(s.take(0) =~= Seq::<NodeView>::empty());
        assert(s.skip(0) =~= s);
    } else {
        assert(s.len() > 0);
        lemma_forest_sum_split(s.drop_first(), i - 1);
        assert(s.take(i).drop_first() =~= s.drop_first().take(i - 1));
        assert(s.take(i)[0] == s[0]);
        assert(s.take(i).len() > 0);
        assert(s.skip(i) =~= s.drop_first().skip(i - 1));
    }
}

/// A forest sum extends by one element at the end.
pub proof fn lemma_forest_sum_push(s: Seq<NodeView>, x: NodeView)
    ensures
        forest_leaf_size_sum(s.push(x)) == forest_leaf_size_sum(s) + leaf_size_sum(x),
        forest_leaf_token_sum(s.push(x)) == forest_leaf_token_sum(s) + leaf_token_sum(x),
    decreases s,
{
    if s.len() == 0 {
        assert(s.push(x)[0] == x);
        assert(s.push(x).drop_first() =~= Seq::<NodeView>::empty());
        assert(forest_leaf_size_sum(s.push(x)) == leaf_size_sum(x) + forest_leaf_size_sum(
            Seq::<NodeView>::empty(),
        ));
        assert(forest_leaf_token_sum(s.push(x)) == leaf_token_sum(x) + forest_leaf_token_sum(
            Seq::<NodeView>::empty(),
        ));
    } else {
        lemma_forest_sum_push(s.drop_first(), x);
        assert(s.push(x).drop_first() =~= s.drop_first().push(x));
        assert(s.push(x)[0] == s[0]);
        assert(forest_leaf_size_sum(s.push(x)) == leaf_size_sum(s[0]) + forest_leaf_size_sum(
            s.drop_first().push(x),
        ));
        assert(forest_leaf_token_sum(s.push(x)) == leaf_token_sum(s[0]) + forest_leaf_token_sum(
            s.drop_first().push(x),
        ));
    }
}

/// A forest sum changes by the difference of the element exchanged.
pub proof fn lemma_forest_sum_update(s: Seq<NodeView>, i: int, x: NodeView)
    requires
        0 <= i < s.len(),
    ensures
        forest_leaf_size_sum(s.update(i, x)) == forest_leaf_size_sum(s) - leaf_size_sum(s[i])
            + leaf_size_sum(x),
        forest_leaf_token_sum(s.update(i, x)) == forest_leaf_token_sum(s) - leaf_token_sum(s[i])
            + leaf_token_sum(x),
    decreases i,
{
    if i == 0 {
        assert(s.update(0, x)[0] == x);
        assert(s.update(0, x).drop_first() =~= s.drop_first());
    } else {
        lemma_forest_sum_update(s.drop_first(), i - 1, x);
        assert(s.update(i, x).drop_first() =~= s.drop_first().update(i - 1, x));
        assert(s.update(i, x)[0] == s[0]);
    }
}

} // verus!
