use vstd::prelude::*;

use crate::node::{
    forest_leaf_size_sum, forest_leaf_token_sum, forest_view, leaf_size_sum, leaf_token_sum,
    node_view, FileNode, NodeView,
};
use crate::strutil::{lemma_lex_lt_asym, lemma_lex_lt_trans, spec_lex_lt, str_lex_lt};
use vstd::multiset::Multiset;
use crate::aggregate::{spec_keep_child, spec_no_empty_subdirs};

verus! {

/// The lowercase form of a text, as `str::to_lowercase` gives it; a
/// function of the characters alone.
pub uninterp spec fn lower_of(s: Seq<char>) -> Seq<char>;

/// Relies on `str::to_lowercase`: the Unicode lowercase mapping of the
/// text, depending on the characters alone.
#[verifier::external_body]
fn to_lower(s: &str) -> (r: String)
    ensures
        r@ == lower_of(s@),
{
    s.to_lowercase()
}

/// Display order: directories strictly before files; within a kind, the
/// lowercased name that is lexicographically smaller comes first. Ties
/// are no order at all, so a stable sort keeps their earlier arrangement.
pub open spec fn spec_node_lt(a: NodeView, b: NodeView) -> bool {
    (a.is_dir && !b.is_dir) || (a.is_dir == b.is_dir && spec_lex_lt(
        lower_of(a.name),
        lower_of(b.name),
    ))
}

/// No later element strictly precedes an earlier one.
pub open spec fn spec_sorted(s: Seq<NodeView>) -> bool {
    forall|i: int, j: int| 0 <= i < j < s.len() ==> !spec_node_lt(#[trigger] s[j], #[trigger] s[i])
}

/// Insert an element behind every element it does not strictly precede:
/// the step of a stable insertion sort.
pub open spec fn spec_insert_sorted(s: Seq<NodeView>, x: NodeView) -> Seq<NodeView>
    decreases s.len(),
{
    if s.len() == 0 {
        seq![x]
    } else if spec_node_lt(x, s[0]) {
        seq![x] + s
    } else {
        seq![s[0]] + spec_insert_sorted(s.drop_first(), x)
    }
}

/// Stable insertion sort, taking the input left to right.
pub open spec fn spec_sort(s: Seq<NodeView>) -> Seq<NodeView>
    decreases s.len(),
{
    if s.len() == 0 {
        s
    } else {
        spec_insert_sorted(spec_sort(s.drop_last()), s.last())
    }
}

pub open spec fn spec_order_each(s: Seq<NodeView>) -> Seq<NodeView>
    decreases s,
{
    Seq::new(
        s.len(),
        |i: int|
            if 0 <= i < s.len() {
                spec_order_node(s[i])
            } else {
                s[i]
            },
    )
}

/// Order a subtree: a directory's children are each ordered and then
/// sorted; a file is left alone.
pub open spec fn spec_order_node(n: NodeView) -> NodeView
    decreases n,
{
    if !n.is_dir {
        n
    } else {
        NodeView { children: spec_sort(spec_order_each(n.children)), ..n }
    }
}

/// Order a whole forest, the roots included.
pub open spec fn spec_order_forest(s: Seq<NodeView>) -> Seq<NodeView> {
    spec_sort(spec_order_each(s))
}

// ---------- the order really orders ----------

proof fn lemma_node_lt_asym(a: NodeView, b: NodeView)
    ensures
        !(spec_node_lt(a, b) && spec_node_lt(b, a)),
{
    lemma_lex_lt_asym(lower_of(a.name), lower_of(b.name));
}

proof fn lemma_node_lt_trans(a: NodeView, b: NodeView, c: NodeView)
    requires
        spec_node_lt(a, b),
        spec_node_lt(b, c),
    ensures
        spec_node_lt(a, c),
{
    if a.is_dir == b.is_dir && b.is_dir == c.is_dir {
        lemma_lex_lt_trans(lower_of(a.name), lower_of(b.name), lower_of(c.name));
    }
}

proof fn lemma_insert_sorted_elems(s: Seq<NodeView>, x: NodeView)
    ensures
        spec_insert_sorted(s, x).len() == s.len() + 1,
        forall|j: int|
            0 <= j < spec_insert_sorted(s, x).len() ==> (#[trigger] spec_insert_sorted(s, x)[j]
                == x || exists|k: int| 0 <= k < s.len() && spec_insert_sorted(s, x)[j] == s[k]),
    decreases s.len(),
{
    let t = spec_insert_sorted(s, x);
    if s.len() == 0 {
        assert(t[0] == x);
    } else if spec_node_lt(x, s[0]) {
        assert forall|j: int| 0 <= j < t.len() implies (#[trigger] t[j] == x || exists|k: int|
            0 <= k < s.len() && t[j] == s[k]) by {
            if j > 0 {
                assert(t[j] == s[j - 1]);
            }
        }
    } else {
        lemma_insert_sorted_elems(s.drop_first(), x);
        let u = spec_insert_sorted(s.drop_first(), x);
        assert forall|j: int| 0 <= j < t.len() implies (#[trigger] t[j] == x || exists|k: int|
            0 <= k < s.len() && t[j] == s[k]) by {
            if j == 0 {
                assert(t[0] == s[0]);
            } else {
                assert(t[j] == u[j - 1]);
                if u[j - 1] != x {
                    let k = choose|k: int| 0 <= k < s.drop_first().len() && u[j - 1]
                        == s.drop_first()[k];
                    assert(t[j] == s[k + 1]);
                }
            }
        }
    }
}

proof fn lemma_insert_sorted_sorted(s: Seq<NodeView>, x: NodeView)
    requires
        spec_sorted(s),
    ensures
        spec_sorted(spec_insert_sorted(s, x)),
    decreases s.len(),
{
    let t = spec_insert_sorted(s, x);
    if s.len() == 0 {
    } else if spec_node_lt(x, s[0]) {
        assert forall|i: int, j: int| 0 <= i < j < t.len() implies !spec_node_lt(t[j], t[i]) by {
            if i == 0 {
                assert(t[j] == s[j - 1]);
                if spec_node_lt(s[j - 1], x) {
                    lemma_node_lt_trans(s[j - 1], x, s[0]);
                    if j == 1 {
                        lemma_node_lt_asym(s[0], x);
                    }
                }
            } else {
                assert(t[i] == s[i - 1]);
                assert(t[j] == s[j - 1]);
            }
        }
    } else {
        assert forall|i: int, j: int|
            0 <= i < j < s.drop_first().len() implies !spec_node_lt(
            #[trigger] s.drop_first()[j],
            #[trigger] s.drop_first()[i],
        ) by {
            assert(s.drop_first()[j] == s[j + 1]);
            assert(s.drop_first()[i] == s[i + 1]);
        }
        lemma_insert_sorted_sorted(s.drop_first(), x);
        lemma_insert_sorted_elems(s.drop_first(), x);
        let u = spec_insert_sorted(s.drop_first(), x);
        assert forall|i: int, j: int| 0 <= i < j < t.len() implies !spec_node_lt(t[j], t[i]) by {
            if i == 0 {
                assert(t[j] == u[j - 1]);
                if u[j - 1] == x {
                    lemma_node_lt_asym(x, s[0]);
                } else {
                    let k = choose|k: int| 0 <= k < s.drop_first().len() && u[j - 1]
                        == s.drop_first()[k];
                    assert(s.drop_first()[k] == s[k + 1]);
                }
            } else {
                assert(t[i] == u[i - 1]);
                assert(t[j] == u[j - 1]);
            }
        }
    }
}

proof fn lemma_insert_sorted_multiset(s: Seq<NodeView>, x: NodeView)
    ensures
        spec_insert_sorted(s, x).to_multiset() =~= s.to_multiset().insert(x),
    decreases s.len(),
{
    broadcast use vstd::seq_lib::lemma_multiset_commutative;
    broadcast use vstd::multiset::group_multiset_axioms;

    let t = spec_insert_sorted(s, x);
    Seq::<NodeView>::empty().to_multiset_ensures();
    assert(Seq::<NodeView>::empty().to_multiset() =~= Multiset::<NodeView>::empty());
    if s.len() == 0 {
        assert(t =~= s.push(x));
        s.to_multiset_ensures();
    } else if spec_node_lt(x, s[0]) {
        assert(seq![x] =~= Seq::<NodeView>::empty().push(x));
        assert(seq![x].to_multiset() =~= Multiset::<NodeView>::empty().insert(x));
        assert((seq![x] + s).to_multiset() =~= seq![x].to_multiset().add(s.to_multiset()));
        assert(t.to_multiset() =~= s.to_multiset().insert(x));
    } else {
        lemma_insert_sorted_multiset(s.drop_first(), x);
        let u = spec_insert_sorted(s.drop_first(), x);
        assert(seq![s[0]] =~= Seq::<NodeView>::empty().push(s[0]));
        assert(seq![s[0]].to_multiset() =~= Multiset::<NodeView>::empty().insert(s[0]));
        assert((seq![s[0]] + u).to_multiset() =~= seq![s[0]].to_multiset().add(u.to_multiset()));
        assert(s =~= seq![s[0]] + s.drop_first());
        assert(s.to_multiset() =~= seq![s[0]].to_multiset().add(s.drop_first().to_multiset()));
        assert(t.to_multiset() =~= s.to_multiset().insert(x));
    }
}

/// What the sort yields is sorted and holds exactly the input's nodes.
pub proof fn lemma_sort_props(s: Seq<NodeView>)
    ensures
        spec_sorted(spec_sort(s)),
        spec_sort(s).to_multiset() =~= s.to_multiset(),
    decreases s.len(),
{
    if s.len() > 0 {
        lemma_sort_props(s.drop_last());
        lemma_insert_sorted_sorted(spec_sort(s.drop_last()), s.last());
        lemma_insert_sorted_multiset(spec_sort(s.drop_last()), s.last());
        s.drop_last().to_multiset_ensures();
        assert(s.drop_last().push(s.last()) =~= s);
    }
}

/// Below an ordered node every directory's children are sorted.
pub open spec fn spec_all_sorted(n: NodeView) -> bool
    decreases n,
{
    if n.is_dir {
        spec_sorted(n.children) && (forall|j: int|
            0 <= j < n.children.len() ==> spec_all_sorted(#[trigger] n.children[j]))
    } else {
        true
    }
}

proof fn lemma_order_node_all_sorted(n: NodeView)
    ensures
        spec_all_sorted(spec_order_node(n)),
    decreases n,
{
    let m = spec_order_node(n);
    if !n.is_dir {
    } else {
        let each = spec_order_each(n.children);
        lemma_sort_props(each);
        assert forall|j: int| 0 <= j < m.children.len() implies spec_all_sorted(
            #[trigger] m.children[j],
        ) by {
            m.children.to_multiset_ensures();
            each.to_multiset_ensures();
            assert(m.children.to_multiset().contains(m.children[j]));
            assert(each.to_multiset().contains(m.children[j]));
            assert(each.contains(m.children[j]));
            let k = choose|k: int| 0 <= k < each.len() && each[k] == m.children[j];
            assert(each[k] == spec_order_node(n.children[k]));
            lemma_order_node_all_sorted(n.children[k]);
        }
    }
}

/// The Orderer's law: the ordered forest is a rearrangement of the
/// aggregated one — the same nodes, once ordered below — with the roots
/// sorted and every directory's children sorted, directories first and
/// case-insensitive names ascending.
pub proof fn lemma_order_forest_props(s: Seq<NodeView>)
    ensures
        spec_sorted(spec_order_forest(s)),
        spec_order_forest(s).to_multiset() =~= spec_order_each(s).to_multiset(),
        forall|i: int|
            0 <= i < spec_order_forest(s).len() ==> spec_all_sorted(
                #[trigger] spec_order_forest(s)[i],
            ),
{
    let each = spec_order_each(s);
    lemma_sort_props(each);
    assert forall|i: int| 0 <= i < spec_order_forest(s).len() implies spec_all_sorted(
        #[trigger] spec_order_forest(s)[i],
    ) by {
        spec_order_forest(s).to_multiset_ensures();
        each.to_multiset_ensures();
        assert(spec_order_forest(s).to_multiset().contains(spec_order_forest(s)[i]));
        assert(each.contains(spec_order_forest(s)[i]));
        let k = choose|k: int| 0 <= k < each.len() && each[k] == spec_order_forest(s)[i];
        assert(each[k] == spec_order_node(s[k]));
        lemma_order_node_all_sorted(s[k]);
    }
}

proof fn lemma_sort_len(s: Seq<NodeView>)
    ensures
        spec_sort(s).len() == s.len(),
    decreases s.len(),
{
    if s.len() > 0 {
        lemma_sort_len(s.drop_last());
        lemma_insert_sorted_elems(spec_sort(s.drop_last()), s.last());
    }
}

proof fn lemma_order_node_keeps_no_empty(n: NodeView)
    requires
        spec_no_empty_subdirs(n),
    ensures
        spec_no_empty_subdirs(spec_order_node(n)),
        spec_order_node(n).is_dir == n.is_dir,
        spec_order_node(n).children.len() == n.children.len(),
    decreases n,
{
    let m = spec_order_node(n);
    if !n.is_dir {
    } else {
        let each = spec_order_each(n.children);
        lemma_sort_len(each);
        assert forall|j: int| 0 <= j < m.children.len() implies spec_keep_child(
            #[trigger] m.children[j],
        ) && spec_no_empty_subdirs(m.children[j]) by {
            m.children.to_multiset_ensures();
            each.to_multiset_ensures();
            lemma_sort_props(each);
            assert(m.children.to_multiset().contains(m.children[j]));
            assert(each.contains(m.children[j]));
            let k = choose|k: int| 0 <= k < each.len() && each[k] == m.children[j];
            assert(each[k] == spec_order_node(n.children[k]));
            assert(spec_keep_child(n.children[k]) && spec_no_empty_subdirs(n.children[k]));
            lemma_order_node_keeps_no_empty(n.children[k]);
        }
    }
}

/// Ordering drops nothing: a forest with no empty directories keeps that
/// shape, at the roots and everywhere below.
pub proof fn lemma_order_forest_keeps_no_empty(s: Seq<NodeView>)
    requires
        forall|i: int|
            0 <= i < s.len() ==> spec_keep_child(#[trigger] s[i]) && spec_no_empty_subdirs(s[i]),
    ensures
        forall|i: int|
            0 <= i < spec_order_forest(s).len() ==> spec_keep_child(
                #[trigger] spec_order_forest(s)[i],
            ) && spec_no_empty_subdirs(spec_order_forest(s)[i]),
{
    let each = spec_order_each(s);
    let t = spec_order_forest(s);
    assert forall|i: int| 0 <= i < t.len() implies spec_keep_child(#[trigger] t[i])
        && spec_no_empty_subdirs(t[i]) by {
        t.to_multiset_ensures();
        each.to_multiset_ensures();
        lemma_sort_props(each);
        assert(t.to_multiset().contains(t[i]));
        assert(each.contains(t[i]));
        let k = choose|k: int| 0 <= k < each.len() && each[k] == t[i];
        assert(each[k] == spec_order_node(s[k]));
        lemma_order_node_keeps_no_empty(s[k]);
    }
}

// ---------- ordering leaves the sums alone ----------

proof fn lemma_insert_sorted_sums(s: Seq<NodeView>, x: NodeView)
    ensures
        forest_leaf_size_sum(spec_insert_sorted(s, x)) == forest_leaf_size_sum(s) + leaf_size_sum(
            x,
        ),
        forest_leaf_token_sum(spec_insert_sorted(s, x)) == forest_leaf_token_sum(s)
            + leaf_token_sum(x),
    decreases s.len(),
{
    if s.len() == 0 {
        let t = seq![x];
        assert(t[0] == x);
        assert(t.drop_first() =~= Seq::<NodeView>::empty());
        assert(forest_leaf_size_sum(t) == leaf_size_sum(x) + forest_leaf_size_sum(
            Seq::<NodeView>::empty(),
        ));
        assert(forest_leaf_token_sum(t) == leaf_token_sum(x) + forest_leaf_token_sum(
            Seq::<NodeView>::empty(),
        ));
    } else if spec_node_lt(x, s[0]) {
        let t = seq![x] + s;
        assert(t[0] == x);
        assert(t.drop_first() =~= s);
    } else {
        lemma_insert_sorted_sums(s.drop_first(), x);
        let t = seq![s[0]] + spec_insert_sorted(s.drop_first(), x);
        assert(t[0] == s[0]);
        assert(t.drop_first() =~= spec_insert_sorted(s.drop_first(), x));
    }
}

proof fn lemma_sort_sums(s: Seq<NodeView>)
    ensures
        forest_leaf_size_sum(spec_sort(s)) == forest_leaf_size_sum(s),
        forest_leaf_token_sum(spec_sort(s)) == forest_leaf_token_sum(s),
    decreases s.len(),
{
    if s.len() > 0 {
        lemma_sort_sums(s.drop_last());
        lemma_insert_sorted_sums(spec_sort(s.drop_last()), s.last());
        crate::node::lemma_forest_sum_push(s.drop_last(), s.last());
        assert(s.drop_last().push(s.last()) =~= s);
    }
}

proof fn lemma_order_each_sums(s: Seq<NodeView>)
    ensures
        forest_leaf_size_sum(spec_order_each(s)) == forest_leaf_size_sum(s),
        forest_leaf_token_sum(spec_order_each(s)) == forest_leaf_token_sum(s),
    decreases s,
{
    if s.len() > 0 {
        lemma_order_node_sums(s[0]);
        lemma_order_each_sums(s.drop_first());
        assert(spec_order_each(s).drop_first() =~= spec_order_each(s.drop_first()));
        assert(spec_order_each(s)[0] == spec_order_node(s[0]));
    }
}

proof fn lemma_order_node_sums(n: NodeView)
    ensures
        leaf_size_sum(spec_order_node(n)) == leaf_size_sum(n),
        leaf_token_sum(spec_order_node(n)) == leaf_token_sum(n),
    decreases n,
{
    if n.is_dir {
        lemma_order_each_sums(n.children);
        lemma_sort_sums(spec_order_each(n.children));
    }
}

/// Ordering a forest rearranges it only: every leaf sum stays.
pub proof fn lemma_order_forest_sums(s: Seq<NodeView>)
    ensures
        forest_leaf_size_sum(spec_order_forest(s)) == forest_leaf_size_sum(s),
        forest_leaf_token_sum(spec_order_forest(s)) == forest_leaf_token_sum(s),
{
    lemma_order_each_sums(s);
    lemma_sort_sums(spec_order_each(s));
}

// ---------- runtime ordering ----------

fn node_lt(a: &FileNode, b: &FileNode) -> (r: bool)
    ensures
        r == spec_node_lt(a@, b@),
{
    if a.is_dir != b.is_dir {
        a.is_dir
    } else {
        let la = to_lower(a.name.as_str());
        let lb = to_lower(b.name.as_str());
        str_lex_lt(la.as_str(), lb.as_str())
    }
}

proof fn lemma_insert_sorted_at(s: Seq<NodeView>, x: NodeView, j: int)
    requires
        0 <= j <= s.len(),
        forall|k: int| 0 <= k < j ==> !spec_node_lt(x, #[trigger] s[k]),
        j == s.len() || spec_node_lt(x, s[j]),
    ensures
        spec_insert_sorted(s, x) == s.insert(j, x),
    decreases j,
{
    if s.len() == 0 {
        assert(spec_insert_sorted(s, x) =~= s.insert(0, x));
    } else if j == 0 {
        assert(seq![x] + s =~= s.insert(0, x));
    } else {
        lemma_insert_sorted_at(s.drop_first(), x, j - 1);
        assert(seq![s[0]] + s.drop_first().insert(j - 1, x) =~= s.insert(j, x));
    }
}

fn insert_sorted_vec(sorted: Vec<FileNode>, x: FileNode) -> (r: Vec<FileNode>)
    ensures
        forest_view(r@) == spec_insert_sorted(forest_view(sorted@), x@),
{
    let ghost sv = forest_view(sorted@);
    let mut out = sorted;
    let mut j: usize = 0;
    while j < out.len() && !node_lt(&x, &out[j])
        invariant
            sv == forest_view(out@),
            j <= out@.len(),
            forall|k: int| 0 <= k < j ==> !spec_node_lt(x@, #[trigger] sv[k]),
        decreases out@.len() - j,
    {
        proof {
            assert(sv[j as int] == out@[j as int]@);
        }
        j = j + 1;
    }
    proof {
        if j < out@.len() {
            assert(sv[j as int] == out@[j as int]@);
        }
        lemma_insert_sorted_at(sv, x@, j as int);
    }
    out.insert(j, x);
    proof {
        assert forall|i: int| 0 <= i < out@.len() implies forest_view(out@)[i] == sv.insert(
            j as int,
            x@,
        )[i] by {
            if i < j {
            } else if i == j {
            } else {
            }
        }
        assert(forest_view(out@) =~= sv.insert(j as int, x@));
    }
    out
}

fn order_node(n: FileNode) -> (r: FileNode)
    ensures
        r@ == spec_order_node(n@),
    decreases n,
{
    if !n.is_dir {
        return n;
    }
    let ghost n0 = n;
    let FileNode { path, name, is_dir, token_count, children, size } = n;
    let ghost cv = n0@.children;
    let mut rest: Vec<FileNode> = children;
    let ghost orig: Seq<FileNode> = rest@;
    let mut done: Vec<FileNode> = Vec::new();
    while rest.len() > 0
        invariant
            n == n0,
            n0.is_dir,
            orig == n0.children@,
            cv == n0@.children,
            done@.len() + rest@.len() == orig.len(),
            rest@ == orig.skip(done@.len() as int),
            forall|j: int|
                0 <= j < done@.len() ==> #[trigger] done@[j]@ == spec_order_node(cv[j]),
        decreases rest@.len(),
    {
        let ghost k = done@.len() as int;
        let c = rest.remove(0);
        proof {
            broadcast use vstd::std_specs::vec::group_vec_axioms;

            assert(c == orig[k]);
            assert(decreases_to!(n0 => n0.children));
            assert(decreases_to!(n0.children => n0.children@));
            assert(decreases_to!(n0.children@ => n0.children@[k]));
            assert(decreases_to!(n0 => c));
            assert(rest@ =~= orig.skip(k + 1));
            assert(cv[k] == c@);
        }
        let c2 = order_node(c);
        done.push(c2);
    }
    let ghost ov = spec_order_each(cv);
    proof {
        assert forall|j: int| 0 <= j < done@.len() implies #[trigger] done@[j]@ == ov[j] by {
            assert(done@[j]@ == spec_order_node(cv[j]));
        }
    }
    // stable insertion sort over the ordered children
    let mut all = done;
    let ghost allorig = all@;
    let mut kept: Vec<FileNode> = Vec::new();
    proof {
        assert(ov.take(0) =~= Seq::<NodeView>::empty());
        assert(forest_view(kept@) =~= spec_sort(ov.take(0)));
    }
    while all.len() > 0
        invariant
            ov == spec_order_each(cv),
            allorig.len() == ov.len(),
            forall|j: int| 0 <= j < ov.len() ==> #[trigger] allorig[j]@ == ov[j],
            all@.len() <= allorig.len(),
            all@ == allorig.skip(allorig.len() - all@.len()),
            forest_view(kept@) == spec_sort(ov.take(allorig.len() - all@.len())),
        decreases all@.len(),
    {
        let ghost jj = allorig.len() - all@.len();
        let c = all.remove(0);
        proof {
            assert(c == allorig[jj]);
            assert(c@ == ov[jj]);
            assert(all@ =~= allorig.skip(jj + 1));
            assert(ov.take(jj + 1).drop_last() =~= ov.take(jj));
            assert(ov.take(jj + 1).last() == ov[jj]);
        }
        kept = insert_sorted_vec(kept, c);
    }
    proof {
        assert(ov.take(ov.len() as int) =~= ov);
    }
    let r = FileNode { path, name, is_dir, token_count, children: kept, size };
    proof {
        let m = spec_order_node(n0@);
        assert forall|i: int| 0 <= i < r.children@.len() implies r@.children[i] == forest_view(
            kept@,
        )[i] by {
            assert(r@.children[i] == node_view(r.children@[i]));
        }
        assert(r@.children =~= spec_sort(spec_order_each(cv)));
        assert(r@ =~= m);
    }
    r
}

/// Impose the display order on a forest, the roots included (the
/// Orderer).
pub fn order(nodes: Vec<FileNode>) -> (r: Vec<FileNode>)
    ensures
        forest_view(r@) == spec_order_forest(forest_view(nodes@)),
{
    let holder = FileNode {
        path: String::new(),
        name: String::new(),
        is_dir: true,
        token_count: None,
        children: nodes,
        size: None,
    };
    proof {
        assert(holder@.children =~= forest_view(holder.children@));
    }
    let folded = order_node(holder);
    let r = folded.children;
    proof {
        assert(forest_view(r@) =~= folded@.children);
    }
    r
}

} // verus!
