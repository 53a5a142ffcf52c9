//! Two trees that differ only in the positions of their nodes: what one holds
//! at a position, the other holds at the position that a one-to-one map
//! assigns to it, and the edges go along. The search finds the same clusters
//! in both, and the same labels are extracted.

use vstd::prelude::*;
use vstd::relations::total_ordering;
use vstd::seq_lib::lemma_sorted_unique;
use vstd::set_lib::{lemma_int_range, lemma_len_subset, lemma_map_size, lemma_subset_equality, set_int_range};
use crate::clusters::NodeW;
use crate::labels::{
    group_le, label_le, lemma_group_order, lemma_label_order, lemma_map_same_items,
    lemma_same_items,
};
use crate::model::{has_edge, is_path, links, TreeView};
use crate::seqs::lemma_ascending;
use crate::stats::StatsView;
use crate::tree::lemma_first_step;

verus! {

/// Two nodes carry the same label and the same flags.
pub open spec fn same_node(one: NodeW, other: NodeW) -> bool {
    &&& one.label@ == other.label@
    &&& one.is_tip == other.is_tip
    &&& one.is_target == other.is_target
}

/// The map of positions that a sequence stands for.
pub open spec fn at(to: Seq<int>) -> spec_fn(int) -> int {
    |i: int| to[i]
}

/// `to` sends each position to a position, and no two to the same.
pub open spec fn is_permutation(to: Seq<int>) -> bool {
    &&& forall|i: int| 0 <= i < to.len() ==> 0 <= #[trigger] to[i] < to.len()
    &&& to.no_duplicates()
}

/// `b` is `a` with the node at position `i` moved to `to[i]`: the nodes carry
/// the same, an edge joins two nodes of `a` just where one joins the two in
/// `b`, and a node has one parent in both or in neither.
pub open spec fn is_relabelling(a: TreeView, b: TreeView, to: Seq<int>) -> bool {
    &&& a.edges_in_bounds()
    &&& b.edges_in_bounds()
    &&& to.len() == a.nodes.len()
    &&& b.nodes.len() == a.nodes.len()
    &&& is_permutation(to)
    &&& forall|i: int| 0 <= i < to.len() ==> same_node(a.nodes[i], b.nodes[#[trigger] to[i]])
    &&& forall|x: int, y: int|
        0 <= x < to.len() && 0 <= y < to.len() ==> (has_edge(a.edges, x, y) <==> has_edge(
            b.edges,
            #[trigger] to[x],
            #[trigger] to[y],
        ))
    &&& forall|x: int| 0 <= x < to.len() ==> (a.has_one_parent(x) <==> b.has_one_parent(#[trigger] to[x]))
}

/// The way back: the position that `to` sends to `j`.
pub open spec fn inverse(to: Seq<int>) -> Seq<int> {
    Seq::new(to.len(), |j: int| to.index_of(j))
}

/// A permutation reaches every position, and its inverse leads back.
pub proof fn lemma_inverse(to: Seq<int>)
    requires
        is_permutation(to),
    ensures
        is_permutation(inverse(to)),
        inverse(to).len() == to.len(),
        forall|i: int| 0 <= i < to.len() ==> inverse(to)[#[trigger] to[i]] == i,
        forall|j: int| 0 <= j < to.len() ==> to[#[trigger] inverse(to)[j]] == j,
{
    let n = to.len() as int;
    let all = set_int_range(0, n);
    lemma_int_range(0, n);
    to.unique_seq_to_set();
    lemma_len_subset(to.to_set(), all);
    lemma_subset_equality(to.to_set(), all);
    let back = inverse(to);
    assert forall|j: int| 0 <= j < n implies to[#[trigger] back[j]] == j && 0 <= back[j] < n by {
        assert(all.contains(j));
    }
}

/// A path in `a` is a path in `b`, position by position.
pub proof fn lemma_path_relabelled(a: TreeView, b: TreeView, to: Seq<int>, path: Seq<int>)
    requires
        is_relabelling(a, b, to),
        is_path(a.edges, path),
        a.has_node(path[0]),
    ensures
        is_path(b.edges, path.map_values(at(to))),
{
    let image = path.map_values(at(to));
    assert forall|i: int| 0 <= i < image.len() - 1 implies #[trigger] links(b.edges, image, i) by {
        assert(links(a.edges, path, i));
        a.lemma_path_in_bounds(path, i);
        a.lemma_path_in_bounds(path, i + 1);
    }
}

/// What `x` reaches in `a`, its image reaches in `b`.
pub proof fn lemma_reaches_forward(a: TreeView, b: TreeView, to: Seq<int>, x: int, y: int)
    requires
        is_relabelling(a, b, to),
        a.has_node(x),
    ensures
        a.reaches(x, y) ==> a.has_node(y) && b.reaches(to[x], to[y]),
        a.is_ancestor(x, y) ==> a.has_node(y) && b.is_ancestor(to[x], to[y]),
{
    if a.reaches(x, y) {
        let path = choose|path: Seq<int>|
            #[trigger] is_path(a.edges, path) && path.first() == x && path.last() == y;
        lemma_path_relabelled(a, b, to, path);
        a.lemma_reaches_in_bounds(x, y);
    }
    if a.is_ancestor(x, y) {
        let path = choose|path: Seq<int>|
            #[trigger] is_path(a.edges, path) && path.len() >= 2 && path.first() == x && path.last()
                == y;
        lemma_path_relabelled(a, b, to, path);
        a.lemma_reaches_in_bounds(x, y);
        let image = path.map_values(at(to));
        assert(is_path(b.edges, image) && image.len() >= 2 && image.first() == to[x] && image.last()
            == to[y]);
    }
}

/// The way back is a relabelling too.
pub proof fn lemma_relabelling_back(a: TreeView, b: TreeView, to: Seq<int>)
    requires
        is_relabelling(a, b, to),
    ensures
        is_relabelling(b, a, inverse(to)),
{
    lemma_inverse(to);
    assert(is_permutation(inverse(to)));
}

/// Reaching is the same in both trees.
pub proof fn lemma_reaches_relabelled(a: TreeView, b: TreeView, to: Seq<int>, x: int, y: int)
    requires
        is_relabelling(a, b, to),
        a.has_node(x),
        a.has_node(y),
    ensures
        a.reaches(x, y) <==> b.reaches(to[x], to[y]),
        a.is_ancestor(x, y) <==> b.is_ancestor(to[x], to[y]),
{
    lemma_reaches_forward(a, b, to, x, y);
    lemma_inverse(to);
    lemma_relabelling_back(a, b, to);
    lemma_reaches_forward(b, a, inverse(to), to[x], to[y]);
}

/// The clade of a node of `b` holds the images of the clade of the node
/// in `a`, tips as tips and targets as targets, so the statistics agree.
pub proof fn lemma_clade_relabelled(a: TreeView, b: TreeView, to: Seq<int>, x: int)
    requires
        is_relabelling(a, b, to),
        a.has_node(x),
    ensures
        b.tips_below(to[x]) == a.tips_below(x).map(at(to)),
        b.targets_below(to[x]) == a.targets_below(x).map(at(to)),
        b.clade_stats(to[x]) == a.clade_stats(x),
{
    lemma_inverse(to);
    let back = inverse(to);
    assert forall|y: int| b.tips_below(to[x]).contains(y) <==> a.tips_below(x).map(at(to)).contains(
        y,
    ) by {
        if b.tips_below(to[x]).contains(y) {
            let t = back[y];
            lemma_reaches_relabelled(a, b, to, x, t);
            assert(a.tips_below(x).contains(t));
        }
        if a.tips_below(x).map(at(to)).contains(y) {
            let t = choose|t: int| a.tips_below(x).contains(t) && at(to)(t) == y;
            lemma_reaches_relabelled(a, b, to, x, t);
        }
    }
    assert forall|y: int| b.targets_below(to[x]).contains(y) <==> a.targets_below(x).map(
        at(to),
    ).contains(y) by {
        if b.targets_below(to[x]).contains(y) {
            let t = back[y];
            lemma_reaches_relabelled(a, b, to, x, t);
            assert(a.targets_below(x).contains(t));
        }
        if a.targets_below(x).map(at(to)).contains(y) {
            let t = choose|t: int| a.targets_below(x).contains(t) && at(to)(t) == y;
            lemma_reaches_relabelled(a, b, to, x, t);
        }
    }
    assert(b.tips_below(to[x]) =~= a.tips_below(x).map(at(to)));
    assert(b.targets_below(to[x]) =~= a.targets_below(x).map(at(to)));
    a.lemma_clade_finite(x);
    lemma_map_size(a.tips_below(x), b.tips_below(to[x]), at(to));
    lemma_map_size(a.targets_below(x), b.targets_below(to[x]), at(to));
}

/// A node is a root, or a leaf, in both trees or in neither.
pub proof fn lemma_ends_relabelled(a: TreeView, b: TreeView, to: Seq<int>, x: int)
    requires
        is_relabelling(a, b, to),
        a.has_node(x),
    ensures
        a.is_root(x) <==> b.is_root(to[x]),
        a.is_leaf(x) <==> b.is_leaf(to[x]),
{
    lemma_inverse(to);
    let back = inverse(to);
    if !a.is_root(x) {
        let k = choose|k: int| 0 <= k < a.edges.len() && (#[trigger] a.edges[k]).1 == x;
        let p = a.edges[k].0;
        let j = choose|j: int| 0 <= j < b.edges.len() && #[trigger] b.edges[j] == (to[p], to[x]);
        assert(b.edges[j].1 == to[x]);
    }
    if !b.is_root(to[x]) {
        let k = choose|k: int| 0 <= k < b.edges.len() && (#[trigger] b.edges[k]).1 == to[x];
        let q = b.edges[k].0;
        let j = choose|j: int| 0 <= j < a.edges.len() && #[trigger] a.edges[j] == (back[q], x);
        assert(a.edges[j].1 == x);
    }
    if !a.is_leaf(x) {
        let k = choose|k: int| 0 <= k < a.edges.len() && (#[trigger] a.edges[k]).0 == x;
        let c = a.edges[k].1;
        let j = choose|j: int| 0 <= j < b.edges.len() && #[trigger] b.edges[j] == (to[x], to[c]);
        assert(b.edges[j].0 == to[x]);
    }
    if !b.is_leaf(to[x]) {
        let k = choose|k: int| 0 <= k < b.edges.len() && (#[trigger] b.edges[k]).0 == to[x];
        let q = b.edges[k].1;
        let j = choose|j: int| 0 <= j < a.edges.len() && #[trigger] a.edges[j] == (x, back[q]);
        assert(a.edges[j].0 == x);
    }
}

/// Where `a` is a tree, so is `b`, and its root is the image of the root.
pub proof fn lemma_tree_relabelled(a: TreeView, b: TreeView, to: Seq<int>)
    requires
        is_relabelling(a, b, to),
        a.is_tree(),
    ensures
        b.is_tree(),
        b.root() == to[a.root()],
{
    lemma_inverse(to);
    let back = inverse(to);
    a.lemma_root();
    let root = to[a.root()];
    lemma_ends_relabelled(a, b, to, a.root());
    assert forall|s: int| b.is_root(s) implies s == root by {
        lemma_ends_relabelled(a, b, to, back[s]);
    }
    b.lemma_root();
    assert forall|c: int| b.has_node(c) && c != b.root() implies #[trigger] b.has_one_parent(c) by {
        assert(to[back[c]] == c);
    }
    assert forall|x: int| b.has_node(x) implies #[trigger] b.reaches(b.root(), x) by {
        lemma_reaches_relabelled(a, b, to, a.root(), back[x]);
    }
    assert forall|x: int| b.has_node(x) implies ((#[trigger] b.nodes[x]).is_tip <==> b.is_leaf(x)) by {
        lemma_ends_relabelled(a, b, to, back[x]);
    }
}

/// A node is a cluster root in both trees or in neither.
pub proof fn lemma_cluster_root_relabelled(
    a: TreeView,
    b: TreeView,
    to: Seq<int>,
    threshold: StatsView,
    n: int,
)
    requires
        is_relabelling(a, b, to),
        a.is_tree(),
        a.has_node(n),
    ensures
        a.is_cluster_root(threshold, n) <==> b.is_cluster_root(threshold, to[n]),
{
    lemma_inverse(to);
    let back = inverse(to);
    lemma_tree_relabelled(a, b, to);
    lemma_clade_relabelled(a, b, to, n);
    if a.is_cluster_root(threshold, n) {
        assert forall|above: int| #[trigger] b.is_ancestor(above, to[n]) implies !b.qualifies(
            threshold,
            above,
        ) by {
            lemma_first_step(b.edges, above, to[n]);
            lemma_reaches_relabelled(a, b, to, back[above], n);
            lemma_clade_relabelled(a, b, to, back[above]);
        }
    }
    if b.is_cluster_root(threshold, to[n]) {
        assert forall|above: int| #[trigger] a.is_ancestor(above, n) implies !a.qualifies(
            threshold,
            above,
        ) by {
            lemma_first_step(a.edges, above, n);
            lemma_reaches_relabelled(a, b, to, above, n);
            lemma_clade_relabelled(a, b, to, above);
        }
    }
}

/// Sequences that hold each item as often as one another are the same once
/// sorted.
pub proof fn lemma_sort_same_items<A>(x: Seq<A>, y: Seq<A>, le: spec_fn(A, A) -> bool)
    requires
        total_ordering(le),
        x.to_multiset() == y.to_multiset(),
    ensures
        x.sort_by(le) == y.sort_by(le),
{
    x.lemma_sort_by_ensures(le);
    y.lemma_sort_by_ensures(le);
    lemma_sorted_unique(x.sort_by(le), y.sort_by(le), le);
}

/// The labels of a clade are the same in both trees.
pub proof fn lemma_labels_relabelled(a: TreeView, b: TreeView, to: Seq<int>, x: int)
    requires
        is_relabelling(a, b, to),
        a.has_node(x),
    ensures
        b.clade_labels(to[x]) == a.clade_labels(x),
{
    let n = a.nodes.len() as int;
    let tips_a = a.tips_in_order(x);
    let tips_b = b.tips_in_order(to[x]);
    lemma_ascending(a.tips_below(x), n);
    lemma_ascending(b.tips_below(to[x]), n);
    lemma_clade_relabelled(a, b, to, x);
    let moved = tips_a.map_values(at(to));
    assert forall|y: int| moved.to_set().contains(y) <==> tips_b.to_set().contains(y) by {
        if moved.to_set().contains(y) {
            assert(a.tips_below(x).map(at(to)).contains(y));
        }
        if tips_b.to_set().contains(y) {
            let t = choose|t: int| a.tips_below(x).contains(t) && at(to)(t) == y;
            let j = tips_a.index_of(t);
            assert(moved[j] == y);
        }
    }
    assert(moved.to_set() =~= tips_b.to_set());
    lemma_same_items(moved, tips_b);
    lemma_map_same_items(moved, tips_b, b.label_at());
    assert(moved.map_values(b.label_at()) =~= tips_a.map_values(a.label_at())) by {
    }
    lemma_label_order();
    lemma_sort_same_items(
        tips_a.map_values(a.label_at()),
        tips_b.map_values(b.label_at()),
        label_le(),
    );
}

/// The same clusters, the same labels: the search and the extraction do not
/// depend on the positions of the nodes, nor on the order of the edges.
pub proof fn lemma_groups_relabelled(a: TreeView, b: TreeView, to: Seq<int>, threshold: StatsView)
    requires
        is_relabelling(a, b, to),
        a.is_tree(),
        threshold.wf(),
    ensures
        b.is_tree(),
        b.label_groups(b.cluster_roots(threshold)) == a.label_groups(a.cluster_roots(threshold)),
{
    lemma_inverse(to);
    let back = inverse(to);
    lemma_tree_relabelled(a, b, to);
    a.lemma_cluster_roots(threshold);
    b.lemma_cluster_roots(threshold);
    let roots_a = a.cluster_roots(threshold);
    let roots_b = b.cluster_roots(threshold);
    let moved = roots_a.map_values(at(to));
    assert forall|i: int| 0 <= i < roots_a.len() implies a.has_node(#[trigger] roots_a[i]) by {
        assert(roots_a.contains(roots_a[i]));
    }
    assert forall|y: int| moved.to_set().contains(y) <==> roots_b.to_set().contains(y) by {
        if moved.to_set().contains(y) {
            let i = moved.index_of(y);
            lemma_cluster_root_relabelled(a, b, to, threshold, roots_a[i]);
        }
        if roots_b.to_set().contains(y) {
            lemma_cluster_root_relabelled(a, b, to, threshold, back[y]);
            let i = roots_a.index_of(back[y]);
            assert(moved[i] == y);
        }
    }
    assert(moved.to_set() =~= roots_b.to_set());
    lemma_same_items(moved, roots_b);
    let labels_b = |r: int| b.clade_labels(r);
    lemma_map_same_items(moved, roots_b, labels_b);
    let groups_a = Seq::new(roots_a.len(), |i: int| a.clade_labels(roots_a[i]));
    let groups_b = Seq::new(roots_b.len(), |i: int| b.clade_labels(roots_b[i]));
    assert(groups_b =~= roots_b.map_values(labels_b));
    assert(groups_a =~= moved.map_values(labels_b)) by {
        assert forall|i: int| 0 <= i < roots_a.len() implies groups_a[i] == moved.map_values(
            labels_b,
        )[i] by {
            lemma_labels_relabelled(a, b, to, roots_a[i]);
        }
    }
    lemma_group_order();
    lemma_sort_same_items(groups_a, groups_b, group_le());
}

} // verus!
