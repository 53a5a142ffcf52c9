//! What holds of the clusters that the search returns, whatever the tree and
//! the threshold.

use vstd::prelude::*;
use vstd::relations::sorted_by;
use vstd::seq_lib::{to_multiset_contains, to_multiset_len};
use crate::clusters::is_annotation;
use crate::io::{
    has_dangling_row, has_row, has_unique_numbers, lemma_tree_has_unique_numbers,
    lemma_tree_of_rows, tree_of_rows, Phylo4Row,
};
use crate::labels::{
    group_le, label_le, lemma_group_order, lemma_label_order, lemma_map_same_items,
};
use crate::model::{has_edge, TreeView};
use crate::relabel::{
    inverse, is_permutation, is_relabelling, lemma_groups_relabelled, lemma_inverse,
    lemma_sort_same_items, };
use crate::stats::{lemma_qualifying_has_min_targets, StatsView};
use crate::tree::{lemma_edge_reaches, lemma_reaches_cases};

verus! {

/// Disjointness: no cluster root lies in the clade of another.
pub proof fn law_disjoint(tree: TreeView, threshold: StatsView, i: int, j: int)
    requires
        tree.is_tree(),
        threshold.wf(),
        0 <= i < tree.cluster_roots(threshold).len(),
        0 <= j < tree.cluster_roots(threshold).len(),
        i != j,
    ensures
        !tree.reaches(tree.cluster_roots(threshold)[i], tree.cluster_roots(threshold)[j]),
{
    let roots = tree.cluster_roots(threshold);
    tree.lemma_cluster_roots(threshold);
    assert(roots.contains(roots[i]) && roots.contains(roots[j]));
    lemma_reaches_cases(tree.edges, roots[i], roots[j]);
    if tree.reaches(roots[i], roots[j]) {
        assert(tree.is_ancestor(roots[i], roots[j]));
    }
}

/// Soundness: the clade of a cluster root reaches the threshold in size and
/// in its proportion of targets.
pub proof fn law_sound(tree: TreeView, threshold: StatsView, i: int)
    requires
        tree.is_tree(),
        threshold.wf(),
        0 <= i < tree.cluster_roots(threshold).len(),
    ensures
        tree.clade_size(tree.cluster_roots(threshold)[i]) >= threshold.size,
        tree.clade_targets(tree.cluster_roots(threshold)[i]) * threshold.prop_den
            >= threshold.prop_num * tree.clade_size(tree.cluster_roots(threshold)[i]),
        tree.clade_targets(tree.cluster_roots(threshold)[i]) >= threshold.targets,
{
    let roots = tree.cluster_roots(threshold);
    tree.lemma_cluster_roots(threshold);
    assert(roots.contains(roots[i]));
    lemma_qualifying_has_min_targets(
        tree.clade_size(roots[i]),
        tree.clade_targets(roots[i]),
        threshold,
    );
}

/// Maximality: the parent of a cluster root does not qualify, nor does any
/// other node above it.
pub proof fn law_maximal(tree: TreeView, threshold: StatsView, i: int, above: int)
    requires
        tree.is_tree(),
        threshold.wf(),
        0 <= i < tree.cluster_roots(threshold).len(),
        has_edge(tree.edges, above, tree.cluster_roots(threshold)[i]) || tree.is_ancestor(
            above,
            tree.cluster_roots(threshold)[i],
        ),
    ensures
        !tree.qualifies(threshold, above),
{
    let roots = tree.cluster_roots(threshold);
    tree.lemma_cluster_roots(threshold);
    assert(roots.contains(roots[i]));
    if has_edge(tree.edges, above, roots[i]) {
        lemma_edge_reaches(tree.edges, above, roots[i]);
    }
    assert(tree.is_ancestor(above, roots[i]));
}

/// Completeness: a node that is the root or no tip, whose clade qualifies
/// while no clade around it does, is a cluster root.
pub proof fn law_complete(tree: TreeView, threshold: StatsView, n: int)
    requires
        tree.is_tree(),
        threshold.wf(),
        tree.is_cluster_root(threshold, n),
    ensures
        tree.cluster_roots(threshold).contains(n),
{
    tree.lemma_cluster_roots(threshold);
}

/// Pruning is sound: a clade with fewer targets than the threshold asks for
/// holds no cluster root.
pub proof fn law_pruning_sound(tree: TreeView, threshold: StatsView, a: int, i: int)
    requires
        tree.is_tree(),
        threshold.wf(),
        tree.clade_targets(a) < threshold.targets,
        0 <= i < tree.cluster_roots(threshold).len(),
    ensures
        !tree.reaches(a, tree.cluster_roots(threshold)[i]),
{
    let roots = tree.cluster_roots(threshold);
    if tree.reaches(a, roots[i]) {
        law_sound(tree, threshold, i);
        tree.lemma_clade_monotone(a, roots[i]);
    }
}

/// A tree without a target has no cluster, whatever proportion over 0 is
/// asked for.
pub proof fn law_no_targets_no_clusters(tree: TreeView, threshold: StatsView)
    requires
        tree.is_tree(),
        threshold.wf(),
        threshold.prop_num > 0,
        forall|t: int| 0 <= t < tree.nodes.len() ==> !(#[trigger] tree.nodes[t]).is_target,
    ensures
        tree.cluster_roots(threshold) == Seq::<int>::empty(),
{
    let roots = tree.cluster_roots(threshold);
    if roots.len() > 0 {
        let n = roots[0];
        tree.lemma_cluster_roots(threshold);
        assert(roots.contains(n));
        tree.lemma_clade_has_size(n);
        assert(tree.targets_below(n) =~= Set::<int>::empty());
        assert(threshold.prop_num * tree.clade_size(n) > 0) by (nonlinear_arith)
            requires
                threshold.prop_num > 0,
                tree.clade_size(n) > 0,
        ;
        assert(0 * threshold.prop_den == 0);
    }
}

/// Annotating with no targets at all leaves no cluster to find, whatever
/// proportion over 0 is asked for.
pub proof fn law_empty_target_set(before: TreeView, tree: TreeView, threshold: StatsView)
    requires
        is_annotation(before, tree, Seq::<Seq<char>>::empty()),
        tree.is_tree(),
        threshold.wf(),
        threshold.prop_num > 0,
    ensures
        tree.cluster_roots(threshold) == Seq::<int>::empty(),
{
    law_no_targets_no_clusters(tree, threshold);
}

/// What is extracted is a function of the tree and the cluster roots: two
/// results for the same roots are the same.
pub proof fn law_extraction_repeats(
    tree: TreeView,
    roots: Seq<int>,
    first: Seq<Seq<Seq<char>>>,
    second: Seq<Seq<Seq<char>>>,
)
    requires
        first == tree.label_groups(roots),
        second == tree.label_groups(roots),
    ensures
        first == second,
{
}

/// What is extracted is sorted: the labels within each group, and the groups
/// among themselves; and there is a group for each root.
pub proof fn law_extraction_sorted(tree: TreeView, roots: Seq<int>, i: int)
    requires
        0 <= i < roots.len(),
    ensures
        tree.label_groups(roots).len() == roots.len(),
        sorted_by(tree.label_groups(roots), group_le()),
        sorted_by(tree.label_groups(roots)[i], label_le()),
{
    let groups = Seq::new(roots.len(), |i: int| tree.clade_labels(roots[i]));
    let sorted = tree.label_groups(roots);
    lemma_group_order();
    lemma_label_order();
    groups.lemma_sort_by_ensures(group_le());
    to_multiset_len(groups);
    to_multiset_len(sorted);
    to_multiset_contains(groups, sorted[i]);
    to_multiset_contains(sorted, sorted[i]);
    let k = groups.index_of(sorted[i]);
    tree.tips_in_order(roots[k]).map_values(tree.label_at()).lemma_sort_by_ensures(label_le());
}

/// What is extracted does not depend on the order in which the roots are
/// given.
pub proof fn law_root_order(tree: TreeView, roots: Seq<int>, reordered: Seq<int>)
    requires
        roots.to_multiset() == reordered.to_multiset(),
    ensures
        tree.label_groups(reordered) == tree.label_groups(roots),
{
    let labels = |r: int| tree.clade_labels(r);
    let groups = Seq::new(roots.len(), |i: int| tree.clade_labels(roots[i]));
    let others = Seq::new(reordered.len(), |i: int| tree.clade_labels(reordered[i]));
    assert(groups =~= roots.map_values(labels));
    assert(others =~= reordered.map_values(labels));
    lemma_map_same_items(roots, reordered, labels);
    lemma_group_order();
    lemma_sort_same_items(groups, others, group_le());
}

/// Every tip of a tree lies in the clade of the root.
pub proof fn law_root_clade_holds_all_tips(tree: TreeView)
    requires
        tree.is_tree(),
    ensures
        tree.tips_below(tree.root()) == tree.all_tips(),
{
}

/// Where the root qualifies, it is the one cluster root, and its clade holds
/// every tip.
pub proof fn law_root_qualifies(tree: TreeView, threshold: StatsView)
    requires
        tree.is_tree(),
        tree.qualifies(threshold, tree.root()),
    ensures
        tree.cluster_roots(threshold) == seq![tree.root()],
        tree.tips_below(tree.root()) == tree.all_tips(),
{
    law_root_clade_holds_all_tips(tree);
}

/// A minimum size over the number of tips of the tree leaves no cluster.
pub proof fn law_size_over_tip_count(tree: TreeView, threshold: StatsView)
    requires
        tree.is_tree(),
        threshold.wf(),
        threshold.size > tree.all_tips().len(),
    ensures
        tree.cluster_roots(threshold) == Seq::<int>::empty(),
{
    let roots = tree.cluster_roots(threshold);
    law_root_clade_holds_all_tips(tree);
    if roots.len() > 0 {
        let n = roots[0];
        law_sound(tree, threshold, 0);
        assert(tree.reaches(tree.root(), n)) by {
            tree.lemma_cluster_roots(threshold);
            assert(roots.contains(n));
        }
        tree.lemma_clade_monotone(tree.root(), n);
    }
}

/// `reordered` holds the rows of `rows`, row `i` at place `to[i]`.
pub open spec fn is_reordering(rows: Seq<Phylo4Row>, reordered: Seq<Phylo4Row>, to: Seq<int>) -> bool {
    &&& to.len() == rows.len()
    &&& reordered.len() == rows.len()
    &&& is_permutation(to)
    &&& forall|i: int| 0 <= i < rows.len() ==> reordered[#[trigger] to[i]] == rows[i]
}

/// The trees of a table and of the same rows in another order differ in the
/// positions of their nodes only.
pub proof fn lemma_reordered_rows(rows: Seq<Phylo4Row>, reordered: Seq<Phylo4Row>, to: Seq<int>)
    requires
        has_unique_numbers(rows),
        !has_dangling_row(rows),
        is_reordering(rows, reordered, to),
    ensures
        has_unique_numbers(reordered),
        !has_dangling_row(reordered),
        is_relabelling(tree_of_rows(rows), tree_of_rows(reordered), to),
{
    lemma_inverse(to);
    let back = inverse(to);
    let n = rows.len() as int;
    assert forall|j: int| 0 <= j < n implies #[trigger] reordered[j] == rows[back[j]] by {}
    assert forall|k: int| 0 <= k < n && (#[trigger] reordered[k]).ancestor != 0 implies has_row(
        reordered,
        reordered[k].ancestor,
    ) by {
        let p = choose|p: int| 0 <= p < rows.len() && (#[trigger] rows[p]).node == rows[back[k]].ancestor;
        assert(reordered[to[p]].node == reordered[k].ancestor);
    }
    lemma_tree_of_rows(rows);
    lemma_tree_of_rows(reordered);
    assert(is_relabelling(tree_of_rows(rows), tree_of_rows(reordered), to));
}

/// Annotating two trees that differ in the positions of their nodes only,
/// with the same targets, leaves two such trees.
pub proof fn lemma_annotation_relabelled(
    a: TreeView,
    b: TreeView,
    to: Seq<int>,
    targets: Seq<Seq<char>>,
    annotated_a: TreeView,
    annotated_b: TreeView,
)
    requires
        is_relabelling(a, b, to),
        is_annotation(a, annotated_a, targets),
        is_annotation(b, annotated_b, targets),
    ensures
        is_relabelling(annotated_a, annotated_b, to),
{
    assert forall|x: int| 0 <= x < to.len() implies (annotated_a.has_one_parent(x)
        <==> annotated_b.has_one_parent(#[trigger] to[x])) by {
        assert(forall|k: int| a.enters(k, x) <==> annotated_a.enters(k, x));
        assert(forall|k: int| b.enters(k, to[x]) <==> annotated_b.enters(k, to[x]));
    }
}

/// Determinism: the rows of a table in another order give the same groups of
/// labels, for the same targets and the same threshold, where the rows
/// describe a tree.
pub proof fn law_row_order(
    rows: Seq<Phylo4Row>,
    reordered: Seq<Phylo4Row>,
    to: Seq<int>,
    targets: Seq<Seq<char>>,
    threshold: StatsView,
    tree: TreeView,
    other: TreeView,
)
    requires
        !has_dangling_row(rows),
        is_reordering(rows, reordered, to),
        is_annotation(tree_of_rows(rows), tree, targets),
        is_annotation(tree_of_rows(reordered), other, targets),
        tree.is_tree(),
        threshold.wf(),
    ensures
        !has_dangling_row(reordered),
        other.is_tree(),
        other.label_groups(other.cluster_roots(threshold)) == tree.label_groups(
            tree.cluster_roots(threshold),
        ),
{
    lemma_tree_has_unique_numbers(rows, tree);
    lemma_reordered_rows(rows, reordered, to);
    lemma_annotation_relabelled(
        tree_of_rows(rows),
        tree_of_rows(reordered),
        to,
        targets,
        tree,
        other,
    );
    lemma_groups_relabelled(tree, other, to, threshold);
}

} // verus!
