//! The search for transmission clusters, and what it needs of the tree.

use std::collections::VecDeque;
use vstd::prelude::*;
use vstd::hash_set::StringHashSet;
use vstd::pervasive::unreached;
use petgraph::graph::{DiGraph, Graph, NodeIndex};
use petgraph::Direction;
use crate::error::TreeError;
use crate::graph::{
    as_ints, dfs_from, edges_directed, node_at, node_count, node_position, node_weight,
    node_weight_mut, position_of, tree_view,
};
use crate::labels::{
    group_le, label_le, lemma_group_order, lemma_is_sorted, lemma_label_order,
    lemma_map_same_items, lemma_same_items, sort_groups, sort_labels,
};
use crate::laws::law_disjoint;
use crate::model::{incident_indices, lemma_incident, touches, TreeView};
use crate::search::Verdict;
use crate::seqs::{
    lemma_ascending, lemma_selects_all, lemma_selects_none, lemma_selects_push,
    lemma_selects_skip, selects,
};
use crate::validate::validate_tree;
pub use crate::stats::CladeTargetStats;

verus! {

/// Node features
pub struct NodeW {
    /// The node's number in the table that the tree was read from
    pub index: usize,
    pub label: String,
    pub is_tip: bool,
    pub is_target: bool,
}

/// The positions that a sequence of node indices stands for.
pub open spec fn positions(nodes: Seq<NodeIndex<u32>>) -> Seq<int> {
    nodes.map_values(|a: NodeIndex<u32>| node_position(a))
}

/// Whether `after` is `before` with each node's target flag set to whether
/// its label is among `targets`, and with nothing else changed.
pub open spec fn is_annotation(before: TreeView, after: TreeView, targets: Seq<Seq<char>>) -> bool {
    &&& after.edges == before.edges
    &&& after.nodes.len() == before.nodes.len()
    &&& forall|i: int|
        0 <= i < before.nodes.len() ==> {
            &&& (#[trigger] after.nodes[i]).index == before.nodes[i].index
            &&& after.nodes[i].label == before.nodes[i].label
            &&& after.nodes[i].is_tip == before.nodes[i].is_tip
            &&& after.nodes[i].is_target == targets.contains(before.nodes[i].label@)
        }
}

/// Annotate targets in place: a node is a target where its label is one of
/// `targets`. The labels are looked up in a hash set.
pub fn annotate_targets(tree: DiGraph<NodeW, ()>, targets: &Vec<String>) -> (annotated: Graph<
    NodeW,
    (),
>)
    ensures
        is_annotation(tree_view(tree), tree_view(annotated), targets.deep_view()),
{
    let ghost before = tree_view(tree);
    let ghost wanted = targets.deep_view();
    let mut tree = tree;
    let mut lookup = StringHashSet::new();
    let mut j: usize = 0;
    while j < targets.len()
        invariant
            j <= targets.len(),
            wanted == targets.deep_view(),
            forall|label: Seq<char>|
                lookup@.contains(label) <==> exists|k: int| 0 <= k < j && wanted[k] == label,
        decreases targets.len() - j,
    {
        lookup.insert(targets[j].clone());
        assert(wanted[j as int] == targets[j as int]@);
        j = j + 1;
    }
    let n = node_count(&tree);
    let mut i: usize = 0;
    while i < n
        invariant
            i <= n,
            n == before.nodes.len(),
            n <= u32::MAX,
            tree_view(tree).edges == before.edges,
            tree_view(tree).nodes.len() == n,
            forall|label: Seq<char>| lookup@.contains(label) <==> wanted.contains(label),
            forall|k: int|
                0 <= k < i ==> {
                    &&& (#[trigger] tree_view(tree).nodes[k]).index == before.nodes[k].index
                    &&& tree_view(tree).nodes[k].label == before.nodes[k].label
                    &&& tree_view(tree).nodes[k].is_tip == before.nodes[k].is_tip
                    &&& tree_view(tree).nodes[k].is_target == wanted.contains(before.nodes[k].label@)
                },
            forall|k: int| i <= k < n ==> #[trigger] tree_view(tree).nodes[k] == before.nodes[k],
        decreases n - i,
    {
        let node = node_at(i);
        match node_weight_mut(&mut tree, node) {
            Some(weight) => {
                weight.is_target = lookup.contains(weight.label.as_str());
            },
            None => {},
        }
        i = i + 1;
    }
    tree
}

/// Find the root of the tree (the one node with no incoming edges). A graph
/// without such a node, or with several, is malformed.
pub fn find_root(tree: &DiGraph<NodeW, ()>) -> (found: Result<NodeIndex, TreeError>)
    ensures
        found is Ok <==> tree_view(*tree).has_unique_root(),
        found matches Ok(root) ==> node_position(root) == tree_view(*tree).root(),
        found matches Err(e) ==> e == TreeError::MalformedTree,
{
    let ghost view = tree_view(*tree);
    let n = node_count(tree);
    let mut root: Option<NodeIndex> = None;
    let mut i: usize = 0;
    while i < n
        invariant
            i <= n,
            n == view.nodes.len(),
            n <= u32::MAX,
            view == tree_view(*tree),
            root matches Some(r) ==> 0 <= node_position(r) < i && view.is_root(node_position(r)),
            forall|k: int|
                0 <= k < i && #[trigger] view.is_root(k) ==> (root matches Some(r) && node_position(r)
                    == k),
        decreases n - i,
    {
        let node = node_at(i);
        let incoming = edges_directed(tree, node, Direction::Incoming);
        proof {
            lemma_incident(view.edges, i as int, false);
            let idx = incident_indices(view.edges, i as int, false);
            if incoming.len() > 0 {
                assert(touches(view.edges[idx[0]], i as int, false));
            }
        }
        if incoming.len() == 0 {
            if root.is_some() {
                proof {
                    assert(view.is_root(i as int));
                }
                return Err(TreeError::MalformedTree);
            }
            root = Some(node);
        }
        i = i + 1;
    }
    match root {
        Some(r) => Ok(r),
        None => Err(TreeError::MalformedTree),
    }
}

/// Search the tips/leaves from the given node: those among the node and its
/// descendants that are flagged as tips, once each, in the order in which a
/// depth-first walk comes upon them.
pub fn get_descendant_leaves(graph: &DiGraph<NodeW, ()>, node: &NodeIndex) -> (found: Result<
    Vec<NodeIndex>,
    TreeError,
>)
    ensures
        found is Ok <==> tree_view(*graph).has_node(node_position(*node)),
        found matches Err(e) ==> e == TreeError::DanglingReference,
        found matches Ok(leaves) ==> {
            &&& positions(leaves@) == tree_view(*graph).tips_walked(node_position(*node))
            &&& positions(leaves@).no_duplicates()
            &&& positions(leaves@).to_set() == tree_view(*graph).tips_below(node_position(*node))
        },
{
    let ghost view = tree_view(*graph);
    let ghost start = node_position(*node);
    let n = node_count(graph);
    if position_of(*node) >= n {
        return Err(TreeError::DanglingReference);
    }
    let reached = dfs_from(graph, *node);
    let ghost source = as_ints(reached@);
    let ghost is_tip = view.tip_at();
    let mut leaves: Vec<NodeIndex> = Vec::new();
    let mut i: usize = 0;
    proof {
        reveal(Seq::filter);
        lemma_selects_none(source, is_tip);
    }
    while i < reached.len()
        invariant
            i <= reached.len(),
            view == tree_view(*graph),
            view.edges_in_bounds(),
            view.has_node(start),
            n == view.nodes.len(),
            n <= u32::MAX,
            source == as_ints(reached@),
            source.no_duplicates(),
            is_tip == view.tip_at(),
            forall|k: int| 0 <= k < reached.len() ==> view.reaches(start, #[trigger] reached[k] as int),
            selects(source, is_tip, i as int, positions(leaves@)),
            positions(leaves@) == source.take(i as int).filter(is_tip),
        decreases reached.len() - i,
    {
        let ghost earlier = positions(leaves@);
        proof {
            view.lemma_reaches_in_bounds(start, reached[i as int] as int);
            assert(source.take(i + 1) =~= source.take(i as int).push(source[i as int]));
            source.take(i as int).lemma_filter_push(source[i as int], is_tip);
        }
        let at = node_at(reached[i]);
        let tip = match node_weight(graph, at) {
            Some(weight) => weight.is_tip,
            None => false,
        };
        if tip {
            leaves.push(at);
            proof {
                assert(positions(leaves@) =~= earlier.push(source[i as int]));
                lemma_selects_push(source, is_tip, i as int, earlier);
            }
        } else {
            proof {
                lemma_selects_skip(source, is_tip, i as int, earlier);
            }
        }
        i = i + 1;
    }
    proof {
        let found = positions(leaves@);
        assert(source.take(source.len() as int) =~= source);
        lemma_selects_all(source, is_tip, found);
        assert forall|t: int| source.to_set().filter(is_tip).contains(t) <==> view.tips_below(
            start,
        ).contains(t) by {
            if source.to_set().filter(is_tip).contains(t) {
                view.lemma_reaches_in_bounds(start, t);
            }
            if view.tips_below(start).contains(t) {
                let k = choose|k: int| 0 <= k < reached.len() && #[trigger] reached[k] == t;
                assert(source[k] == t);
            }
        }
    }
    Ok(leaves)
}

/// Calculate the clade stats regarding target tips/leaves from the given node.
/// A clade without tips has none.
pub fn calculate_clade_stats(tree: &DiGraph<NodeW, ()>, node: &NodeIndex) -> (stats: Result<
    CladeTargetStats,
    TreeError,
>)
    ensures
        stats matches Ok(s) ==> s@ == tree_view(*tree).clade_stats(node_position(*node)),
        stats is Ok <==> tree_view(*tree).has_node(node_position(*node)) && tree_view(
            *tree,
        ).clade_size(node_position(*node)) > 0,
        stats matches Err(e) ==> e == (if tree_view(*tree).has_node(node_position(*node)) {
            TreeError::DegenerateClade
        } else {
            TreeError::DanglingReference
        }),
{
    let ghost view = tree_view(*tree);
    let ghost start = node_position(*node);
    let tips = match get_descendant_leaves(tree, node) {
        Ok(tips) => tips,
        Err(e) => {
            return Err(e);
        },
    };
    let ghost at = positions(tips@);
    let ghost is_target = |t: int| view.nodes[t].is_target;
    proof {
        at.unique_seq_to_set();
        lemma_selects_none(at, is_target);
    }
    let n_tips = tips.len();
    let mut n_targets: usize = 0;
    let ghost mut hits: Seq<int> = Seq::empty();
    let mut i: usize = 0;
    while i < tips.len()
        invariant
            i <= tips.len(),
            view == tree_view(*tree),
            at == positions(tips@),
            at.no_duplicates(),
            at.to_set() == view.tips_below(start),
            is_target == |t: int| view.nodes[t].is_target,
            n_targets == hits.len(),
            n_targets <= i,
            selects(at, is_target, i as int, hits),
        decreases tips.len() - i,
    {
        proof {
            assert(at.to_set().contains(at[i as int]));
        }
        let target = match node_weight(tree, tips[i]) {
            Some(weight) => weight.is_target,
            None => false,
        };
        if target {
            proof {
                lemma_selects_push(at, is_target, i as int, hits);
                hits = hits.push(at[i as int]);
            }
            n_targets = n_targets + 1;
        } else {
            proof {
                lemma_selects_skip(at, is_target, i as int, hits);
            }
        }
        i = i + 1;
    }
    proof {
        lemma_selects_all(at, is_target, hits);
        assert(at.to_set().filter(is_target) =~= view.targets_below(start));
    }
    CladeTargetStats::new(n_tips, n_targets)
}

/// Find transmission clusters: the roots of the clades that qualify and lie in
/// no other clade that qualifies, in the order in which a walk from the root,
/// level by level, comes upon them. No cluster lies in another. A graph that
/// is no tree is refused.
pub fn tcfind(tree: &DiGraph<NodeW, ()>, threshold: CladeTargetStats) -> (found: Result<
    Vec<NodeIndex>,
    TreeError,
>)
    ensures
        found is Ok <==> tree_view(*tree).is_tree(),
        found matches Err(e) ==> e == TreeError::MalformedTree,
        found matches Ok(clusters) ==> {
            let view = tree_view(*tree);
            &&& positions(clusters@) == view.cluster_roots(threshold@)
            &&& positions(clusters@).no_duplicates()
            &&& forall|n: int|
                #![trigger positions(clusters@).contains(n)]
                #![trigger view.is_cluster_root(threshold@, n)]
                positions(clusters@).contains(n) <==> view.is_cluster_root(threshold@, n)
            &&& forall|i: int, j: int|
                0 <= i < clusters.len() && 0 <= j < clusters.len() && i != j ==> !view.reaches(
                    #[trigger] positions(clusters@)[i],
                    #[trigger] positions(clusters@)[j],
                )
        },
{
    let ghost view = tree_view(*tree);
    let ghost limit = threshold@;
    // Init results and queue
    let mut results: Vec<NodeIndex> = Vec::new();
    let mut queue: VecDeque<NodeIndex> = VecDeque::new();
    // Select root
    let root = match validate_tree(tree) {
        Ok(root) => root,
        Err(e) => {
            return Err(e);
        },
    };
    // No node is taken off the queue twice: as many steps as the tree has nodes
    // are enough
    let mut fuel = node_count(tree);
    proof {
        use_type_invariant(&threshold);
        threshold.lemma_wf();
        view.lemma_root();
        view.lemma_cluster_roots(limit);
        view.lemma_clade_has_size(view.root());
        assert forall|i: int, j: int|
            0 <= i < view.cluster_roots(limit).len() && 0 <= j < view.cluster_roots(limit).len() && i
                != j implies !view.reaches(
            #[trigger] view.cluster_roots(limit)[i],
            #[trigger] view.cluster_roots(limit)[j],
        ) by {
            law_disjoint(view, limit, i, j);
        }
    }
    // Check first node; in a tree every clade has tips
    let stats = match calculate_clade_stats(tree, &root) {
        Ok(stats) => stats,
        Err(e) => {
            return Err(e);
        },
    };
    if stats.qualifies(&threshold) {
        // The root is enough
        results.push(root);
    } else if stats.targets() < threshold.targets() {
        // There are no clusters
        return Ok(results);
    } else {
        // Enqueue to start subsequent search
        queue.push_back(root);
    }
    // Check the rest of nodes
    while fuel > 0 && queue.len() > 0
        invariant
            view == tree_view(*tree),
            limit == threshold@,
            limit.wf(),
            view.is_tree(),
            fuel <= view.nodes.len() <= u32::MAX,
            forall|i: int| 0 <= i < queue.len() ==> view.has_node(#[trigger] positions(queue@)[i]),
            view.cluster_roots(limit) == positions(results@) + view.search(
                limit,
                positions(queue@),
                fuel as nat,
            ),
        decreases fuel,
    {
        let ghost found_before = positions(results@);
        let ghost queue_before = positions(queue@);
        let node = match queue.pop_front() {
            Some(node) => node,
            None => unreached(),
        };
        let ghost x = node_position(node);
        let ghost kids = view.children(x);
        let ghost waiting = queue_before.skip(1);
        proof {
            view.lemma_children(x);
        }
        // Immediate descendants of node, the latest first
        let children = edges_directed(tree, node, Direction::Outgoing);
        let mut left = children.len();
        proof {
            assert(positions(results@) =~= found_before + view.pick(
                limit,
                kids.take(0),
                Verdict::Qualifies,
            ));
        }
        while left > 0
            invariant
                view == tree_view(*tree),
                limit == threshold@,
                limit.wf(),
                view.is_tree(),
                view.nodes.len() <= u32::MAX,
                kids == view.children(x),
                kids.len() == children.len(),
                left <= children.len(),
                forall|m: int| 0 <= m < kids.len() ==> kids[m] == (#[trigger] children[children.len() - 1 - m]).1,
                forall|m: int| 0 <= m < kids.len() ==> view.has_node(#[trigger] kids[m]),
                forall|i: int| 0 <= i < waiting.len() ==> view.has_node(#[trigger] waiting[i]),
                positions(results@) == found_before + view.pick(
                    limit,
                    kids.take(children.len() - left),
                    Verdict::Qualifies,
                ),
                positions(queue@) == waiting + view.pick(
                    limit,
                    kids.take(children.len() - left),
                    Verdict::Expand,
                ),
            decreases left,
        {
            let ghost done = children.len() - left;
            let ghost found_so_far = positions(results@);
            let ghost queue_so_far = positions(queue@);
            left = left - 1;
            let at = children[left].1;
            proof {
                view.lemma_pick_next(limit, kids, done, Verdict::Qualifies);
                view.lemma_pick_next(limit, kids, done, Verdict::Expand);
                view.lemma_clade_has_size(at as int);
            }
            let child_node = node_at(at);
            // Select internal children
            let tip = match node_weight(tree, child_node) {
                Some(weight) => weight.is_tip,
                None => true,
            };
            if !tip {
                let stats = match calculate_clade_stats(tree, &child_node) {
                    Ok(stats) => stats,
                    Err(e) => {
                        return Err(e);
                    },
                };
                // Check qualification
                if stats.qualifies(&threshold) {
                    // Child qualifies
                    results.push(child_node);
                    proof {
                        assert(positions(results@) =~= found_so_far.push(at as int));
                    }
                } else if stats.targets() < threshold.targets() {
                    // Not enough target nodes in subclade to qualify
                } else {
                    // Some subclade would still be selected
                    queue.push_back(child_node);
                    proof {
                        assert(positions(queue@) =~= queue_so_far.push(at as int));
                    }
                }
            }
            proof {
                assert(positions(results@) =~= found_before + view.pick(
                    limit,
                    kids.take(done + 1),
                    Verdict::Qualifies,
                ));
                assert(positions(queue@) =~= waiting + view.pick(
                    limit,
                    kids.take(done + 1),
                    Verdict::Expand,
                ));
            }
        }
        proof {
            assert(kids.take(kids.len() as int) =~= kids);
            view.lemma_pick(limit, kids, Verdict::Expand);
        }
        fuel = fuel - 1;
    }
    Ok(results)
}

/// Extracts the tip labels of a vector of nodes representing clade roots,
/// sorted: the labels of each clade in ascending order, and the clades in
/// the ascending order of their lists of labels.
pub fn extract_clade_tip_labels(tree: &DiGraph<NodeW, ()>, nodes: &Vec<NodeIndex>) -> (extracted:
    Result<Vec<Vec<String>>, TreeError>)
    ensures
        extracted is Ok <==> forall|i: int|
            0 <= i < nodes.len() ==> tree_view(*tree).has_node(#[trigger] positions(nodes@)[i]),
        extracted matches Err(e) ==> e == TreeError::DanglingReference,
        extracted matches Ok(labels) ==> labels.deep_view() == tree_view(*tree).label_groups(
            positions(nodes@),
        ),
{
    let ghost view = tree_view(*tree);
    let ghost roots = positions(nodes@);
    let mut labels: Vec<Vec<String>> = Vec::new();
    let mut i: usize = 0;
    while i < nodes.len()
        invariant
            i <= nodes.len(),
            view == tree_view(*tree),
            roots == positions(nodes@),
            labels.len() == i,
            forall|k: int| 0 <= k < i ==> view.has_node(#[trigger] roots[k]),
            forall|k: int| 0 <= k < i ==> #[trigger] labels.deep_view()[k] == view.clade_labels(roots[k]),
        decreases nodes.len() - i,
    {
        let ghost a = roots[i as int];
        let ghost earlier = labels.deep_view();
        let leaves = match get_descendant_leaves(tree, &nodes[i]) {
            Ok(leaves) => leaves,
            Err(e) => {
                return Err(e);
            },
        };
        let ghost at = positions(leaves@);
        let mut cluster_labels: Vec<String> = Vec::new();
        let mut j: usize = 0;
        while j < leaves.len()
            invariant
                j <= leaves.len(),
                view == tree_view(*tree),
                at == positions(leaves@),
                at.to_set() == view.tips_below(a),
                cluster_labels.deep_view() == at.take(j as int).map_values(view.label_at()),
            decreases leaves.len() - j,
        {
            proof {
                assert(at.to_set().contains(at[j as int]));
            }
            match node_weight(tree, leaves[j]) {
                Some(weight) => {
                    cluster_labels.push(weight.label.clone());
                },
                None => {},
            }
            proof {
                assert(at.take(j + 1).map_values(view.label_at()) =~= at.take(j as int).map_values(
                    view.label_at(),
                ).push(view.label_at()(at[j as int])));
            }
            j = j + 1;
        }
        sort_labels(&mut cluster_labels);
        proof {
            assert(at.take(at.len() as int) =~= at);
            let in_order = view.tips_in_order(a);
            lemma_ascending(view.tips_below(a), view.nodes.len() as int);
            assert(in_order.to_set() =~= view.tips_below(a)) by {
            }
            lemma_same_items(at, in_order);
            lemma_map_same_items(at, in_order, view.label_at());
            lemma_label_order();
            lemma_is_sorted(
                cluster_labels.deep_view(),
                in_order.map_values(view.label_at()),
                label_le(),
            );
        }
        labels.push(cluster_labels);
        proof {
            assert forall|k: int| 0 <= k < i + 1 implies #[trigger] labels.deep_view()[k]
                == view.clade_labels(roots[k]) by {
                if k < i {
                    assert(labels.deep_view()[k] == earlier[k]);
                }
            }
        }
        i = i + 1;
    }
    let ghost unsorted = labels.deep_view();
    sort_groups(&mut labels);
    proof {
        let groups = Seq::new(roots.len(), |i: int| view.clade_labels(roots[i]));
        assert(unsorted =~= groups);
        lemma_group_order();
        lemma_is_sorted(labels.deep_view(), groups, group_le());
    }
    Ok(labels)
}

} // verus!
