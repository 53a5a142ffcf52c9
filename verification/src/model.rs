//! The tree as mathematics: nodes and edges as sequences, and what it means
//! for one node to lie below another.

use vstd::prelude::*;
use crate::clusters::NodeW;
use crate::graph::dfs_order;
use crate::labels::{group_le, label_le};
use crate::seqs::ascending;
use crate::stats::StatsView;

verus! {

/// Whether `edges` holds an edge from `a` to `b`.
pub open spec fn has_edge(edges: Seq<(int, int)>, a: int, b: int) -> bool {
    exists|k: int| 0 <= k < edges.len() && #[trigger] edges[k] == (a, b)
}

/// Whether `edges` leads from `path[i]` to the node after it.
pub open spec fn links(edges: Seq<(int, int)>, path: Seq<int>, i: int) -> bool {
    has_edge(edges, path[i], path[i + 1])
}

/// Whether `path` is a walk along `edges`: it holds a node at least, and an
/// edge leads from each of its nodes to the next.
pub open spec fn is_path(edges: Seq<(int, int)>, path: Seq<int>) -> bool {
    &&& path.len() > 0
    &&& forall|i: int| 0 <= i < path.len() - 1 ==> #[trigger] links(edges, path, i)
}

/// Whether `b` is `a` itself or can be reached from it along `edges`.
pub open spec fn reaches(edges: Seq<(int, int)>, a: int, b: int) -> bool {
    exists|path: Seq<int>| #[trigger] is_path(edges, path) && path.first() == a && path.last() == b
}

/// Whether `b` can be reached from `a` along one edge at least.
pub open spec fn reaches_below(edges: Seq<(int, int)>, a: int, b: int) -> bool {
    exists|path: Seq<int>|
        #[trigger] is_path(edges, path) && path.len() >= 2 && path.first() == a && path.last() == b
}

/// Where an edge touches node `a`: at its source for `outgoing`, else at its
/// target.
pub open spec fn touches(edge: (int, int), a: int, outgoing: bool) -> bool {
    if outgoing {
        edge.0 == a
    } else {
        edge.1 == a
    }
}

/// The edges of `edges` that leave `a` (that enter it, where `outgoing` is
/// false), the latest first.
pub open spec fn incident_edges(edges: Seq<(int, int)>, a: int, outgoing: bool) -> Seq<(int, int)>
    decreases edges.len(),
{
    if edges.len() == 0 {
        Seq::empty()
    } else {
        let earlier = incident_edges(edges.drop_last(), a, outgoing);
        if touches(edges.last(), a, outgoing) {
            seq![edges.last()] + earlier
        } else {
            earlier
        }
    }
}

/// The places in `edges` of the edges that leave `a` (that enter it, where
/// `outgoing` is false), the latest first.
pub open spec fn incident_indices(edges: Seq<(int, int)>, a: int, outgoing: bool) -> Seq<int>
    decreases edges.len(),
{
    if edges.len() == 0 {
        Seq::empty()
    } else {
        let earlier = incident_indices(edges.drop_last(), a, outgoing);
        if touches(edges.last(), a, outgoing) {
            seq![edges.len() - 1] + earlier
        } else {
            earlier
        }
    }
}

/// `incident_edges` holds the edges at the places of `incident_indices`; these
/// places fall, and every edge that touches `a` is among them.
pub proof fn lemma_incident(edges: Seq<(int, int)>, a: int, outgoing: bool)
    ensures
        incident_indices(edges, a, outgoing).len() == incident_edges(edges, a, outgoing).len(),
        forall|j: int|
            0 <= j < incident_indices(edges, a, outgoing).len() ==> {
                let k = #[trigger] incident_indices(edges, a, outgoing)[j];
                &&& 0 <= k < edges.len()
                &&& incident_edges(edges, a, outgoing)[j] == edges[k]
                &&& touches(edges[k], a, outgoing)
            },
        forall|i: int, j: int|
            0 <= i < j < incident_indices(edges, a, outgoing).len() ==> incident_indices(
                edges,
                a,
                outgoing,
            )[i] > incident_indices(edges, a, outgoing)[j],
        forall|k: int|
            0 <= k < edges.len() && touches(#[trigger] edges[k], a, outgoing) ==> exists|j: int|
                0 <= j < incident_indices(edges, a, outgoing).len() && incident_indices(
                    edges,
                    a,
                    outgoing,
                )[j] == k,
    decreases edges.len(),
{
    if edges.len() > 0 {
        let shorter = edges.drop_last();
        lemma_incident(shorter, a, outgoing);
        let idx = incident_indices(edges, a, outgoing);
        let earlier = incident_indices(shorter, a, outgoing);
        assert forall|k: int| 0 <= k < edges.len() && touches(#[trigger] edges[k], a, outgoing) implies exists|j: int|
            0 <= j < idx.len() && idx[j] == k by {
            if k == edges.len() - 1 {
                assert(idx[0] == k);
            } else {
                assert(shorter[k] == edges[k]);
                let j = choose|j: int| 0 <= j < earlier.len() && earlier[j] == k;
                if touches(edges.last(), a, outgoing) {
                    assert(idx[j + 1] == k);
                }
            }
        }
    }
}

/// A tree as the search sees it: what each node holds, by position, and the
/// edges from parent to child, in the order in which they were added.
pub struct TreeView {
    pub nodes: Seq<NodeW>,
    pub edges: Seq<(int, int)>,
}

impl TreeView {
    /// `a` is the position of a node.
    pub open spec fn has_node(self, a: int) -> bool {
        0 <= a < self.nodes.len()
    }

    /// Every edge joins two nodes of the tree.
    pub open spec fn edges_in_bounds(self) -> bool {
        forall|k: int|
            0 <= k < self.edges.len() ==> self.has_node((#[trigger] self.edges[k]).0)
                && self.has_node(self.edges[k].1)
    }

    /// `b` is `a` or one of its descendants.
    pub open spec fn reaches(self, a: int, b: int) -> bool {
        reaches(self.edges, a, b)
    }

    /// `a` is an ancestor of `b`, and not `b` itself.
    pub open spec fn is_ancestor(self, a: int, b: int) -> bool {
        reaches_below(self.edges, a, b)
    }

    /// No edge enters `a`.
    pub open spec fn is_root(self, a: int) -> bool {
        &&& self.has_node(a)
        &&& forall|k: int| 0 <= k < self.edges.len() ==> (#[trigger] self.edges[k]).1 != a
    }

    /// One node, and no other, is without an incoming edge.
    pub open spec fn has_unique_root(self) -> bool {
        exists|r: int| #[trigger] self.is_root(r) && forall|s: int| self.is_root(s) ==> s == r
    }

    /// The node without an incoming edge.
    pub open spec fn root(self) -> int {
        choose|r: int| self.is_root(r)
    }

    /// Edge `k` enters `c`.
    pub open spec fn enters(self, k: int, c: int) -> bool {
        0 <= k < self.edges.len() && self.edges[k].1 == c
    }

    /// One edge, and no other, enters `c`.
    pub open spec fn has_one_parent(self, c: int) -> bool {
        exists|k: int| #[trigger] self.enters(k, c) && forall|j: int| self.enters(j, c) ==> j == k
    }

    /// No edge leaves `a`.
    pub open spec fn is_leaf(self, a: int) -> bool {
        forall|k: int| 0 <= k < self.edges.len() ==> (#[trigger] self.edges[k]).0 != a
    }

    /// The graph is a rooted tree whose tip flags tell its leaves.
    pub open spec fn is_tree(self) -> bool {
        &&& self.edges_in_bounds()
        &&& self.has_unique_root()
        &&& forall|c: int| self.has_node(c) && c != self.root() ==> #[trigger] self.has_one_parent(c)
        &&& forall|x: int| self.has_node(x) ==> #[trigger] self.reaches(self.root(), x)
        &&& forall|x: int| self.has_node(x) ==> ((#[trigger] self.nodes[x]).is_tip <==> self.is_leaf(x))
    }

    /// The children of `a`, in the order in which their edges were added.
    pub open spec fn children(self, a: int) -> Seq<int> {
        let latest_first = incident_edges(self.edges, a, true);
        Seq::new(latest_first.len(), |i: int| latest_first[latest_first.len() - 1 - i].1)
    }

    /// The nodes of the tree that are flagged as tips.
    pub open spec fn all_tips(self) -> Set<int> {
        Set::new(|t: int| self.has_node(t) && self.nodes[t].is_tip)
    }

    /// The tips of the clade of `a`: those among `a` and its descendants that
    /// are flagged as tips.
    pub open spec fn tips_below(self, a: int) -> Set<int> {
        Set::new(|t: int| self.has_node(t) && self.reaches(a, t) && self.nodes[t].is_tip)
    }

    /// The tips of the clade of `a` that are targets.
    pub open spec fn targets_below(self, a: int) -> Set<int> {
        Set::new(
            |t: int|
                self.has_node(t) && self.reaches(a, t) && self.nodes[t].is_tip
                    && self.nodes[t].is_target,
        )
    }

    /// Whether the node at a position is flagged as a tip.
    pub open spec fn tip_at(self) -> spec_fn(int) -> bool {
        |t: int| self.nodes[t].is_tip
    }

    /// The tips of the clade of `a` in the order in which a depth-first walk
    /// from `a` comes upon them.
    pub open spec fn tips_walked(self, a: int) -> Seq<int> {
        dfs_order(self.edges, a).filter(self.tip_at())
    }

    /// The tips of the clade of `a`, by position.
    pub open spec fn tips_in_order(self, a: int) -> Seq<int> {
        ascending(self.tips_below(a), self.nodes.len() as int)
    }

    /// The label of the node at a position.
    pub open spec fn label_at(self) -> spec_fn(int) -> Seq<char> {
        |t: int| self.nodes[t].label@
    }

    /// The labels of the tips of the clade of `a`, sorted.
    pub open spec fn clade_labels(self, a: int) -> Seq<Seq<char>> {
        self.tips_in_order(a).map_values(self.label_at()).sort_by(label_le())
    }

    /// The sorted labels of the clades of `roots`, the groups sorted in turn.
    pub open spec fn label_groups(self, roots: Seq<int>) -> Seq<Seq<Seq<char>>> {
        Seq::new(roots.len(), |i: int| self.clade_labels(roots[i])).sort_by(group_le())
    }

    /// The number of tips of the clade of `a`.
    pub open spec fn clade_size(self, a: int) -> nat {
        self.tips_below(a).len()
    }

    /// The number of target tips of the clade of `a`.
    pub open spec fn clade_targets(self, a: int) -> nat {
        self.targets_below(a).len()
    }

    /// The statistics of the clade of `a`.
    pub open spec fn clade_stats(self, a: int) -> StatsView {
        StatsView::observed(self.clade_size(a), self.clade_targets(a))
    }
}

impl TreeView {
    /// A path that starts at a node of the tree stays among its nodes.
    pub proof fn lemma_path_in_bounds(self, path: Seq<int>, i: int)
        requires
            self.edges_in_bounds(),
            is_path(self.edges, path),
            self.has_node(path[0]),
            0 <= i < path.len(),
        ensures
            self.has_node(path[i]),
        decreases i,
    {
        if i > 0 {
            self.lemma_path_in_bounds(path, i - 1);
            assert(links(self.edges, path, i - 1));
        }
    }

    /// What a node of the tree reaches is a node of the tree.
    pub proof fn lemma_reaches_in_bounds(self, a: int, b: int)
        requires
            self.edges_in_bounds(),
            self.has_node(a),
            self.reaches(a, b),
        ensures
            self.has_node(b),
    {
        let path = choose|path: Seq<int>|
            #[trigger] is_path(self.edges, path) && path.first() == a && path.last() == b;
        self.lemma_path_in_bounds(path, path.len() - 1);
    }
}

} // verus!
