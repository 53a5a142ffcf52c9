//! Whether a graph is a rooted tree whose tip flags tell its leaves.

use vstd::prelude::*;
use vstd::set_lib::{lemma_int_range, lemma_len_subset, lemma_subset_equality, set_int_range};
use petgraph::graph::{DiGraph, NodeIndex};
use petgraph::Direction;
use crate::clusters::{find_root, NodeW};
use crate::error::TreeError;
use crate::graph::{
    as_ints, dfs_from, edges_directed, node_at, node_count, node_position, node_weight,
    position_of, tree_view,
};
use crate::model::{incident_edges, incident_indices, lemma_incident, touches, TreeView};

verus! {

impl TreeView {
    /// A node has one parent where one edge is listed as entering it.
    pub proof fn lemma_one_parent(self, c: int)
        ensures
            incident_edges(self.edges, c, false).len() == 1 <==> self.has_one_parent(c),
    {
        lemma_incident(self.edges, c, false);
        let idx = incident_indices(self.edges, c, false);
        if idx.len() == 1 {
            let k = idx[0];
            assert(self.enters(k, c));
        }
        if self.has_one_parent(c) {
            if idx.len() >= 2 {
                assert(self.enters(idx[0], c) && self.enters(idx[1], c));
            }
        }
    }

    /// A node is a leaf where no edge is listed as leaving it.
    pub proof fn lemma_leaf(self, a: int)
        ensures
            incident_edges(self.edges, a, true).len() == 0 <==> self.is_leaf(a),
    {
        lemma_incident(self.edges, a, true);
        let idx = incident_indices(self.edges, a, true);
        if idx.len() > 0 {
            assert(touches(self.edges[idx[0]], a, true));
        }
    }

    /// A list without repeats of what `a` reaches is as long as the tree is
    /// large just where `a` reaches every node.
    pub proof fn lemma_all_reached(self, a: int, reached: Seq<int>)
        requires
            self.edges_in_bounds(),
            self.has_node(a),
            reached.no_duplicates(),
            forall|i: int| 0 <= i < reached.len() ==> self.reaches(a, #[trigger] reached[i]),
            forall|x: int| self.reaches(a, x) ==> reached.contains(x),
        ensures
            reached.len() == self.nodes.len() <==> forall|x: int|
                self.has_node(x) ==> #[trigger] self.reaches(a, x),
    {
        let all = set_int_range(0, self.nodes.len() as int);
        lemma_int_range(0, self.nodes.len() as int);
        reached.unique_seq_to_set();
        assert forall|x: int| reached.to_set().contains(x) implies all.contains(x) by {
            let i = reached.index_of(x);
            self.lemma_reaches_in_bounds(a, reached[i]);
        }
        lemma_len_subset(reached.to_set(), all);
        if reached.len() == self.nodes.len() {
            lemma_subset_equality(reached.to_set(), all);
            assert forall|x: int| self.has_node(x) implies #[trigger] self.reaches(a, x) by {
                assert(all.contains(x));
            }
        }
        if forall|x: int| self.has_node(x) ==> #[trigger] self.reaches(a, x) {
            assert(reached.to_set() =~= all);
        }
    }
}

/// The root of the tree, where the graph is one: a single node is without an
/// incoming edge, every other node has one parent and is reached from the
/// root, and the nodes flagged as tips are those without children.
pub fn validate_tree(tree: &DiGraph<NodeW, ()>) -> (checked: Result<NodeIndex, TreeError>)
    ensures
        checked is Ok <==> tree_view(*tree).is_tree(),
        checked matches Ok(root) ==> node_position(root) == tree_view(*tree).root(),
        checked matches Err(e) ==> e == TreeError::MalformedTree,
{
    let ghost view = tree_view(*tree);
    let root = match find_root(tree) {
        Ok(root) => root,
        Err(e) => {
            return Err(e);
        },
    };
    let n = node_count(tree);
    let root_at = position_of(root);
    proof {
        view.lemma_root();
    }
    let mut i: usize = 0;
    while i < n
        invariant
            i <= n,
            n == view.nodes.len(),
            n <= u32::MAX,
            view == tree_view(*tree),
            root_at == view.root(),
            forall|c: int| 0 <= c < i && c != view.root() ==> #[trigger] view.has_one_parent(c),
            forall|x: int| 0 <= x < i ==> ((#[trigger] view.nodes[x]).is_tip <==> view.is_leaf(x)),
        decreases n - i,
    {
        let node = node_at(i);
        let incoming = edges_directed(tree, node, Direction::Incoming);
        let outgoing = edges_directed(tree, node, Direction::Outgoing);
        let tip = match node_weight(tree, node) {
            Some(weight) => weight.is_tip,
            None => false,
        };
        proof {
            view.lemma_one_parent(i as int);
            view.lemma_leaf(i as int);
        }
        if i != root_at && incoming.len() != 1 {
            return Err(TreeError::MalformedTree);
        }
        if tip != (outgoing.len() == 0) {
            return Err(TreeError::MalformedTree);
        }
        i = i + 1;
    }
    let reached = dfs_from(tree, root);
    proof {
        let seen = as_ints(reached@);
        assert forall|x: int| view.reaches(view.root(), x) implies seen.contains(x) by {
            let k = choose|k: int| 0 <= k < reached.len() && #[trigger] reached[k] == x;
            assert(seen[k] == x);
        }
        view.lemma_all_reached(view.root(), seen);
    }
    if reached.len() != n {
        return Err(TreeError::MalformedTree);
    }
    Ok(root)
}

} // verus!
