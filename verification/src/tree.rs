//! What holds of paths in any graph, and of a graph that is a tree.

use vstd::prelude::*;
use vstd::set_lib::{lemma_int_range, lemma_len_subset, set_int_range};
use crate::model::{
    has_edge, incident_edges, incident_indices, is_path, lemma_incident, links, reaches,
    reaches_below, TreeView,
};

verus! {

/// Two paths, the second starting where the first ends, make one path.
pub proof fn lemma_path_concat(edges: Seq<(int, int)>, p: Seq<int>, q: Seq<int>)
    requires
        is_path(edges, p),
        is_path(edges, q),
        p.last() == q.first(),
    ensures
        is_path(edges, p + q.skip(1)),
        (p + q.skip(1)).first() == p.first(),
        (p + q.skip(1)).last() == q.last(),
        (p + q.skip(1)).len() == p.len() + q.len() - 1,
{
    let r = p + q.skip(1);
    assert forall|i: int| 0 <= i < r.len() - 1 implies #[trigger] links(edges, r, i) by {
        if i < p.len() - 1 {
            assert(links(edges, p, i));
        } else {
            assert(links(edges, q, i - p.len() + 1));
        }
    }
}

/// An edge is a path of two nodes.
pub proof fn lemma_edge_reaches(edges: Seq<(int, int)>, a: int, b: int)
    requires
        has_edge(edges, a, b),
    ensures
        reaches_below(edges, a, b),
        reaches(edges, a, b),
{
    let path = seq![a, b];
    assert forall|i: int| 0 <= i < path.len() - 1 implies #[trigger] links(edges, path, i) by {}
    assert(is_path(edges, path) && path.len() >= 2 && path.first() == a && path.last() == b);
}

/// What lies below a node is reached from it; what is reached is the node
/// itself or lies below it.
pub proof fn lemma_reaches_cases(edges: Seq<(int, int)>, a: int, b: int)
    ensures
        reaches_below(edges, a, b) ==> reaches(edges, a, b),
        reaches(edges, a, b) ==> a == b || reaches_below(edges, a, b),
        reaches(edges, a, a),
{
    if reaches(edges, a, b) {
        let path = choose|path: Seq<int>|
            #[trigger] is_path(edges, path) && path.first() == a && path.last() == b;
        if path.len() >= 2 {
            assert(is_path(edges, path) && path.len() >= 2 && path.first() == a && path.last()
                == b);
        }
    }
    let alone = seq![a];
    assert(is_path(edges, alone) && alone.first() == a && alone.last() == a);
}

/// Reaching goes on: from `a` to `b` and on to `c`. Where one of the two parts
/// goes down an edge at least, so does the whole.
pub proof fn lemma_reaches_trans(edges: Seq<(int, int)>, a: int, b: int, c: int)
    requires
        reaches(edges, a, b),
        reaches(edges, b, c),
    ensures
        reaches(edges, a, c),
        reaches_below(edges, a, b) || reaches_below(edges, b, c) ==> reaches_below(edges, a, c),
{
    lemma_reaches_cases(edges, a, b);
    lemma_reaches_cases(edges, b, c);
    if reaches_below(edges, a, b) {
        let p = choose|p: Seq<int>|
            #[trigger] is_path(edges, p) && p.len() >= 2 && p.first() == a && p.last() == b;
        let q = choose|q: Seq<int>| #[trigger] is_path(edges, q) && q.first() == b && q.last() == c;
        lemma_path_concat(edges, p, q);
    } else if reaches_below(edges, b, c) {
        let p = choose|p: Seq<int>| #[trigger] is_path(edges, p) && p.first() == a && p.last() == b;
        let q = choose|q: Seq<int>|
            #[trigger] is_path(edges, q) && q.len() >= 2 && q.first() == b && q.last() == c;
        lemma_path_concat(edges, p, q);
    }
}

/// A way down from `a` to `b` starts with an edge to a child of `a` that
/// reaches `b`.
pub proof fn lemma_first_step(edges: Seq<(int, int)>, a: int, b: int) -> (child: int)
    requires
        reaches_below(edges, a, b),
    ensures
        has_edge(edges, a, child),
        reaches(edges, child, b),
{
    let path = choose|path: Seq<int>|
        #[trigger] is_path(edges, path) && path.len() >= 2 && path.first() == a && path.last() == b;
    let rest = path.skip(1);
    assert(links(edges, path, 0));
    assert forall|i: int| 0 <= i < rest.len() - 1 implies #[trigger] links(edges, rest, i) by {
        assert(links(edges, path, i + 1));
    }
    assert(is_path(edges, rest) && rest.first() == path[1] && rest.last() == b);
    path[1]
}

/// A way down from `a` to `b` ends with an edge from a node that `a` reaches.
pub proof fn lemma_last_step(edges: Seq<(int, int)>, a: int, b: int) -> (before: int)
    requires
        reaches_below(edges, a, b),
    ensures
        has_edge(edges, before, b),
        reaches(edges, a, before),
{
    let path = choose|path: Seq<int>|
        #[trigger] is_path(edges, path) && path.len() >= 2 && path.first() == a && path.last() == b;
    let rest = path.drop_last();
    assert(links(edges, path, path.len() - 2));
    assert forall|i: int| 0 <= i < rest.len() - 1 implies #[trigger] links(edges, rest, i) by {
        assert(links(edges, path, i));
    }
    assert(is_path(edges, rest) && rest.first() == a && rest.last() == path[path.len() - 2]);
    path[path.len() - 2]
}

impl TreeView {
    /// The nodes among `a` and its descendants.
    pub open spec fn clade(self, a: int) -> Set<int> {
        Set::new(|y: int| self.has_node(y) && self.reaches(a, y))
    }

    /// The root of a graph with one root is a root, and the only one.
    pub proof fn lemma_root(self)
        requires
            self.has_unique_root(),
        ensures
            self.is_root(self.root()),
            forall|s: int| self.is_root(s) ==> s == self.root(),
    {
    }

    /// Nothing lies above the root.
    pub proof fn lemma_root_has_no_ancestor(self, a: int)
        requires
            self.has_unique_root(),
        ensures
            !self.is_ancestor(a, self.root()),
    {
        self.lemma_root();
        if self.is_ancestor(a, self.root()) {
            lemma_last_step(self.edges, a, self.root());
        }
    }

    /// In a tree the only edge into a child comes from its parent: what lies
    /// above the child is the parent or lies above it.
    pub proof fn lemma_above_child(self, a: int, parent: int, child: int)
        requires
            self.is_tree(),
            has_edge(self.edges, parent, child),
            self.is_ancestor(a, child),
        ensures
            self.reaches(a, parent),
    {
        self.lemma_root();
        let before = lemma_last_step(self.edges, a, child);
        let k1 = choose|k: int| 0 <= k < self.edges.len() && #[trigger] self.edges[k] == (parent, child);
        let k2 = choose|k: int| 0 <= k < self.edges.len() && #[trigger] self.edges[k] == (before, child);
        assert(self.has_one_parent(child));
        assert(self.enters(k1, child) && self.enters(k2, child));
    }

    /// A path that comes back to where it started, at a node that the root
    /// reaches, is that node alone.
    proof fn lemma_no_cycle_at(self, from_root: Seq<int>, cycle: Seq<int>)
        requires
            self.is_tree(),
            is_path(self.edges, from_root),
            from_root.first() == self.root(),
            is_path(self.edges, cycle),
            cycle.first() == from_root.last(),
            cycle.last() == from_root.last(),
        ensures
            cycle.len() == 1,
        decreases from_root.len(),
    {
        if cycle.len() != 1 {
            let a = from_root.last();
            let n = cycle.len() as int;
            assert(links(self.edges, cycle, n - 2));
            let above = cycle[n - 2];
            lemma_edge_reaches(self.edges, above, a);
            if from_root.len() == 1 {
                self.lemma_root_has_no_ancestor(above);
            } else {
                let m = from_root.len() as int;
                let parent = from_root[m - 2];
                assert(links(self.edges, from_root, m - 2));
                let k1 = choose|k: int| 0 <= k < self.edges.len() && #[trigger] self.edges[k] == (parent, a);
                let k2 = choose|k: int| 0 <= k < self.edges.len() && #[trigger] self.edges[k] == (above, a);
                self.lemma_root();
                assert(self.has_one_parent(a));
                assert(self.enters(k1, a) && self.enters(k2, a));
                let shorter = from_root.drop_last();
                assert forall|i: int| 0 <= i < shorter.len() - 1 implies #[trigger] links(
                    self.edges,
                    shorter,
                    i,
                ) by {
                    assert(links(self.edges, from_root, i));
                }
                let turned = seq![parent] + cycle.drop_last();
                assert forall|i: int| 0 <= i < turned.len() - 1 implies #[trigger] links(
                    self.edges,
                    turned,
                    i,
                ) by {
                    if i > 0 {
                        assert(links(self.edges, cycle, i - 1));
                    }
                }
                self.lemma_no_cycle_at(shorter, turned);
            }
        }
    }

    /// A tree has no cycle: no node lies below itself.
    pub proof fn lemma_acyclic(self, a: int)
        requires
            self.is_tree(),
        ensures
            !self.is_ancestor(a, a),
    {
        if self.is_ancestor(a, a) {
            let cycle = choose|path: Seq<int>|
                #[trigger] is_path(self.edges, path) && path.len() >= 2 && path.first() == a
                    && path.last() == a;
            assert(links(self.edges, cycle, 0));
            assert(self.reaches(self.root(), a));
            let from_root = choose|path: Seq<int>|
                #[trigger] is_path(self.edges, path) && path.first() == self.root() && path.last()
                    == a;
            self.lemma_no_cycle_at(from_root, cycle);
        }
    }

    /// In a tree no node reaches its parent.
    pub proof fn lemma_child_below(self, parent: int, child: int)
        requires
            self.is_tree(),
            has_edge(self.edges, parent, child),
        ensures
            !self.reaches(child, parent),
            parent != child,
    {
        lemma_edge_reaches(self.edges, parent, child);
        lemma_reaches_cases(self.edges, child, child);
        if self.reaches(child, parent) {
            lemma_reaches_trans(self.edges, parent, child, parent);
            self.lemma_acyclic(parent);
        }
    }

    /// A clade is a set of nodes of the tree, so it is finite, and so are its
    /// tips and its targets; of the tips, the targets are a part.
    pub proof fn lemma_clade_finite(self, a: int)
        ensures
            self.clade(a).finite(),
            self.clade(a).len() <= self.nodes.len(),
            self.tips_below(a).finite(),
            self.targets_below(a).finite(),
            self.clade_targets(a) <= self.clade_size(a) <= self.nodes.len(),
    {
        let all = set_int_range(0, self.nodes.len() as int);
        lemma_int_range(0, self.nodes.len() as int);
        lemma_len_subset(self.clade(a), all);
        lemma_len_subset(self.tips_below(a), all);
        lemma_len_subset(self.targets_below(a), self.tips_below(a));
    }

    /// The clade of a node holds the clades of what the node reaches.
    pub proof fn lemma_clade_monotone(self, a: int, b: int)
        requires
            self.reaches(a, b),
        ensures
            self.clade(b).subset_of(self.clade(a)),
            self.tips_below(b).subset_of(self.tips_below(a)),
            self.targets_below(b).subset_of(self.targets_below(a)),
            self.clade_size(b) <= self.clade_size(a),
            self.clade_targets(b) <= self.clade_targets(a),
    {
        assert forall|y: int| self.reaches(b, y) implies self.reaches(a, y) by {
            lemma_reaches_trans(self.edges, a, b, y);
        }
        self.lemma_clade_finite(a);
        lemma_len_subset(self.tips_below(b), self.tips_below(a));
        lemma_len_subset(self.targets_below(b), self.targets_below(a));
    }

    /// In a tree every clade holds a tip.
    pub proof fn lemma_has_tip(self, a: int) -> (tip: int)
        requires
            self.is_tree(),
            self.has_node(a),
        ensures
            self.tips_below(a).contains(tip),
        decreases self.clade(a).len(),
    {
        lemma_reaches_cases(self.edges, a, a);
        if self.is_leaf(a) {
            a
        } else {
            let k = choose|k: int| 0 <= k < self.edges.len() && (#[trigger] self.edges[k]).0 == a;
            let child = self.edges[k].1;
            lemma_edge_reaches(self.edges, a, child);
            self.lemma_child_below(a, child);
            self.lemma_clade_monotone(a, child);
            self.lemma_clade_finite(a);
            lemma_len_subset(self.clade(child), self.clade(a).remove(a));
            self.lemma_has_tip(child)
        }
    }

    /// In a tree no clade is without tips.
    pub proof fn lemma_clade_has_size(self, a: int)
        requires
            self.is_tree(),
            self.has_node(a),
        ensures
            self.clade_size(a) > 0,
    {
        self.lemma_has_tip(a);
        self.lemma_clade_finite(a);
    }

    /// The children of a node are the targets of its edges, each a node of the
    /// tree; in a tree none comes twice.
    pub proof fn lemma_children(self, a: int)
        requires
            self.edges_in_bounds(),
        ensures
            forall|j: int|
                0 <= j < self.children(a).len() ==> has_edge(self.edges, a, #[trigger] self.children(a)[j])
                    && self.has_node(self.children(a)[j]),
            forall|c: int| has_edge(self.edges, a, c) ==> self.children(a).contains(c),
            self.is_tree() ==> self.children(a).no_duplicates(),
    {
        lemma_incident(self.edges, a, true);
        let idx = incident_indices(self.edges, a, true);
        let inc = incident_edges(self.edges, a, true);
        let kids = self.children(a);
        let n = inc.len() as int;
        assert forall|j: int| 0 <= j < kids.len() implies has_edge(self.edges, a, #[trigger] kids[j])
            && self.has_node(kids[j]) by {
            assert(inc[n - 1 - j] == self.edges[idx[n - 1 - j]]);
        }
        assert forall|c: int| has_edge(self.edges, a, c) implies kids.contains(c) by {
            let k = choose|k: int| 0 <= k < self.edges.len() && #[trigger] self.edges[k] == (a, c);
            let j = choose|j: int| 0 <= j < idx.len() && idx[j] == k;
            assert(kids[n - 1 - j] == c);
        }
        if self.is_tree() {
            self.lemma_root();
            assert forall|i: int, j: int| 0 <= i < j < kids.len() implies kids[i] != kids[j] by {
                let k1 = idx[n - 1 - i];
                let k2 = idx[n - 1 - j];
                if kids[i] == kids[j] {
                    let c = kids[i];
                    assert(self.has_one_parent(c));
                    assert(self.enters(k1, c) && self.enters(k2, c));
                }
            }
        }
    }
}

} // verus!
