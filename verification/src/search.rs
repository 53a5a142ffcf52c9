//! What the search for clusters returns, step by step and as a whole: the
//! walk over the tree as a function, the property that selects a cluster
//! root, and the proof that the walk finds the nodes with that property.

use vstd::prelude::*;
use vstd::seq_lib::lemma_no_dup_in_concat;
use vstd::set_lib::{lemma_int_range, lemma_len_subset, set_int_range};
use crate::model::{has_edge, TreeView};
use crate::stats::{lemma_qualifying_has_min_targets, StatsView};
use crate::tree::{lemma_edge_reaches, lemma_first_step, lemma_reaches_cases, lemma_reaches_trans};

verus! {

/// What the search makes of a clade.
#[derive(Debug, Clone, Copy, PartialEq, Eq, Structural)]
pub enum Verdict {
    /// The clade is a cluster; nothing below it is looked at.
    Qualifies,
    /// The clade holds too few targets for any cluster; nothing below it is
    /// looked at.
    Pruned,
    /// The clade is no cluster, but one may lie below it.
    Expand,
}

impl TreeView {
    /// The clade of `a` reaches the threshold in proportion and in size.
    pub open spec fn qualifies(self, threshold: StatsView, a: int) -> bool {
        self.clade_stats(a).qualifies(threshold)
    }

    /// What the search makes of the clade of `a`.
    pub open spec fn verdict(self, threshold: StatsView, a: int) -> Verdict {
        if self.qualifies(threshold, a) {
            Verdict::Qualifies
        } else if self.clade_targets(a) < threshold.targets {
            Verdict::Pruned
        } else {
            Verdict::Expand
        }
    }

    /// `c` is no tip, and the search makes `wanted` of its clade.
    pub open spec fn is_judged(self, threshold: StatsView, c: int, wanted: Verdict) -> bool {
        !self.nodes[c].is_tip && self.verdict(threshold, c) == wanted
    }

    /// Those of `kids` that are no tips and of whose clades the search makes
    /// `wanted`, in their order.
    pub open spec fn pick(self, threshold: StatsView, kids: Seq<int>, wanted: Verdict) -> Seq<int>
        decreases kids.len(),
    {
        if kids.len() == 0 {
            Seq::empty()
        } else {
            let before = self.pick(threshold, kids.drop_last(), wanted);
            if self.is_judged(threshold, kids.last(), wanted) {
                before.push(kids.last())
            } else {
                before
            }
        }
    }

    /// The clusters that the search finds from a queue of nodes to expand, in
    /// the order in which it finds them. It takes the first node off the
    /// queue, adds its children that qualify to the clusters, and puts those
    /// that may hold a cluster at the end of the queue. `fuel` bounds the
    /// number of nodes taken off.
    pub open spec fn search(self, threshold: StatsView, queue: Seq<int>, fuel: nat) -> Seq<int>
        decreases fuel,
    {
        if fuel == 0 || queue.len() == 0 {
            Seq::empty()
        } else {
            let kids = self.children(queue[0]);
            self.pick(threshold, kids, Verdict::Qualifies) + self.search(
                threshold,
                queue.skip(1) + self.pick(threshold, kids, Verdict::Expand),
                (fuel - 1) as nat,
            )
        }
    }

    /// The cluster roots in the order in which the search finds them, level
    /// by level from the root, the children of a node in the order of their
    /// edges.
    pub open spec fn cluster_roots(self, threshold: StatsView) -> Seq<int> {
        match self.verdict(threshold, self.root()) {
            Verdict::Qualifies => seq![self.root()],
            Verdict::Pruned => Seq::empty(),
            Verdict::Expand => self.search(threshold, seq![self.root()], self.nodes.len()),
        }
    }

    /// `n` is the root of a cluster: the root of the tree or an inner node,
    /// whose clade qualifies, and that lies in no other clade that qualifies.
    pub open spec fn is_cluster_root(self, threshold: StatsView, n: int) -> bool {
        &&& self.has_node(n)
        &&& n == self.root() || !self.nodes[n].is_tip
        &&& self.qualifies(threshold, n)
        &&& forall|a: int| #[trigger] self.is_ancestor(a, n) ==> !self.qualifies(threshold, a)
    }

    /// Neither the clade of `x` nor one that holds it qualifies.
    pub open spec fn is_open(self, threshold: StatsView, x: int) -> bool {
        &&& !self.qualifies(threshold, x)
        &&& forall|a: int| #[trigger] self.is_ancestor(a, x) ==> !self.qualifies(threshold, a)
    }

    /// A node of `queue` reaches `y`.
    pub open spec fn is_under(self, queue: Seq<int>, y: int) -> bool {
        exists|i: int| 0 <= i < queue.len() && self.reaches(#[trigger] queue[i], y)
    }

    /// `y` lies below a node of `queue`.
    pub open spec fn is_below(self, queue: Seq<int>, y: int) -> bool {
        exists|i: int| 0 <= i < queue.len() && self.is_ancestor(#[trigger] queue[i], y)
    }

    /// The nodes in the clades of `queue`.
    pub open spec fn clades(self, queue: Seq<int>) -> Set<int> {
        Set::new(|y: int| self.has_node(y) && self.is_under(queue, y))
    }

    /// What holds of the queue while the search runs: its nodes are nodes of
    /// the tree, none of them reaches another, and neither their clades nor
    /// those above them qualify.
    pub open spec fn is_frontier(self, threshold: StatsView, queue: Seq<int>) -> bool {
        &&& forall|i: int| 0 <= i < queue.len() ==> self.has_node(#[trigger] queue[i])
        &&& forall|i: int, j: int|
            0 <= i < queue.len() && 0 <= j < queue.len() && i != j ==> !self.reaches(
                #[trigger] queue[i],
                #[trigger] queue[j],
            )
        &&& forall|i: int| 0 <= i < queue.len() ==> self.is_open(threshold, #[trigger] queue[i])
    }

    /// What `pick` holds: the picked are among `kids` and judged as wanted,
    /// none that is judged so is left out, and none comes twice unless it
    /// does so in `kids`.
    pub proof fn lemma_pick(self, threshold: StatsView, kids: Seq<int>, wanted: Verdict)
        ensures
            forall|j: int|
                0 <= j < self.pick(threshold, kids, wanted).len() ==> kids.contains(
                    #[trigger] self.pick(threshold, kids, wanted)[j],
                ) && self.is_judged(threshold, self.pick(threshold, kids, wanted)[j], wanted),
            forall|i: int|
                0 <= i < kids.len() && self.is_judged(threshold, #[trigger] kids[i], wanted)
                    ==> self.pick(threshold, kids, wanted).contains(kids[i]),
            kids.no_duplicates() ==> self.pick(threshold, kids, wanted).no_duplicates(),
        decreases kids.len(),
    {
        if kids.len() > 0 {
            let shorter = kids.drop_last();
            let before = self.pick(threshold, shorter, wanted);
            let picked = self.pick(threshold, kids, wanted);
            self.lemma_pick(threshold, shorter, wanted);
            assert forall|i: int|
                0 <= i < kids.len() && self.is_judged(
                    threshold,
                    #[trigger] kids[i],
                    wanted,
                ) implies picked.contains(kids[i]) by {
                if i < shorter.len() {
                    let j = before.index_of(shorter[i]);
                    assert(picked[j] == kids[i]);
                } else {
                    assert(picked[picked.len() - 1] == kids[i]);
                }
            }
            assert(kids.no_duplicates() ==> shorter.no_duplicates());
        }
    }

    /// Picking from one more of `kids` adds that one where it is judged as
    /// wanted.
    pub proof fn lemma_pick_next(self, threshold: StatsView, kids: Seq<int>, done: int, wanted: Verdict)
        requires
            0 <= done < kids.len(),
        ensures
            self.pick(threshold, kids.take(done + 1), wanted) == if self.is_judged(
                threshold,
                kids[done],
                wanted,
            ) {
                self.pick(threshold, kids.take(done), wanted).push(kids[done])
            } else {
                self.pick(threshold, kids.take(done), wanted)
            },
    {
        assert(kids.take(done + 1).drop_last() =~= kids.take(done));
    }

    /// The clades of a queue are nodes of the tree, so there are no more of
    /// them than the tree has nodes; and a queue that holds a node has a
    /// clade.
    pub proof fn lemma_clades_finite(self, queue: Seq<int>)
        ensures
            self.clades(queue).finite(),
            self.clades(queue).len() <= self.nodes.len(),
            queue.len() > 0 && self.has_node(queue[0]) ==> self.clades(queue).len() > 0,
    {
        let all = set_int_range(0, self.nodes.len() as int);
        lemma_int_range(0, self.nodes.len() as int);
        lemma_len_subset(self.clades(queue), all);
        if queue.len() > 0 && self.has_node(queue[0]) {
            lemma_reaches_cases(self.edges, queue[0], queue[0]);
            assert(self.clades(queue).contains(queue[0]));
        }
    }

    /// A child of `x` and a node that neither reaches `x` nor is reached from
    /// it do not reach one another.
    pub proof fn lemma_apart(self, x: int, child: int, q: int)
        requires
            self.is_tree(),
            has_edge(self.edges, x, child),
            !self.reaches(q, x),
            !self.reaches(x, q),
        ensures
            !self.reaches(q, child),
            !self.reaches(child, q),
    {
        lemma_edge_reaches(self.edges, x, child);
        if self.reaches(q, child) {
            lemma_reaches_cases(self.edges, q, child);
            if q != child {
                self.lemma_above_child(q, x, child);
            }
        }
        if self.reaches(child, q) {
            lemma_reaches_trans(self.edges, x, child, q);
        }
    }

    /// Two children of one node do not reach one another.
    pub proof fn lemma_siblings_apart(self, x: int, one: int, other: int)
        requires
            self.is_tree(),
            has_edge(self.edges, x, one),
            has_edge(self.edges, x, other),
            one != other,
        ensures
            !self.reaches(one, other),
    {
        if self.reaches(one, other) {
            lemma_reaches_cases(self.edges, one, other);
            self.lemma_above_child(one, x, other);
            self.lemma_child_below(x, one);
        }
    }

    /// Below an open node its children are open too, unless they qualify.
    pub proof fn lemma_child_open(self, threshold: StatsView, x: int, child: int)
        requires
            self.is_tree(),
            self.is_open(threshold, x),
            has_edge(self.edges, x, child),
            !self.qualifies(threshold, child),
        ensures
            self.is_open(threshold, child),
    {
        assert forall|a: int| #[trigger] self.is_ancestor(a, child) implies !self.qualifies(
            threshold,
            a,
        ) by {
            self.lemma_above_child(a, x, child);
            lemma_reaches_cases(self.edges, a, x);
            if a != x {
                assert(self.is_ancestor(a, x));
            }
        }
    }

    /// A child of an open node that is no tip and qualifies is a cluster root.
    pub proof fn lemma_child_found(self, threshold: StatsView, x: int, child: int)
        requires
            self.is_tree(),
            self.is_open(threshold, x),
            has_edge(self.edges, x, child),
            self.has_node(child),
            self.is_judged(threshold, child, Verdict::Qualifies),
        ensures
            self.is_cluster_root(threshold, child),
            self.is_ancestor(x, child),
    {
        lemma_edge_reaches(self.edges, x, child);
        assert forall|a: int| #[trigger] self.is_ancestor(a, child) implies !self.qualifies(
            threshold,
            a,
        ) by {
            self.lemma_above_child(a, x, child);
            lemma_reaches_cases(self.edges, a, x);
            if a != x {
                assert(self.is_ancestor(a, x));
            }
        }
    }

    /// A node above a cluster root is no tip, and the search expands it.
    pub proof fn lemma_above_cluster_root(self, threshold: StatsView, c: int, n: int)
        requires
            self.is_tree(),
            threshold.wf(),
            self.has_node(c),
            self.is_cluster_root(threshold, n),
            self.is_ancestor(c, n),
        ensures
            self.is_judged(threshold, c, Verdict::Expand),
    {
        lemma_first_step(self.edges, c, n);
        lemma_reaches_cases(self.edges, c, n);
        self.lemma_clade_monotone(c, n);
        lemma_qualifying_has_min_targets(self.clade_size(n), self.clade_targets(n), threshold);
    }

    /// One step of the search keeps the queue a frontier, and leaves fewer
    /// nodes in its clades.
    pub proof fn lemma_step(self, threshold: StatsView, queue: Seq<int>)
        requires
            self.is_tree(),
            self.is_frontier(threshold, queue),
            queue.len() > 0,
        ensures
            self.is_frontier(
                threshold,
                queue.skip(1) + self.pick(threshold, self.children(queue[0]), Verdict::Expand),
            ),
            self.clades(
                queue.skip(1) + self.pick(threshold, self.children(queue[0]), Verdict::Expand),
            ).len() < self.clades(queue).len(),
    {
        let x = queue[0];
        let kids = self.children(x);
        let rest = queue.skip(1);
        let opened = self.pick(threshold, kids, Verdict::Expand);
        let next = rest + opened;
        self.lemma_children(x);
        self.lemma_pick(threshold, kids, Verdict::Expand);
        lemma_reaches_cases(self.edges, x, x);
        assert forall|j: int| 0 <= j < opened.len() implies has_edge(
            self.edges,
            x,
            #[trigger] opened[j],
        ) && self.has_node(opened[j]) && self.is_open(threshold, opened[j]) && !self.reaches(
            opened[j],
            x,
        ) by {
            self.lemma_child_open(threshold, x, opened[j]);
            self.lemma_child_below(x, opened[j]);
        }
        assert forall|i: int, j: int|
            0 <= i < next.len() && 0 <= j < next.len() && i != j implies !self.reaches(
            #[trigger] next[i],
            #[trigger] next[j],
        ) by {
            if i < rest.len() && j < rest.len() {
            } else if i < rest.len() {
                self.lemma_apart(x, next[j], next[i]);
            } else if j < rest.len() {
                self.lemma_apart(x, next[i], next[j]);
            } else {
                self.lemma_siblings_apart(x, next[i], next[j]);
            }
        }
        assert forall|y: int| self.clades(next).contains(y) implies self.clades(queue).remove(
            x,
        ).contains(y) by {
            let i = choose|i: int| 0 <= i < next.len() && self.reaches(#[trigger] next[i], y);
            if !(i < rest.len()) {
                lemma_edge_reaches(self.edges, x, next[i]);
                lemma_reaches_trans(self.edges, x, next[i], y);
            }
        }
        self.lemma_clades_finite(queue);
        lemma_len_subset(self.clades(next), self.clades(queue).remove(x));
    }

    /// The search from a frontier, with fuel for every node in its clades,
    /// finds each cluster root below the frontier once, and nothing else.
    pub proof fn lemma_search(self, threshold: StatsView, queue: Seq<int>, fuel: nat)
        requires
            self.is_tree(),
            threshold.wf(),
            self.is_frontier(threshold, queue),
            fuel >= self.clades(queue).len(),
        ensures
            self.search(threshold, queue, fuel).no_duplicates(),
            forall|n: int|
                #![trigger self.search(threshold, queue, fuel).contains(n)]
                #![trigger self.is_cluster_root(threshold, n)]
                self.search(threshold, queue, fuel).contains(n) <==> self.is_cluster_root(
                    threshold,
                    n,
                ) && self.is_below(queue, n),
        decreases fuel,
    {
        self.lemma_clades_finite(queue);
        if queue.len() > 0 {
            let x = queue[0];
            let kids = self.children(x);
            let rest = queue.skip(1);
            let found = self.pick(threshold, kids, Verdict::Qualifies);
            let opened = self.pick(threshold, kids, Verdict::Expand);
            let next = rest + opened;
            let later = self.search(threshold, next, (fuel - 1) as nat);
            let all = self.search(threshold, queue, fuel);
            self.lemma_children(x);
            self.lemma_pick(threshold, kids, Verdict::Qualifies);
            self.lemma_pick(threshold, kids, Verdict::Expand);
            self.lemma_root();
            self.lemma_step(threshold, queue);
            self.lemma_search(threshold, next, (fuel - 1) as nat);
            assert forall|j: int| 0 <= j < found.len() implies has_edge(
                self.edges,
                x,
                #[trigger] found[j],
            ) && self.is_cluster_root(threshold, found[j]) && self.is_ancestor(x, found[j]) by {
                self.lemma_child_found(threshold, x, found[j]);
            }
            assert forall|n: int| self.is_below(next, n) implies self.is_below(queue, n) by {
                let i = choose|i: int| 0 <= i < next.len() && self.is_ancestor(#[trigger] next[i], n);
                if !(i < rest.len()) {
                    lemma_edge_reaches(self.edges, x, next[i]);
                    lemma_reaches_cases(self.edges, next[i], n);
                    lemma_reaches_trans(self.edges, x, next[i], n);
                }
            }
            assert forall|n: int|
                #![trigger all.contains(n)]
                #![trigger self.is_cluster_root(threshold, n)]
                all.contains(n) <==> self.is_cluster_root(threshold, n) && self.is_below(
                    queue,
                    n,
                ) by {
                if self.is_cluster_root(threshold, n) && self.is_below(queue, n) {
                    let i = choose|i: int|
                        0 <= i < queue.len() && self.is_ancestor(#[trigger] queue[i], n);
                    if i >= 1 {
                        assert(next[i - 1] == queue[i]);
                        let j = later.index_of(n);
                        assert(all[found.len() + j] == n);
                    } else {
                        let c = lemma_first_step(self.edges, x, n);
                        if c == n {
                            let j = found.index_of(n);
                            assert(all[j] == n);
                        } else {
                            lemma_reaches_cases(self.edges, c, n);
                            self.lemma_above_cluster_root(threshold, c, n);
                            let m = opened.index_of(c);
                            assert(next[rest.len() + m] == c);
                            let j = later.index_of(n);
                            assert(all[found.len() + j] == n);
                        }
                    }
                }
            }
            assert forall|i: int, j: int| 0 <= i < found.len() && 0 <= j < later.len() implies found[i]
                != later[j] by {
                if found[i] == later[j] {
                    let n = found[i];
                    let m = choose|m: int|
                        0 <= m < next.len() && self.is_ancestor(#[trigger] next[m], n);
                    self.lemma_above_child(next[m], x, n);
                    if !(m < rest.len()) {
                        self.lemma_child_below(x, next[m]);
                    }
                }
            }
            lemma_no_dup_in_concat(found, later);
        }
    }

    /// In a tree, the search finds each cluster root once, and nothing else.
    pub proof fn lemma_cluster_roots(self, threshold: StatsView)
        requires
            self.is_tree(),
            threshold.wf(),
        ensures
            self.cluster_roots(threshold).no_duplicates(),
            forall|n: int|
                #![trigger self.cluster_roots(threshold).contains(n)]
                #![trigger self.is_cluster_root(threshold, n)]
                self.cluster_roots(threshold).contains(n) <==> self.is_cluster_root(threshold, n),
    {
        let root = self.root();
        let all = self.cluster_roots(threshold);
        self.lemma_root();
        assert forall|a: int| !self.is_ancestor(a, root) by {
            self.lemma_root_has_no_ancestor(a);
        }
        assert forall|n: int| self.has_node(n) && n != root implies self.is_ancestor(root, n) by {
            assert(self.reaches(root, n));
            lemma_reaches_cases(self.edges, root, n);
        }
        match self.verdict(threshold, root) {
            Verdict::Qualifies => {
                assert(all[0] == root);
            },
            Verdict::Pruned => {
                assert forall|n: int|
                    #![trigger all.contains(n)]
                    #![trigger self.is_cluster_root(threshold, n)]
                    all.contains(n) <==> self.is_cluster_root(threshold, n) by {
                    if self.is_cluster_root(threshold, n) {
                        self.lemma_clade_monotone(root, n);
                        lemma_qualifying_has_min_targets(
                            self.clade_size(n),
                            self.clade_targets(n),
                            threshold,
                        );
                    }
                }
            },
            Verdict::Expand => {
                let queue = seq![root];
                self.lemma_clades_finite(queue);
                self.lemma_search(threshold, queue, self.nodes.len());
            },
        }
    }
}

} // verus!
