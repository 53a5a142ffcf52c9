//! The tables at the two ends of the search: the rows that describe a tree,
//! and the rows that list the clusters found. Reading and writing the files
//! is left to the caller.

use std::collections::HashMap;
use vstd::prelude::*;
use vstd::string::StringExecFns;
use petgraph::graph::{DiGraph, NodeIndex};
use crate::clusters::NodeW;
use crate::error::TreeError;
use crate::graph::{add_edge, add_node, graph_edges, graph_nodes, new_graph, node_position, tree_view};
use crate::lines::{lines_of, split_lines};
use crate::model::{has_edge, TreeView};
use crate::tree::{lemma_first_step, lemma_reaches_cases};

verus! {

/// Read a list of targets (one per line) from a plain text: its lines.
pub fn read_targets(text: &str) -> (targets: Vec<String>)
    ensures
        targets.deep_view() == lines_of(text@),
{
    split_lines(text)
}

/// A row of a phylo4 table: a node's label and number, the number of its
/// ancestor (0 for the root), and `tip` or another word for the kind of node.
#[derive(Debug)]
pub struct Phylo4Row {
    pub label: String,
    pub node: usize,
    pub ancestor: usize,
    pub nodetype: String,
}

/// The node that a row describes, not yet a target.
pub open spec fn node_of_row(row: Phylo4Row) -> NodeW {
    NodeW { index: row.node, label: row.label, is_tip: row.nodetype@ == "tip"@, is_target: false }
}

/// A row of `rows` describes node `id`.
pub open spec fn has_row(rows: Seq<Phylo4Row>, id: usize) -> bool {
    exists|k: int| 0 <= k < rows.len() && (#[trigger] rows[k]).node == id
}

/// Row `k` is the last of `rows` that describes node `id`.
pub open spec fn is_last_row(rows: Seq<Phylo4Row>, id: usize, k: int) -> bool {
    &&& 0 <= k < rows.len()
    &&& rows[k].node == id
    &&& forall|j: int| k < j < rows.len() ==> (#[trigger] rows[j]).node != id
}

/// The place of the last of `rows` that describes node `id`: a number stands
/// for the node of the last row that bears it.
pub open spec fn last_row(rows: Seq<Phylo4Row>, id: usize) -> int {
    choose|k: int| is_last_row(rows, id, k)
}

/// The edges that the first `upto` rows ask for, each from the row's
/// ancestor to its node. The row of the root asks for none.
pub open spec fn edges_of_rows(rows: Seq<Phylo4Row>, upto: int) -> Seq<(int, int)>
    decreases upto,
{
    if upto <= 0 {
        Seq::empty()
    } else {
        let before = edges_of_rows(rows, upto - 1);
        let row = rows[upto - 1];
        if row.ancestor != 0 {
            before.push((last_row(rows, row.ancestor), last_row(rows, row.node)))
        } else {
            before
        }
    }
}

/// The tree that `rows` describe: a node for each row, in the order of the
/// rows, and an edge for each row but the root's, in that order too.
pub open spec fn tree_of_rows(rows: Seq<Phylo4Row>) -> TreeView {
    TreeView {
        nodes: rows.map_values(|row: Phylo4Row| node_of_row(row)),
        edges: edges_of_rows(rows, rows.len() as int),
    }
}

/// A row names an ancestor that no row describes.
pub open spec fn has_dangling_row(rows: Seq<Phylo4Row>) -> bool {
    exists|k: int|
        0 <= k < rows.len() && (#[trigger] rows[k]).ancestor != 0 && !has_row(rows, rows[k].ancestor)
}

/// Read a phylogeny in phylo4 format: the tree of the rows of the table. A row
/// whose ancestor no row describes is refused. The graph has room for
/// `u32::MAX` nodes.
pub fn read_phylo4(rows: &Vec<Phylo4Row>) -> (tree: Result<DiGraph<NodeW, ()>, TreeError>)
    requires
        rows.len() <= u32::MAX,
    ensures
        tree is Err <==> has_dangling_row(rows@),
        tree matches Err(e) ==> e == TreeError::DanglingReference,
        tree matches Ok(g) ==> tree_view(g) == tree_of_rows(rows@),
{
    broadcast use vstd::std_specs::hash::group_hash_axioms;
    // Init tree

    let mut tree: DiGraph<NodeW, ()> = new_graph();
    let mut tree_index: HashMap<usize, NodeIndex> = HashMap::new();
    let tip = String::from_str("tip");
    // First pass: insert nodes
    let mut i: usize = 0;
    while i < rows.len()
        invariant
            i <= rows.len() <= u32::MAX,
            tip@ == "tip"@,
            graph_edges(tree) == Seq::<(int, int)>::empty(),
            graph_nodes(tree) == rows@.take(i as int).map_values(|row: Phylo4Row| node_of_row(row)),
            forall|id: usize| tree_index@.contains_key(id) <==> has_row(rows@.take(i as int), id),
            forall|id: usize| #[trigger]
                tree_index@.contains_key(id) ==> is_last_row(
                    rows@.take(i as int),
                    id,
                    node_position(tree_index@[id]),
                ),
        decreases rows.len() - i,
    {
        let ghost now = rows@.take(i + 1);
        let ghost earlier = tree_index@;
        // Insert node in tree
        let row = &rows[i];
        let is_tip: bool = row.nodetype == tip;
        let weight = NodeW { index: row.node, label: row.label.clone(), is_tip, is_target: false };
        let node_index = add_node(&mut tree, weight);
        // Insert node in index
        tree_index.insert(row.node, node_index);
        proof {
            assert(now.last() == rows[i as int]);
            assert forall|id: usize| #[trigger] tree_index@.contains_key(id) implies is_last_row(
                now,
                id,
                node_position(tree_index@[id]),
            ) by {
                if id != row.node {
                    assert(is_last_row(rows@.take(i as int), id, node_position(earlier[id])));
                }
            }
        }
        i = i + 1;
    }
    proof {
        assert(rows@.take(rows.len() as int) =~= rows@);
    }
    // Second pass: insert edges
    let mut i: usize = 0;
    let mut n_edges: usize = 0;
    while i < rows.len()
        invariant
            i <= rows.len() <= u32::MAX,
            n_edges <= i,
            n_edges == graph_edges(tree).len(),
            graph_nodes(tree) == rows@.map_values(|row: Phylo4Row| node_of_row(row)),
            graph_edges(tree) == edges_of_rows(rows@, i as int),
            forall|id: usize| tree_index@.contains_key(id) <==> has_row(rows@, id),
            forall|id: usize| #[trigger]
                tree_index@.contains_key(id) ==> is_last_row(rows@, id, node_position(tree_index@[id])),
            forall|k: int|
                0 <= k < i && (#[trigger] rows[k]).ancestor != 0 ==> has_row(rows@, rows[k].ancestor),
        decreases rows.len() - i,
    {
        let row = &rows[i];
        if row.ancestor != 0 {
            // Get source (ancestor) and target (node) from index
            let source = match tree_index.get(&row.ancestor) {
                Some(source) => *source,
                None => {
                    return Err(TreeError::DanglingReference);
                },
            };
            proof {
                assert(has_row(rows@, row.node));
            }
            let target = match tree_index.get(&row.node) {
                Some(target) => *target,
                None => {
                    return Err(TreeError::DanglingReference);
                },
            };
            proof {
                lemma_last_row(rows@, row.ancestor, node_position(source));
                lemma_last_row(rows@, row.node, node_position(target));
            }
            // Insert edge in tree
            add_edge(&mut tree, source, target);
            n_edges = n_edges + 1;
        }
        i = i + 1;
    }
    proof {
        assert forall|k: int| 0 <= k < rows.len() && (#[trigger] rows[k]).ancestor != 0 implies has_row(
            rows@,
            rows[k].ancestor,
        ) by {}
    }
    Ok(tree)
}

/// The last row that describes a node is one row, and no other.
pub proof fn lemma_last_row(rows: Seq<Phylo4Row>, id: usize, k: int)
    requires
        is_last_row(rows, id, k),
    ensures
        last_row(rows, id) == k,
{
}

/// A row of the table of clusters: the number of a cluster, from 1, and the
/// label of one of its tips.
#[derive(Debug)]
pub struct OutputRow {
    pub cluster_id: usize,
    pub label: String,
}

impl View for OutputRow {
    type V = (nat, Seq<char>);

    open spec fn view(&self) -> (nat, Seq<char>) {
        (self.cluster_id as nat, self.label@)
    }
}

/// The rows of the first `upto` clusters: for each cluster in turn, a row for
/// each of its labels in turn, with the cluster's number, counted from 1.
pub open spec fn cluster_rows(clusters: Seq<Seq<Seq<char>>>, upto: int) -> Seq<(nat, Seq<char>)>
    decreases upto,
{
    if upto <= 0 {
        Seq::empty()
    } else {
        cluster_rows(clusters, upto - 1) + clusters[upto - 1].map_values(
            |label: Seq<char>| (upto as nat, label),
        )
    }
}

/// What a vector of rows holds.
pub open spec fn rows_view(rows: Seq<OutputRow>) -> Seq<(nat, Seq<char>)> {
    rows.map_values(|row: OutputRow| row@)
}

/// The rows of a simple CSV (cluster_id, label): one for each label of each
/// cluster.
pub fn write_cluster_table(clusters: &Vec<Vec<String>>) -> (table: Vec<OutputRow>)
    ensures
        rows_view(table@) == cluster_rows(clusters.deep_view(), clusters.len() as int),
{
    let ghost groups = clusters.deep_view();
    let mut table: Vec<OutputRow> = Vec::new();
    let mut i: usize = 0;
    while i < clusters.len()
        invariant
            i <= clusters.len(),
            groups == clusters.deep_view(),
            rows_view(table@) == cluster_rows(groups, i as int),
        decreases clusters.len() - i,
    {
        let cluster_labels = &clusters[i];
        let ghost labels = groups[i as int];
        let ghost numbered = |label: Seq<char>| ((i + 1) as nat, label);
        let mut j: usize = 0;
        proof {
            assert(rows_view(table@) =~= cluster_rows(groups, i as int) + labels.take(0).map_values(
                numbered,
            ));
        }
        while j < cluster_labels.len()
            invariant
                j <= cluster_labels.len(),
                i < clusters.len(),
                labels == cluster_labels.deep_view(),
                numbered == |label: Seq<char>| ((i + 1) as nat, label),
                rows_view(table@) == cluster_rows(groups, i as int) + labels.take(j as int).map_values(
                    numbered,
                ),
            decreases cluster_labels.len() - j,
        {
            let ghost so_far = rows_view(table@);
            table.push(OutputRow { cluster_id: i + 1, label: cluster_labels[j].clone() });
            proof {
                assert(rows_view(table@) =~= so_far.push(((i + 1) as nat, labels[j as int])));
                assert(labels.take(j + 1).map_values(numbered) =~= labels.take(j as int).map_values(
                    numbered,
                ).push(numbered(labels[j as int])));
            }
            j = j + 1;
        }
        i = i + 1;
    }
    table
}

/// No two rows bear the same node number.
pub open spec fn has_unique_numbers(rows: Seq<Phylo4Row>) -> bool {
    forall|i: int, j: int| 0 <= i < j < rows.len() ==> (#[trigger] rows[i]).node != (#[trigger] rows[j]).node
}

/// Where the numbers are unique, a number stands for the one row that bears
/// it.
pub proof fn lemma_row_of_number(rows: Seq<Phylo4Row>, k: int)
    requires
        has_unique_numbers(rows),
        0 <= k < rows.len(),
    ensures
        last_row(rows, rows[k].node) == k,
{
    lemma_last_row(rows, rows[k].node, k);
}

/// The last of the first `upto` rows that bears the number `id`.
pub proof fn lemma_find_last_row(rows: Seq<Phylo4Row>, id: usize, upto: int) -> (k: int)
    requires
        0 <= upto <= rows.len(),
        exists|j: int| 0 <= j < upto && (#[trigger] rows[j]).node == id,
    ensures
        0 <= k < upto,
        rows[k].node == id,
        forall|j: int| k < j < upto ==> (#[trigger] rows[j]).node != id,
    decreases upto,
{
    if rows[upto - 1].node == id {
        upto - 1
    } else {
        let j = choose|j: int| 0 <= j < upto && (#[trigger] rows[j]).node == id;
        assert(0 <= j < upto - 1 && rows[j].node == id);
        lemma_find_last_row(rows, id, upto - 1)
    }
}

/// The edge that row `k` asks for.
pub open spec fn edge_of_row(rows: Seq<Phylo4Row>, k: int) -> (int, int) {
    (last_row(rows, rows[k].ancestor), last_row(rows, rows[k].node))
}

/// One of the first `upto` rows names an ancestor and asks for `edge`.
pub open spec fn is_asked_for(rows: Seq<Phylo4Row>, upto: int, edge: (int, int)) -> bool {
    exists|k: int| 0 <= k < upto && rows[k].ancestor != 0 && #[trigger] edge_of_row(rows, k) == edge
}

/// Each edge of the tree of the rows is one that a row asks for.
pub proof fn lemma_edge_ends(rows: Seq<Phylo4Row>, upto: int)
    requires
        0 <= upto <= rows.len(),
    ensures
        forall|e: int|
            0 <= e < edges_of_rows(rows, upto).len() ==> is_asked_for(
                rows,
                upto,
                #[trigger] edges_of_rows(rows, upto)[e],
            ),
    decreases upto,
{
    if upto > 0 {
        lemma_edge_ends(rows, upto - 1);
        let before = edges_of_rows(rows, upto - 1);
        let now = edges_of_rows(rows, upto);
        assert forall|e: int| 0 <= e < now.len() implies is_asked_for(rows, upto, #[trigger] now[e]) by {
            if e < before.len() {
                assert(is_asked_for(rows, upto - 1, before[e]));
                let k = choose|k: int|
                    0 <= k < upto - 1 && rows[k].ancestor != 0 && #[trigger] edge_of_row(rows, k)
                        == before[e];
                assert(edge_of_row(rows, k) == now[e]);
            } else {
                assert(edge_of_row(rows, upto - 1) == now[e]);
            }
        }
    }
}

/// A table whose rows describe a tree gives each node one number: a row whose
/// number a later row bears again would stand alone, without an edge.
pub proof fn lemma_tree_has_unique_numbers(rows: Seq<Phylo4Row>, tree: TreeView)
    requires
        !has_dangling_row(rows),
        tree.edges == tree_of_rows(rows).edges,
        tree.nodes.len() == rows.len(),
        tree.is_tree(),
    ensures
        has_unique_numbers(rows),
{
    let n = rows.len() as int;
    lemma_edge_ends(rows, n);
    tree.lemma_root();
    assert forall|i: int, j: int| 0 <= i < j < n implies (#[trigger] rows[i]).node != (
    #[trigger] rows[j]).node by {
        if rows[i].node == rows[j].node {
            // No edge ends at row `i`, which is not the last to bear its number
            assert forall|e: int| 0 <= e < tree.edges.len() implies (#[trigger] tree.edges[e]).0 != i
                && tree.edges[e].1 != i by {
                assert(is_asked_for(rows, n, tree.edges[e]));
                let k = choose|k: int|
                    0 <= k < n && rows[k].ancestor != 0 && #[trigger] edge_of_row(rows, k)
                        == tree.edges[e];
                assert(has_row(rows, rows[k].ancestor));
                let from = lemma_find_last_row(rows, rows[k].ancestor, n);
                lemma_last_row(rows, rows[k].ancestor, from);
                let into = lemma_find_last_row(rows, rows[k].node, n);
                lemma_last_row(rows, rows[k].node, into);
                if from == i || into == i {
                    assert(rows[j].node != rows[i].node);
                }
            }
            assert(tree.is_root(i));
            assert(tree.reaches(tree.root(), j));
            lemma_reaches_cases(tree.edges, i, j);
            let child = lemma_first_step(tree.edges, i, j);
            let e = choose|e: int| 0 <= e < tree.edges.len() && #[trigger] tree.edges[e] == (i, child);
            assert(tree.edges[e].0 == i);
        }
    }
}

/// Where the numbers are unique, the edges are those from the ancestor of a
/// row to the row, for the rows that name an ancestor, in the order of the
/// rows.
pub proof fn lemma_edges_of_rows(rows: Seq<Phylo4Row>, upto: int)
    requires
        has_unique_numbers(rows),
        0 <= upto <= rows.len(),
    ensures
        forall|e: int|
            0 <= e < edges_of_rows(rows, upto).len() ==> {
                let k = (#[trigger] edges_of_rows(rows, upto)[e]).1;
                &&& 0 <= k < upto
                &&& rows[k].ancestor != 0
                &&& edges_of_rows(rows, upto)[e].0 == last_row(rows, rows[k].ancestor)
            },
        forall|k: int|
            0 <= k < upto && (#[trigger] rows[k]).ancestor != 0 ==> edges_of_rows(rows, upto).contains(
                (last_row(rows, rows[k].ancestor), k),
            ),
        forall|e: int, f: int|
            0 <= e < f < edges_of_rows(rows, upto).len() ==> (#[trigger] edges_of_rows(rows, upto)[e]).1
                < (#[trigger] edges_of_rows(rows, upto)[f]).1,
    decreases upto,
{
    if upto > 0 {
        lemma_edges_of_rows(rows, upto - 1);
        lemma_row_of_number(rows, upto - 1);
        let before = edges_of_rows(rows, upto - 1);
        let now = edges_of_rows(rows, upto);
        assert forall|k: int| 0 <= k < upto && (#[trigger] rows[k]).ancestor != 0 implies now.contains(
            (last_row(rows, rows[k].ancestor), k),
        ) by {
            if k < upto - 1 {
                let e = before.index_of((last_row(rows, rows[k].ancestor), k));
                assert(now[e] == before[e]);
            } else {
                assert(now[now.len() - 1] == (last_row(rows, rows[k].ancestor), k));
            }
        }
    }
}

/// Where the numbers are unique and every ancestor is described, the edges
/// of the tree of the rows join nodes of it, an edge leads from `x` to `y`
/// just where row `y` names the number of row `x` as its ancestor, and a node
/// has one parent just where its row names an ancestor.
pub proof fn lemma_tree_of_rows(rows: Seq<Phylo4Row>)
    requires
        has_unique_numbers(rows),
        !has_dangling_row(rows),
    ensures
        tree_of_rows(rows).edges_in_bounds(),
        forall|x: int, y: int|
            0 <= x < rows.len() && 0 <= y < rows.len() ==> (#[trigger] has_edge(
                tree_of_rows(rows).edges,
                x,
                y,
            ) <==> rows[y].ancestor != 0 && rows[y].ancestor == rows[x].node),
        forall|y: int|
            0 <= y < rows.len() ==> (#[trigger] tree_of_rows(rows).has_one_parent(y)
                <==> rows[y].ancestor != 0),
{
    let tree = tree_of_rows(rows);
    let n = rows.len() as int;
    lemma_edges_of_rows(rows, n);
    assert forall|k: int| 0 <= k < n && (#[trigger] rows[k]).ancestor != 0 implies 0 <= last_row(
        rows,
        rows[k].ancestor,
    ) < n && rows[last_row(rows, rows[k].ancestor)].node == rows[k].ancestor by {
        let p = choose|p: int| 0 <= p < rows.len() && (#[trigger] rows[p]).node == rows[k].ancestor;
        lemma_row_of_number(rows, p);
    }
    assert forall|x: int, y: int| 0 <= x < n && 0 <= y < n implies (#[trigger] has_edge(
        tree.edges,
        x,
        y,
    ) <==> rows[y].ancestor != 0 && rows[y].ancestor == rows[x].node) by {
        if rows[y].ancestor != 0 && rows[y].ancestor == rows[x].node {
            lemma_row_of_number(rows, x);
        }
    }
    assert forall|y: int| 0 <= y < n implies (#[trigger] tree.has_one_parent(y) <==> rows[y].ancestor
        != 0) by {
        if rows[y].ancestor != 0 {
            let e = tree.edges.index_of((last_row(rows, rows[y].ancestor), y));
            assert(tree.enters(e, y));
        }
    }
}

} // verus!
