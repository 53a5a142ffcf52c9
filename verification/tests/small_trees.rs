// Small trees written out by hand: the edge cases of the search, of the
// statistics and of the tables.

use petgraph::graph::{DiGraph, NodeIndex};
use tcfinder::clusters::{
    annotate_targets, calculate_clade_stats, extract_clade_tip_labels, find_root,
    get_descendant_leaves, tcfind, CladeTargetStats, NodeW,
};
use tcfinder::error::TreeError;
use tcfinder::io::{read_phylo4, write_cluster_table, Phylo4Row};
use tcfinder::stats::Proportion;
use tcfinder::validate::validate_tree;

fn row(label: &str, node: usize, ancestor: usize, nodetype: &str) -> Phylo4Row {
    Phylo4Row {
        label: label.to_string(),
        node,
        ancestor,
        nodetype: nodetype.to_string(),
    }
}

fn labels(words: &[&str]) -> Vec<String> {
    words.iter().map(|word| word.to_string()).collect()
}

fn prop(num: u64, den: u64) -> Proportion {
    Proportion::new(num, den).expect("a proportion")
}

fn weight(index: usize, label: &str, is_tip: bool) -> NodeW {
    NodeW {
        index,
        label: label.to_string(),
        is_tip,
        is_target: false,
    }
}

fn indices(nodes: &[NodeIndex]) -> Vec<usize> {
    nodes.iter().map(|node| node.index()).collect()
}

// r
// +- a: a1, a2
// +- b: b1, b2
// +- x
fn two_pairs() -> Vec<Phylo4Row> {
    vec![
        row("r", 1, 0, "root"),
        row("a", 2, 1, "internal"),
        row("b", 3, 1, "internal"),
        row("x", 4, 1, "tip"),
        row("a2", 5, 2, "tip"),
        row("a1", 6, 2, "tip"),
        row("b1", 7, 3, "tip"),
        row("b2", 8, 3, "tip"),
    ]
}

#[test]
fn rows_become_nodes_and_edges() {
    let tree = read_phylo4(&two_pairs()).unwrap();
    assert_eq!(tree.node_count(), 8);
    assert_eq!(tree.edge_count(), 7);
    let found: Vec<(usize, String, bool, bool)> = tree
        .node_indices()
        .map(|node| {
            let w = tree.node_weight(node).unwrap();
            (w.index, w.label.clone(), w.is_tip, w.is_target)
        })
        .collect();
    assert_eq!(found[0], (1, "r".to_string(), false, false));
    assert_eq!(found[1], (2, "a".to_string(), false, false));
    assert_eq!(found[3], (4, "x".to_string(), true, false));
    assert_eq!(found[4], (5, "a2".to_string(), true, false));
    let edges: Vec<(usize, usize)> = tree
        .edge_indices()
        .map(|edge| {
            let (from, to) = tree.edge_endpoints(edge).unwrap();
            (from.index(), to.index())
        })
        .collect();
    assert_eq!(edges, vec![(0, 1), (0, 2), (0, 3), (1, 4), (1, 5), (2, 6), (2, 7)]);
}

#[test]
fn node_numbers_need_not_follow_the_rows() {
    let rows = vec![
        row("t2", 20, 7, "tip"),
        row("top", 7, 0, "root"),
        row("t1", 3, 7, "tip"),
    ];
    let tree = read_phylo4(&rows).unwrap();
    let edges: Vec<(usize, usize)> = tree
        .edge_indices()
        .map(|edge| {
            let (from, to) = tree.edge_endpoints(edge).unwrap();
            (from.index(), to.index())
        })
        .collect();
    assert_eq!(edges, vec![(1, 0), (1, 2)]);
    assert_eq!(find_root(&tree).unwrap().index(), 1);
    assert_eq!(validate_tree(&tree).unwrap().index(), 1);
}

#[test]
fn a_number_stands_for_the_last_row_that_bears_it() {
    let rows = vec![
        row("top", 1, 0, "root"),
        row("first", 2, 1, "tip"),
        row("second", 2, 1, "tip"),
    ];
    let tree = read_phylo4(&rows).unwrap();
    let edges: Vec<(usize, usize)> = tree
        .edge_indices()
        .map(|edge| {
            let (from, to) = tree.edge_endpoints(edge).unwrap();
            (from.index(), to.index())
        })
        .collect();
    assert_eq!(edges, vec![(0, 2), (0, 2)]);
    assert_eq!(tcfind(&tree, CladeTargetStats::threshold(prop(1, 2), 1)), Err(TreeError::MalformedTree));
}

#[test]
fn only_the_word_tip_makes_a_tip() {
    let rows = vec![
        row("top", 1, 0, "root"),
        row("a", 2, 1, "tip"),
        row("b", 3, 1, "Tip"),
        row("c", 4, 1, "tips"),
        row("d", 5, 1, ""),
    ];
    let tree = read_phylo4(&rows).unwrap();
    let tips: Vec<bool> = tree.node_indices().map(|n| tree.node_weight(n).unwrap().is_tip).collect();
    assert_eq!(tips, vec![false, true, false, false, false]);
}

#[test]
fn an_unknown_ancestor_is_a_dangling_reference() {
    let rows = vec![row("top", 1, 0, "root"), row("a", 2, 9, "tip")];
    assert_eq!(read_phylo4(&rows).err(), Some(TreeError::DanglingReference));
}

#[test]
fn a_table_without_rows_is_an_empty_graph() {
    let tree = read_phylo4(&Vec::new()).unwrap();
    assert_eq!(tree.node_count(), 0);
    assert_eq!(find_root(&tree), Err(TreeError::MalformedTree));
    assert_eq!(validate_tree(&tree), Err(TreeError::MalformedTree));
    assert_eq!(tcfind(&tree, CladeTargetStats::threshold(prop(9, 10), 2)), Err(TreeError::MalformedTree));
}

#[test]
fn targets_are_flagged_by_label() {
    let tree = read_phylo4(&two_pairs()).unwrap();
    let tree = annotate_targets(tree, &labels(&["a1", "b2", "b", "nobody"]));
    let flags: Vec<(usize, String, bool, bool)> = tree
        .node_indices()
        .map(|node| {
            let w = tree.node_weight(node).unwrap();
            (w.index, w.label.clone(), w.is_tip, w.is_target)
        })
        .collect();
    assert_eq!(
        flags,
        vec![
            (1, "r".to_string(), false, false),
            (2, "a".to_string(), false, false),
            (3, "b".to_string(), false, true),
            (4, "x".to_string(), true, false),
            (5, "a2".to_string(), true, false),
            (6, "a1".to_string(), true, true),
            (7, "b1".to_string(), true, false),
            (8, "b2".to_string(), true, true),
        ]
    );
    assert_eq!(tree.edge_count(), 7);
}

#[test]
fn annotating_again_replaces_the_flags() {
    let tree = read_phylo4(&two_pairs()).unwrap();
    let tree = annotate_targets(tree, &labels(&["a1", "a2"]));
    let tree = annotate_targets(tree, &labels(&["b1", "b1"]));
    let targets: Vec<String> = tree
        .node_indices()
        .filter(|node| tree.node_weight(*node).unwrap().is_target)
        .map(|node| tree.node_weight(node).unwrap().label.clone())
        .collect();
    assert_eq!(targets, vec!["b1"]);
}

#[test]
fn an_inner_node_flagged_as_target_counts_for_nothing() {
    let tree = read_phylo4(&two_pairs()).unwrap();
    let tree = annotate_targets(tree, &labels(&["b", "b1"]));
    let stats = calculate_clade_stats(&tree, &NodeIndex::new(2)).unwrap();
    assert_eq!((stats.size(), stats.targets()), (2, 1));
}

#[test]
fn the_root_is_the_node_without_a_parent() {
    let tree = read_phylo4(&two_pairs()).unwrap();
    assert_eq!(find_root(&tree).unwrap().index(), 0);
    let mut rows = two_pairs();
    rows.rotate_left(1);
    let tree = read_phylo4(&rows).unwrap();
    assert_eq!(find_root(&tree).unwrap().index(), 7);
}

#[test]
fn two_roots_are_malformed() {
    let rows = vec![row("one", 1, 0, "root"), row("two", 2, 0, "root"), row("t", 3, 1, "tip")];
    let tree = read_phylo4(&rows).unwrap();
    assert_eq!(find_root(&tree), Err(TreeError::MalformedTree));
    assert_eq!(validate_tree(&tree), Err(TreeError::MalformedTree));
    assert_eq!(tcfind(&tree, CladeTargetStats::threshold(prop(9, 10), 2)), Err(TreeError::MalformedTree));
}

#[test]
fn no_root_is_malformed() {
    let rows = vec![row("one", 1, 2, "internal"), row("two", 2, 1, "internal")];
    let tree = read_phylo4(&rows).unwrap();
    assert_eq!(find_root(&tree), Err(TreeError::MalformedTree));
    assert_eq!(tcfind(&tree, CladeTargetStats::threshold(prop(9, 10), 2)), Err(TreeError::MalformedTree));
}

#[test]
fn a_node_with_two_parents_is_malformed() {
    let mut tree: DiGraph<NodeW, ()> = DiGraph::new();
    let r = tree.add_node(weight(1, "r", false));
    let a = tree.add_node(weight(2, "a", false));
    let b = tree.add_node(weight(3, "b", false));
    let t = tree.add_node(weight(4, "t", true));
    tree.add_edge(r, a, ());
    tree.add_edge(r, b, ());
    tree.add_edge(a, t, ());
    tree.add_edge(b, t, ());
    assert_eq!(find_root(&tree).unwrap(), r);
    assert_eq!(validate_tree(&tree), Err(TreeError::MalformedTree));
    assert_eq!(tcfind(&tree, CladeTargetStats::threshold(prop(9, 10), 2)), Err(TreeError::MalformedTree));
}

#[test]
fn a_cycle_beside_the_tree_is_malformed() {
    let mut tree: DiGraph<NodeW, ()> = DiGraph::new();
    let r = tree.add_node(weight(1, "r", false));
    let t = tree.add_node(weight(2, "t", true));
    let b = tree.add_node(weight(3, "b", false));
    let c = tree.add_node(weight(4, "c", false));
    tree.add_edge(r, t, ());
    tree.add_edge(b, c, ());
    tree.add_edge(c, b, ());
    assert_eq!(find_root(&tree).unwrap(), r);
    assert_eq!(validate_tree(&tree), Err(TreeError::MalformedTree));
    assert_eq!(tcfind(&tree, CladeTargetStats::threshold(prop(9, 10), 2)), Err(TreeError::MalformedTree));
}

#[test]
fn a_loop_on_a_node_is_malformed() {
    let mut tree: DiGraph<NodeW, ()> = DiGraph::new();
    let r = tree.add_node(weight(1, "r", false));
    let a = tree.add_node(weight(2, "a", false));
    tree.add_edge(r, a, ());
    tree.add_edge(a, a, ());
    assert_eq!(validate_tree(&tree), Err(TreeError::MalformedTree));
}

#[test]
fn a_tip_with_children_is_malformed() {
    let rows = vec![row("r", 1, 0, "root"), row("a", 2, 1, "tip"), row("b", 3, 2, "tip")];
    let tree = read_phylo4(&rows).unwrap();
    assert_eq!(find_root(&tree).unwrap().index(), 0);
    assert_eq!(validate_tree(&tree), Err(TreeError::MalformedTree));
    assert_eq!(tcfind(&tree, CladeTargetStats::threshold(prop(9, 10), 2)), Err(TreeError::MalformedTree));
}

#[test]
fn a_leaf_that_is_no_tip_is_malformed() {
    let rows = vec![row("r", 1, 0, "root"), row("a", 2, 1, "tip"), row("b", 3, 1, "internal")];
    let tree = read_phylo4(&rows).unwrap();
    assert_eq!(validate_tree(&tree), Err(TreeError::MalformedTree));
    assert_eq!(tcfind(&tree, CladeTargetStats::threshold(prop(9, 10), 2)), Err(TreeError::MalformedTree));
}

#[test]
fn a_tree_passes() {
    let tree = read_phylo4(&two_pairs()).unwrap();
    assert_eq!(validate_tree(&tree).unwrap().index(), 0);
}

#[test]
fn leaves_of_a_clade() {
    let tree = read_phylo4(&two_pairs()).unwrap();
    let mut below_root = indices(&get_descendant_leaves(&tree, &NodeIndex::new(0)).unwrap());
    below_root.sort();
    assert_eq!(below_root, vec![3, 4, 5, 6, 7]);
    let mut below_a = indices(&get_descendant_leaves(&tree, &NodeIndex::new(1)).unwrap());
    below_a.sort();
    assert_eq!(below_a, vec![4, 5]);
    assert_eq!(indices(&get_descendant_leaves(&tree, &NodeIndex::new(3)).unwrap()), vec![3]);
}

#[test]
fn a_node_beyond_the_tree_is_a_dangling_reference() {
    let tree = read_phylo4(&two_pairs()).unwrap();
    let far = NodeIndex::new(8);
    assert_eq!(get_descendant_leaves(&tree, &far).err(), Some(TreeError::DanglingReference));
    assert_eq!(calculate_clade_stats(&tree, &far).err(), Some(TreeError::DanglingReference));
    assert_eq!(
        extract_clade_tip_labels(&tree, &vec![NodeIndex::new(1), far]),
        Err(TreeError::DanglingReference)
    );
}

#[test]
fn a_clade_without_tips_is_degenerate() {
    let mut tree: DiGraph<NodeW, ()> = DiGraph::new();
    let r = tree.add_node(weight(1, "r", false));
    let a = tree.add_node(weight(2, "a", false));
    tree.add_edge(r, a, ());
    assert_eq!(calculate_clade_stats(&tree, &r).err(), Some(TreeError::DegenerateClade));
    assert_eq!(calculate_clade_stats(&tree, &a).err(), Some(TreeError::DegenerateClade));
    assert_eq!(CladeTargetStats::new(0, 0).err(), Some(TreeError::DegenerateClade));
    assert_eq!(get_descendant_leaves(&tree, &r).unwrap(), Vec::<NodeIndex>::new());
}

#[test]
fn statistics_count_tips_and_targets() {
    let tree = read_phylo4(&two_pairs()).unwrap();
    let tree = annotate_targets(tree, &labels(&["a1", "a2", "b1"]));
    let counts: Vec<(usize, usize)> = tree
        .node_indices()
        .map(|node| {
            let stats = calculate_clade_stats(&tree, &node).unwrap();
            (stats.size(), stats.targets())
        })
        .collect();
    assert_eq!(counts, vec![(5, 3), (2, 2), (2, 1), (1, 0), (1, 1), (1, 1), (1, 1), (1, 0)]);
}

#[test]
fn the_number_of_targets_of_a_threshold_is_rounded() {
    assert_eq!(CladeTargetStats::threshold(prop(9, 10), 2).targets(), 2);
    assert_eq!(CladeTargetStats::threshold(prop(9, 10), 2).size(), 2);
    assert_eq!(CladeTargetStats::threshold(prop(1, 2), 3).targets(), 2);
    assert_eq!(CladeTargetStats::threshold(prop(1, 4), 2).targets(), 1);
    assert_eq!(CladeTargetStats::threshold(prop(1, 3), 1).targets(), 0);
    assert_eq!(CladeTargetStats::threshold(prop(2, 3), 3).targets(), 2);
    assert_eq!(CladeTargetStats::threshold(prop(49, 100), 1).targets(), 0);
    assert_eq!(CladeTargetStats::threshold(prop(1, 1), 7).targets(), 7);
    assert_eq!(CladeTargetStats::threshold(prop(0, 1), 5).targets(), 0);
    assert_eq!(CladeTargetStats::threshold(prop(9, 10), 0).targets(), 0);
    assert_eq!(
        CladeTargetStats::threshold(prop(u64::MAX, u64::MAX), usize::MAX).targets(),
        usize::MAX
    );
    assert_eq!(
        CladeTargetStats::threshold(prop(u64::MAX - 1, u64::MAX), usize::MAX).targets(),
        usize::MAX - 1
    );
}

#[test]
fn a_proportion_lies_between_0_and_1() {
    assert!(Proportion::new(0, 1).is_some());
    assert!(Proportion::new(2, 2).is_some());
    assert!(Proportion::new(9, 10).is_some());
    assert!(Proportion::new(1, 0).is_none());
    assert!(Proportion::new(0, 0).is_none());
    assert!(Proportion::new(3, 2).is_none());
}

#[test]
fn a_clade_qualifies_by_proportion_and_size() {
    let threshold = CladeTargetStats::threshold(prop(9, 10), 10);
    assert!(CladeTargetStats::new(10, 9).unwrap().qualifies(&threshold));
    assert!(CladeTargetStats::new(10, 10).unwrap().qualifies(&threshold));
    assert!(CladeTargetStats::new(20, 18).unwrap().qualifies(&threshold));
    assert!(!CladeTargetStats::new(10, 8).unwrap().qualifies(&threshold));
    assert!(!CladeTargetStats::new(9, 9).unwrap().qualifies(&threshold));
    assert!(!CladeTargetStats::new(19, 17).unwrap().qualifies(&threshold));
    let third = CladeTargetStats::threshold(prop(1, 3), 1);
    assert!(CladeTargetStats::new(3, 1).unwrap().qualifies(&third));
    assert!(!CladeTargetStats::new(1000, 333).unwrap().qualifies(&third));
    let large = CladeTargetStats::threshold(prop(u64::MAX - 1, u64::MAX), 1);
    assert!(!CladeTargetStats::new(usize::MAX, usize::MAX - 2).unwrap().qualifies(&large));
    assert!(CladeTargetStats::new(usize::MAX, usize::MAX - 1).unwrap().qualifies(&large));
}

#[test]
fn a_clade_is_pruned_below_the_number_of_targets() {
    let threshold = CladeTargetStats::threshold(prop(9, 10), 2);
    assert!(CladeTargetStats::new(10, 1).unwrap().pruned(&threshold));
    assert!(CladeTargetStats::new(10, 0).unwrap().pruned(&threshold));
    assert!(!CladeTargetStats::new(10, 2).unwrap().pruned(&threshold));
    assert!(!CladeTargetStats::new(10, 5).unwrap().pruned(&threshold));
    assert!(!CladeTargetStats::new(2, 2).unwrap().pruned(&threshold));
    assert!(!CladeTargetStats::new(1, 1).unwrap().qualifies(&threshold));
    assert!(CladeTargetStats::new(1, 1).unwrap().pruned(&threshold));
}

#[test]
fn clusters_come_in_the_order_of_the_rows() {
    let targets = labels(&["a1", "a2", "b1", "b2"]);
    let tree = annotate_targets(read_phylo4(&two_pairs()).unwrap(), &targets);
    let clusters = tcfind(&tree, CladeTargetStats::threshold(prop(9, 10), 2)).unwrap();
    assert_eq!(indices(&clusters), vec![1, 2]);
    let mut rows = two_pairs();
    rows.swap(1, 2);
    let tree = annotate_targets(read_phylo4(&rows).unwrap(), &targets);
    let clusters = tcfind(&tree, CladeTargetStats::threshold(prop(9, 10), 2)).unwrap();
    assert_eq!(indices(&clusters), vec![1, 2]);
    let found: Vec<String> = clusters
        .iter()
        .map(|node| tree.node_weight(*node).unwrap().label.clone())
        .collect();
    assert_eq!(found, vec!["b", "a"]);
}

#[test]
fn a_level_is_searched_before_the_next() {
    // r
    // +- u
    // |  +- v: v1, v2
    // |  +- u1
    // +- w: w1, w2
    // +- x
    let rows = vec![
        row("r", 1, 0, "root"),
        row("u", 2, 1, "internal"),
        row("v", 3, 2, "internal"),
        row("v1", 4, 3, "tip"),
        row("v2", 5, 3, "tip"),
        row("u1", 6, 2, "tip"),
        row("w", 7, 1, "internal"),
        row("w1", 8, 7, "tip"),
        row("w2", 9, 7, "tip"),
        row("x", 10, 1, "tip"),
    ];
    let tree = annotate_targets(read_phylo4(&rows).unwrap(), &labels(&["v1", "v2", "w1", "w2"]));
    let clusters = tcfind(&tree, CladeTargetStats::threshold(prop(9, 10), 2)).unwrap();
    assert_eq!(indices(&clusters), vec![6, 2]);
    assert_eq!(
        extract_clade_tip_labels(&tree, &clusters).unwrap(),
        vec![vec!["v1", "v2"], vec!["w1", "w2"]]
    );
}

#[test]
fn a_tip_is_a_cluster_only_as_the_root() {
    let alone = annotate_targets(read_phylo4(&vec![row("t", 1, 0, "tip")]).unwrap(), &labels(&["t"]));
    let clusters = tcfind(&alone, CladeTargetStats::threshold(prop(1, 1), 1)).unwrap();
    assert_eq!(indices(&clusters), vec![0]);
    assert_eq!(extract_clade_tip_labels(&alone, &clusters).unwrap(), vec![vec!["t"]]);
    let clusters = tcfind(&alone, CladeTargetStats::threshold(prop(1, 1), 2)).unwrap();
    assert_eq!(clusters, Vec::<NodeIndex>::new());
    let rows = vec![row("r", 1, 0, "root"), row("a", 2, 1, "tip"), row("b", 3, 1, "tip")];
    let pair = annotate_targets(read_phylo4(&rows).unwrap(), &labels(&["a"]));
    let clusters = tcfind(&pair, CladeTargetStats::threshold(prop(1, 1), 1)).unwrap();
    assert_eq!(clusters, Vec::<NodeIndex>::new());
}

#[test]
fn a_clade_with_too_few_targets_is_not_searched() {
    let tree = annotate_targets(read_phylo4(&two_pairs()).unwrap(), &labels(&["a1", "a2"]));
    let clusters = tcfind(&tree, CladeTargetStats::threshold(prop(1, 1), 3)).unwrap();
    assert_eq!(clusters, Vec::<NodeIndex>::new());
    let clusters = tcfind(&tree, CladeTargetStats::threshold(prop(1, 1), 2)).unwrap();
    assert_eq!(indices(&clusters), vec![1]);
}

#[test]
fn labels_and_groups_come_out_sorted() {
    let rows = vec![
        row("r", 1, 0, "root"),
        row("m", 2, 1, "internal"),
        row("n", 3, 1, "internal"),
        row("zeta", 4, 2, "tip"),
        row("beta", 5, 2, "tip"),
        row("Zulu", 6, 2, "tip"),
        row("alpha", 7, 3, "tip"),
        row("\u{e9}t\u{e9}", 8, 3, "tip"),
        row("alp", 9, 3, "tip"),
        row("t10", 10, 3, "tip"),
        row("t9", 11, 3, "tip"),
    ];
    let tree = read_phylo4(&rows).unwrap();
    let roots = vec![NodeIndex::new(1), NodeIndex::new(2)];
    assert_eq!(
        extract_clade_tip_labels(&tree, &roots).unwrap(),
        vec![
            vec!["Zulu", "beta", "zeta"],
            vec!["alp", "alpha", "t10", "t9", "\u{e9}t\u{e9}"],
        ]
    );
    let roots = vec![NodeIndex::new(0), NodeIndex::new(1), NodeIndex::new(3), NodeIndex::new(1)];
    assert_eq!(
        extract_clade_tip_labels(&tree, &roots).unwrap(),
        vec![
            vec!["Zulu", "alp", "alpha", "beta", "t10", "t9", "zeta", "\u{e9}t\u{e9}"],
            vec!["Zulu", "beta", "zeta"],
            vec!["Zulu", "beta", "zeta"],
            vec!["zeta"],
        ]
    );
    assert_eq!(
        extract_clade_tip_labels(&tree, &Vec::new()).unwrap(),
        Vec::<Vec<String>>::new()
    );
}

#[test]
fn a_group_comes_before_those_that_go_on_from_it() {
    let rows = vec![
        row("r", 1, 0, "root"),
        row("m", 2, 1, "internal"),
        row("a", 3, 2, "tip"),
        row("b", 4, 2, "tip"),
        row("a", 5, 1, "tip"),
    ];
    let tree = read_phylo4(&rows).unwrap();
    let roots = vec![NodeIndex::new(1), NodeIndex::new(4), NodeIndex::new(3)];
    assert_eq!(
        extract_clade_tip_labels(&tree, &roots).unwrap(),
        vec![vec!["a"], vec!["a", "b"], vec!["b"]]
    );
}

#[test]
fn the_table_numbers_the_clusters_from_1() {
    let clusters = vec![labels(&["a", "b"]), labels(&[]), labels(&["c"])];
    let table: Vec<(usize, String)> = write_cluster_table(&clusters)
        .into_iter()
        .map(|row| (row.cluster_id, row.label))
        .collect();
    assert_eq!(
        table,
        vec![(1, "a".to_string()), (1, "b".to_string()), (3, "c".to_string())]
    );
    assert_eq!(write_cluster_table(&Vec::new()).len(), 0);
}

#[test]
fn errors_say_what_is_wrong() {
    assert_eq!(TreeError::MalformedTree.message(), "the graph is not a rooted tree");
    assert_eq!(
        TreeError::DanglingReference.message(),
        "a node is referred to that the tree does not hold"
    );
    assert_eq!(TreeError::DegenerateClade.message(), "a clade has no tips");
}

#[test]
fn targets_are_the_lines_of_a_text() {
    assert_eq!(tcfinder::io::read_targets("t1\nt2\nt3\n"), vec!["t1", "t2", "t3"]);
    assert_eq!(tcfinder::io::read_targets("t1\nt2\nt3"), vec!["t1", "t2", "t3"]);
    assert_eq!(tcfinder::io::read_targets("t1\r\nt2\r\n"), vec!["t1", "t2"]);
    assert_eq!(tcfinder::io::read_targets("a b\n\n c \n"), vec!["a b", "", " c "]);
    assert_eq!(tcfinder::io::read_targets("\n"), vec![""]);
    assert_eq!(tcfinder::io::read_targets("\r\n\r"), vec!["", "\r"]);
    assert_eq!(tcfinder::io::read_targets("a\rb\r\r\nc\r"), vec!["a\rb\r", "c\r"]);
    assert_eq!(tcfinder::io::read_targets("\u{e9}t\u{e9}\n\u{65e5}\u{672c}"), vec!["\u{e9}t\u{e9}", "\u{65e5}\u{672c}"]);
    assert_eq!(tcfinder::io::read_targets(""), Vec::<String>::new());
}

#[test]
fn read_targets_flag_the_tree() {
    let tree = read_phylo4(&two_pairs()).unwrap();
    let tree = annotate_targets(tree, &tcfinder::io::read_targets("a1\r\nb2\r\n"));
    let targets: Vec<String> = tree
        .node_indices()
        .filter(|node| tree.node_weight(*node).unwrap().is_target)
        .map(|node| tree.node_weight(node).unwrap().label.clone())
        .collect();
    assert_eq!(targets, vec!["a1", "b2"]);
}

fn same_threshold(text: &str, num: u64, den: u64) -> bool {
    // Two proportions are the same where they make the same of every clade
    // of up to 40 tips.
    let parsed = match Proportion::from_decimal(text) {
        Some(parsed) => parsed,
        None => return false,
    };
    let one = CladeTargetStats::threshold(parsed, 1);
    let other = CladeTargetStats::threshold(prop(num, den), 1);
    (1..=40usize).all(|size| {
        (0..=size).all(|targets| {
            let stats = CladeTargetStats::new(size, targets).unwrap();
            stats.qualifies(&one) == stats.qualifies(&other)
        })
    })
}

#[test]
fn a_proportion_is_written_as_a_decimal_fraction() {
    assert!(same_threshold("0.9", 9, 10));
    assert!(same_threshold("0.90", 9, 10));
    assert!(same_threshold("0.5", 1, 2));
    assert!(same_threshold("0.125", 1, 8));
    assert!(same_threshold("1", 1, 1));
    assert!(same_threshold("1.0", 1, 1));
    assert!(same_threshold("0", 0, 1));
    assert!(same_threshold("0.0", 0, 1));
    assert!(same_threshold("00.25", 1, 4));
    assert!(same_threshold("01", 1, 1));
    assert!(same_threshold("0.0000000000000000001", 1, 10_000_000_000_000_000_000));
    assert!(same_threshold("1.0000000000000000000", 1, 1));
    assert!(!same_threshold("0.9", 8, 10));
    assert!(!same_threshold("0.5", 51, 100));
}

#[test]
fn what_is_no_proportion_is_refused() {
    for text in [
        "", ".", ".5", "5.", "1.1", "2", "10", "1.0000000000000000001", "-0.5", "+0.5", "0,5",
        "0.5.1", "0..5", " 0.5", "0.5 ", "0.5e1", "9e-1", "NaN", "inf", "0x1", "\u{0660}.5",
        "0.\u{0665}", "0.00000000000000000001", "0.12345678901234567890", "1e0", "0.5\n",
    ] {
        assert!(Proportion::from_decimal(text).is_none(), "{:?}", text);
    }
}

#[test]
fn a_written_threshold_rounds_its_targets() {
    let nine_tenths = Proportion::from_decimal("0.9").unwrap();
    assert_eq!(CladeTargetStats::threshold(nine_tenths, 2).targets(), 2);
    assert_eq!(CladeTargetStats::threshold(nine_tenths, 10).targets(), 9);
    assert_eq!(CladeTargetStats::threshold(nine_tenths, 5).targets(), 5);
    assert_eq!(CladeTargetStats::threshold(nine_tenths, 4).targets(), 4);
    assert_eq!(CladeTargetStats::threshold(nine_tenths, 6).targets(), 5);
    let half = Proportion::from_decimal("0.50").unwrap();
    assert_eq!(CladeTargetStats::threshold(half, 3).targets(), 2);
    assert_eq!(CladeTargetStats::threshold(half, 4).targets(), 2);
    assert_eq!(CladeTargetStats::threshold(half, 1).targets(), 1);
}

#[test]
fn leaves_come_in_the_order_of_a_depth_first_walk() {
    // The walk takes the children of a node in the order of their edges.
    let tree = read_phylo4(&two_pairs()).unwrap();
    let below_root = indices(&get_descendant_leaves(&tree, &NodeIndex::new(0)).unwrap());
    assert_eq!(below_root, vec![4, 5, 6, 7, 3]);
    let below_b = indices(&get_descendant_leaves(&tree, &NodeIndex::new(2)).unwrap());
    assert_eq!(below_b, vec![6, 7]);
}
