// A phylogeny of 100 tips with 13 targets among them, and what the search
// makes of it.

use petgraph::algo::has_path_connecting;
use petgraph::graph::{DiGraph, NodeIndex};
use tcfinder::clusters::{
    annotate_targets, calculate_clade_stats, extract_clade_tip_labels, find_root, tcfind,
    CladeTargetStats, NodeW,
};
use tcfinder::io::{read_phylo4, Phylo4Row};
use tcfinder::stats::Proportion;

// label, node, ancestor, nodetype
const TREE: [(&str, usize, usize, &str); 199] = [
    ("t61", 1, 183, "tip"),
    ("t11", 2, 151, "tip"),
    ("t93", 3, 165, "tip"),
    ("t33", 4, 112, "tip"),
    ("t4", 5, 181, "tip"),
    ("t78", 6, 156, "tip"),
    ("t3", 7, 131, "tip"),
    ("t36", 8, 158, "tip"),
    ("t60", 9, 172, "tip"),
    ("t59", 10, 178, "tip"),
    ("t94", 11, 159, "tip"),
    ("t2", 12, 193, "tip"),
    ("t98", 13, 199, "tip"),
    ("t22", 14, 153, "tip"),
    ("t90", 15, 196, "tip"),
    ("t34", 16, 167, "tip"),
    ("t29", 17, 185, "tip"),
    ("t88", 18, 135, "tip"),
    ("t62", 19, 194, "tip"),
    ("t81", 20, 155, "tip"),
    ("t20", 21, 144, "tip"),
    ("t57", 22, 170, "tip"),
    ("t66", 23, 196, "tip"),
    ("t99", 24, 187, "tip"),
    ("t14", 25, 143, "tip"),
    ("t40", 26, 120, "tip"),
    ("t76", 27, 134, "tip"),
    ("t30", 28, 146, "tip"),
    ("t9", 29, 179, "tip"),
    ("t16", 30, 149, "tip"),
    ("t35", 31, 182, "tip"),
    ("t7", 32, 109, "tip"),
    ("t89", 33, 122, "tip"),
    ("t75", 34, 199, "tip"),
    ("t12", 35, 144, "tip"),
    ("t92", 36, 171, "tip"),
    ("t17", 37, 137, "tip"),
    ("t63", 38, 125, "tip"),
    ("t10", 39, 113, "tip"),
    ("t49", 40, 127, "tip"),
    ("t73", 41, 121, "tip"),
    ("t37", 42, 132, "tip"),
    ("t1", 43, 129, "tip"),
    ("t26", 44, 118, "tip"),
    ("t83", 45, 158, "tip"),
    ("t53", 46, 137, "tip"),
    ("t72", 47, 157, "tip"),
    ("t67", 48, 111, "tip"),
    ("t64", 49, 128, "tip"),
    ("t50", 50, 174, "tip"),
    ("t96", 51, 150, "tip"),
    ("t31", 52, 134, "tip"),
    ("t19", 53, 129, "tip"),
    ("t41", 54, 166, "tip"),
    ("t15", 55, 174, "tip"),
    ("t68", 56, 193, "tip"),
    ("t56", 57, 132, "tip"),
    ("t91", 58, 119, "tip"),
    ("t69", 59, 153, "tip"),
    ("t38", 60, 116, "tip"),
    ("t97", 61, 109, "tip"),
    ("t42", 62, 167, "tip"),
    ("t43", 63, 176, "tip"),
    ("t70", 64, 191, "tip"),
    ("t5", 65, 145, "tip"),
    ("t8", 66, 126, "tip"),
    ("t86", 67, 185, "tip"),
    ("t51", 68, 192, "tip"),
    ("t44", 69, 173, "tip"),
    ("t23", 70, 197, "tip"),
    ("t52", 71, 145, "tip"),
    ("t74", 72, 114, "tip"),
    ("t28", 73, 168, "tip"),
    ("t27", 74, 146, "tip"),
    ("t18", 75, 178, "tip"),
    ("t65", 76, 138, "tip"),
    ("t71", 77, 117, "tip"),
    ("t77", 78, 136, "tip"),
    ("t48", 79, 198, "tip"),
    ("t39", 80, 133, "tip"),
    ("t95", 81, 122, "tip"),
    ("t13", 82, 111, "tip"),
    ("t84", 83, 117, "tip"),
    ("t87", 84, 160, "tip"),
    ("t24", 85, 189, "tip"),
    ("t47", 86, 192, "tip"),
    ("t85", 87, 183, "tip"),
    ("t58", 88, 140, "tip"),
    ("t100", 89, 182, "tip"),
    ("t82", 90, 156, "tip"),
    ("t46", 91, 106, "tip"),
    ("t80", 92, 114, "tip"),
    ("t79", 93, 140, "tip"),
    ("t45", 94, 110, "tip"),
    ("t32", 95, 175, "tip"),
    ("t55", 96, 173, "tip"),
    ("t6", 97, 177, "tip"),
    ("t25", 98, 151, "tip"),
    ("t54", 99, 160, "tip"),
    ("t21", 100, 190, "tip"),
    ("NA", 101, 0, "root"),
    ("NA", 102, 101, "internal"),
    ("NA", 103, 102, "internal"),
    ("NA", 104, 103, "internal"),
    ("NA", 105, 104, "internal"),
    ("NA", 106, 105, "internal"),
    ("NA", 107, 106, "internal"),
    ("NA", 108, 107, "internal"),
    ("NA", 109, 108, "internal"),
    ("NA", 110, 108, "internal"),
    ("NA", 111, 110, "internal"),
    ("NA", 112, 107, "internal"),
    ("NA", 113, 112, "internal"),
    ("NA", 114, 113, "internal"),
    ("NA", 115, 105, "internal"),
    ("NA", 116, 115, "internal"),
    ("NA", 117, 116, "internal"),
    ("NA", 118, 115, "internal"),
    ("NA", 119, 118, "internal"),
    ("NA", 120, 119, "internal"),
    ("NA", 121, 120, "internal"),
    ("NA", 122, 121, "internal"),
    ("NA", 123, 104, "internal"),
    ("NA", 124, 123, "internal"),
    ("NA", 125, 124, "internal"),
    ("NA", 126, 125, "internal"),
    ("NA", 127, 126, "internal"),
    ("NA", 128, 127, "internal"),
    ("NA", 129, 128, "internal"),
    ("NA", 130, 124, "internal"),
    ("NA", 131, 130, "internal"),
    ("NA", 132, 131, "internal"),
    ("NA", 133, 130, "internal"),
    ("NA", 134, 133, "internal"),
    ("NA", 135, 123, "internal"),
    ("NA", 136, 135, "internal"),
    ("NA", 137, 136, "internal"),
    ("NA", 138, 103, "internal"),
    ("NA", 139, 138, "internal"),
    ("NA", 140, 139, "internal"),
    ("NA", 141, 139, "internal"),
    ("NA", 142, 141, "internal"),
    ("NA", 143, 142, "internal"),
    ("NA", 144, 143, "internal"),
    ("NA", 145, 142, "internal"),
    ("NA", 146, 141, "internal"),
    ("NA", 147, 102, "internal"),
    ("NA", 148, 147, "internal"),
    ("NA", 149, 148, "internal"),
    ("NA", 150, 149, "internal"),
    ("NA", 151, 150, "internal"),
    ("NA", 152, 148, "internal"),
    ("NA", 153, 152, "internal"),
    ("NA", 154, 152, "internal"),
    ("NA", 155, 154, "internal"),
    ("NA", 156, 155, "internal"),
    ("NA", 157, 154, "internal"),
    ("NA", 158, 157, "internal"),
    ("NA", 159, 147, "internal"),
    ("NA", 160, 159, "internal"),
    ("NA", 161, 101, "internal"),
    ("NA", 162, 161, "internal"),
    ("NA", 163, 162, "internal"),
    ("NA", 164, 163, "internal"),
    ("NA", 165, 164, "internal"),
    ("NA", 166, 165, "internal"),
    ("NA", 167, 166, "internal"),
    ("NA", 168, 164, "internal"),
    ("NA", 169, 168, "internal"),
    ("NA", 170, 169, "internal"),
    ("NA", 171, 170, "internal"),
    ("NA", 172, 171, "internal"),
    ("NA", 173, 172, "internal"),
    ("NA", 174, 169, "internal"),
    ("NA", 175, 163, "internal"),
    ("NA", 176, 175, "internal"),
    ("NA", 177, 176, "internal"),
    ("NA", 178, 177, "internal"),
    ("NA", 179, 162, "internal"),
    ("NA", 180, 179, "internal"),
    ("NA", 181, 180, "internal"),
    ("NA", 182, 181, "internal"),
    ("NA", 183, 180, "internal"),
    ("NA", 184, 161, "internal"),
    ("NA", 185, 184, "internal"),
    ("NA", 186, 184, "internal"),
    ("NA", 187, 186, "internal"),
    ("NA", 188, 187, "internal"),
    ("NA", 189, 188, "internal"),
    ("NA", 190, 189, "internal"),
    ("NA", 191, 190, "internal"),
    ("NA", 192, 191, "internal"),
    ("NA", 193, 188, "internal"),
    ("NA", 194, 186, "internal"),
    ("NA", 195, 194, "internal"),
    ("NA", 196, 195, "internal"),
    ("NA", 197, 195, "internal"),
    ("NA", 198, 197, "internal"),
    ("NA", 199, 198, "internal"),
];

const TARGETS: [&str; 13] = [
    "t5", "t47", "t70", "t51", "t75", "t100", "t82", "t98", "t35", "t48", "t78", "t81", "t21",
];

fn test_rows() -> Vec<Phylo4Row> {
    TREE.iter()
        .map(|row| Phylo4Row {
            label: row.0.to_string(),
            node: row.1,
            ancestor: row.2,
            nodetype: row.3.to_string(),
        })
        .collect()
}

fn read_test_tree() -> DiGraph<NodeW, ()> {
    read_phylo4(&test_rows()).expect("Cannot parse tree")
}

fn read_test_targets() -> Vec<String> {
    TARGETS.iter().map(|label| label.to_string()).collect()
}

fn nine_tenths() -> Proportion {
    Proportion::new(9, 10).expect("9/10 is a proportion")
}

fn expected_labels() -> Vec<Vec<&'static str>> {
    vec![
        vec!["t100", "t35"],
        vec!["t21", "t47", "t51", "t70"],
        vec!["t48", "t75", "t98"],
        vec!["t78", "t81", "t82"],
    ]
}

#[test]
fn lib_read_tree() {
    let _tree = read_test_tree();
}

#[test]
fn lib_count_tips() {
    let tree = read_test_tree();
    let n_tips = tree
        .node_indices()
        .map(|node| tree.node_weight(node))
        .filter(|w| w.unwrap().is_tip)
        .count();
    assert_eq!(n_tips, 100);
}

#[test]
fn lib_count_targets() {
    let targets = read_test_targets();
    assert_eq!(targets.len(), 13);
}

#[test]
fn lib_count_target_tips() {
    let tree = read_test_tree();
    let targets = read_test_targets();
    let tree = annotate_targets(tree, &targets);
    let n_targets = tree
        .node_indices()
        .map(|node| tree.node_weight(node))
        .filter(|w| w.unwrap().is_target)
        .count();
    assert_eq!(n_targets, 13);
}

#[test]
fn lib_find_test_root() {
    let tree = read_test_tree();
    let root = find_root(&tree).unwrap();
    assert_eq!(root.index(), 100);
}

#[test]
fn lib_find_clusters() {
    let tree = read_test_tree();
    let targets = read_test_targets();
    let tree = annotate_targets(tree, &targets);
    let threshold = CladeTargetStats::threshold(nine_tenths(), 2);
    let clusters = tcfind(&tree, threshold).unwrap();
    let labels = extract_clade_tip_labels(&tree, &clusters).unwrap();
    assert_eq!(
        labels,
        vec![
            vec!["t100", "t35"],
            vec!["t21", "t47", "t51", "t70"],
            vec!["t48", "t75", "t98"],
            vec!["t78", "t81", "t82"]
        ]
    );
}

#[test]
fn main_read_tree() {
    let tree = read_test_tree();
    assert_eq!(tree.node_count(), 199);
    assert_eq!(tree.edge_count(), 198);
}

#[test]
fn main_count_tips() {
    let tree = read_test_tree();
    let n_tips = tree
        .node_indices()
        .map(|node| tree.node_weight(node))
        .filter(|w| w.unwrap().is_tip)
        .count();
    assert_eq!(n_tips, 100);
}

#[test]
fn main_count_targets() {
    let targets = read_test_targets();
    assert_eq!(targets.len(), 13);
}

#[test]
fn main_count_target_tips() {
    let tree = read_test_tree();
    let targets = read_test_targets();
    let tree = annotate_targets(tree, &targets);
    let n_targets = tree
        .node_indices()
        .map(|node| tree.node_weight(node))
        .filter(|w| w.unwrap().is_target)
        .count();
    assert_eq!(n_targets, 13);
}

#[test]
fn main_find_test_root() {
    let tree = read_test_tree();
    let root = find_root(&tree).unwrap();
    assert_eq!(root.index(), 100);
}

#[test]
fn main_find_clusters() {
    let tree = read_test_tree();
    let targets = read_test_targets();
    let tree = annotate_targets(tree, &targets);
    let threshold = CladeTargetStats::threshold(nine_tenths(), 2);
    let clusters = tcfind(&tree, threshold).unwrap();
    let labels = extract_clade_tip_labels(&tree, &clusters).unwrap();
    assert_eq!(
        labels,
        vec![
            vec!["t100", "t35"],
            vec!["t21", "t47", "t51", "t70"],
            vec!["t48", "t75", "t98"],
            vec!["t78", "t81", "t82"]
        ]
    );
}

fn annotated_test_tree() -> DiGraph<NodeW, ()> {
    annotate_targets(read_test_tree(), &read_test_targets())
}

fn test_clusters(tree: &DiGraph<NodeW, ()>) -> Vec<NodeIndex> {
    tcfind(tree, CladeTargetStats::threshold(nine_tenths(), 2)).unwrap()
}

#[test]
fn clusters_are_found_level_by_level() {
    let tree = annotated_test_tree();
    let clusters: Vec<usize> = test_clusters(&tree).iter().map(|node| node.index()).collect();
    assert_eq!(clusters, vec![154, 181, 189, 197]);
}

#[test]
fn no_cluster_lies_in_another() {
    let tree = annotated_test_tree();
    let clusters = test_clusters(&tree);
    assert_eq!(clusters.len(), 4);
    for a in &clusters {
        for b in &clusters {
            if a != b {
                assert!(!has_path_connecting(&tree, *a, *b, None));
            }
        }
    }
}

#[test]
fn every_cluster_meets_the_threshold() {
    let tree = annotated_test_tree();
    let threshold = CladeTargetStats::threshold(nine_tenths(), 2);
    for node in test_clusters(&tree) {
        let stats = calculate_clade_stats(&tree, &node).unwrap();
        assert!(stats.size() >= 2);
        assert!(stats.targets() * 10 >= 9 * stats.size());
        assert!(stats.qualifies(&threshold));
        assert!(!stats.pruned(&threshold));
    }
}

#[test]
fn no_parent_of_a_cluster_qualifies() {
    let tree = annotated_test_tree();
    let threshold = CladeTargetStats::threshold(nine_tenths(), 2);
    for node in test_clusters(&tree) {
        let mut parents = tree.neighbors_directed(node, petgraph::Direction::Incoming);
        let parent = parents.next().unwrap();
        assert!(parents.next().is_none());
        let stats = calculate_clade_stats(&tree, &parent).unwrap();
        assert!(!stats.qualifies(&threshold));
    }
}

#[test]
fn no_cluster_lies_in_a_pruned_clade() {
    let tree = annotated_test_tree();
    let threshold = CladeTargetStats::threshold(nine_tenths(), 2);
    let clusters = test_clusters(&tree);
    let mut pruned = 0;
    for node in tree.node_indices() {
        let stats = calculate_clade_stats(&tree, &node).unwrap();
        if stats.targets() < threshold.targets() {
            pruned += 1;
            for cluster in &clusters {
                assert!(!has_path_connecting(&tree, node, *cluster, None));
            }
        }
    }
    assert!(pruned > 0);
}

#[test]
fn every_maximal_qualifying_clade_is_found() {
    let tree = annotated_test_tree();
    let threshold = CladeTargetStats::threshold(nine_tenths(), 2);
    let clusters = test_clusters(&tree);
    let qualifies = |node: NodeIndex| {
        calculate_clade_stats(&tree, &node).unwrap().qualifies(&threshold)
    };
    for node in tree.node_indices() {
        let inner = !tree.node_weight(node).unwrap().is_tip;
        let maximal = tree
            .node_indices()
            .all(|above| above == node || !has_path_connecting(&tree, above, node, None) || !qualifies(above));
        assert_eq!(clusters.contains(&node), inner && qualifies(node) && maximal);
    }
}

#[test]
fn no_targets_no_clusters() {
    let tree = annotate_targets(read_test_tree(), &Vec::new());
    let threshold = CladeTargetStats::threshold(nine_tenths(), 2);
    assert_eq!(tcfind(&tree, threshold).unwrap(), Vec::<NodeIndex>::new());
    let smallest = CladeTargetStats::threshold(Proportion::new(1, 1000).unwrap(), 1);
    assert_eq!(tcfind(&tree, smallest).unwrap(), Vec::<NodeIndex>::new());
}

#[test]
fn extraction_repeats() {
    let tree = annotated_test_tree();
    let clusters = test_clusters(&tree);
    let first = extract_clade_tip_labels(&tree, &clusters).unwrap();
    let second = extract_clade_tip_labels(&tree, &clusters).unwrap();
    assert_eq!(first, second);
    assert_eq!(first, expected_labels());
}

#[test]
fn extraction_does_not_depend_on_the_order_of_the_roots() {
    let tree = annotated_test_tree();
    let mut clusters = test_clusters(&tree);
    clusters.reverse();
    assert_eq!(extract_clade_tip_labels(&tree, &clusters).unwrap(), expected_labels());
}

#[test]
fn the_order_of_the_rows_does_not_matter() {
    let mut rows = test_rows();
    rows.reverse();
    rows.swap(3, 150);
    rows.swap(17, 99);
    let tree = annotate_targets(read_phylo4(&rows).unwrap(), &read_test_targets());
    assert_eq!(find_root(&tree).unwrap().index(), 98);
    let clusters = test_clusters(&tree);
    assert_eq!(extract_clade_tip_labels(&tree, &clusters).unwrap(), expected_labels());
}

#[test]
fn a_root_that_qualifies_is_the_only_cluster() {
    let tree = annotated_test_tree();
    let threshold = CladeTargetStats::threshold(Proportion::new(13, 100).unwrap(), 100);
    let clusters = tcfind(&tree, threshold).unwrap();
    assert_eq!(clusters, vec![NodeIndex::new(100)]);
    let labels = extract_clade_tip_labels(&tree, &clusters).unwrap();
    assert_eq!(labels.len(), 1);
    assert_eq!(labels[0].len(), 100);
    let mut all: Vec<String> = (1..=100).map(|i| format!("t{}", i)).collect();
    all.sort();
    assert_eq!(labels[0], all);
}

#[test]
fn a_root_just_short_of_the_proportion_is_no_cluster() {
    let tree = annotated_test_tree();
    let threshold = CladeTargetStats::threshold(Proportion::new(14, 100).unwrap(), 100);
    assert_eq!(tcfind(&tree, threshold).unwrap(), Vec::<NodeIndex>::new());
}

#[test]
fn a_minimum_size_over_the_tip_count_leaves_nothing() {
    let tree = annotated_test_tree();
    let threshold = CladeTargetStats::threshold(Proportion::new(0, 1).unwrap(), 101);
    assert_eq!(tcfind(&tree, threshold).unwrap(), Vec::<NodeIndex>::new());
    let threshold = CladeTargetStats::threshold(Proportion::new(0, 1).unwrap(), 100);
    assert_eq!(tcfind(&tree, threshold).unwrap(), vec![NodeIndex::new(100)]);
}

#[test]
fn root_clade_statistics() {
    let tree = annotated_test_tree();
    let root = find_root(&tree).unwrap();
    let stats = calculate_clade_stats(&tree, &root).unwrap();
    assert_eq!(stats.size(), 100);
    assert_eq!(stats.targets(), 13);
}
