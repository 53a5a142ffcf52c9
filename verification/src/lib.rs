//! Transmission clusters in a rooted phylogeny.
//!
//! A cluster is a clade, a node of the tree with everything below it, that is
//! large enough and whose tips are targets in a high enough proportion, and
//! that lies in no larger clade of that kind.
//!
//! The tree is a `petgraph` graph of [`clusters::NodeW`]. [`io`] builds it
//! from the rows of a table, [`clusters`] flags the targets, searches for the
//! clusters and extracts their labels, and [`io`] lays these out as rows
//! again. What the functions return is stated over [`model::TreeView`], the
//! nodes and edges of the graph as sequences; [`search`] says what the
//! clusters of such a tree are, and [`laws`] what holds of them. [`graph`]
//! holds what is taken on trust of `petgraph`.

pub mod clusters;
pub mod decimal;
pub mod error;
pub mod graph;
pub mod io;
pub mod labels;
pub mod laws;
pub mod lines;
pub mod model;
pub mod relabel;
pub mod search;
pub mod seqs;
pub mod stats;
pub mod tree;
pub mod validate;
