//! Analysis of V8 `.heapsnapshot` files: a byte-level parser for the
//! snapshot format and the graph computations (retainers, distances,
//! dominators, retained sizes, detachedness, native-context attribution)
//! that the snapshot views are built on.
#![allow(unused_imports)]

pub mod types;
pub mod bytes;
pub mod graph;
pub mod records;
pub mod graph_build;
pub mod fxcoll;
pub mod edge_search;
pub mod retainers;
pub mod ephemeron;
pub mod reach;
pub mod distances;
pub mod depths;
pub mod dominators;
pub mod lengauer_tarjan;
pub mod dominance;
pub mod retained;
pub mod roots;
pub mod text;
pub mod snapshot;
pub mod scan;
pub mod json;
pub mod parser;
pub mod reach_size;
pub mod names;
pub mod statistics;
pub mod detachedness;
pub mod native;
pub mod globals;
pub mod attribution;
pub mod keys;
