//! A prefix tree over strings, and its description as a directed graph.
//!
//! A string becomes a chain of nodes, one per character, closed by a
//! sentinel. Chains are merged into a forest with one root per first
//! symbol, and the forest is written out in the DOT language.
//!
//! The contracts are stated over [`tree::Tree`], the mathematical value of
//! a node:
//!
//! - `tree` and `forest` define what merging and inserting mean;
//! - `label` defines the identifier of a node, which is derived from the
//!   path that leads to it, and `dot` the lines of the graph description;
//! - `node`, `merge` and `trie` hold the executable nodes and forest;
//! - `laws` states what holds of all of them;
//! - `tree_lemmas` and `dot_lemmas` hold the proofs that the others rest on.

pub mod tree;
pub mod tree_lemmas;
pub mod forest;
pub mod node;
pub mod merge;
pub mod trie;
pub mod label;
pub mod dot;
pub mod dot_lemmas;
pub mod laws;
