//! The import graph of a tree of Python packages, condensed into its strongly connected
//! components and closed under reachability, to tell which modules a change affects.
//!
//! A builder takes the source roots (`roots`) and the files under them with their raw
//! imports, and resolves the imports to module ids (`graph`, with `matcher`,
//! `moduleref`, `resolve`, `file_tree`, `edge_table`, `unresolved`); the raw imports of
//! a file are read off its syntax tree (`parser`). The finished
//! graph is condensed and closed in one traversal (`stack_tc`, `transitive_closure`),
//! answers queries, takes extra dependencies at its leaves (`splice`), and is written
//! to and read from a file (`graph_file`, `wire`) or rendered as text (`dump`).
pub mod dump;
pub mod edge_table;
pub mod edges;
pub mod file_tree;
pub mod graph;
pub mod graph_file;
pub mod matcher;
pub mod moduleref;
pub mod parser;
pub mod reach;
pub mod resolve;
pub mod roots;
pub mod sorting;
pub mod soundness;
pub mod splice;
pub mod stack_tc;
pub mod string_set;
pub mod text;
pub mod transitive_closure;
pub mod unresolved;
pub mod wire;
