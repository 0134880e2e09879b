//! A directed-graph engine: a graph store, path and cycle values, a small
//! constraint language over paths, traversal iterators and classical graph
//! algorithms built on them.
pub mod graph;
pub mod directed_graph;
pub mod path;
pub mod constraint;
pub mod checker;
pub mod search_queue;
pub mod cycle;
pub mod topo_sort;
pub mod iter_breadth;
pub mod iter_depth;
pub mod cycles;
pub mod shortest_path;
pub mod max_flow;
pub mod iter_best;
pub mod a_star;
pub mod hamiltonian;
pub mod graph_command;
pub mod arg_utils;
pub mod graph_builders;
