//! A gate-level digital logic simulator: a store of gates wired into a
//! directed graph, breadth-first propagation of values and formulas through
//! it, edge-triggered flip-flops, truth tables and their reduction to sums
//! of products.

pub mod bootstrap;
pub mod circuit;
pub mod clock_manager;
pub mod combinational;
pub mod components;
pub mod cubes;
pub mod display_elems;
pub mod follows;
pub mod formulas;
pub mod invariants;
pub mod logic_units;
pub mod network;
pub mod path_find;
pub mod quine_mccluskey;
pub mod table;
pub mod text;
pub mod theorems;
pub mod top_bar;
pub mod types;
pub mod update_ops;
pub mod utils;
