//! A small regular-expression engine.
//!
//! A pattern is parsed into an abstract syntax tree, the tree is compiled
//! into a linear instruction program, and the program is run against an
//! input line by a virtual machine, either with depth-first backtracking
//! or with a breadth-first search over reachable machine states.

pub mod engine;
