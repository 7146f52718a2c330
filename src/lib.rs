//! Perfect mazes on a rectangular grid: a frame of wall units, three
//! generators that carve a spanning tree into it (randomized depth-first
//! search, a stack shuffled after each step, and Kruskal's algorithm over
//! disjoint sets), two solvers (depth-first search and A*), and a text form.
//! Each generator and solver can record the changes it makes for display.
pub mod generator;
pub mod heap;
pub mod maze;
pub mod paths;
pub mod random;
pub mod solver;
pub mod text;
pub mod tree;
pub mod union_find;
