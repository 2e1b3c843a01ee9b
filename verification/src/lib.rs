//! A HashLife engine: a memoized quadtree simulator for two-state,
//! range-one cellular automata on an unbounded grid.
//!
//! A [`World`] holds the grid as a quadtree whose nodes are shared: two
//! subtrees with the same cells are one node of the arena. `step` advances
//! the grid by `2^k` generations at once, remembering in each node what its
//! centre becomes.
//!
//! The modules, from the ground up:
//!
//! - `bits`: the bit layout of a leaf, a 4x4 block of cells;
//! - `tree`: the mathematical model of a node, apart from its storage;
//! - `life`: what a rule means on the unbounded grid;
//! - `rule`: the rule, parsed and compiled to a table over leaves;
//! - `node`, `arena`, `graph`: the records of the nodes, their storage, and
//!   the tree that a stored node stands for;
//! - `world`: the world and its invariant, and the canonical node for four
//!   children;
//! - `cells`, `margin`: single cells, and growing the root;
//! - `evolve`: the step; `leafstep`, `evolution`: that it computes the
//!   evolution of the grid;
//! - `bound`, `iter`, `listing`, `census`: the bounding box, the blocks in a
//!   rectangle, and the population;
//! - `gc`: the garbage collector;
//! - `read`: worlds from RLE and Macrocell patterns;
//! - `laws`: what holds of the library as a whole.

pub mod arena;
pub mod bits;
pub mod bound;
pub mod cells;
pub mod census;
pub mod evolution;
pub mod evolve;
pub mod gc;
pub mod graph;
pub mod iter;
pub mod laws;
pub mod leafstep;
pub mod life;
pub mod listing;
pub mod margin;
pub mod node;
pub mod read;
pub mod rule;
pub mod tree;
pub mod world;

pub use rule::Rule;
pub use world::World;
