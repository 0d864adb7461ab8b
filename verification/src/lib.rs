//! Force-directed graph layout on an exact integer coordinate grid.
//!
//! Connected nodes are pulled together along their edges and all nodes repel
//! each other pairwise; positions are integrated under a cooling schedule
//! until the total movement falls below a threshold or the iteration budget
//! is exhausted.  All coordinates are plain integers: a caller that thinks in
//! real coordinates picks a grid resolution (say, one unit box mapped to
//! `0..=1_048_576`) and scales its values onto the grid, which keeps every
//! arithmetic step exact and lets each routine carry a full contract.

pub mod fruchterman_reingold;
pub mod p2d;
pub mod vector;

pub use p2d::P2d;
pub use vector::Vector;
