//! A Go board core: grid state, stone placement, connected clusters of
//! same-colored stones, liberty tests, and capture bookkeeping.
//!
//! The board is an N-by-N grid of cells. Placing a stone re-evaluates the
//! placed cell's cluster and the four orthogonally adjacent clusters; any
//! cluster left without a liberty (an adjacent empty cell) is removed from
//! the grid, and the opposing capture counter grows by the cluster's size.

pub mod board;
pub mod cell;
pub mod cluster;
pub mod model;
