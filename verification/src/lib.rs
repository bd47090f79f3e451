//! A diagram-layout backend: it turns a list of path facts (ordered node
//! names with per-segment relation labels) into positioned geometry.
//!
//! The pipeline builds a vertical constraint graph, condenses parallel
//! edges, ranks nodes by longest path from a synthetic root, refines
//! multi-rank edges into single-rank hops, minimizes edge crossings with an
//! integer program over ordering variables, and finally emits the variables
//! and linear constraints of a quadratic positioning problem.

pub mod algebra;
pub mod condense;
pub mod crossing;
pub mod error;
pub mod geometry;
pub mod graph;
pub mod ilp;
pub mod index;
pub mod placement;
pub mod rank;
pub mod strings;
pub mod vcg;
