//! Structural subtype inference over derived type variables: constraint-graph
//! saturation, call-graph scheduling and shape unification.

pub mod digraph;
pub mod graph;
pub mod saturation;
pub mod schedule;
pub mod schema;
pub mod shapes;
pub mod solver;
pub mod text;
