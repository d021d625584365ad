//! A collection of verified grid-based puzzle algorithms: a bounds-checked
//! 2D grid container, a block-rolling puzzle model with a shortest-solution
//! solver, a flood-fill island-size counter, a drainage-basin identifier,
//! and a mutable-aliasing classifier.

pub mod grid;

pub mod bloxorz_model;
pub mod bloxorz_solver;
pub mod island_sizes;
pub mod mutable_aliasing;
pub mod rainfall;
