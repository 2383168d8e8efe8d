//! Planners that grow a [crate::tree::Tree] from a start configuration.
pub mod rrt;
