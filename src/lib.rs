//! Search trees and sampling-based motion planners of the RRT family.
pub mod child_set;
pub mod planning;
pub mod tree;
