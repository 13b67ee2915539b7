//! Directed Hausdorff distance between point sets taken from boolean grids:
//! the exact maximum of the nearest-neighbour distances, and a bounded search
//! for a percentile of them.

use vstd::prelude::*;

pub mod metric;
pub mod search;
pub mod top_set;
pub mod percentile;
pub mod grid;
pub mod laws;
