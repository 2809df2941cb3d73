//! Nearest-segment queries over a fixed set of 2-D line segments.
//!
//! Segments are bulk-loaded into an R-tree over their bounding boxes. A query
//! takes a first candidate from the tree, searches the square that must hold
//! every nearer segment, and compares exact squared distances as fractions, so
//! the answer is the true nearest segment (the first one among ties).
use vstd::prelude::*;

pub mod geometry;
pub mod spatial;
pub mod index;
pub mod boundary;
pub mod laws;
pub mod records;

verus! {

} // verus!
