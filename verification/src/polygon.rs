//! Polygon edges.
use vstd::prelude::*;

verus! {

/// Whether a polygon edge is a straight line or a circular arc.
#[derive(Clone, Copy, Debug, Default, PartialEq, Eq, Structural)]
pub enum SegmentType {
    #[default]
    Line,
    Arc,
}

} // verus!
