//! Graphic items: what is drawn on a board or in a footprint.

use vstd::prelude::*;

pub mod curve;
pub mod segment;

verus! {

/// Something that is drawn.
#[derive(Clone, Debug, PartialEq, Eq)]
pub enum GraphicItem {
    Segment(segment::Segment),
    Curve(curve::Curve),
}

} // verus!
