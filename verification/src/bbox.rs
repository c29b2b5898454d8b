//! The detection data model: labeled, scored axis-aligned rectangles and the
//! anchor priors that the decoder regresses against.

use crate::fixed::{ANCHOR_LIMIT, BOX_LIMIT, SCALE};
use vstd::prelude::*;

verus! {

/// A labeled, scored axis-aligned rectangle.
///
/// Coordinates are fixed-point (see [`crate::fixed::SCALE`]); they are
/// normalized to the grid right after decoding and mapped to image pixels by
/// the detector's inverse mapping. `label` indexes the class list; `score`
/// is a fixed-point confidence in `[0, 1]`.
#[derive(Clone, Copy, Debug, PartialEq, Eq, Structural)]
pub struct BBox {
    pub top: i64,
    pub left: i64,
    pub bottom: i64,
    pub right: i64,
    pub label: usize,
    pub score: i64,
}

/// One anchor prior: a (height, width) pair in grid cells, fixed-point.
#[derive(Clone, Copy, Debug, PartialEq, Eq, Structural)]
pub struct Anchor {
    pub height: i64,
    pub width: i64,
}

/// A box whose sides are ordered and whose coordinates are small enough for
/// the exact overlap arithmetic. Zero-area boxes are admitted: the decoder
/// does not filter degenerate boxes.
pub open spec fn box_ok(b: BBox) -> bool {
    &&& -BOX_LIMIT <= b.top <= b.bottom <= BOX_LIMIT
    &&& -BOX_LIMIT <= b.left <= b.right <= BOX_LIMIT
    &&& 0 <= b.score <= SCALE
}

/// Every box of the sequence satisfies [`box_ok`].
pub open spec fn all_boxes_ok(s: Seq<BBox>) -> bool {
    forall|i: int| 0 <= i < s.len() ==> box_ok(#[trigger] s[i])
}

/// An anchor admitted by the decoder: nonnegative sides, bounded as
/// [`crate::fixed::ANCHOR_LIMIT`] asks.
pub open spec fn anchor_ok(a: Anchor) -> bool {
    &&& 0 <= a.height <= ANCHOR_LIMIT
    &&& 0 <= a.width <= ANCHOR_LIMIT
}

/// Every anchor of the sequence satisfies [`anchor_ok`].
pub open spec fn all_anchors_ok(s: Seq<Anchor>) -> bool {
    forall|i: int| 0 <= i < s.len() ==> anchor_ok(#[trigger] s[i])
}

} // verus!
