//! The detector's post-inference stage: decode, suppress, and map the
//! surviving boxes from normalized grid space back to original image pixels.
//!
//! The inverse mapping undoes the letterbox of the preprocessor: each
//! coordinate becomes `(value - 0.5) * (size / scale) + dimension / 2`, with
//! the image height for top and bottom and the image width for left and
//! right.

use crate::bbox::{all_anchors_ok, all_boxes_ok, box_ok, Anchor, BBox};
use crate::decode::{decode, decode_spec, FeatureMap};
use crate::fixed::{div_floor, lemma_div_toward_zero, HALF, MIN_SCALE, SCALE};
use crate::nms::{filter_adjacent, lemma_filter_adjacent_all_ok, lemma_sort_spec_all_ok,
    sort_spec, suppress};
use vstd::arithmetic::div_mod::{lemma_div_is_ordered, lemma_div_is_ordered_by_denominator,
    lemma_div_pos_is_pos};
use vstd::pervasive::VecAdditionalExecFns;
use vstd::prelude::*;

verus! {

/// The reference class-score threshold of the detector, 0.5.
pub const SCORE_THRESH: i64 = 500_000;

/// The reference IoU threshold of the suppressor, 0.45.
pub const IOU_THRESH: i64 = 450_000;

/// One box mapped from normalized grid space to original image pixels.
pub open spec fn rescale_box(b: BBox, size: int, scale: int, img_w: int, img_h: int) -> BBox {
    let f = size * SCALE * SCALE / scale;
    BBox {
        top: ((b.top - HALF) * f / (SCALE as int) + img_h * SCALE / 2) as i64,
        left: ((b.left - HALF) * f / (SCALE as int) + img_w * SCALE / 2) as i64,
        bottom: ((b.bottom - HALF) * f / (SCALE as int) + img_h * SCALE / 2) as i64,
        right: ((b.right - HALF) * f / (SCALE as int) + img_w * SCALE / 2) as i64,
        label: b.label,
        score: b.score,
    }
}

/// A whole sequence of boxes, mapped to image pixels.
pub open spec fn rescale_seq(s: Seq<BBox>, size: int, scale: int, img_w: int, img_h: int) -> Seq<
    BBox,
> {
    Seq::new(s.len(), |i: int| rescale_box(s[i], size, scale, img_w, img_h))
}

/// Everything the detector does after the inference engine ran: decode with
/// the reference score threshold, suppress with the reference IoU threshold,
/// and map into image pixels.
pub open spec fn detect_spec(
    fm: FeatureMap,
    anchors: Seq<Anchor>,
    ncls: int,
    size: int,
    scale: int,
    img_w: int,
    img_h: int,
) -> Seq<BBox> {
    rescale_seq(
        filter_adjacent(sort_spec(decode_spec(fm, anchors, ncls, SCORE_THRESH as int)), IOU_THRESH as int),
        size,
        scale,
        img_w,
        img_h,
    )
}

/// Map every box from normalized grid space back to original image pixels.
pub fn rescale_boxes(boxes: &mut Vec<BBox>, size: usize, scale: i64, img_w: usize, img_h: usize)
    requires
        all_boxes_ok(old(boxes)@),
        1 <= size <= 4096,
        MIN_SCALE <= scale <= 4_096_000_000,
        1 <= img_w <= 1_048_576,
        1 <= img_h <= 1_048_576,
    ensures
        final(boxes)@ == rescale_seq(
            old(boxes)@,
            size as int,
            scale as int,
            img_w as int,
            img_h as int,
        ),
{
    proof {
        assert(0 <= (size as int) * (SCALE as int) * (SCALE as int)
            <= 4_096_000_000_000_000) by (nonlinear_arith)
            requires
                1 <= size <= 4096,
        ;
        lemma_div_pos_is_pos((size as int) * (SCALE as int) * (SCALE as int), scale as int);
        lemma_div_is_ordered_by_denominator(
            (size as int) * (SCALE as int) * (SCALE as int),
            MIN_SCALE as int,
            scale as int,
        );
        lemma_div_is_ordered(
            (size as int) * (SCALE as int) * (SCALE as int),
            4_096_000_000_000_000,
            MIN_SCALE as int,
        );
    }
    let f: i64 = ((((size as u128) * (SCALE as u128)) * (SCALE as u128)) / (scale as u128)) as i64;
    let half_h: i64 = ((img_h as u64) * (SCALE as u64) / 2) as i64;
    let half_w: i64 = ((img_w as u64) * (SCALE as u64) / 2) as i64;
    let mut i: usize = 0;
    while i < boxes.len()
        invariant
            boxes@.len() == old(boxes)@.len(),
            all_boxes_ok(old(boxes)@),
            i <= boxes@.len(),
            1 <= size <= 4096,
            MIN_SCALE <= scale <= 4_096_000_000,
            1 <= img_w <= 1_048_576,
            1 <= img_h <= 1_048_576,
            0 <= f <= 4_096_000_000_000,
            f == (size as int) * (SCALE as int) * (SCALE as int) / (scale as int),
            half_h == (img_h as int) * (SCALE as int) / 2,
            half_w == (img_w as int) * (SCALE as int) / 2,
            forall|j: int|
                0 <= j < i ==> boxes@[j] == rescale_box(
                    #[trigger] old(boxes)@[j],
                    size as int,
                    scale as int,
                    img_w as int,
                    img_h as int,
                ),
            forall|j: int| i <= j < boxes@.len() ==> boxes@[j] == #[trigger] old(boxes)@[j],
        decreases boxes@.len() - i,
    {
        let b = boxes[i];
        proof {
            assert(box_ok(old(boxes)@[i as int]));
        }
        let top = remap(b.top, f, half_h);
        let left = remap(b.left, f, half_w);
        let bottom = remap(b.bottom, f, half_h);
        let right = remap(b.right, f, half_w);
        boxes.set(
            i,
            BBox { top, left, bottom, right, label: b.label, score: b.score },
        );
        i += 1;
    }
    proof {
        assert(boxes@ =~= rescale_seq(
            old(boxes)@,
            size as int,
            scale as int,
            img_w as int,
            img_h as int,
        ));
    }
}

/// One coordinate of the inverse mapping:
/// `(c - 0.5) * (size / scale) + dimension / 2`, fixed-point.
fn remap(c: i64, f: i64, half_dim: i64) -> (r: i64)
    requires
        -100_000_000_000 <= c <= 100_000_000_000,
        0 <= f <= 4_096_000_000_000,
        0 <= half_dim <= 1_000_000_000_000,
    ensures
        r == (c - HALF) * f / (SCALE as int) + half_dim,
{
    proof {
        assert(-500_000_000_000_000_000_000_000 <= ((c - HALF) as int) * (f as int)
            <= 500_000_000_000_000_000_000_000) by (nonlinear_arith)
            requires
                -100_000_500_000 <= c - HALF <= 100_000_500_000,
                0 <= f <= 4_096_000_000_000,
        ;
        lemma_div_is_ordered(
            ((c - HALF) as int) * (f as int),
            500_000_000_000_000_000_000_000,
            SCALE as int,
        );
        lemma_div_is_ordered(
            -500_000_000_000_000_000_000_000,
            ((c - HALF) as int) * (f as int),
            SCALE as int,
        );
    }
    let prod: i128 = ((c - HALF) as i128) * (f as i128);
    let q = div_floor(prod, SCALE as i128);
    (q as i64) + half_dim
}

/// Decode the feature map, suppress duplicates, and map the survivors back
/// to original image pixels: the whole post-inference work of `predict`.
pub fn postprocess(
    fm: &FeatureMap,
    anchors: &Vec<Anchor>,
    n_fg_class: usize,
    size: usize,
    scale: i64,
    img_w: usize,
    img_h: usize,
) -> (r: Vec<BBox>)
    requires
        fm.wf(),
        fm.activations_ok(),
        anchors@.len() == fm.n_anchors,
        all_anchors_ok(anchors@),
        fm.channels == 5 + n_fg_class,
        1 <= n_fg_class,
        1 <= size <= 4096,
        MIN_SCALE <= scale <= 4_096_000_000,
        1 <= img_w <= 1_048_576,
        1 <= img_h <= 1_048_576,
    ensures
        r@ == detect_spec(
            *fm,
            anchors@,
            n_fg_class as int,
            size as int,
            scale as int,
            img_w as int,
            img_h as int,
        ),
{
    let mut boxes = decode(fm, anchors, n_fg_class, SCORE_THRESH);
    proof {
        lemma_sort_spec_all_ok(boxes@);
        lemma_filter_adjacent_all_ok(sort_spec(boxes@), IOU_THRESH as int);
    }
    suppress(&mut boxes, IOU_THRESH);
    rescale_boxes(&mut boxes, size, scale, img_w, img_h);
    boxes
}

} // verus!
