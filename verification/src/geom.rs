//! Overlap geometry: intersection over union of two axis-aligned rectangles.

use crate::bbox::{box_ok, BBox};
use crate::fixed::SCALE;
use vstd::arithmetic::div_mod::{lemma_div_is_ordered, lemma_div_multiples_vanish};
use vstd::math::{max, min};
use vstd::prelude::*;

verus! {

/// Area of a box, positive exactly when both sides are.
pub open spec fn area(b: BBox) -> int {
    (b.bottom - b.top) * (b.right - b.left)
}

/// Area of the intersection of two boxes; zero when they do not overlap.
pub open spec fn inter_area(a: BBox, b: BBox) -> int {
    let w = min(a.right as int, b.right as int) - max(a.left as int, b.left as int);
    let h = min(a.bottom as int, b.bottom as int) - max(a.top as int, b.top as int);
    if w > 0 && h > 0 {
        w * h
    } else {
        0
    }
}

/// Intersection over union, fixed-point: `SCALE` means the boxes coincide,
/// `0` that they are disjoint. A union of zero area (two degenerate,
/// coincident-or-not boxes) yields `0` rather than a division by zero.
pub open spec fn iou_spec(a: BBox, b: BBox) -> int {
    let i = inter_area(a, b);
    let u = area(a) + area(b) - i;
    if u <= 0 {
        0
    } else {
        i * SCALE / u
    }
}

/// The intersection is contained in either box, so it is no larger than
/// either area and no larger than the union.
proof fn lemma_inter_within(a: BBox, b: BBox)
    requires
        box_ok(a),
        box_ok(b),
    ensures
        0 <= inter_area(a, b) <= area(a),
        inter_area(a, b) <= area(b),
        inter_area(a, b) <= area(a) + area(b) - inter_area(a, b),
{
    let w = min(a.right as int, b.right as int) - max(a.left as int, b.left as int);
    let h = min(a.bottom as int, b.bottom as int) - max(a.top as int, b.top as int);
    if w > 0 && h > 0 {
        assert(w * h <= (a.right - a.left) * (a.bottom - a.top)) by (nonlinear_arith)
            requires
                0 < w <= a.right - a.left,
                0 < h <= a.bottom - a.top,
        ;
        assert(w * h <= (b.right - b.left) * (b.bottom - b.top)) by (nonlinear_arith)
            requires
                0 < w <= b.right - b.left,
                0 < h <= b.bottom - b.top,
        ;
        assert(w * h >= 0) by (nonlinear_arith)
            requires
                w > 0,
                h > 0,
        ;
        assert(area(a) == (a.bottom - a.top) * (a.right - a.left));
        assert((a.right - a.left) * (a.bottom - a.top) == (a.bottom - a.top) * (a.right - a.left))
            by (nonlinear_arith);
        assert((b.right - b.left) * (b.bottom - b.top) == (b.bottom - b.top) * (b.right - b.left))
            by (nonlinear_arith);
    } else {
        assert((a.bottom - a.top) * (a.right - a.left) >= 0) by (nonlinear_arith)
            requires
                a.bottom - a.top >= 0,
                a.right - a.left >= 0,
        ;
        assert((b.bottom - b.top) * (b.right - b.left) >= 0) by (nonlinear_arith)
            requires
                b.bottom - b.top >= 0,
                b.right - b.left >= 0,
        ;
    }
}

/// The IoU value always lies in `[0, SCALE]`.
pub proof fn lemma_iou_range(a: BBox, b: BBox)
    requires
        box_ok(a),
        box_ok(b),
    ensures
        0 <= iou_spec(a, b) <= SCALE,
{
    lemma_inter_within(a, b);
    let i = inter_area(a, b);
    let u = area(a) + area(b) - i;
    if u > 0 {
        assert(0 <= i * SCALE) by (nonlinear_arith)
            requires
                i >= 0,
        ;
        assert(i * SCALE <= u * SCALE) by (nonlinear_arith)
            requires
                0 <= i <= u,
        ;
        lemma_div_is_ordered(i * SCALE, u * SCALE, u);
        lemma_div_multiples_vanish(SCALE as int, u);
        assert(u * SCALE / u == SCALE);
        assert(i * SCALE / u >= 0) by {
            vstd::arithmetic::div_mod::lemma_div_pos_is_pos(i * SCALE, u);
        }
    }
}

/// IoU is symmetric in its two arguments.
pub proof fn lemma_iou_symmetric(a: BBox, b: BBox)
    ensures
        iou_spec(a, b) == iou_spec(b, a),
{
}

/// A box of positive area has IoU `1.0` with itself.
pub proof fn lemma_iou_identical(a: BBox)
    requires
        box_ok(a),
        a.top < a.bottom,
        a.left < a.right,
    ensures
        iou_spec(a, a) == SCALE,
{
    let ar = area(a);
    assert(inter_area(a, a) == ar) by (nonlinear_arith)
        requires
            a.top < a.bottom,
            a.left < a.right,
            ar == area(a),
            inter_area(a, a) == (a.right - a.left) * (a.bottom - a.top),
    ;
    assert(ar > 0) by (nonlinear_arith)
        requires
            a.bottom - a.top > 0,
            a.right - a.left > 0,
            ar == (a.bottom - a.top) * (a.right - a.left),
    ;
    lemma_div_multiples_vanish(SCALE as int, ar);
}

/// Disjoint boxes (separated along either axis) have IoU `0`.
pub proof fn lemma_iou_disjoint(a: BBox, b: BBox)
    requires
        box_ok(a),
        box_ok(b),
        a.right <= b.left || b.right <= a.left || a.bottom <= b.top || b.bottom <= a.top,
    ensures
        iou_spec(a, b) == 0,
{
    lemma_inter_within(a, b);
    assert(inter_area(a, b) == 0);
    let u = area(a) + area(b);
    if u > 0 {
        assert(0 * SCALE / u == 0) by {
            vstd::arithmetic::div_mod::lemma_div_of0(u);
        }
    }
}

/// Exact fixed-point IoU of two boxes.
pub fn iou(a: &BBox, b: &BBox) -> (r: i64)
    requires
        box_ok(*a),
        box_ok(*b),
    ensures
        r == iou_spec(*a, *b),
        0 <= r <= SCALE,
{
    proof {
        lemma_iou_range(*a, *b);
        lemma_inter_within(*a, *b);
    }
    let ir: i64 = if a.right <= b.right {
        a.right
    } else {
        b.right
    };
    let il: i64 = if a.left >= b.left {
        a.left
    } else {
        b.left
    };
    let ib: i64 = if a.bottom <= b.bottom {
        a.bottom
    } else {
        b.bottom
    };
    let it: i64 = if a.top >= b.top {
        a.top
    } else {
        b.top
    };
    let inter: i128 = if ir > il && ib > it {
        proof {
            lemma_mul_sides_bounded((ir - il) as int, (ib - it) as int);
        }
        (ir - il) as i128 * (ib - it) as i128
    } else {
        0
    };
    proof {
        lemma_mul_sides_bounded((a.bottom - a.top) as int, (a.right - a.left) as int);
        lemma_mul_sides_bounded((b.bottom - b.top) as int, (b.right - b.left) as int);
    }
    let area_a: i128 = (a.bottom - a.top) as i128 * (a.right - a.left) as i128;
    let area_b: i128 = (b.bottom - b.top) as i128 * (b.right - b.left) as i128;
    let uni: i128 = area_a + area_b - inter;
    if uni <= 0 {
        0
    } else {
        proof {
            assert(inter * SCALE <= 0x1_0000_0000_0000_0000_0000_0000_0000 * SCALE)
                by (nonlinear_arith)
                requires
                    0 <= inter <= 0x1_0000_0000_0000_0000_0000_0000_0000,
            ;
            assert(0 <= inter * SCALE) by (nonlinear_arith)
                requires
                    0 <= inter,
            ;
        }
        (((inter as u128) * (SCALE as u128)) / (uni as u128)) as i64
    }
}

/// Bound on the product of two box side lengths.
proof fn lemma_mul_sides_bounded(x: int, y: int)
    requires
        0 <= x <= 200_000_000_000,
        0 <= y <= 200_000_000_000,
    ensures
        0 <= x * y <= 40_000_000_000_000_000_000_000,
{
    assert(0 <= x * y <= 40_000_000_000_000_000_000_000) by (nonlinear_arith)
        requires
            0 <= x <= 200_000_000_000,
            0 <= y <= 200_000_000_000,
    ;
}

} // verus!
