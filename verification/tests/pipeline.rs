use yolo_v2::bbox::{Anchor, BBox};
use yolo_v2::decode::{decode, FeatureMap};
use yolo_v2::detect::postprocess;
use yolo_v2::geom::iou;
use yolo_v2::nms::suppress;
use yolo_v2::preprocess::{set_image, Image, InputTensor};

const SCALE: i64 = 1_000_000;

fn unit_box(top: i64, left: i64, bottom: i64, right: i64, label: usize, score: i64) -> BBox {
    BBox { top, left, bottom, right, label, score }
}

#[test]
fn iou_identical_is_one() {
    let a = unit_box(0, 0, SCALE, SCALE, 0, 900_000);
    assert_eq!(iou(&a, &a), SCALE);
}

#[test]
fn iou_disjoint_is_zero() {
    let a = unit_box(0, 0, SCALE, SCALE, 0, 900_000);
    let b = unit_box(0, 2 * SCALE, SCALE, 3 * SCALE, 0, 800_000);
    assert_eq!(iou(&a, &b), 0);
    assert_eq!(iou(&b, &a), 0);
}

#[test]
fn iou_symmetric_partial_overlap() {
    // 2x2 squares offset by one unit: intersection 1, union 7.
    let a = unit_box(0, 0, 2 * SCALE, 2 * SCALE, 0, 900_000);
    let b = unit_box(SCALE, SCALE, 3 * SCALE, 3 * SCALE, 0, 800_000);
    let expected = SCALE / 7;
    assert_eq!(iou(&a, &b), expected);
    assert_eq!(iou(&a, &b), iou(&b, &a));
}

#[test]
fn iou_degenerate_box_is_zero() {
    let a = unit_box(0, 0, 0, 0, 0, 900_000);
    assert_eq!(iou(&a, &a), 0);
}

#[test]
fn suppress_same_label_keeps_higher_score() {
    let hi = unit_box(0, 0, SCALE, SCALE, 3, 900_000);
    let lo = unit_box(0, 0, SCALE, SCALE, 3, 800_000);
    let mut boxes = vec![lo, hi];
    suppress(&mut boxes, 450_000);
    assert_eq!(boxes.len(), 1);
    assert_eq!(boxes[0], hi);
}

#[test]
fn suppress_distinct_labels_keep_both() {
    let a = unit_box(0, 0, SCALE, SCALE, 1, 900_000);
    let b = unit_box(0, 0, SCALE, SCALE, 0, 800_000);
    let mut boxes = vec![a, b];
    suppress(&mut boxes, 450_000);
    assert_eq!(boxes.len(), 2);
    // Sorted by label ascending.
    assert_eq!(boxes[0], b);
    assert_eq!(boxes[1], a);
}

#[test]
fn suppress_compares_against_predecessor_not_survivor() {
    // A, B and C share a label; B overlaps A above the threshold and is
    // dropped; C overlaps A above the threshold too, but is only compared
    // against its immediate predecessor B, with which its IoU is below the
    // threshold, so C survives: {A, C} remain.
    let a = unit_box(0, 0, SCALE, SCALE, 0, 900_000);
    let b = unit_box(0, 200_000, SCALE, SCALE + 200_000, 0, 800_000);
    let c = unit_box(0, -200_000, SCALE, 800_000, 0, 700_000);
    assert!(iou(&a, &b) > 450_000);
    assert!(iou(&a, &c) > 450_000);
    assert!(iou(&b, &c) <= 450_000);
    let mut boxes = vec![c, a, b];
    suppress(&mut boxes, 450_000);
    assert_eq!(boxes, vec![a, c]);
}

/// One cell, one anchor, two classes: channels are
/// [sig_y, sig_x, exp_h, exp_w, objectness, class_0, class_1].
fn single_cell_map(obj: i64, class0: i64, class1: i64) -> FeatureMap {
    FeatureMap {
        data: vec![500_000, 500_000, SCALE, SCALE, obj, class0, class1],
        n_anchors: 1,
        channels: 7,
        height: 1,
        width: 1,
    }
}

#[test]
fn decode_single_dominant_class() {
    // Zero location logits (sigmoid 0.5, exp 1.0), objectness saturated
    // high, class 0 dominating: exactly one box, label 0, score close to
    // the objectness.
    let fm = single_cell_map(999_999, 1_000_000_000, 1);
    let anchors = vec![Anchor { height: SCALE, width: SCALE }];
    let boxes = decode(&fm, &anchors, 2, 500_000);
    assert_eq!(boxes.len(), 1);
    let b = boxes[0];
    assert_eq!(b.label, 0);
    // 999_999 * 1e9 / (1e9 + 1) rounds down to 999_998.
    assert_eq!(b.score, 999_998);
    assert_eq!((b.top, b.left, b.bottom, b.right), (0, 0, SCALE, SCALE));
}

#[test]
fn decode_below_threshold_emits_nothing() {
    let fm = single_cell_map(0, 1_000_000_000, 1);
    let anchors = vec![Anchor { height: SCALE, width: SCALE }];
    let boxes = decode(&fm, &anchors, 2, 500_000);
    assert!(boxes.is_empty());
}

#[test]
fn preprocess_square_image_is_identity() {
    // A square image of exactly the tensor size: scale 1.0 and every pixel
    // mapped one to one, no letterbox band.
    let img = Image {
        pixels: vec![10, 20, 30, 40, 50, 60, 70, 80, 90, 100, 110, 120],
        width: 2,
        height: 2,
    };
    let mut tensor = InputTensor { data: vec![0; 12], size: 2 };
    let scale = set_image(&mut tensor, &img);
    assert_eq!(scale, SCALE);
    for c in 0..3usize {
        for y in 0..2usize {
            for x in 0..2usize {
                let p = img.pixels[3 * (y * 2 + x) + c] as i64;
                assert_eq!(tensor.data[(c * 2 + y) * 2 + x], p * SCALE / 255);
            }
        }
    }
}

#[test]
fn preprocess_wide_image_letterboxes() {
    // A 4x2 image into a 2x2 tensor: scale 0.5, resized to 2x1, padding in
    // the second row. Columns come in identical pairs, so the nearest
    // neighbor resize must produce one left pixel and one right pixel.
    let a = [100u8, 110, 120];
    let b = [200u8, 210, 220];
    let mut pixels = Vec::new();
    for _row in 0..2 {
        for px in [a, a, b, b] {
            pixels.extend_from_slice(&px);
        }
    }
    let img = Image { pixels, width: 4, height: 2 };
    let mut tensor = InputTensor { data: vec![0; 12], size: 2 };
    let scale = set_image(&mut tensor, &img);
    assert_eq!(scale, 500_000);
    for c in 0..3usize {
        let left = tensor.data[(c * 2) * 2];
        let right = tensor.data[(c * 2) * 2 + 1];
        assert_eq!(left, (a[c] as i64) * SCALE / 255);
        assert_eq!(right, (b[c] as i64) * SCALE / 255);
        // The second tensor row is the neutral letterbox fill.
        assert_eq!(tensor.data[(c * 2 + 1) * 2], 500_000);
        assert_eq!(tensor.data[(c * 2 + 1) * 2 + 1], 500_000);
    }
}

#[test]
fn end_to_end_single_detection() {
    // A 4x4 grid, one anchor, two classes; one cell clears the score
    // threshold, nothing overlaps, and the single box comes back mapped
    // into original image coordinates.
    let (h, w, ncls) = (4usize, 4usize, 2usize);
    let cells = h * w;
    let mut data = vec![0i64; 7 * cells];
    for y in 0..h {
        for x in 0..w {
            let cell = y * w + x;
            data[cell] = 500_000; // sig_y
            data[cells + cell] = 500_000; // sig_x
            data[2 * cells + cell] = SCALE; // exp_h = 1.0
            data[3 * cells + cell] = SCALE; // exp_w = 1.0
            data[4 * cells + cell] = 0; // objectness off
            data[5 * cells + cell] = 1; // class 0
            data[6 * cells + cell] = 1; // class 1
        }
    }
    // Switch on the cell (y = 1, x = 2) with class 0 dominant.
    let on = 1 * w + 2;
    data[4 * cells + on] = SCALE;
    data[5 * cells + on] = 1_000_000_000;
    let fm = FeatureMap { data, n_anchors: 1, channels: 7, height: h, width: w };
    let anchors = vec![Anchor { height: SCALE, width: SCALE }];

    // A square 4x4 image filled with one color: scale 1.0.
    let img = Image { pixels: vec![128; 3 * 16], width: 4, height: 4 };
    let mut tensor = InputTensor { data: vec![0; 3 * 16], size: 4 };
    let scale = set_image(&mut tensor, &img);
    assert_eq!(scale, SCALE);

    let boxes = postprocess(&fm, &anchors, ncls, 4, scale, 4, 4);
    assert_eq!(boxes.len(), 1);
    let b = boxes[0];
    assert_eq!(b.label, 0);
    // 1_000_000 * 1e9 / (1e9 + 1) rounds down to 999_999.
    assert_eq!(b.score, 999_999);
    // Grid box (0.25, 0.5, 0.5, 0.75) maps to pixels (1, 2, 2, 3).
    assert_eq!((b.top, b.left, b.bottom, b.right), (SCALE, 2 * SCALE, 2 * SCALE, 3 * SCALE));
}

#[test]
fn suppress_equal_scores_keeps_first() {
    // Equal label and score compare equal: the sort is stable, so the box
    // that came first stays first and survives; the second is dropped
    // against it.
    let first = unit_box(0, 0, SCALE, SCALE, 0, 800_000);
    let second = unit_box(0, 200_000, SCALE, SCALE + 200_000, 0, 800_000);
    let mut boxes = vec![first, second];
    suppress(&mut boxes, 450_000);
    assert_eq!(boxes, vec![first]);
}

#[test]
fn decode_emits_one_box_per_clearing_class() {
    // One anchor and cell may emit several boxes: both classes tie at half
    // the objectness mass and both clear the threshold.
    let fm = single_cell_map(SCALE, SCALE, SCALE);
    let anchors = vec![Anchor { height: SCALE, width: SCALE }];
    let boxes = decode(&fm, &anchors, 2, 500_000);
    assert_eq!(boxes.len(), 2);
    assert_eq!(boxes[0].label, 0);
    assert_eq!(boxes[1].label, 1);
    assert_eq!(boxes[0].score, 500_000);
    assert_eq!(boxes[1].score, 500_000);
    assert_eq!((boxes[0].top, boxes[0].left, boxes[0].bottom, boxes[0].right), (0, 0, SCALE, SCALE));
}
