//! Grid/anchor decoding: turning the activated output feature map into
//! candidate boxes.
//!
//! The map holds, per anchor, the channels `[sig_y, sig_x, exp_h, exp_w,
//! objectness, class_0, .., class_C-1]` over a `height x width` grid. The
//! caller has already applied the network's element-wise activations —
//! sigmoid to the two offsets and the objectness, `exp` to the two sizes and
//! the class logits — and scaled everything to fixed point; that evaluation
//! is transcendental floating-point work and stays outside this crate. Here
//! the class exponentials are normalized into a softmax weighted by the
//! objectness, and every class whose score clears the threshold emits one
//! grid-normalized box.

use crate::bbox::{all_anchors_ok, all_boxes_ok, anchor_ok, box_ok, Anchor, BBox};
use crate::fixed::{div_floor, lemma_div_toward_zero, ANCHOR_LIMIT, BOX_LIMIT, EXP_LIMIT, SCALE};
use vstd::arithmetic::div_mod::{
    lemma_div_is_ordered, lemma_div_multiples_vanish, lemma_div_pos_is_pos,
    lemma_mod_division_less_than_divisor, lemma_multiply_divide_lt,
};
use vstd::prelude::*;

verus! {

/// The activated output tensor of the network, batch axis stripped, laid out
/// `[anchor][channel][row][column]`, fixed-point.
pub struct FeatureMap {
    pub data: Vec<i64>,
    pub n_anchors: usize,
    pub channels: usize,
    pub height: usize,
    pub width: usize,
}

impl FeatureMap {
    /// Shape well-formedness: positive, bounded axes whose product is the
    /// buffer length.
    pub open spec fn wf(self) -> bool {
        &&& 1 <= self.n_anchors <= 1024
        &&& 6 <= self.channels <= 4101
        &&& 1 <= self.height <= 4096
        &&& 1 <= self.width <= 4096
        &&& self.data.len() == self.n_anchors * self.channels * self.height * self.width
    }

    /// The entry for anchor `a`, channel `c`, grid cell `(y, x)`.
    pub open spec fn val(self, a: int, c: int, y: int, x: int) -> int {
        self.data@[((a * self.channels + c) * self.height + y) * self.width + x] as int
    }

    /// The admitted range of an entry: sigmoid outputs (channels 0, 1 and 4)
    /// lie in `[0, 1]`, exponential outputs in `[0, EXP_LIMIT]`.
    pub open spec fn val_in_range(self, a: int, c: int, y: int, x: int) -> bool {
        if c == 0 || c == 1 || c == 4 {
            0 <= self.val(a, c, y, x) <= SCALE
        } else {
            0 <= self.val(a, c, y, x) <= EXP_LIMIT
        }
    }

    /// Every entry lies in its admitted range.
    pub open spec fn activations_ok(self) -> bool {
        forall|a: int, c: int, y: int, x: int|
            0 <= a < self.n_anchors && 0 <= c < self.channels && 0 <= y < self.height && 0 <= x
                < self.width ==> #[trigger] self.val_in_range(a, c, y, x)
    }
}

/// Position and bound of a flattened `[anchor][channel][row][column]` index.
proof fn lemma_index_bound(a: int, c: int, y: int, x: int, na: int, ch: int, h: int, w: int)
    requires
        0 <= a < na,
        0 <= c < ch,
        0 <= y < h,
        0 <= x < w,
    ensures
        0 <= ((a * ch + c) * h + y) * w + x < na * ch * h * w,
        a * ch + c < na * ch,
        (a * ch + c) * h + y < na * ch * h,
{
    assert(((a * ch + c) * h + y) * w + x < na * ch * h * w && a * ch + c < na * ch && (a * ch + c)
        * h + y < na * ch * h && 0 <= ((a * ch + c) * h + y) * w + x) by (nonlinear_arith)
        requires
            0 <= a < na,
            0 <= c < ch,
            0 <= y < h,
            0 <= x < w,
    ;
}

/// Exact read of one feature-map entry.
fn at(fm: &FeatureMap, a: usize, c: usize, y: usize, x: usize) -> (v: i64)
    requires
        fm.wf(),
        a < fm.n_anchors,
        c < fm.channels,
        y < fm.height,
        x < fm.width,
    ensures
        v == fm.val(a as int, c as int, y as int, x as int),
{
    proof {
        lemma_index_bound(
            a as int,
            c as int,
            y as int,
            x as int,
            fm.n_anchors as int,
            fm.channels as int,
            fm.height as int,
            fm.width as int,
        );
        assert(fm.n_anchors * fm.channels <= fm.n_anchors * fm.channels * fm.height * fm.width
            && fm.n_anchors * fm.channels * fm.height <= fm.n_anchors * fm.channels * fm.height
            * fm.width) by (nonlinear_arith)
            requires
                1 <= fm.n_anchors,
                1 <= fm.channels,
                1 <= fm.height,
                1 <= fm.width,
        ;
    }
    fm.data[((a * fm.channels + c) * fm.height + y) * fm.width + x]
}

/// Sum of the first `n` exponentiated class confidences of one cell/anchor.
pub open spec fn sum_conf(fm: FeatureMap, y: int, x: int, a: int, n: int) -> int
    decreases n,
{
    if n <= 0 {
        0
    } else {
        sum_conf(fm, y, x, a, n - 1) + fm.val(a, 5 + (n - 1), y, x)
    }
}

/// The class-confidence sum of admitted activations is nonnegative and
/// linearly bounded.
proof fn lemma_sum_conf_bounds(fm: FeatureMap, y: int, x: int, a: int, n: int)
    requires
        fm.wf(),
        fm.activations_ok(),
        0 <= a < fm.n_anchors,
        0 <= y < fm.height,
        0 <= x < fm.width,
        n + 5 <= fm.channels,
    ensures
        0 <= sum_conf(fm, y, x, a, n) <= if n <= 0 {
            0
        } else {
            n * EXP_LIMIT
        },
    decreases n,
{
    if n > 0 {
        lemma_sum_conf_bounds(fm, y, x, a, n - 1);
        assert(fm.val_in_range(a, 5 + (n - 1), y, x));
    }
}

/// Each summand is at most the whole sum.
proof fn lemma_conf_le_sum(fm: FeatureMap, y: int, x: int, a: int, lb: int, n: int)
    requires
        fm.wf(),
        fm.activations_ok(),
        0 <= a < fm.n_anchors,
        0 <= y < fm.height,
        0 <= x < fm.width,
        n + 5 <= fm.channels,
        0 <= lb < n,
    ensures
        fm.val(a, 5 + lb, y, x) <= sum_conf(fm, y, x, a, n),
    decreases n,
{
    if lb == n - 1 {
        lemma_sum_conf_bounds(fm, y, x, a, n - 1);
    } else {
        lemma_conf_le_sum(fm, y, x, a, lb, n - 1);
        assert(fm.val_in_range(a, 5 + (n - 1), y, x));
    }
}

/// The objectness-weighted softmax score of class `lb` at one cell/anchor:
/// `objectness * conf_lb / sum(conf)`, or `0` when the sum vanishes.
pub open spec fn cell_score(fm: FeatureMap, y: int, x: int, a: int, lb: int, ncls: int) -> int {
    let s = sum_conf(fm, y, x, a, ncls);
    if s <= 0 {
        0
    } else {
        fm.val(a, 4, y, x) * fm.val(a, 5 + lb, y, x) / s
    }
}

/// A box is emitted when the class sum is positive and the score clears the
/// threshold.
pub open spec fn emits(
    fm: FeatureMap,
    y: int,
    x: int,
    a: int,
    lb: int,
    ncls: int,
    thresh: int,
) -> bool {
    sum_conf(fm, y, x, a, ncls) > 0 && cell_score(fm, y, x, a, lb, ncls) >= thresh
}

/// Scores lie in `[0, 1]`: the softmax weight is at most one, the objectness
/// at most `SCALE`.
proof fn lemma_cell_score_range(fm: FeatureMap, y: int, x: int, a: int, lb: int, ncls: int)
    requires
        fm.wf(),
        fm.activations_ok(),
        0 <= a < fm.n_anchors,
        0 <= y < fm.height,
        0 <= x < fm.width,
        ncls + 5 <= fm.channels,
        0 <= lb < ncls,
    ensures
        0 <= cell_score(fm, y, x, a, lb, ncls) <= SCALE,
{
    let s = sum_conf(fm, y, x, a, ncls);
    if s > 0 {
        let obj = fm.val(a, 4, y, x);
        let conf = fm.val(a, 5 + lb, y, x);
        assert(fm.val_in_range(a, 4, y, x));
        assert(fm.val_in_range(a, 5 + lb, y, x));
        lemma_conf_le_sum(fm, y, x, a, lb, ncls);
        assert(obj * conf <= SCALE * s) by (nonlinear_arith)
            requires
                0 <= obj <= SCALE,
                0 <= conf <= s,
        ;
        assert(0 <= obj * conf) by (nonlinear_arith)
            requires
                0 <= obj,
                0 <= conf,
        ;
        lemma_div_is_ordered(obj * conf, SCALE * s, s);
        lemma_div_multiples_vanish(SCALE as int, s);
        assert(s * SCALE == SCALE * s) by (nonlinear_arith);
        lemma_div_pos_is_pos(obj * conf, s);
    }
}

/// The box decoded for class `lb` of anchor `a` at cell `(y, x)`: center
/// offset by the sigmoid activations, size anchored and scaled by the
/// exponentials, corners normalized by the grid dimensions.
pub open spec fn cell_box(
    fm: FeatureMap,
    anchors: Seq<Anchor>,
    y: int,
    x: int,
    a: int,
    lb: int,
    ncls: int,
) -> BBox {
    let cy = y * (SCALE as int) + fm.val(a, 0, y, x);
    let cx = x * (SCALE as int) + fm.val(a, 1, y, x);
    let bh = (anchors[a].height as int) * fm.val(a, 2, y, x) / (SCALE as int);
    let bw = (anchors[a].width as int) * fm.val(a, 3, y, x) / (SCALE as int);
    BBox {
        top: ((cy - bh / 2) / (fm.height as int)) as i64,
        left: ((cx - bw / 2) / (fm.width as int)) as i64,
        bottom: ((cy + bh / 2) / (fm.height as int)) as i64,
        right: ((cx + bw / 2) / (fm.width as int)) as i64,
        label: lb as usize,
        score: cell_score(fm, y, x, a, lb, ncls) as i64,
    }
}

/// The decoded box is well formed: ordered sides, bounded coordinates,
/// score in `[0, 1]`, label in range.
proof fn lemma_cell_box_ok(
    fm: FeatureMap,
    anchors: Seq<Anchor>,
    y: int,
    x: int,
    a: int,
    lb: int,
    ncls: int,
)
    requires
        fm.wf(),
        fm.activations_ok(),
        anchors.len() == fm.n_anchors,
        all_anchors_ok(anchors),
        fm.channels == 5 + ncls,
        0 <= a < fm.n_anchors,
        0 <= y < fm.height,
        0 <= x < fm.width,
        0 <= lb < ncls,
    ensures
        box_ok(cell_box(fm, anchors, y, x, a, lb, ncls)),
        cell_box(fm, anchors, y, x, a, lb, ncls).label == lb,
{
    let cy = y * SCALE + fm.val(a, 0, y, x);
    let cx = x * SCALE + fm.val(a, 1, y, x);
    assert(fm.val_in_range(a, 0, y, x));
    assert(fm.val_in_range(a, 1, y, x));
    assert(fm.val_in_range(a, 2, y, x));
    assert(fm.val_in_range(a, 3, y, x));
    assert(anchor_ok(anchors[a]));
    let bh = (anchors[a].height as int) * fm.val(a, 2, y, x) / (SCALE as int);
    let bw = (anchors[a].width as int) * fm.val(a, 3, y, x) / (SCALE as int);
    assert(0 <= anchors[a].height * fm.val(a, 2, y, x) <= ANCHOR_LIMIT * EXP_LIMIT)
        by (nonlinear_arith)
        requires
            0 <= anchors[a].height <= ANCHOR_LIMIT,
            0 <= fm.val(a, 2, y, x) <= EXP_LIMIT,
    ;
    assert(0 <= anchors[a].width * fm.val(a, 3, y, x) <= ANCHOR_LIMIT * EXP_LIMIT)
        by (nonlinear_arith)
        requires
            0 <= anchors[a].width <= ANCHOR_LIMIT,
            0 <= fm.val(a, 3, y, x) <= EXP_LIMIT,
    ;
    lemma_div_toward_zero(anchors[a].height * fm.val(a, 2, y, x), SCALE as int);
    lemma_div_toward_zero(anchors[a].width * fm.val(a, 3, y, x), SCALE as int);
    lemma_div_is_ordered(anchors[a].height * fm.val(a, 2, y, x), ANCHOR_LIMIT * EXP_LIMIT, SCALE as int);
    lemma_div_is_ordered(anchors[a].width * fm.val(a, 3, y, x), ANCHOR_LIMIT * EXP_LIMIT, SCALE as int);
    assert(0 <= bh <= 100_000_000_000_000 && 0 <= bw <= 100_000_000_000_000);
    lemma_div_toward_zero(bh, 2);
    lemma_div_toward_zero(bw, 2);
    lemma_div_toward_zero(cy - bh / 2, fm.height as int);
    lemma_div_toward_zero(cy + bh / 2, fm.height as int);
    lemma_div_toward_zero(cx - bw / 2, fm.width as int);
    lemma_div_toward_zero(cx + bw / 2, fm.width as int);
    lemma_div_is_ordered(cy - bh / 2, cy + bh / 2, fm.height as int);
    lemma_div_is_ordered(cx - bw / 2, cx + bw / 2, fm.width as int);
    lemma_cell_score_range(fm, y, x, a, lb, ncls);
}

/// The boxes emitted by the first `n` flattened `(cell, anchor, class)`
/// positions, in row-major, then column, anchor and class order — the same
/// order in which a nest of loops over `y`, `x`, `a`, `lb` would emit them.
pub open spec fn decode_upto(
    fm: FeatureMap,
    anchors: Seq<Anchor>,
    ncls: int,
    thresh: int,
    n: int,
) -> Seq<BBox>
    decreases n,
{
    if n <= 0 {
        Seq::empty()
    } else {
        let i = n - 1;
        let lb = i % ncls;
        let r1 = i / ncls;
        let a = r1 % (fm.n_anchors as int);
        let r2 = r1 / (fm.n_anchors as int);
        let x = r2 % (fm.width as int);
        let y = r2 / (fm.width as int);
        decode_upto(fm, anchors, ncls, thresh, n - 1) + (if emits(fm, y, x, a, lb, ncls, thresh) {
            seq![cell_box(fm, anchors, y, x, a, lb, ncls)]
        } else {
            Seq::empty()
        })
    }
}

/// All candidate boxes of the feature map, in emission order.
pub open spec fn decode_spec(fm: FeatureMap, anchors: Seq<Anchor>, ncls: int, thresh: int) -> Seq<
    BBox,
> {
    decode_upto(
        fm,
        anchors,
        ncls,
        thresh,
        fm.height * fm.width * fm.n_anchors * ncls,
    )
}

/// Decode the feature map into candidate boxes: per cell and anchor, the
/// class exponentials are normalized into an objectness-weighted softmax,
/// and every class whose score reaches `thresh` emits one grid-normalized
/// box.
pub fn decode(fm: &FeatureMap, anchors: &Vec<Anchor>, n_fg_class: usize, thresh: i64) -> (r: Vec<
    BBox,
>)
    requires
        fm.wf(),
        fm.activations_ok(),
        anchors@.len() == fm.n_anchors,
        all_anchors_ok(anchors@),
        fm.channels == 5 + n_fg_class,
        1 <= n_fg_class,
    ensures
        r@ == decode_spec(*fm, anchors@, n_fg_class as int, thresh as int),
        all_boxes_ok(r@),
{
    let ncls = n_fg_class;
    let na = fm.n_anchors;
    let h = fm.height;
    let w = fm.width;
    proof {
        assert(h * w <= fm.data.len() && h * w * na <= fm.data.len() && h * w * na * ncls
            <= fm.data.len()) by (nonlinear_arith)
            requires
                fm.data.len() == na * fm.channels * h * w,
                1 <= na,
                ncls < fm.channels,
                1 <= h,
                1 <= w,
                1 <= ncls,
        ;
    }
    let total = h * w * na * ncls;
    let mut out: Vec<BBox> = Vec::new();
    let mut idx: usize = 0;
    while idx < total
        invariant
            fm.wf(),
            fm.activations_ok(),
            anchors@.len() == fm.n_anchors,
            all_anchors_ok(anchors@),
            fm.channels == 5 + ncls,
            1 <= ncls,
            na == fm.n_anchors,
            h == fm.height,
            w == fm.width,
            total == h * w * na * ncls,
            idx <= total,
            out@ == decode_upto(*fm, anchors@, ncls as int, thresh as int, idx as int),
            all_boxes_ok(out@),
        decreases total - idx,
    {
        let lb = idx % ncls;
        let r1 = idx / ncls;
        let a = r1 % na;
        let r2 = r1 / na;
        let x = r2 % w;
        let y = r2 / w;
        proof {
            lemma_mod_division_less_than_divisor(idx as int, ncls as int);
            lemma_mod_division_less_than_divisor(r1 as int, na as int);
            lemma_mod_division_less_than_divisor(r2 as int, w as int);
            assert(idx < (ncls as int) * ((h * w * na) as int)) by (nonlinear_arith)
                requires
                    idx < total,
                    total == h * w * na * ncls,
            ;
            lemma_multiply_divide_lt(idx as int, ncls as int, (h * w * na) as int);
            assert(r1 < (na as int) * ((h * w) as int)) by (nonlinear_arith)
                requires
                    r1 < h * w * na,
            ;
            lemma_multiply_divide_lt(r1 as int, na as int, (h * w) as int);
            assert((h as int) * (w as int) == (w as int) * (h as int)) by (nonlinear_arith);
            lemma_multiply_divide_lt(r2 as int, w as int, h as int);
        }
        let mut sum: i64 = 0;
        let mut k: usize = 0;
        while k < ncls
            invariant
                fm.wf(),
                fm.activations_ok(),
                fm.channels == 5 + ncls,
                a < fm.n_anchors,
                y < fm.height,
                x < fm.width,
                k <= ncls,
                sum == sum_conf(*fm, y as int, x as int, a as int, k as int),
                0 <= sum <= (k as int) * EXP_LIMIT,
            decreases ncls - k,
        {
            let v = at(fm, a, 5 + k, y, x);
            proof {
                assert(fm.val_in_range(a as int, 5 + k as int, y as int, x as int));
            }
            sum = sum + v;
            k += 1;
        }
        if sum > 0 {
            let obj = at(fm, a, 4, y, x);
            let conf = at(fm, a, 5 + lb, y, x);
            proof {
                assert(fm.val_in_range(a as int, 4, y as int, x as int));
                assert(fm.val_in_range(a as int, 5 + lb as int, y as int, x as int));
                lemma_conf_le_sum(*fm, y as int, x as int, a as int, lb as int, ncls as int);
                lemma_cell_score_range(*fm, y as int, x as int, a as int, lb as int, ncls as int);
                assert(0 <= (obj as int) * (conf as int) <= SCALE * EXP_LIMIT)
                    by (nonlinear_arith)
                    requires
                        0 <= obj <= SCALE,
                        0 <= conf <= EXP_LIMIT,
                ;
            }
            let score = (((obj as u128) * (conf as u128)) / (sum as u128)) as i64;
            if score >= thresh {
                let sg0 = at(fm, a, 0, y, x);
                let sg1 = at(fm, a, 1, y, x);
                let e2 = at(fm, a, 2, y, x);
                let e3 = at(fm, a, 3, y, x);
                let anc = *(&anchors[a]);
                proof {
                    lemma_cell_box_ok(
                        *fm,
                        anchors@,
                        y as int,
                        x as int,
                        a as int,
                        lb as int,
                        ncls as int,
                    );
                    assert(fm.val_in_range(a as int, 0, y as int, x as int));
                    assert(fm.val_in_range(a as int, 1, y as int, x as int));
                    assert(fm.val_in_range(a as int, 2, y as int, x as int));
                    assert(fm.val_in_range(a as int, 3, y as int, x as int));
                    assert(anchor_ok(anchors@[a as int]));
                    assert(0 <= (anc.height as int) * (e2 as int) <= ANCHOR_LIMIT * EXP_LIMIT)
                        by (nonlinear_arith)
                        requires
                            0 <= anc.height <= ANCHOR_LIMIT,
                            0 <= e2 <= EXP_LIMIT,
                    ;
                    assert(0 <= (anc.width as int) * (e3 as int) <= ANCHOR_LIMIT * EXP_LIMIT)
                        by (nonlinear_arith)
                        requires
                            0 <= anc.width <= ANCHOR_LIMIT,
                            0 <= e3 <= EXP_LIMIT,
                    ;
                }
                let cy: i64 = (y as i64) * SCALE + sg0;
                let cx: i64 = (x as i64) * SCALE + sg1;
                let bh: i64 = (((anc.height as u128) * (e2 as u128)) / (SCALE as u128)) as i64;
                let bw: i64 = (((anc.width as u128) * (e3 as u128)) / (SCALE as u128)) as i64;
                proof {
                    lemma_div_toward_zero((anc.height as int) * (e2 as int), SCALE as int);
                    lemma_div_toward_zero((anc.width as int) * (e3 as int), SCALE as int);
                    lemma_div_is_ordered(
                        (anc.height as int) * (e2 as int),
                        ANCHOR_LIMIT * EXP_LIMIT,
                        SCALE as int,
                    );
                    lemma_div_is_ordered(
                        (anc.width as int) * (e3 as int),
                        ANCHOR_LIMIT * EXP_LIMIT,
                        SCALE as int,
                    );
                    lemma_div_toward_zero(bh as int, 2);
                    lemma_div_toward_zero(bw as int, 2);
                }
                let bh2: i64 = ((bh as u64) / 2) as i64;
                let bw2: i64 = ((bw as u64) / 2) as i64;
                let top = div_floor((cy - bh2) as i128, h as i128);
                let left = div_floor((cx - bw2) as i128, w as i128);
                let bottom = div_floor((cy + bh2) as i128, h as i128);
                let right = div_floor((cx + bw2) as i128, w as i128);
                proof {
                    lemma_div_toward_zero(cy - bh2, h as int);
                    lemma_div_toward_zero(cy + bh2, h as int);
                    lemma_div_toward_zero(cx - bw2, w as int);
                    lemma_div_toward_zero(cx + bw2, w as int);
                }
                let bx = BBox {
                    top: top as i64,
                    left: left as i64,
                    bottom: bottom as i64,
                    right: right as i64,
                    label: lb,
                    score,
                };
                proof {
                    assert(bx == cell_box(
                        *fm,
                        anchors@,
                        y as int,
                        x as int,
                        a as int,
                        lb as int,
                        ncls as int,
                    ));
                }
                out.push(bx);
            }
        }
        proof {
            let gi = idx as int;
            assert(decode_upto(*fm, anchors@, ncls as int, thresh as int, gi + 1)
                == decode_upto(*fm, anchors@, ncls as int, thresh as int, gi) + (if emits(
                *fm,
                (gi / ncls as int) / (na as int) / (w as int),
                ((gi / ncls as int) / (na as int)) % (w as int),
                (gi / ncls as int) % (na as int),
                gi % ncls as int,
                ncls as int,
                thresh as int,
            ) {
                seq![
                    cell_box(
                        *fm,
                        anchors@,
                        (gi / ncls as int) / (na as int) / (w as int),
                        ((gi / ncls as int) / (na as int)) % (w as int),
                        (gi / ncls as int) % (na as int),
                        gi % ncls as int,
                        ncls as int,
                    ),
                ]
            } else {
                Seq::empty()
            }));
        }
        idx += 1;
    }
    out
}

} // verus!
