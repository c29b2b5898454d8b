//! Letterbox preprocessing: fit an image into the square input tensor while
//! preserving its aspect ratio.
//!
//! The tensor is filled with the neutral value 0.5, the image is resized
//! with a nearest-neighbor filter to the largest size that fits, and the
//! normalized pixels (`[0, 255]` mapped to `[0, 1]`) are copied centered,
//! the odd padding remainder biased toward the top-left by integer division.
//! The returned scale is `min(size / height, size / width)`, kept for the
//! detector's inverse mapping.

use crate::fixed::{HALF, SCALE};
use vstd::arithmetic::div_mod::{lemma_div_multiples_vanish, lemma_fundamental_div_mod_converse};
use vstd::math::min;
use vstd::pervasive::VecAdditionalExecFns;
use vstd::prelude::*;

verus! {

/// An RGB image: interleaved rows of `(r, g, b)` bytes.
pub struct Image {
    pub pixels: Vec<u8>,
    pub width: usize,
    pub height: usize,
}

impl Image {
    /// Positive, bounded dimensions matching the buffer length.
    pub open spec fn wf(self) -> bool {
        &&& 1 <= self.width <= 1_048_576
        &&& 1 <= self.height <= 1_048_576
        &&& self.pixels@.len() == 3 * self.width * self.height
    }

    /// Channel `c` of the pixel at `(y, x)`.
    pub open spec fn px(self, c: int, y: int, x: int) -> int {
        self.pixels@[3 * (y * self.width + x) + c] as int
    }
}

/// The square, three-channel input tensor of the network, laid out
/// `[channel][row][column]`, fixed-point.
pub struct InputTensor {
    pub data: Vec<i64>,
    pub size: usize,
}

impl InputTensor {
    /// Positive, bounded side matching the buffer length.
    pub open spec fn wf(self) -> bool {
        &&& 1 <= self.size <= 4096
        &&& self.data.len() == 3 * self.size * self.size
    }

    /// The entry for channel `c` at `(y, x)`.
    pub open spec fn val(self, c: int, y: int, x: int) -> int {
        self.data@[(c * self.size + y) * self.size + x] as int
    }
}

/// A byte pixel normalized to fixed point: `[0, 255]` maps to `[0, 1]`.
pub open spec fn px_norm(p: int) -> int {
    p * SCALE / 255
}

/// The letterbox scale: `min(size / height, size / width)`, fixed-point.
pub open spec fn scale_spec(img: Image, s: int) -> int {
    min(s * SCALE / (img.height as int), s * SCALE / (img.width as int))
}

/// What the nearest-neighbor fitting resize of an RGB buffer returns:
/// the resized buffer and its width and height. The result depends only on
/// the arguments; it is pinned down by [`resize_nearest`].
pub uninterp spec fn resize_nearest_of(pix: Seq<u8>, w: int, h: int, tw: int, th: int) -> (
    Seq<u8>,
    int,
    int,
);

/// Relies on `image::DynamicImage::resize` with
/// `image::imageops::FilterType::Nearest`: it scales the picture to the
/// largest dimensions that fit within the requested bounds while preserving
/// the aspect ratio (never below one pixel per side), and returns the
/// picture unchanged when the bounds equal its dimensions.
#[verifier::external_body]
fn resize_nearest(pix: &Vec<u8>, w: u32, h: u32, tw: u32, th: u32) -> (r: (Vec<u8>, u32, u32))
    requires
        pix@.len() == 3 * w * h,
        1 <= w,
        1 <= h,
        1 <= tw,
        1 <= th,
    ensures
        (r.0@, r.1 as int, r.2 as int) == resize_nearest_of(
            pix@,
            w as int,
            h as int,
            tw as int,
            th as int,
        ),
        r.0@.len() == 3 * r.1 * r.2,
        1 <= r.1 <= tw,
        1 <= r.2 <= th,
        w == tw && h == th ==> r.0@ == pix@ && r.1 == w && r.2 == h,
{
    let img = image::RgbImage::from_raw(w, h, pix.clone()).unwrap();
    let resized = image::DynamicImage::ImageRgb8(img)
        .resize(tw, th, image::imageops::FilterType::Nearest)
        .into_rgb8();
    let (rw, rh) = (resized.width(), resized.height());
    (resized.into_raw(), rw, rh)
}

/// The tensor holds the letterboxed image: the resized pixels, normalized,
/// centered with the top-left bias, and the neutral fill elsewhere.
pub open spec fn letterboxed(t: InputTensor, img: Image) -> bool {
    let r = resize_nearest_of(
        img.pixels@,
        img.width as int,
        img.height as int,
        t.size as int,
        t.size as int,
    );
    let oy = (t.size - r.2) / 2;
    let ox = (t.size - r.1) / 2;
    forall|c: int, y: int, x: int|
        0 <= c < 3 && 0 <= y < t.size && 0 <= x < t.size ==> #[trigger] t.val(c, y, x) == (if oy
            <= y < oy + r.2 && ox <= x < ox + r.1 {
            px_norm(r.0[3 * ((y - oy) * r.1 + (x - ox)) + c] as int)
        } else {
            HALF as int
        })
}

/// Flattened position of a tensor entry, with its bound and its div/mod
/// decomposition (which makes the flattening injective).
proof fn lemma_tensor_index(c: int, y: int, x: int, s: int)
    requires
        0 <= c < 3,
        0 <= y < s,
        0 <= x < s,
        1 <= s,
    ensures
        0 <= (c * s + y) * s + x < 3 * s * s,
        ((c * s + y) * s + x) / s == c * s + y,
        ((c * s + y) * s + x) % s == x,
        (c * s + y) / s == c,
        (c * s + y) % s == y,
{
    assert(0 <= (c * s + y) * s + x < 3 * s * s && (c * s + y) * s + x == (c * s + y) * s + x)
        by (nonlinear_arith)
        requires
            0 <= c < 3,
            0 <= y < s,
            0 <= x < s,
            1 <= s,
    ;
    lemma_fundamental_div_mod_converse((c * s + y) * s + x, s, c * s + y, x);
    lemma_fundamental_div_mod_converse(c * s + y, s, c, y);
}

/// Fill the destination tensor with the letterboxed image and return the
/// scale for the inverse mapping. A square image of exactly the tensor size
/// keeps scale `1.0` and maps every pixel one to one, with no letterbox
/// band.
pub fn set_image(tensor: &mut InputTensor, img: &Image) -> (scale: i64)
    requires
        old(tensor).wf(),
        img.wf(),
    ensures
        final(tensor).wf(),
        final(tensor).size == old(tensor).size,
        scale == scale_spec(*img, old(tensor).size as int),
        letterboxed(*final(tensor), *img),
        img.width == old(tensor).size && img.height == old(tensor).size ==> scale == SCALE
            && (forall|c: int, y: int, x: int|
            0 <= c < 3 && 0 <= y < old(tensor).size && 0 <= x < old(tensor).size
                ==> #[trigger] final(tensor).val(c, y, x) == px_norm(img.px(c, y, x))),
{
    let s = tensor.size;
    let sc_h: i64 = ((s as u64) * (SCALE as u64) / (img.height as u64)) as i64;
    let sc_w: i64 = ((s as u64) * (SCALE as u64) / (img.width as u64)) as i64;
    let scale: i64 = if sc_h <= sc_w {
        sc_h
    } else {
        sc_w
    };
    let r = resize_nearest(&img.pixels, img.width as u32, img.height as u32, s as u32, s as u32);
    let rp = r.0;
    let rw = r.1 as usize;
    let rh = r.2 as usize;
    let oy = (s - rh) / 2;
    let ox = (s - rw) / 2;
    let ghost rr = resize_nearest_of(
        img.pixels@,
        img.width as int,
        img.height as int,
        s as int,
        s as int,
    );
    let mut i: usize = 0;
    let n = tensor.data.len();
    while i < n
        invariant
            tensor.size == s,
            n == tensor.data.len(),
            old(tensor).wf(),
            tensor.wf(),
            i <= n,
            forall|j: int| 0 <= j < i ==> tensor.data@[j] == HALF,
        decreases n - i,
    {
        tensor.data.set(i, HALF);
        i += 1;
    }
    proof {
        vstd::arithmetic::div_mod::lemma_div_nonincreasing((s - rh) as int, 2);
        vstd::arithmetic::div_mod::lemma_div_pos_is_pos((s - rh) as int, 2);
        vstd::arithmetic::div_mod::lemma_div_nonincreasing((s - rw) as int, 2);
        vstd::arithmetic::div_mod::lemma_div_pos_is_pos((s - rw) as int, 2);
        assert(oy + rh <= s && ox + rw <= s);
        assert forall|c2: int, y2: int, x2: int|
            0 <= c2 < 3 && 0 <= y2 < s && 0 <= x2 < s implies #[trigger] tensor.val(c2, y2, x2)
            == HALF as int by {
            lemma_tensor_index(c2, y2, x2, s as int);
        }
    }
    let mut c: usize = 0;
    while c < 3
        invariant
            tensor.size == s,
            tensor.wf(),
            old(tensor).wf(),
            img.wf(),
            c <= 3,
            rp@ == rr.0,
            rw == rr.1,
            rh == rr.2,
            rp@.len() == 3 * rw * rh,
            1 <= rw <= s,
            1 <= rh <= s,
            oy == (s - rh) / 2,
            ox == (s - rw) / 2,
            oy + rh <= s,
            ox + rw <= s,
            forall|c2: int, y2: int, x2: int|
                0 <= c2 < 3 && 0 <= y2 < s && 0 <= x2 < s ==> #[trigger] tensor.val(c2, y2, x2)
                    == (if oy <= y2 < oy + rh && ox <= x2 < ox + rw && c2 < c {
                    px_norm(rp@[3 * ((y2 - oy) * rw + (x2 - ox)) + c2] as int)
                } else {
                    HALF as int
                }),
        decreases 3 - c,
    {
        let mut yy: usize = 0;
        while yy < rh
            invariant
                tensor.size == s,
                tensor.wf(),
                img.wf(),
                c < 3,
                yy <= rh,
                rp@ == rr.0,
                rw == rr.1,
                rh == rr.2,
                rp@.len() == 3 * rw * rh,
                1 <= rw <= s,
                1 <= rh <= s,
                oy == (s - rh) / 2,
                ox == (s - rw) / 2,
                oy + rh <= s,
                ox + rw <= s,
                forall|c2: int, y2: int, x2: int|
                    0 <= c2 < 3 && 0 <= y2 < s && 0 <= x2 < s ==> #[trigger] tensor.val(c2, y2, x2)
                        == (if oy <= y2 < oy + rh && ox <= x2 < ox + rw && (c2 < c || (c2 == c && y2
                        - oy < yy)) {
                        px_norm(rp@[3 * ((y2 - oy) * rw + (x2 - ox)) + c2] as int)
                    } else {
                        HALF as int
                    }),
            decreases rh - yy,
        {
            let mut xx: usize = 0;
            while xx < rw
                invariant
                    tensor.size == s,
                    tensor.wf(),
                    img.wf(),
                    c < 3,
                    yy < rh,
                    xx <= rw,
                    rp@ == rr.0,
                    rw == rr.1,
                    rh == rr.2,
                    rp@.len() == 3 * rw * rh,
                    1 <= rw <= s,
                    1 <= rh <= s,
                    oy == (s - rh) / 2,
                    ox == (s - rw) / 2,
                    oy + rh <= s,
                    ox + rw <= s,
                    forall|c2: int, y2: int, x2: int|
                        0 <= c2 < 3 && 0 <= y2 < s && 0 <= x2 < s ==> #[trigger] tensor.val(
                            c2,
                            y2,
                            x2,
                        ) == (if oy <= y2 < oy + rh && ox <= x2 < ox + rw && (c2 < c || (c2 == c
                            && (y2 - oy < yy || (y2 - oy == yy && x2 - ox < xx)))) {
                            px_norm(rp@[3 * ((y2 - oy) * rw + (x2 - ox)) + c2] as int)
                        } else {
                            HALF as int
                        }),
                decreases rw - xx,
            {
                let rl = rp.len();
                proof {
                    assert(0 <= (yy as int) * (rw as int) && 0 <= 3 * ((yy as int) * (rw as int)
                        + (xx as int)) + (c as int) < 3 * (rw as int) * (rh as int))
                        by (nonlinear_arith)
                        requires
                            0 <= c < 3,
                            0 <= yy < rh,
                            0 <= xx < rw,
                            1 <= rw,
                    ;
                    assert(3 * ((yy as int) * (rw as int) + (xx as int)) + (c as int) < rl as int);
                    lemma_tensor_index(c as int, (yy + oy) as int, (xx + ox) as int, s as int);
                }
                let p: u8 = rp[3 * (yy * rw + xx) + c];
                let v: i64 = (((p as u64) * (SCALE as u64)) / 255) as i64;
                let ghost pre = *tensor;
                tensor.data.set((c * s + (yy + oy)) * s + (xx + ox), v);
                proof {
                    assert forall|c2: int, y2: int, x2: int|
                        0 <= c2 < 3 && 0 <= y2 < s && 0 <= x2 < s implies #[trigger] tensor.val(
                        c2,
                        y2,
                        x2,
                    ) == (if oy <= y2 < oy + rh && ox <= x2 < ox + rw && (c2 < c || (c2 == c && (y2
                        - oy < yy || (y2 - oy == yy && x2 - ox < xx + 1)))) {
                        px_norm(rp@[3 * ((y2 - oy) * rw + (x2 - ox)) + c2] as int)
                    } else {
                        HALF as int
                    }) by {
                        lemma_tensor_index(c2, y2, x2, s as int);
                        lemma_tensor_index(c as int, (yy + oy) as int, (xx + ox) as int, s as int);
                        assert(pre.val(c2, y2, x2) == (if oy <= y2 < oy + rh && ox <= x2 < ox + rw
                            && (c2 < c || (c2 == c && (y2 - oy < yy || (y2 - oy == yy && x2 - ox
                            < xx)))) {
                            px_norm(rp@[3 * ((y2 - oy) * rw + (x2 - ox)) + c2] as int)
                        } else {
                            HALF as int
                        }));
                    }
                }
                xx += 1;
            }
            yy += 1;
        }
        c += 1;
    }
    proof {
        assert(scale == scale_spec(*img, s as int));
        if img.width == s && img.height == s {
            lemma_div_multiples_vanish(SCALE as int, s as int);
            assert(rr.0 == img.pixels@ && rr.1 == s && rr.2 == s);
            assert forall|c2: int, y2: int, x2: int|
                0 <= c2 < 3 && 0 <= y2 < s && 0 <= x2 < s implies #[trigger] tensor.val(c2, y2, x2)
                == px_norm(img.px(c2, y2, x2)) by {
                assert(tensor.val(c2, y2, x2) == px_norm(rp@[3 * (y2 * rw + x2) + c2] as int));
            }
        }
    }
    scale
}

} // verus!
