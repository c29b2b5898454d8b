//! Fixed-point representation shared by the whole pipeline.
//!
//! A quantity `q` stands for the real number `q / SCALE`; six decimal places
//! are kept. All activations, coordinates and scores use this representation.

use vstd::arithmetic::div_mod::{lemma_fundamental_div_mod, lemma_fundamental_div_mod_converse};
use vstd::prelude::*;

verus! {

/// One unit of the fixed-point scale: a stored value `q` stands for `q / SCALE`.
pub const SCALE: i64 = 1_000_000;

/// The fixed-point value 0.5: the letterbox fill, and the reference
/// objectness threshold of the detector.
pub const HALF: i64 = 500_000;

/// Largest admitted exponential activation (1000.0): `exp` outputs beyond it
/// are outside the decoder's precondition, since no overflow guard is applied
/// downstream.
pub const EXP_LIMIT: i64 = 1_000_000_000;

/// Largest admitted anchor side (100.0 grid cells).
pub const ANCHOR_LIMIT: i64 = 100_000_000;

/// Bound on the magnitude of any decoded box coordinate (100000.0).
pub const BOX_LIMIT: i64 = 100_000_000_000;

/// Smallest preprocessing scale (0.001) accepted by the inverse mapping:
/// images more than a thousand times larger than the input tensor are out of
/// range.
pub const MIN_SCALE: i64 = 1_000;

/// Floor division of `n` by a positive `d`, agreeing with the mathematical
/// (Euclidean) quotient also for negative `n`.
pub fn div_floor(n: i128, d: i128) -> (r: i128)
    requires
        0 < d < 0x4000_0000_0000_0000_0000_0000_0000_0000,
        -0x4000_0000_0000_0000_0000_0000_0000_0000 < n
            < 0x4000_0000_0000_0000_0000_0000_0000_0000,
    ensures
        r == n as int / d as int,
{
    if n >= 0 {
        (((n as u128) / (d as u128)) as i128)
    } else {
        let m: u128 = (-n) as u128;
        let dd: u128 = d as u128;
        let q: u128 = (m + dd - 1) / dd;
        proof {
            lemma_fundamental_div_mod(m as int, d as int);
            let q0 = m as int / d as int;
            let r0 = m as int % d as int;
            assert(d * q0 == q0 * d) by (nonlinear_arith);
            assert((q0 + 1) * d == q0 * d + d) by (nonlinear_arith);
            assert((-q0) * d == -(q0 * d)) by (nonlinear_arith);
            assert((-q0 - 1) * d == -(q0 * d) - d) by (nonlinear_arith);
            if r0 == 0 {
                lemma_fundamental_div_mod_converse(m as int + d - 1, d as int, q0, d - 1);
                lemma_fundamental_div_mod_converse(n as int, d as int, -q0, 0);
            } else {
                lemma_fundamental_div_mod_converse(m as int + d - 1, d as int, q0 + 1, r0 - 1);
                lemma_fundamental_div_mod_converse(n as int, d as int, -q0 - 1, d - r0);
            }
        }
        -(q as i128)
    }
}

/// Quotients by a positive divisor stay between the dividend and zero.
pub proof fn lemma_div_toward_zero(n: int, d: int)
    requires
        0 < d,
    ensures
        n >= 0 ==> 0 <= n / d <= n,
        n < 0 ==> n <= n / d <= 0,
{
    if n >= 0 {
        vstd::arithmetic::div_mod::lemma_div_pos_is_pos(n, d);
        vstd::arithmetic::div_mod::lemma_div_nonincreasing(n, d);
    } else {
        lemma_fundamental_div_mod(n, d);
        vstd::arithmetic::div_mod::lemma_mod_division_less_than_divisor(n, d);
        let q = n / d;
        let r = n % d;
        assert(n <= q <= 0) by (nonlinear_arith)
            requires
                n == d * q + r,
                0 <= r < d,
                1 <= d,
                n < 0,
        ;
    }
}

} // verus!
