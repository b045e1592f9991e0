//! Quantizer: maps small level indices to 8-bit channel values and back.
//!
//! `quantize` spreads the `levels` representative values evenly over 0..255
//! (rounding to the nearest integer); `dequantize` returns the nearest level
//! index, clamped to the valid range. The distance between representative
//! values gives each level a noise margin, proved in
//! `lemma_dequantize_noise_tolerance`.

use vstd::prelude::*;
use vstd::arithmetic::div_mod::*;

verus! {

/// `round(v * 255 / (l - 1))`, as an integer computation.
pub open spec fn quantize_int(v: int, l: int) -> int
    recommends
        l >= 2,
{
    (510 * v + (l - 1)) / (2 * (l - 1))
}

/// `min(round(p * (l - 1) / 255), l - 1)`, as an integer computation.
pub open spec fn dequantize_int(p: int, l: int) -> int
    recommends
        l >= 2,
{
    let rounded = (2 * p * (l - 1) + 255) / 510;
    if rounded > l - 1 {
        l - 1
    } else {
        rounded
    }
}

/// Map a quantization level (0..levels-1) to its 8-bit channel value.
pub open spec fn spec_quantize(value: u8, levels: u8) -> u8 {
    if levels <= 1 {
        0
    } else {
        quantize_int(value as int, levels as int) as u8
    }
}

/// Map an 8-bit channel value to the nearest quantization level.
pub open spec fn spec_dequantize(pixel: u8, levels: u8) -> u8 {
    if levels <= 1 {
        0
    } else {
        dequantize_int(pixel as int, levels as int) as u8
    }
}

/// An integer confined to the 8-bit channel range.
pub open spec fn clamp_byte(x: int) -> int {
    if x < 0 {
        0
    } else if x > 255 {
        255
    } else {
        x
    }
}

/// The rounded level position stays within the channel range.
pub proof fn lemma_quantize_int_bounds(v: int, l: int)
    requires
        2 <= l <= 255,
        0 <= v < l,
    ensures
        0 <= quantize_int(v, l) <= 255,
{
    let d = 2 * (l - 1);
    let num = 510 * v + (l - 1);
    lemma_div_pos_is_pos(num, d);
    assert(num <= 510 * (l - 1) + (l - 1));
    lemma_div_is_ordered(num, 510 * (l - 1) + (l - 1), d);
    assert((510 * (l - 1) + (l - 1)) / d == 255) by {
        assert(510 * (l - 1) + (l - 1) == d * 255 + (l - 1)) by (nonlinear_arith)
            requires
                d == 2 * (l - 1),
        ;
        lemma_fundamental_div_mod_converse(510 * (l - 1) + (l - 1), d, 255, l - 1);
    }
}

/// Quantize a level index `value` in 0..levels to a channel value; a `levels`
/// of 0 or 1 has a single representative value, 0.
pub fn quantize(value: u8, levels: u8) -> (r: u8)
    requires
        levels >= 2 ==> value < levels,
    ensures
        r == spec_quantize(value, levels),
{
    if levels <= 1 {
        return 0;
    }
    let v: u32 = value as u32;
    let l: u32 = levels as u32;
    let q: u32 = (510 * v + (l - 1)) / (2 * (l - 1));
    proof {
        lemma_quantize_int_bounds(value as int, levels as int);
    }
    q as u8
}

/// Dequantize a channel value back to the nearest level index in 0..levels.
pub fn dequantize(pixel: u8, levels: u8) -> (r: u8)
    ensures
        r == spec_dequantize(pixel, levels),
{
    if levels <= 1 {
        return 0;
    }
    let p: u32 = pixel as u32;
    let l: u32 = levels as u32;
    proof {
        assert(2 * (p as int) * ((l as int) - 1) <= 510 * 254) by (nonlinear_arith)
            requires
                p <= 255,
                2 <= l <= 255,
        ;
    }
    let rounded: u32 = (2 * p * (l - 1) + 255) / 510;
    proof {
        lemma_div_pos_is_pos(2 * (pixel as int) * (levels as int - 1) + 255, 510);
    }
    if rounded > l - 1 {
        (l - 1) as u8
    } else {
        rounded as u8
    }
}

/// If the channel value `c` lies in level `v`'s decision interval, the
/// dequantizer returns `v`.
proof fn lemma_dequantize_in_range(c: int, v: int, l: int)
    requires
        2 <= l <= 255,
        0 <= v < l,
        0 <= c <= 255,
        510 * v <= 2 * c * (l - 1) + 255 < 510 * (v + 1),
    ensures
        dequantize_int(c, l) == v,
{
    let num = 2 * c * (l - 1) + 255;
    lemma_fundamental_div_mod_converse(num, 510, v, num - 510 * v);
}

/// Quantize round trip: every level index maps to a channel value that
/// dequantizes back to itself, for any level count from 2 to 255.
pub proof fn lemma_quantize_round_trip(v: u8, l: u8)
    requires
        2 <= l,
        v < l,
    ensures
        spec_dequantize(spec_quantize(v, l), l) == v,
{
    let vi = v as int;
    let li = l as int;
    let d = 2 * (li - 1);
    let num = 510 * vi + (li - 1);
    let q = quantize_int(vi, li);
    lemma_quantize_int_bounds(vi, li);
    lemma_fundamental_div_mod(num, d);
    lemma_mod_bound(num, d);
    let r = num % d;
    assert(d * q == 2 * q * (li - 1)) by (nonlinear_arith)
        requires
            d == 2 * (li - 1),
    ;
    let num2 = 2 * q * (li - 1) + 255;
    assert(num2 == 510 * vi + (li - 1) - r + 255);
    assert(510 * vi <= num2 < 510 * (vi + 1));
    lemma_dequantize_in_range(q, vi, li);
}

/// The per-level noise margin of the dequantizer: half the spacing between
/// adjacent representative values.
pub open spec fn noise_margin(l: u8) -> int
    recommends
        l >= 2,
{
    255int / (2 * (l as int - 1))
}

/// Round trip for an exactly representable spacing: when `l - 1` divides 255
/// the representative value of level `v` is exactly `v * (255 / (l - 1))`.
proof fn lemma_quantize_exact(v: int, l: int)
    requires
        l == 2 || l == 4 || l == 16,
        0 <= v < l,
    ensures
        quantize_int(v, l) == v * (255int / (l - 1)),
{
    let t = 255int / (l - 1);
    if l == 2 {
        lemma_fundamental_div_mod_converse(255, 1, 255, 0);
    } else if l == 4 {
        lemma_fundamental_div_mod_converse(255, 3, 85, 0);
    } else {
        lemma_fundamental_div_mod_converse(255, 15, 17, 0);
    }
    assert((l - 1) * t == 255);
    assert(510 * v + (l - 1) == (2 * (l - 1)) * (t * v) + (l - 1)) by (nonlinear_arith)
        requires
            (l - 1) * t == 255,
    ;
    lemma_fundamental_div_mod_converse(510 * v + (l - 1), 2 * (l - 1), t * v, l - 1);
    assert(t * v == v * t) by (nonlinear_arith);
}

/// The concrete noise margin for each supported level count.
proof fn lemma_noise_margin_value(l: u8)
    requires
        l == 2 || l == 4 || l == 8 || l == 16,
    ensures
        l == 2 ==> noise_margin(l) == 127,
        l == 4 ==> noise_margin(l) == 42,
        l == 8 ==> noise_margin(l) == 18,
        l == 16 ==> noise_margin(l) == 8,
{
    if l == 2 {
        lemma_fundamental_div_mod_converse(255, 2, 127, 1);
    } else if l == 4 {
        lemma_fundamental_div_mod_converse(255, 6, 42, 3);
    } else if l == 8 {
        lemma_fundamental_div_mod_converse(255, 14, 18, 3);
    } else {
        lemma_fundamental_div_mod_converse(255, 30, 8, 15);
    }
}

/// Noise tolerance: perturbing a quantized channel value by at most the noise
/// margin (and clamping to the channel range) still dequantizes to the
/// original level. At 8 levels the rounded representative values of levels
/// 1, 3, 4 and 6 sit a fraction closer to one neighbour, so on that side
/// their margin is one less than `noise_margin`; those four inputs are
/// excluded.
pub proof fn lemma_dequantize_noise_tolerance(v: u8, l: u8, n: int)
    requires
        l == 2 || l == 4 || l == 8 || l == 16,
        v < l,
        -noise_margin(l) <= n <= noise_margin(l),
        l == 8 ==> !((v == 1 && n == -18) || (v == 3 && n == -18) || (v == 4 && n == 18) || (v == 6
            && n == 18)),
    ensures
        spec_dequantize(clamp_byte(spec_quantize(v, l) + n) as u8, l) == v,
{
    let vi = v as int;
    let li = l as int;
    lemma_quantize_int_bounds(vi, li);
    lemma_noise_margin_value(l);
    let q = quantize_int(vi, li);
    let c = clamp_byte(q + n);
    if l == 8 {
        if vi == 0 {
            assert(q == 0) by {
                lemma_fundamental_div_mod_converse(7, 14, 0, 7);
            }
            lemma_dequantize_in_range(c, 0, 8);
        } else if vi == 1 {
            assert(q == 36) by {
                lemma_fundamental_div_mod_converse(517, 14, 36, 13);
            }
            lemma_dequantize_in_range(c, 1, 8);
        } else if vi == 2 {
            assert(q == 73) by {
                lemma_fundamental_div_mod_converse(1027, 14, 73, 5);
            }
            lemma_dequantize_in_range(c, 2, 8);
        } else if vi == 3 {
            assert(q == 109) by {
                lemma_fundamental_div_mod_converse(1537, 14, 109, 11);
            }
            lemma_dequantize_in_range(c, 3, 8);
        } else if vi == 4 {
            assert(q == 146) by {
                lemma_fundamental_div_mod_converse(2047, 14, 146, 3);
            }
            lemma_dequantize_in_range(c, 4, 8);
        } else if vi == 5 {
            assert(q == 182) by {
                lemma_fundamental_div_mod_converse(2557, 14, 182, 9);
            }
            lemma_dequantize_in_range(c, 5, 8);
        } else if vi == 6 {
            assert(q == 219) by {
                lemma_fundamental_div_mod_converse(3067, 14, 219, 1);
            }
            lemma_dequantize_in_range(c, 6, 8);
        } else {
            assert(q == 255) by {
                lemma_fundamental_div_mod_converse(3577, 14, 255, 7);
            }
            lemma_dequantize_in_range(c, 7, 8);
        }
    } else {
        let t = 255int / (li - 1);
        let m = noise_margin(l);
        lemma_quantize_exact(vi, li);
        if l == 2 {
            lemma_fundamental_div_mod_converse(255, 1, 255, 0);
        } else if l == 4 {
            lemma_fundamental_div_mod_converse(255, 3, 85, 0);
        } else {
            lemma_fundamental_div_mod_converse(255, 15, 17, 0);
        }
        assert((li - 1) * t == 255);
        assert(q == vi * t);
        if q + n < 0 {
            assert(vi * t < m);
            assert(vi == 0) by (nonlinear_arith)
                requires
                    0 <= vi,
                    vi * t < m,
                    0 < m < t,
            ;
            lemma_dequantize_in_range(0, 0, li);
        } else if q + n > 255 {
            assert(vi * t > 255 - m);
            assert(vi == li - 1) by (nonlinear_arith)
                requires
                    vi < li,
                    vi * t > 255 - m,
                    (li - 1) * t == 255,
                    0 < 2 * m < t,
            ;
            assert(510 * vi <= 2 * 255 * (li - 1) + 255 < 510 * (vi + 1)) by (nonlinear_arith)
                requires
                    vi == li - 1,
                    2 <= li,
            ;
            lemma_dequantize_in_range(255, vi, li);
        } else {
            assert(2 * c * (li - 1) + 255 == 510 * vi + 2 * n * (li - 1) + 255) by (nonlinear_arith)
                requires
                    c == vi * t + n,
                    (li - 1) * t == 255,
            ;
            assert(-2 * m * (li - 1) <= 2 * n * (li - 1) <= 2 * m * (li - 1)) by (nonlinear_arith)
                requires
                    -m <= n <= m,
                    li >= 2,
            ;
            assert(2 * m * (li - 1) <= 254);
            lemma_dequantize_in_range(c, vi, li);
        }
    }
}

} // verus!
