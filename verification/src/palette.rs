use vstd::prelude::*;
use crate::colour::{HSVf, SCALE, lemma_div_bound, lemma_mul_le};

verus! {

/// The hue assigned to a horizontal position: the viewport width spans the
/// hue circle linearly, truncated to fixed point. Strictly below 360 degrees
/// for every position inside the viewport.
pub open spec fn palette_hue(width: int, x: int) -> int {
    360 * (SCALE as int) * x / width
}

/// The rising half of the tent over a vertical position: climbs linearly
/// from 0 to 1 over the upper half of the viewport and is pinned at 1 below
/// it. Truncated to fixed point.
pub open spec fn tent_rise(height: int, y: int) -> int {
    if y <= height / 2 {
        y * (SCALE as int) / (height / 2)
    } else {
        SCALE as int
    }
}

/// The falling half of the tent over a vertical position: pinned at 1 over
/// the upper half of the viewport and falling linearly back to 0 below it.
/// Truncated to fixed point.
pub open spec fn tent_fall(height: int, y: int) -> int {
    if y > height / 2 {
        (height - y) * (SCALE as int) / (height / 2)
    } else {
        SCALE as int
    }
}

/// Map a viewport coordinate to a fixed-point hue/saturation/value colour:
/// the horizontal position picks the hue, the vertical position the tent
/// over saturation and value (swapped when the origin is at the bottom
/// left). The result always lies in the conversion domain, so converting it
/// onward cannot fail.
pub fn coords_to_hsvf(width: usize, height: usize, x: usize, y: usize, invert_y: bool) -> (result:
    HSVf)
    requires
        0 < width <= 4_000_000_000,
        2 <= height <= 4_000_000_000,
        x < width,
        y <= height,
    ensures
        result.h == palette_hue(width as int, x as int),
        !invert_y ==> result.s == tent_rise(height as int, y as int) && result.v == tent_fall(
            height as int,
            y as int,
        ),
        invert_y ==> result.s == tent_fall(height as int, y as int) && result.v == tent_rise(
            height as int,
            y as int,
        ),
        result.in_domain(),
        result.h < 360 * SCALE,
{
    proof {
        lemma_mul_le(360_000_000, x as int, 360_000_000, 4_000_000_000);
    }
    let hue64: u64 = 360 * SCALE * (x as u64) / (width as u64);
    proof {
        lemma_mul_strict_mono(x as int, width as int, 360_000_000);
        lemma_div_bound(360 * (SCALE as int) * (x as int), 360 * (SCALE as int), width as int);
    }

    let half: u64 = (height as u64) / 2;

    let rise64: u64 = if (y as u64) <= half {
        proof {
            lemma_mul_le(y as int, 1_000_000, 4_000_000_000, 1_000_000);
            vstd::arithmetic::div_mod::lemma_div_is_ordered(
                (y as int) * (SCALE as int),
                (half as int) * (SCALE as int),
                half as int,
            );
            vstd::arithmetic::div_mod::lemma_div_by_multiple(SCALE as int, half as int);
            assert((half as int) * (SCALE as int) == (SCALE as int) * (half as int)) by (nonlinear_arith);
        }
        (y as u64) * SCALE / half
    } else {
        SCALE
    };

    let fall64: u64 = if (y as u64) > half {
        proof {
            lemma_mul_le((height - y) as int, 1_000_000, 4_000_000_000, 1_000_000);
            vstd::arithmetic::div_mod::lemma_div_is_ordered(
                ((height - y) as int) * (SCALE as int),
                (half as int) * (SCALE as int),
                half as int,
            );
            vstd::arithmetic::div_mod::lemma_div_by_multiple(SCALE as int, half as int);
            assert((half as int) * (SCALE as int) == (SCALE as int) * (half as int)) by (nonlinear_arith);
        }
        ((height - y) as u64) * SCALE / half
    } else {
        SCALE
    };

    if invert_y {
        HSVf { h: hue64 as i64, s: fall64 as i64, v: rise64 as i64 }
    } else {
        HSVf { h: hue64 as i64, s: rise64 as i64, v: fall64 as i64 }
    }
}

/// Multiplying both sides of a strict inequality by a positive constant
/// keeps it strict.
proof fn lemma_mul_strict_mono(a: int, b: int, k: int) by (nonlinear_arith)
    requires
        a < b,
        0 < k,
    ensures
        k * a < k * b,
{
}

} // verus!
