use vstd::prelude::*;

verus! {

/// Fixed-point unit: a saturation, value or channel level of `x` stands for
/// the real quantity `x / SCALE`; a hue of `x` stands for `x / SCALE` degrees.
pub const SCALE: u64 = 1_000_000;

/// Hue/saturation/value colour in fixed point.
///
/// `h` is millionths of a degree, in the domain `[0, 360 * SCALE]`;
/// `s` and `v` are millionths, in the domain `[0, SCALE]`.
/// Out-of-domain values are representable; conversion rejects them.
#[derive(Debug, Clone, Copy, PartialEq, Eq, Structural)]
pub struct HSVf {
    pub h: i64,
    pub s: i64,
    pub v: i64,
}

/// Hue/saturation/value colour in the display representation:
/// whole degrees in `[0, 359]` and whole percentages in `[0, 100]`.
#[derive(Debug, Clone, Copy, PartialEq, Eq, Structural)]
pub struct HSV {
    pub h: u16,
    pub s: u8,
    pub v: u8,
}

/// Red/green/blue colour in fixed point: each channel is millionths of
/// full intensity, in the domain `[0, SCALE]`.
#[derive(Debug, Clone, Copy, PartialEq, Eq, Structural)]
pub struct RGBf {
    pub r: i64,
    pub g: i64,
    pub b: i64,
}

/// Red/green/blue colour with 8-bit channels.
#[derive(Debug, Clone, Copy, PartialEq, Eq, Structural)]
pub struct RGB {
    pub r: u8,
    pub g: u8,
    pub b: u8,
}

/// The error returned when a hue/saturation/value triple lies outside the
/// documented domain. It carries the offending values for diagnostics.
#[derive(Debug, Clone, Copy, PartialEq, Eq, Structural)]
pub struct InvalidInput {
    pub h: i64,
    pub s: i64,
    pub v: i64,
}

/// The documented domain of a fixed-point hue/saturation/value triple:
/// hue within 0 to 360 degrees, saturation and value within 0 to 1.
pub open spec fn hsv_in_domain(h: int, s: int, v: int) -> bool {
    &&& 0 <= h <= 360 * SCALE
    &&& 0 <= s <= SCALE
    &&& 0 <= v <= SCALE
}

/// The largest of three channels.
pub open spec fn max3(r: int, g: int, b: int) -> int {
    if r >= g && r >= b {
        r
    } else if g >= b {
        g
    } else {
        b
    }
}

/// The smallest of three channels.
pub open spec fn min3(r: int, g: int, b: int) -> int {
    if r <= g && r <= b {
        r
    } else if g <= b {
        g
    } else {
        b
    }
}

/// Hue in whole degrees of an 8-bit colour: the standard piecewise formula
/// keyed on which channel is largest, with the quotient against the
/// chroma `d` taken over the reals and the result truncated to a degree.
/// An achromatic colour (zero chroma) has hue 0 by definition.
pub open spec fn hue_of(r: int, g: int, b: int) -> int {
    let mx = max3(r, g, b);
    let d = mx - min3(r, g, b);
    if d == 0 {
        0
    } else if r == mx {
        if g >= b {
            60 * (g - b) / d
        } else {
            (360 * d - 60 * (b - g)) / d
        }
    } else if g == mx {
        (120 * d + 60 * b - 60 * r) / d
    } else {
        (240 * d + 60 * r - 60 * g) / d
    }
}

/// Saturation of an 8-bit colour as a whole percentage: chroma over the
/// largest channel, truncated; 0 for pure black.
pub open spec fn sat_of(r: int, g: int, b: int) -> int {
    let mx = max3(r, g, b);
    if mx == 0 {
        0
    } else {
        100 * (mx - min3(r, g, b)) / mx
    }
}

/// Value of an 8-bit colour as a whole percentage: the largest channel
/// relative to full intensity, truncated.
pub open spec fn val_of(r: int, g: int, b: int) -> int {
    100 * max3(r, g, b) / 255
}

/// The sector index of a hue: which of the six 60-degree ranges it falls
/// into. A hue of exactly 360 degrees wraps around to sector 0.
pub open spec fn sector_of(h: int) -> int {
    if h == 360_000_000 {
        0
    } else {
        h / (60_000_000)
    }
}

/// The position of a hue inside its sector, as millionths of the sector
/// width, truncated. A hue of exactly 360 degrees wraps around to 0.
pub open spec fn hue_fraction(h: int) -> int {
    if h == 360_000_000 {
        0
    } else {
        h % (60_000_000) / 60
    }
}

/// The lowest intermediate channel level: `v * (1 - s)` in fixed point.
pub open spec fn level_p(s: int, v: int) -> int {
    v * (1_000_000 - s) / 1_000_000
}

/// The falling intermediate channel level: `v * (1 - s * f)` in fixed point.
pub open spec fn level_q(s: int, v: int, f: int) -> int {
    v * (1_000_000 - s * f / 1_000_000) / 1_000_000
}

/// The rising intermediate channel level: `v * (1 - s * (1 - f))` in fixed
/// point.
pub open spec fn level_t(s: int, v: int, f: int) -> int {
    v * (1_000_000 - s * (1_000_000 - f) / 1_000_000) / 1_000_000
}

/// The red/green/blue triple of a hue/saturation/value triple: the sector
/// of the hue selects a fixed permutation of the value and the three
/// intermediate levels.
pub open spec fn rgb_of_hsv(h: int, s: int, v: int) -> (int, int, int) {
    let f = hue_fraction(h);
    let p = level_p(s, v);
    let q = level_q(s, v, f);
    let t = level_t(s, v, f);
    let sec = sector_of(h);
    if sec == 0 {
        (v, t, p)
    } else if sec == 1 {
        (q, v, p)
    } else if sec == 2 {
        (p, v, t)
    } else if sec == 3 {
        (p, q, v)
    } else if sec == 4 {
        (t, p, v)
    } else {
        (v, p, q)
    }
}

impl HSVf {
    /// Whether this triple lies in the documented domain.
    pub open spec fn in_domain(&self) -> bool {
        hsv_in_domain(self.h as int, self.s as int, self.v as int)
    }

    /// Convert to fixed-point red/green/blue.
    ///
    /// Succeeds exactly on triples in the documented domain and then yields
    /// the sector-selected permutation of the intermediate levels; a triple
    /// outside the domain is rejected with an error carrying the offending
    /// values.
    pub fn to_rgbf(&self) -> (result: Result<RGBf, InvalidInput>)
        ensures
            result is Ok <==> self.in_domain(),
            result is Ok ==> {
                let levels = rgb_of_hsv(self.h as int, self.s as int, self.v as int);
                result->Ok_0.r == levels.0 && result->Ok_0.g == levels.1 && result->Ok_0.b
                    == levels.2
            },
            result is Ok ==> 0 <= result->Ok_0.r <= SCALE && 0 <= result->Ok_0.g <= SCALE && 0
                <= result->Ok_0.b <= SCALE,
            result is Err ==> result->Err_0 == (InvalidInput { h: self.h, s: self.s, v: self.v }),
    {
        if self.h < 0 || self.h > 360 * (SCALE as i64) || self.s < 0 || self.s > SCALE as i64
            || self.v < 0 || self.v > SCALE as i64 {
            return Err(InvalidInput { h: self.h, s: self.s, v: self.v });
        }
        let h: u64 = self.h as u64;
        let s: u64 = self.s as u64;
        let v: u64 = self.v as u64;

        let sector: u64;
        let f: u64;
        if h == 360 * SCALE {
            sector = 0;
            f = 0;
        } else {
            sector = h / (60 * SCALE);
            f = h % (60 * SCALE) / 60;
        }

        proof {
            lemma_mul_le(s as int, f as int, SCALE as int, SCALE as int);
            lemma_mul_le(v as int, 1_000_000 - s, SCALE as int, SCALE as int);
            lemma_mul_le(s as int, 1_000_000 - f, SCALE as int, SCALE as int);
        }
        let sf: u64 = s * f / SCALE;
        let p: u64 = v * (SCALE - s) / SCALE;
        proof {
            lemma_mul_le(v as int, 1_000_000 - sf, SCALE as int, SCALE as int);
            lemma_mul_le(
                v as int,
                1_000_000 - (s * (1_000_000 - f) / 1_000_000),
                SCALE as int,
                SCALE as int,
            );
        }
        let q: u64 = v * (SCALE - sf) / SCALE;
        let t: u64 = v * (SCALE - s * (SCALE - f) / SCALE) / SCALE;

        let rgb: RGBf = if sector == 0 {
            RGBf { r: v as i64, g: t as i64, b: p as i64 }
        } else if sector == 1 {
            RGBf { r: q as i64, g: v as i64, b: p as i64 }
        } else if sector == 2 {
            RGBf { r: p as i64, g: v as i64, b: t as i64 }
        } else if sector == 3 {
            RGBf { r: p as i64, g: q as i64, b: v as i64 }
        } else if sector == 4 {
            RGBf { r: t as i64, g: p as i64, b: v as i64 }
        } else if sector == 5 {
            RGBf { r: v as i64, g: p as i64, b: q as i64 }
        } else {
            RGBf { r: 0, g: 0, b: 0 }
        };
        Ok(rgb)
    }
}

/// A product of nonnegative factors is bounded by the product of their
/// bounds.
pub(crate) proof fn lemma_mul_le(a: int, b: int, c: int, d: int) by (nonlinear_arith)
    requires
        0 <= a <= c,
        0 <= b <= d,
    ensures
        0 <= a * b <= c * d,
{
}

impl RGBf {
    /// Scale each channel by 255 and truncate toward zero.
    pub fn to_u8(&self) -> (result: RGB)
        requires
            0 <= self.r <= SCALE,
            0 <= self.g <= SCALE,
            0 <= self.b <= SCALE,
        ensures
            result.r == self.r * 255 / 1_000_000,
            result.g == self.g * 255 / 1_000_000,
            result.b == self.b * 255 / 1_000_000,
    {
        RGB {
            r: ((self.r as u64) * 255 / SCALE) as u8,
            g: ((self.g as u64) * 255 / SCALE) as u8,
            b: ((self.b as u64) * 255 / SCALE) as u8,
        }
    }
}

impl RGB {
    /// Convert an 8-bit colour to the display hue/saturation/value form:
    /// hue in whole degrees, saturation and value in whole percentages,
    /// each truncated. Total: every 8-bit colour converts.
    pub fn to_hsv(&self) -> (result: HSV)
        ensures
            result.h == hue_of(self.r as int, self.g as int, self.b as int),
            result.s == sat_of(self.r as int, self.g as int, self.b as int),
            result.v == val_of(self.r as int, self.g as int, self.b as int),
            result.h < 360,
            result.s <= 100,
            result.v <= 100,
    {
        let r: u32 = self.r as u32;
        let g: u32 = self.g as u32;
        let b: u32 = self.b as u32;

        let cmax: u32 = if r >= g && r >= b {
            r
        } else if g >= b {
            g
        } else {
            b
        };
        let cmin: u32 = if r <= g && r <= b {
            r
        } else if g <= b {
            g
        } else {
            b
        };
        let d: u32 = cmax - cmin;

        let hue: u32 = if d == 0 {
            0
        } else if r == cmax {
            if g >= b {
                60 * (g - b) / d
            } else {
                (360 * d - 60 * (b - g)) / d
            }
        } else if g == cmax {
            (120 * d + 60 * b - 60 * r) / d
        } else {
            (240 * d + 60 * r - 60 * g) / d
        };

        proof {
            lemma_hue_upper_bound(r as int, g as int, b as int, cmax as int, cmin as int);
        }

        let sat: u32 = if cmax == 0 {
            0
        } else {
            proof {
                vstd::arithmetic::div_mod::lemma_div_is_ordered(
                    100 * (d as int),
                    100 * (cmax as int),
                    cmax as int,
                );
                vstd::arithmetic::div_mod::lemma_div_by_multiple(100, cmax as int);
            }
            100 * d / cmax
        };

        let val: u32 = 100 * cmax / 255;

        HSV { h: hue as u16, s: sat as u8, v: val as u8 }
    }
}

/// Hue wraparound law: a hue of exactly 360 degrees converts to the same
/// red/green/blue triple as a hue of 0, for any saturation and value.
pub proof fn lemma_hue_wraparound(s: int, v: int)
    ensures
        rgb_of_hsv(360_000_000, s, v) == rgb_of_hsv(0, s, v),
{
}

/// The display round trip of an 8-bit colour: convert to display
/// hue/saturation/value, read those whole degrees and percentages back as a
/// fixed-point triple, convert to fixed-point red/green/blue, and scale each
/// channel back to 8 bits.
pub open spec fn round_trip(r: int, g: int, b: int) -> (int, int, int) {
    let hf = hue_of(r, g, b) * 1_000_000;
    let sf = sat_of(r, g, b) * 1_000_000 / 100;
    let vf = val_of(r, g, b) * 1_000_000 / 100;
    let levels = rgb_of_hsv(hf, sf, vf);
    (
        levels.0 * 255 / 1_000_000,
        levels.1 * 255 / 1_000_000,
        levels.2 * 255 / 1_000_000,
    )
}

/// Round-trip law at the channel extremes: a colour whose channels are each
/// 0 or 255 is recovered exactly by the display round trip. (The degree and
/// percentage truncations make the round trip lossy in general, so the
/// general tolerance is wider than one step per channel; at the extremes no
/// truncation loses anything.)
#[verifier::rlimit(50)]
pub proof fn lemma_round_trip_extremes(r: int, g: int, b: int)
    requires
        r == 0 || r == 255,
        g == 0 || g == 255,
        b == 0 || b == 255,
    ensures
        round_trip(r, g, b) == (r, g, b),
{
    if r == 0 {
        if g == 0 {
            if b == 0 {
                assert(hue_of(0, 0, 0) == 0 && sat_of(0, 0, 0) == 0 && val_of(0, 0, 0) == 0);
                assert(rgb_of_hsv(0, 0, 0) == (0int, 0int, 0int));
                assert(round_trip(0, 0, 0) == (0int, 0int, 0int));
            } else {
                assert(hue_of(0, 0, 255) == 240 && sat_of(0, 0, 255) == 100 && val_of(0, 0, 255)
                    == 100);
                assert(rgb_of_hsv(240_000_000, 1_000_000, 1_000_000) == (
                    0int,
                    0int,
                    1_000_000int,
                ));
                assert(round_trip(0, 0, 255) == (0int, 0int, 255int));
            }
        } else {
            if b == 0 {
                assert(hue_of(0, 255, 0) == 120 && sat_of(0, 255, 0) == 100 && val_of(0, 255, 0)
                    == 100);
                assert(rgb_of_hsv(120_000_000, 1_000_000, 1_000_000) == (
                    0int,
                    1_000_000int,
                    0int,
                ));
                assert(round_trip(0, 255, 0) == (0int, 255int, 0int));
            } else {
                assert(max3(0, 255, 255) == 255 && min3(0, 255, 255) == 0);
                assert(hue_of(0, 255, 255) == 180);
                assert(sat_of(0, 255, 255) == 100);
                assert(val_of(0, 255, 255) == 100);
                assert(sector_of(180_000_000) == 3);
                assert(hue_fraction(180_000_000) == 0);
                assert(level_p(1_000_000, 1_000_000) == 0);
                assert(level_q(1_000_000, 1_000_000, 0) == 1_000_000);
                assert(rgb_of_hsv(180_000_000, 1_000_000, 1_000_000) == (
                    0int,
                    1_000_000int,
                    1_000_000int,
                ));
                assert(round_trip(0, 255, 255) == (0int, 255int, 255int));
            }
        }
    } else {
        if g == 0 {
            if b == 0 {
                assert(hue_of(255, 0, 0) == 0 && sat_of(255, 0, 0) == 100 && val_of(255, 0, 0)
                    == 100);
                assert(rgb_of_hsv(0, 1_000_000, 1_000_000) == (1_000_000int, 0int, 0int));
                assert(round_trip(255, 0, 0) == (255int, 0int, 0int));
            } else {
                assert(hue_of(255, 0, 255) == 300 && sat_of(255, 0, 255) == 100 && val_of(
                    255,
                    0,
                    255,
                ) == 100);
                assert(rgb_of_hsv(300_000_000, 1_000_000, 1_000_000) == (
                    1_000_000int,
                    0int,
                    1_000_000int,
                ));
                assert(round_trip(255, 0, 255) == (255int, 0int, 255int));
            }
        } else {
            if b == 0 {
                assert(hue_of(255, 255, 0) == 60 && sat_of(255, 255, 0) == 100 && val_of(
                    255,
                    255,
                    0,
                ) == 100);
                assert(rgb_of_hsv(60_000_000, 1_000_000, 1_000_000) == (
                    1_000_000int,
                    1_000_000int,
                    0int,
                ));
                assert(round_trip(255, 255, 0) == (255int, 255int, 0int));
            } else {
                assert(hue_of(255, 255, 255) == 0 && sat_of(255, 255, 255) == 0 && val_of(
                    255,
                    255,
                    255,
                ) == 100);
                assert(rgb_of_hsv(0, 0, 1_000_000) == (1_000_000int, 1_000_000int, 1_000_000int));
                assert(round_trip(255, 255, 255) == (255int, 255int, 255int));
            }
        }
    }
}

/// Round-trip law for achromatic colours: a grey returns from the display
/// round trip with its three channels equal, at most three steps darker and
/// never brighter. (The whole percentages of the display form cannot resolve
/// all 256 channel steps, so no round trip through it recovers every grey
/// within one step: a grey of 130 returns as 127.)
pub proof fn lemma_round_trip_achromatic(c: int)
    requires
        0 <= c <= 255,
    ensures
        round_trip(c, c, c).0 == round_trip(c, c, c).1,
        round_trip(c, c, c).1 == round_trip(c, c, c).2,
        c - 3 <= round_trip(c, c, c).0 <= c,
{
    let k: int = 100 * c / 255;
    lemma_value_byte_bound(c);

    assert(hue_of(c, c, c) == 0);
    assert(sat_of(c, c, c) == 0) by {
        if c != 0 {
            vstd::arithmetic::div_mod::lemma_div_of0(c);
        }
    }
    assert(val_of(c, c, c) == k);

    // Reading the whole percentage back as fixed point is exact.
    let vf: int = k * 10_000;
    lemma_percent_scaled(k);

    // With zero saturation all three levels equal the value.
    assert(level_p(0, vf) == vf) by {
        vstd::arithmetic::div_mod::lemma_div_by_multiple(vf, 1_000_000);
    }
    assert(level_q(0, vf, 0) == vf) by {
        vstd::arithmetic::div_mod::lemma_div_by_multiple(vf, 1_000_000);
    }
    assert(level_t(0, vf, 0) == vf) by {
        vstd::arithmetic::div_mod::lemma_div_by_multiple(vf, 1_000_000);
    }
    assert(rgb_of_hsv(0, 0, vf) == (vf, vf, vf));

    let byte: int = vf * 255 / 1_000_000;
    assert(round_trip(c, c, c) == (byte, byte, byte));
}

/// Round-trip law for the brightest channel: whichever channel is largest
/// (ties resolved red before green before blue, as the hue formula resolves
/// them) returns from the display round trip at most three steps darker and
/// never brighter, for every 8-bit colour. The other channels also suffer
/// the truncation of the hue and the saturation, so their error can be
/// larger.
pub proof fn lemma_round_trip_brightest(r: int, g: int, b: int)
    requires
        0 <= r <= 255,
        0 <= g <= 255,
        0 <= b <= 255,
    ensures
        ({
            let mx = max3(r, g, b);
            let rt = round_trip(r, g, b);
            &&& (r == mx ==> mx - 3 <= rt.0 <= mx)
            &&& (r != mx && g == mx ==> mx - 3 <= rt.1 <= mx)
            &&& (r != mx && g != mx ==> mx - 3 <= rt.2 <= mx)
        }),
{
    let mx: int = max3(r, g, b);
    let mn: int = min3(r, g, b);
    let d: int = mx - mn;
    let hh: int = hue_of(r, g, b);
    let ss: int = sat_of(r, g, b);
    let vv: int = val_of(r, g, b);
    let sf: int = ss * 10_000;
    let vf: int = vv * 10_000;

    lemma_value_byte_bound(mx);
    lemma_percent_scaled(vv);
    assert(0 <= ss) by {
        if mx != 0 {
            vstd::arithmetic::div_mod::lemma_div_pos_is_pos(100 * d, mx);
        }
    }
    lemma_percent_scaled(ss);
    lemma_hue_upper_bound(r, g, b, mx, mn);
    lemma_scaled_sector(hh);

    assert(level_q(sf, vf, 0) == vf) by {
        vstd::arithmetic::div_mod::lemma_div_by_multiple(vf, 1_000_000);
    }

    if d == 0 {
        assert(hh == 0);
        assert(sector_of(hh * 1_000_000) == 0);
    } else if r == mx {
        if g >= b {
            assert(60 * (g - b) <= 60 * d);
            vstd::arithmetic::div_mod::lemma_div_is_ordered(60 * (g - b), 60 * d, d);
            vstd::arithmetic::div_mod::lemma_div_by_multiple(60, d);
            assert(hh <= 60);
            if hh < 60 {
                assert(sector_of(hh * 1_000_000) == 0);
            } else {
                vstd::arithmetic::div_mod::lemma_fundamental_div_mod_converse(hh, 60, 1, 0);
                assert(sector_of(hh * 1_000_000) == 1);
                assert(hue_fraction(hh * 1_000_000) == 0);
            }
        } else {
            assert(300 * d <= 360 * d - 60 * (b - g));
            vstd::arithmetic::div_mod::lemma_div_is_ordered(300 * d, 360 * d - 60 * (b - g), d);
            vstd::arithmetic::div_mod::lemma_div_by_multiple(300, d);
            assert(300 <= hh < 360);
            vstd::arithmetic::div_mod::lemma_fundamental_div_mod_converse(hh, 60, 5, hh - 300);
            assert(sector_of(hh * 1_000_000) == 5);
        }
    } else if g == mx {
        assert(60 * d <= 120 * d + 60 * b - 60 * r <= 180 * d);
        vstd::arithmetic::div_mod::lemma_div_is_ordered(60 * d, 120 * d + 60 * b - 60 * r, d);
        vstd::arithmetic::div_mod::lemma_div_is_ordered(120 * d + 60 * b - 60 * r, 180 * d, d);
        vstd::arithmetic::div_mod::lemma_div_by_multiple(60, d);
        vstd::arithmetic::div_mod::lemma_div_by_multiple(180, d);
        assert(60 <= hh <= 180);
        if hh < 120 {
            vstd::arithmetic::div_mod::lemma_fundamental_div_mod_converse(hh, 60, 1, hh - 60);
            assert(sector_of(hh * 1_000_000) == 1);
        } else if hh < 180 {
            vstd::arithmetic::div_mod::lemma_fundamental_div_mod_converse(hh, 60, 2, hh - 120);
            assert(sector_of(hh * 1_000_000) == 2);
        } else {
            vstd::arithmetic::div_mod::lemma_fundamental_div_mod_converse(hh, 60, 3, 0);
            assert(sector_of(hh * 1_000_000) == 3);
            assert(hue_fraction(hh * 1_000_000) == 0);
        }
    } else {
        assert(180 * d <= 240 * d + 60 * r - 60 * g <= 300 * d);
        vstd::arithmetic::div_mod::lemma_div_is_ordered(180 * d, 240 * d + 60 * r - 60 * g, d);
        vstd::arithmetic::div_mod::lemma_div_is_ordered(240 * d + 60 * r - 60 * g, 300 * d, d);
        vstd::arithmetic::div_mod::lemma_div_by_multiple(180, d);
        vstd::arithmetic::div_mod::lemma_div_by_multiple(300, d);
        assert(180 <= hh <= 300);
        if hh < 240 {
            vstd::arithmetic::div_mod::lemma_fundamental_div_mod_converse(hh, 60, 3, hh - 180);
            assert(sector_of(hh * 1_000_000) == 3);
        } else if hh < 300 {
            vstd::arithmetic::div_mod::lemma_fundamental_div_mod_converse(hh, 60, 4, hh - 240);
            assert(sector_of(hh * 1_000_000) == 4);
        } else {
            vstd::arithmetic::div_mod::lemma_fundamental_div_mod_converse(hh, 60, 5, 0);
            assert(sector_of(hh * 1_000_000) == 5);
            assert(hue_fraction(hh * 1_000_000) == 0);
        }
    }
}

/// The byte recovered from a whole-percentage reading of a channel: scaling
/// to a percentage, back to fixed point, and back to 8 bits loses at most
/// three steps and never gains.
proof fn lemma_value_byte_bound(mx: int)
    requires
        0 <= mx <= 255,
    ensures
        ({
            let k = 100 * mx / 255;
            let vf = k * 10_000;
            &&& 0 <= k <= 100
            &&& 0 <= vf <= 1_000_000
            &&& mx - 3 <= vf * 255 / 1_000_000 <= mx
        }),
{
    let k: int = 100 * mx / 255;
    vstd::arithmetic::div_mod::lemma_fundamental_div_mod(100 * mx, 255);
    let vf: int = k * 10_000;
    assert(vf * 255 == 2_550_000 * k) by (nonlinear_arith)
        requires
            vf == k * 10_000,
    ;
    vstd::arithmetic::div_mod::lemma_fundamental_div_mod(2_550_000 * k, 1_000_000);
    assert(mx - 3 <= vf * 255 / 1_000_000 <= mx);
}

/// Reading a whole percentage back as a fixed-point fraction is exact.
proof fn lemma_percent_scaled(k: int)
    requires
        0 <= k,
    ensures
        k * 1_000_000 / 100 == k * 10_000,
{
    vstd::arithmetic::div_mod::lemma_div_by_multiple(10_000 * k, 100);
    assert(k * 1_000_000 == (10_000 * k) * 100) by (nonlinear_arith);
    assert(10_000 * k == k * 10_000) by (nonlinear_arith);
}

/// A whole-degree hue scaled to fixed point falls in the sector the degrees
/// name, and exactly on a sector boundary the fraction vanishes.
proof fn lemma_scaled_sector(h: int)
    requires
        0 <= h < 360,
    ensures
        sector_of(h * 1_000_000) == h / 60,
        h % 60 == 0 ==> hue_fraction(h * 1_000_000) == 0,
{
    let q: int = h / 60;
    let rem: int = h % 60;
    vstd::arithmetic::div_mod::lemma_fundamental_div_mod(h, 60);
    assert(h * 1_000_000 == q * 60_000_000 + rem * 1_000_000) by (nonlinear_arith)
        requires
            h == 60 * q + rem,
    ;
    vstd::arithmetic::div_mod::lemma_fundamental_div_mod_converse(
        h * 1_000_000,
        60_000_000,
        q,
        rem * 1_000_000,
    );
}

/// Each branch of the hue formula stays below 360 degrees.
proof fn lemma_hue_upper_bound(r: int, g: int, b: int, mx: int, mn: int)
    requires
        mx == max3(r, g, b),
        mn == min3(r, g, b),
        0 <= r,
        0 <= g,
        0 <= b,
    ensures
        0 <= hue_of(r, g, b) < 360,
{
    let d = mx - mn;
    if d != 0 {
        if r == mx {
            if g >= b {
                lemma_div_bound(60 * (g - b), 360, d);
            } else {
                lemma_div_bound(360 * d - 60 * (b - g), 360, d);
            }
        } else if g == mx {
            lemma_div_bound(120 * d + 60 * b - 60 * r, 360, d);
        } else {
            lemma_div_bound(240 * d + 60 * r - 60 * g, 360, d);
        }
    }
}

/// A nonnegative quotient is below `c` when the numerator is below `c`
/// times the denominator.
pub(crate) proof fn lemma_div_bound(x: int, c: int, d: int) by (nonlinear_arith)
    requires
        0 < d,
        0 <= x < c * d,
    ensures
        0 <= x / d < c,
{
}

} // verus!
