use colour_model::colour::{HSVf, InvalidInput, RGB, RGBf};

/// A unit-interval quantity (or a count of degrees) as fixed-point
/// millionths.
fn fixed(x: f64) -> i64 {
    (x * 1_000_000.0) as i64
}

#[test]
fn test_rgbf_to_u8() {
    let tests: Vec<(RGBf, RGB)> = vec![
        (
            RGBf { r: fixed(0.0), g: fixed(0.0), b: fixed(0.0) },
            RGB { r: 0, g: 0, b: 0 },
        ),
        (
            RGBf { r: fixed(1.0), g: fixed(1.0), b: fixed(1.0) },
            RGB { r: 255, g: 255, b: 255 },
        ),
        (
            RGBf { r: fixed(0.5), g: fixed(0.5), b: fixed(0.5) },
            RGB { r: 127, g: 127, b: 127 },
        ),
        (
            RGBf { r: fixed(1.0), g: fixed(0.0), b: fixed(0.0) },
            RGB { r: 255, g: 0, b: 0 },
        ),
    ];

    for (i, (rgbf, rgb)) in tests.iter().enumerate() {
        let res = rgbf.to_u8();

        assert_eq!(rgb.r, res.r, "case # {} ; for r expected {}, got {}", i, rgb.r, res.r);
        assert_eq!(rgb.g, res.g, "case # {} ; for g expected {}, got {}", i, rgb.g, res.g);
        assert_eq!(rgb.b, res.b, "case # {} ; for b expected {}, got {}", i, rgb.b, res.b);
    }
}

#[test]
fn test_hsv_hsvf_to_rgbf() {
    let tests: Vec<(HSVf, RGBf)> = vec![
        (
            HSVf { h: fixed(0.0), s: fixed(0.0), v: fixed(0.0) },
            RGBf { r: fixed(0.0), g: fixed(0.0), b: fixed(0.0) },
        ),
        (
            // chartreuse
            HSVf { h: fixed(90.0), s: fixed(1.0), v: fixed(1.0) },
            RGBf { r: fixed(0.5), g: fixed(1.0), b: fixed(0.0) },
        ),
        (
            // olive
            HSVf { h: fixed(60.0), s: fixed(1.0), v: fixed(0.5) },
            RGBf { r: fixed(0.5), g: fixed(0.5), b: fixed(0.0) },
        ),
    ];

    for (i, (hsv, rgb)) in tests.iter().enumerate() {
        let hsvf = HSVf { h: hsv.h, s: hsv.s, v: hsv.v };
        let res = match hsvf.to_rgbf() {
            Ok(v) => v,
            Err(e) => {
                panic!("error converting hsv to rgb: {:?}", e);
            },
        };

        assert_eq!(rgb.r, res.r, "case # {} ; for r expected {}, got {}", i, rgb.r, res.r);
        assert_eq!(rgb.g, res.g, "case # {} ; for g expected {}, got {}", i, rgb.g, res.g);
        assert_eq!(rgb.b, res.b, "case # {} ; for b expected {}, got {}", i, rgb.b, res.b);
    }
}

#[test]
fn test_rgb_to_hsv() {
    let tests: Vec<(RGB, (u16, u8, u8))> = vec![
        (RGB { r: 0, g: 0, b: 0 }, (0, 0, 0)),
        (RGB { r: 255, g: 255, b: 255 }, (0, 0, 100)),
        // olive
        (RGB { r: 128, g: 128, b: 0 }, (60, 100, 50)),
        // chartreuse
        (RGB { r: 127, g: 255, b: 0 }, (90, 100, 100)),
    ];

    for (i, (rgb, hsv)) in tests.iter().enumerate() {
        let res = RGB { r: rgb.r, g: rgb.g, b: rgb.b }.to_hsv();

        assert_eq!(hsv.0, res.h, "case # {} ; for r expected {}, got {}", i, hsv.0, res.h);
        assert_eq!(hsv.1, res.s, "case # {} ; for g expected {}, got {}", i, hsv.1, res.s);
        assert_eq!(hsv.2, res.v, "case # {} ; for b expected {}, got {}", i, hsv.2, res.v);
    }
}

#[test]
fn test_out_of_domain_rejected() {
    let bad: Vec<HSVf> = vec![
        HSVf { h: -1, s: 0, v: 0 },
        HSVf { h: fixed(360.0) + 1, s: 0, v: 0 },
        HSVf { h: fixed(720.0), s: fixed(1.0), v: fixed(1.0) },
        HSVf { h: 0, s: -1, v: 0 },
        HSVf { h: 0, s: fixed(1.0) + 1, v: 0 },
        HSVf { h: 0, s: 0, v: -1 },
        HSVf { h: 0, s: 0, v: fixed(1.0) + 1 },
        HSVf { h: fixed(-90.0), s: fixed(0.5), v: fixed(0.5) },
    ];

    for hsv in bad.iter() {
        let res = hsv.to_rgbf();
        assert_eq!(res, Err(InvalidInput { h: hsv.h, s: hsv.s, v: hsv.v }));
    }
}

#[test]
fn test_hue_wraparound() {
    let units: Vec<i64> = vec![fixed(0.0), fixed(0.25), fixed(0.5), fixed(1.0)];
    for s in units.iter() {
        for v in units.iter() {
            let wrapped = HSVf { h: fixed(360.0), s: *s, v: *v }.to_rgbf();
            let zero = HSVf { h: fixed(0.0), s: *s, v: *v }.to_rgbf();
            assert_eq!(wrapped, zero);
        }
    }
}

#[test]
fn test_scaling_law() {
    let units: Vec<f64> = vec![0.0, 0.5, 1.0];
    for r in units.iter() {
        for g in units.iter() {
            for b in units.iter() {
                let rgbf = RGBf { r: fixed(*r), g: fixed(*g), b: fixed(*b) };
                let res = rgbf.to_u8();
                assert_eq!(res.r, (r * 255.0).floor() as u8);
                assert_eq!(res.g, (g * 255.0).floor() as u8);
                assert_eq!(res.b, (b * 255.0).floor() as u8);
            }
        }
    }
}

#[test]
fn test_achromatic_fixed_points() {
    let black = RGB { r: 0, g: 0, b: 0 }.to_hsv();
    assert_eq!((black.h, black.s, black.v), (0, 0, 0));
    let white = RGB { r: 255, g: 255, b: 255 }.to_hsv();
    assert_eq!((white.h, white.s, white.v), (0, 0, 100));
}

/// The display round trip of one 8-bit colour: to display
/// hue/saturation/value, back to the fixed-point triple the display values
/// denote, on to fixed-point red/green/blue, and back to 8 bits.
fn round_trip(rgb: RGB) -> RGB {
    let hsv = rgb.to_hsv();
    let hsvf = HSVf {
        h: hsv.h as i64 * 1_000_000,
        s: hsv.s as i64 * 10_000,
        v: hsv.v as i64 * 10_000,
    };
    let rgbf = match hsvf.to_rgbf() {
        Ok(v) => v,
        Err(e) => panic!("error converting hsv to rgb: {:?}", e),
    };
    rgbf.to_u8()
}

#[test]
fn test_round_trip_extremes() {
    let extremes: Vec<u8> = vec![0, 255];
    for r in extremes.iter() {
        for g in extremes.iter() {
            for b in extremes.iter() {
                let rgb = RGB { r: *r, g: *g, b: *b };
                assert_eq!(round_trip(rgb), rgb);
            }
        }
    }
}

#[test]
fn test_round_trip_mid_grey() {
    // The percent truncation makes the round trip lossy away from the
    // extremes: a mid grey comes back up to three steps darker.
    let rgb = RGB { r: 130, g: 130, b: 130 };
    assert_eq!(round_trip(rgb), RGB { r: 127, g: 127, b: 127 });
}

#[test]
fn test_round_trip_tolerance() {
    // Sampled across the colour cube: the display round trip stays within
    // seven steps per channel, never brightens the brightest channel, and
    // keeps it within three steps.
    let steps: Vec<u8> = (0..=255).step_by(7).map(|c: usize| c as u8).collect();
    for r in steps.iter() {
        for g in steps.iter() {
            for b in steps.iter() {
                let rgb = RGB { r: *r, g: *g, b: *b };
                let out = round_trip(rgb);
                assert!((out.r as i32 - *r as i32).abs() <= 7);
                assert!((out.g as i32 - *g as i32).abs() <= 7);
                assert!((out.b as i32 - *b as i32).abs() <= 7);

                let mx = (*r).max(*g).max(*b);
                let out_mx = if *r == mx {
                    out.r
                } else if *g == mx {
                    out.g
                } else {
                    out.b
                };
                assert!(out_mx <= mx && mx - out_mx <= 3);
            }
        }
    }
}

#[test]
fn test_round_trip_worst_case() {
    // The largest deviation over the whole cube: seven steps on the blue
    // channel of this near-cyan colour.
    let rgb = RGB { r: 0, g: 232, b: 228 };
    assert_eq!(round_trip(rgb), RGB { r: 0, g: 229, b: 221 });
}

#[test]
fn test_saturated_hues() {
    // One fully saturated, full-value colour per sector.
    let cases: Vec<(RGB, (u16, u8, u8))> = vec![
        (RGB { r: 255, g: 128, b: 0 }, (30, 100, 100)),
        (RGB { r: 0, g: 255, b: 128 }, (150, 100, 100)),
        (RGB { r: 0, g: 128, b: 255 }, (209, 100, 100)),
        (RGB { r: 128, g: 0, b: 255 }, (270, 100, 100)),
        (RGB { r: 255, g: 0, b: 128 }, (329, 100, 100)),
    ];
    for (rgb, hsv) in cases.iter() {
        let res = rgb.to_hsv();
        assert_eq!((res.h, res.s, res.v), *hsv);
    }
}
