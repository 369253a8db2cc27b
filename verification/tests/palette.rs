use colour_model::colour::HSVf;
use colour_model::palette::coords_to_hsvf;

#[test]
fn test_coords_top_left_origin() {
    // Top row: saturation 0, value 1 (white fading in from the top).
    let top = coords_to_hsvf(720, 200, 0, 0, false);
    assert_eq!(top, HSVf { h: 0, s: 0, v: 1_000_000 });

    // Middle of the viewport: mid hue, full saturation and value.
    let mid = coords_to_hsvf(720, 200, 180, 100, false);
    assert_eq!(mid, HSVf { h: 90_000_000, s: 1_000_000, v: 1_000_000 });

    // Upper half: saturation climbs while value is pinned at 1.
    let upper = coords_to_hsvf(720, 200, 180, 50, false);
    assert_eq!(upper, HSVf { h: 90_000_000, s: 500_000, v: 1_000_000 });

    // Lower half: value falls while saturation is pinned at 1.
    let lower = coords_to_hsvf(720, 200, 180, 150, false);
    assert_eq!(lower, HSVf { h: 90_000_000, s: 1_000_000, v: 500_000 });

    // Bottom right corner: the hue stays below 360 degrees and the value
    // reaches 0.
    let bottom = coords_to_hsvf(720, 200, 719, 200, false);
    assert_eq!(bottom, HSVf { h: 359_500_000, s: 1_000_000, v: 0 });
}

#[test]
fn test_coords_bottom_left_origin() {
    // Inverting the vertical origin swaps the roles of saturation and value.
    let upper = coords_to_hsvf(720, 200, 180, 50, true);
    assert_eq!(upper, HSVf { h: 90_000_000, s: 1_000_000, v: 500_000 });

    let lower = coords_to_hsvf(720, 200, 180, 150, true);
    assert_eq!(lower, HSVf { h: 90_000_000, s: 500_000, v: 1_000_000 });
}

#[test]
fn test_coords_feed_conversion() {
    // Every mapped coordinate lies in the conversion domain, so the whole
    // pixel pipeline runs without an error.
    let coords: Vec<(usize, usize)> = vec![(0, 0), (719, 0), (0, 200), (719, 200), (360, 100)];
    for (x, y) in coords.iter() {
        let hsvf = coords_to_hsvf(720, 200, *x, *y, false);
        assert!(hsvf.to_rgbf().is_ok());
    }

    // The centre of the viewport is pure cyan.
    let hsvf = coords_to_hsvf(720, 200, 360, 100, false);
    let rgbf = match hsvf.to_rgbf() {
        Ok(v) => v,
        Err(e) => panic!("error converting hsvf to rgbf: {:?}", e),
    };
    let rgb = rgbf.to_u8();
    assert_eq!((rgb.r, rgb.g, rgb.b), (0, 255, 255));
}
