use iro::extrema::{greatest_of_three, least_of_three};
use iro::{Cmyk, CmykScaled, Hsl, HslInt, Ratio, Rgb, RgbScaled};

fn hsl_of(h: (u64, u64), s: (u64, u64), l: (u64, u64)) -> Hsl {
    Hsl { h: Ratio::new(h.0, h.1), s: Ratio::new(s.0, s.1), l: Ratio::new(l.0, l.1) }
}

#[test]
fn test_rgb_to_cmyk_no_magenta() {
    assert_eq!(Cmyk::from(Rgb::new(80, 191, 100)), Cmyk::new(58, 0, 47, 25));
}

#[test]
fn test_rgb_to_cmyk_white() {
    assert_eq!(Cmyk::from(Rgb::new(255, 255, 255)), Cmyk::new(0, 0, 0, 0));
}

#[test]
fn test_rgb_to_cmyk_black() {
    assert_eq!(Cmyk::from(Rgb::new(0, 0, 0)), Cmyk::new(0, 0, 0, 100));
}

#[test]
fn test_rgb_to_cmyk_normalized() {
    let cmyk = CmykScaled::from_rgb(Rgb::new(85, 191, 100));
    let expected =
        CmykScaled { c: 106 * 255, m: 0, y: 91 * 255, k: 64 * 191, den: 191 * 255 };
    assert_eq!(cmyk, expected);
    let den = cmyk.den as f64;
    assert!((cmyk.c as f64 / den - 0.555).abs() < 1e-3);
    assert!((cmyk.m as f64 / den).abs() < 1e-9);
    assert!((cmyk.y as f64 / den - 0.476).abs() < 1e-3);
    assert!((cmyk.k as f64 / den - 0.251).abs() < 1e-3);
    assert_eq!(Cmyk::from_scaled(cmyk), Cmyk::new(55, 0, 47, 25));
    assert_eq!(Cmyk::from(Rgb::new(85, 191, 100)), Cmyk::new(55, 0, 47, 25));
}

#[test]
fn test_rgb_to_cmyk_pure_inks() {
    assert_eq!(Cmyk::from(Rgb::new(0, 255, 255)), Cmyk::new(100, 0, 0, 0));
    assert_eq!(Cmyk::from(Rgb::new(255, 0, 255)), Cmyk::new(0, 100, 0, 0));
    assert_eq!(Cmyk::from(Rgb::new(255, 255, 0)), Cmyk::new(0, 0, 100, 0));
    assert_eq!(Cmyk::from(Rgb::new(128, 128, 128)), Cmyk::new(0, 0, 0, 49));
}

#[test]
fn test_cmyk_to_rgb_no_magenta() {
    assert_eq!(Rgb::from(Cmyk::new(58, 0, 47, 25)), Rgb::new(80, 191, 101));
}

#[test]
fn test_cmyk_to_rgb_white() {
    assert_eq!(Rgb::from(Cmyk::new(0, 0, 0, 0)), Rgb::new(255, 255, 255));
}

#[test]
fn test_cmyk_to_rgb_black() {
    assert_eq!(Rgb::from(Cmyk::new(0, 0, 0, 100)), Rgb::new(0, 0, 0));
}

#[test]
fn test_cmyk_to_rgb_normalized() {
    let cmyk = CmykScaled { c: 1, m: 2, y: 3, k: 1, den: 4 };
    let rgb = RgbScaled::from_cmyk_scaled(cmyk);
    assert_eq!(rgb, RgbScaled { r: 9, g: 6, b: 3, den: 16 });
    assert_eq!(Rgb::from_scaled(rgb), Rgb::new(143, 95, 47));
    assert_eq!(Rgb::from_cmyk_scaled(cmyk), Rgb::new(143, 95, 47));
}

#[test]
fn test_cmyk_above_range_reads_as_full() {
    assert_eq!(CmykScaled::from(Cmyk::new(200, 100, 101, 7)), CmykScaled {
        c: 100,
        m: 100,
        y: 100,
        k: 7,
        den: 100
    });
    assert_eq!(Rgb::from(Cmyk::new(200, 0, 0, 0)), Rgb::from(Cmyk::new(100, 0, 0, 0)));
    assert_eq!(Rgb::from(Cmyk::new(0, 0, 0, 255)), Rgb::new(0, 0, 0));
}

#[test]
fn test_hsl_to_rgb_green() {
    assert_eq!(Rgb::from(HslInt::new(131, 46, 53)), Rgb::new(80, 190, 100));
    let rgb = Rgb::from_hsl(hsl_of((131, 1), (46, 100), (53, 100)));
    assert_eq!(rgb, Rgb::new(80, 190, 100));
}

#[test]
fn test_hsl_to_rgb_white() {
    assert_eq!(Rgb::from(HslInt::new(0, 0, 100)), Rgb::new(255, 255, 255));
}

#[test]
fn test_hsl_to_rgb_black() {
    assert_eq!(Rgb::from(HslInt::new(0, 0, 0)), Rgb::new(0, 0, 0));
}

#[test]
fn test_hsl_to_rgb_primaries() {
    assert_eq!(Rgb::from(HslInt::new(0, 100, 50)), Rgb::new(255, 0, 0));
    assert_eq!(Rgb::from(HslInt::new(60, 100, 50)), Rgb::new(255, 255, 0));
    assert_eq!(Rgb::from(HslInt::new(120, 100, 50)), Rgb::new(0, 255, 0));
    assert_eq!(Rgb::from(HslInt::new(180, 100, 50)), Rgb::new(0, 255, 255));
    assert_eq!(Rgb::from(HslInt::new(240, 100, 50)), Rgb::new(0, 0, 255));
    assert_eq!(Rgb::from(HslInt::new(300, 100, 50)), Rgb::new(255, 0, 255));
    assert_eq!(Rgb::from(HslInt::new(360, 100, 50)), Rgb::new(255, 0, 0));
}

#[test]
fn test_hsl_to_rgb_each_piece() {
    // q = 3/4 and p = 1/4; the hue positions fall on the rising piece, the
    // plateau, the falling piece and the floor in turn.
    let rgb = RgbScaled::from_hsl(hsl_of((30, 1), (1, 2), (1, 2)));
    assert_eq!(rgb, RgbScaled { r: 3, g: 2, b: 1, den: 4 });
    let rgb = RgbScaled::from_hsl(hsl_of((150, 1), (1, 2), (1, 2)));
    assert_eq!(rgb, RgbScaled { r: 1, g: 3, b: 2, den: 4 });
    let rgb = RgbScaled::from_hsl(hsl_of((270, 1), (1, 2), (1, 2)));
    assert_eq!(rgb, RgbScaled { r: 2, g: 1, b: 3, den: 4 });
    // below half lightness q = l * (1 + s)
    let rgb = RgbScaled::from_hsl(hsl_of((0, 1), (1, 2), (1, 4)));
    assert_eq!(rgb, RgbScaled { r: 3, g: 1, b: 1, den: 8 });
}

#[test]
fn test_hsl_to_rgb_negligible_saturation_is_grey() {
    let rgb = RgbScaled::from_hsl(hsl_of((200, 1), (1, 1001), (2, 5)));
    assert_eq!(rgb, RgbScaled { r: 2, g: 2, b: 2, den: 5 });
    let rgb = RgbScaled::from_hsl(hsl_of((0, 1), (1, 1000), (1, 2)));
    assert_ne!(rgb, RgbScaled { r: 1, g: 1, b: 1, den: 2 });
}

#[test]
fn test_hsl_above_range_reads_as_full() {
    assert_eq!(Hsl::from(HslInt::new(500, 120, 255)), hsl_of((360, 1), (1, 1), (1, 1)));
    assert_eq!(Rgb::from(HslInt::new(500, 100, 50)), Rgb::new(255, 0, 0));
}

#[test]
fn test_rgb_to_hsl_green() {
    assert_eq!(HslInt::from(Rgb::new(80, 190, 100)), HslInt::new(131, 46, 53));
    let hsl = Hsl::from_rgb(Rgb::new(80, 190, 100));
    assert_eq!(hsl, hsl_of((1440, 11), (11, 24), (9, 17)));
}

#[test]
fn test_rgb_to_hsl_white() {
    assert_eq!(HslInt::from(Rgb::new(255, 255, 255)), HslInt::new(0, 0, 100));
}

#[test]
fn test_rgb_to_hsl_black() {
    assert_eq!(HslInt::from(Rgb::new(0, 0, 0)), HslInt::new(0, 0, 0));
}

#[test]
fn test_rgb_to_hsl_sectors() {
    assert_eq!(HslInt::from(Rgb::new(255, 0, 0)), HslInt::new(0, 100, 50));
    assert_eq!(HslInt::from(Rgb::new(255, 255, 0)), HslInt::new(60, 100, 50));
    assert_eq!(HslInt::from(Rgb::new(0, 255, 0)), HslInt::new(120, 100, 50));
    assert_eq!(HslInt::from(Rgb::new(0, 255, 255)), HslInt::new(180, 100, 50));
    assert_eq!(HslInt::from(Rgb::new(0, 0, 255)), HslInt::new(240, 100, 50));
    assert_eq!(HslInt::from(Rgb::new(255, 0, 255)), HslInt::new(300, 100, 50));
    assert_eq!(HslInt::from(Rgb::new(255, 0, 1)), HslInt::new(360, 100, 50));
    assert_eq!(HslInt::from(Rgb::new(255, 0, 128)), HslInt::new(330, 100, 50));
    assert_eq!(HslInt::from(Rgb::new(10, 20, 200)), HslInt::new(237, 90, 41));
}

#[test]
fn test_rgb_to_hsl_tolerance() {
    // a chroma below a thousandth is no chroma at all
    let hsl = Hsl::from_rgb_scaled(RgbScaled { r: 5000, g: 5009, b: 5004, den: 10000 });
    assert_eq!(hsl, hsl_of((0, 1), (0, 1), (10009, 20000)));
    // green is the largest channel, but red is within the tolerance of it
    // and comes first
    let hsl = Hsl::from_rgb_scaled(RgbScaled { r: 9995, g: 10000, b: 0, den: 10000 });
    assert_eq!(hsl.h, Ratio::new(60, 1));
    // without the tolerance the green sector applies
    let hsl = Hsl::from_rgb_scaled(RgbScaled { r: 9990, g: 10000, b: 0, den: 10000 });
    assert_eq!(hsl.h, Ratio::new(60 * 10010, 10000));
}

#[test]
fn test_scaling_layer() {
    assert_eq!(RgbScaled::from(Rgb::new(1, 2, 3)), RgbScaled { r: 1, g: 2, b: 3, den: 255 });
    assert_eq!(Rgb::from_scaled(RgbScaled { r: 799, g: 800, b: 1000, den: 1000 }), Rgb::new(
        203, 204, 255
    ));
    assert_eq!(Rgb::from_scaled(RgbScaled { r: 1, g: 2, b: 0, den: 3 }), Rgb::new(85, 170, 0));
    assert_eq!(CmykScaled::from(Cmyk::new(1, 2, 3, 4)), CmykScaled {
        c: 1,
        m: 2,
        y: 3,
        k: 4,
        den: 100
    });
    assert_eq!(
        Cmyk::from_scaled(CmykScaled { c: 999, m: 1000, y: 5, k: 10, den: 1000 }),
        Cmyk::new(99, 100, 0, 1)
    );
    assert_eq!(Hsl::from(HslInt::new(131, 46, 53)), hsl_of((131, 1), (46, 100), (53, 100)));
}

#[test]
fn test_hsl_display_rounds_to_nearest() {
    assert_eq!(HslInt::from_hsl(hsl_of((261, 2), (91, 200), (1049, 2000))), HslInt::new(
        131, 46, 52
    ));
    assert_eq!(HslInt::from_hsl(hsl_of((1304, 10), (454, 1000), (105, 200))), HslInt::new(
        130, 45, 53
    ));
    assert_eq!(HslInt::from_hsl(hsl_of((7191, 20), (1, 1), (0, 1))), HslInt::new(360, 100, 0));
    assert_eq!(HslInt::from_hsl(hsl_of((1, 2), (1, 200), (199, 200))), HslInt::new(1, 1, 100));
}

#[test]
fn test_extremes_of_three() {
    assert_eq!(least_of_three(3, 1, 2), 1);
    assert_eq!(least_of_three(1, 3, 2), 1);
    assert_eq!(least_of_three(3, 2, 1), 1);
    assert_eq!(least_of_three(2, 2, 2), 2);
    assert_eq!(greatest_of_three(3, 1, 2), 3);
    assert_eq!(greatest_of_three(1, 3, 2), 3);
    assert_eq!(greatest_of_three(1, 2, 3), 3);
    assert_eq!(greatest_of_three(0, 0, 0), 0);
}

#[test]
fn test_equality_is_by_value() {
    assert_eq!(Ratio::new(1, 2), Ratio::new(2, 4));
    assert_ne!(Ratio::new(1, 2), Ratio::new(1, 3));
    assert_eq!(Ratio::new(u64::MAX, u64::MAX), Ratio::new(1, 1));
    assert_eq!(RgbScaled { r: 1, g: 2, b: 3, den: 4 }, RgbScaled { r: 2, g: 4, b: 6, den: 8 });
    assert_ne!(RgbScaled { r: 1, g: 2, b: 3, den: 4 }, RgbScaled { r: 2, g: 4, b: 7, den: 8 });
    assert_eq!(CmykScaled { c: 1, m: 2, y: 3, k: 0, den: 4 }, CmykScaled {
        c: 3,
        m: 6,
        y: 9,
        k: 0,
        den: 12
    });
    assert_ne!(CmykScaled { c: 1, m: 2, y: 3, k: 0, den: 4 }, CmykScaled {
        c: 1,
        m: 2,
        y: 3,
        k: 1,
        den: 4
    });
    assert_eq!(hsl_of((120, 1), (1, 2), (1, 4)), hsl_of((240, 2), (2, 4), (25, 100)));
    assert_ne!(hsl_of((120, 1), (1, 2), (1, 4)), hsl_of((121, 1), (1, 2), (1, 4)));
    assert_ne!(Rgb::new(1, 2, 3), Rgb::new(1, 2, 4));
}

#[test]
fn test_debug_representation() {
    assert_eq!(format!("{:?}", Rgb::new(1, 2, 3)), "Rgb { r: 1, g: 2, b: 3 }");
    assert_eq!(format!("{:?}", Cmyk::new(1, 2, 3, 4)), "Cmyk { c: 1, m: 2, y: 3, k: 4 }");
    assert_eq!(format!("{:?}", HslInt::new(1, 2, 3)), "HslInt { h: 1, s: 2, l: 3 }");
}
