use iro::{Cmyk, CmykScaled, Hsl, HslInt, Rgb, RgbScaled};

fn sample() -> Vec<u8> {
    let mut values = vec![0u8, 1, 2, 127, 128, 253, 254, 255];
    let mut v = 5u16;
    while v < 255 {
        values.push(v as u8);
        v += 11;
    }
    values
}

#[test]
fn test_rgb_cmyk_round_trip() {
    for &r in &sample() {
        for &g in &sample() {
            for &b in &sample() {
                let rgb = Rgb::new(r, g, b);
                let back = Rgb::from_cmyk_scaled(CmykScaled::from_rgb(rgb));
                assert_eq!(back, rgb);
            }
        }
    }
}

#[test]
fn test_rgb_hsl_round_trip() {
    for &r in &sample() {
        for &g in &sample() {
            for &b in &sample() {
                let rgb = Rgb::new(r, g, b);
                let back = Rgb::from_hsl(Hsl::from_rgb(rgb));
                assert_eq!(back, rgb);
                let scaled = RgbScaled::from_hsl(Hsl::from_rgb(rgb));
                assert_eq!(scaled, RgbScaled::from(rgb));
            }
        }
    }
}

#[test]
fn test_achromatic_fixed_points() {
    let white = Rgb::new(255, 255, 255);
    let black = Rgb::new(0, 0, 0);
    assert_eq!(Cmyk::from(white), Cmyk::new(0, 0, 0, 0));
    assert_eq!(HslInt::from(white), HslInt::new(0, 0, 100));
    assert_eq!(Cmyk::from(black), Cmyk::new(0, 0, 0, 100));
    assert_eq!(HslInt::from(black), HslInt::new(0, 0, 0));
    assert_eq!(Rgb::from(Cmyk::from(white)), white);
    assert_eq!(Rgb::from(Cmyk::from(black)), black);
    assert_eq!(Rgb::from(HslInt::from(white)), white);
    assert_eq!(Rgb::from(HslInt::from(black)), black);
    for v in 0..=255u8 {
        let hsl = HslInt::from(Rgb::new(v, v, v));
        assert_eq!((hsl.h, hsl.s), (0, 0));
        let cmyk = Cmyk::from(Rgb::new(v, v, v));
        assert_eq!((cmyk.c, cmyk.m, cmyk.y), (0, 0, 0));
    }
}

#[test]
fn test_results_stay_in_their_domain() {
    for &r in &sample() {
        for &g in &sample() {
            for &b in &sample() {
                let rgb = Rgb::new(r, g, b);
                let hsl = Hsl::from_rgb(rgb);
                assert!(hsl.h.den > 0 && hsl.s.den > 0 && hsl.l.den > 0);
                assert!(hsl.h.num < 360 * hsl.h.den);
                assert!(hsl.s.num <= hsl.s.den);
                assert!(hsl.l.num <= hsl.l.den);
                let shown = HslInt::from(rgb);
                assert!(shown.h <= 360 && shown.s <= 100 && shown.l <= 100);
                let cmyk = CmykScaled::from_rgb(rgb);
                assert!(cmyk.den > 0);
                assert!(cmyk.c <= cmyk.den && cmyk.m <= cmyk.den);
                assert!(cmyk.y <= cmyk.den && cmyk.k <= cmyk.den);
                let shown = Cmyk::from(rgb);
                assert!(shown.c <= 100 && shown.m <= 100 && shown.y <= 100 && shown.k <= 100);
            }
        }
    }
    let mut h = 0u16;
    while h <= 360 {
        for s in [0u8, 1, 33, 50, 99, 100] {
            for l in [0u8, 1, 49, 50, 51, 100] {
                let rgb = RgbScaled::from_hsl(Hsl::from(HslInt::new(h, s, l)));
                assert!(rgb.den > 0);
                assert!(rgb.r <= rgb.den && rgb.g <= rgb.den && rgb.b <= rgb.den);
            }
        }
        h += 7;
    }
}

#[test]
fn test_lightness_moves_channels_monotonically() {
    for h in [0u16, 17, 60, 131, 180, 199, 240, 300, 359, 360] {
        for s in [0u8, 1, 46, 100] {
            let mut last = Rgb::from(HslInt::new(h, s, 0));
            assert_eq!(last, Rgb::new(0, 0, 0));
            for l in 1..=100u8 {
                let next = Rgb::from(HslInt::new(h, s, l));
                assert!(last.r <= next.r && last.g <= next.g && last.b <= next.b);
                last = next;
            }
            assert_eq!(last, Rgb::new(255, 255, 255));
        }
    }
}
