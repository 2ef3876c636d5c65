use ttview::dither::{floyd_steinberg, greyscale, quantize};
use ttview::pixel::{Image, Px, HALF, SCALE};
use ttview::styling::Style;

fn uniform(w: usize, h: usize, v: i32) -> Image {
    Image { width: w, height: h, pixels: vec![Px { r: v, g: v, b: v }; w * h] }
}

#[test]
fn quantize_thresholds() {
    let mut p = Px { r: 1000, g: 3000, b: HALF };
    let e = quantize(&mut p);
    assert_eq!(p, Px { r: 0, g: SCALE, b: SCALE });
    assert_eq!(e, Px { r: 1000, g: 3000 - SCALE, b: HALF - SCALE });
}

#[test]
fn greyscale_desaturates() {
    let mut img = Image { width: 1, height: 1, pixels: vec![Px { r: SCALE, g: 0, b: 0 }] };
    greyscale(&mut img);
    let b = 299 * SCALE / 1000;
    assert_eq!(img.pixels[0], Px { r: b, g: b, b: b });
}

#[test]
fn dithering_quantizes_every_pixel() {
    let mut img = uniform(8, 8, HALF);
    floyd_steinberg(&mut img);
    for p in &img.pixels {
        assert!(p.r == 0 || p.r == SCALE);
        assert!(p.g == 0 || p.g == SCALE);
        assert!(p.b == 0 || p.b == SCALE);
    }
}

#[test]
fn dithering_conserves_brightness_approximately() {
    // The residual of each pixel flows on, up to truncation and what falls
    // off the right and bottom edges: the total stays close.
    let w = 16usize;
    let h = 16usize;
    let mut img = uniform(w, h, HALF);
    let before: i64 = img.pixels.iter().map(|p| p.r as i64).sum();
    floyd_steinberg(&mut img);
    let after: i64 = img.pixels.iter().map(|p| p.r as i64).sum();
    // Boundary truncation: 4 units per pixel plus the shares lost at the
    // grid's edges.
    let tolerance = (4 * w as i64 + 1401) * h as i64 + 1146 * w as i64;
    assert!((after - before).abs() <= tolerance);
}

#[test]
fn dithering_flat_grey_gains_variance() {
    // A uniform half-bright image must not dither to all-dark or all-light.
    let mut img = uniform(8, 8, HALF);
    Style::Dithered.apply(&mut img).unwrap();
    let zeros = img.pixels.iter().filter(|p| p.r == 0).count();
    let fulls = img.pixels.iter().filter(|p| p.r == SCALE).count();
    assert!(zeros > 0);
    assert!(fulls > 0);
}

#[test]
fn dithered_braille_renders_quantized_blocks() {
    let mut img = uniform(2, 4, 0);
    let out = Style::DitheredBraille.apply(&mut img).unwrap();
    // An all-black block stays all-black under dithering.
    assert_eq!(out, "\u{28ff}\n");
}
