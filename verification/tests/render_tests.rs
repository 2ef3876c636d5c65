use ttview::pixel::{brightness, Image, Px, HALF, SCALE};
use ttview::styling::{gradient_index, Style};
use ttview::CoreError;

fn uniform(w: usize, h: usize, v: i32) -> Image {
    Image { width: w, height: h, pixels: vec![Px { r: v, g: v, b: v }; w * h] }
}

#[test]
fn brightness_monotonic_white_grey_black() {
    let white = Px { r: SCALE, g: SCALE, b: SCALE };
    let grey = Px { r: HALF, g: HALF, b: HALF };
    let black = Px { r: 0, g: 0, b: 0 };
    assert_eq!(brightness(&white), SCALE);
    assert_eq!(brightness(&grey), HALF);
    assert_eq!(brightness(&black), 0);
    assert!(brightness(&white) > brightness(&grey));
    assert!(brightness(&grey) > brightness(&black));
}

#[test]
fn brightness_weights() {
    // 0.299 R alone: 299 * SCALE / 1000, truncated.
    let red = Px { r: SCALE, g: 0, b: 0 };
    assert_eq!(brightness(&red), 299 * SCALE / 1000);
    let green = Px { r: 0, g: SCALE, b: 0 };
    assert_eq!(brightness(&green), 587 * SCALE / 1000);
    let blue = Px { r: 0, g: 0, b: SCALE };
    assert_eq!(brightness(&blue), 114 * SCALE / 1000);
}

#[test]
fn gradient_index_endpoints() {
    // Ramp of length 5: brightness 0 -> index 0, full -> index 4.
    assert_eq!(gradient_index(5, 0), 0);
    assert_eq!(gradient_index(5, SCALE), 4);
    assert_eq!(gradient_index(5, HALF), 2);
    assert_eq!(gradient_index(1, SCALE), 0);
}

#[test]
fn color_style_single_pixel() {
    let mut img = uniform(1, 1, SCALE);
    let out = Style::Color.apply(&mut img).unwrap();
    // Single row: foreground only, half block, reset, newline.
    assert_eq!(out, "\u{1b}[38;2;255;255;255m\u{2580}\u{1b}[0m\n");
}

#[test]
fn color_style_pairs_rows() {
    let mut img = Image {
        width: 1,
        height: 2,
        pixels: vec![Px { r: SCALE, g: 0, b: 0 }, Px { r: 0, g: 0, b: SCALE }],
    };
    let out = Style::Color.apply(&mut img).unwrap();
    assert_eq!(out, "\u{1b}[38;2;255;0;0m\u{1b}[48;2;0;0;255m\u{2580}\u{1b}[0m\n");
}

#[test]
fn greyscale_style_uses_brightness() {
    let mut img = Image { width: 1, height: 1, pixels: vec![Px { r: SCALE, g: 0, b: 0 }] };
    let out = Style::Greyscale.apply(&mut img).unwrap();
    // brightness(red) = 1219, byte = (1219 + 8) / 16 = 76.
    assert_eq!(out, "\u{1b}[38;2;76;76;76m\u{2580}\u{1b}[0m\n");
}

#[test]
fn gradient_style_maps_brightness_to_glyphs() {
    let ramp = vec!['a', 'b', 'c', 'd', 'e'];
    let mut img = Image {
        width: 2,
        height: 1,
        pixels: vec![Px { r: 0, g: 0, b: 0 }, Px { r: SCALE, g: SCALE, b: SCALE }],
    };
    let out = Style::Gradient(ramp).apply(&mut img).unwrap();
    assert_eq!(out, "a\u{1b}[0me\u{1b}[0m\n");
}

#[test]
fn gradient_empty_ramp_rejected() {
    let mut img = uniform(2, 2, HALF);
    let before = img.pixels.clone();
    let r = Style::Gradient(Vec::new()).apply(&mut img);
    assert_eq!(r, Err(CoreError::EmptyGradientRamp));
    // Rejected before any pixel was processed: the buffer is untouched.
    assert_eq!(img.pixels, before);
}

#[test]
fn every_style_renders_nonempty() {
    // Exactly one style governs each call; all succeed on a sound buffer.
    let styles = [
        Style::Color,
        Style::Greyscale,
        Style::Gradient(vec!['#', '.']),
        Style::Braille,
        Style::DitheredBraille,
        Style::Dithered,
    ];
    for style in styles {
        let mut img = uniform(4, 4, HALF);
        let out = style.apply(&mut img).unwrap();
        assert!(!out.is_empty());
    }
}

#[test]
fn braille_full_dark_block() {
    // All eight sub-positions dark: byte 0xFF, glyph U+28FF.
    let mut img = uniform(2, 4, 0);
    let out = Style::Braille.apply(&mut img).unwrap();
    assert_eq!(out, "\u{28ff}\n");
}

#[test]
fn braille_full_light_block() {
    // All eight sub-positions light: byte 0x00, glyph U+2800.
    let mut img = uniform(2, 4, SCALE);
    let out = Style::Braille.apply(&mut img).unwrap();
    assert_eq!(out, "\u{2800}\n");
}

#[test]
fn braille_single_dot() {
    // Only the top-left pixel dark: bit 0 alone, glyph U+2801.
    let mut img = uniform(2, 4, SCALE);
    img.pixels[0] = Px { r: 0, g: 0, b: 0 };
    let out = Style::Braille.apply(&mut img).unwrap();
    assert_eq!(out, "\u{2801}\n");
}

#[test]
fn braille_partial_block_at_edge() {
    // A 1-wide, 2-tall image: only the left column's top two dots can be
    // set; out-of-bounds sub-positions contribute no bit.
    let mut img = uniform(1, 2, 0);
    let out = Style::Braille.apply(&mut img).unwrap();
    assert_eq!(out, "\u{2803}\n");
}
