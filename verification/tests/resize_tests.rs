use ttview::pixel::{Image, Px, HALF};
use ttview::resizing::{resize, Filter};
use ttview::styling::Style;
use ttview::CoreError;

fn uniform(w: usize, h: usize, v: i32) -> Image {
    Image { width: w, height: h, pixels: vec![Px { r: v, g: v, b: v }; w * h] }
}

#[test]
fn width_request_preserves_aspect() {
    // 100 x 50 at width 30: height = round(30 * 50 / 100) = 15.
    let img = uniform(100, 50, HALF);
    let out = resize(img, (Some(30), None), Filter::Nearest).unwrap();
    assert_eq!((out.width, out.height), (30, 15));
}

#[test]
fn height_request_preserves_aspect() {
    // 100 x 50 at height 15: width = round(15 * 100 / 50) = 30.
    let img = uniform(100, 50, HALF);
    let out = resize(img, (None, Some(15)), Filter::Nearest).unwrap();
    assert_eq!((out.width, out.height), (30, 15));
}

#[test]
fn aspect_rounding_within_one_pixel() {
    // 3 x 2 at width 2: height = round(2 * 2 / 3) = round(1.33) = 1.
    let img = uniform(3, 2, HALF);
    let out = resize(img, (Some(2), None), Filter::Triangle).unwrap();
    assert_eq!((out.width, out.height), (2, 1));
    // The cross products differ by at most half the original width:
    // |1 * 3 - 2 * 2| = 1 <= 3.
    assert!((out.height as i64 * 3 - out.width as i64 * 2).abs() * 2 <= 3);
}

#[test]
fn exact_stretch_ignores_aspect() {
    let img = uniform(100, 50, HALF);
    let out = resize(img, (Some(7), Some(40)), Filter::Lanczos3).unwrap();
    assert_eq!((out.width, out.height), (7, 40));
}

#[test]
fn filter_kinds_do_not_change_dimensions() {
    let filters = [
        Filter::Nearest,
        Filter::Triangle,
        Filter::CatmullRom,
        Filter::Gaussian,
        Filter::Lanczos3,
    ];
    for f in filters {
        let img = uniform(10, 6, HALF);
        let out = resize(img, (Some(5), None), f).unwrap();
        assert_eq!((out.width, out.height), (5, 3));
    }
}

#[test]
fn missing_dimensions_rejected() {
    let img = uniform(4, 4, HALF);
    assert_eq!(resize(img, (None, None), Filter::Gaussian).unwrap_err(), CoreError::InvalidDimensions);
}

#[test]
fn zero_dimension_rejected() {
    let img = uniform(4, 4, HALF);
    assert_eq!(
        resize(img, (Some(0), Some(3)), Filter::Gaussian).unwrap_err(),
        CoreError::InvalidDimensions
    );
    let img = uniform(4, 4, HALF);
    assert_eq!(
        resize(img, (Some(3), Some(0)), Filter::Gaussian).unwrap_err(),
        CoreError::InvalidDimensions
    );
}

#[test]
fn degenerate_computed_dimension_rejected() {
    // 100 x 1 at width 1: height = round(1 * 1 / 100) = 0.
    let img = uniform(100, 1, HALF);
    assert_eq!(
        resize(img, (Some(1), None), Filter::Gaussian).unwrap_err(),
        CoreError::InvalidDimensions
    );
}

#[test]
fn downsampling_blends_pixels() {
    // A black and a white pixel shrunk to one cell with a linear kernel
    // blend to a mid tone: the resampler really transforms the samples.
    let img = Image {
        width: 2,
        height: 1,
        pixels: vec![Px { r: 0, g: 0, b: 0 }, Px { r: 4080, g: 4080, b: 4080 }],
    };
    let out = resize(img, (Some(1), Some(1)), Filter::Triangle).unwrap();
    assert_eq!((out.width, out.height), (1, 1));
    let p = out.pixels[0];
    assert!(p.r > 0 && p.r < 4080);
}

#[test]
fn round_trip_grey_square_to_color_text() {
    // A 4 x 4 uniform mid-grey image resized to width 2 gives 2 x 2; the
    // color style then emits one line of two cells whose foreground and
    // background both carry the mid-grey code.
    let img = uniform(4, 4, HALF);
    let mut out = resize(img, (Some(2), None), Filter::Nearest).unwrap();
    assert_eq!((out.width, out.height), (2, 2));
    let text = Style::Color.apply(&mut out).unwrap();
    let cell = "\u{1b}[38;2;127;127;127m\u{1b}[48;2;127;127;127m\u{2580}\u{1b}[0m";
    let expected = format!("{}{}\n", cell, cell);
    assert_eq!(text, expected);
    assert_eq!(text.lines().count(), 1);
}
