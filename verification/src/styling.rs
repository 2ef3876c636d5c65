//! Rendering styles: turning the pixel grid into terminal text, built from
//! ANSI truecolor half-blocks, greyscale, a glyph ramp, or braille dots,
//! with the dithered variants running the error-diffusion pass first.

use vstd::prelude::*;
use crate::pixel::{Px, Image, SCALE, HALF, brightness, lemma_row_major_index};
use crate::dither::{spec_fs, spec_greyed, greyscale, floyd_steinberg};
use crate::CoreError;

verus! {

/// Display style.
#[derive(Debug)]
pub enum Style {
    /// Default style, 24 bit color with upper half block character.
    Color,
    /// Greyscale style, uses a weighted average for the final pixel value.
    Greyscale,
    /// Display in greyscale using a gradient, darkest glyph first.
    Gradient(Vec<char>),
    /// Braille style, using a threshold of 1/2 brightness.
    Braille,
    /// Braille but with Floyd-Steinberg dithering.
    DitheredBraille,
    /// Greyscale after Floyd-Steinberg dithering.
    Dithered,
}

impl Default for Style {
    /// The default style is truecolor half-blocks.
    fn default() -> (r: Style)
        ensures
            r is Color,
    {
        Style::Color
    }
}

/// The style renders two stacked pixels per character cell.
pub open spec fn is_pair_style(s: Style) -> bool {
    s is Color || s is Greyscale || s is Gradient
}

/// The style runs the dithering pass before rendering.
pub open spec fn is_dithered(s: Style) -> bool {
    s is Dithered || s is DitheredBraille
}

/// The gradient style was selected with an empty glyph ramp.
pub open spec fn empty_ramp(s: Style) -> bool {
    match s {
        Style::Gradient(g) => g@.len() == 0,
        _ => false,
    }
}

/// Relies on `String::push`: appends exactly one character.
#[verifier::external_body]
fn string_push(s: &mut String, c: char)
    ensures
        final(s)@ == old(s)@.push(c),
{
    s.push(c)
}

/// Relies on the `char::from_u32` documentation: every `u32` that is not a
/// surrogate and not above the Unicode maximum converts to the `char` with
/// that code point; the rest give `None`.
pub assume_specification [ char::from_u32 ](i: u32) -> (r: Option<char>)
    ensures
        (0xD800 <= i < 0xE000 || i > 0x10FFFF) ==> r is None,
        !(0xD800 <= i < 0xE000 || i > 0x10FFFF) ==> r == Some(i as char),
;

/// The 8-bit value of a channel: `round(c / 16)` on the 255-step terminal
/// scale, clamped to [0, 255].
pub open spec fn spec_byte_of(c: int) -> int {
    if c <= 0 {
        0
    } else if c >= SCALE {
        255
    } else {
        (c + 8) / 16
    }
}

/// The decimal digit character for `d` in 0 .. 9.
pub open spec fn spec_digit(d: int) -> char {
    (48 + d) as char
}

/// The decimal digits of `n` in 0 .. 255, without leading zeros.
pub open spec fn spec_dec(n: int) -> Seq<char> {
    if n < 10 {
        seq![spec_digit(n)]
    } else if n < 100 {
        seq![spec_digit(n / 10), spec_digit(n % 10)]
    } else {
        seq![spec_digit(n / 100), spec_digit((n / 10) % 10), spec_digit(n % 10)]
    }
}

/// The `R;G;Bm` tail of a truecolor directive.
pub open spec fn spec_rgb_tail(p: Px) -> Seq<char> {
    spec_dec(spec_byte_of(p.r as int)) + seq![';'] + spec_dec(spec_byte_of(p.g as int)) + seq![';']
        + spec_dec(spec_byte_of(p.b as int)) + seq!['m']
}

/// The foreground truecolor directive for a pixel.
pub open spec fn spec_fg(p: Px) -> Seq<char> {
    seq!['\u{1b}', '[', '3', '8', ';', '2', ';'] + spec_rgb_tail(p)
}

/// The background truecolor directive for a pixel.
pub open spec fn spec_bg(p: Px) -> Seq<char> {
    seq!['\u{1b}', '[', '4', '8', ';', '2', ';'] + spec_rgb_tail(p)
}

/// The attribute reset directive.
pub open spec fn spec_reset() -> Seq<char> {
    seq!['\u{1b}', '[', '0', 'm']
}

/// The ramp position of a brightness value: `floor((len - 1) * b / SCALE)`,
/// clamped to the valid index range.
pub open spec fn spec_gradient_index(len: int, b: int) -> int {
    let raw = (len - 1) * b / (SCALE as int);
    if raw < 0 {
        0
    } else if raw > len - 1 {
        len - 1
    } else {
        raw
    }
}

/// The text one character cell of a pair style emits for a top pixel and an
/// optional bottom pixel.
pub open spec fn spec_pair_cell(style: Style, top: Px, bot: Option<Px>) -> Seq<char> {
    match style {
        Style::Color => spec_fg(top) + (match bot {
            Some(b) => spec_bg(b),
            None => Seq::empty(),
        }) + seq!['\u{2580}'] + spec_reset(),
        Style::Greyscale => spec_fg(Px::spec_grey(top.spec_brightness())) + (match bot {
            Some(b) => spec_bg(Px::spec_grey(b.spec_brightness())),
            None => Seq::empty(),
        }) + seq!['\u{2580}'] + spec_reset(),
        Style::Gradient(g) => {
            let b = match bot {
                Some(b) => (top.spec_brightness() + b.spec_brightness()) / 2,
                None => top.spec_brightness(),
            };
            seq![g@[spec_gradient_index(g@.len() as int, b)]] + spec_reset()
        },
        _ => Seq::empty(),
    }
}

/// The bottom pixel of the row pair at (`x`, `y`), absent on the last row
/// of an odd-height grid.
pub open spec fn spec_pair_bot(s: Seq<Px>, w: int, h: int, x: int, y: int) -> Option<Px> {
    if y + 1 < h {
        Some(s[(y + 1) * w + x])
    } else {
        None
    }
}

/// The cells of one output line of a pair style, from column `x` on.
pub open spec fn spec_pair_row(style: Style, s: Seq<Px>, w: int, h: int, y: int, x: int) -> Seq<
    char,
>
    decreases (if x < w { w - x } else { 0 }),
{
    if w <= x {
        Seq::empty()
    } else {
        spec_pair_cell(style, s[y * w + x], spec_pair_bot(s, w, h, x, y)) + spec_pair_row(
            style,
            s,
            w,
            h,
            y,
            x + 1,
        )
    }
}

/// The output lines of a pair style from row `y` down: one line per pair of
/// grid rows, each terminated by a newline.
pub open spec fn spec_pair_grid(style: Style, s: Seq<Px>, w: int, h: int, y: int) -> Seq<char>
    decreases (if y < h { h - y } else { 0 }),
{
    if h <= y {
        Seq::empty()
    } else {
        spec_pair_row(style, s, w, h, y, 0) + seq!['\n'] + spec_pair_grid(style, s, w, h, y + 2)
    }
}

/// Cell (`x`, `y`) lies on the grid and its brightness is below the dot
/// threshold.
pub open spec fn spec_dark(s: Seq<Px>, w: int, h: int, x: int, y: int) -> bool {
    0 <= x < w && 0 <= y < h && s[y * w + x].spec_brightness() < HALF
}

/// The braille pattern byte of the 2-wide, 4-tall block at (`x`, `y`): one
/// bit per dot, set when the sub-position is on the grid and dark.
pub open spec fn spec_braille_byte(s: Seq<Px>, w: int, h: int, x: int, y: int) -> int {
    (if spec_dark(s, w, h, x, y) {
        1int
    } else {
        0int
    }) + (if spec_dark(s, w, h, x, y + 1) {
        2int
    } else {
        0int
    }) + (if spec_dark(s, w, h, x, y + 2) {
        4int
    } else {
        0int
    }) + (if spec_dark(s, w, h, x + 1, y) {
        8int
    } else {
        0int
    }) + (if spec_dark(s, w, h, x + 1, y + 1) {
        16int
    } else {
        0int
    }) + (if spec_dark(s, w, h, x + 1, y + 2) {
        32int
    } else {
        0int
    }) + (if spec_dark(s, w, h, x, y + 3) {
        64int
    } else {
        0int
    }) + (if spec_dark(s, w, h, x + 1, y + 3) {
        128int
    } else {
        0int
    })
}

/// The braille glyph of a pattern byte: code point 0x2800 + `b`.
pub open spec fn spec_braille_char(b: int) -> char {
    (0x2800 + b) as char
}

/// The glyphs of one braille output line, from column `x` on, blocks two
/// columns wide.
pub open spec fn spec_braille_row(s: Seq<Px>, w: int, h: int, y: int, x: int) -> Seq<char>
    decreases (if x < w { w - x } else { 0 }),
{
    if w <= x {
        Seq::empty()
    } else {
        seq![spec_braille_char(spec_braille_byte(s, w, h, x, y))] + spec_braille_row(
            s,
            w,
            h,
            y,
            x + 2,
        )
    }
}

/// The braille output lines from row `y` down, blocks four rows tall, each
/// line terminated by a newline.
pub open spec fn spec_braille_grid(s: Seq<Px>, w: int, h: int, y: int) -> Seq<char>
    decreases (if y < h { h - y } else { 0 }),
{
    if h <= y {
        Seq::empty()
    } else {
        spec_braille_row(s, w, h, y, 0) + seq!['\n'] + spec_braille_grid(s, w, h, y + 4)
    }
}

/// The whole text a style renders from a pixel grid. The dithered styles
/// first desaturate and error-diffuse the grid, then render it greyscale
/// or braille.
pub open spec fn spec_render(style: Style, s: Seq<Px>, w: int, h: int) -> Seq<char> {
    match style {
        Style::Braille => spec_braille_grid(s, w, h, 0),
        Style::Dithered => spec_pair_grid(Style::Greyscale, spec_fs(spec_greyed(s), w, h), w, h, 0),
        Style::DitheredBraille => spec_braille_grid(spec_fs(spec_greyed(s), w, h), w, h, 0),
        _ => spec_pair_grid(style, s, w, h, 0),
    }
}

/// The 8-bit value of a channel on the 255-step terminal scale.
fn byte_of(c: i32) -> (b: u8)
    ensures
        b as int == spec_byte_of(c as int),
{
    if c <= 0 {
        0
    } else if c >= SCALE {
        255
    } else {
        ((c + 8) / 16) as u8
    }
}

/// The decimal digit character for `d` in 0 .. 9.
fn digit_char(d: u8) -> (c: char)
    requires
        d < 10,
    ensures
        c == spec_digit(d as int),
{
    (48 + d) as char
}

/// Appends the decimal digits of `n`.
fn push_dec(out: &mut String, n: u8)
    ensures
        final(out)@ == old(out)@ + spec_dec(n as int),
{
    if n < 10 {
        string_push(out, digit_char(n));
    } else if n < 100 {
        string_push(out, digit_char(n / 10));
        string_push(out, digit_char(n % 10));
    } else {
        string_push(out, digit_char(n / 100));
        string_push(out, digit_char((n / 10) % 10));
        string_push(out, digit_char(n % 10));
    }
    proof {
        assert(final(out)@ =~= old(out)@ + spec_dec(n as int));
    }
}

/// Appends the `R;G;Bm` tail of a truecolor directive.
fn push_rgb_tail(out: &mut String, p: Px)
    ensures
        final(out)@ == old(out)@ + spec_rgb_tail(p),
{
    push_dec(out, byte_of(p.r));
    string_push(out, ';');
    push_dec(out, byte_of(p.g));
    string_push(out, ';');
    push_dec(out, byte_of(p.b));
    string_push(out, 'm');
    proof {
        assert(final(out)@ =~= old(out)@ + spec_rgb_tail(p));
    }
}

/// Appends the foreground truecolor directive for a pixel.
fn push_fg(out: &mut String, p: Px)
    ensures
        final(out)@ == old(out)@ + spec_fg(p),
{
    string_push(out, '\u{1b}');
    string_push(out, '[');
    string_push(out, '3');
    string_push(out, '8');
    string_push(out, ';');
    string_push(out, '2');
    string_push(out, ';');
    push_rgb_tail(out, p);
    proof {
        assert(final(out)@ =~= old(out)@ + spec_fg(p));
    }
}

/// Appends the background truecolor directive for a pixel.
fn push_bg(out: &mut String, p: Px)
    ensures
        final(out)@ == old(out)@ + spec_bg(p),
{
    string_push(out, '\u{1b}');
    string_push(out, '[');
    string_push(out, '4');
    string_push(out, '8');
    string_push(out, ';');
    string_push(out, '2');
    string_push(out, ';');
    push_rgb_tail(out, p);
    proof {
        assert(final(out)@ =~= old(out)@ + spec_bg(p));
    }
}

/// Appends the attribute reset directive.
fn push_reset(out: &mut String)
    ensures
        final(out)@ == old(out)@ + spec_reset(),
{
    string_push(out, '\u{1b}');
    string_push(out, '[');
    string_push(out, '0');
    string_push(out, 'm');
    proof {
        assert(final(out)@ =~= old(out)@ + spec_reset());
    }
}

/// The ramp position of a brightness value, always a valid index.
pub fn gradient_index(len: usize, b: i32) -> (idx: usize)
    requires
        len >= 1,
        0 <= b <= SCALE,
    ensures
        idx as int == spec_gradient_index(len as int, b as int),
        idx < len,
{
    proof {
        assert(0 <= ((len - 1) as int) * (b as int) <= 0xffff_ffff_ffff_ffff * 4080)
            by (nonlinear_arith)
            requires
                1 <= len,
                len as int <= 0xffff_ffff_ffff_ffff,
                0 <= b <= 4080,
        ;
    }
    let raw = (((len - 1) as u128) * (b as u128)) / 4080;
    proof {
        let li = len as int;
        let bi = b as int;
        vstd::arithmetic::mul::lemma_mul_inequality(bi, SCALE as int, li - 1);
        assert((li - 1) * bi == bi * (li - 1)) by (nonlinear_arith);
        assert((li - 1) * (SCALE as int) == (SCALE as int) * (li - 1)) by (nonlinear_arith);
        vstd::arithmetic::div_mod::lemma_div_is_ordered(
            (li - 1) * bi,
            (li - 1) * (SCALE as int),
            SCALE as int,
        );
        vstd::arithmetic::div_mod::lemma_div_multiples_vanish(li - 1, SCALE as int);
        vstd::arithmetic::mul::lemma_mul_nonnegative(li - 1, bi);
        vstd::arithmetic::div_mod::lemma_div_pos_is_pos((li - 1) * bi, SCALE as int);
    }
    raw as usize
}

/// The ramp position is clamped to the valid range, with the darkest glyph
/// at brightness 0 and the lightest at full brightness.
pub proof fn lemma_gradient_index_mapping(len: int, b: int)
    requires
        len >= 1,
    ensures
        0 <= spec_gradient_index(len, b) <= len - 1,
        b == 0 ==> spec_gradient_index(len, b) == 0,
        b == SCALE ==> spec_gradient_index(len, b) == len - 1,
{
    if b == 0 {
        assert((len - 1) * 0 == 0) by (nonlinear_arith);
    }
    if b == SCALE {
        assert((len - 1) * (SCALE as int) == (SCALE as int) * (len - 1)) by (nonlinear_arith);
        vstd::arithmetic::div_mod::lemma_div_multiples_vanish(len - 1, SCALE as int);
    }
}

/// Appends the text of one pair-style character cell.
fn push_pair_cell(out: &mut String, style: &Style, top: Px, bot: Option<Px>)
    requires
        is_pair_style(*style),
        !empty_ramp(*style),
        top.in_range(),
        (bot matches Some(b) ==> b.in_range()),
    ensures
        final(out)@ == old(out)@ + spec_pair_cell(*style, top, bot),
{
    match style {
        Style::Color => {
            push_fg(out, top);
            if let Some(b) = bot {
                push_bg(out, b);
            }
            string_push(out, '\u{2580}');
            push_reset(out);
            proof {
                assert(final(out)@ =~= old(out)@ + spec_pair_cell(*style, top, bot));
            }
        },
        Style::Greyscale => {
            let bt = brightness(&top);
            push_fg(out, Px { r: bt, g: bt, b: bt });
            if let Some(b) = bot {
                let bb = brightness(&b);
                push_bg(out, Px { r: bb, g: bb, b: bb });
            }
            string_push(out, '\u{2580}');
            push_reset(out);
            proof {
                assert(final(out)@ =~= old(out)@ + spec_pair_cell(*style, top, bot));
            }
        },
        Style::Gradient(g) => {
            let bt = brightness(&top);
            let avg = if let Some(b) = bot {
                (bt + brightness(&b)) / 2
            } else {
                bt
            };
            let idx = gradient_index(g.len(), avg);
            let ch = g[idx];
            string_push(out, ch);
            push_reset(out);
            proof {
                assert(final(out)@ =~= old(out)@ + spec_pair_cell(*style, top, bot));
            }
        },
        _ => {
            proof {
                assert(false);
            }
        },
    }
}

/// Renders the grid with a pair style: one output line per two grid rows,
/// the last line from the top row alone where the height is odd.
fn render_pairs(style: &Style, img: &Image) -> (out: String)
    requires
        img.wf(),
        img.in_range(),
        is_pair_style(*style),
        !empty_ramp(*style),
    ensures
        out@ == spec_pair_grid(*style, img.pixels@, img.width as int, img.height as int, 0),
{
    let w = img.width;
    let h = img.height;
    let ghost s = img.pixels@;
    let ghost wi = w as int;
    let ghost hi = h as int;
    let mut out = String::new();
    let mut y: usize = 0;
    while y < h
        invariant
            img.wf(),
            img.in_range(),
            is_pair_style(*style),
            !empty_ramp(*style),
            s == img.pixels@,
            wi == w as int,
            hi == h as int,
            w == img.width,
            h == img.height,
            y <= h,
            spec_pair_grid(*style, s, wi, hi, 0) == out@ + spec_pair_grid(
                *style,
                s,
                wi,
                hi,
                y as int,
            ),
        decreases h - y,
    {
        let ghost yi = y as int;
        let mut x: usize = 0;
        while x < w
            invariant
                img.wf(),
                img.in_range(),
                is_pair_style(*style),
                !empty_ramp(*style),
                s == img.pixels@,
                wi == w as int,
                hi == h as int,
                w == img.width,
                h == img.height,
                yi == y as int,
                y < h,
                x <= w,
                spec_pair_grid(*style, s, wi, hi, 0) == out@ + spec_pair_row(
                    *style,
                    s,
                    wi,
                    hi,
                    yi,
                    x as int,
                ) + seq!['\n'] + spec_pair_grid(*style, s, wi, hi, yi + 2),
            decreases w - x,
        {
            let ghost xi = x as int;
            proof {
                lemma_row_major_index(wi, hi, xi, yi);
                assert(img.pixels@[yi * wi + xi].in_range());
                if yi + 1 < hi {
                    lemma_row_major_index(wi, hi, xi, yi + 1);
                    assert(img.pixels@[(yi + 1) * wi + xi].in_range());
                }
            }
            let top = img.get(x, y);
            let bot = if y + 1 < h {
                Some(img.get(x, y + 1))
            } else {
                None
            };
            let ghost pre = out@;
            push_pair_cell(&mut out, style, top, bot);
            proof {
                assert(bot == spec_pair_bot(s, wi, hi, xi, yi));
                assert(spec_pair_row(*style, s, wi, hi, yi, xi) == spec_pair_cell(
                    *style,
                    s[yi * wi + xi],
                    spec_pair_bot(s, wi, hi, xi, yi),
                ) + spec_pair_row(*style, s, wi, hi, yi, xi + 1));
                assert(pre + spec_pair_row(*style, s, wi, hi, yi, xi) =~= out@ + spec_pair_row(
                    *style,
                    s,
                    wi,
                    hi,
                    yi,
                    xi + 1,
                ));
                assert(pre + spec_pair_row(*style, s, wi, hi, yi, xi) + seq!['\n']
                    + spec_pair_grid(*style, s, wi, hi, yi + 2) =~= out@ + spec_pair_row(
                    *style,
                    s,
                    wi,
                    hi,
                    yi,
                    xi + 1,
                ) + seq!['\n'] + spec_pair_grid(*style, s, wi, hi, yi + 2));
            }
            x = x + 1;
        }
        let ghost pre = out@;
        string_push(&mut out, '\n');
        proof {
            assert(spec_pair_row(*style, s, wi, hi, yi, wi) =~= Seq::<char>::empty());
            assert(pre + spec_pair_row(*style, s, wi, hi, yi, wi as int) + seq!['\n']
                + spec_pair_grid(*style, s, wi, hi, yi + 2) =~= out@ + spec_pair_grid(
                *style,
                s,
                wi,
                hi,
                yi + 2,
            ));
        }
        let adv = h - y;
        if adv >= 2 {
            y = y + 2;
        } else {
            y = y + adv;
            proof {
                assert(spec_pair_grid(*style, s, wi, hi, yi + 2) == spec_pair_grid(
                    *style,
                    s,
                    wi,
                    hi,
                    y as int,
                ));
            }
        }
    }
    proof {
        assert(spec_pair_grid(*style, s, wi, hi, y as int) =~= Seq::<char>::empty());
        assert(out@ =~= out@ + Seq::<char>::empty());
    }
    out
}

/// The braille pattern byte of the block at (`x`, `y`).
fn braille_byte(img: &Image, x: usize, y: usize) -> (bv: u8)
    requires
        img.wf(),
        img.in_range(),
        x < img.width,
        y < img.height,
    ensures
        bv as int == spec_braille_byte(img.pixels@, img.width as int, img.height as int, x as int, y as int),
{
    let w = img.width;
    let h = img.height;
    let ghost s = img.pixels@;
    let ghost wi = w as int;
    let ghost hi = h as int;
    let ghost xi = x as int;
    let ghost yi = y as int;
    let mut bv: u8 = 0;
    if dark_at(img, x, y) {
        bv = bv + 1;
    }
    if 1 < h - y && dark_at(img, x, y + 1) {
        bv = bv + 2;
    }
    if 2 < h - y && dark_at(img, x, y + 2) {
        bv = bv + 4;
    }
    if 1 < w - x && dark_at(img, x + 1, y) {
        bv = bv + 8;
    }
    if 1 < w - x && 1 < h - y && dark_at(img, x + 1, y + 1) {
        bv = bv + 16;
    }
    if 1 < w - x && 2 < h - y && dark_at(img, x + 1, y + 2) {
        bv = bv + 32;
    }
    if 3 < h - y && dark_at(img, x, y + 3) {
        bv = bv + 64;
    }
    if 1 < w - x && 3 < h - y && dark_at(img, x + 1, y + 3) {
        bv = bv + 128;
    }
    bv
}

/// Whether the grid cell at (`x`, `y`) is dark: brightness below `HALF`.
fn dark_at(img: &Image, x: usize, y: usize) -> (d: bool)
    requires
        img.wf(),
        img.in_range(),
        x < img.width,
        y < img.height,
    ensures
        d == spec_dark(img.pixels@, img.width as int, img.height as int, x as int, y as int),
{
    proof {
        lemma_row_major_index(img.width as int, img.height as int, x as int, y as int);
        assert(img.pixels@[(y as int) * (img.width as int) + (x as int)].in_range());
    }
    let p = img.get(x, y);
    brightness(&p) < HALF
}

/// The braille glyph of a pattern byte.
fn braille_char(bv: u8) -> (c: char)
    ensures
        c == spec_braille_char(bv as int),
{
    match char::from_u32(0x2800 + (bv as u32)) {
        Some(c) => c,
        None => {
            proof {
                assert(false);
            }
            vstd::pervasive::unreached()
        },
    }
}

/// Renders the grid as braille glyphs: one glyph per 2-wide, 4-tall block,
/// one output line per block row.
fn render_braille(img: &Image) -> (out: String)
    requires
        img.wf(),
        img.in_range(),
    ensures
        out@ == spec_braille_grid(img.pixels@, img.width as int, img.height as int, 0),
{
    let w = img.width;
    let h = img.height;
    let ghost s = img.pixels@;
    let ghost wi = w as int;
    let ghost hi = h as int;
    let mut out = String::new();
    let mut y: usize = 0;
    while y < h
        invariant
            img.wf(),
            img.in_range(),
            s == img.pixels@,
            wi == w as int,
            hi == h as int,
            w == img.width,
            h == img.height,
            y <= h,
            spec_braille_grid(s, wi, hi, 0) == out@ + spec_braille_grid(s, wi, hi, y as int),
        decreases h - y,
    {
        let ghost yi = y as int;
        let mut x: usize = 0;
        while x < w
            invariant
                img.wf(),
                img.in_range(),
                s == img.pixels@,
                wi == w as int,
                hi == h as int,
                w == img.width,
                h == img.height,
                yi == y as int,
                y < h,
                x <= w,
                spec_braille_grid(s, wi, hi, 0) == out@ + spec_braille_row(s, wi, hi, yi, x as int)
                    + seq!['\n'] + spec_braille_grid(s, wi, hi, yi + 4),
            decreases w - x,
        {
            let ghost xi = x as int;
            let bv = braille_byte(img, x, y);
            let c = braille_char(bv);
            let ghost pre = out@;
            string_push(&mut out, c);
            proof {
                assert(spec_braille_row(s, wi, hi, yi, xi) == seq![
                    spec_braille_char(spec_braille_byte(s, wi, hi, xi, yi)),
                ] + spec_braille_row(s, wi, hi, yi, xi + 2));
                assert(pre + spec_braille_row(s, wi, hi, yi, xi) + seq!['\n'] + spec_braille_grid(
                    s,
                    wi,
                    hi,
                    yi + 4,
                ) =~= out@ + spec_braille_row(s, wi, hi, yi, xi + 2) + seq!['\n']
                    + spec_braille_grid(s, wi, hi, yi + 4));
            }
            let adv = w - x;
            if adv >= 2 {
                x = x + 2;
            } else {
                x = x + adv;
                proof {
                    assert(spec_braille_row(s, wi, hi, yi, xi + 2) == spec_braille_row(
                        s,
                        wi,
                        hi,
                        yi,
                        x as int,
                    ));
                }
            }
        }
        let ghost pre = out@;
        string_push(&mut out, '\n');
        proof {
            assert(spec_braille_row(s, wi, hi, yi, w as int) =~= Seq::<char>::empty());
            assert(pre + spec_braille_row(s, wi, hi, yi, w as int) + seq!['\n']
                + spec_braille_grid(s, wi, hi, yi + 4) =~= out@ + spec_braille_grid(
                s,
                wi,
                hi,
                yi + 4,
            ));
        }
        let adv = h - y;
        if adv >= 4 {
            y = y + 4;
        } else {
            y = y + adv;
            proof {
                assert(spec_braille_grid(s, wi, hi, yi + 4) == spec_braille_grid(
                    s,
                    wi,
                    hi,
                    y as int,
                ));
            }
        }
    }
    proof {
        assert(spec_braille_grid(s, wi, hi, y as int) =~= Seq::<char>::empty());
        assert(out@ =~= out@ + Seq::<char>::empty());
    }
    out
}

impl Style {
    /// Renders the buffer as terminal text under this style. Exactly one
    /// style governs the call; a gradient with an empty ramp is rejected
    /// before any pixel is processed. The dithered styles desaturate and
    /// error-diffuse the buffer in place before rendering; every other
    /// style leaves it untouched.
    pub fn apply(&self, image: &mut Image) -> (r: Result<String, CoreError>)
        requires
            old(image).wf(),
            old(image).in_range(),
        ensures
            r is Err <==> empty_ramp(*self),
            empty_ramp(*self) ==> r == Err::<String, CoreError>(CoreError::EmptyGradientRamp)
                && *final(image) == *old(image),
            !empty_ramp(*self) ==> (r matches Ok(t) && t@ == spec_render(
                *self,
                old(image).pixels@,
                old(image).width as int,
                old(image).height as int,
            )),
            !empty_ramp(*self) && !is_dithered(*self) ==> *final(image) == *old(image),
            is_dithered(*self) ==> final(image).wf() && final(image).in_range(),
            is_dithered(*self) ==> final(image).width == old(image).width,
            is_dithered(*self) ==> final(image).height == old(image).height,
            is_dithered(*self) ==> final(image).pixels@ == spec_fs(
                spec_greyed(old(image).pixels@),
                old(image).width as int,
                old(image).height as int,
            ),
    {
        match self {
            Style::Gradient(g) => {
                if g.len() == 0 {
                    Err(CoreError::EmptyGradientRamp)
                } else {
                    Ok(render_pairs(self, image))
                }
            },
            Style::Color => Ok(render_pairs(self, image)),
            Style::Greyscale => Ok(render_pairs(self, image)),
            Style::Braille => Ok(render_braille(image)),
            Style::Dithered => {
                greyscale(image);
                floyd_steinberg(image);
                Ok(render_pairs(&Style::Greyscale, image))
            },
            Style::DitheredBraille => {
                greyscale(image);
                floyd_steinberg(image);
                Ok(render_braille(image))
            },
        }
    }
}

} // verus!
