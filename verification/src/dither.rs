//! Desaturation and Floyd-Steinberg error diffusion: the in-place
//! pre-processing behind the dithered rendering styles.
//!
//! Quantization works on fixed-point channels: a value below `HALF` snaps
//! to 0, anything else to `SCALE`, and the residual is spread to the
//! raster-order neighbors in sixteenth fractions (7, 3, 5, 1), truncated
//! toward zero. During the pass a channel can leave [0, SCALE], but never
//! by more than the sum of the share bounds, which keeps all arithmetic
//! far inside `i32`.

use vstd::prelude::*;
use crate::pixel::{Px, Image, SCALE, HALF, brightness, lemma_row_major_index};

verus! {

/// A channel quantized to the nearer of full-off and full-on.
pub open spec fn quant_ch(c: int) -> i32 {
    if c < HALF {
        0i32
    } else {
        SCALE
    }
}

/// The pixel with every channel quantized.
pub open spec fn spec_quant(p: Px) -> Px {
    Px { r: quant_ch(p.r as int), g: quant_ch(p.g as int), b: quant_ch(p.b as int) }
}

/// The per-channel quantization residual (original minus quantized).
pub open spec fn spec_err(p: Px) -> Px {
    Px {
        r: (p.r - quant_ch(p.r as int)) as i32,
        g: (p.g - quant_ch(p.g as int)) as i32,
        b: (p.b - quant_ch(p.b as int)) as i32,
    }
}

/// The `f`/16 fraction of a residual channel, truncated toward zero.
pub open spec fn spec_share(r: int, f: int) -> int {
    if r >= 0 {
        (r * f) / 16
    } else {
        -((-r * f) / 16)
    }
}

/// The `f`/16 fraction of every channel of a residual pixel.
pub open spec fn spec_share_px(e: Px, f: int) -> Px {
    Px {
        r: spec_share(e.r as int, f) as i32,
        g: spec_share(e.g as int, f) as i32,
        b: spec_share(e.b as int, f) as i32,
    }
}

/// A pixel with another added channel-wise.
pub open spec fn spec_px_add(p: Px, d: Px) -> Px {
    Px { r: (p.r + d.r) as i32, g: (p.g + d.g) as i32, b: (p.b + d.b) as i32 }
}

/// The buffer after quantizing cell (`x`, `y`) and diffusing its residual:
/// 7/16 to the right neighbor, 3/16 to the lower left (skipped at the left
/// edge), 5/16 to the one below, 1/16 to the lower right, each only when it
/// lies on the grid.
#[verifier::opaque]
pub open spec fn fs_cell(s: Seq<Px>, w: int, h: int, x: int, y: int) -> Seq<Px> {
    let i = y * w + x;
    let e = spec_err(s[i]);
    let s1 = s.update(i, spec_quant(s[i]));
    let s2 = if x + 1 < w {
        s1.update(i + 1, spec_px_add(s1[i + 1], spec_share_px(e, 7)))
    } else {
        s1
    };
    let s3 = if x >= 1 && y + 1 < h {
        s2.update((y + 1) * w + x - 1, spec_px_add(s2[(y + 1) * w + x - 1], spec_share_px(e, 3)))
    } else {
        s2
    };
    let s4 = if y + 1 < h {
        s3.update((y + 1) * w + x, spec_px_add(s3[(y + 1) * w + x], spec_share_px(e, 5)))
    } else {
        s3
    };
    if x + 1 < w && y + 1 < h {
        s4.update((y + 1) * w + x + 1, spec_px_add(s4[(y + 1) * w + x + 1], spec_share_px(e, 1)))
    } else {
        s4
    }
}

/// The buffer after processing the first `x` cells of row `y`.
pub open spec fn fs_cells(s: Seq<Px>, w: int, h: int, y: int, x: int) -> Seq<Px>
    decreases x,
{
    if x <= 0 {
        s
    } else {
        fs_cell(fs_cells(s, w, h, y, x - 1), w, h, x - 1, y)
    }
}

/// The buffer after processing the first `y` whole rows.
pub open spec fn fs_rows(s: Seq<Px>, w: int, h: int, y: int) -> Seq<Px>
    decreases y,
{
    if y <= 0 {
        s
    } else {
        fs_cells(fs_rows(s, w, h, y - 1), w, h, y - 1, w)
    }
}

/// The buffer after the whole dithering pass, raster order.
pub open spec fn spec_fs(s: Seq<Px>, w: int, h: int) -> Seq<Px> {
    fs_rows(s, w, h, h)
}

/// The buffer with every pixel replaced by its grey (brightness) pixel.
pub open spec fn spec_greyed(s: Seq<Px>) -> Seq<Px> {
    Seq::new(s.len(), |i: int| Px::spec_grey(s[i].spec_brightness()))
}

/// Cell (`i`, `j`) comes strictly before frontier (`x`, `y`) in raster order.
pub open spec fn before(i: int, j: int, x: int, y: int) -> bool {
    0 <= i && 0 <= j && (j < y || (j == y && i < x))
}

/// Bound on what the diffusion sources of cell (`i`, `j`) that are already
/// processed at frontier (`x`, `y`) can have added to one of its channels:
/// 892, 382, 637 and 127 are the largest truncated 7/16, 3/16, 5/16 and
/// 1/16 fractions of a residual, whose magnitude stays at most `HALF`
/// throughout the pass.
pub open spec fn cap(i: int, j: int, x: int, y: int, w: int) -> int {
    (if i >= 1 && before(i - 1, j, x, y) {
        892int
    } else {
        0int
    }) + (if i + 1 < w && before(i + 1, j - 1, x, y) {
        382int
    } else {
        0int
    }) + (if before(i, j - 1, x, y) {
        637int
    } else {
        0int
    }) + (if i >= 1 && before(i - 1, j - 1, x, y) {
        127int
    } else {
        0int
    })
}

/// Every channel of `p` lies within `c` of the nominal [0, SCALE] band.
pub open spec fn within(p: Px, c: int) -> bool {
    &&& -c <= p.r <= SCALE + c
    &&& -c <= p.g <= SCALE + c
    &&& -c <= p.b <= SCALE + c
}

/// The pixel of row-major cell (`i`, `j`).
pub open spec fn px_at(s: Seq<Px>, w: int, i: int, j: int) -> Px {
    s[j * w + i]
}

/// Two row-major cells of a `w`-wide grid share an index only if they are
/// the same cell.
pub proof fn lemma_row_major_unique(w: int, i: int, j: int, x: int, y: int)
    requires
        0 <= i < w,
        0 <= x < w,
    ensures
        (j * w + i == y * w + x) <==> (i == x && j == y),
{
    assert((j * w + i == y * w + x) <==> (i == x && j == y)) by (nonlinear_arith)
        requires
            0 <= i < w,
            0 <= x < w,
    ;
}

/// Converts every pixel to its brightness replicated across the channels
/// (full desaturation), in place.
pub fn greyscale(img: &mut Image)
    requires
        old(img).wf(),
        old(img).in_range(),
    ensures
        final(img).wf(),
        final(img).in_range(),
        final(img).width == old(img).width,
        final(img).height == old(img).height,
        final(img).pixels@ == spec_greyed(old(img).pixels@),
{
    let n = img.pixels.len();
    let mut i: usize = 0;
    while i < n
        invariant
            img.wf(),
            img.width == old(img).width,
            img.height == old(img).height,
            n == img.pixels@.len(),
            n == old(img).pixels@.len(),
            i <= n,
            forall|k: int| i <= k < n ==> img.pixels@[k] == old(img).pixels@[k],
            forall|k: int|
                0 <= k < i ==> img.pixels@[k] == #[trigger] spec_greyed(old(img).pixels@)[k],
            old(img).in_range(),
        decreases n - i,
    {
        let p = img.pixels[i];
        proof {
            assert(old(img).pixels@[i as int].in_range());
        }
        let b = brightness(&p);
        set_flat(img, i, Px { r: b, g: b, b: b });
        i = i + 1;
    }
    proof {
        assert(img.pixels@ =~= spec_greyed(old(img).pixels@));
        assert(forall|k: int|
            0 <= k < img.pixels@.len() ==> (#[trigger] img.pixels@[k]).in_range());
    }
}

/// Replaces the pixel at flat index `i`.
fn set_flat(img: &mut Image, i: usize, p: Px)
    requires
        i < old(img).pixels@.len(),
    ensures
        final(img).width == old(img).width,
        final(img).height == old(img).height,
        final(img).pixels@ == old(img).pixels@.update(i as int, p),
{
    img.pixels.set(i, p);
}

/// Quantizes each channel to the nearer of 0 and `SCALE` (threshold `HALF`)
/// in place and returns the per-channel residual, original minus quantized.
pub fn quantize(p: &mut Px) -> (e: Px)
    requires
        -SCALE <= old(p).r <= 2 * SCALE,
        -SCALE <= old(p).g <= 2 * SCALE,
        -SCALE <= old(p).b <= 2 * SCALE,
    ensures
        *final(p) == spec_quant(*old(p)),
        e == spec_err(*old(p)),
        e.r == old(p).r - final(p).r,
        e.g == old(p).g - final(p).g,
        e.b == old(p).b - final(p).b,
{
    let er = if p.r < HALF {
        let e = p.r;
        p.r = 0;
        e
    } else {
        let e = p.r - SCALE;
        p.r = SCALE;
        e
    };
    let eg = if p.g < HALF {
        let e = p.g;
        p.g = 0;
        e
    } else {
        let e = p.g - SCALE;
        p.g = SCALE;
        e
    };
    let eb = if p.b < HALF {
        let e = p.b;
        p.b = 0;
        e
    } else {
        let e = p.b - SCALE;
        p.b = SCALE;
        e
    };
    Px { r: er, g: eg, b: eb }
}

/// The `f`/16 fraction of a residual channel, truncated toward zero.
fn share(r: i32, f: i32) -> (s: i32)
    requires
        -SCALE <= r <= SCALE,
        0 <= f <= 16,
    ensures
        s == spec_share(r as int, f as int),
{
    proof {
        assert(-(4080 * 16) <= (r as int) * (f as int) <= 4080 * 16) by (nonlinear_arith)
            requires
                -4080 <= r <= 4080,
                0 <= f <= 16,
        ;
        assert(-(4080 * 16) <= (-r as int) * (f as int) <= 4080 * 16) by (nonlinear_arith)
            requires
                -4080 <= r <= 4080,
                0 <= f <= 16,
        ;
    }
    if r >= 0 {
        (r * f) / 16
    } else {
        -((-r * f) / 16)
    }
}

/// A share never exceeds the exact fraction in magnitude: with the residual
/// bounded by `m`, the `f`/16 share is bounded by `m * f / 16`.
pub proof fn lemma_share_bound(r: int, f: int, m: int)
    requires
        -m <= r <= m,
        0 <= m,
        0 <= f,
    ensures
        -((m * f) / 16) <= spec_share(r, f) <= (m * f) / 16,
{
    if r >= 0 {
        vstd::arithmetic::mul::lemma_mul_inequality(r, m, f);
        vstd::arithmetic::div_mod::lemma_div_is_ordered(r * f, m * f, 16);
        vstd::arithmetic::div_mod::lemma_div_pos_is_pos(r * f, 16);
        vstd::arithmetic::mul::lemma_mul_nonnegative(r, f);
    } else {
        vstd::arithmetic::mul::lemma_mul_inequality(-r, m, f);
        vstd::arithmetic::div_mod::lemma_div_is_ordered(-r * f, m * f, 16);
        vstd::arithmetic::div_mod::lemma_div_pos_is_pos(-r * f, 16);
        vstd::arithmetic::mul::lemma_mul_nonnegative(-r, f);
    }
}

/// Every channel of `p` has magnitude at most `m`.
pub open spec fn bounded(p: Px, m: int) -> bool {
    &&& -m <= p.r <= m
    &&& -m <= p.g <= m
    &&& -m <= p.b <= m
}

/// Share bounds for all channels of a residual pixel.
proof fn lemma_share_bounds_all(e: Px)
    requires
        -2040 <= e.r <= 2040,
        -2040 <= e.g <= 2040,
        -2040 <= e.b <= 2040,
    ensures
        bounded(spec_share_px(e, 7), 892),
        bounded(spec_share_px(e, 3), 382),
        bounded(spec_share_px(e, 5), 637),
        bounded(spec_share_px(e, 1), 127),
{
    lemma_share_bound(e.r as int, 7, 2040);
    lemma_share_bound(e.g as int, 7, 2040);
    lemma_share_bound(e.b as int, 7, 2040);
    lemma_share_bound(e.r as int, 3, 2040);
    lemma_share_bound(e.g as int, 3, 2040);
    lemma_share_bound(e.b as int, 3, 2040);
    lemma_share_bound(e.r as int, 5, 2040);
    lemma_share_bound(e.g as int, 5, 2040);
    lemma_share_bound(e.b as int, 5, 2040);
    lemma_share_bound(e.r as int, 1, 2040);
    lemma_share_bound(e.g as int, 1, 2040);
    lemma_share_bound(e.b as int, 1, 2040);
}

/// Error diffusion conserves the residual up to truncation: the four
/// shares of a residual sum to the residual itself, short of it (toward
/// zero) by strictly less than 4 fixed-point units lost to truncating the
/// four sixteenth fractions.
pub proof fn lemma_diffusion_conserves_residual(r: int)
    ensures
        r >= 0 ==> r - 4 < spec_share(r, 7) + spec_share(r, 3) + spec_share(r, 5) + spec_share(
            r,
            1,
        ) <= r,
        r < 0 ==> r <= spec_share(r, 7) + spec_share(r, 3) + spec_share(r, 5) + spec_share(r, 1)
            < r + 4,
{
    let a = if r >= 0 {
        r
    } else {
        -r
    };
    vstd::arithmetic::div_mod::lemma_fundamental_div_mod(a * 7, 16);
    vstd::arithmetic::div_mod::lemma_mod_bound(a * 7, 16);
    vstd::arithmetic::div_mod::lemma_fundamental_div_mod(a * 3, 16);
    vstd::arithmetic::div_mod::lemma_mod_bound(a * 3, 16);
    vstd::arithmetic::div_mod::lemma_fundamental_div_mod(a * 5, 16);
    vstd::arithmetic::div_mod::lemma_mod_bound(a * 5, 16);
    vstd::arithmetic::div_mod::lemma_fundamental_div_mod(a * 1, 16);
    vstd::arithmetic::div_mod::lemma_mod_bound(a * 1, 16);
    assert(a * 7 + a * 3 + a * 5 + a * 1 == 16 * a);
}

/// One `fs_cell` step keeps the accounting invariants: cells behind the
/// frontier are untouched, the frontier cell comes out quantized, and every
/// cell ahead stays within the share bounds its processed sources allow.
#[verifier::rlimit(100)]
#[verifier::spinoff_prover]
proof fn lemma_fs_cell_frontier(s: Seq<Px>, w: int, h: int, x: int, y: int)
    requires
        s.len() == w * h,
        0 <= x < w,
        0 <= y < h,
        forall|i: int, j: int|
            0 <= i < w && 0 <= j < h && !before(i, j, x, y) ==> within(
                #[trigger] px_at(s, w, i, j),
                cap(i, j, x, y, w),
            ),
    ensures
        fs_cell(s, w, h, x, y).len() == s.len(),
        forall|i: int, j: int|
            0 <= i < w && 0 <= j < h && !before(i, j, x + 1, y) ==> within(
                #[trigger] px_at(fs_cell(s, w, h, x, y), w, i, j),
                cap(i, j, x + 1, y, w),
            ),
        px_at(fs_cell(s, w, h, x, y), w, x, y).is_quantized(),
        forall|i: int, j: int|
            0 <= i < w && 0 <= j < h && before(i, j, x, y) ==> #[trigger] px_at(
                fs_cell(s, w, h, x, y),
                w,
                i,
                j,
            ) == px_at(s, w, i, j),
{
    reveal(fs_cell);
    let post = fs_cell(s, w, h, x, y);
    lemma_row_major_index(w, h, x, y);
    assert((y + 1) * w == y * w + w) by (nonlinear_arith);
    assert(!before(x, y, x, y));
    assert(within(px_at(s, w, x, y), cap(x, y, x, y, w)));
    assert(cap(x, y, x, y, w) <= 2038);
    let e = spec_err(s[y * w + x]);
    assert(-2040 <= e.r <= 2040 && -2040 <= e.g <= 2040 && -2040 <= e.b <= 2040);
    lemma_share_bounds_all(e);
    if x + 1 < w {
        lemma_row_major_index(w, h, x + 1, y);
    }
    if x >= 1 && y + 1 < h {
        lemma_row_major_index(w, h, x - 1, y + 1);
    }
    if y + 1 < h {
        lemma_row_major_index(w, h, x, y + 1);
    }
    if x + 1 < w && y + 1 < h {
        lemma_row_major_index(w, h, x + 1, y + 1);
    }
    assert forall|i: int, j: int|
        0 <= i < w && 0 <= j < h && !before(i, j, x + 1, y) implies within(
        #[trigger] px_at(post, w, i, j),
        cap(i, j, x + 1, y, w),
    ) by {
        lemma_row_major_index(w, h, i, j);
        lemma_row_major_unique(w, i, j, x, y);
        if x + 1 < w {
            lemma_row_major_unique(w, i, j, x + 1, y);
        }
        if x >= 1 && y + 1 < h {
            lemma_row_major_unique(w, i, j, x - 1, y + 1);
        }
        if y + 1 < h {
            lemma_row_major_unique(w, i, j, x, y + 1);
        }
        if x + 1 < w && y + 1 < h {
            lemma_row_major_unique(w, i, j, x + 1, y + 1);
        }
        assert(!before(i, j, x, y));
        assert(within(px_at(s, w, i, j), cap(i, j, x, y, w)));
        if i == x + 1 && j == y {
            assert(cap(i, j, x + 1, y, w) == cap(i, j, x, y, w) + 892);
        } else if i == x - 1 && j == y + 1 && x >= 1 {
            assert(cap(i, j, x + 1, y, w) == cap(i, j, x, y, w) + 382);
        } else if i == x && j == y + 1 {
            assert(cap(i, j, x + 1, y, w) == cap(i, j, x, y, w) + 637);
        } else if i == x + 1 && j == y + 1 {
            assert(cap(i, j, x + 1, y, w) == cap(i, j, x, y, w) + 127);
        } else {
            assert(px_at(post, w, i, j) == px_at(s, w, i, j));
            assert(cap(i, j, x + 1, y, w) == cap(i, j, x, y, w));
        }
    }
    assert forall|i: int, j: int|
        0 <= i < w && 0 <= j < h && before(i, j, x, y) implies #[trigger] px_at(post, w, i, j)
        == px_at(s, w, i, j) by {
        lemma_row_major_index(w, h, i, j);
        lemma_row_major_unique(w, i, j, x, y);
        if x + 1 < w {
            lemma_row_major_unique(w, i, j, x + 1, y);
        }
        if x >= 1 && y + 1 < h {
            lemma_row_major_unique(w, i, j, x - 1, y + 1);
        }
        if y + 1 < h {
            lemma_row_major_unique(w, i, j, x, y + 1);
        }
        if x + 1 < w && y + 1 < h {
            lemma_row_major_unique(w, i, j, x + 1, y + 1);
        }
    }
}

/// Quantizes cell (`x`, `y`) and diffuses its residual, moving the raster
/// frontier one cell to the right.
#[verifier::rlimit(100)]
#[verifier::spinoff_prover]
fn diffuse_cell(img: &mut Image, x: usize, y: usize)
    requires
        old(img).wf(),
        x < old(img).width,
        y < old(img).height,
        forall|i: int, j: int|
            0 <= i < old(img).width && 0 <= j < old(img).height && !before(
                i,
                j,
                x as int,
                y as int,
            ) ==> within(
                #[trigger] px_at(old(img).pixels@, old(img).width as int, i, j),
                cap(i, j, x as int, y as int, old(img).width as int),
            ),
    ensures
        final(img).wf(),
        final(img).width == old(img).width,
        final(img).height == old(img).height,
        final(img).pixels@ == fs_cell(
            old(img).pixels@,
            old(img).width as int,
            old(img).height as int,
            x as int,
            y as int,
        ),
        forall|i: int, j: int|
            0 <= i < old(img).width && 0 <= j < old(img).height && !before(
                i,
                j,
                x as int + 1,
                y as int,
            ) ==> within(
                #[trigger] px_at(final(img).pixels@, old(img).width as int, i, j),
                cap(i, j, x as int + 1, y as int, old(img).width as int),
            ),
        px_at(final(img).pixels@, old(img).width as int, x as int, y as int).is_quantized(),
        forall|i: int, j: int|
            0 <= i < old(img).width && 0 <= j < old(img).height && before(i, j, x as int, y as int)
                ==> #[trigger] px_at(final(img).pixels@, old(img).width as int, i, j) == px_at(
                old(img).pixels@,
                old(img).width as int,
                i,
                j,
            ),
{
    let w = img.width;
    let h = img.height;
    let ghost pre = img.pixels@;
    let ghost wi = w as int;
    let ghost hi = h as int;
    let ghost xi = x as int;
    let ghost yi = y as int;
    proof {
        lemma_row_major_index(wi, hi, xi, yi);
        assert((yi + 1) * wi == yi * wi + wi) by (nonlinear_arith);
        assert(!before(xi, yi, xi, yi));
        assert(within(px_at(pre, wi, xi, yi), cap(xi, yi, xi, yi, wi)));
        assert(cap(xi, yi, xi, yi, wi) <= 2038);
    }
    let mut q = img.get(x, y);
    let e = quantize(&mut q);
    proof {
        assert(-2040 <= e.r <= 2040 && -2040 <= e.g <= 2040 && -2040 <= e.b <= 2040);
        lemma_share_bounds_all(e);
    }
    img.set(x, y, q);
    let s7 = Px { r: share(e.r, 7), g: share(e.g, 7), b: share(e.b, 7) };
    let s3 = Px { r: share(e.r, 3), g: share(e.g, 3), b: share(e.b, 3) };
    let s5 = Px { r: share(e.r, 5), g: share(e.g, 5), b: share(e.b, 5) };
    let s1 = Px { r: share(e.r, 1), g: share(e.g, 1), b: share(e.b, 1) };
    proof {
        assert(s7 == spec_share_px(e, 7));
        assert(s3 == spec_share_px(e, 3));
        assert(s5 == spec_share_px(e, 5));
        assert(s1 == spec_share_px(e, 1));
    }
    if x + 1 < w {
        proof {
            assert(!before(xi + 1, yi, xi, yi));
            assert(within(px_at(pre, wi, xi + 1, yi), cap(xi + 1, yi, xi, yi, wi)));
            assert(cap(xi + 1, yi, xi, yi, wi) <= 2038);
        }
        proof {
            lemma_row_major_index(wi, hi, xi + 1, yi);
        }
        let t = img.get(x + 1, y);
        img.set(x + 1, y, Px { r: t.r + s7.r, g: t.g + s7.g, b: t.b + s7.b });
    }
    if x >= 1 && y + 1 < h {
        proof {
            assert(!before(xi - 1, yi + 1, xi, yi));
            assert(within(px_at(pre, wi, xi - 1, yi + 1), cap(xi - 1, yi + 1, xi, yi, wi)));
            assert(cap(xi - 1, yi + 1, xi, yi, wi) <= 2038);
            lemma_row_major_index(wi, hi, xi - 1, yi + 1);
        }
        let t = img.get(x - 1, y + 1);
        img.set(x - 1, y + 1, Px { r: t.r + s3.r, g: t.g + s3.g, b: t.b + s3.b });
    }
    if y + 1 < h {
        proof {
            assert(!before(xi, yi + 1, xi, yi));
            assert(within(px_at(pre, wi, xi, yi + 1), cap(xi, yi + 1, xi, yi, wi)));
            assert(cap(xi, yi + 1, xi, yi, wi) <= 2038);
            lemma_row_major_index(wi, hi, xi, yi + 1);
        }
        let t = img.get(x, y + 1);
        img.set(x, y + 1, Px { r: t.r + s5.r, g: t.g + s5.g, b: t.b + s5.b });
    }
    if x + 1 < w && y + 1 < h {
        proof {
            assert(!before(xi + 1, yi + 1, xi, yi));
            assert(within(px_at(pre, wi, xi + 1, yi + 1), cap(xi + 1, yi + 1, xi, yi, wi)));
            assert(cap(xi + 1, yi + 1, xi, yi, wi) <= 2038);
            lemma_row_major_index(wi, hi, xi + 1, yi + 1);
        }
        let t = img.get(x + 1, y + 1);
        img.set(x + 1, y + 1, Px { r: t.r + s1.r, g: t.g + s1.g, b: t.b + s1.b });
    }
    proof {
        assert(img.pixels@ == fs_cell(pre, wi, hi, xi, yi)) by {
            reveal(fs_cell);
        }
        lemma_fs_cell_frontier(pre, wi, hi, xi, yi);
    }
}

/// Applies Floyd-Steinberg error diffusion in place, raster order: each
/// pixel is quantized channel-wise to the nearer of 0 and `SCALE`, and the
/// residual flows on in sixteenth fractions, 7 right, 3 lower left, 5
/// down, 1 lower right, skipping targets off the grid. Afterwards every
/// channel of every pixel is exactly 0 or `SCALE`.
pub fn floyd_steinberg(img: &mut Image)
    requires
        old(img).wf(),
        old(img).in_range(),
    ensures
        final(img).wf(),
        final(img).width == old(img).width,
        final(img).height == old(img).height,
        final(img).pixels@ == spec_fs(
            old(img).pixels@,
            old(img).width as int,
            old(img).height as int,
        ),
        forall|k: int|
            0 <= k < final(img).pixels@.len() ==> (#[trigger] final(img).pixels@[k]).is_quantized(),
        final(img).in_range(),
{
    let w = img.width;
    let h = img.height;
    let ghost init = img.pixels@;
    let ghost wi = w as int;
    let ghost hi = h as int;
    proof {
        assert forall|i: int, j: int| 0 <= i < wi && 0 <= j < hi && !before(i, j, 0, 0) implies
            within(#[trigger] px_at(img.pixels@, wi, i, j), cap(i, j, 0, 0, wi)) by {
            lemma_row_major_index(wi, hi, i, j);
            assert(img.pixels@[j * wi + i].in_range());
            assert(cap(i, j, 0, 0, wi) == 0);
        }
    }
    let mut y: usize = 0;
    while y < h
        invariant
            img.wf(),
            img.width == w,
            img.height == h,
            wi == w as int,
            hi == h as int,
            y <= h,
            img.pixels@ == fs_rows(init, wi, hi, y as int),
            forall|i: int, j: int|
                0 <= i < wi && 0 <= j < hi && before(i, j, 0, y as int) ==> (#[trigger] px_at(
                    img.pixels@,
                    wi,
                    i,
                    j,
                )).is_quantized(),
            forall|i: int, j: int|
                0 <= i < wi && 0 <= j < hi && !before(i, j, 0, y as int) ==> within(
                    #[trigger] px_at(img.pixels@, wi, i, j),
                    cap(i, j, 0, y as int, wi),
                ),
        decreases h - y,
    {
        let ghost rowbase = img.pixels@;
        let mut x: usize = 0;
        while x < w
            invariant
                img.wf(),
                img.width == w,
                img.height == h,
                wi == w as int,
                hi == h as int,
                y < h,
                x <= w,
                img.pixels@ == fs_cells(rowbase, wi, hi, y as int, x as int),
                rowbase == fs_rows(init, wi, hi, y as int),
                forall|i: int, j: int|
                    0 <= i < wi && 0 <= j < hi && before(i, j, x as int, y as int) ==> (
                    #[trigger] px_at(img.pixels@, wi, i, j)).is_quantized(),
                forall|i: int, j: int|
                    0 <= i < wi && 0 <= j < hi && !before(i, j, x as int, y as int) ==> within(
                        #[trigger] px_at(img.pixels@, wi, i, j),
                        cap(i, j, x as int, y as int, wi),
                    ),
            decreases w - x,
        {
            let ghost cur = img.pixels@;
            diffuse_cell(img, x, y);
            proof {
                let xi = x as int;
                let yi = y as int;
                assert(fs_cells(rowbase, wi, hi, yi, xi + 1) == fs_cell(
                    fs_cells(rowbase, wi, hi, yi, xi),
                    wi,
                    hi,
                    xi,
                    yi,
                ));
                assert forall|i: int, j: int|
                    0 <= i < wi && 0 <= j < hi && before(i, j, xi + 1, yi) implies (
                #[trigger] px_at(img.pixels@, wi, i, j)).is_quantized() by {
                    if i == xi && j == yi {
                        assert(px_at(img.pixels@, wi, i, j).is_quantized());
                    } else {
                        assert(before(i, j, xi, yi));
                        assert(px_at(cur, wi, i, j).is_quantized());
                        assert(px_at(img.pixels@, wi, i, j) == px_at(cur, wi, i, j));
                    }
                }
            }
            x = x + 1;
        }
        proof {
            let yi = y as int;
            assert(fs_rows(init, wi, hi, yi + 1) == fs_cells(
                fs_rows(init, wi, hi, yi),
                wi,
                hi,
                yi,
                wi,
            ));
            assert forall|i: int, j: int|
                0 <= i < wi && 0 <= j < hi && before(i, j, 0, yi + 1) implies (#[trigger] px_at(
                img.pixels@,
                wi,
                i,
                j,
            )).is_quantized() by {
                assert(before(i, j, wi, yi));
            }
            assert forall|i: int, j: int|
                0 <= i < wi && 0 <= j < hi && !before(i, j, 0, yi + 1) implies within(
                #[trigger] px_at(img.pixels@, wi, i, j),
                cap(i, j, 0, yi + 1, wi),
            ) by {
                assert(!before(i, j, wi, yi));
                assert(cap(i, j, 0, yi + 1, wi) == cap(i, j, wi, yi, wi));
            }
        }
        y = y + 1;
    }
    proof {
        assert forall|k: int| 0 <= k < img.pixels@.len() implies (
        #[trigger] img.pixels@[k]).is_quantized() by {
            if wi == 0 {
                assert(wi * hi == 0) by (nonlinear_arith)
                    requires
                        wi == 0,
                ;
            } else {
                vstd::arithmetic::div_mod::lemma_fundamental_div_mod(k, wi);
                vstd::arithmetic::div_mod::lemma_mod_bound(k, wi);
                vstd::arithmetic::div_mod::lemma_div_pos_is_pos(k, wi);
                let i = k % wi;
                let j = k / wi;
                assert(j < hi) by (nonlinear_arith)
                    requires
                        k < wi * hi,
                        k == wi * j + i,
                        0 <= i < wi,
                        0 <= j,
                ;
                assert(before(i, j, 0, hi));
                assert(j * wi + i == k) by (nonlinear_arith)
                    requires
                        k == wi * j + i,
                ;
                assert(px_at(img.pixels@, wi, i, j).is_quantized());
            }
        }
        assert(forall|k: int|
            0 <= k < img.pixels@.len() ==> (#[trigger] img.pixels@[k]).in_range());
    }
}

/// The sum of the red channel over a buffer. After desaturation all three
/// channels are equal, so this is the buffer's total brightness.
pub open spec fn sum_r(s: Seq<Px>) -> int
    decreases s.len(),
{
    if s.len() == 0 {
        0
    } else {
        sum_r(s.drop_last()) + s.last().r
    }
}

/// Replacing one pixel moves the channel sum by the channel difference.
proof fn lemma_sum_r_update(s: Seq<Px>, i: int, v: Px)
    requires
        0 <= i < s.len(),
    ensures
        sum_r(s.update(i, v)) == sum_r(s) - s[i].r + v.r,
    decreases s.len(),
{
    if i == s.len() - 1 {
        assert(s.update(i, v).drop_last() =~= s.drop_last());
    } else {
        assert(s.update(i, v).drop_last() =~= s.drop_last().update(i, v));
        lemma_sum_r_update(s.drop_last(), i, v);
    }
}

/// The channel-sum loss bound of one cell: 4 units of truncation, plus the
/// share bounds of whatever falls off the grid at the left, right, and
/// bottom edges.
pub open spec fn cell_loss(w: int, h: int, x: int, y: int) -> int {
    4 + (if x == 0 {
        382int
    } else {
        0int
    }) + (if x == w - 1 {
        1019int
    } else {
        0int
    }) + (if y == h - 1 {
        1146int
    } else {
        0int
    })
}

/// One diffusion step moves the channel sum by at most the cell's loss
/// bound: the quantization residual flows back in, short of truncation and
/// of the shares that fall off the grid.
#[verifier::rlimit(100)]
#[verifier::spinoff_prover]
proof fn lemma_fs_cell_sum(s: Seq<Px>, w: int, h: int, x: int, y: int)
    requires
        s.len() == w * h,
        0 <= x < w,
        0 <= y < h,
        forall|i: int, j: int|
            0 <= i < w && 0 <= j < h && !before(i, j, x, y) ==> within(
                #[trigger] px_at(s, w, i, j),
                cap(i, j, x, y, w),
            ),
    ensures
        -cell_loss(w, h, x, y) <= sum_r(fs_cell(s, w, h, x, y)) - sum_r(s) <= cell_loss(w, h, x, y),
{
    reveal(fs_cell);
    lemma_row_major_index(w, h, x, y);
    assert((y + 1) * w == y * w + w) by (nonlinear_arith);
    assert(!before(x, y, x, y));
    assert(within(px_at(s, w, x, y), cap(x, y, x, y, w)));
    assert(cap(x, y, x, y, w) <= 2038);
    let k = y * w + x;
    let p = s[k];
    let e = spec_err(p);
    let r = e.r as int;
    assert(-2040 <= r <= 2040);
    lemma_share_bounds_all(e);
    lemma_diffusion_conserves_residual(r);
    let s1 = s.update(k, spec_quant(p));
    lemma_sum_r_update(s, k, spec_quant(p));
    assert(sum_r(s1) == sum_r(s) - r);
    let s2 = if x + 1 < w {
        s1.update(k + 1, spec_px_add(s1[k + 1], spec_share_px(e, 7)))
    } else {
        s1
    };
    if x + 1 < w {
        lemma_row_major_index(w, h, x + 1, y);
        assert(!before(x + 1, y, x, y));
        assert(within(px_at(s, w, x + 1, y), cap(x + 1, y, x, y, w)));
        lemma_sum_r_update(s1, k + 1, spec_px_add(s1[k + 1], spec_share_px(e, 7)));
        assert(sum_r(s2) == sum_r(s1) + spec_share(r, 7));
    }
    let s3 = if x >= 1 && y + 1 < h {
        s2.update((y + 1) * w + x - 1, spec_px_add(s2[(y + 1) * w + x - 1], spec_share_px(e, 3)))
    } else {
        s2
    };
    if x >= 1 && y + 1 < h {
        lemma_row_major_index(w, h, x - 1, y + 1);
        assert(!before(x - 1, y + 1, x, y));
        assert(within(px_at(s, w, x - 1, y + 1), cap(x - 1, y + 1, x, y, w)));
        lemma_sum_r_update(s2, (y + 1) * w + x - 1, spec_px_add(s2[(y + 1) * w + x - 1], spec_share_px(e, 3)));
        assert(sum_r(s3) == sum_r(s2) + spec_share(r, 3));
    }
    let s4 = if y + 1 < h {
        s3.update((y + 1) * w + x, spec_px_add(s3[(y + 1) * w + x], spec_share_px(e, 5)))
    } else {
        s3
    };
    if y + 1 < h {
        lemma_row_major_index(w, h, x, y + 1);
        assert(!before(x, y + 1, x, y));
        assert(within(px_at(s, w, x, y + 1), cap(x, y + 1, x, y, w)));
        lemma_sum_r_update(s3, (y + 1) * w + x, spec_px_add(s3[(y + 1) * w + x], spec_share_px(e, 5)));
        assert(sum_r(s4) == sum_r(s3) + spec_share(r, 5));
    }
    let s5 = if x + 1 < w && y + 1 < h {
        s4.update((y + 1) * w + x + 1, spec_px_add(s4[(y + 1) * w + x + 1], spec_share_px(e, 1)))
    } else {
        s4
    };
    if x + 1 < w && y + 1 < h {
        lemma_row_major_index(w, h, x + 1, y + 1);
        assert(!before(x + 1, y + 1, x, y));
        assert(within(px_at(s, w, x + 1, y + 1), cap(x + 1, y + 1, x, y, w)));
        lemma_sum_r_update(s4, (y + 1) * w + x + 1, spec_px_add(s4[(y + 1) * w + x + 1], spec_share_px(e, 1)));
        assert(sum_r(s5) == sum_r(s4) + spec_share(r, 1));
    }
    assert(fs_cell(s, w, h, x, y) == s5);
    lemma_share_bound(r, 7, 2040);
    lemma_share_bound(r, 3, 2040);
    lemma_share_bound(r, 5, 2040);
    lemma_share_bound(r, 1, 2040);
}

/// The accumulated loss bound after the first `x` cells of row `y`: the
/// truncation and last-row terms per cell, and the left and right edge
/// terms once each.
pub open spec fn cells_loss(w: int, h: int, y: int, x: int) -> int {
    (4 + (if y == h - 1 {
        1146int
    } else {
        0int
    })) * x + (if x >= 1 {
        382int
    } else {
        0int
    }) + (if x >= w {
        1019int
    } else {
        0int
    })
}

/// Processing the first `x` cells of row `y` keeps the channel sum within
/// the accumulated loss bound and moves the accounting frontier to
/// (`x`, `y`).
proof fn lemma_fs_cells_sum(s: Seq<Px>, w: int, h: int, y: int, x: int)
    requires
        s.len() == w * h,
        w >= 0,
        0 <= y < h,
        0 <= x <= w,
        forall|i: int, j: int|
            0 <= i < w && 0 <= j < h && !before(i, j, 0, y) ==> within(
                #[trigger] px_at(s, w, i, j),
                cap(i, j, 0, y, w),
            ),
    ensures
        fs_cells(s, w, h, y, x).len() == s.len(),
        forall|i: int, j: int|
            0 <= i < w && 0 <= j < h && !before(i, j, x, y) ==> within(
                #[trigger] px_at(fs_cells(s, w, h, y, x), w, i, j),
                cap(i, j, x, y, w),
            ),
        -cells_loss(w, h, y, x) <= sum_r(fs_cells(s, w, h, y, x)) - sum_r(s) <= cells_loss(
            w,
            h,
            y,
            x,
        ),
    decreases x,
{
    let ghost l = 4 + (if y == h - 1 {
        1146int
    } else {
        0int
    });
    if x <= 0 {
        assert(l * x == 0) by (nonlinear_arith)
            requires
                x == 0,
        ;
    } else {
        lemma_fs_cells_sum(s, w, h, y, x - 1);
        let t = fs_cells(s, w, h, y, x - 1);
        lemma_fs_cell_frontier(t, w, h, x - 1, y);
        lemma_fs_cell_sum(t, w, h, x - 1, y);
        assert(fs_cells(s, w, h, y, x) == fs_cell(t, w, h, x - 1, y));
        assert(l * x == l * (x - 1) + l) by (nonlinear_arith);
        assert(cell_loss(w, h, x - 1, y) <= l + (if x - 1 == 0 {
            382int
        } else {
            0int
        }) + (if x == w {
            1019int
        } else {
            0int
        }));
    }
}

/// The loss bound of the first `y` whole rows.
pub open spec fn rows_loss(w: int, h: int, y: int) -> int {
    (4 * w + 1401) * y + (if y >= h {
        1146 * w
    } else {
        0int
    })
}

/// Processing the first `y` whole rows keeps the channel sum within the
/// accumulated loss bound and moves the accounting frontier to row `y`.
proof fn lemma_fs_rows_sum(s: Seq<Px>, w: int, h: int, y: int)
    requires
        s.len() == w * h,
        w >= 0,
        0 <= y <= h,
        forall|i: int, j: int|
            0 <= i < w && 0 <= j < h && !before(i, j, 0, 0) ==> within(
                #[trigger] px_at(s, w, i, j),
                cap(i, j, 0, 0, w),
            ),
    ensures
        fs_rows(s, w, h, y).len() == s.len(),
        forall|i: int, j: int|
            0 <= i < w && 0 <= j < h && !before(i, j, 0, y) ==> within(
                #[trigger] px_at(fs_rows(s, w, h, y), w, i, j),
                cap(i, j, 0, y, w),
            ),
        -rows_loss(w, h, y) <= sum_r(fs_rows(s, w, h, y)) - sum_r(s) <= rows_loss(w, h, y),
    decreases y,
{
    if y <= 0 {
        assert((4 * w + 1401) * y == 0) by (nonlinear_arith)
            requires
                y == 0,
        ;
        assert(1146 * w >= 0) by (nonlinear_arith)
            requires
                w >= 0,
        ;
    } else {
        lemma_fs_rows_sum(s, w, h, y - 1);
        let t = fs_rows(s, w, h, y - 1);
        lemma_fs_cells_sum(t, w, h, y - 1, w);
        assert(fs_rows(s, w, h, y) == fs_cells(t, w, h, y - 1, w));
        let u = fs_cells(t, w, h, y - 1, w);
        assert forall|i: int, j: int|
            0 <= i < w && 0 <= j < h && !before(i, j, 0, y) implies within(
            #[trigger] px_at(u, w, i, j),
            cap(i, j, 0, y, w),
        ) by {
            assert(!before(i, j, w, y - 1));
            assert(within(px_at(u, w, i, j), cap(i, j, w, y - 1, w)));
            assert(cap(i, j, 0, y, w) == cap(i, j, w, y - 1, w));
        }
        assert((4 * w + 1401) * y == (4 * w + 1401) * (y - 1) + (4 * w + 1401))
            by (nonlinear_arith);
        assert(cells_loss(w, h, y - 1, w) <= (4 + (if y == h {
            1146int
        } else {
            0int
        })) * w + 1401) by {
            assert((4 + (if y - 1 == h - 1 {
                1146int
            } else {
                0int
            })) * w >= 0) by (nonlinear_arith)
                requires
                    w >= 0,
            ;
        }
        if y >= h {
            assert((4 + 1146) * w == 4 * w + 1146 * w) by (nonlinear_arith);
        }
    }
}

/// Floyd-Steinberg dithering approximately conserves total brightness: the
/// channel sum of the dithered buffer differs from the original's by no
/// more than 4 truncation units per pixel plus the residual shares that
/// fall off the grid at its edges.
pub proof fn lemma_dithering_conserves_brightness(s: Seq<Px>, w: int, h: int)
    requires
        s.len() == w * h,
        w >= 0,
        h >= 0,
        forall|i: int| 0 <= i < s.len() ==> (#[trigger] s[i]).in_range(),
    ensures
        -((4 * w + 1401) * h + 1146 * w) <= sum_r(spec_fs(s, w, h)) - sum_r(s) <= (4 * w + 1401)
            * h + 1146 * w,
{
    assert forall|i: int, j: int| 0 <= i < w && 0 <= j < h && !before(i, j, 0, 0) implies within(
        #[trigger] px_at(s, w, i, j),
        cap(i, j, 0, 0, w),
    ) by {
        lemma_row_major_index(w, h, i, j);
        assert(s[j * w + i].in_range());
        assert(cap(i, j, 0, 0, w) == 0);
    }
    lemma_fs_rows_sum(s, w, h, h);
    if h == 0 {
        assert(rows_loss(w, h, 0) == 1146 * w);
        assert((4 * w + 1401) * h == 0) by (nonlinear_arith)
            requires
                h == 0,
        ;
        assert(1146 * w >= 0) by (nonlinear_arith)
            requires
                w >= 0,
        ;
    }
}

} // verus!
