//! Rescaling the image buffer to target character-grid dimensions: the
//! target size is resolved here (aspect-preserving or exact-stretch) and
//! the resampling itself is done by the `image` crate on 8-bit samples.

use vstd::prelude::*;
use crate::pixel::{Px, Image};
use crate::CoreError;

verus! {

/// Interpolation kernel used by the resampler. A pure parameter: it has no
/// effect on the output dimensions.
#[derive(Clone, Copy, PartialEq, Eq, Structural, Debug)]
pub enum Filter {
    /// Nearest Neighbor
    Nearest,
    /// Linear Filter
    Triangle,
    /// Cubic Filter
    CatmullRom,
    /// Gaussian Filter
    Gaussian,
    /// Lanczos with window 3
    Lanczos3,
}

impl Default for Filter {
    /// The default kernel is Gaussian.
    fn default() -> (r: Filter)
        ensures
            r == Filter::Gaussian,
    {
        Filter::Gaussian
    }
}

/// Numeric tag of a kernel, so that the name of the resampler's output can
/// take the kernel as a plain value.
pub open spec fn filter_sel(f: Filter) -> int {
    match f {
        Filter::Nearest => 0,
        Filter::Triangle => 1,
        Filter::CatmullRom => 2,
        Filter::Gaussian => 3,
        Filter::Lanczos3 => 4,
    }
}

/// The 8-bit RGB sample stream that `image::imageops::resize` produces from
/// the stream `s` (3 bytes per pixel, row-major, `ow` by `oh`) when asked
/// for `nw` by `nh` output with the kernel tagged `filter`. The resampler
/// is a pure function of these arguments; its pages-long kernel arithmetic
/// is not restated here.
pub uninterp spec fn resampled(s: Seq<u8>, ow: int, oh: int, nw: int, nh: int, filter: int) -> Seq<
    u8,
>;

/// Relies on `image::imageops::resize`: it returns a buffer of exactly
/// `nw` by `nh` pixels, a pure function of the input samples, the input
/// dimensions and the kernel. `ImageBuffer::from_raw` wraps the byte vector
/// (it returns `Some` because the vector holds exactly 3 bytes per pixel)
/// and `into_raw` unwraps the result.
#[verifier::external_body]
fn resample_bytes(bytes: Vec<u8>, ow: u32, oh: u32, nw: u32, nh: u32, filter: &Filter) -> (r: Vec<
    u8,
>)
    requires
        bytes@.len() == 3 * ow * oh,
        nw >= 1,
        nh >= 1,
        3 * nw * nh <= usize::MAX,
    ensures
        r@.len() == 3 * nw * nh,
        r@ == resampled(bytes@, ow as int, oh as int, nw as int, nh as int, filter_sel(*filter)),
{
    let ft = match filter {
        Filter::Nearest => image::imageops::FilterType::Nearest,
        Filter::Triangle => image::imageops::FilterType::Triangle,
        Filter::CatmullRom => image::imageops::FilterType::CatmullRom,
        Filter::Gaussian => image::imageops::FilterType::Gaussian,
        Filter::Lanczos3 => image::imageops::FilterType::Lanczos3,
    };
    let buf: image::RgbImage = image::ImageBuffer::from_raw(ow, oh, bytes).unwrap();
    image::imageops::resize(&buf, nw, nh, ft).into_raw()
}

/// Rounded ratio: `round(a * b / c)` for positive `c`.
pub open spec fn spec_round_ratio(a: int, b: int, c: int) -> int {
    (2 * a * b + c) / (2 * c)
}

/// The target grid resolved from a dimension request, or `None` where the
/// request is invalid: no dimension given, a given dimension zero, or an
/// aspect-preserving request whose other dimension cannot be derived
/// (degenerate input) or rounds to zero.
pub open spec fn spec_resolve_dims(ow: int, oh: int, dw: Option<u32>, dh: Option<u32>) -> Option<
    (int, int),
> {
    match (dw, dh) {
        (Some(w), Some(h)) => if w >= 1 && h >= 1 {
            Some((w as int, h as int))
        } else {
            None
        },
        (Some(w), None) => if w >= 1 && ow >= 1 && oh >= 1 && spec_round_ratio(w as int, oh, ow)
            >= 1 {
            Some((w as int, spec_round_ratio(w as int, oh, ow)))
        } else {
            None
        },
        (None, Some(h)) => if h >= 1 && ow >= 1 && oh >= 1 && spec_round_ratio(h as int, ow, oh)
            >= 1 {
            Some((spec_round_ratio(h as int, ow, oh), h as int))
        } else {
            None
        },
        (None, None) => None,
    }
}

/// Machine limit: the resolved target, if any, fits the address space
/// (dimensions in `u32`, 3 bytes per pixel in `usize`).
pub open spec fn target_fits(ow: int, oh: int, dw: Option<u32>, dh: Option<u32>) -> bool {
    match spec_resolve_dims(ow, oh, dw, dh) {
        Some((nw, nh)) => nw <= u32::MAX && nh <= u32::MAX && 3 * nw * nh <= usize::MAX,
        None => true,
    }
}

/// Rounded ratio of `u32` values, exact in wide arithmetic.
fn round_ratio(a: u32, b: u32, c: u32) -> (r: u128)
    requires
        c >= 1,
    ensures
        r == spec_round_ratio(a as int, b as int, c as int),
{
    proof {
        assert(0 <= 2 * (a as int) * (b as int) + (c as int)
            <= 0xffff_ffff_ffff_ffff_ffff_ffff) by (nonlinear_arith)
            requires
                a <= 0xffff_ffffu32,
                b <= 0xffff_ffffu32,
                c <= 0xffff_ffffu32,
        ;
    }
    (2 * (a as u128) * (b as u128) + (c as u128)) / (2 * (c as u128))
}

/// Resolves a dimension request against the input dimensions, exactly as
/// `spec_resolve_dims` says, rejecting invalid requests.
pub fn resolve_dims(ow: u32, oh: u32, dim: (Option<u32>, Option<u32>)) -> (r: Result<
    (u32, u32),
    CoreError,
>)
    requires
        target_fits(ow as int, oh as int, dim.0, dim.1),
    ensures
        match r {
            Ok((nw, nh)) => spec_resolve_dims(ow as int, oh as int, dim.0, dim.1) == Some(
                (nw as int, nh as int),
            ),
            Err(e) => e == CoreError::InvalidDimensions && spec_resolve_dims(
                ow as int,
                oh as int,
                dim.0,
                dim.1,
            ) is None,
        },
{
    match dim {
        (Some(w), Some(h)) => {
            if w >= 1 && h >= 1 {
                Ok((w, h))
            } else {
                Err(CoreError::InvalidDimensions)
            }
        },
        (Some(w), None) => {
            if w >= 1 && ow >= 1 && oh >= 1 {
                let nh = round_ratio(w, oh, ow);
                if nh >= 1 {
                    Ok((w, nh as u32))
                } else {
                    Err(CoreError::InvalidDimensions)
                }
            } else {
                Err(CoreError::InvalidDimensions)
            }
        },
        (None, Some(h)) => {
            if h >= 1 && ow >= 1 && oh >= 1 {
                let nw = round_ratio(h, ow, oh);
                if nw >= 1 {
                    Ok((nw as u32, h))
                } else {
                    Err(CoreError::InvalidDimensions)
                }
            } else {
                Err(CoreError::InvalidDimensions)
            }
        },
        (None, None) => Err(CoreError::InvalidDimensions),
    }
}

/// An aspect-preserving target preserves the width/height ratio to within
/// half a pixel of rounding: with `nh` derived from a width request `w`,
/// the cross products `nh * ow` and `w * oh` differ by at most `ow / 2`.
pub proof fn lemma_aspect_preserved(ow: int, oh: int, w: int, nh: int)
    requires
        ow >= 1,
        oh >= 1,
        w >= 1,
        nh == spec_round_ratio(w, oh, ow),
    ensures
        -ow < 2 * (nh * ow - w * oh) <= ow,
{
    let n = 2 * w * oh + ow;
    let d = 2 * ow;
    vstd::arithmetic::div_mod::lemma_fundamental_div_mod(n, d);
    let q = n / d;
    let m = n % d;
    vstd::arithmetic::div_mod::lemma_mod_bound(n, d);
    assert(n == d * q + m);
    assert(2 * (q * ow - w * oh) == ow - m) by (nonlinear_arith)
        requires
            n == d * q + m,
            n == 2 * w * oh + ow,
            d == 2 * ow,
    ;
}

/// Exact-stretch requests resolve to exactly the requested dimensions.
pub proof fn lemma_exact_stretch(ow: int, oh: int, w: u32, h: u32)
    requires
        w >= 1,
        h >= 1,
    ensures
        spec_resolve_dims(ow, oh, Some(w), Some(h)) == Some((w as int, h as int)),
{
}

/// The 8-bit sample stream of a pixel sequence: 3 bytes per pixel, each
/// channel reduced from `SCALE` units to the 255-step scale.
pub open spec fn spec_bytes_of(s: Seq<Px>) -> Seq<u8>
    decreases s.len(),
{
    if s.len() == 0 {
        Seq::empty()
    } else {
        spec_bytes_of(s.drop_last()) + seq![
            (s.last().r / 16) as u8,
            (s.last().g / 16) as u8,
            (s.last().b / 16) as u8,
        ]
    }
}

/// The pixel a single 8-bit RGB sample stands for, in `SCALE` units.
pub open spec fn spec_px_of_sample(r: u8, g: u8, b: u8) -> Px {
    Px { r: (16 * r) as i32, g: (16 * g) as i32, b: (16 * b) as i32 }
}

/// The pixel sequence a whole 8-bit sample stream stands for.
pub open spec fn spec_pxs_of_bytes(b: Seq<u8>) -> Seq<Px> {
    Seq::new(b.len() / 3, |i: int| spec_px_of_sample(b[3 * i], b[3 * i + 1], b[3 * i + 2]))
}

/// Emits the 8-bit sample stream of the buffer's pixels.
fn bytes_of_image(img: &Image) -> (r: Vec<u8>)
    requires
        img.wf(),
        img.in_range(),
        3 * (img.width * img.height) <= usize::MAX,
    ensures
        r@ == spec_bytes_of(img.pixels@),
        r@.len() == 3 * img.pixels@.len(),
{
    let n = img.pixels.len();
    let mut out: Vec<u8> = Vec::new();
    let mut i: usize = 0;
    while i < n
        invariant
            n == img.pixels@.len(),
            img.in_range(),
            3 * n <= usize::MAX,
            i <= n,
            out@ == spec_bytes_of(img.pixels@.take(i as int)),
            out@.len() == 3 * i,
        decreases n - i,
    {
        let p = img.pixels[i];
        proof {
            assert(p.in_range());
        }
        out.push((p.r / 16) as u8);
        out.push((p.g / 16) as u8);
        out.push((p.b / 16) as u8);
        proof {
            let pre = img.pixels@.take(i as int);
            let post = img.pixels@.take(i + 1);
            assert(post.drop_last() =~= pre);
            assert(post.last() == p);
            assert(out@ =~= spec_bytes_of(post));
        }
        i = i + 1;
    }
    proof {
        assert(img.pixels@.take(n as int) =~= img.pixels@);
    }
    out
}

/// Builds a buffer from an 8-bit sample stream of `nw` by `nh` pixels.
fn image_of_bytes(bytes: &Vec<u8>, nw: u32, nh: u32) -> (r: Image)
    requires
        bytes@.len() == 3 * nw * nh,
    ensures
        r.wf(),
        r.in_range(),
        r.width == nw,
        r.height == nh,
        r.pixels@ == spec_pxs_of_bytes(bytes@),
{
    proof {
        assert(3 * ((nw as int) * (nh as int)) == 3 * nw * nh) by (nonlinear_arith);
        assert((nw as int) * (nh as int) <= 3 * ((nw as int) * (nh as int))) by (nonlinear_arith);
    }
    // Reading the length pins the byte count within the address space.
    let total: usize = bytes.len();
    let n = (nw as usize) * (nh as usize);
    let mut pixels: Vec<Px> = Vec::new();
    let mut i: usize = 0;
    while i < n
        invariant
            3 * n == bytes@.len(),
            3 * n <= usize::MAX,
            i <= n,
            pixels@.len() == i,
            forall|j: int| 0 <= j < i ==> pixels@[j] == spec_pxs_of_bytes(bytes@)[j],
        decreases n - i,
    {
        let r = bytes[3 * i];
        let g = bytes[3 * i + 1];
        let b = bytes[3 * i + 2];
        pixels.push(Px { r: 16 * (r as i32), g: 16 * (g as i32), b: 16 * (b as i32) });
        i = i + 1;
    }
    proof {
        assert(pixels@ =~= spec_pxs_of_bytes(bytes@));
        assert(forall|j: int|
            0 <= j < pixels@.len() ==> (#[trigger] pixels@[j]).in_range()) by {
            assert(forall|j: int|
                0 <= j < pixels@.len() ==> #[trigger] spec_pxs_of_bytes(bytes@)[j].in_range());
        }
    }
    Image { width: nw as usize, height: nh as usize, pixels }
}

/// Rescales the buffer to the dimensions the request resolves to, with the
/// given interpolation kernel. A width-only or height-only request derives
/// the other dimension from the input's aspect ratio by rounding; a request
/// with both dimensions stretches exactly. Invalid requests are rejected
/// with `InvalidDimensions` before any resampling.
pub fn resize(image: Image, dim: (Option<u32>, Option<u32>), filter: Filter) -> (r: Result<
    Image,
    CoreError,
>)
    requires
        image.wf(),
        image.in_range(),
        image.width <= u32::MAX,
        image.height <= u32::MAX,
        3 * (image.width * image.height) <= usize::MAX,
        target_fits(image.width as int, image.height as int, dim.0, dim.1),
    ensures
        match r {
            Ok(out) => {
                &&& spec_resolve_dims(image.width as int, image.height as int, dim.0, dim.1)
                    == Some((out.width as int, out.height as int))
                &&& out.wf()
                &&& out.in_range()
                &&& out.pixels@ == spec_pxs_of_bytes(
                    resampled(
                        spec_bytes_of(image.pixels@),
                        image.width as int,
                        image.height as int,
                        out.width as int,
                        out.height as int,
                        filter_sel(filter),
                    ),
                )
            },
            Err(e) => e == CoreError::InvalidDimensions && spec_resolve_dims(
                image.width as int,
                image.height as int,
                dim.0,
                dim.1,
            ) is None,
        },
{
    let ow = image.width as u32;
    let oh = image.height as u32;
    let (nw, nh) = match resolve_dims(ow, oh, dim) {
        Ok(d) => d,
        Err(e) => {
            return Err(e);
        },
    };
    let bytes = bytes_of_image(&image);
    proof {
        assert(3 * ((ow as int) * (oh as int)) == 3 * ow * oh) by (nonlinear_arith);
    }
    let out_bytes = resample_bytes(bytes, ow, oh, nw, nh, &filter);
    Ok(image_of_bytes(&out_bytes, nw, nh))
}

} // verus!
