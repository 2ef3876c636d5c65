//! Terminal image rendering: rescale a decoded RGB buffer to character-cell
//! dimensions, then turn it into text built from ANSI truecolor half-blocks,
//! a greyscale ramp, a custom brightness gradient, or braille dot glyphs,
//! optionally after a Floyd-Steinberg dithering pass.
//!
//! Pixels are fixed-point: a channel is stored in units of 1/4080 of full
//! intensity, so 8-bit samples (multiples of 1/255), the half threshold,
//! and the sixteenth-fractions of error diffusion are all exact.

use vstd::prelude::*;

pub mod dither;
pub mod pixel;
pub mod resizing;
pub mod styling;

verus! {

/// Failures the rendering core detects before processing any pixel.
#[derive(Clone, Copy, PartialEq, Eq, Structural, Debug)]
pub enum CoreError {
    /// A requested or computed target dimension is zero, or no target
    /// dimension was given at all.
    InvalidDimensions,
    /// The gradient style was selected with a zero-length glyph ramp.
    EmptyGradientRamp,
}

} // verus!
