//! Brush samples, as the bits of their numbers.

use crate::stroke::{is_finite, is_number, magnitude, without_sign};
use vstd::prelude::*;

verus! {

#[derive(Clone, Copy, Debug, PartialEq, Eq, Structural)]
pub enum BrushError {
    InvalidSample,
    StrokeFinalized,
}

/// Where a pen is, how hard it presses and how it leans.
#[derive(Clone, Copy, Debug, PartialEq, Eq)]
pub struct BrushSample {
    pub position: [u32; 2],
    pub pressure: u32,
    pub tilt: [u32; 2],
}

fn finite(bits: u32) -> (finite: bool)
    ensures
        finite == is_finite(bits),
{
    without_sign(bits) < 0x7f80_0000
}

/// Whether every number of the sample is finite.
pub open spec fn sample_finite(sample: BrushSample) -> bool {
    &&& is_finite(sample.position[0])
    &&& is_finite(sample.position[1])
    &&& is_finite(sample.pressure)
    &&& is_finite(sample.tilt[0])
    &&& is_finite(sample.tilt[1])
}

impl BrushSample {
    pub fn with_tilt(position: [u32; 2], pressure: u32, tilt: [u32; 2]) -> (sample: BrushSample)
        ensures
            sample == (BrushSample { position, pressure, tilt }),
    {
        BrushSample { position, pressure, tilt }
    }

    pub fn is_finite(self) -> (all: bool)
        ensures
            all == sample_finite(self),
    {
        finite(self.position[0]) && finite(self.position[1]) && finite(self.pressure) && finite(
            self.tilt[0],
        ) && finite(self.tilt[1])
    }
}

/// A blade with paint on it.
#[derive(Clone, Copy, Debug, PartialEq, Eq)]
pub struct PaletteKnifeBrush {
    pub color: [u32; 3],
    pub diameter: u32,
    pub opacity: u32,
}

/// A number brought between zero and one. What is no number stays none.
pub open spec fn clamped_to_unit(bits: u32) -> u32 {
    if !is_number(bits) {
        bits
    } else if bits > 0x8000_0000 {
        0
    } else if 0x3f80_0000 < bits < 0x8000_0000 {
        0x3f80_0000
    } else {
        bits
    }
}

pub(crate) fn clamp_to_unit(bits: u32) -> (clamped: u32)
    ensures
        clamped == clamped_to_unit(bits),
{
    if without_sign(bits) > 0x7f80_0000 {
        bits
    } else if bits > 0x8000_0000 {
        0
    } else if 0x3f80_0000 < bits && bits < 0x8000_0000 {
        0x3f80_0000
    } else {
        bits
    }
}

/// Whether a number is zero, with either sign.
pub open spec fn is_zero(bits: u32) -> bool {
    magnitude(bits) == 0
}

/// What a blade does with the canvas.
#[derive(Clone, Copy, Debug, PartialEq, Eq, Structural)]
pub enum BladeContact {
    /// It leaves the canvas, or stays off it.
    Lift,
    /// It comes down.
    Touch,
    /// It moves on.
    Sweep,
}

/// A blade is off the canvas while it is not pressed down or lays down no paint. On the canvas it
/// moves on from where it was, if it was there.
pub open spec fn contact_with(pressure: u32, opacity: u32, had_contact: bool) -> BladeContact {
    if is_zero(clamped_to_unit(pressure)) || is_zero(opacity) {
        BladeContact::Lift
    } else if had_contact {
        BladeContact::Sweep
    } else {
        BladeContact::Touch
    }
}

pub fn contact_step(pressure: u32, opacity: u32, had_contact: bool) -> (step: BladeContact)
    ensures
        step == contact_with(pressure, opacity, had_contact),
{
    if without_sign(clamp_to_unit(pressure)) == 0 || without_sign(opacity) == 0 {
        BladeContact::Lift
    } else if had_contact {
        BladeContact::Sweep
    } else {
        BladeContact::Touch
    }
}

} // verus!
