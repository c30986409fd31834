//! Y offsets within a cell, relative to the cell's base (the support level).
//!
//! A gate's output emerges one level *below* its input. That asymmetry is
//! forced by physics rather than chosen: the block above a torch is strongly
//! powered, and a strongly powered block energises every adjacent dust,
//! including the cell's own input pad. Taking the output from beside the torch
//! instead keeps input and output electrically isolated. Routing pays for it
//! with a one-block ramp between levels.
use vstd::prelude::*;

verus! {

/// Torch support blocks and the pad substrate.
pub const SUPPORT: i32 = 0;

/// Input pad dust and the fan-in repeaters.
pub const IN: i32 = 1;

/// Opaque roof over the pad, isolating it from anything routed above.
pub const ROOF: i32 = 2;

/// Output dust, one level below the input plane.
pub const OUT: i32 = 0;

} // verus!
