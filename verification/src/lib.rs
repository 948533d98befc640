//! An escape-time fractal renderer, split into a verified core and a thin
//! unverified boundary.
//!
//! The core maps a rectangular region of the complex plane onto a grayscale
//! pixel grid: a pair parser for the textual inputs, the escape-time decision
//! rule, the shading of escape counts into bytes, and the partition of the
//! buffer into disjoint horizontal bands, one per concurrent worker.

use vstd::prelude::*;

pub mod arith;
pub mod bands;
pub mod escape;
pub mod parse;
pub mod render;
pub mod table;

verus! {

/// Width and height of a pixel grid, in pixels.
#[derive(Clone, Copy, Debug)]
pub struct Bounds {
    pub width: usize,
    pub height: usize,
}

impl Bounds {
    /// Number of bytes of a grayscale buffer with these bounds.
    pub open spec fn area(self) -> int {
        self.width * self.height
    }
}

} // verus!
