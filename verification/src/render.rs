//! Render quality settings.

use vstd::prelude::*;

verus! {

/// Bounce depth of the final-quality render.
pub const MAX_DEPTH: u32 = 3;

/// Render quality: lower values give fast frames for the interactive view,
/// higher ones the final quality.
#[derive(Clone, Copy)]
pub struct RenderOpts {
    /// `samples` by `samples` supersampling per pixel (antialiasing).
    pub samples: usize,
    /// Maximum reflection / refraction bounces.
    pub max_depth: u32,
    pub threads: usize,
}

impl Default for RenderOpts {
    fn default() -> (r: RenderOpts)
        ensures
            r.samples == 2,
            r.max_depth == MAX_DEPTH,
            r.threads == 4,
    {
        RenderOpts { samples: 2, max_depth: MAX_DEPTH, threads: 4 }
    }
}

} // verus!
