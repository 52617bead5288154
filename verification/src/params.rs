//! Pooling parameters shared by every component of the backward pass.

use vstd::prelude::*;

verus! {

/// Parameters of a 2-D average pooling layer. Padding is symmetric on both
/// sides of each spatial axis; `count_include_pad` chooses whether the
/// averaging divisor is the nominal kernel area or the clipped overlap area.
#[derive(Clone, Copy, Debug, PartialEq, Eq, Structural)]
pub struct PoolParams {
    pub kernel_h: usize,
    pub kernel_w: usize,
    pub stride_h: usize,
    pub stride_w: usize,
    pub padding_h: usize,
    pub padding_w: usize,
    pub dilation_h: usize,
    pub dilation_w: usize,
    pub count_include_pad: bool,
}

impl PoolParams {
    /// Kernel and stride are positive, dilation is positive, and the nominal
    /// kernel area can be formed in a `usize`.
    pub open spec fn wf(self) -> bool {
        &&& self.kernel_h >= 1
        &&& self.kernel_w >= 1
        &&& self.stride_h >= 1
        &&& self.stride_w >= 1
        &&& self.dilation_h >= 1
        &&& self.dilation_w >= 1
        &&& self.kernel_h * self.kernel_w <= usize::MAX
    }

    /// Dilation one between window taps, the only value the entry point
    /// drives; the candidate-range arithmetic is verified for this value.
    pub open spec fn unit_dilation(self) -> bool {
        self.dilation_h == 1 && self.dilation_w == 1
    }
}

} // verus!
