use vstd::prelude::*;

use crate::utils::{align_up, align_up_spec, is_pow2, is_power_of_two};

verus! {

/// The size and alignment of a memory request.
#[derive(Clone, Copy, Debug, PartialEq, Eq, Structural)]
pub struct Layout {
    pub size: usize,
    pub align: usize,
}

impl Layout {
    /// The alignment is a positive power of two.
    pub open spec fn wf(self) -> bool {
        is_pow2(self.align as int)
    }

    /// Builds a layout, or `None` when `align` is not a power of two.
    pub fn from_size_align(size: usize, align: usize) -> (r: Option<Layout>)
        ensures
            r == (if is_pow2(align as int) {
                Some(Layout { size, align })
            } else {
                None::<Layout>
            }),
    {
        if is_power_of_two(align) {
            Some(Layout { size, align })
        } else {
            None
        }
    }

    pub fn size(&self) -> (r: usize)
        ensures
            r == self.size,
    {
        self.size
    }

    pub fn align(&self) -> (r: usize)
        ensures
            r == self.align,
    {
        self.align
    }

    /// The layout grown to the next multiple of `align` and carrying that alignment,
    /// or `None` when the rounded size does not fit in a `usize`.
    pub open spec fn padded_spec(self, align: int) -> Option<Layout> {
        if self.size + align - 1 <= usize::MAX {
            Some(Layout { size: align_up_spec(self.size as int, align) as usize, align: align as usize })
        } else {
            None
        }
    }

    /// Pads the layout up to a multiple of `align`, with `align` as its alignment.
    pub fn padded(&self, align: usize) -> (r: Option<Layout>)
        requires
            is_pow2(align as int),
        ensures
            r == self.padded_spec(align as int),
    {
        if self.size > usize::MAX - (align - 1) {
            None
        } else {
            Some(Layout { size: align_up(self.size, align), align })
        }
    }
}

} // verus!
